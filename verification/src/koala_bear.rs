//! The prime field of order `2^31 - 2^24 + 1`.

use p3_field::{Field as P3Field, PrimeCharacteristicRing, PrimeField32};
use vstd::arithmetic::div_mod::*;
use vstd::arithmetic::mul::*;
use vstd::prelude::*;

use crate::field::{Field, Ring};

verus! {

/// The order of the field, `2^31 - 2^24 + 1`.
pub const KOALA_BEAR_ORDER: u32 = 0x7f00_0001;

/// `p3_koala_bear::KoalaBear::new` reduces any `u32` modulo the order, and
/// `PrimeField32::as_canonical_u32` returns the residue below the order.
#[verifier::external_body]
fn p3_reduce(value: u32) -> (r: u32)
    ensures
        r == value % KOALA_BEAR_ORDER,
{
    p3_koala_bear::KoalaBear::new(value).as_canonical_u32()
}

/// Addition of `p3_koala_bear::KoalaBear` elements is addition modulo the order.
#[verifier::external_body]
fn p3_add(lhs: u32, rhs: u32) -> (r: u32)
    ensures
        r == (lhs + rhs) % (KOALA_BEAR_ORDER as int),
{
    (p3_koala_bear::KoalaBear::new(lhs) + p3_koala_bear::KoalaBear::new(rhs)).as_canonical_u32()
}

/// Subtraction of `p3_koala_bear::KoalaBear` elements is subtraction modulo the
/// order.
#[verifier::external_body]
fn p3_sub(lhs: u32, rhs: u32) -> (r: u32)
    ensures
        r == (lhs - rhs) % (KOALA_BEAR_ORDER as int),
{
    (p3_koala_bear::KoalaBear::new(lhs) - p3_koala_bear::KoalaBear::new(rhs)).as_canonical_u32()
}

/// Negation of a `p3_koala_bear::KoalaBear` element is negation modulo the order.
#[verifier::external_body]
fn p3_neg(value: u32) -> (r: u32)
    ensures
        r == (-(value as int)) % (KOALA_BEAR_ORDER as int),
{
    (-p3_koala_bear::KoalaBear::new(value)).as_canonical_u32()
}

/// Multiplication of `p3_koala_bear::KoalaBear` elements is multiplication modulo
/// the order.
#[verifier::external_body]
fn p3_mul(lhs: u32, rhs: u32) -> (r: u32)
    ensures
        r == (lhs * rhs) % (KOALA_BEAR_ORDER as int),
{
    (p3_koala_bear::KoalaBear::new(lhs) * p3_koala_bear::KoalaBear::new(rhs)).as_canonical_u32()
}

/// `Field::try_inverse` on `p3_koala_bear::KoalaBear` returns `None` on zero and
/// the multiplicative inverse on every other element.
#[verifier::external_body]
fn p3_try_inverse(value: u32) -> (r: Option<u32>)
    ensures
        r is None <==> value % KOALA_BEAR_ORDER == 0,
        r matches Some(inverse) ==> inverse < KOALA_BEAR_ORDER && (value * inverse) % (
        KOALA_BEAR_ORDER as int) == 1,
{
    p3_koala_bear::KoalaBear::new(value).try_inverse().map(|x| x.as_canonical_u32())
}

/// `PrimeCharacteristicRing::from_usize` on `p3_koala_bear::KoalaBear` reduces the
/// integer modulo the order.
#[verifier::external_body]
fn p3_from_usize(value: usize) -> (r: u32)
    ensures
        r == value as int % (KOALA_BEAR_ORDER as int),
{
    p3_koala_bear::KoalaBear::from_usize(value).as_canonical_u32()
}

/// An element of the field, held as its canonical residue.
#[derive(Debug, Clone, Copy, PartialEq, Eq, Hash, Structural)]
pub struct KoalaBear {
    value: u32,
}

impl KoalaBear {
    /// The residue that the element holds.
    pub closed spec fn residue(self) -> int {
        self.value as int
    }

    /// The element with residue `value % KOALA_BEAR_ORDER`.
    pub open spec fn of(value: int) -> KoalaBear {
        KoalaBear::holding(value % (KOALA_BEAR_ORDER as int))
    }

    pub closed spec fn holding(residue: int) -> KoalaBear {
        KoalaBear { value: residue as u32 }
    }

    pub proof fn of_has_residue(value: int)
        ensures
            KoalaBear::of(value).residue() == value % (KOALA_BEAR_ORDER as int),
            0 <= KoalaBear::of(value).residue() < KOALA_BEAR_ORDER,
    {
    }

    /// The element congruent to `value`.
    pub fn new(value: u32) -> (r: KoalaBear)
        ensures
            r == KoalaBear::of(value as int),
            r.canonical(),
    {
        KoalaBear { value: p3_reduce(value) }
    }

    /// The residue below the order that stands for the element.
    pub fn as_canonical_u32(self) -> (r: u32)
        ensures
            r == self.residue(),
    {
        self.value
    }
}

impl Ring for KoalaBear {
    open spec fn canonical(self) -> bool {
        0 <= self.residue() < KOALA_BEAR_ORDER
    }

    open spec fn spec_zero() -> Self {
        KoalaBear::of(0)
    }

    open spec fn spec_one() -> Self {
        KoalaBear::of(1)
    }

    open spec fn spec_add(self, rhs: Self) -> Self {
        KoalaBear::of(self.residue() + rhs.residue())
    }

    open spec fn spec_sub(self, rhs: Self) -> Self {
        KoalaBear::of(self.residue() - rhs.residue())
    }

    open spec fn spec_neg(self) -> Self {
        KoalaBear::of(-self.residue())
    }

    open spec fn spec_mul(self, rhs: Self) -> Self {
        KoalaBear::of(self.residue() * rhs.residue())
    }

    fn zero() -> (r: Self) {
        KoalaBear { value: 0 }
    }

    fn one() -> (r: Self) {
        KoalaBear { value: 1 }
    }

    fn plus(self, rhs: Self) -> (r: Self) {
        KoalaBear { value: p3_add(self.value, rhs.value) }
    }

    fn minus(self, rhs: Self) -> (r: Self) {
        KoalaBear { value: p3_sub(self.value, rhs.value) }
    }

    fn negated(self) -> (r: Self) {
        KoalaBear { value: p3_neg(self.value) }
    }

    fn times(self, rhs: Self) -> (r: Self) {
        KoalaBear { value: p3_mul(self.value, rhs.value) }
    }

    proof fn results_are_canonical(a: Self, b: Self) {
    }

    proof fn add_is_commutative(a: Self, b: Self) {
    }

    proof fn add_is_associative(a: Self, b: Self, c: Self) {
        let p = KOALA_BEAR_ORDER as int;
        lemma_add_mod_noop_right(c.residue(), a.residue() + b.residue(), p);
        lemma_add_mod_noop_right(a.residue(), b.residue() + c.residue(), p);
    }

    proof fn mul_is_commutative(a: Self, b: Self) {
        lemma_mul_is_commutative(a.residue(), b.residue());
    }

    proof fn mul_is_associative(a: Self, b: Self, c: Self) {
        let p = KOALA_BEAR_ORDER as int;
        lemma_mul_mod_noop_left(a.residue() * b.residue(), c.residue(), p);
        lemma_mul_mod_noop_right(a.residue(), b.residue() * c.residue(), p);
        lemma_mul_is_associative(a.residue(), b.residue(), c.residue());
    }

    proof fn mul_distributes_over_add(a: Self, b: Self, c: Self) {
        let p = KOALA_BEAR_ORDER as int;
        lemma_mul_mod_noop_right(a.residue(), b.residue() + c.residue(), p);
        lemma_mul_is_distributive_add(a.residue(), b.residue(), c.residue());
        lemma_add_mod_noop(a.residue() * b.residue(), a.residue() * c.residue(), p);
    }

    proof fn zero_is_neutral(a: Self) {
    }

    proof fn one_is_neutral(a: Self) {
        assert(KoalaBear::of(1).residue() == 1);
        lemma_mul_basics(a.residue());
    }

    proof fn mul_by_zero(a: Self) {
        assert(KoalaBear::of(0).residue() == 0);
        lemma_mul_basics(a.residue());
    }

    proof fn sub_is_add_of_neg(a: Self, b: Self) {
        let p = KOALA_BEAR_ORDER as int;
        lemma_add_mod_noop_right(a.residue(), -b.residue(), p);
    }

    proof fn neg_cancels(a: Self) {
        let p = KOALA_BEAR_ORDER as int;
        lemma_add_mod_noop_right(a.residue(), -a.residue(), p);
    }
}

impl Field for KoalaBear {
    open spec fn spec_from_nat(n: nat) -> Self {
        KoalaBear::of(n as int)
    }

    fn from_usize(n: usize) -> (r: Self) {
        KoalaBear { value: p3_from_usize(n) }
    }

    fn is_zero(self) -> (r: bool) {
        p3_reduce(self.value) == 0
    }

    fn try_inverse(self) -> (r: Option<Self>) {
        match p3_try_inverse(self.value) {
            Some(value) => Some(KoalaBear { value }),
            None => None,
        }
    }

    open spec fn characteristic() -> nat {
        KOALA_BEAR_ORDER as nat
    }

    proof fn from_nat_counts_ones(n: nat) {
        let p = KOALA_BEAR_ORDER as int;
        lemma_add_mod_noop_right(1, n as int, p);
    }

    proof fn characteristic_divides(n: nat) {
        KoalaBear::of_has_residue(n as int);
        KoalaBear::of_has_residue(0);
        let residue = KoalaBear::spec_from_nat(n).residue();
        KoalaBear::of_has_residue(residue + KoalaBear::spec_zero().residue());
    }
}

impl crate::field::PrimeField32 for KoalaBear {
    open spec fn spec_order() -> u32 {
        KOALA_BEAR_ORDER
    }

    open spec fn spec_residue(self) -> int {
        self.residue() % (KOALA_BEAR_ORDER as int)
    }

    open spec fn of_residue(value: int) -> Self {
        KoalaBear::of(value)
    }

    fn order() -> (r: u32) {
        KOALA_BEAR_ORDER
    }

    fn canonical_u32(self) -> (r: u32) {
        p3_reduce(self.value)
    }

    fn from_u32(value: u32) -> (r: Self) {
        KoalaBear::new(value)
    }

    proof fn residues_compute(a: Self, b: Self) {
        let p = KOALA_BEAR_ORDER as int;
        let (x, y) = (a.residue(), b.residue());
        KoalaBear::of_has_residue(0);
        KoalaBear::of_has_residue(x + y);
        KoalaBear::of_has_residue(x - y);
        KoalaBear::of_has_residue(-x);
        KoalaBear::of_has_residue(x * y);
        lemma_mod_twice(x + y, p);
        lemma_mod_twice(x - y, p);
        lemma_mod_twice(-x, p);
        lemma_mod_twice(x * y, p);
        lemma_add_mod_noop(x, y, p);
        lemma_sub_mod_noop(x, y, p);
        lemma_sub_mod_noop(0, x, p);
        lemma_mul_mod_noop_general(x, y, p);
        lemma_small_mod(0, p as nat);
    }

    proof fn residue_stands_for_element(a: Self) {
        let p = KOALA_BEAR_ORDER as int;
        KoalaBear::of_has_residue(0);
        lemma_mod_twice(a.residue(), p);
    }
}

} // verus!
