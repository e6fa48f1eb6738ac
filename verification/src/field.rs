//! The algebra that every other module is written against.
//!
//! A [`Ring`] gives each executable operation a specification function on the
//! element type itself, together with proofs of the ring laws. The laws that
//! need no reduced representative hold of every value; the two unit laws hold
//! of `canonical` values, which is what every operation returns.

use vstd::prelude::*;

verus! {

/// A commutative ring with one.
pub trait Ring: Copy {
    /// Whether the value is the reduced representative of its element.
    spec fn canonical(self) -> bool;

    spec fn spec_zero() -> Self;

    spec fn spec_one() -> Self;

    spec fn spec_add(self, rhs: Self) -> Self;

    spec fn spec_sub(self, rhs: Self) -> Self;

    spec fn spec_neg(self) -> Self;

    spec fn spec_mul(self, rhs: Self) -> Self;

    /// The additive identity.
    fn zero() -> (r: Self)
        ensures
            r == Self::spec_zero(),
    ;

    /// The multiplicative identity.
    fn one() -> (r: Self)
        ensures
            r == Self::spec_one(),
    ;

    /// The sum of two elements.
    fn plus(self, rhs: Self) -> (r: Self)
        ensures
            r == self.spec_add(rhs),
    ;

    /// The difference of two elements.
    fn minus(self, rhs: Self) -> (r: Self)
        ensures
            r == self.spec_sub(rhs),
    ;

    /// The additive inverse.
    fn negated(self) -> (r: Self)
        ensures
            r == self.spec_neg(),
    ;

    /// The product of two elements.
    fn times(self, rhs: Self) -> (r: Self)
        ensures
            r == self.spec_mul(rhs),
    ;

    /// Every operation returns a reduced representative.
    proof fn results_are_canonical(a: Self, b: Self)
        ensures
            Self::spec_zero().canonical(),
            Self::spec_one().canonical(),
            a.spec_add(b).canonical(),
            a.spec_sub(b).canonical(),
            a.spec_neg().canonical(),
            a.spec_mul(b).canonical(),
    ;

    proof fn add_is_commutative(a: Self, b: Self)
        ensures
            a.spec_add(b) == b.spec_add(a),
    ;

    proof fn add_is_associative(a: Self, b: Self, c: Self)
        ensures
            a.spec_add(b).spec_add(c) == a.spec_add(b.spec_add(c)),
    ;

    proof fn mul_is_commutative(a: Self, b: Self)
        ensures
            a.spec_mul(b) == b.spec_mul(a),
    ;

    proof fn mul_is_associative(a: Self, b: Self, c: Self)
        ensures
            a.spec_mul(b).spec_mul(c) == a.spec_mul(b.spec_mul(c)),
    ;

    proof fn mul_distributes_over_add(a: Self, b: Self, c: Self)
        ensures
            a.spec_mul(b.spec_add(c)) == a.spec_mul(b).spec_add(a.spec_mul(c)),
    ;

    proof fn zero_is_neutral(a: Self)
        requires
            a.canonical(),
        ensures
            Self::spec_zero().spec_add(a) == a,
    ;

    proof fn one_is_neutral(a: Self)
        requires
            a.canonical(),
        ensures
            Self::spec_one().spec_mul(a) == a,
    ;

    proof fn mul_by_zero(a: Self)
        ensures
            a.spec_mul(Self::spec_zero()) == Self::spec_zero(),
    ;

    proof fn sub_is_add_of_neg(a: Self, b: Self)
        ensures
            a.spec_sub(b) == a.spec_add(b.spec_neg()),
    ;

    proof fn neg_cancels(a: Self)
        ensures
            a.spec_add(a.spec_neg()) == Self::spec_zero(),
    ;
}

/// A field, of which the element of each integer is known.
pub trait Field: Ring {
    /// The sum of `n` ones.
    spec fn spec_from_nat(n: nat) -> Self;

    /// The least positive number of ones whose sum is zero.
    spec fn characteristic() -> nat;

    /// The element of the integer `n`.
    fn from_usize(n: usize) -> (r: Self)
        ensures
            r == Self::spec_from_nat(n as nat),
    ;

    /// Whether the element is the additive identity.
    fn is_zero(self) -> (r: bool)
        ensures
            r == vanishes(self),
    ;

    /// The multiplicative inverse, which every element but zero has.
    fn try_inverse(self) -> (r: Option<Self>)
        ensures
            r is None <==> vanishes(self),
            r matches Some(inverse) ==> inverse.canonical() && self.spec_mul(inverse)
                == Self::spec_one(),
    ;

    proof fn from_nat_counts_ones(n: nat)
        ensures
            Self::spec_from_nat(0) == Self::spec_zero(),
            Self::spec_from_nat(1) == Self::spec_one(),
            Self::spec_from_nat(n + 1) == Self::spec_from_nat(n).spec_add(Self::spec_one()),
    ;

    proof fn characteristic_divides(n: nat)
        ensures
            Self::characteristic() > 1,
            vanishes(Self::spec_from_nat(n)) <==> n % Self::characteristic() == 0,
    ;
}

/// A prime field whose residues fit in 32 bits.
pub trait PrimeField32: Field {
    spec fn spec_order() -> u32;

    /// The residue below the order that stands for the element.
    spec fn spec_residue(self) -> int;

    /// The element congruent to an integer.
    spec fn of_residue(value: int) -> Self;

    /// The number of elements.
    fn order() -> (r: u32)
        ensures
            r == Self::spec_order(),
    ;

    /// The residue below the order that stands for the element.
    fn canonical_u32(self) -> (r: u32)
        ensures
            r == self.spec_residue(),
    ;

    /// The element congruent to an integer.
    fn from_u32(value: u32) -> (r: Self)
        ensures
            r == Self::of_residue(value as int),
    ;

    /// The residues compute modulo the order.
    proof fn residues_compute(a: Self, b: Self)
        ensures
            Self::spec_order() > 1,
            0 <= a.spec_residue() < Self::spec_order(),
            Self::spec_zero().spec_residue() == 0,
            a.spec_add(b).spec_residue() == (a.spec_residue() + b.spec_residue()) % (
            Self::spec_order() as int),
            a.spec_sub(b).spec_residue() == (a.spec_residue() - b.spec_residue()) % (
            Self::spec_order() as int),
            a.spec_neg().spec_residue() == (-a.spec_residue()) % (Self::spec_order() as int),
            a.spec_mul(b).spec_residue() == (a.spec_residue() * b.spec_residue()) % (
            Self::spec_order() as int),
    ;

    /// The residue of an element stands for the element.
    proof fn residue_stands_for_element(a: Self)
        ensures
            Self::of_residue(a.spec_residue()) == reduced(a),
    ;
}

/// A ring that contains a copy of `F`.
pub trait Algebra<F: Ring>: Ring {
    spec fn spec_embed(value: F) -> Self;

    /// The element that stands for `value`.
    fn embed(value: F) -> (r: Self)
        ensures
            r == Self::spec_embed(value),
    ;

    /// The copy of `F` computes as `F` does.
    proof fn embed_is_homomorphism(a: F, b: F)
        ensures
            Self::spec_embed(F::spec_zero()) == Self::spec_zero(),
            Self::spec_embed(F::spec_one()) == Self::spec_one(),
            Self::spec_embed(a.spec_add(b)) == Self::spec_embed(a).spec_add(Self::spec_embed(b)),
            Self::spec_embed(a.spec_sub(b)) == Self::spec_embed(a).spec_sub(Self::spec_embed(b)),
            Self::spec_embed(a.spec_neg()) == Self::spec_embed(a).spec_neg(),
            Self::spec_embed(a.spec_mul(b)) == Self::spec_embed(a).spec_mul(Self::spec_embed(b)),
    ;

    proof fn embed_keeps_canonical(a: F)
        ensures
            a.canonical() ==> Self::spec_embed(a).canonical(),
    ;
}

/// A field that contains a copy of `F`, whose elements are given by a fixed number of
/// coefficients in `F`.
pub trait ExtensionField<F: Field>: Field + Algebra<F> {
    /// The number of coefficients.
    spec fn spec_dimension() -> nat;

    /// The reduced coefficient at position `i`.
    spec fn coefficient(self, i: int) -> F;

    /// The element with the given coefficients.
    spec fn of_coefficients(coefficients: Seq<F>) -> Self;

    /// The number of coefficients.
    fn dimension() -> (r: usize)
        ensures
            r == Self::spec_dimension(),
            r > 0,
    ;

    /// The coefficient at position `i`.
    fn basis_coefficient(self, i: usize) -> (r: F)
        requires
            i < Self::spec_dimension(),
        ensures
            r == self.coefficient(i as int),
    ;

    /// The element with the given coefficients.
    fn from_basis_coefficients(coefficients: &[F]) -> (r: Self)
        requires
            coefficients@.len() == Self::spec_dimension(),
        ensures
            r == Self::of_coefficients(coefficients@),
    ;

    /// The coefficients compute one by one.
    proof fn coefficients_compute_alone(a: Self, b: Self, s: F, i: int)
        requires
            0 <= i < Self::spec_dimension(),
        ensures
            a.coefficient(i).canonical(),
            Self::spec_zero().coefficient(i) == F::spec_zero(),
            a.spec_add(b).coefficient(i) == a.coefficient(i).spec_add(b.coefficient(i)),
            a.spec_mul(Self::spec_embed(s)).coefficient(i) == a.coefficient(i).spec_mul(s),
    ;

    /// An element has the coefficients that it was made from.
    proof fn of_coefficients_has_coefficients(coefficients: Seq<F>, i: int)
        requires
            0 <= i < Self::spec_dimension(),
            coefficients.len() == Self::spec_dimension(),
        ensures
            Self::of_coefficients(coefficients).canonical(),
            Self::of_coefficients(coefficients).coefficient(i) == reduced(coefficients[i]),
    ;

    /// Reduced elements with the same coefficients are equal.
    proof fn coefficients_determine(a: Self, b: Self)
        requires
            a.canonical(),
            b.canonical(),
            forall|i: int|
                0 <= i < Self::spec_dimension() ==> #[trigger] a.coefficient(i) == b.coefficient(i),
        ensures
            a == b,
    ;
}

impl<F: Field> ExtensionField<F> for F {
    open spec fn spec_dimension() -> nat {
        1
    }

    open spec fn coefficient(self, i: int) -> F {
        reduced(self)
    }

    open spec fn of_coefficients(coefficients: Seq<F>) -> Self {
        reduced(coefficients[0])
    }

    fn dimension() -> (r: usize) {
        1
    }

    fn basis_coefficient(self, i: usize) -> (r: F) {
        F::zero().plus(self)
    }

    fn from_basis_coefficients(coefficients: &[F]) -> (r: Self) {
        F::zero().plus(coefficients[0])
    }

    proof fn coefficients_compute_alone(a: Self, b: Self, s: F, i: int) {
        let zero = F::spec_zero();
        F::results_are_canonical(zero, a);
        F::results_are_canonical(a, b);
        F::results_are_canonical(a, s);
        reduction(zero);
        reduction(a);
        reduction(b);
        reduction(a.spec_add(b));
        reduction(a.spec_mul(s));
        F::zero_is_neutral(zero);
        F::zero_is_neutral(a.spec_add(b));
        F::add_is_associative(zero, a, reduced(b));
        F::add_is_associative(a, zero, b);
        F::add_is_commutative(a, zero);
        F::add_is_associative(zero, a, b);
        F::mul_is_associative(F::spec_one(), a, s);
    }

    proof fn of_coefficients_has_coefficients(coefficients: Seq<F>, i: int) {
        reduction(coefficients[0]);
        reduction(reduced(coefficients[0]));
    }

    proof fn coefficients_determine(a: Self, b: Self) {
        assert(<F as ExtensionField<F>>::coefficient(a, 0) == <F as ExtensionField<F>>::coefficient(
            b,
            0,
        ));
        reduction(a);
        reduction(b);
    }
}

impl<F: Ring> Algebra<F> for F {
    open spec fn spec_embed(value: F) -> Self {
        value
    }

    fn embed(value: F) -> (r: Self) {
        value
    }

    proof fn embed_is_homomorphism(a: F, b: F) {
    }

    proof fn embed_keeps_canonical(a: F) {
    }
}

/// Whether an element, reduced, is zero.
pub open spec fn vanishes<F: Ring>(a: F) -> bool {
    a.spec_add(F::spec_zero()) == F::spec_zero()
}

/// The reduced element equal to `a`.
pub open spec fn reduced<F: Ring>(a: F) -> F {
    F::spec_zero().spec_add(a)
}

/// A reduced element is its own reduction, the reduction of any element is reduced, and
/// multiplying by one reduces.
pub proof fn reduction<F: Ring>(a: F)
    ensures
        a.canonical() ==> reduced(a) == a,
        reduced(a).canonical(),
        F::spec_one().spec_mul(a) == reduced(a),
        a.spec_mul(F::spec_one()) == reduced(a),
        vanishes(a) <==> reduced(a) == F::spec_zero(),
{
    let (zero, one) = (F::spec_zero(), F::spec_one());
    if a.canonical() {
        F::zero_is_neutral(a);
    }
    F::results_are_canonical(zero, a);
    F::results_are_canonical(one, a);
    F::one_is_neutral(reduced(a));
    F::mul_distributes_over_add(one, zero, a);
    F::mul_by_zero(one);
    F::zero_is_neutral(one.spec_mul(a));
    F::mul_is_commutative(one, a);
    F::add_is_commutative(zero, a);
}

/// Equal differences from zero: `a - b` vanishes exactly if `a` and `b` reduce to the
/// same element.
pub proof fn difference_vanishes<F: Ring>(a: F, b: F)
    ensures
        vanishes(a.spec_sub(b)) <==> reduced(a) == reduced(b),
        a.spec_sub(b).spec_add(b) == reduced(a),
{
    let zero = F::spec_zero();
    reduction(a);
    reduction(b);
    reduction(a.spec_sub(b));
    F::results_are_canonical(a, b);
    F::sub_is_add_of_neg(a, b);
    F::neg_cancels(b);
    F::add_is_associative(a, b.spec_neg(), b);
    F::add_is_commutative(b.spec_neg(), b);
    F::add_is_commutative(a, zero);
    if reduced(a) == reduced(b) {
        F::add_is_associative(zero, a, b.spec_neg());
        F::add_is_associative(zero, b, b.spec_neg());
        F::results_are_canonical(a, b.spec_neg());
        F::zero_is_neutral(a.spec_add(b.spec_neg()));
        F::results_are_canonical(zero, zero);
        F::zero_is_neutral(zero);
    }
}

/// The element of `n + m` is the sum of the elements of `n` and of `m`.
pub proof fn from_nat_adds<F: Field>(n: nat, m: nat)
    ensures
        F::spec_from_nat(n + m) == F::spec_from_nat(n).spec_add(F::spec_from_nat(m)),
        F::spec_from_nat(n).canonical(),
    decreases m,
{
    F::from_nat_counts_ones(m);
    F::results_are_canonical(F::spec_zero(), F::spec_zero());
    if n > 0 {
        F::from_nat_counts_ones((n - 1) as nat);
        F::results_are_canonical(F::spec_from_nat((n - 1) as nat), F::spec_one());
    }
    if m == 0 {
        F::zero_is_neutral(F::spec_from_nat(n));
        F::add_is_commutative(F::spec_from_nat(n), F::spec_zero());
    } else {
        let k = (m - 1) as nat;
        from_nat_adds::<F>(n, k);
        F::from_nat_counts_ones(k);
        F::from_nat_counts_ones(n + k);
        assert(n + m == n + k + 1);
        F::add_is_associative(F::spec_from_nat(n), F::spec_from_nat(k), F::spec_one());
    }
}

/// Different integers below the characteristic are different elements.
pub proof fn small_integers_differ<F: Field>(n: nat, m: nat)
    requires
        n < F::characteristic(),
        m < F::characteristic(),
        n != m,
    ensures
        !vanishes(F::spec_from_nat(n).spec_sub(F::spec_from_nat(m))),
        F::spec_from_nat(n) != F::spec_from_nat(m),
{
    let (a, b) = (F::spec_from_nat(n), F::spec_from_nat(m));
    from_nat_adds::<F>(n, 0);
    from_nat_adds::<F>(m, 0);
    reduction(a);
    reduction(b);
    difference_vanishes(a, b);
    if a == b {
        let low = if n < m {
            n
        } else {
            m
        };
        let gap = if n < m {
            (m - n) as nat
        } else {
            (n - m) as nat
        };
        let (x, d) = (F::spec_from_nat(low), F::spec_from_nat(gap));
        from_nat_adds::<F>(low, gap);
        from_nat_adds::<F>(gap, 0);
        F::characteristic_divides(gap);
        assert(x.spec_add(d) == x);
        F::neg_cancels(x);
        F::add_is_commutative(x, d);
        F::add_is_associative(d, x, x.spec_neg());
        F::add_is_commutative(d, F::spec_zero());
        assert(vanishes(d));
        assert(gap % F::characteristic() == gap) by {
            vstd::arithmetic::div_mod::lemma_small_mod(gap, F::characteristic());
        }
    }
}

/// The reduced element whose product with `a` is one.
pub open spec fn inverse_of<F: Ring>(a: F) -> F {
    choose|b: F| b.canonical() && a.spec_mul(b) == F::spec_one()
}

/// An element has at most one reduced inverse.
pub proof fn inverse_is_unique<F: Ring>(a: F, b: F)
    requires
        b.canonical(),
        a.spec_mul(b) == F::spec_one(),
    ensures
        inverse_of(a) == b,
{
    let c = inverse_of(a);
    assert(c.canonical() && a.spec_mul(c) == F::spec_one());
    F::one_is_neutral(b);
    F::one_is_neutral(c);
    F::mul_is_commutative(a, c);
    F::mul_is_associative(c, a, b);
    F::mul_is_commutative(c, F::spec_one());
}

} // verus!
