//! The extension of degree eight of the field of order `2^31 - 2^24 + 1`, by a
//! root of `X^8 - 3`.

use p3_field::{BasedVectorSpace, Field as P3Field, PrimeField32};
use vstd::arithmetic::div_mod::*;
use vstd::arithmetic::mul::*;
use vstd::prelude::*;

use crate::field::{vanishes, Algebra, ExtensionField, Field, Ring};
use crate::koala_bear::{KoalaBear, KOALA_BEAR_ORDER};
use crate::octic_product::{
    int_sum_of_eight, int_sum_of_zeros, product, product_coefficient,
    product_coefficient_associates, product_coefficient_commutes, product_coefficient_congruent,
    product_coefficient_distributes, reduced_sums_associate, residues, wrap_factor,
};

verus! {

/// The degree of the extension.
pub const OCTIC_DEGREE: usize = 8;

/// Coefficient-wise addition of
/// `p3_field::extension::BinomialExtensionField<KoalaBear, 8>` elements.
#[verifier::external_body]
fn p3_octic_add(lhs: [u32; 8], rhs: [u32; 8]) -> (r: [u32; 8])
    ensures
        forall|k: int|
            0 <= k < 8 ==> #[trigger] r[k] == (lhs[k] + rhs[k]) % (KOALA_BEAR_ORDER as int),
{
    let a = p3_field::extension::BinomialExtensionField::<p3_koala_bear::KoalaBear, 8>::new(
        p3_koala_bear::KoalaBear::new_array(lhs),
    );
    let b = p3_field::extension::BinomialExtensionField::<p3_koala_bear::KoalaBear, 8>::new(
        p3_koala_bear::KoalaBear::new_array(rhs),
    );
    let sum = a + b;
    let coefficients: &[p3_koala_bear::KoalaBear] = sum.as_basis_coefficients_slice();
    core::array::from_fn(|i| coefficients[i].as_canonical_u32())
}

/// Coefficient-wise subtraction of
/// `p3_field::extension::BinomialExtensionField<KoalaBear, 8>` elements.
#[verifier::external_body]
fn p3_octic_sub(lhs: [u32; 8], rhs: [u32; 8]) -> (r: [u32; 8])
    ensures
        forall|k: int|
            0 <= k < 8 ==> #[trigger] r[k] == (lhs[k] - rhs[k]) % (KOALA_BEAR_ORDER as int),
{
    let a = p3_field::extension::BinomialExtensionField::<p3_koala_bear::KoalaBear, 8>::new(
        p3_koala_bear::KoalaBear::new_array(lhs),
    );
    let b = p3_field::extension::BinomialExtensionField::<p3_koala_bear::KoalaBear, 8>::new(
        p3_koala_bear::KoalaBear::new_array(rhs),
    );
    let difference = a - b;
    let coefficients: &[p3_koala_bear::KoalaBear] = difference.as_basis_coefficients_slice();
    core::array::from_fn(|i| coefficients[i].as_canonical_u32())
}

/// Coefficient-wise negation of a
/// `p3_field::extension::BinomialExtensionField<KoalaBear, 8>` element.
#[verifier::external_body]
fn p3_octic_neg(value: [u32; 8]) -> (r: [u32; 8])
    ensures
        forall|k: int|
            0 <= k < 8 ==> #[trigger] r[k] == (-(value[k] as int)) % (KOALA_BEAR_ORDER as int),
{
    let a = p3_field::extension::BinomialExtensionField::<p3_koala_bear::KoalaBear, 8>::new(
        p3_koala_bear::KoalaBear::new_array(value),
    );
    let negation = -a;
    let coefficients: &[p3_koala_bear::KoalaBear] = negation.as_basis_coefficients_slice();
    core::array::from_fn(|i| coefficients[i].as_canonical_u32())
}

/// Multiplication of `p3_field::extension::BinomialExtensionField<KoalaBear, 8>`
/// elements is multiplication of polynomials modulo `X^8 - 3`.
#[verifier::external_body]
fn p3_octic_mul(lhs: [u32; 8], rhs: [u32; 8]) -> (r: [u32; 8])
    ensures
        forall|k: int|
            0 <= k < 8 ==> #[trigger] r[k] == product_coefficient(residues(lhs@), residues(rhs@), k)
                % (KOALA_BEAR_ORDER as int),
{
    let a = p3_field::extension::BinomialExtensionField::<p3_koala_bear::KoalaBear, 8>::new(
        p3_koala_bear::KoalaBear::new_array(lhs),
    );
    let b = p3_field::extension::BinomialExtensionField::<p3_koala_bear::KoalaBear, 8>::new(
        p3_koala_bear::KoalaBear::new_array(rhs),
    );
    let product = a * b;
    let coefficients: &[p3_koala_bear::KoalaBear] = product.as_basis_coefficients_slice();
    core::array::from_fn(|i| coefficients[i].as_canonical_u32())
}

/// `Field::try_inverse` on
/// `p3_field::extension::BinomialExtensionField<KoalaBear, 8>` returns `None` on
/// zero and the multiplicative inverse on every other element.
#[verifier::external_body]
fn p3_octic_try_inverse(value: [u32; 8]) -> (r: Option<[u32; 8]>)
    ensures
        r is None <==> forall|k: int| 0 <= k < 8 ==> #[trigger] value[k] % KOALA_BEAR_ORDER == 0,
        r matches Some(inverse) ==> forall|k: int|
            0 <= k < 8 ==> #[trigger] inverse[k] < KOALA_BEAR_ORDER && product_coefficient(
                residues(value@),
                residues(inverse@),
                k,
            ) % (KOALA_BEAR_ORDER as int) == if k == 0 {
                1int
            } else {
                0int
            },
{
    let a = p3_field::extension::BinomialExtensionField::<p3_koala_bear::KoalaBear, 8>::new(
        p3_koala_bear::KoalaBear::new_array(value),
    );
    a.try_inverse().map(
        |inverse|
            {
                let coefficients: &[p3_koala_bear::KoalaBear] = inverse.as_basis_coefficients_slice();
                core::array::from_fn(|i| coefficients[i].as_canonical_u32())
            },
    )
}

/// An element of the extension: the coefficients of a polynomial of degree below
/// eight, held as canonical residues.
#[derive(Debug, Clone, Copy, PartialEq, Eq, Hash)]
pub struct OcticExtension {
    coefficients: [u32; 8],
}

impl OcticExtension {
    /// The residues of the coefficients, that of `X^0` first.
    pub closed spec fn residues(self) -> Seq<int> {
        residues(self.coefficients@)
    }

    /// The element whose coefficient of `X^k` is `f(k)` modulo the order.
    pub closed spec fn of(f: spec_fn(int) -> int) -> OcticExtension {
        let p = KOALA_BEAR_ORDER as int;
        OcticExtension {
            coefficients: [
                (f(0) % p) as u32,
                (f(1) % p) as u32,
                (f(2) % p) as u32,
                (f(3) % p) as u32,
                (f(4) % p) as u32,
                (f(5) % p) as u32,
                (f(6) % p) as u32,
                (f(7) % p) as u32,
            ],
        }
    }

    /// The coefficients of `of(f)` are the residues of `f`.
    pub proof fn of_has_residues(f: spec_fn(int) -> int)
        ensures
            OcticExtension::of(f).residues().len() == 8,
            forall|k: int|
                0 <= k < 8 ==> #[trigger] OcticExtension::of(f).residues()[k] == f(k) % (
                KOALA_BEAR_ORDER as int),
    {
        let r = OcticExtension::of(f);
        let p = KOALA_BEAR_ORDER as int;
        assert forall|k: int| 0 <= k < 8 implies #[trigger] r.residues()[k] == f(k) % p by {
            assert(r.coefficients@[k] == r.coefficients[k]);
            assert(k == 0 || k == 1 || k == 2 || k == 3 || k == 4 || k == 5 || k == 6 || k == 7);
        }
    }

    /// Elements with the same residues are equal.
    pub proof fn residues_determine(a: OcticExtension, b: OcticExtension)
        requires
            forall|k: int| 0 <= k < 8 ==> #[trigger] a.residues()[k] == b.residues()[k],
        ensures
            a == b,
    {
        assert forall|k: int| 0 <= k < 8 implies a.coefficients[k] == b.coefficients[k] by {
            assert(a.residues()[k] == b.residues()[k]);
        }
        assert(a.coefficients =~= b.coefficients);
    }
}

impl Ring for OcticExtension {
    open spec fn canonical(self) -> bool {
        forall|k: int| 0 <= k < 8 ==> 0 <= #[trigger] self.residues()[k] < KOALA_BEAR_ORDER
    }

    open spec fn spec_zero() -> Self {
        OcticExtension::of(|k: int| 0int)
    }

    open spec fn spec_one() -> Self {
        OcticExtension::of(
            |k: int|
                if k == 0 {
                    1int
                } else {
                    0int
                },
        )
    }

    open spec fn spec_add(self, rhs: Self) -> Self {
        OcticExtension::of(|k: int| self.residues()[k] + rhs.residues()[k])
    }

    open spec fn spec_sub(self, rhs: Self) -> Self {
        OcticExtension::of(|k: int| self.residues()[k] - rhs.residues()[k])
    }

    open spec fn spec_neg(self) -> Self {
        OcticExtension::of(|k: int| -self.residues()[k])
    }

    open spec fn spec_mul(self, rhs: Self) -> Self {
        OcticExtension::of(|k: int| product_coefficient(self.residues(), rhs.residues(), k))
    }

    fn zero() -> (r: Self) {
        let r = OcticExtension { coefficients: [0, 0, 0, 0, 0, 0, 0, 0] };
        assert(r.coefficients =~= Self::spec_zero().coefficients);
        r
    }

    fn one() -> (r: Self) {
        let r = OcticExtension { coefficients: [1, 0, 0, 0, 0, 0, 0, 0] };
        assert(r.coefficients =~= Self::spec_one().coefficients);
        r
    }

    fn plus(self, rhs: Self) -> (r: Self) {
        let r = OcticExtension { coefficients: p3_octic_add(self.coefficients, rhs.coefficients) };
        proof {
            let f = |k: int| self.residues()[k] + rhs.residues()[k];
            OcticExtension::of_has_residues(f);
            OcticExtension::residues_determine(r, OcticExtension::of(f));
        }
        r
    }

    fn minus(self, rhs: Self) -> (r: Self) {
        let r = OcticExtension { coefficients: p3_octic_sub(self.coefficients, rhs.coefficients) };
        proof {
            let f = |k: int| self.residues()[k] - rhs.residues()[k];
            OcticExtension::of_has_residues(f);
            OcticExtension::residues_determine(r, OcticExtension::of(f));
        }
        r
    }

    fn negated(self) -> (r: Self) {
        let r = OcticExtension { coefficients: p3_octic_neg(self.coefficients) };
        proof {
            let f = |k: int| -self.residues()[k];
            OcticExtension::of_has_residues(f);
            OcticExtension::residues_determine(r, OcticExtension::of(f));
        }
        r
    }

    fn times(self, rhs: Self) -> (r: Self) {
        let r = OcticExtension { coefficients: p3_octic_mul(self.coefficients, rhs.coefficients) };
        proof {
            let f = |k: int| product_coefficient(self.residues(), rhs.residues(), k);
            OcticExtension::of_has_residues(f);
            OcticExtension::residues_determine(r, OcticExtension::of(f));
        }
        r
    }

    proof fn results_are_canonical(a: Self, b: Self) {
        OcticExtension::of_has_residues(|k: int| 0int);
        OcticExtension::of_has_residues(
            |k: int|
                if k == 0 {
                    1int
                } else {
                    0int
                },
        );
        OcticExtension::of_has_residues(|k: int| a.residues()[k] + b.residues()[k]);
        OcticExtension::of_has_residues(|k: int| a.residues()[k] - b.residues()[k]);
        OcticExtension::of_has_residues(|k: int| -a.residues()[k]);
        OcticExtension::of_has_residues(
            |k: int| product_coefficient(a.residues(), b.residues(), k),
        );
    }

    proof fn add_is_commutative(a: Self, b: Self) {
        a.add_has_residues(b);
        b.add_has_residues(a);
        OcticExtension::residues_determine(a.spec_add(b), b.spec_add(a));
    }

    proof fn add_is_associative(a: Self, b: Self, c: Self) {
        let p = KOALA_BEAR_ORDER as int;
        let (ab, bc) = (a.spec_add(b), b.spec_add(c));
        a.add_has_residues(b);
        b.add_has_residues(c);
        ab.add_has_residues(c);
        a.add_has_residues(bc);
        assert forall|k: int| 0 <= k < 8 implies #[trigger] ab.spec_add(c).residues()[k]
            == a.spec_add(bc).residues()[k] by {
            reduced_sums_associate(a.residues()[k], b.residues()[k], c.residues()[k], p);
        }
        OcticExtension::residues_determine(ab.spec_add(c), a.spec_add(bc));
    }

    proof fn mul_is_commutative(a: Self, b: Self) {
        a.mul_has_residues(b);
        b.mul_has_residues(a);
        assert forall|k: int| 0 <= k < 8 implies #[trigger] a.spec_mul(b).residues()[k]
            == b.spec_mul(a).residues()[k] by {
            product_coefficient_commutes(a.residues(), b.residues(), k);
        }
        OcticExtension::residues_determine(a.spec_mul(b), b.spec_mul(a));
    }

    proof fn mul_is_associative(a: Self, b: Self, c: Self) {
        let p = KOALA_BEAR_ORDER as int;
        let (ab, bc) = (a.spec_mul(b), b.spec_mul(c));
        let (x, y, z) = (a.residues(), b.residues(), c.residues());
        a.mul_has_residues(b);
        b.mul_has_residues(c);
        ab.mul_has_residues(c);
        a.mul_has_residues(bc);
        assert forall|i: int| 0 <= i < 8 implies #[trigger] ab.residues()[i] % p == product(x, y)[i]
            % p by {
            lemma_mod_twice(product_coefficient(x, y, i), p);
        }
        assert forall|i: int| 0 <= i < 8 implies #[trigger] bc.residues()[i] % p == product(y, z)[i]
            % p by {
            lemma_mod_twice(product_coefficient(y, z, i), p);
        }
        assert forall|k: int| 0 <= k < 8 implies #[trigger] ab.spec_mul(c).residues()[k]
            == a.spec_mul(bc).residues()[k] by {
            product_coefficient_congruent(ab.residues(), product(x, y), z, z, k, p);
            product_coefficient_congruent(x, x, bc.residues(), product(y, z), k, p);
            product_coefficient_associates(x, y, z, k);
        }
        OcticExtension::residues_determine(ab.spec_mul(c), a.spec_mul(bc));
    }

    proof fn mul_distributes_over_add(a: Self, b: Self, c: Self) {
        let p = KOALA_BEAR_ORDER as int;
        let bc = b.spec_add(c);
        let (ab, ac) = (a.spec_mul(b), a.spec_mul(c));
        let sum = Seq::new(8, |i: int| b.residues()[i] + c.residues()[i]);
        b.add_has_residues(c);
        a.mul_has_residues(bc);
        a.mul_has_residues(b);
        a.mul_has_residues(c);
        ab.add_has_residues(ac);
        assert forall|i: int| 0 <= i < 8 implies #[trigger] bc.residues()[i] % p == sum[i] % p by {
            lemma_mod_twice(sum[i], p);
        }
        assert forall|k: int| 0 <= k < 8 implies #[trigger] a.spec_mul(bc).residues()[k]
            == ab.spec_add(ac).residues()[k] by {
            let (x, y) = (
                product_coefficient(a.residues(), b.residues(), k),
                product_coefficient(a.residues(), c.residues(), k),
            );
            product_coefficient_congruent(a.residues(), a.residues(), bc.residues(), sum, k, p);
            product_coefficient_distributes(a.residues(), b.residues(), c.residues(), sum, k);
            lemma_add_mod_noop(x, y, p);
            assert(ab.residues()[k] == x % p);
            assert(ac.residues()[k] == y % p);
        }
        OcticExtension::residues_determine(a.spec_mul(bc), ab.spec_add(ac));
    }

    proof fn zero_is_neutral(a: Self) {
        let zero = Self::spec_zero();
        OcticExtension::of_has_residues(|k: int| 0int);
        zero.add_has_residues(a);
        assert forall|k: int| 0 <= k < 8 implies #[trigger] zero.spec_add(a).residues()[k]
            == a.residues()[k] by {
            assert(zero.residues()[k] == 0);
            lemma_small_mod(a.residues()[k] as nat, KOALA_BEAR_ORDER as nat);
        }
        OcticExtension::residues_determine(zero.spec_add(a), a);
    }

    proof fn one_is_neutral(a: Self) {
        let one = Self::spec_one();
        OcticExtension::of_has_residues(
            |k: int|
                if k == 0 {
                    1int
                } else {
                    0int
                },
        );
        one.mul_has_residues(a);
        assert forall|k: int| 0 <= k < 8 implies #[trigger] one.spec_mul(a).residues()[k]
            == a.residues()[k] by {
            let f = |i: int| one.residues()[i] * a.residues()[(k - i) % 8] * wrap_factor(i, k);
            int_sum_of_eight(f);
            assert(one.residues()[0] == 1);
            lemma_mul_basics(a.residues()[k]);
            assert((k - 0) % 8 == k);
            assert(f(0) == a.residues()[k]);
            assert forall|i: int| 1 <= i < 8 implies #[trigger] f(i) == 0 by {
                assert(one.residues()[i] == 0);
            }
            lemma_small_mod(a.residues()[k] as nat, KOALA_BEAR_ORDER as nat);
        }
        OcticExtension::residues_determine(one.spec_mul(a), a);
    }

    proof fn mul_by_zero(a: Self) {
        let zero = Self::spec_zero();
        OcticExtension::of_has_residues(|k: int| 0int);
        a.mul_has_residues(zero);
        assert forall|k: int| 0 <= k < 8 implies #[trigger] a.spec_mul(zero).residues()[k]
            == zero.residues()[k] by {
            let f = |i: int| a.residues()[i] * zero.residues()[(k - i) % 8] * wrap_factor(i, k);
            assert forall|i: int| 0 <= i < 8 implies #[trigger] f(i) == 0 by {
                assert(zero.residues()[(k - i) % 8] == 0);
            }
            int_sum_of_zeros(f, 8);
            assert(zero.residues()[k] == 0);
        }
        OcticExtension::residues_determine(a.spec_mul(zero), zero);
    }

    proof fn sub_is_add_of_neg(a: Self, b: Self) {
        let p = KOALA_BEAR_ORDER as int;
        let nb = b.spec_neg();
        OcticExtension::of_has_residues(|k: int| -b.residues()[k]);
        OcticExtension::of_has_residues(|k: int| a.residues()[k] - b.residues()[k]);
        a.add_has_residues(nb);
        assert forall|k: int| 0 <= k < 8 implies #[trigger] a.spec_sub(b).residues()[k]
            == a.spec_add(nb).residues()[k] by {
            assert(nb.residues()[k] == (-b.residues()[k]) % p);
            lemma_add_mod_noop_right(a.residues()[k], -b.residues()[k], p);
        }
        OcticExtension::residues_determine(a.spec_sub(b), a.spec_add(nb));
    }

    proof fn neg_cancels(a: Self) {
        let p = KOALA_BEAR_ORDER as int;
        let na = a.spec_neg();
        let zero = Self::spec_zero();
        OcticExtension::of_has_residues(|k: int| -a.residues()[k]);
        OcticExtension::of_has_residues(|k: int| 0int);
        a.add_has_residues(na);
        assert forall|k: int| 0 <= k < 8 implies #[trigger] a.spec_add(na).residues()[k]
            == zero.residues()[k] by {
            assert(na.residues()[k] == (-a.residues()[k]) % p);
            lemma_add_mod_noop_right(a.residues()[k], -a.residues()[k], p);
            assert(zero.residues()[k] == 0);
        }
        OcticExtension::residues_determine(a.spec_add(na), zero);
    }
}

impl Field for OcticExtension {
    open spec fn spec_from_nat(n: nat) -> Self {
        Self::spec_embed(KoalaBear::spec_from_nat(n))
    }

    fn from_usize(n: usize) -> (r: Self) {
        Self::embed(KoalaBear::from_usize(n))
    }

    fn is_zero(self) -> (r: bool) {
        let reduced = self.plus(Self::zero());
        let mut k: usize = 0;
        proof {
            OcticExtension::of_has_residues(|k: int| 0int);
        }
        while k < 8
            invariant
                k <= 8,
                reduced == self.spec_add(Self::spec_zero()),
                forall|j: int| 0 <= j < 8 ==> Self::spec_zero().residues()[j] == 0,
                forall|j: int| 0 <= j < k ==> reduced.coefficients[j] == 0,
            decreases 8 - k,
        {
            if reduced.coefficients[k] != 0 {
                proof {
                    assert(reduced.residues()[k as int] != 0);
                }
                return false;
            }
            k += 1;
        }
        proof {
            assert forall|j: int| 0 <= j < 8 implies #[trigger] reduced.residues()[j]
                == Self::spec_zero().residues()[j] by {}
            OcticExtension::residues_determine(reduced, Self::spec_zero());
        }
        true
    }

    fn try_inverse(self) -> (r: Option<Self>) {
        proof {
            self.vanishes_by_residues();
        }
        match p3_octic_try_inverse(self.coefficients) {
            Some(coefficients) => {
                let inverse = OcticExtension { coefficients };
                proof {
                    let one = Self::spec_one();
                    OcticExtension::of_has_residues(
                        |k: int|
                            if k == 0 {
                                1int
                            } else {
                                0int
                            },
                    );
                    self.mul_has_residues(inverse);
                    assert forall|k: int| 0 <= k < 8 implies #[trigger] self.spec_mul(
                        inverse,
                    ).residues()[k] == one.residues()[k] by {
                        assert(coefficients[k] < KOALA_BEAR_ORDER);
                    }
                    OcticExtension::residues_determine(self.spec_mul(inverse), one);
                    assert forall|k: int| 0 <= k < 8 implies 0 <= #[trigger] inverse.residues()[k]
                        < KOALA_BEAR_ORDER by {
                        assert(coefficients[k] < KOALA_BEAR_ORDER);
                    }
                }
                Some(inverse)
            },
            None => None,
        }
    }

    open spec fn characteristic() -> nat {
        KOALA_BEAR_ORDER as nat
    }

    proof fn from_nat_counts_ones(n: nat) {
        KoalaBear::from_nat_counts_ones(n);
        Self::embed_is_homomorphism(KoalaBear::spec_from_nat(n), KoalaBear::spec_one());
    }

    proof fn characteristic_divides(n: nat) {
        let a = KoalaBear::spec_from_nat(n);
        let b = Self::spec_from_nat(n);
        KoalaBear::of_has_residue(n as int);
        embed_has_residues(a);
        b.vanishes_by_residues();
        assert forall|k: int| 0 <= k < 8 implies #[trigger] b.coefficients[k] == if k == 0 {
            n as int % (KOALA_BEAR_ORDER as int)
        } else {
            0
        } by {
            assert(b.residues()[k] == b.coefficients[k]);
        }
        assert(b.coefficients[0] == n as int % (KOALA_BEAR_ORDER as int));
    }
}

impl Algebra<KoalaBear> for OcticExtension {
    open spec fn spec_embed(value: KoalaBear) -> Self {
        OcticExtension::of(
            |k: int|
                if k == 0 {
                    value.residue()
                } else {
                    0int
                },
        )
    }

    fn embed(value: KoalaBear) -> (r: Self) {
        let reduced = value.plus(KoalaBear::zero());
        let r = OcticExtension {
            coefficients: [reduced.as_canonical_u32(), 0, 0, 0, 0, 0, 0, 0],
        };
        proof {
            let f = |k: int|
                if k == 0 {
                    value.residue()
                } else {
                    0int
                };
            KoalaBear::of_has_residue(0);
            KoalaBear::of_has_residue(value.residue() + KoalaBear::spec_zero().residue());
            OcticExtension::of_has_residues(f);
            assert forall|k: int| 0 <= k < 8 implies #[trigger] r.residues()[k]
                == OcticExtension::of(f).residues()[k] by {
                assert(r.coefficients@[k] == r.coefficients[k]);
            }
            OcticExtension::residues_determine(r, OcticExtension::of(f));
        }
        r
    }

    proof fn embed_is_homomorphism(a: KoalaBear, b: KoalaBear) {
        let p = KOALA_BEAR_ORDER as int;
        let (ea, eb) = (Self::spec_embed(a), Self::spec_embed(b));
        embed_has_residues(a);
        embed_has_residues(b);
        KoalaBear::of_has_residue(0);
        KoalaBear::of_has_residue(1);
        embed_has_residues(KoalaBear::spec_zero());
        embed_has_residues(KoalaBear::spec_one());
        OcticExtension::of_has_residues(|k: int| 0int);
        OcticExtension::of_has_residues(
            |k: int|
                if k == 0 {
                    1int
                } else {
                    0int
                },
        );
        OcticExtension::residues_determine(
            Self::spec_embed(KoalaBear::spec_zero()),
            Self::spec_zero(),
        );
        OcticExtension::residues_determine(
            Self::spec_embed(KoalaBear::spec_one()),
            Self::spec_one(),
        );
        let (x, y) = (a.residue(), b.residue());

        KoalaBear::of_has_residue(x + y);
        embed_has_residues(a.spec_add(b));
        ea.add_has_residues(eb);
        lemma_add_mod_noop(x, y, p);
        lemma_mod_twice(x + y, p);
        OcticExtension::residues_determine(Self::spec_embed(a.spec_add(b)), ea.spec_add(eb));

        KoalaBear::of_has_residue(x - y);
        embed_has_residues(a.spec_sub(b));
        OcticExtension::of_has_residues(|k: int| ea.residues()[k] - eb.residues()[k]);
        lemma_sub_mod_noop(x, y, p);
        lemma_mod_twice(x - y, p);
        OcticExtension::residues_determine(Self::spec_embed(a.spec_sub(b)), ea.spec_sub(eb));

        KoalaBear::of_has_residue(-x);
        embed_has_residues(a.spec_neg());
        OcticExtension::of_has_residues(|k: int| -ea.residues()[k]);
        lemma_sub_mod_noop(0, x, p);
        lemma_mod_twice(-x, p);
        assert forall|k: int| 0 <= k < 8 implies #[trigger] ea.spec_neg().residues()[k]
            == Self::spec_embed(a.spec_neg()).residues()[k] by {
            if k == 0 {
                assert(ea.residues()[0] == x % p);
                lemma_sub_mod_noop(0, x % p, p);
            }
        }
        OcticExtension::residues_determine(Self::spec_embed(a.spec_neg()), ea.spec_neg());

        KoalaBear::of_has_residue(x * y);
        embed_has_residues(a.spec_mul(b));
        ea.mul_has_residues(eb);
        lemma_mul_mod_noop_general(x, y, p);
        lemma_mod_twice(x * y, p);
        mul_by_embedded(ea, b);
        assert forall|k: int| 0 <= k < 8 implies #[trigger] ea.spec_mul(eb).residues()[k]
            == Self::spec_embed(a.spec_mul(b)).residues()[k] by {
            assert(ea.spec_mul(eb).residues()[k] == (ea.residues()[k] * y) % p);
            if k == 0 {
                lemma_mul_mod_noop_left(x, y, p);
            } else {
                lemma_mul_basics(y);
            }
        }
        OcticExtension::residues_determine(Self::spec_embed(a.spec_mul(b)), ea.spec_mul(eb));
    }

    proof fn embed_keeps_canonical(a: KoalaBear) {
        embed_has_residues(a);
    }
}

proof fn embed_has_residues(a: KoalaBear)
    ensures
        forall|k: int|
            0 <= k < 8 ==> #[trigger] <OcticExtension as Algebra<KoalaBear>>::spec_embed(
                a,
            ).residues()[k] == if k == 0 {
                a.residue() % (KOALA_BEAR_ORDER as int)
            } else {
                0
            },
{
    OcticExtension::of_has_residues(
        |k: int|
            if k == 0 {
                a.residue()
            } else {
                0int
            },
    );
}

/// The product with an element of the base field scales each coefficient.
proof fn mul_by_embedded(a: OcticExtension, b: KoalaBear)
    ensures
        forall|k: int|
            0 <= k < 8 ==> #[trigger] a.spec_mul(OcticExtension::spec_embed(b)).residues()[k] == (
            a.residues()[k] * b.residue()) % (KOALA_BEAR_ORDER as int),
{
    let p = KOALA_BEAR_ORDER as int;
    let eb = OcticExtension::spec_embed(b);
    embed_has_residues(b);
    a.mul_has_residues(eb);
    assert forall|k: int| 0 <= k < 8 implies #[trigger] a.spec_mul(eb).residues()[k] == (
    a.residues()[k] * b.residue()) % p by {
        let (x, y) = (a.residues(), eb.residues());
        product_coefficient_commutes(x, y, k);
        let f = |i: int| y[i] * x[(k - i) % 8] * wrap_factor(i, k);
        int_sum_of_eight(f);
        assert forall|i: int| 1 <= i < 8 implies #[trigger] f(i) == 0 by {
            assert(eb.residues()[i] == 0);
        }
        assert((k - 0) % 8 == k);
        lemma_mul_basics(y[0] * x[k]);
        assert(f(0) == y[0] * x[k]);
        lemma_mul_mod_noop_left(b.residue(), x[k], p);
        lemma_mul_is_commutative(b.residue(), x[k]);
    }
}

impl OcticExtension {
    /// An element vanishes where each coefficient does.
    proof fn vanishes_by_residues(self)
        ensures
            vanishes(self) <==> forall|k: int|
                0 <= k < 8 ==> #[trigger] self.coefficients[k] % KOALA_BEAR_ORDER == 0,
    {
        let zero = OcticExtension::spec_zero();
        OcticExtension::of_has_residues(|k: int| 0int);
        self.add_has_residues(zero);
        assert forall|k: int| 0 <= k < 8 implies #[trigger] self.spec_add(zero).residues()[k]
            == self.coefficients[k] % KOALA_BEAR_ORDER by {
            assert(zero.residues()[k] == 0);
        }
        if vanishes(self) {
            assert forall|k: int| 0 <= k < 8 implies #[trigger] self.coefficients[k]
                % KOALA_BEAR_ORDER == 0 by {
                assert(self.spec_add(zero).residues()[k] == zero.residues()[k]);
            }
        }
        if forall|k: int| 0 <= k < 8 ==> #[trigger] self.coefficients[k] % KOALA_BEAR_ORDER == 0 {
            OcticExtension::residues_determine(self.spec_add(zero), zero);
        }
    }

    proof fn add_has_residues(self, rhs: OcticExtension)
        ensures
            forall|k: int|
                0 <= k < 8 ==> #[trigger] self.spec_add(rhs).residues()[k] == (self.residues()[k]
                    + rhs.residues()[k]) % (KOALA_BEAR_ORDER as int),
    {
        OcticExtension::of_has_residues(|k: int| self.residues()[k] + rhs.residues()[k]);
    }

    proof fn mul_has_residues(self, rhs: OcticExtension)
        ensures
            forall|k: int|
                0 <= k < 8 ==> #[trigger] self.spec_mul(rhs).residues()[k] == product_coefficient(
                    self.residues(),
                    rhs.residues(),
                    k,
                ) % (KOALA_BEAR_ORDER as int),
    {
        OcticExtension::of_has_residues(
            |k: int| product_coefficient(self.residues(), rhs.residues(), k),
        );
    }
}

impl ExtensionField<KoalaBear> for OcticExtension {
    open spec fn spec_dimension() -> nat {
        8
    }

    open spec fn coefficient(self, i: int) -> KoalaBear {
        KoalaBear::of(self.residues()[i])
    }

    open spec fn of_coefficients(coefficients: Seq<KoalaBear>) -> Self {
        OcticExtension::of(|k: int| coefficients[k].residue())
    }

    fn dimension() -> (r: usize) {
        OCTIC_DEGREE
    }

    fn basis_coefficient(self, i: usize) -> (r: KoalaBear) {
        KoalaBear::new(self.coefficients[i])
    }

    fn from_basis_coefficients(coefficients: &[KoalaBear]) -> (r: Self) {
        let zero = KoalaBear::zero();
        let r = OcticExtension {
            coefficients: [
                zero.plus(coefficients[0]).as_canonical_u32(),
                zero.plus(coefficients[1]).as_canonical_u32(),
                zero.plus(coefficients[2]).as_canonical_u32(),
                zero.plus(coefficients[3]).as_canonical_u32(),
                zero.plus(coefficients[4]).as_canonical_u32(),
                zero.plus(coefficients[5]).as_canonical_u32(),
                zero.plus(coefficients[6]).as_canonical_u32(),
                zero.plus(coefficients[7]).as_canonical_u32(),
            ],
        };
        proof {
            let f = |k: int| coefficients@[k].residue();
            OcticExtension::of_has_residues(f);
            KoalaBear::of_has_residue(0);
            assert forall|k: int| 0 <= k < 8 implies #[trigger] r.residues()[k]
                == OcticExtension::of(f).residues()[k] by {
                KoalaBear::of_has_residue(0 + coefficients@[k].residue());
                assert(r.coefficients@[k] == r.coefficients[k]);
                assert(k == 0 || k == 1 || k == 2 || k == 3 || k == 4 || k == 5 || k == 6 || k
                    == 7);
            }
            OcticExtension::residues_determine(r, OcticExtension::of(f));
        }
        r
    }

    proof fn coefficients_compute_alone(a: Self, b: Self, s: KoalaBear, i: int) {
        let p = KOALA_BEAR_ORDER as int;
        let (x, y) = (a.residues()[i], b.residues()[i]);
        KoalaBear::of_has_residue(x);
        KoalaBear::of_has_residue(y);
        OcticExtension::of_has_residues(|k: int| 0int);
        a.add_has_residues(b);
        mul_by_embedded(a, s);
        assert(Self::spec_zero().residues()[i] == 0);
        assert(a.spec_add(b).residues()[i] == (x + y) % p);
        assert(a.spec_mul(Self::spec_embed(s)).residues()[i] == (x * s.residue()) % p);
        lemma_mod_twice(x + y, p);
        lemma_add_mod_noop(x, y, p);
        lemma_mod_twice(x * s.residue(), p);
        lemma_mul_mod_noop_left(x, s.residue(), p);
    }

    proof fn of_coefficients_has_coefficients(coefficients: Seq<KoalaBear>, i: int) {
        let f = |k: int| coefficients[k].residue();
        let p = KOALA_BEAR_ORDER as int;
        OcticExtension::of_has_residues(f);
        assert(OcticExtension::of(f).residues()[i] == coefficients[i].residue() % p);
        lemma_mod_twice(coefficients[i].residue(), p);
        KoalaBear::of_has_residue(0);
    }

    proof fn coefficients_determine(a: Self, b: Self) {
        assert forall|k: int| 0 <= k < 8 implies #[trigger] a.residues()[k] == b.residues()[k] by {
            assert(<Self as ExtensionField<KoalaBear>>::coefficient(a, k) == <Self as ExtensionField<
                KoalaBear,
            >>::coefficient(b, k));
            KoalaBear::of_has_residue(a.residues()[k]);
            KoalaBear::of_has_residue(b.residues()[k]);
            lemma_small_mod(a.residues()[k] as nat, KOALA_BEAR_ORDER as nat);
            lemma_small_mod(b.residues()[k] as nat, KOALA_BEAR_ORDER as nat);
        }
        OcticExtension::residues_determine(a, b);
    }
}

} // verus!
