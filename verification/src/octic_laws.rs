//! What the elements of the two fields are, residue by residue.

use vstd::arithmetic::div_mod::*;
use vstd::prelude::*;

use crate::field::{Algebra, ExtensionField, Field, PrimeField32, Ring};
use crate::koala_bear::KoalaBear;
use crate::octic::OcticExtension;
use crate::octic_product::{int_sum_of_eight, product_coefficient, wrap_factor};

verus! {

/// The field has `2^31 - 2^24 + 1` elements, and the element of an integer holds its residue.
pub proof fn element_holds_residue(value: int, n: nat)
    ensures
        KoalaBear::spec_order() == 2_130_706_433,
        KoalaBear::characteristic() == 2_130_706_433,
        KoalaBear::of_residue(value).spec_residue() == value % 2_130_706_433,
        KoalaBear::of_residue(value).canonical(),
        KoalaBear::spec_from_nat(n).spec_residue() == n as int % 2_130_706_433,
        KoalaBear::spec_one().spec_residue() == 1,
{
    KoalaBear::of_has_residue(value);
    KoalaBear::of_has_residue(n as int);
    KoalaBear::of_has_residue(1);
    lemma_mod_twice(value, 2_130_706_433);
    lemma_mod_twice(n as int, 2_130_706_433);
}

/// An element of the extension has eight coefficients, that of `X^0` first. The copy of an element
/// of the base field has it as its first coefficient and no other.
pub proof fn coefficients_are_residues(
    a: OcticExtension,
    coefficients: Seq<KoalaBear>,
    value: KoalaBear,
    i: int,
)
    requires
        0 <= i < 8,
    ensures
        <OcticExtension as ExtensionField<KoalaBear>>::spec_dimension() == 8,
        <OcticExtension as ExtensionField<KoalaBear>>::coefficient(a, i).spec_residue()
            == a.residues()[i] % 2_130_706_433,
        <OcticExtension as ExtensionField<KoalaBear>>::of_coefficients(coefficients).residues()[i]
            == coefficients[i].residue() % 2_130_706_433,
        <OcticExtension as Algebra<KoalaBear>>::spec_embed(value).residues()[0] == value.residue()
            % 2_130_706_433,
        i > 0 ==> <OcticExtension as Algebra<KoalaBear>>::spec_embed(value).residues()[i] == 0,
        OcticExtension::spec_one().residues()[0] == 1,
        i > 0 ==> OcticExtension::spec_one().residues()[i] == 0,
{
    KoalaBear::of_has_residue(a.residues()[i]);
    lemma_mod_twice(a.residues()[i], 2_130_706_433);
    OcticExtension::of_has_residues(|k: int| coefficients[k].residue());
    OcticExtension::of_has_residues(
        |k: int|
            if k == 0 {
                value.residue()
            } else {
                0int
            },
    );
    OcticExtension::of_has_residues(
        |k: int|
            if k == 0 {
                1int
            } else {
                0int
            },
    );
}

/// `X^i` times `X^j` is `X^(i + j)`, or `3 * X^(i + j - 8)` where the exponent reaches eight.
pub proof fn monomials_multiply(a: OcticExtension, b: OcticExtension, i: int, j: int, k: int)
    requires
        0 <= i < 8,
        0 <= j < 8,
        0 <= k < 8,
        forall|m: int|
            0 <= m < 8 ==> #[trigger] a.residues()[m] == if m == i {
                1int
            } else {
                0
            },
        forall|m: int|
            0 <= m < 8 ==> #[trigger] b.residues()[m] == if m == j {
                1int
            } else {
                0
            },
    ensures
        a.spec_mul(b).residues()[k] == if k == i + j {
            1int
        } else if k == i + j - 8 {
            3
        } else {
            0
        },
{
    let (p, q) = (a.residues(), b.residues());
    OcticExtension::of_has_residues(|k: int| product_coefficient(p, q, k));
    let term = |m: int| p[m] * q[(k - m) % 8] * wrap_factor(m, k);
    assert forall|m: int| 0 <= m < 8 implies #[trigger] term(m) == if m == i && (k - m) % 8 == j {
        wrap_factor(m, k)
    } else {
        0
    } by {
        let n = (k - m) % 8;
        lemma_mod_bound(k - m, 8);
        assert(q[n] == if n == j {
            1int
        } else {
            0
        });
        assert(p[m] == if m == i {
            1int
        } else {
            0
        });
        assert(p[m] * q[n] * wrap_factor(m, k) == if m == i && n == j {
            wrap_factor(m, k)
        } else {
            0
        }) by (nonlinear_arith)
            requires
                p[m] == 0 || p[m] == 1,
                q[n] == 0 || q[n] == 1,
                p[m] == 1 <==> m == i,
                q[n] == 1 <==> n == j,
        ;
    }
    int_sum_of_eight(term);
}

} // verus!
