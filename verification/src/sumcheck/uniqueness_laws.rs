//! What determines the polynomial of a round.

use vstd::arithmetic::power2::*;
use vstd::prelude::*;

use super::round::{
    are_round_selectors, domain_weights, interpolates, is_eq_polynomial, is_round_polynomial,
    next_mul_factor, round_value, summed_value, tables_folded_at, RoundParameters,
};
use super::round_laws::{integers_differ_by_units, node, nodes_below, nodes_differ_by_units};
use crate::dense::{poly_value, DensePolynomial};
use crate::dense_laws::{
    poly_product, value_of_poly_product, values_at_nodes_determine_coefficients,
};
use crate::field::{reduced, Algebra, ExtensionField, Field};
use crate::multilinear::first_variables_folded;

verus! {

/// The selectors of a domain are determined: two lists of them hold the same coefficients, and
/// give the same weights everywhere.
pub proof fn selectors_are_determined<F: Field, R: Algebra<F>>(
    a: Seq<DensePolynomial<F>>,
    b: Seq<DensePolynomial<F>>,
    skips: usize,
    x: R,
)
    requires
        are_round_selectors(a, skips),
        are_round_selectors(b, skips),
        integers_differ_by_units::<F>(pow2(skips as nat) as int),
    ensures
        a.len() == b.len(),
        forall|i: int| 0 <= i < a.len() ==> (#[trigger] a[i]).coeffs@ == b[i].coeffs@,
        domain_weights::<F, R>(skips, a, x) == domain_weights::<F, R>(skips, b, x),
{
    let n = pow2(skips as nat);
    if skips != 1 {
        let nodes = nodes_below::<F, F>(n);
        nodes_differ_by_units::<F, F>(n);
        assert forall|i: int| 0 <= i < a.len() implies (#[trigger] a[i]).coeffs@
            == b[i].coeffs@ by {
            assert(b[i].coeffs@.len() == n);
            assert forall|j: int| 0 <= j < nodes.len() implies poly_value::<F, F>(
                a[i].coeffs@,
                #[trigger] nodes[j],
            ) == poly_value::<F, F>(b[i].coeffs@, nodes[j]) by {
                assert(nodes[j] == F::spec_from_nat(j as nat));
            }
            values_at_nodes_determine_coefficients(a[i].coeffs@, b[i].coeffs@, nodes);
        }
        assert(domain_weights::<F, R>(skips, a, x) =~= domain_weights::<F, R>(skips, b, x));
    }
}

/// Polynomials that interpolate the same values have the same coefficients.
proof fn interpolation_is_determined<F: Field, EF: Field + Algebra<F>>(
    a: Seq<EF>,
    b: Seq<EF>,
    f: spec_fn(int) -> EF,
    g: spec_fn(int) -> EF,
    n: nat,
)
    requires
        interpolates::<F, EF>(a, f, n),
        interpolates::<F, EF>(b, g, n),
        forall|z: int| 0 <= z < n ==> #[trigger] f(z) == g(z),
        integers_differ_by_units::<F>(n as int),
    ensures
        a == b,
{
    let nodes = nodes_below::<F, EF>(n);
    nodes_differ_by_units::<F, EF>(n);
    assert forall|z: int| 0 <= z < nodes.len() implies poly_value::<EF, EF>(
        a,
        #[trigger] nodes[z],
    ) == poly_value::<EF, EF>(b, nodes[z]) by {
        assert(nodes[z] == <EF as Algebra<F>>::spec_embed(F::spec_from_nat(z as nat)));
        assert(f(z) == g(z));
    }
    values_at_nodes_determine_coefficients(a, b, nodes);
}

/// The equality factor of a round is determined.
proof fn eq_polynomial_is_determined<F: Field, EF: Field + Algebra<F>>(
    a: Seq<EF>,
    b: Seq<EF>,
    first: RoundParameters<'_, EF>,
    second: RoundParameters<'_, EF>,
    first_selectors: Seq<DensePolynomial<F>>,
    second_selectors: Seq<DensePolynomial<F>>,
)
    requires
        first.skips == second.skips,
        first.eq_coordinate() == second.eq_coordinate(),
        are_round_selectors(first_selectors, first.skips),
        are_round_selectors(second_selectors, first.skips),
        integers_differ_by_units::<F>(first.domain() as int),
        is_eq_polynomial::<F, EF>(a, first, first_selectors),
        is_eq_polynomial::<F, EF>(b, second, second_selectors),
    ensures
        a == b,
{
    let r = first.eq_coordinate();
    if first.skips != 1 {
        selectors_are_determined::<F, EF>(first_selectors, second_selectors, first.skips, r);
        let f = |i: int|
            reduced(domain_weights::<F, EF>(first.skips, first_selectors, r)[i]);
        let g = |i: int|
            reduced(domain_weights::<F, EF>(second.skips, second_selectors, r)[i]);
        interpolation_is_determined::<F, EF>(a, b, f, g, first.domain());
    }
}

/// Whether two rounds start from the same, the claimed sum apart.
pub open spec fn differ_in_claim_only<EF>(
    a: RoundParameters<'_, EF>,
    b: RoundParameters<'_, EF>,
) -> bool {
    &&& a.skips == b.skips
    &&& a.eq_factor == b.eq_factor
    &&& a.batching_scalars == b.batching_scalars
    &&& a.is_zerocheck == b.is_zerocheck
    &&& a.comp_degree == b.comp_degree
    &&& a.round == b.round
    &&& a.missing_mul_factor == b.missing_mul_factor
}

/// What is summed at an integer does not depend on the claimed sum.
proof fn summed_value_ignores_claim<F: Field, NF: ExtensionField<F>, EF: Field + Algebra<F>>(
    a: RoundParameters<'_, EF>,
    b: RoundParameters<'_, EF>,
    f: spec_fn(Seq<NF>) -> EF,
    tables: Seq<Seq<NF>>,
    size: nat,
    first_selectors: Seq<DensePolynomial<F>>,
    second_selectors: Seq<DensePolynomial<F>>,
    z: int,
)
    requires
        differ_in_claim_only(a, b),
        are_round_selectors(first_selectors, a.skips),
        are_round_selectors(second_selectors, a.skips),
        integers_differ_by_units::<F>(a.domain() as int),
    ensures
        summed_value::<F, NF, EF>(a, f, tables, size, first_selectors, z) == summed_value::<
            F,
            NF,
            EF,
        >(b, f, tables, size, second_selectors, z),
{
    selectors_are_determined::<F, F>(
        first_selectors,
        second_selectors,
        a.skips,
        F::spec_from_nat(z as nat),
    );
    assert(tables_folded_at::<F, NF>(tables, a.skips, first_selectors, z, size)
        =~= tables_folded_at::<F, NF>(tables, b.skips, second_selectors, z, size));
}

/// A round whose values on the domain are known to be zero sends a polynomial that is zero
/// there, with an equality factor and without.
pub proof fn zerocheck_polynomial_is_zero_on_domain<
    F: Field,
    NF: ExtensionField<F>,
    EF: Field + Algebra<F>,
>(
    coeffs: Seq<EF>,
    parameters: RoundParameters<'_, EF>,
    f: spec_fn(Seq<NF>) -> EF,
    tables: Seq<Seq<NF>>,
    size: nat,
    selectors: Seq<DensePolynomial<F>>,
    i: int,
)
    requires
        parameters.is_zerocheck,
        is_round_polynomial::<F, NF, EF>(coeffs, parameters, f, tables, size, selectors),
        0 <= i < parameters.domain(),
    ensures
        poly_value::<EF, EF>(coeffs, node::<F, EF>(i)) == EF::spec_zero(),
{
    let value = |z: int| round_value::<F, NF, EF>(parameters, f, tables, size, selectors, z);
    let n = parameters.n_values() as nat;
    let x = node::<F, EF>(i);
    assert(value(i) == EF::spec_zero());
    match parameters.eq_factor {
        None => {
            assert(poly_value::<EF, EF>(
                coeffs,
                <EF as Algebra<F>>::spec_embed(F::spec_from_nat(i as nat)),
            ) == value(i));
        },
        Some(_) => {
            let (p, q) = choose|p: Seq<EF>, q: Seq<EF>|
                #![trigger poly_product(p, q)]
                {
                    &&& interpolates::<F, EF>(p, value, n)
                    &&& is_eq_polynomial::<F, EF>(q, parameters, selectors)
                    &&& coeffs == poly_product(p, q)
                };
            assert(poly_value::<EF, EF>(
                p,
                <EF as Algebra<F>>::spec_embed(F::spec_from_nat(i as nat)),
            ) == value(i));
            value_of_poly_product(p, q, x);
            let v = poly_value::<EF, EF>(q, x);
            EF::mul_is_commutative(EF::spec_zero(), v);
            EF::mul_by_zero(v);
        },
    }
}

/// A round whose values on the domain are known to be zero does not depend on the claimed sum:
/// two rounds that differ in it alone send the same coefficients, and on the same challenge
/// they leave the same claim, the same value of the equality factor and the same polynomials.
pub proof fn zerocheck_round_ignores_claim<
    F: Field,
    NF: ExtensionField<F>,
    EF: ExtensionField<NF>,
>(
    first_coeffs: Seq<EF>,
    second_coeffs: Seq<EF>,
    first: RoundParameters<'_, EF>,
    second: RoundParameters<'_, EF>,
    f: spec_fn(Seq<NF>) -> EF,
    tables: Seq<Seq<NF>>,
    size: nat,
    first_selectors: Seq<DensePolynomial<F>>,
    second_selectors: Seq<DensePolynomial<F>>,
    challenge: EF,
) where EF: ExtensionField<F>
    requires
        first.is_zerocheck,
        differ_in_claim_only(first, second),
        are_round_selectors(first_selectors, first.skips),
        are_round_selectors(second_selectors, first.skips),
        integers_differ_by_units::<F>(first.n_values()),
        is_round_polynomial::<F, NF, EF>(first_coeffs, first, f, tables, size, first_selectors),
        is_round_polynomial::<F, NF, EF>(second_coeffs, second, f, tables, size, second_selectors),
    ensures
        first_coeffs == second_coeffs,
        poly_value::<EF, EF>(first_coeffs, challenge) == poly_value::<EF, EF>(
            second_coeffs,
            challenge,
        ),
        forall|k: int|
            0 <= k < tables.len() ==> first_variables_folded::<NF, EF>(
                #[trigger] tables[k],
                domain_weights::<F, EF>(first.skips, first_selectors, challenge),
                size,
            ) == first_variables_folded::<NF, EF>(
                tables[k],
                domain_weights::<F, EF>(second.skips, second_selectors, challenge),
                size,
            ),
        next_mul_factor::<F, EF>(first, first_selectors, challenge) == next_mul_factor::<F, EF>(
            second,
            second_selectors,
            challenge,
        ),
{
    let n = first.n_values() as nat;
    let a = |z: int| round_value::<F, NF, EF>(first, f, tables, size, first_selectors, z);
    let b = |z: int| round_value::<F, NF, EF>(second, f, tables, size, second_selectors, z);
    lemma_pow2_pos(first.skips as nat);
    assert(integers_differ_by_units::<F>(first.domain() as int));
    assert forall|z: int| 0 <= z < n implies #[trigger] a(z) == b(z) by {
        summed_value_ignores_claim::<F, NF, EF>(
            first,
            second,
            f,
            tables,
            size,
            first_selectors,
            second_selectors,
            z,
        );
    }
    selectors_are_determined::<F, EF>(first_selectors, second_selectors, first.skips, challenge);
    match first.eq_factor {
        None => {
            interpolation_is_determined::<F, EF>(first_coeffs, second_coeffs, a, b, n);
        },
        Some(_) => {
            selectors_are_determined::<F, EF>(
                first_selectors,
                second_selectors,
                first.skips,
                first.eq_coordinate(),
            );
            let (p, q) = choose|p: Seq<EF>, q: Seq<EF>|
                #![trigger poly_product(p, q)]
                {
                    &&& interpolates::<F, EF>(p, a, n)
                    &&& is_eq_polynomial::<F, EF>(q, first, first_selectors)
                    &&& first_coeffs == poly_product(p, q)
                };
            let (s, t) = choose|s: Seq<EF>, t: Seq<EF>|
                #![trigger poly_product(s, t)]
                {
                    &&& interpolates::<F, EF>(s, b, n)
                    &&& is_eq_polynomial::<F, EF>(t, second, second_selectors)
                    &&& second_coeffs == poly_product(s, t)
                };
            interpolation_is_determined::<F, EF>(p, s, a, b, n);
            eq_polynomial_is_determined::<F, EF>(
                q,
                t,
                first,
                second,
                first_selectors,
                second_selectors,
            );
        },
    }
}

} // verus!
