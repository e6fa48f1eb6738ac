//! What a round does to the claim.

use vstd::arithmetic::mul::*;
use vstd::arithmetic::power2::*;
use vstd::prelude::*;

use super::computation::with_factor;
use super::hypercube::{hypercube_sum, point_at, weight_at};
use super::round::{
    are_round_selectors, domain_weights, domain_weights_count, folded_at, interpolates,
    is_eq_polynomial, is_round_polynomial, next_mul_factor, round_value, summed_value,
    summed_value_is_canonical, tables_folded_at, RoundParameters,
};
use super::round_laws::{
    eq_polynomial_at_integer, eq_polynomial_value, integers_differ_by_units, inverse_of_unit,
    mixed_coeffs, node, nodes_below, nodes_differ_by_units, product_with_reduced, value_of_mixed,
    weights_select,
};
use crate::dense::{
    is_unit, poly_multiple, poly_value, poly_value_is_canonical, value_of_poly_multiple,
    DensePolynomial,
};
use crate::dense_laws::{poly_product, value_of_poly_product, values_at_nodes_determine};
use crate::evals::{eq_weight, multilinear_value};
use crate::field::{inverse_of, reduced, reduction, Algebra, ExtensionField, Field, Ring};
use crate::multilinear::{embedded, first_variables_folded};
use crate::multilinear_laws::{
    constant_value, eq_weight_of_concatenation, folding_by_challenge_fixes_first_variable,
};
use crate::sums::{
    sum_congruent, sum_is_canonical, sum_of_multiples, sum_of_one_term, sum_of_zeros, sum_splits,
    sum_to,
};

verus! {

/// Whether the values of a polynomial on the domain add up to the claimed sum.
pub open spec fn adds_up<F: Field, EF: Field + Algebra<F>>(
    coeffs: Seq<EF>,
    parameters: RoundParameters<'_, EF>,
) -> bool {
    sum_to(
        parameters.domain(),
        |i: int| poly_value::<EF, EF>(coeffs, node::<F, EF>(i)),
    ) == reduced(parameters.sum)
}

/// Whether the round can meet the claimed sum: a sum that is known to be zero is claimed to
/// be zero, and otherwise the last value on the domain can be chosen.
pub open spec fn claim_can_be_met<F: Field, EF: Field + Algebra<F>>(
    parameters: RoundParameters<'_, EF>,
    selectors: Seq<DensePolynomial<F>>,
) -> bool {
    if parameters.is_zerocheck {
        reduced(parameters.sum) == EF::spec_zero()
    } else {
        &&& parameters.reaches_domain_end()
        &&& parameters.eq_factor is Some ==> is_unit(
            domain_weights::<F, EF>(
                parameters.skips,
                selectors,
                parameters.eq_coordinate(),
            )[parameters.domain() - 1],
        )
    }
}

/// `s + (a - s)` is `a`.
proof fn difference_completes<F: Ring>(s: F, a: F)
    requires
        s.canonical(),
    ensures
        s.spec_add(a.spec_sub(s)) == reduced(a),
{
    let zero = F::spec_zero();
    let n = s.spec_neg();
    F::sub_is_add_of_neg(a, s);
    F::add_is_commutative(a, n);
    F::add_is_associative(s, n, a);
    F::neg_cancels(s);
}

/// `a - s` is `t`, where `s` and `t` add up to `a`.
proof fn difference_recovers<F: Ring>(s: F, t: F, a: F)
    requires
        t.canonical(),
        s.spec_add(t) == reduced(a),
    ensures
        a.spec_sub(s) == t,
{
    let zero = F::spec_zero();
    let n = s.spec_neg();
    F::sub_is_add_of_neg(a, s);
    F::results_are_canonical(a, n);
    F::zero_is_neutral(a.spec_add(n));
    F::add_is_associative(zero, a, n);
    // (s + t) + -s == (t + s) + -s == t + 0
    F::add_is_commutative(s, t);
    F::add_is_associative(t, s, n);
    F::neg_cancels(s);
    F::add_is_commutative(t, zero);
    F::zero_is_neutral(t);
}

/// The round has a value at each integer of the domain.
proof fn values_cover_domain<EF: Field>(parameters: RoundParameters<'_, EF>)
    requires
        parameters.is_zerocheck || parameters.reaches_domain_end(),
    ensures
        parameters.n_values() >= parameters.domain() >= 1,
{
    lemma_pow2_pos(parameters.skips as nat);
    lemma2_to64();
    if parameters.comp_degree > 0 {
        lemma_mul_inequality(1, parameters.comp_degree as int, parameters.domain() - 1);
        lemma_mul_basics(parameters.domain() - 1);
    }
}

/// A value of the round at an integer of the domain, weighted as it enters the sum.
spec fn weighted_value<F: Field, EF: Field + Algebra<F>>(
    parameters: RoundParameters<'_, EF>,
    selectors: Seq<DensePolynomial<F>>,
    value: EF,
    i: int,
) -> EF {
    match parameters.eq_factor {
        Some(_) => value.spec_mul(
            domain_weights::<F, EF>(
                parameters.skips,
                selectors,
                parameters.eq_coordinate(),
            )[i],
        ),
        None => value,
    }
}

/// The weighted values on the domain add up to the claimed sum.
proof fn round_values_add_up<F: Field, NF: ExtensionField<F>, EF: Field + Algebra<F>>(
    parameters: RoundParameters<'_, EF>,
    f: spec_fn(Seq<NF>) -> EF,
    tables: Seq<Seq<NF>>,
    size: nat,
    selectors: Seq<DensePolynomial<F>>,
)
    requires
        claim_can_be_met::<F, EF>(parameters, selectors),
    ensures
        sum_to(
            parameters.domain(),
            |i: int|
                weighted_value::<F, EF>(
                    parameters,
                    selectors,
                    round_value::<F, NF, EF>(parameters, f, tables, size, selectors, i),
                    i,
                ),
        ) == reduced(parameters.sum),
{
    let n = parameters.domain();
    let value = |i: int| round_value::<F, NF, EF>(parameters, f, tables, size, selectors, i);
    let term = |i: int| weighted_value::<F, EF>(parameters, selectors, value(i), i);
    let w = domain_weights::<F, EF>(parameters.skips, selectors, parameters.eq_coordinate());
    lemma_pow2_pos(parameters.skips as nat);
    let total = |i: int|
        weighted_value::<F, EF>(
            parameters,
            selectors,
            round_value::<F, NF, EF>(parameters, f, tables, size, selectors, i),
            i,
        );
    assert forall|i: int| 0 <= i < n implies #[trigger] total(i) == term(i) by {}
    sum_congruent(n, total, term);
    if parameters.is_zerocheck {
        assert forall|i: int| 0 <= i < n implies #[trigger] term(i) == EF::spec_zero() by {
            EF::mul_by_zero(w[i]);
            EF::mul_is_commutative(EF::spec_zero(), w[i]);
        }
        sum_of_zeros(n, term);
    } else {
        let last = (n - 1) as nat;
        let summed = |i: int|
            summed_value::<F, NF, EF>(parameters, f, tables, size, selectors, i);
        match parameters.eq_factor {
            Some(_) => {
                let before = |i: int| summed(i).spec_mul(w[i]);
                assert forall|i: int| 0 <= i < last implies #[trigger] term(i) == before(i) by {}
                sum_congruent(last, term, before);
                let s = sum_to(last, before);
                sum_is_canonical(last, before);
                let difference = parameters.sum.spec_sub(s);
                let inverse = inverse_of(w[last as int]);
                assert(value(last as int) == difference.spec_mul(inverse));
                inverse_of_unit(w[last as int]);
                EF::mul_is_associative(difference, inverse, w[last as int]);
                EF::mul_is_commutative(inverse, w[last as int]);
                EF::results_are_canonical(parameters.sum, s);
                EF::one_is_neutral(difference);
                EF::mul_is_commutative(difference, EF::spec_one());
                assert(term(last as int) == difference);
                difference_completes(s, parameters.sum);
            },
            None => {
                assert forall|i: int| 0 <= i < last implies #[trigger] term(i) == summed(i) by {}
                sum_congruent(last, term, summed);
                let s = sum_to(last, summed);
                sum_is_canonical(last, summed);
                assert(term(last as int) == parameters.sum.spec_sub(s));
                difference_completes(s, parameters.sum);
            },
        }
    }
}

/// The values of the polynomial that a round sends add up, over the domain, to the claimed
/// sum.
pub proof fn round_polynomial_adds_up<
    F: Field,
    NF: ExtensionField<F>,
    EF: Field + Algebra<F>,
>(
    coeffs: Seq<EF>,
    parameters: RoundParameters<'_, EF>,
    f: spec_fn(Seq<NF>) -> EF,
    tables: Seq<Seq<NF>>,
    size: nat,
    selectors: Seq<DensePolynomial<F>>,
)
    requires
        are_round_selectors(selectors, parameters.skips),
        is_round_polynomial::<F, NF, EF>(coeffs, parameters, f, tables, size, selectors),
        claim_can_be_met::<F, EF>(parameters, selectors),
    ensures
        adds_up::<F, EF>(coeffs, parameters),
{
    let n = parameters.domain();
    let value = |i: int| round_value::<F, NF, EF>(parameters, f, tables, size, selectors, i);
    let term = |i: int| weighted_value::<F, EF>(parameters, selectors, value(i), i);
    let sent = |i: int| poly_value::<EF, EF>(coeffs, node::<F, EF>(i));
    values_cover_domain(parameters);
    round_values_add_up::<F, NF, EF>(parameters, f, tables, size, selectors);
    sum_congruent(
        n,
        term,
        |i: int|
            weighted_value::<F, EF>(
                parameters,
                selectors,
                round_value::<F, NF, EF>(parameters, f, tables, size, selectors, i),
                i,
            ),
    );
    match parameters.eq_factor {
        Some(_) => {
            let (p, q) = choose|p: Seq<EF>, q: Seq<EF>|
                #![trigger poly_product(p, q)]
                {
                    &&& interpolates::<F, EF>(p, value, parameters.n_values() as nat)
                    &&& is_eq_polynomial::<F, EF>(q, parameters, selectors)
                    &&& coeffs == poly_product(p, q)
                };
            let w = domain_weights::<F, EF>(
                parameters.skips,
                selectors,
                parameters.eq_coordinate(),
            );
            assert forall|i: int| 0 <= i < n implies #[trigger] sent(i) == term(i) by {
                let x = node::<F, EF>(i);
                value_of_poly_product(p, q, x);
                eq_polynomial_at_integer::<F, EF>(q, parameters, selectors, i);
                assert(poly_value::<EF, EF>(
                    p,
                    <EF as Algebra<F>>::spec_embed(F::spec_from_nat(i as nat)),
                ) == value(i));
                product_with_reduced(value(i), w[i]);
            }
        },
        None => {
            assert forall|i: int| 0 <= i < n implies #[trigger] sent(i) == term(i) by {
                assert(poly_value::<EF, EF>(
                    coeffs,
                    <EF as Algebra<F>>::spec_embed(F::spec_from_nat(i as nat)),
                ) == value(i));
            }
        },
    }
    sum_congruent(n, sent, term);
}

/// Whether the claimed sum is the sum, over the domain and the hypercube that is left, of
/// the values that are summed.
pub open spec fn claim_holds<F: Field, NF: ExtensionField<F>, EF: Field + Algebra<F>>(
    parameters: RoundParameters<'_, EF>,
    f: spec_fn(Seq<NF>) -> EF,
    tables: Seq<Seq<NF>>,
    size: nat,
    selectors: Seq<DensePolynomial<F>>,
) -> bool {
    let w = domain_weights::<F, EF>(parameters.skips, selectors, parameters.eq_coordinate());
    sum_to(
        parameters.domain(),
        |i: int|
            {
                let value = summed_value::<F, NF, EF>(
                    parameters,
                    f,
                    tables,
                    size,
                    selectors,
                    i,
                );
                match parameters.eq_factor {
                    Some(_) => value.spec_mul(w[i]),
                    None => value,
                }
            },
    ) == reduced(parameters.sum)
}

/// Where the claim holds, the last value on the domain is the sum there as well, though it
/// is had from the claimed sum.
pub proof fn true_claim_gives_summed_values<
    F: Field,
    NF: ExtensionField<F>,
    EF: Field + Algebra<F>,
>(
    parameters: RoundParameters<'_, EF>,
    f: spec_fn(Seq<NF>) -> EF,
    tables: Seq<Seq<NF>>,
    size: nat,
    selectors: Seq<DensePolynomial<F>>,
    z: int,
)
    requires
        claim_can_be_met::<F, EF>(parameters, selectors),
        claim_holds::<F, NF, EF>(parameters, f, tables, size, selectors),
    ensures
        round_value::<F, NF, EF>(parameters, f, tables, size, selectors, z) == summed_value::<
            F,
            NF,
            EF,
        >(parameters, f, tables, size, selectors, z),
{
    if !parameters.is_zerocheck && z == parameters.domain() - 1 {
        lemma_pow2_pos(parameters.skips as nat);
        let last = z as nat;
        let summed = |i: int|
            summed_value::<F, NF, EF>(parameters, f, tables, size, selectors, i);
        let w = domain_weights::<F, EF>(parameters.skips, selectors, parameters.eq_coordinate());
        let whole = |i: int|
            {
                let value = summed_value::<F, NF, EF>(
                    parameters,
                    f,
                    tables,
                    size,
                    selectors,
                    i,
                );
                match parameters.eq_factor {
                    Some(_) => value.spec_mul(w[i]),
                    None => value,
                }
            };
        let value = summed(z);
        assert(sum_to(parameters.domain(), whole) == reduced(parameters.sum));
        summed_value_is_canonical::<F, NF, EF>(parameters, f, tables, size, selectors, z);
        match parameters.eq_factor {
            Some(_) => {
                let before = |i: int| summed(i).spec_mul(w[i]);
                assert forall|i: int| 0 <= i < last implies #[trigger] whole(i) == before(i) by {}
                sum_congruent(last, whole, before);
                let s = sum_to(last, before);
                let t = value.spec_mul(w[z]);
                EF::results_are_canonical(value, w[z]);
                assert(whole(z) == t);
                difference_recovers(s, t, parameters.sum);
                let inverse = inverse_of(w[z]);
                inverse_of_unit(w[z]);
                EF::mul_is_associative(value, w[z], inverse);
                EF::one_is_neutral(value);
                EF::mul_is_commutative(value, EF::spec_one());
            },
            None => {
                assert forall|i: int| 0 <= i < last implies #[trigger] whole(i) == summed(i) by {}
                sum_congruent(last, whole, summed);
                assert(whole(z) == value);
                difference_recovers(sum_to(last, summed), value, parameters.sum);
            },
        }
    }
}

/// Whether, at each index of the hypercube that is left, what is summed is a polynomial of
/// the round's degree in the round's variable: `along(x)` are coefficients that give the
/// value at each integer and, where the polynomials are folded, at the challenge.
pub open spec fn is_polynomial_in_round<F: Field, NF: ExtensionField<F>, EF: Field + Algebra<F>>(
    parameters: RoundParameters<'_, EF>,
    f: spec_fn(Seq<NF>) -> EF,
    tables: Seq<Seq<NF>>,
    size: nat,
    selectors: Seq<DensePolynomial<F>>,
    g: spec_fn(Seq<EF>) -> EF,
    folded: Seq<Seq<EF>>,
    challenge: EF,
    along: spec_fn(int) -> Seq<EF>,
) -> bool {
    forall|x: int|
        0 <= x < size ==> {
            &&& (#[trigger] along(x)).len() == parameters.n_values()
            &&& forall|z: int|
                0 <= z < parameters.n_values() ==> poly_value::<EF, EF>(
                    along(x),
                    #[trigger] node::<F, EF>(z),
                ) == f(
                    point_at(
                        tables_folded_at::<F, NF>(tables, parameters.skips, selectors, z, size),
                        x,
                    ),
                )
            &&& poly_value::<EF, EF>(along(x), challenge) == g(point_at(folded, x))
        }
}

/// Whether what is summed is zero at each point of the domain and the hypercube that is
/// left.
pub open spec fn is_zero_on_domain<F: Field, NF: ExtensionField<F>, EF: Field>(
    parameters: RoundParameters<'_, EF>,
    f: spec_fn(Seq<NF>) -> EF,
    tables: Seq<Seq<NF>>,
    size: nat,
    selectors: Seq<DensePolynomial<F>>,
) -> bool {
    forall|z: int, x: int|
        0 <= z < parameters.domain() && 0 <= x < size ==> f(
            #[trigger] point_at(
                tables_folded_at::<F, NF>(tables, parameters.skips, selectors, z, size),
                x,
            ),
        ) == EF::spec_zero()
}

/// Zeros, weighted, add up to zero.
proof fn zeros_sum_to_zero<NF, EF: Ring>(
    f: spec_fn(Seq<NF>) -> EF,
    tables: Seq<Seq<NF>>,
    n: nat,
    weights: Option<Seq<EF>>,
    factor: Option<EF>,
)
    requires
        forall|x: int| 0 <= x < n ==> f(#[trigger] point_at(tables, x)) == EF::spec_zero(),
    ensures
        with_factor(hypercube_sum(f, tables, n, weights), factor) == EF::spec_zero(),
{
    let term = |x: int| with_factor(f(point_at(tables, x)), weight_at(weights, x));
    assert forall|x: int| 0 <= x < n implies #[trigger] term(x) == EF::spec_zero() by {
        if let Some(w) = weight_at(weights, x) {
            EF::mul_by_zero(w);
            EF::mul_is_commutative(EF::spec_zero(), w);
        }
    }
    sum_of_zeros(n, term);
    if let Some(m) = factor {
        EF::mul_by_zero(m);
        EF::mul_is_commutative(EF::spec_zero(), m);
    }
}

/// The scalar with which the index `x` enters the sum.
spec fn index_scalar<EF: Ring>(weights: Option<Seq<EF>>, x: int) -> EF {
    match weight_at(weights, x) {
        Some(w) => w,
        None => EF::spec_one(),
    }
}

/// The coefficients of the sum over the hypercube.
spec fn summed_coeffs<EF: Ring>(
    len: nat,
    along: spec_fn(int) -> Seq<EF>,
    weights: Option<Seq<EF>>,
    size: nat,
    factor: Option<EF>,
) -> Seq<EF> {
    let sum = mixed_coeffs(len, along, |x: int| index_scalar(weights, x), size);
    match factor {
        Some(m) => poly_multiple(m, sum),
        None => sum,
    }
}

/// Summing polynomials over the hypercube sums their values.
proof fn value_of_summed<NF, EF: Ring>(
    len: nat,
    along: spec_fn(int) -> Seq<EF>,
    weights: Option<Seq<EF>>,
    size: nat,
    factor: Option<EF>,
    f: spec_fn(Seq<NF>) -> EF,
    tables: Seq<Seq<NF>>,
    at: EF,
)
    requires
        forall|x: int|
            0 <= x < size ==> {
                &&& (#[trigger] along(x)).len() == len
                &&& poly_value::<EF, EF>(along(x), at) == f(point_at(tables, x))
            },
    ensures
        summed_coeffs(len, along, weights, size, factor).len() == len,
        poly_value::<EF, EF>(summed_coeffs(len, along, weights, size, factor), at) == with_factor(
            hypercube_sum(f, tables, size, weights),
            factor,
        ),
{
    let scalars = |x: int| index_scalar(weights, x);
    let mixed = mixed_coeffs(len, along, scalars, size);
    value_of_mixed(len, along, scalars, size, at);
    let a = |x: int| scalars(x).spec_mul(poly_value::<EF, EF>(along(x), at));
    let b = |x: int| with_factor(f(point_at(tables, x)), weight_at(weights, x));
    assert forall|x: int| 0 <= x < size implies #[trigger] a(x) == b(x) by {
        let value = poly_value::<EF, EF>(along(x), at);
        poly_value_is_canonical::<EF, EF>(along(x), at);
        EF::one_is_neutral(value);
        EF::mul_is_commutative(scalars(x), value);
    }
    sum_congruent(size, a, b);
    if let Some(m) = factor {
        value_of_poly_multiple(m, mixed, at);
        EF::mul_is_commutative(m, poly_value::<EF, EF>(mixed, at));
    }
}

/// A true claim stays true: where the sum that a round claims is the sum of what is summed,
/// the value of the round's polynomial at the challenge is the sum, over the hypercube that
/// is left, of what is summed once the polynomials are folded at the challenge, multiplied
/// by the value that the equality factor has by then.
pub proof fn true_claim_survives_round<
    F: Field,
    NF: ExtensionField<F>,
    EF: Field + Algebra<F>,
>(
    coeffs: Seq<EF>,
    parameters: RoundParameters<'_, EF>,
    f: spec_fn(Seq<NF>) -> EF,
    tables: Seq<Seq<NF>>,
    size: nat,
    selectors: Seq<DensePolynomial<F>>,
    g: spec_fn(Seq<EF>) -> EF,
    folded: Seq<Seq<EF>>,
    challenge: EF,
    along: spec_fn(int) -> Seq<EF>,
)
    requires
        are_round_selectors(selectors, parameters.skips),
        is_round_polynomial::<F, NF, EF>(coeffs, parameters, f, tables, size, selectors),
        integers_differ_by_units::<F>(parameters.n_values()),
        claim_can_be_met::<F, EF>(parameters, selectors),
        claim_holds::<F, NF, EF>(parameters, f, tables, size, selectors),
        parameters.is_zerocheck ==> is_zero_on_domain::<F, NF, EF>(
            parameters,
            f,
            tables,
            size,
            selectors,
        ),
        is_polynomial_in_round::<F, NF, EF>(
            parameters,
            f,
            tables,
            size,
            selectors,
            g,
            folded,
            challenge,
            along,
        ),
    ensures
        poly_value::<EF, EF>(coeffs, challenge) == with_factor(
            hypercube_sum(g, folded, size, parameters.eq_weights()),
            next_mul_factor::<F, EF>(parameters, selectors, challenge),
        ),
{
    values_cover_domain(parameters);
    let n = parameters.n_values() as nat;
    let weights = parameters.eq_weights();
    let factor = parameters.missing_mul_factor;
    let value = |z: int| round_value::<F, NF, EF>(parameters, f, tables, size, selectors, z);
    let truth = summed_coeffs(n, along, weights, size, factor);
    let nodes = nodes_below::<F, EF>(n);
    nodes_differ_by_units::<F, EF>(n);
    value_of_summed(n, along, weights, size, factor, g, folded, challenge);
    let p = match parameters.eq_factor {
        Some(_) => (choose|p: Seq<EF>, q: Seq<EF>|
            #![trigger poly_product(p, q)]
            {
                &&& interpolates::<F, EF>(p, value, n)
                &&& is_eq_polynomial::<F, EF>(q, parameters, selectors)
                &&& coeffs == poly_product(p, q)
            }).0,
        None => coeffs,
    };
    assert forall|z: int| 0 <= z < nodes.len() implies poly_value::<EF, EF>(p, #[trigger] nodes[z])
        == poly_value::<EF, EF>(truth, nodes[z]) by {
        let at = tables_folded_at::<F, NF>(tables, parameters.skips, selectors, z, size);
        assert(poly_value::<EF, EF>(
            p,
            <EF as Algebra<F>>::spec_embed(F::spec_from_nat(z as nat)),
        ) == value(z));
        true_claim_gives_summed_values::<F, NF, EF>(
            parameters,
            f,
            tables,
            size,
            selectors,
            z,
        );
        assert forall|x: int| 0 <= x < size implies (#[trigger] along(x)).len() == n
            && poly_value::<EF, EF>(along(x), nodes[z]) == f(point_at(at, x)) by {
            assert(nodes[z] == node::<F, EF>(z));
        }
        value_of_summed(n, along, weights, size, factor, f, at, nodes[z]);
        if parameters.is_zerocheck && z < parameters.domain() {
            assert forall|x: int| 0 <= x < size implies f(#[trigger] point_at(at, x))
                == EF::spec_zero() by {}
            zeros_sum_to_zero(f, at, size, weights, factor);
        }
    }
    values_at_nodes_determine(p, truth, nodes, challenge);
    if parameters.eq_factor is Some {
        let (p, q) = choose|p: Seq<EF>, q: Seq<EF>|
            #![trigger poly_product(p, q)]
            {
                &&& interpolates::<F, EF>(p, value, n)
                &&& is_eq_polynomial::<F, EF>(q, parameters, selectors)
                &&& coeffs == poly_product(p, q)
            };
        value_of_poly_product(p, q, challenge);
        assert(integers_differ_by_units::<F>(parameters.domain() as int));
        eq_polynomial_value::<F, EF>(q, parameters, selectors, challenge);
        let r = parameters.eq_coordinate();
        let at_coordinate = domain_weights::<F, EF>(parameters.skips, selectors, r);
        let at_challenge = domain_weights::<F, EF>(parameters.skips, selectors, challenge);
        domain_weights_count::<F, EF>(parameters.skips, selectors, challenge);
        let term = |i: int| at_coordinate[i].spec_mul(at_challenge[i]);
        let k = sum_to(parameters.domain(), term);
        sum_congruent(
            parameters.domain(),
            term,
            |i: int|
                domain_weights::<F, EF>(
                    parameters.skips,
                    selectors,
                    parameters.eq_coordinate(),
                )[i].spec_mul(domain_weights::<F, EF>(parameters.skips, selectors, challenge)[i]),
        );
        sum_is_canonical(parameters.domain(), term);
        let h = hypercube_sum(g, folded, size, weights);
        match factor {
            Some(m) => {
                EF::mul_is_associative(h, m, k);
                EF::mul_is_commutative(m, k);
            },
            None => {
                EF::one_is_neutral(k);
                EF::mul_is_commutative(k, EF::spec_one());
            },
        }
    }
}

/// The weights of the hypercube as the round finds it.
pub open spec fn whole_weights<EF: Field>(parameters: RoundParameters<'_, EF>) -> Option<
    Seq<EF>,
> {
    match parameters.eq_factor {
        Some(eq_factor) => {
            let point = eq_factor@.skip(parameters.round as int);
            Some(Seq::new(pow2(point.len()), |i: int| eq_weight(point, i)))
        },
        None => None,
    }
}

/// Folding at an integer of the domain leaves one block of the values.
pub proof fn folding_at_integer_takes_block<F: Field, NF: ExtensionField<F>>(
    evals: Seq<NF>,
    skips: usize,
    selectors: Seq<DensePolynomial<F>>,
    z: int,
    size: nat,
    y: int,
)
    requires
        are_round_selectors(selectors, skips),
        evals.len() == pow2(skips as nat) * size,
        forall|i: int| 0 <= i < evals.len() ==> (#[trigger] evals[i]).canonical(),
        0 <= z < pow2(skips as nat),
        0 <= y < size,
    ensures
        0 <= z * size + y < evals.len(),
        folded_at::<F, NF>(evals, skips, selectors, z, size)[y] == evals[z * size + y],
{
    let n = pow2(skips as nat);
    lemma_mul_inequality(z + 1, n as int, size as int);
    lemma_mul_is_distributive_add_other_way(size as int, z, 1);
    lemma_mul_basics(size as int);
    lemma_mul_nonnegative(z, size as int);
    if !(skips == 1 && z == 0) {
        let w = domain_weights::<F, F>(skips, selectors, F::spec_from_nat(z as nat));
        let scalars = embedded::<F, NF>(w);
        domain_weights_count::<F, F>(skips, selectors, F::spec_from_nat(z as nat));
        let term = |j: int|
            scalars[j].spec_mul(<NF as Algebra<NF>>::spec_embed(evals[j * size + y]));
        NF::embed_is_homomorphism(F::spec_zero(), F::spec_one());
        assert forall|j: int| 0 <= j < n && j != z implies #[trigger] term(j)
            == NF::spec_zero() by {
            weights_select::<F, F>(skips, selectors, j, z);
            NF::mul_by_zero(evals[j * size + y]);
            NF::mul_is_commutative(NF::spec_zero(), evals[j * size + y]);
        }
        weights_select::<F, F>(skips, selectors, z, z);
        assert(evals[z * size + y].canonical());
        NF::one_is_neutral(evals[z * size + y]);
        assert(term(z) == evals[z * size + y]);
        sum_of_one_term(n, z, term);
        assert(folded_at::<F, NF>(evals, skips, selectors, z, size)[y] == sum_to(n, term));
    }
}

/// Where what is summed vanishes at every point of the hypercube, it vanishes on the domain of
/// the first round, and the claim that the sum is zero holds.
pub proof fn vanishing_everywhere_vanishes_on_domain<
    F: Field,
    NF: ExtensionField<F>,
    EF: Field + Algebra<F>,
>(
    parameters: RoundParameters<'_, EF>,
    f: spec_fn(Seq<NF>) -> EF,
    tables: Seq<Seq<NF>>,
    size: nat,
    selectors: Seq<DensePolynomial<F>>,
)
    requires
        are_round_selectors(selectors, parameters.skips),
        forall|k: int|
            0 <= k < tables.len() ==> (#[trigger] tables[k]).len() == parameters.domain() * size
                && forall|i: int|
                0 <= i < tables[k].len() ==> (#[trigger] tables[k][i]).canonical(),
        forall|x: int|
            0 <= x < parameters.domain() * size ==> f(#[trigger] point_at(tables, x))
                == EF::spec_zero(),
        reduced(parameters.sum) == EF::spec_zero(),
    ensures
        is_zero_on_domain::<F, NF, EF>(parameters, f, tables, size, selectors),
        claim_holds::<F, NF, EF>(parameters, f, tables, size, selectors),
{
    let n = parameters.domain();
    let skips = parameters.skips;
    assert forall|z: int, x: int| 0 <= z < n && 0 <= x < size implies f(
        #[trigger] point_at(tables_folded_at::<F, NF>(tables, skips, selectors, z, size), x),
    ) == EF::spec_zero() by {
        let folded = tables_folded_at::<F, NF>(tables, skips, selectors, z, size);
        lemma_mul_inequality(z + 1, n as int, size as int);
        lemma_mul_is_distributive_add_other_way(size as int, z, 1);
        lemma_mul_basics(size as int);
        lemma_mul_nonnegative(z, size as int);
        assert forall|k: int| 0 <= k < tables.len() implies folded[k][x] == tables[k][z * size
            + x] by {
            assert(tables[k].len() == n * size);
            folding_at_integer_takes_block::<F, NF>(tables[k], skips, selectors, z, size, x);
        }
        assert(point_at(folded, x) =~= point_at(tables, z * size + x));
    }
    let w = domain_weights::<F, EF>(skips, selectors, parameters.eq_coordinate());
    let term = |i: int|
        {
            let value = summed_value::<F, NF, EF>(parameters, f, tables, size, selectors, i);
            match parameters.eq_factor {
                Some(_) => value.spec_mul(w[i]),
                None => value,
            }
        };
    assert forall|i: int| 0 <= i < n implies #[trigger] term(i) == EF::spec_zero() by {
        zeros_sum_to_zero(
            f,
            tables_folded_at::<F, NF>(tables, skips, selectors, i, size),
            size,
            parameters.eq_weights(),
            parameters.missing_mul_factor,
        );
        EF::mul_by_zero(w[i]);
        EF::mul_is_commutative(EF::spec_zero(), w[i]);
    }
    sum_of_zeros(n, term);
}

/// The part of a sum over the hypercube that belongs to one value of the first variable.
proof fn half_of_sum<F: Field, NF: ExtensionField<F>, EF: Field + Algebra<F>>(
    parameters: RoundParameters<'_, EF>,
    f: spec_fn(Seq<NF>) -> EF,
    tables: Seq<Seq<NF>>,
    left: nat,
    selectors: Seq<DensePolynomial<F>>,
    bit: int,
)
    requires
        parameters.skips == 1,
        are_round_selectors(selectors, 1),
        parameters.eq_factor matches Some(eq_factor) ==> eq_factor@.len() == parameters.round + 1
            + left,
        forall|k: int|
            0 <= k < tables.len() ==> (#[trigger] tables[k]).len() == 2 * pow2(left) && forall|
                i: int,
            |
                0 <= i < tables[k].len() ==> (#[trigger] tables[k][i]).canonical(),
        0 <= bit < 2,
    ensures
        sum_to(
            pow2(left),
            |y: int|
                with_factor(
                    f(point_at(tables, bit * pow2(left) + y)),
                    weight_at(whole_weights(parameters), bit * pow2(left) + y),
                ),
        ) == (match parameters.eq_factor {
            Some(_) => domain_weights::<F, EF>(
                1,
                selectors,
                parameters.eq_coordinate(),
            )[bit].spec_mul(
                hypercube_sum(
                    f,
                    tables_folded_at::<F, NF>(tables, 1, selectors, bit, pow2(left)),
                    pow2(left),
                    parameters.eq_weights(),
                ),
            ),
            None => hypercube_sum(
                f,
                tables_folded_at::<F, NF>(tables, 1, selectors, bit, pow2(left)),
                pow2(left),
                parameters.eq_weights(),
            ),
        }),
{
    let size = pow2(left);
    lemma2_to64();
    let folded = tables_folded_at::<F, NF>(tables, 1, selectors, bit, size);
    let a = |y: int|
        with_factor(
            f(point_at(tables, bit * size + y)),
            weight_at(whole_weights(parameters), bit * size + y),
        );
    let b = |y: int|
        with_factor(f(point_at(folded, y)), weight_at(parameters.eq_weights(), y));
    assert forall|y: int| 0 <= y < size implies #[trigger] point_at(folded, y) == point_at(
        tables,
        bit * size + y,
    ) by {
        assert forall|k: int| 0 <= k < tables.len() implies folded[k][y] == tables[k][bit * size
            + y] by {
            assert(tables[k].len() == 2 * size);
            folding_at_integer_takes_block::<F, NF>(tables[k], 1, selectors, bit, size, y);
        }
        assert(point_at(folded, y) =~= point_at(tables, bit * size + y));
    }
    match parameters.eq_factor {
        Some(eq_factor) => {
            let point = eq_factor@.skip(parameters.round as int);
            let rest = eq_factor@.skip(1 + parameters.round);
            let r = parameters.eq_coordinate();
            let first = seq![r];
            let w = domain_weights::<F, EF>(1, selectors, r)[bit];
            assert(point =~= first + rest);
            lemma_pow2_unfold(point.len());
            assert forall|y: int| 0 <= y < size implies #[trigger] a(y) == w.spec_mul(b(y)) by {
                let value = f(point_at(folded, y));
                let e = eq_weight(rest, y);
                eq_weight_of_concatenation(first, rest, bit, y);
                assert(first.drop_last() =~= Seq::empty());
                reveal_with_fuel(eq_weight, 2);
                assert(eq_weight(first, bit) == EF::spec_one().spec_mul(w));
                reduction(w);
                product_with_reduced(w, e);
                assert(eq_weight(point, bit * size + y) == w.spec_mul(e));
                EF::mul_is_associative(value, w, e);
                EF::mul_is_commutative(value, w);
                EF::mul_is_associative(w, value, e);
            }
            sum_of_multiples(size, w, b, a);
        },
        None => {
            assert forall|y: int| 0 <= y < size implies #[trigger] a(y) == b(y) by {}
            sum_congruent(size, a, b);
        },
    }
}

/// A claim on the sum over the whole hypercube is the claim that a round starts from that
/// folds the first variable: the sums over the two halves, each weighted, add up to it.
pub proof fn whole_claim_is_round_claim<
    F: Field,
    NF: ExtensionField<F>,
    EF: Field + Algebra<F>,
>(
    parameters: RoundParameters<'_, EF>,
    f: spec_fn(Seq<NF>) -> EF,
    tables: Seq<Seq<NF>>,
    left: nat,
    selectors: Seq<DensePolynomial<F>>,
)
    requires
        parameters.skips == 1,
        are_round_selectors(selectors, 1),
        !parameters.is_zerocheck,
        parameters.eq_factor matches Some(eq_factor) ==> eq_factor@.len() == parameters.round + 1
            + left,
        forall|k: int|
            0 <= k < tables.len() ==> (#[trigger] tables[k]).len() == 2 * pow2(left) && forall|
                i: int,
            |
                0 <= i < tables[k].len() ==> (#[trigger] tables[k][i]).canonical(),
        with_factor(
            hypercube_sum(f, tables, 2 * pow2(left), whole_weights(parameters)),
            parameters.missing_mul_factor,
        ) == reduced(parameters.sum),
    ensures
        claim_holds::<F, NF, EF>(parameters, f, tables, pow2(left), selectors),
{
    let size = pow2(left);
    let w = domain_weights::<F, EF>(1, selectors, parameters.eq_coordinate());
    let whole = |x: int|
        with_factor(f(point_at(tables, x)), weight_at(whole_weights(parameters), x));
    lemma2_to64();
    half_of_sum::<F, NF, EF>(parameters, f, tables, left, selectors, 0);
    half_of_sum::<F, NF, EF>(parameters, f, tables, left, selectors, 1);
    sum_splits(size, size, whole);
    let h = |i: int|
        hypercube_sum(
            f,
            tables_folded_at::<F, NF>(tables, 1, selectors, i, size),
            size,
            parameters.eq_weights(),
        );
    let part = |i: int|
        sum_to(
            size,
            |y: int|
                with_factor(
                    f(point_at(tables, i * size + y)),
                    weight_at(whole_weights(parameters), i * size + y),
                ),
        );
    assert(part(0) == sum_to(size, whole)) by {
        sum_congruent(
            size,
            whole,
            |y: int|
                with_factor(
                    f(point_at(tables, 0 * size + y)),
                    weight_at(whole_weights(parameters), 0 * size + y),
                ),
        );
    }
    assert(part(1) == sum_to(size, |y: int| whole(size + y))) by {
        sum_congruent(
            size,
            |y: int| whole(size + y),
            |y: int|
                with_factor(
                    f(point_at(tables, 1 * size + y)),
                    weight_at(whole_weights(parameters), 1 * size + y),
                ),
        );
    }
    let total = part(0).spec_add(part(1));
    assert(hypercube_sum(f, tables, 2 * size, whole_weights(parameters)) == total);
    let term = |i: int|
        {
            let value = summed_value::<F, NF, EF>(parameters, f, tables, size, selectors, i);
            match parameters.eq_factor {
                Some(_) => value.spec_mul(w[i]),
                None => value,
            }
        };
    assert forall|i: int| 0 <= i < 2 implies #[trigger] term(i) == with_factor(
        part(i),
        parameters.missing_mul_factor,
    ) by {
        assert(summed_value::<F, NF, EF>(parameters, f, tables, size, selectors, i)
            == with_factor(h(i), parameters.missing_mul_factor));
        match parameters.eq_factor {
            Some(_) => {
                assert(part(i) == w[i].spec_mul(h(i)));
                EF::mul_is_commutative(w[i], h(i));
                if let Some(m) = parameters.missing_mul_factor {
                    EF::mul_is_associative(h(i), m, w[i]);
                    EF::mul_is_commutative(m, w[i]);
                    EF::mul_is_associative(h(i), w[i], m);
                }
            },
            None => {
                assert(part(i) == h(i));
            },
        }
    }
    if let Some(m) = parameters.missing_mul_factor {
        EF::mul_is_commutative(total, m);
        EF::mul_distributes_over_add(m, part(0), part(1));
        EF::mul_is_commutative(part(0), m);
        EF::mul_is_commutative(part(1), m);
    }
    assert(term(0).canonical()) by {
        summed_value_is_canonical::<F, NF, EF>(parameters, f, tables, size, selectors, 0);
        EF::results_are_canonical(
            summed_value::<F, NF, EF>(parameters, f, tables, size, selectors, 0),
            w[0],
        );
    }
    reveal_with_fuel(sum_to, 3);
    EF::zero_is_neutral(term(0));
    assert(sum_to(2, term) == term(0).spec_add(term(1)));
}

/// The values that are left once the first variables are folded at the challenges, one
/// after another.
pub open spec fn successively_folded<EF: Ring>(evals: Seq<EF>, challenges: Seq<EF>) -> Seq<EF>
    decreases challenges.len(),
{
    if challenges.len() == 0 {
        evals
    } else {
        let before = successively_folded(evals, challenges.drop_last());
        let c = challenges.last();
        first_variables_folded::<EF, EF>(
            before,
            seq![EF::spec_one().spec_sub(c), c],
            before.len() / 2,
        )
    }
}

/// Folding the first variables, one after another, fixes them to the challenges.
pub proof fn folding_one_by_one_fixes_variables<EF: Ring>(
    evals: Seq<EF>,
    challenges: Seq<EF>,
    rest: Seq<EF>,
)
    requires
        evals.len() == pow2(challenges.len() + rest.len()),
        forall|i: int| 0 <= i < evals.len() ==> (#[trigger] evals[i]).canonical(),
    ensures
        successively_folded(evals, challenges).len() == pow2(rest.len()),
        forall|i: int|
            0 <= i < successively_folded(evals, challenges).len() ==> (
            #[trigger] successively_folded(evals, challenges)[i]).canonical(),
        multilinear_value::<EF, EF>(successively_folded(evals, challenges), rest)
            == multilinear_value::<EF, EF>(evals, challenges + rest),
    decreases challenges.len(),
{
    if challenges.len() == 0 {
        assert(challenges + rest =~= rest);
    } else {
        let c = challenges.last();
        let shorter = challenges.drop_last();
        let longer = seq![c] + rest;
        let before = successively_folded(evals, shorter);
        let folded = successively_folded(evals, challenges);
        let scalars = seq![EF::spec_one().spec_sub(c), c];
        let size = pow2(rest.len());
        folding_one_by_one_fixes_variables(evals, shorter, longer);
        lemma_pow2_unfold(longer.len());
        assert(before.len() / 2 == size);
        assert forall|i: int| 0 <= i < folded.len() implies (#[trigger] folded[i]).canonical() by {
            sum_is_canonical(
                scalars.len(),
                |j: int|
                    scalars[j].spec_mul(<EF as Algebra<EF>>::spec_embed(before[j * size + i])),
            );
        }
        folding_by_challenge_fixes_first_variable::<EF, EF>(before, c, rest);
        assert(shorter + longer =~= challenges + rest);
    }
}

/// Folding all variables, one after another, leaves the value at the point that the
/// challenges make.
pub proof fn folding_each_variable_evaluates<EF: Ring>(evals: Seq<EF>, challenges: Seq<EF>)
    requires
        evals.len() == pow2(challenges.len()),
        forall|i: int| 0 <= i < evals.len() ==> (#[trigger] evals[i]).canonical(),
    ensures
        successively_folded(evals, challenges) == seq![
            multilinear_value::<EF, EF>(evals, challenges),
        ],
{
    let folded = successively_folded(evals, challenges);
    lemma2_to64();
    folding_one_by_one_fixes_variables(evals, challenges, Seq::empty());
    assert(challenges + Seq::empty() =~= challenges);
    assert(folded[0].canonical());
    constant_value(folded);
    assert(folded =~= seq![folded[0]]);
}

} // verus!
