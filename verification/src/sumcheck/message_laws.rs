//! How long the messages of a sumcheck are, and how its factor grows.

use vstd::arithmetic::mul::*;
use vstd::arithmetic::power2::*;
use vstd::prelude::*;

use super::computation::with_factor;
use super::hypercube::{hypercube_sum, point_at};
use super::prover::{SumcheckProver, SumcheckStatement};
use super::round::{
    are_round_selectors, domain_weights, interpolates, is_eq_polynomial, is_round_polynomial,
    next_mul_factor, round_value, tables_folded_at, RoundParameters,
};
use super::round_laws::{eq_polynomial_value, integers_differ_by_units};
use super::run::SumcheckRun;
use crate::dense::{poly_value, DensePolynomial};
use crate::dense_laws::{poly_product, value_of_poly_product};
use crate::element_laws::folding_mixes_halves;
use crate::evals::eq_weight;
use crate::exchange::{Exchange, Work};
use crate::field::{Algebra, ExtensionField, Field, Ring};
use crate::multilinear::embedded;
use crate::sums::{sum_congruent, sum_to};

verus! {

/// The polynomial of a round in a computation of degree `d`, whose domain has `2^skips` points:
/// it has `d * (2^skips - 1) + 1` coefficients, and with an equality factor
/// `(d + 1) * (2^skips - 1) + 1`. A zerocheck sends no fewer than a computation of degree one.
pub proof fn message_has_length<F: Field, NF: ExtensionField<F>, EF: Field + Algebra<F>>(
    coeffs: Seq<EF>,
    parameters: RoundParameters<'_, EF>,
    f: spec_fn(Seq<NF>) -> EF,
    tables: Seq<Seq<NF>>,
    size: nat,
    selectors: Seq<DensePolynomial<F>>,
)
    requires
        is_round_polynomial::<F, NF, EF>(coeffs, parameters, f, tables, size, selectors),
    ensures
        parameters.eq_factor is Some && (parameters.comp_degree > 0 || !parameters.is_zerocheck)
            ==> coeffs.len() == (parameters.comp_degree + 1) * (pow2(parameters.skips as nat) - 1)
            + 1,
        parameters.eq_factor is None && (parameters.comp_degree > 0 || !parameters.is_zerocheck)
            ==> coeffs.len() == parameters.comp_degree * (pow2(parameters.skips as nat) - 1) + 1,
        parameters.eq_factor is Some && parameters.comp_degree == 0 && parameters.is_zerocheck
            ==> coeffs.len() == 2 * (pow2(parameters.skips as nat) - 1) + 1,
        parameters.eq_factor is None && parameters.comp_degree == 0 && parameters.is_zerocheck
            ==> coeffs.len() == pow2(parameters.skips as nat),
{
    let d = parameters.comp_degree as int;
    let last = pow2(parameters.skips as nat) - 1;
    lemma_pow2_pos(parameters.skips as nat);
    lemma_mul_is_distributive_add_other_way(last, d, 1);
    lemma_mul_basics(last);
    lemma_mul_nonnegative(d, last);
    if d > 0 {
        lemma_mul_inequality(1, d, last);
    }
    if parameters.skips == 1 {
        lemma2_to64();
    }
    if parameters.eq_factor is Some {
        let (p, q) = choose|p: Seq<EF>, q: Seq<EF>|
            #![trigger poly_product(p, q)]
            {
                &&& interpolates::<F, EF>(
                    p,
                    |z: int|
                        round_value::<F, NF, EF>(
                            parameters,
                            f,
                            tables,
                            size,
                            selectors,
                            z,
                        ),
                    parameters.n_values() as nat,
                )
                &&& is_eq_polynomial::<F, EF>(q, parameters, selectors)
                &&& coeffs == poly_product(p, q)
            };
        assert(q.len() == last + 1);
        assert(p.len() == parameters.n_values());
    }
}

/// What the polynomial of a round is at the integers that it is taken at: a zerocheck is zero on
/// the domain, and elsewhere the polynomial is the sum over the columns folded at the integer,
/// weighted by the equality weights of the coordinates that are left, times the factor of the
/// earlier rounds and the equality factor of this one.
pub proof fn polynomial_sums_folded_columns<
    F: Field,
    NF: ExtensionField<F>,
    EF: Field + Algebra<F>,
>(
    coeffs: Seq<EF>,
    parameters: RoundParameters<'_, EF>,
    f: spec_fn(Seq<NF>) -> EF,
    tables: Seq<Seq<NF>>,
    size: nat,
    selectors: Seq<DensePolynomial<F>>,
    z: int,
)
    requires
        is_round_polynomial::<F, NF, EF>(coeffs, parameters, f, tables, size, selectors),
        are_round_selectors(selectors, parameters.skips),
        integers_differ_by_units::<F>(pow2(parameters.skips as nat) as int),
        0 <= z < parameters.n_values(),
        !parameters.is_zerocheck ==> z != pow2(parameters.skips as nat) - 1,
    ensures
        ({
            let domain = pow2(parameters.skips as nat);
            let x = <EF as Algebra<F>>::spec_embed(F::spec_from_nat(z as nat));
            let folded = tables_folded_at::<F, NF>(tables, parameters.skips, selectors, z, size);
            if parameters.is_zerocheck && z < domain {
                poly_value::<EF, EF>(coeffs, x) == EF::spec_zero()
            } else {
                match parameters.eq_factor {
                    None => poly_value::<EF, EF>(coeffs, x) == with_factor(
                        hypercube_sum(f, folded, size, None),
                        parameters.missing_mul_factor,
                    ),
                    Some(point) => {
                        let rest = point@.skip(1 + parameters.round);
                        let weights = Seq::new(pow2(rest.len()), |i: int| eq_weight(rest, i));
                        let a = domain_weights::<F, EF>(
                            parameters.skips,
                            selectors,
                            point@[parameters.round as int],
                        );
                        let b = domain_weights::<F, EF>(parameters.skips, selectors, x);
                        poly_value::<EF, EF>(coeffs, x) == with_factor(
                            hypercube_sum(f, folded, size, Some(weights)),
                            parameters.missing_mul_factor,
                        ).spec_mul(sum_to(domain, |i: int| a[i].spec_mul(b[i])))
                    },
                }
            }
        }),
{
    let x = <EF as Algebra<F>>::spec_embed(F::spec_from_nat(z as nat));
    let values = |z: int| round_value::<F, NF, EF>(parameters, f, tables, size, selectors, z);
    let n = parameters.n_values() as nat;
    if let Some(point) = parameters.eq_factor {
        let (p, q) = choose|p: Seq<EF>, q: Seq<EF>|
            #![trigger poly_product(p, q)]
            {
                &&& interpolates::<F, EF>(p, values, n)
                &&& is_eq_polynomial::<F, EF>(q, parameters, selectors)
                &&& coeffs == poly_product(p, q)
            };
        assert(poly_value::<EF, EF>(p, x) == values(z));
        lemma_pow2_pos(parameters.skips as nat);
        assert(q.len() > 0);
        value_of_poly_product(p, q, x);
        eq_polynomial_value::<F, EF>(q, parameters, selectors, x);
        let a = domain_weights::<F, EF>(
            parameters.skips,
            selectors,
            point@[parameters.round as int],
        );
        let b = domain_weights::<F, EF>(parameters.skips, selectors, x);
        sum_congruent(
            parameters.domain(),
            |i: int|
                domain_weights::<F, EF>(
                    parameters.skips,
                    selectors,
                    parameters.eq_coordinate(),
                )[i].spec_mul(domain_weights::<F, EF>(parameters.skips, selectors, x)[i]),
            |i: int| a[i].spec_mul(b[i]),
        );
        let e = poly_value::<EF, EF>(q, x);
        EF::mul_by_zero(e);
        EF::mul_is_commutative(EF::spec_zero(), e);
    } else {
        assert(poly_value::<EF, EF>(coeffs, x) == values(z));
    }
}

/// With one variable in the round, folding a column at zero takes its first half, and at another
/// integer `z` it takes `1 - z` times the first half plus `z` times the second.
pub proof fn column_folds_at_integer<F: Field, NF: ExtensionField<F>>(
    tables: Seq<Seq<NF>>,
    selectors: Seq<DensePolynomial<F>>,
    z: int,
    size: nat,
    k: int,
    i: int,
)
    requires
        0 <= z,
        0 <= k < tables.len(),
        tables[k].len() == 2 * size,
        0 <= i < size,
    ensures
        tables_folded_at::<F, NF>(tables, 1, selectors, z, size).len() == tables.len(),
        z == 0 ==> tables_folded_at::<F, NF>(tables, 1, selectors, z, size)[k][i] == tables[k][i],
        z > 0 ==> tables_folded_at::<F, NF>(tables, 1, selectors, z, size)[k][i] == <NF as Algebra<
            F,
        >>::spec_embed(F::spec_one().spec_sub(F::spec_from_nat(z as nat))).spec_mul(
            tables[k][i],
        ).spec_add(
            <NF as Algebra<F>>::spec_embed(F::spec_from_nat(z as nat)).spec_mul(
                tables[k][size + i],
            ),
        ),
{
    if z > 0 {
        let x = F::spec_from_nat(z as nat);
        let low = <NF as Algebra<F>>::spec_embed(F::spec_one().spec_sub(x));
        let high = <NF as Algebra<F>>::spec_embed(x);
        assert(embedded::<F, NF>(domain_weights::<F, F>(1, selectors, x)) =~= seq![low, high]);
        folding_mixes_halves::<NF, NF>(tables[k], low, high, size, i);
    }
}

/// With one variable in the round, the factor is multiplied by `(1 - r) * (1 - c) + r * c`, where
/// `r` is the coordinate of the point for the round and `c` the challenge. Without an equality
/// factor it stays as it is.
pub proof fn factor_grows_by_agreement<F: Field, EF: Field + Algebra<F>>(
    parameters: RoundParameters<'_, EF>,
    selectors: Seq<DensePolynomial<F>>,
    challenge: EF,
)
    requires
        parameters.skips == 1,
    ensures
        parameters.eq_factor is None ==> next_mul_factor::<F, EF>(parameters, selectors, challenge)
            == parameters.missing_mul_factor,
        parameters.eq_factor matches Some(point) ==> {
            let r = point@[parameters.round as int];
            let agreement = EF::spec_one().spec_sub(r).spec_mul(
                EF::spec_one().spec_sub(challenge),
            ).spec_add(r.spec_mul(challenge));
            &&& next_mul_factor::<F, EF>(parameters, selectors, challenge) is Some
            &&& parameters.missing_mul_factor is None ==> next_mul_factor::<F, EF>(
                parameters,
                selectors,
                challenge,
            )->0 == agreement
            &&& parameters.missing_mul_factor matches Some(factor) ==> next_mul_factor::<F, EF>(
                parameters,
                selectors,
                challenge,
            )->0 == agreement.spec_mul(factor)
        },
{
    reveal_with_fuel(sum_to, 3);
    if let Some(point) = parameters.eq_factor {
        let r = point@[parameters.round as int];
        let one = EF::spec_one();
        let a = one.spec_sub(r).spec_mul(one.spec_sub(challenge));
        let b = r.spec_mul(challenge);
        EF::results_are_canonical(one.spec_sub(r), one.spec_sub(challenge));
        EF::zero_is_neutral(a);
        EF::results_are_canonical(a, b);
        EF::one_is_neutral(a.spec_add(b));
        EF::mul_is_commutative(a.spec_add(b), one);
    }
}

/// The parameters of a round: the first one skips the variables of the statement and is a
/// zerocheck if the statement is one, every later one has one variable and takes the claim and the
/// factor that the challenges have left.
pub proof fn round_has_parameters<EF: Field>(
    statement: SumcheckStatement<'_, EF>,
    prover: SumcheckProver<EF>,
    sum: EF,
    factor: Option<EF>,
)
    requires
        prover.challenges@.len() <= usize::MAX,
    ensures
        statement.first_parameters(sum, factor).skips == statement.skips,
        statement.first_parameters(sum, factor).eq_factor == statement.eq_factor,
        statement.first_parameters(sum, factor).batching_scalars == statement.batching_scalars,
        statement.first_parameters(sum, factor).is_zerocheck == statement.is_zerofier,
        statement.first_parameters(sum, factor).comp_degree == statement.constraints_degree,
        statement.first_parameters(sum, factor).sum == sum,
        statement.first_parameters(sum, factor).round == 0,
        statement.first_parameters(sum, factor).missing_mul_factor == factor,
        prover.next_parameters(statement).skips == 1,
        prover.next_parameters(statement).eq_factor == statement.eq_factor,
        prover.next_parameters(statement).batching_scalars == statement.batching_scalars,
        !prover.next_parameters(statement).is_zerocheck,
        prover.next_parameters(statement).comp_degree == statement.constraints_degree,
        prover.next_parameters(statement).sum == prover.sum,
        prover.next_parameters(statement).round == prover.challenges@.len(),
        prover.next_parameters(statement).missing_mul_factor == prover.missing_mul_factor,
{
}

/// The work for a challenge is that of the polynomial that is sent: the degree of the constraints,
/// one more with an equality factor, times one less than the points of the domain, of which a
/// later round has two.
pub proof fn work_is_for_sent_degree<F: Field, EF: ExtensionField<F>>(
    run: SumcheckRun<F, EF>,
    statement: SumcheckStatement<'_, EF>,
    turn: Exchange<EF>,
)
    requires
        run.is_round_turn(statement, turn),
    ensures
        turn.messages@.len() == 1,
        turn.messages@[0]@ == run.round.polynomial.coeffs@,
        turn.work_before is None,
        turn.n_challenges == 1,
        turn.work_after matches Some(Work::SumcheckRound { degree }) && {
            let d = statement.constraints_degree as int;
            let last = pow2(statement.skips as nat) - 1;
            &&& run.prover is None && statement.eq_factor is None ==> degree == d * last
            &&& run.prover is None && statement.eq_factor is Some ==> degree == (d + 1) * last
            &&& run.prover is Some && statement.eq_factor is None ==> degree == d
            &&& run.prover is Some && statement.eq_factor is Some ==> degree == d + 1
        },
{
    lemma2_to64();
    lemma_pow2_pos(statement.skips as nat);
    lemma_mul_nonnegative(
        statement.constraints_degree as int,
        pow2(statement.skips as nat) - 1,
    );
    lemma_mul_nonnegative(statement.constraints_degree + 1, pow2(statement.skips as nat) - 1);
    lemma_mul_basics(statement.constraints_degree as int);
    lemma_mul_basics(statement.constraints_degree + 1);
}

/// A factor multiplies, and without one the value stays as it is.
pub proof fn factor_multiplies<EF: Ring>(value: EF, factor: EF)
    ensures
        with_factor(value, Some(factor)) == value.spec_mul(factor),
        with_factor(value, None::<EF>) == value,
{
}

/// A sum over the hypercube adds up the values at the points, one after another, each times its
/// weight where there are weights.
pub proof fn sum_adds_points_up<NF, EF: Ring>(
    f: spec_fn(Seq<NF>) -> EF,
    tables: Seq<Seq<NF>>,
    n: nat,
    weights: Option<Seq<EF>>,
    point: Seq<NF>,
)
    requires
        point.len() == tables.len(),
        forall|k: int| 0 <= k < tables.len() ==> #[trigger] point[k] == tables[k][n as int],
    ensures
        hypercube_sum(f, tables, 0, weights) == EF::spec_zero(),
        weights is None ==> hypercube_sum(f, tables, n + 1, weights) == hypercube_sum(
            f,
            tables,
            n,
            weights,
        ).spec_add(f(point)),
        weights matches Some(w) ==> hypercube_sum(f, tables, n + 1, weights) == hypercube_sum(
            f,
            tables,
            n,
            weights,
        ).spec_add(f(point).spec_mul(w[n as int])),
{
    assert(point =~= point_at(tables, n as int));
}

} // verus!
