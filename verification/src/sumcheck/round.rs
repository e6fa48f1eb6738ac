//! One round: the polynomial that the prover sends, and what the challenge makes of the
//! claim.

use vstd::arithmetic::mul::*;
use vstd::arithmetic::power2::*;
use vstd::prelude::*;
use vstd::slice::slice_subrange;

use super::claim_laws::{adds_up, claim_can_be_met, round_polynomial_adds_up};
use super::computation::with_factor;
use super::hypercube::{
    hypercube_sum, point_at, tables_of, weight_at, weights_of, HypercubeEvaluator,
};
use super::round_laws::integers_differ_by_units;
use crate::dense::{all_canonical, is_unit, nodes_of, poly_value, DensePolynomial};
use crate::dense_laws::poly_product;
use crate::evals::{eq_weight, variables_are_determined, EvaluationsList};
use crate::field::{
    inverse_is_unique, inverse_of, reduced, reduction, vanishes, Algebra, ExtensionField, Field,
    Ring,
};
use crate::multilinear::{
    all_have_variables, batch_fold_multilinear_in_large_field,
    batch_fold_multilinear_in_small_field, embedded, first_variables_folded, is_folded,
    power_of_two, scalars_fit,
};
use crate::selectors::{are_selectors, integer_nodes_differ, univariate_selectors};
use crate::sums::{sum_congruent, sum_is_canonical, sum_to};

verus! {

/// What a round starts from.
#[derive(Clone, Copy)]
pub struct RoundParameters<'a, EF> {
    /// The number of variables that the round folds: one in the classic protocol, more
    /// where variables are skipped.
    pub skips: usize,
    /// The point of the equality factor, one coordinate for each round.
    pub eq_factor: Option<&'a [EF]>,
    pub batching_scalars: &'a [EF],
    /// Whether every value on the round's domain is known to be zero.
    pub is_zerocheck: bool,
    /// The degree of the computation in each variable.
    pub comp_degree: usize,
    /// The claimed sum.
    pub sum: EF,
    pub round: usize,
    /// The value that the coordinates of the earlier rounds give the equality factor.
    pub missing_mul_factor: Option<EF>,
}

/// The weights at `x` of the values on the domain of `2^skips` integers.
pub open spec fn domain_weights<F: Ring, R: Algebra<F>>(
    skips: usize,
    selectors: Seq<DensePolynomial<F>>,
    x: R,
) -> Seq<R> {
    if skips == 1 {
        seq![R::spec_one().spec_sub(x), x]
    } else {
        Seq::new(selectors.len(), |i: int| poly_value::<F, R>(selectors[i].coeffs@, x))
    }
}

/// The values of a polynomial once its first variables are folded at the integer `z`.
pub open spec fn folded_at<F: Field, NF: ExtensionField<F>>(
    evals: Seq<NF>,
    skips: usize,
    selectors: Seq<DensePolynomial<F>>,
    z: int,
    size: nat,
) -> Seq<NF> {
    if skips == 1 && z == 0 {
        evals.take(size as int)
    } else {
        first_variables_folded::<NF, NF>(
            evals,
            embedded::<F, NF>(
                domain_weights::<F, F>(skips, selectors, F::spec_from_nat(z as nat)),
            ),
            size,
        )
    }
}

/// The values of each polynomial once its first variables are folded at the integer `z`.
pub open spec fn tables_folded_at<F: Field, NF: ExtensionField<F>>(
    tables: Seq<Seq<NF>>,
    skips: usize,
    selectors: Seq<DensePolynomial<F>>,
    z: int,
    size: nat,
) -> Seq<Seq<NF>> {
    Seq::new(
        tables.len(),
        |k: int| folded_at::<F, NF>(tables[k], skips, selectors, z, size),
    )
}

impl<'a, EF: Field> RoundParameters<'a, EF> {
    /// The number of integers on the domain of the round.
    pub open spec fn domain(self) -> nat {
        pow2(self.skips as nat)
    }

    /// The degree of the round's polynomial, the equality factor apart.
    pub open spec fn degree(self) -> int {
        self.comp_degree * (self.domain() - 1)
    }

    /// The number of values that the round's polynomial is interpolated from.
    pub open spec fn n_values(self) -> int {
        if self.is_zerocheck && self.domain() > self.degree() + 1 {
            self.domain() as int
        } else {
            self.degree() + 1
        }
    }

    /// Whether there is a value at the last integer of the domain: a computation of degree zero
    /// has a value at zero only.
    pub open spec fn reaches_domain_end(self) -> bool {
        self.comp_degree > 0 || self.skips == 0
    }

    /// The coordinate of the equality factor that belongs to the round.
    pub open spec fn eq_coordinate(self) -> EF {
        self.eq_factor->0@[self.round as int]
    }

    /// The weights of the hypercube that is left once the round is over.
    pub open spec fn eq_weights(self) -> Option<Seq<EF>> {
        match self.eq_factor {
            Some(eq_factor) => {
                let rest = eq_factor@.skip(1 + self.round);
                Some(Seq::new(pow2(rest.len()), |i: int| eq_weight(rest, i)))
            },
            None => None,
        }
    }
}

/// The value at the integer `z`, summed over the hypercube that is left. It is zero on the
/// domain of a round whose values there are known to be zero.
pub open spec fn summed_value<F: Field, NF: ExtensionField<F>, EF: Field>(
    parameters: RoundParameters<'_, EF>,
    f: spec_fn(Seq<NF>) -> EF,
    tables: Seq<Seq<NF>>,
    size: nat,
    selectors: Seq<DensePolynomial<F>>,
    z: int,
) -> EF {
    if parameters.is_zerocheck && z < parameters.domain() {
        EF::spec_zero()
    } else {
        with_factor(
            hypercube_sum(
                f,
                tables_folded_at::<F, NF>(tables, parameters.skips, selectors, z, size),
                size,
                parameters.eq_weights(),
            ),
            parameters.missing_mul_factor,
        )
    }
}

/// The value at the last integer of the domain that makes the values on the domain,
/// weighted by the equality factor where there is one, add up to the claimed sum.
pub open spec fn claimed_value<F: Ring, EF: Field + Algebra<F>>(
    parameters: RoundParameters<'_, EF>,
    selectors: Seq<DensePolynomial<F>>,
    values: spec_fn(int) -> EF,
) -> EF {
    let last = (parameters.domain() - 1) as nat;
    match parameters.eq_factor {
        Some(_) => {
            let weights = domain_weights::<F, EF>(
                parameters.skips,
                selectors,
                parameters.eq_coordinate(),
            );
            parameters.sum.spec_sub(
                sum_to(last, |i: int| values(i).spec_mul(weights[i])),
            ).spec_mul(inverse_of(weights[last as int]))
        },
        None => parameters.sum.spec_sub(sum_to(last, values)),
    }
}

/// The value that the round's polynomial, the equality factor apart, takes at the
/// integer `z`.
pub open spec fn round_value<F: Field, NF: ExtensionField<F>, EF: Field + Algebra<F>>(
    parameters: RoundParameters<'_, EF>,
    f: spec_fn(Seq<NF>) -> EF,
    tables: Seq<Seq<NF>>,
    size: nat,
    selectors: Seq<DensePolynomial<F>>,
    z: int,
) -> EF {
    if !parameters.is_zerocheck && z == parameters.domain() - 1 {
        claimed_value::<F, EF>(
            parameters,
            selectors,
            |i: int| summed_value::<F, NF, EF>(parameters, f, tables, size, selectors, i),
        )
    } else {
        summed_value::<F, NF, EF>(parameters, f, tables, size, selectors, z)
    }
}

/// Whether `coeffs` are the `n` reduced coefficients of a polynomial that takes the given
/// values at the integers below `n`.
pub open spec fn interpolates<F: Field, EF: Field + Algebra<F>>(
    coeffs: Seq<EF>,
    values: spec_fn(int) -> EF,
    n: nat,
) -> bool {
    &&& coeffs.len() == n
    &&& all_canonical(coeffs)
    &&& forall|z: int|
        0 <= z < n ==> poly_value::<EF, EF>(
            coeffs,
            <EF as Algebra<F>>::spec_embed(#[trigger] F::spec_from_nat(z as nat)),
        ) == values(z)
}

/// Whether `coeffs` are the coefficients of the equality factor in the round's variable:
/// at each integer of the domain it is the weight of that integer at the round's
/// coordinate.
pub open spec fn is_eq_polynomial<F: Field, EF: Field + Algebra<F>>(
    coeffs: Seq<EF>,
    parameters: RoundParameters<'_, EF>,
    selectors: Seq<DensePolynomial<F>>,
) -> bool {
    let r = parameters.eq_coordinate();
    if parameters.skips == 1 {
        coeffs == seq![
            EF::spec_one().spec_sub(r),
            EF::spec_from_nat(2).spec_mul(r).spec_sub(EF::spec_one()),
        ]
    } else {
        interpolates::<F, EF>(
            coeffs,
            |i: int| reduced(domain_weights::<F, EF>(parameters.skips, selectors, r)[i]),
            parameters.domain(),
        )
    }
}

/// Whether `coeffs` are the coefficients that the round sends: those of the polynomial
/// through the round's values, multiplied by the equality factor where there is one.
pub open spec fn is_round_polynomial<F: Field, NF: ExtensionField<F>, EF: Field + Algebra<F>>(
    coeffs: Seq<EF>,
    parameters: RoundParameters<'_, EF>,
    f: spec_fn(Seq<NF>) -> EF,
    tables: Seq<Seq<NF>>,
    size: nat,
    selectors: Seq<DensePolynomial<F>>,
) -> bool {
    let values = |z: int|
        round_value::<F, NF, EF>(parameters, f, tables, size, selectors, z);
    let n = parameters.n_values() as nat;
    match parameters.eq_factor {
        None => interpolates::<F, EF>(coeffs, values, n),
        Some(_) => exists|p: Seq<EF>, q: Seq<EF>|
            #![trigger poly_product(p, q)]
            {
                &&& interpolates::<F, EF>(p, values, n)
                &&& is_eq_polynomial::<F, EF>(q, parameters, selectors)
                &&& coeffs == poly_product(p, q)
            },
    }
}

/// A round of which the polynomial is known and the challenge is not.
#[derive(Debug, Clone)]
pub struct SumcheckRound<F, EF> {
    /// The selectors of the domain, unless a single variable is folded.
    pub selectors: Vec<DensePolynomial<F>>,
    /// What the prover sends.
    pub polynomial: DensePolynomial<EF>,
}

/// What a round leaves once the challenge is known.
#[derive(Debug, Clone)]
pub struct RoundOutcome<EF> {
    pub folded: Vec<EvaluationsList<EF>>,
    pub sum: EF,
    pub missing_mul_factor: Option<EF>,
}

/// The selectors that a round needs: none where a single variable is folded.
pub open spec fn are_round_selectors<F: Field>(
    selectors: Seq<DensePolynomial<F>>,
    skips: usize,
) -> bool {
    if skips == 1 {
        selectors.len() == 0
    } else {
        are_selectors(selectors, pow2(skips as nat))
    }
}

/// The weights at `x` of the values on the domain.
fn weights_at<F: Field, R: ExtensionField<F>>(
    skips: usize,
    selectors: &Vec<DensePolynomial<F>>,
    x: R,
) -> (r: Vec<R>)
    ensures
        r@ == domain_weights::<F, R>(skips, selectors@, x),
{
    let mut weights: Vec<R> = Vec::new();
    if skips == 1 {
        weights.push(R::one().minus(x));
        weights.push(x);
        assert(weights@ =~= domain_weights::<F, R>(skips, selectors@, x));
    } else {
        let mut i: usize = 0;
        while i < selectors.len()
            invariant
                i <= selectors@.len(),
                skips != 1,
                weights@ == domain_weights::<F, R>(skips, selectors@, x).take(i as int),
            decreases selectors@.len() - i,
        {
            weights.push(selectors[i].evaluate::<R>(x));
            i += 1;
            assert(weights@ =~= domain_weights::<F, R>(skips, selectors@, x).take(i as int));
        }
        assert(weights@ =~= domain_weights::<F, R>(skips, selectors@, x));
    }
    weights
}

/// The number of weights is the number of integers on the domain.
pub proof fn domain_weights_count<F: Field, R: Algebra<F>>(
    skips: usize,
    selectors: Seq<DensePolynomial<F>>,
    x: R,
)
    requires
        are_round_selectors(selectors, skips),
    ensures
        domain_weights::<F, R>(skips, selectors, x).len() == pow2(skips as nat),
{
    lemma2_to64();
}

/// The polynomials folded at the integer `z`.
fn fold_at<F: Field, NF: ExtensionField<F>>(
    multilinears: &[&EvaluationsList<NF>],
    skips: usize,
    selectors: &Vec<DensePolynomial<F>>,
    z: usize,
    Ghost(n_vars): Ghost<nat>,
) -> (r: Vec<EvaluationsList<NF>>)
    requires
        skips <= n_vars,
        are_round_selectors(selectors@, skips),
        forall|k: int|
            0 <= k < multilinears@.len() ==> (#[trigger] multilinears@[k]).well_formed()
                && multilinears@[k].variables() == n_vars,
    ensures
        all_have_variables(r@, (n_vars - skips) as nat),
        tables_of(r@) == tables_folded_at::<F, NF>(
            Seq::new(multilinears@.len(), |k: int| multilinears@[k]@),
            skips,
            selectors@,
            z as int,
            pow2((n_vars - skips) as nat),
        ),
{
    let ghost size = pow2((n_vars - skips) as nat);
    let ghost left = (n_vars - skips) as nat;
    let ghost tables = Seq::new(multilinears@.len(), |k: int| multilinears@[k]@);
    let ghost expected = tables_folded_at::<F, NF>(tables, skips, selectors@, z as int, size);
    proof {
        lemma_pow2_adds(left, skips as nat);
        lemma_pow2_pos(skips as nat);
        lemma_pow2_pos(left);
    }
    if skips == 1 && z == 0 {
        let mut halves: Vec<EvaluationsList<NF>> = Vec::with_capacity(multilinears.len());
        let mut k: usize = 0;
        proof {
            lemma_pow2_unfold(n_vars);
        }
        while k < multilinears.len()
            invariant
                k <= multilinears@.len(),
                skips == 1,
                z == 0,
                size == pow2(left),
                left == n_vars - 1,
                pow2(n_vars) == 2 * size,
                forall|k: int|
                    0 <= k < multilinears@.len() ==> (#[trigger] multilinears@[k]).well_formed()
                        && multilinears@[k].variables() == n_vars,
                tables == Seq::new(multilinears@.len(), |k: int| multilinears@[k]@),
                expected == tables_folded_at::<F, NF>(tables, skips, selectors@, z as int, size),
                all_have_variables(halves@, left),
                tables_of(halves@) == expected.take(k as int),
                halves@.len() == k,
            decreases multilinears@.len() - k,
        {
            let poly = multilinears[k];
            assert(multilinears@[k as int].well_formed());
            let evals = poly.evals();
            let half: usize = evals.len() / 2;
            let mut first: Vec<NF> = Vec::with_capacity(half);
            let mut i: usize = 0;
            while i < half
                invariant
                    i <= half <= evals@.len(),
                    first@ == evals@.take(i as int),
                decreases half - i,
            {
                first.push(evals[i]);
                i += 1;
                assert(first@ =~= evals@.take(i as int));
            }
            assert(first@.len() == pow2(left));
            let list = EvaluationsList::new(first);
            proof {
                variables_are_determined(list.variables(), left);
                assert(list@ == expected[k as int]);
            }
            halves.push(list);
            k += 1;
            assert(tables_of(halves@) =~= expected.take(k as int));
        }
        assert(tables_of(halves@) =~= expected);
        halves
    } else {
        let x = F::from_usize(z);
        let weights: Vec<F> = weights_at::<F, F>(skips, selectors, x);
        proof {
            domain_weights_count::<F, F>(skips, selectors@, x);
            assert forall|p: int| 0 <= p < multilinears@.len() implies (
            #[trigger] multilinears@[p]).well_formed() && scalars_fit(
                weights@.len(),
                *multilinears@[p],
            ) by {
                assert(weights@.len() == pow2(skips as nat));
            }
        }
        let folded = batch_fold_multilinear_in_small_field::<F, NF>(multilinears, &weights);
        proof {
            assert forall|k: int| 0 <= k < folded@.len() implies (
            #[trigger] folded@[k]).well_formed() && folded@[k].variables() == left && folded@[k]@
                == expected[k] by {
                assert(multilinears@[k].well_formed());
                assert(embedded::<F, NF>(weights@).len() == pow2(skips as nat));
                folded_has_size::<NF, NF>(
                    folded@[k],
                    *multilinears@[k],
                    embedded::<F, NF>(weights@),
                    left,
                    skips as nat,
                );
            }
            assert(tables_of(folded@) =~= expected);
        }
        folded
    }
}

/// Folding `2^k` blocks of `2^(k + left)` values leaves `2^left` of them.
proof fn folded_has_size<F: Ring, EF: Algebra<F>>(
    folded: EvaluationsList<EF>,
    poly: EvaluationsList<F>,
    scalars: Seq<EF>,
    left: nat,
    k: nat,
)
    requires
        is_folded::<F, EF>(folded, poly, scalars),
        poly.well_formed(),
        poly.variables() == left + k,
        scalars.len() == pow2(k),
    ensures
        folded.variables() == left,
        folded@.len() == pow2(left),
{
    lemma_pow2_adds(left, k);
    lemma_pow2_pos(k);
    lemma_mul_equality_converse(pow2(k) as int, folded@.len() as int, pow2(left) as int);
    lemma_mul_is_commutative(pow2(k) as int, folded@.len() as int);
    lemma_mul_is_commutative(pow2(k) as int, pow2(left) as int);
    variables_are_determined(folded.variables(), left);
}

/// The values of the given polynomials.
pub open spec fn tables_behind<F>(multilinears: Seq<&EvaluationsList<F>>) -> Seq<Seq<F>> {
    Seq::new(multilinears.len(), |k: int| multilinears[k]@)
}

/// References to the polynomials.
pub(crate) fn references_to<T>(pols: &Vec<EvaluationsList<T>>) -> (r: Vec<&EvaluationsList<T>>)
    ensures
        r@.len() == pols@.len(),
        forall|k: int| 0 <= k < r@.len() ==> *(#[trigger] r@[k]) == pols@[k],
        tables_behind(r@) == tables_of(pols@),
        forall|n: nat| #[trigger]
            all_have_variables(pols@, n) ==> forall|k: int|
                0 <= k < r@.len() ==> (#[trigger] r@[k]).well_formed() && r@[k].variables() == n,
{
    let mut references: Vec<&EvaluationsList<T>> = Vec::with_capacity(pols.len());
    let mut k: usize = 0;
    while k < pols.len()
        invariant
            k <= pols@.len(),
            references@.len() == k,
            forall|j: int| 0 <= j < k ==> *(#[trigger] references@[j]) == pols@[j],
        decreases pols@.len() - k,
    {
        references.push(&pols[k]);
        k += 1;
    }
    proof {
        assert(tables_behind(references@) =~= tables_of(pols@));
        assert forall|n: nat| #[trigger] all_have_variables(pols@, n) implies forall|k: int|
            0 <= k < references@.len() ==> (#[trigger] references@[k]).well_formed()
                && references@[k].variables() == n by {
            assert forall|k: int| 0 <= k < references@.len() implies (
            #[trigger] references@[k]).well_formed() && references@[k].variables() == n by {
                assert(pols@[k].well_formed());
            }
        }
    }
    references
}

/// Whether a round can run on polynomials in `n_vars` variables: it folds no more variables than
/// there are, the integers that it computes with are different elements of `F`, and the
/// equality factor has a coordinate for each variable left.
pub open spec fn round_fits<F: Field, EF: Field>(
    parameters: RoundParameters<'_, EF>,
    n_vars: nat,
) -> bool {
    &&& parameters.skips <= n_vars
    &&& parameters.domain() <= F::characteristic()
    &&& parameters.n_values() <= F::characteristic()
    &&& parameters.n_values() + parameters.domain() <= usize::MAX
    &&& parameters.eq_factor matches Some(eq_factor) ==> {
        &&& parameters.round + 1 + (n_vars - parameters.skips) <= eq_factor@.len()
        &&& pow2((eq_factor@.len() - 1 - parameters.round) as nat) <= usize::MAX
    }
}

/// Whether the last value on the domain can be had from the claimed sum: its weight in
/// the sum is not zero.
pub open spec fn claim_is_solvable<F: Field, EF: Field + Algebra<F>>(
    parameters: RoundParameters<'_, EF>,
) -> bool {
    parameters.eq_factor is Some && !parameters.is_zerocheck && parameters.reaches_domain_end()
        ==> forall|selectors: Seq<DensePolynomial<F>>| #[trigger]
        are_round_selectors(selectors, parameters.skips) ==> !vanishes(
            domain_weights::<F, EF>(
                parameters.skips,
                selectors,
                parameters.eq_coordinate(),
            )[parameters.domain() - 1],
        )
}

/// Whether a sum like the claimed one is possible at all: values that are known to be zero
/// add up to zero, and a computation of degree zero does not depend on the variables that are
/// folded.
pub open spec fn sum_is_plausible<EF: Field>(parameters: RoundParameters<'_, EF>) -> bool {
    if parameters.is_zerocheck {
        reduced(parameters.sum) == EF::spec_zero()
    } else {
        parameters.reaches_domain_end()
    }
}

/// The value at the last integer of the domain, from the claimed sum and the values
/// before it.
fn claimed_last_value<F: Field, EF: ExtensionField<F>>(
    parameters: &RoundParameters<'_, EF>,
    selectors: &Vec<DensePolynomial<F>>,
    values: &Vec<(F, EF)>,
    Ghost(before): Ghost<spec_fn(int) -> EF>,
) -> (r: EF)
    requires
        are_round_selectors(selectors@, parameters.skips),
        values@.len() == parameters.domain() - 1,
        forall|i: int| 0 <= i < values@.len() ==> (#[trigger] values@[i]).1 == before(i),
        parameters.eq_factor matches Some(eq_factor) ==> {
            &&& parameters.round < eq_factor@.len()
            &&& !vanishes(
                domain_weights::<F, EF>(
                    parameters.skips,
                    selectors@,
                    parameters.eq_coordinate(),
                )[parameters.domain() - 1],
            )
        },
    ensures
        r == claimed_value::<F, EF>(*parameters, selectors@, before),
        parameters.eq_factor is Some ==> is_unit(
            domain_weights::<F, EF>(
                parameters.skips,
                selectors@,
                parameters.eq_coordinate(),
            )[parameters.domain() - 1],
        ),
{
    let last: usize = values.len();
    match parameters.eq_factor {
        Some(eq_factor) => {
            let r = eq_factor[parameters.round];
            let weights: Vec<EF> = weights_at::<F, EF>(parameters.skips, selectors, r);
            proof {
                domain_weights_count::<F, EF>(parameters.skips, selectors@, r);
            }
            let ghost term = |i: int| before(i).spec_mul(weights@[i]);
            let mut sum = EF::zero();
            let mut i: usize = 0;
            while i < last
                invariant
                    i <= last,
                    last == values@.len(),
                    weights@.len() == last + 1,
                    forall|i: int|
                        0 <= i < values@.len() ==> (#[trigger] values@[i]).1 == before(i),
                    term == |i: int| before(i).spec_mul(weights@[i]),
                    sum == sum_to(i as nat, term),
                decreases last - i,
            {
                assert(values@[i as int].1 == before(i as int));
                sum = sum.plus(values[i].1.times(weights[i]));
                i += 1;
            }
            let difference = parameters.sum.minus(sum);
            match weights[last].try_inverse() {
                Some(inverse) => {
                    proof {
                        inverse_is_unique(weights@[last as int], inverse);
                        let w = domain_weights::<F, EF>(parameters.skips, selectors@, r);
                        assert(w == weights@);
                        sum_congruent(last as nat, term, |i: int| before(i).spec_mul(w[i]));
                    }
                    difference.times(inverse)
                },
                None => {
                    assert(false);
                    difference
                },
            }
        },
        None => {
            let mut sum = EF::zero();
            let mut i: usize = 0;
            while i < last
                invariant
                    i <= last,
                    last == values@.len(),
                    forall|i: int|
                        0 <= i < values@.len() ==> (#[trigger] values@[i]).1 == before(i),
                    sum == sum_to(i as nat, before),
                decreases last - i,
            {
                assert(values@[i as int].1 == before(i as int));
                sum = sum.plus(values[i].1);
                i += 1;
            }
            parameters.sum.minus(sum)
        },
    }
}

/// The polynomial through values at the integers from zero on.
fn interpolate_at_integers<F: Field, EF: ExtensionField<F>>(
    values: &Vec<(F, EF)>,
    Ghost(f): Ghost<spec_fn(int) -> EF>,
) -> (r: DensePolynomial<EF>)
    requires
        values@.len() <= F::characteristic(),
        forall|i: int|
            0 <= i < values@.len() ==> (#[trigger] values@[i]).0 == F::spec_from_nat(i as nat)
                && reduced(values@[i].1) == f(i),
    ensures
        interpolates::<F, EF>(r.coeffs@, f, values@.len()),
        integers_differ_by_units::<F>(values@.len() as int),
{
    proof {
        integer_nodes_differ(nodes_of(values@));
    }
    match DensePolynomial::lagrange_interpolation::<F>(values) {
        Some(p) => {
            proof {
                assert forall|z: int| 0 <= z < values@.len() implies poly_value::<EF, EF>(
                    p.coeffs@,
                    <EF as Algebra<F>>::spec_embed(#[trigger] F::spec_from_nat(z as nat)),
                ) == f(z) by {
                    assert(values@[z].0 == F::spec_from_nat(z as nat));
                }
                assert forall|i: int, j: int|
                    #![trigger F::spec_from_nat(i as nat), F::spec_from_nat(j as nat)]
                    0 <= i < values@.len() && 0 <= j < values@.len() && i != j implies is_unit(
                    F::spec_from_nat(i as nat).spec_sub(F::spec_from_nat(j as nat)),
                ) by {
                    assert(values@[i].0 == F::spec_from_nat(i as nat));
                    assert(values@[j].0 == F::spec_from_nat(j as nat));
                }
            }
            p
        },
        None => {
            assert(false);
            DensePolynomial { coeffs: Vec::new() }
        },
    }
}

/// The coefficients of the equality factor in the round's variable.
fn eq_polynomial<F: Field, EF: ExtensionField<F>>(
    parameters: &RoundParameters<'_, EF>,
    selectors: &Vec<DensePolynomial<F>>,
) -> (r: DensePolynomial<EF>)
    requires
        are_round_selectors(selectors@, parameters.skips),
        parameters.domain() <= F::characteristic(),
        parameters.domain() <= usize::MAX,
        parameters.eq_factor is Some,
        parameters.round < parameters.eq_factor->0@.len(),
    ensures
        is_eq_polynomial::<F, EF>(r.coeffs@, *parameters, selectors@),
        r.coeffs@.len() == parameters.domain(),
{
    let r = match parameters.eq_factor {
        Some(eq_factor) => eq_factor[parameters.round],
        None => EF::zero(),
    };
    proof {
        lemma2_to64();
        domain_weights_count::<F, EF>(parameters.skips, selectors@, r);
    }
    if parameters.skips == 1 {
        let mut coeffs: Vec<EF> = Vec::with_capacity(2);
        coeffs.push(EF::one().minus(r));
        coeffs.push(EF::from_usize(2).times(r).minus(EF::one()));
        assert(coeffs@ =~= seq![
            EF::spec_one().spec_sub(r),
            EF::spec_from_nat(2).spec_mul(r).spec_sub(EF::spec_one()),
        ]);
        DensePolynomial::from_coefficients_vec(coeffs)
    } else {
        let weights: Vec<EF> = weights_at::<F, EF>(parameters.skips, selectors, r);
        let mut values: Vec<(F, EF)> = Vec::with_capacity(weights.len());
        let mut i: usize = 0;
        while i < weights.len()
            invariant
                i <= weights@.len(),
                values@.len() == i,
                forall|j: int|
                    0 <= j < i ==> #[trigger] values@[j] == (
                        F::spec_from_nat(j as nat),
                        weights@[j],
                    ),
            decreases weights@.len() - i,
        {
            values.push((F::from_usize(i), weights[i]));
            i += 1;
        }
        interpolate_at_integers::<F, EF>(
            &values,
            Ghost(|i: int| reduced(domain_weights::<F, EF>(parameters.skips, selectors@, r)[i])),
        )
    }
}

/// Starts a round: computes the polynomial that the prover sends.
#[must_use]
pub fn sc_round<
    F: Field,
    NF: ExtensionField<F>,
    EF: ExtensionField<NF> + ExtensionField<F>,
    E: HypercubeEvaluator<NF, EF>,
>(
    parameters: &RoundParameters<'_, EF>,
    multilinears: &[&EvaluationsList<NF>],
    evaluator: &E,
) -> (r: SumcheckRound<F, EF>)
    requires
        multilinears@.len() > 0,
        forall|k: int|
            0 <= k < multilinears@.len() ==> (#[trigger] multilinears@[k]).well_formed()
                && multilinears@[k].variables() == multilinears@[0].variables(),
        round_fits::<F, EF>(*parameters, multilinears@[0].variables()),
        claim_is_solvable::<F, EF>(*parameters),
        evaluator.accepts(
            multilinears@.len(),
            (multilinears@[0].variables() - parameters.skips) as nat,
            parameters.batching_scalars@.len(),
        ),
    ensures
        are_round_selectors(r.selectors@, parameters.skips),
        is_round_polynomial::<F, NF, EF>(
            r.polynomial.coeffs@,
            *parameters,
            |point: Seq<NF>| evaluator.point_value(point, parameters.batching_scalars@),
            tables_behind(multilinears@),
            pow2((multilinears@[0].variables() - parameters.skips) as nat),
            r.selectors@,
        ),
        integers_differ_by_units::<F>(parameters.n_values()),
        sum_is_plausible(*parameters) ==> {
            &&& claim_can_be_met::<F, EF>(*parameters, r.selectors@)
            &&& adds_up::<F, EF>(r.polynomial.coeffs@, *parameters)
        },
{
    let ghost n_vars = multilinears@[0].variables();
    let ghost left = (n_vars - parameters.skips) as nat;
    let ghost size = pow2(left);
    let ghost tables = tables_behind(multilinears@);
    let ghost f = |point: Seq<NF>| evaluator.point_value(point, parameters.batching_scalars@);
    proof {
        lemma_pow2_pos(parameters.skips as nat);
    }
    let eq_mle = match parameters.eq_factor {
        Some(eq_factor) => {
            let n: usize = eq_factor.len();
            let rest = slice_subrange(eq_factor, parameters.round + 1, n);
            assert(rest@ =~= eq_factor@.skip(1 + parameters.round));
            Some(EvaluationsList::eval_eq(rest))
        },
        None => None,
    };
    proof {
        if eq_mle is Some {
            assert(eq_mle->0@ =~= parameters.eq_weights()->0);
            let rest = parameters.eq_factor->0@.skip(1 + parameters.round);
            if left < rest.len() {
                lemma_pow2_strictly_increases(left, rest.len());
            }
        }
    }
    let selectors: Vec<DensePolynomial<F>> = if parameters.skips != 1 {
        univariate_selectors::<F>(parameters.skips)
    } else {
        Vec::new()
    };
    let ghost summed = |z: int|
        summed_value::<F, NF, EF>(*parameters, f, tables, size, selectors@, z);
    let ghost expected = |z: int|
        round_value::<F, NF, EF>(*parameters, f, tables, size, selectors@, z);
    let domain: usize = power_of_two(parameters.skips, Ghost(1));
    proof {
        lemma_mul_inequality(0, parameters.comp_degree as int, domain - 1);
    }
    let degree: usize = parameters.comp_degree * (domain - 1);
    let mut values: Vec<(F, EF)> = Vec::with_capacity(degree + 1);
    if parameters.is_zerocheck {
        let mut i: usize = 0;
        while i < domain
            invariant
                i <= domain,
                domain == parameters.domain(),
                parameters.is_zerocheck,
                expected == |z: int|
                    round_value::<F, NF, EF>(*parameters, f, tables, size, selectors@, z),
                values@.len() == i,
                forall|j: int|
                    0 <= j < values@.len() ==> (#[trigger] values@[j]).0 == F::spec_from_nat(
                        j as nat,
                    ) && values@[j].1 == expected(j),
            decreases domain - i,
        {
            values.push((F::from_usize(i), EF::zero()));
            i += 1;
        }
    }
    while values.len() <= degree
        invariant
            n_vars == multilinears@[0].variables(),
            left == n_vars - parameters.skips,
            size == pow2(left),
            domain == parameters.domain(),
            degree == parameters.degree(),
            domain >= 1,
            tables == tables_behind(multilinears@),
            f == |point: Seq<NF>| evaluator.point_value(point, parameters.batching_scalars@),
            multilinears@.len() > 0,
            forall|k: int|
                0 <= k < multilinears@.len() ==> (#[trigger] multilinears@[k]).well_formed()
                    && multilinears@[k].variables() == n_vars,
            round_fits::<F, EF>(*parameters, n_vars),
            claim_is_solvable::<F, EF>(*parameters),
            evaluator.accepts(
                multilinears@.len(),
                left,
                parameters.batching_scalars@.len(),
            ),
            are_round_selectors(selectors@, parameters.skips),
            parameters.is_zerocheck ==> values@.len() >= domain,
            parameters.eq_factor is Some <==> eq_mle is Some,
            eq_mle matches Some(eq_mle) ==> eq_mle@ == parameters.eq_weights()->0
                && eq_mle@.len() >= size,
            summed == |z: int|
                summed_value::<F, NF, EF>(*parameters, f, tables, size, selectors@, z),
            expected == |z: int|
                round_value::<F, NF, EF>(*parameters, f, tables, size, selectors@, z),
            values@.len() <= parameters.n_values(),
            forall|j: int|
                0 <= j < values@.len() ==> (#[trigger] values@[j]).0 == F::spec_from_nat(j as nat)
                    && values@[j].1 == expected(j),
            !parameters.is_zerocheck && parameters.eq_factor is Some && values@.len() >= domain
                ==> is_unit(
                domain_weights::<F, EF>(
                    parameters.skips,
                    selectors@,
                    parameters.eq_coordinate(),
                )[domain - 1],
            ),
        decreases degree + 1 - values@.len(),
    {
        let z: usize = values.len();
        let value = if z == domain - 1 {
            proof {
                if parameters.comp_degree == 0 && parameters.skips > 0 {
                    lemma_mul_basics(domain - 1);
                    lemma2_to64();
                    lemma_pow2_strictly_increases(0, parameters.skips as nat);
                }
                assert forall|i: int| 0 <= i < values@.len() implies (#[trigger] values@[i]).1
                    == summed(i) by {}
            }
            claimed_last_value::<F, EF>(parameters, &selectors, &values, Ghost(summed))
        } else {
            let folded = fold_at::<F, NF>(
                multilinears,
                parameters.skips,
                &selectors,
                z,
                Ghost(n_vars),
            );
            proof {
                assert(Seq::new(multilinears@.len(), |k: int| multilinears@[k]@) =~= tables);
                assert(tables_of(folded@).len() == multilinears@.len());
                assert(folded@[0].well_formed());
            }
            let weights = match &eq_mle {
                Some(eq_mle) => Some(eq_mle),
                None => None,
            };
            assert(weights_of(weights) == parameters.eq_weights());
            let sum = evaluator.compute(folded.as_slice(), parameters.batching_scalars, weights);
            match parameters.missing_mul_factor {
                Some(factor) => sum.times(factor),
                None => sum,
            }
        };
        values.push((F::from_usize(z), value));
    }
    proof {
        assert forall|i: int| 0 <= i < values@.len() implies (#[trigger] values@[i]).0
            == F::spec_from_nat(i as nat) && reduced(values@[i].1) == expected(i) by {
            round_value_is_canonical::<F, NF, EF>(*parameters, f, tables, size, selectors@, i);
            reduction(values@[i].1);
        }
        assert(values@.len() == parameters.n_values());
    }
    let p = interpolate_at_integers::<F, EF>(&values, Ghost(expected));
    let polynomial = match parameters.eq_factor {
        Some(_) => {
            let q = eq_polynomial::<F, EF>(parameters, &selectors);
            p.multiply(&q)
        },
        None => p,
    };
    proof {
        if sum_is_plausible(*parameters) {
            if !parameters.is_zerocheck {
                lemma2_to64();
                lemma_mul_basics(domain - 1);
                if parameters.comp_degree > 0 {
                    lemma_mul_inequality(1, parameters.comp_degree as int, domain - 1);
                }
            }
            round_polynomial_adds_up::<F, NF, EF>(
                polynomial.coeffs@,
                *parameters,
                f,
                tables,
                size,
                selectors@,
            );
        }
    }
    SumcheckRound { selectors, polynomial }
}

/// A summed value is a reduced element.
pub proof fn summed_value_is_canonical<F: Field, NF: ExtensionField<F>, EF: Field>(
    parameters: RoundParameters<'_, EF>,
    f: spec_fn(Seq<NF>) -> EF,
    tables: Seq<Seq<NF>>,
    size: nat,
    selectors: Seq<DensePolynomial<F>>,
    z: int,
)
    ensures
        summed_value::<F, NF, EF>(parameters, f, tables, size, selectors, z).canonical(),
{
    EF::results_are_canonical(EF::spec_zero(), EF::spec_zero());
    let folded = tables_folded_at::<F, NF>(tables, parameters.skips, selectors, z, size);
    let weights = parameters.eq_weights();
    let sum = hypercube_sum(f, folded, size, weights);
    sum_is_canonical(
        size,
        |x: int| with_factor(f(point_at(folded, x)), weight_at(weights, x)),
    );
    if let Some(factor) = parameters.missing_mul_factor {
        EF::results_are_canonical(sum, factor);
    }
}

/// A round's values are reduced elements.
pub proof fn round_value_is_canonical<F: Field, NF: ExtensionField<F>, EF: Field + Algebra<F>>(
    parameters: RoundParameters<'_, EF>,
    f: spec_fn(Seq<NF>) -> EF,
    tables: Seq<Seq<NF>>,
    size: nat,
    selectors: Seq<DensePolynomial<F>>,
    z: int,
)
    ensures
        round_value::<F, NF, EF>(parameters, f, tables, size, selectors, z).canonical(),
{
    summed_value_is_canonical::<F, NF, EF>(parameters, f, tables, size, selectors, z);
    let last = (parameters.domain() - 1) as nat;
    let summed = |i: int| summed_value::<F, NF, EF>(parameters, f, tables, size, selectors, i);
    let w = domain_weights::<F, EF>(parameters.skips, selectors, parameters.eq_coordinate());
    let weighted = sum_to(last, |i: int| summed(i).spec_mul(w[i]));
    EF::results_are_canonical(parameters.sum, sum_to(last, summed));
    EF::results_are_canonical(parameters.sum.spec_sub(weighted), inverse_of(w[last as int]));
}

impl<'a, EF: Field> RoundParameters<'a, EF> {
    /// The degree of the polynomial that the round sends, which decides how much work the
    /// challenge must cost.
    #[must_use]
    pub fn sent_degree(&self) -> (r: usize)
        requires
            self.degree() + self.domain() <= usize::MAX,
        ensures
            r == (self.comp_degree + if self.eq_factor is Some {
                1int
            } else {
                0
            }) * (self.domain() - 1),
    {
        proof {
            lemma_pow2_pos(self.skips as nat);
            lemma_mul_inequality(0, self.comp_degree as int, self.domain() - 1);
            lemma_mul_is_distributive_add_other_way(
                self.domain() - 1,
                self.comp_degree as int,
                1,
            );
            lemma_mul_basics(self.domain() - 1);
        }
        let domain: usize = power_of_two(self.skips, Ghost(1));
        let degree: usize = self.comp_degree * (domain - 1);
        match self.eq_factor {
            Some(_) => degree + (domain - 1),
            None => degree,
        }
    }
}

/// The value that the coordinates up to the round give the equality factor, once the
/// challenge is known.
pub open spec fn next_mul_factor<F: Ring, EF: Field + Algebra<F>>(
    parameters: RoundParameters<'_, EF>,
    selectors: Seq<DensePolynomial<F>>,
    challenge: EF,
) -> Option<EF> {
    match parameters.eq_factor {
        Some(_) => {
            let at_coordinate = domain_weights::<F, EF>(
                parameters.skips,
                selectors,
                parameters.eq_coordinate(),
            );
            let at_challenge = domain_weights::<F, EF>(parameters.skips, selectors, challenge);
            Some(
                sum_to(
                    at_challenge.len(),
                    |i: int| at_coordinate[i].spec_mul(at_challenge[i]),
                ).spec_mul(
                    match parameters.missing_mul_factor {
                        Some(factor) => factor,
                        None => EF::spec_one(),
                    },
                ),
            )
        },
        None => parameters.missing_mul_factor,
    }
}

impl<F: Field, EF: ExtensionField<F>> SumcheckRound<F, EF> {
    /// Ends the round: the claim moves to the value of the round's polynomial at the
    /// challenge, and the polynomials are folded there.
    #[must_use]
    pub fn fold<NF: ExtensionField<F>>(
        &self,
        parameters: &RoundParameters<'_, EF>,
        multilinears: &[&EvaluationsList<NF>],
        challenge: EF,
    ) -> (r: RoundOutcome<EF>) where EF: ExtensionField<NF>
        requires
            multilinears@.len() > 0,
            forall|k: int|
                0 <= k < multilinears@.len() ==> (#[trigger] multilinears@[k]).well_formed()
                    && multilinears@[k].variables() == multilinears@[0].variables(),
            parameters.skips <= multilinears@[0].variables(),
            are_round_selectors(self.selectors@, parameters.skips),
            parameters.eq_factor matches Some(eq_factor) ==> parameters.round < eq_factor@.len(),
        ensures
            r.sum == poly_value::<EF, EF>(self.polynomial.coeffs@, challenge),
            r.missing_mul_factor == next_mul_factor::<F, EF>(
                *parameters,
                self.selectors@,
                challenge,
            ),
            r.folded@.len() == multilinears@.len(),
            all_have_variables(
                r.folded@,
                (multilinears@[0].variables() - parameters.skips) as nat,
            ),
            forall|k: int|
                0 <= k < r.folded@.len() ==> (#[trigger] r.folded@[k])@ == first_variables_folded::<
                    NF,
                    EF,
                >(
                    multilinears@[k]@,
                    domain_weights::<F, EF>(parameters.skips, self.selectors@, challenge),
                    pow2((multilinears@[0].variables() - parameters.skips) as nat),
                ),
    {
        let ghost left = (multilinears@[0].variables() - parameters.skips) as nat;
        let sum = self.polynomial.evaluate::<EF>(challenge);
        let weights: Vec<EF> = weights_at::<F, EF>(parameters.skips, &self.selectors, challenge);
        proof {
            domain_weights_count::<F, EF>(parameters.skips, self.selectors@, challenge);
        }
        let missing_mul_factor = match parameters.eq_factor {
            Some(eq_factor) => {
                let r = eq_factor[parameters.round];
                let at_coordinate: Vec<EF> = weights_at::<F, EF>(
                    parameters.skips,
                    &self.selectors,
                    r,
                );
                proof {
                    domain_weights_count::<F, EF>(parameters.skips, self.selectors@, r);
                }
                let ghost term = |i: int| at_coordinate@[i].spec_mul(weights@[i]);
                let mut factor = EF::zero();
                let mut i: usize = 0;
                while i < weights.len()
                    invariant
                        i <= weights@.len() == at_coordinate@.len(),
                        term == |i: int| at_coordinate@[i].spec_mul(weights@[i]),
                        factor == sum_to(i as nat, term),
                    decreases weights@.len() - i,
                {
                    factor = factor.plus(at_coordinate[i].times(weights[i]));
                    i += 1;
                }
                let before = match parameters.missing_mul_factor {
                    Some(factor) => factor,
                    None => EF::one(),
                };
                Some(factor.times(before))
            },
            None => parameters.missing_mul_factor,
        };
        proof {
            assert forall|p: int| 0 <= p < multilinears@.len() implies (
            #[trigger] multilinears@[p]).well_formed() && scalars_fit(
                weights@.len(),
                *multilinears@[p],
            ) by {
                assert(weights@.len() == pow2(parameters.skips as nat));
            }
        }
        let folded = batch_fold_multilinear_in_large_field::<NF, EF>(multilinears, &weights);
        proof {
            assert forall|k: int| 0 <= k < folded@.len() implies (
            #[trigger] folded@[k]).well_formed() && folded@[k].variables() == left
                && folded@[k]@.len() == pow2(left) by {
                assert(multilinears@[k].well_formed());
                folded_has_size::<NF, EF>(
                    folded@[k],
                    *multilinears@[k],
                    weights@,
                    left,
                    parameters.skips as nat,
                );
            }
        }
        RoundOutcome { folded, sum, missing_mul_factor }
    }
}

} // verus!
