//! Sums over the hypercube.

use vstd::arithmetic::div_mod::*;
use vstd::arithmetic::mul::*;
use vstd::arithmetic::power2::*;
use vstd::prelude::*;

use super::computation::{
    are_decomposed, eval_sumcheck_computation, lanes_at, with_factor, SumcheckComputation,
    SumcheckComputationPacked,
};
use crate::evals::EvaluationsList;
use crate::field::{ExtensionField, Field, Ring};
use crate::multilinear::all_have_variables;
use crate::packed::Packed;
use crate::sums::{sum_congruent, sum_of_blocks, sum_to};

verus! {

/// The values of each polynomial on the hypercube.
pub open spec fn tables_of<F>(pols: Seq<EvaluationsList<F>>) -> Seq<Seq<F>> {
    Seq::new(pols.len(), |k: int| pols[k]@)
}

/// The value of each polynomial at hypercube index `x`.
pub open spec fn point_at<F>(tables: Seq<Seq<F>>, x: int) -> Seq<F> {
    Seq::new(tables.len(), |k: int| tables[k][x])
}

/// The weights of the hypercube indices, if there are any.
pub open spec fn weights_of<EF>(eq_mle: Option<&EvaluationsList<EF>>) -> Option<Seq<EF>> {
    match eq_mle {
        Some(eq_mle) => Some(eq_mle@),
        None => None,
    }
}

/// The weight of hypercube index `x`, if there are weights.
pub open spec fn weight_at<EF>(weights: Option<Seq<EF>>, x: int) -> Option<EF> {
    match weights {
        Some(weights) => Some(weights[x]),
        None => None,
    }
}

/// Whether there are no weights, or at least `n` of them.
pub open spec fn weights_cover<EF>(weights: Option<Seq<EF>>, n: nat) -> bool {
    weights matches Some(weights) ==> weights.len() >= n
}

/// The sum, over the first `n` hypercube indices, of the value of `f` at the point there,
/// multiplied by the weight of the index, if it has one.
pub open spec fn hypercube_sum<NF, EF: Ring>(
    f: spec_fn(Seq<NF>) -> EF,
    tables: Seq<Seq<NF>>,
    n: nat,
    weights: Option<Seq<EF>>,
) -> EF {
    sum_to(n, |x: int| with_factor(f(point_at(tables, x)), weight_at(weights, x)))
}

/// A way to sum a function of polynomials over the hypercube.
pub trait HypercubeEvaluator<NF: Field, EF: ExtensionField<NF>> {
    /// Whether the evaluator can sum over so many polynomials in so many variables, with
    /// so many scalars.
    open spec fn accepts(&self, n_pols: nat, n_vars: nat, n_scalars: nat) -> bool {
        true
    }

    /// The function that is summed. Where an evaluator does not say what it is, it is some
    /// function of the evaluator, of the values and of the scalars, of which nothing else is
    /// known.
    open spec fn point_value(&self, point: Seq<NF>, scalars: Seq<EF>) -> EF {
        arbitrary::<spec_fn(&Self, Seq<NF>, Seq<EF>) -> EF>()(self, point, scalars)
    }

    fn compute(
        &self,
        pols: &[EvaluationsList<NF>],
        batching_scalars: &[EF],
        eq_mle: Option<&EvaluationsList<EF>>,
    ) -> (r: EF)
        requires
            pols@.len() > 0,
            all_have_variables(pols@, pols@[0].variables()),
            self.accepts(pols@.len(), pols@[0].variables(), batching_scalars@.len()),
            weights_cover(weights_of(eq_mle), pow2(pols@[0].variables())),
        ensures
            r == hypercube_sum(
                |point: Seq<NF>| self.point_value(point, batching_scalars@),
                tables_of(pols@),
                pow2(pols@[0].variables()),
                weights_of(eq_mle),
            ),
    ;
}

/// The value of each polynomial at hypercube index `x`.
pub(crate) fn point_of<F: Field>(pols: &[EvaluationsList<F>], x: usize) -> (r: Vec<F>)
    requires
        forall|k: int| 0 <= k < pols@.len() ==> x < (#[trigger] pols@[k])@.len(),
    ensures
        r@ == point_at(tables_of(pols@), x as int),
{
    let mut point: Vec<F> = Vec::with_capacity(pols.len());
    let mut k: usize = 0;
    while k < pols.len()
        invariant
            k <= pols@.len(),
            forall|k: int| 0 <= k < pols@.len() ==> x < (#[trigger] pols@[k])@.len(),
            point@ == point_at(tables_of(pols@), x as int).take(k as int),
        decreases pols@.len() - k,
    {
        assert(x < pols@[k as int]@.len());
        point.push(pols[k].evals()[x]);
        k += 1;
        assert(point@ =~= point_at(tables_of(pols@), x as int).take(k as int));
    }
    assert(point@ =~= point_at(tables_of(pols@), x as int));
    point
}

/// The sum of a computation over the hypercube, where the values are of the extension: point by
/// point.
#[must_use]
pub fn compute_over_extension_hypercube<EF: Field, SC: SumcheckComputation<EF, EF>>(
    pols: &[EvaluationsList<EF>],
    computation: &SC,
    batching_scalars: &[EF],
    eq_mle: Option<&EvaluationsList<EF>>,
) -> (r: EF)
    requires
        pols@.len() > 0,
        all_have_variables(pols@, pols@[0].variables()),
        computation.accepts(pols@.len(), batching_scalars@.len()),
        weights_cover(weights_of(eq_mle), pow2(pols@[0].variables())),
    ensures
        r == hypercube_sum(
            |point: Seq<EF>| computation.value(point, batching_scalars@),
            tables_of(pols@),
            pow2(pols@[0].variables()),
            weights_of(eq_mle),
        ),
{
    let ghost f = |point: Seq<EF>| computation.value(point, batching_scalars@);
    let ghost weights = weights_of(eq_mle);
    let ghost term = |x: int| with_factor(f(point_at(tables_of(pols@), x)), weight_at(weights, x));
    let ghost n_vars = pols@[0].variables();
    assert(pols@[0].well_formed());
    let n: usize = pols[0].num_evals();
    let mut sum = EF::zero();
    let mut x: usize = 0;
    while x < n
        invariant
            x <= n,
            n == pow2(n_vars),
            all_have_variables(pols@, n_vars),
            computation.accepts(pols@.len(), batching_scalars@.len()),
            weights == weights_of(eq_mle),
            weights_cover(weights, n as nat),
            f == |point: Seq<EF>| computation.value(point, batching_scalars@),
            term == |x: int| with_factor(f(point_at(tables_of(pols@), x)), weight_at(weights, x)),
            sum == sum_to(x as nat, term),
        decreases n - x,
    {
        assert forall|k: int| 0 <= k < pols@.len() implies x < (#[trigger] pols@[k])@.len() by {
            assert(pols@[k].well_formed());
        }
        let point = point_of(pols, x);
        let factor = match eq_mle {
            Some(eq_mle) => Some(eq_mle.evals()[x]),
            None => None,
        };
        sum = sum.plus(eval_sumcheck_computation(computation, batching_scalars, &point, factor));
        x += 1;
    }
    sum
}

/// The coefficients of the scalars, one list for each position.
fn decompose<F: Field, EF: ExtensionField<F>>(scalars: &[EF]) -> (r: Vec<Vec<F>>)
    ensures
        are_decomposed::<F, EF>(r@, scalars@),
{
    let dimension: usize = EF::dimension();
    let mut decomposed: Vec<Vec<F>> = Vec::with_capacity(dimension);
    let mut i: usize = 0;
    while i < dimension
        invariant
            i <= dimension,
            dimension == EF::spec_dimension(),
            decomposed@.len() == i,
            forall|j: int|
                0 <= j < i ==> (#[trigger] decomposed@[j])@ == Seq::new(
                    scalars@.len(),
                    |k: int| scalars@[k].coefficient(j),
                ),
        decreases dimension - i,
    {
        let ghost expected = Seq::new(scalars@.len(), |k: int| scalars@[k].coefficient(i as int));
        let mut list: Vec<F> = Vec::with_capacity(scalars.len());
        let mut k: usize = 0;
        while k < scalars.len()
            invariant
                i < dimension,
                dimension == EF::spec_dimension(),
                k <= scalars@.len(),
                expected == Seq::new(scalars@.len(), |k: int| scalars@[k].coefficient(i as int)),
                list@ == expected.take(k as int),
            decreases scalars@.len() - k,
        {
            list.push(scalars[k].basis_coefficient(i));
            k += 1;
            assert(list@ =~= expected.take(k as int));
        }
        assert(list@ =~= expected);
        decomposed.push(list);
        i += 1;
    }
    decomposed
}

/// The packed value of each polynomial at the `W` hypercube indices from `start` on.
pub(crate) fn packed_point_of<F: Field, const W: usize>(
    pols: &[EvaluationsList<F>],
    start: usize,
) -> (r: Vec<Packed<F, W>>)
    requires
        W > 0,
        forall|k: int| 0 <= k < pols@.len() ==> start + W <= (#[trigger] pols@[k])@.len(),
    ensures
        r@.len() == pols@.len(),
        forall|l: int|
            #![trigger lanes_at(r@, l)]
            0 <= l < W ==> lanes_at(r@, l) == point_at(tables_of(pols@), start + l),
{
    let mut point: Vec<Packed<F, W>> = Vec::with_capacity(pols.len());
    let mut k: usize = 0;
    while k < pols.len()
        invariant
            W > 0,
            k <= pols@.len(),
            forall|k: int| 0 <= k < pols@.len() ==> start + W <= (#[trigger] pols@[k])@.len(),
            point@.len() == k,
            forall|j: int, l: int|
                0 <= j < k && 0 <= l < W ==> (#[trigger] point@[j].lane(l)) == pols@[j]@[start + l],
        decreases pols@.len() - k,
    {
        assert(start + W <= pols@[k as int]@.len());
        point.push(Packed::pack(pols[k].evals(), start));
        k += 1;
    }
    assert forall|l: int| 0 <= l < W implies #[trigger] lanes_at(point@, l) == point_at(
        tables_of(pols@),
        start + l,
    ) by {
        assert(lanes_at(point@, l) =~= point_at(tables_of(pols@), start + l));
    }
    point
}

/// The sum of the lanes, each multiplied by the weight of its hypercube index.
fn sum_lanes<EF: Field>(
    lanes: &Vec<EF>,
    start: usize,
    eq_mle: Option<&EvaluationsList<EF>>,
) -> (r: EF)
    requires
        weights_cover(weights_of(eq_mle), (start + lanes@.len()) as nat),
        start + lanes@.len() <= usize::MAX,
    ensures
        r == sum_to(
            lanes@.len(),
            |l: int| with_factor(lanes@[l], weight_at(weights_of(eq_mle), start + l)),
        ),
{
    let ghost weights = weights_of(eq_mle);
    let ghost term = |l: int| with_factor(lanes@[l], weight_at(weights, start + l));
    let mut sum = EF::zero();
    let mut l: usize = 0;
    while l < lanes.len()
        invariant
            l <= lanes@.len(),
            start + lanes@.len() <= usize::MAX,
            weights == weights_of(eq_mle),
            weights_cover(weights, (start + lanes@.len()) as nat),
            term == |l: int| with_factor(lanes@[l], weight_at(weights, start + l)),
            sum == sum_to(l as nat, term),
        decreases lanes@.len() - l,
    {
        let value = match eq_mle {
            Some(eq_mle) => lanes[l].times(eq_mle.evals()[start + l]),
            None => lanes[l],
        };
        sum = sum.plus(value);
        l += 1;
    }
    sum
}

/// The sum of a computation over the hypercube, where the values are of the base field: `W`
/// points at a time.
#[must_use]
pub fn compute_over_hypercube<
    F: Field,
    EF: ExtensionField<F>,
    SC: SumcheckComputationPacked<F, EF>,
    const W: usize,
>(
    pols: &[EvaluationsList<F>],
    computation: &SC,
    batching_scalars: &[EF],
    eq_mle: Option<&EvaluationsList<EF>>,
) -> (r: EF)
    requires
        pols@.len() > 0,
        all_have_variables(pols@, pols@[0].variables()),
        W > 0,
        pow2(pols@[0].variables()) % (W as nat) == 0,
        computation.fills_lanes(),
        computation.accepts(pols@.len(), batching_scalars@.len()),
        weights_cover(weights_of(eq_mle), pow2(pols@[0].variables())),
    ensures
        r == hypercube_sum(
            |point: Seq<F>| computation.value(point, batching_scalars@),
            tables_of(pols@),
            pow2(pols@[0].variables()),
            weights_of(eq_mle),
        ),
{
    let ghost f = |point: Seq<F>| computation.value(point, batching_scalars@);
    let ghost weights = weights_of(eq_mle);
    let ghost term = |x: int| with_factor(f(point_at(tables_of(pols@), x)), weight_at(weights, x));
    let ghost block = |a: int| sum_to(W as nat, |l: int| term(a * (W as nat) + l));
    let ghost n_vars = pols@[0].variables();
    assert(pols@[0].well_formed());
    let n: usize = pols[0].num_evals();
    let decomposed: Vec<Vec<F>> = decompose(batching_scalars);
    let mut sum = EF::zero();
    let mut start: usize = 0;
    let ghost mut chunk: nat = 0;
    let ghost chunks = pow2(n_vars) / (W as nat);
    proof {
        lemma_fundamental_div_mod(pow2(n_vars) as int, W as int);
        lemma_mul_is_commutative(W as int, chunks as int);
    }
    while start < n
        invariant
            W > 0,
            n == pow2(n_vars) == chunks * W,
            all_have_variables(pols@, n_vars),
            computation.fills_lanes(),
            computation.accepts(pols@.len(), batching_scalars@.len()),
            are_decomposed::<F, EF>(decomposed@, batching_scalars@),
            weights == weights_of(eq_mle),
            weights_cover(weights, n as nat),
            f == |point: Seq<F>| computation.value(point, batching_scalars@),
            term == |x: int| with_factor(f(point_at(tables_of(pols@), x)), weight_at(weights, x)),
            block == |a: int| sum_to(W as nat, |l: int| term(a * (W as nat) + l)),
            start == chunk * W,
            chunk <= chunks,
            start <= n,
            sum == sum_to(chunk, block),
        decreases n - start,
    {
        proof {
            if chunk == chunks {
                assert(false);
            }
            lemma_mul_inequality((chunk + 1) as int, chunks as int, W as int);
            lemma_mul_is_distributive_add_other_way(W as int, chunk as int, 1);
            lemma_mul_basics(W as int);
            assert forall|k: int| 0 <= k < pols@.len() implies start + W <= (
            #[trigger] pols@[k])@.len() by {
                assert(pols@[k].well_formed());
            }
        }
        let point: Vec<Packed<F, W>> = packed_point_of(pols, start);
        let lanes = computation.eval_packed(&point, batching_scalars, &decomposed);
        let value = sum_lanes(&lanes, start, eq_mle);
        proof {
            let by_lane = |l: int| with_factor(lanes@[l], weight_at(weights, start + l));
            let by_term = |l: int| term(chunk * (W as nat) + l);
            assert forall|l: int| 0 <= l < W implies #[trigger] by_lane(l) == by_term(l) by {
                assert(lanes_at(point@, l) == point_at(tables_of(pols@), start + l));
                assert(lanes@[l] == f(point_at(tables_of(pols@), start + l)));
            }
            sum_congruent(W as nat, by_lane, by_term);
            sum_congruent(W as nat, by_term, |l: int| term((chunk as int) * (W as nat) + l));
            assert(value == block(chunk as int));
            chunk = chunk + 1;
        }
        sum = sum.plus(value);
        start += W;
    }
    proof {
        if chunk < chunks {
            lemma_mul_strict_inequality(chunk as int, chunks as int, W as int);
        }
        sum_of_blocks(chunks, W as nat, term);
    }
    sum
}

/// Sums a computation over values of the extension, point by point.
pub struct ComputationEvaluator<'a, SC> {
    pub computation: &'a SC,
}

impl<'a, EF: Field, SC: SumcheckComputation<EF, EF>> HypercubeEvaluator<
    EF,
    EF,
> for ComputationEvaluator<'a, SC> {
    open spec fn accepts(&self, n_pols: nat, n_vars: nat, n_scalars: nat) -> bool {
        self.computation.accepts(n_pols, n_scalars)
    }

    open spec fn point_value(&self, point: Seq<EF>, scalars: Seq<EF>) -> EF {
        self.computation.value(point, scalars)
    }

    fn compute(
        &self,
        pols: &[EvaluationsList<EF>],
        batching_scalars: &[EF],
        eq_mle: Option<&EvaluationsList<EF>>,
    ) -> (r: EF) {
        let r = compute_over_extension_hypercube(pols, self.computation, batching_scalars, eq_mle);
        proof {
            same_function_same_sum(
                |point: Seq<EF>| self.computation.value(point, batching_scalars@),
                |point: Seq<EF>| self.point_value(point, batching_scalars@),
                tables_of(pols@),
                pow2(pols@[0].variables()),
                weights_of(eq_mle),
            );
        }
        r
    }
}

/// Sums a computation over values of the base field, `W` points at a time.
pub struct PackedComputationEvaluator<'a, SC, const W: usize> {
    pub computation: &'a SC,
}

impl<
    'a,
    F: Field,
    EF: ExtensionField<F>,
    SC: SumcheckComputationPacked<F, EF>,
    const W: usize,
> HypercubeEvaluator<F, EF> for PackedComputationEvaluator<'a, SC, W> {
    open spec fn accepts(&self, n_pols: nat, n_vars: nat, n_scalars: nat) -> bool {
        &&& self.computation.fills_lanes()
        &&& self.computation.accepts(n_pols, n_scalars)
        &&& W > 0
        &&& pow2(n_vars) % (W as nat) == 0
    }

    open spec fn point_value(&self, point: Seq<F>, scalars: Seq<EF>) -> EF {
        self.computation.value(point, scalars)
    }

    fn compute(
        &self,
        pols: &[EvaluationsList<F>],
        batching_scalars: &[EF],
        eq_mle: Option<&EvaluationsList<EF>>,
    ) -> (r: EF) {
        let r = compute_over_hypercube::<F, EF, SC, W>(
            pols,
            self.computation,
            batching_scalars,
            eq_mle,
        );
        proof {
            same_function_same_sum(
                |point: Seq<F>| self.computation.value(point, batching_scalars@),
                |point: Seq<F>| self.point_value(point, batching_scalars@),
                tables_of(pols@),
                pow2(pols@[0].variables()),
                weights_of(eq_mle),
            );
        }
        r
    }
}

/// Sums of functions that agree are equal.
pub proof fn same_function_same_sum<NF, EF: Ring>(
    f: spec_fn(Seq<NF>) -> EF,
    g: spec_fn(Seq<NF>) -> EF,
    tables: Seq<Seq<NF>>,
    n: nat,
    weights: Option<Seq<EF>>,
)
    requires
        forall|point: Seq<NF>| point.len() == tables.len() ==> #[trigger] f(point) == g(point),
    ensures
        hypercube_sum(f, tables, n, weights) == hypercube_sum(g, tables, n, weights),
{
    sum_congruent(
        n,
        |x: int| with_factor(f(point_at(tables, x)), weight_at(weights, x)),
        |x: int| with_factor(g(point_at(tables, x)), weight_at(weights, x)),
    );
}

} // verus!
