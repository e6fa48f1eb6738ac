//! Where the heavy steps of a round run.

use vstd::arithmetic::power2::*;
use vstd::prelude::*;

use super::computation::{SumcheckComputation, SumcheckComputationPacked};
use super::hypercube::{hypercube_sum, tables_of, weights_cover, weights_of};
use crate::evals::EvaluationsList;
use crate::field::{ExtensionField, Field};
use crate::multilinear::{all_have_variables, embedded, is_folded, scalars_fit};

verus! {

/// The least number of variables for which a device is worth its while.
pub const MIN_VARS_FOR_GPU: usize = 0;

/// Folds each polynomial by scalars of an extension. There is no device kernel for this
/// yet, so it runs on the host whatever the number of variables.
#[must_use]
pub fn batch_fold_multilinear_in_large_field<F: Field, EF: ExtensionField<F>>(
    polys: &[&EvaluationsList<F>],
    scalars: &[EF],
) -> (r: Vec<EvaluationsList<EF>>)
    requires
        forall|p: int|
            0 <= p < polys@.len() ==> (#[trigger] polys@[p]).well_formed() && scalars_fit(
                scalars@.len(),
                *polys@[p],
            ),
    ensures
        r@.len() == polys@.len(),
        forall|p: int|
            0 <= p < polys@.len() ==> is_folded::<F, EF>(
                #[trigger] r@[p],
                *polys@[p],
                scalars@,
            ),
{
    crate::multilinear::batch_fold_multilinear_in_large_field(polys, scalars)
}

/// Folds each polynomial by scalars of the base field. There is no device kernel for this
/// yet, so it runs on the host whatever the number of variables.
#[must_use]
pub fn batch_fold_multilinear_in_small_field<F: Field, EF: ExtensionField<F>>(
    polys: &[&EvaluationsList<EF>],
    scalars: &[F],
) -> (r: Vec<EvaluationsList<EF>>)
    requires
        forall|p: int|
            0 <= p < polys@.len() ==> (#[trigger] polys@[p]).well_formed() && scalars_fit(
                scalars@.len(),
                *polys@[p],
            ),
    ensures
        r@.len() == polys@.len(),
        forall|p: int|
            0 <= p < polys@.len() ==> is_folded::<EF, EF>(
                #[trigger] r@[p],
                *polys@[p],
                embedded::<F, EF>(scalars@),
            ),
{
    crate::multilinear::batch_fold_multilinear_in_small_field(polys, scalars)
}

/// Sums a computation over the hypercube, where the values are of the base field: `W` points at
/// a time. A computation is host code, so this runs on the host whatever the number of
/// variables.
#[must_use]
pub fn compute_over_hypercube<
    F: Field,
    EF: ExtensionField<F>,
    SC: SumcheckComputationPacked<F, EF>,
    const W: usize,
>(
    pols: &[EvaluationsList<F>],
    computation: &SC,
    batching_scalars: &[EF],
    eq_mle: Option<&EvaluationsList<EF>>,
) -> (r: EF)
    requires
        pols@.len() > 0,
        all_have_variables(pols@, pols@[0].variables()),
        W > 0,
        pow2(pols@[0].variables()) % (W as nat) == 0,
        computation.fills_lanes(),
        computation.accepts(pols@.len(), batching_scalars@.len()),
        weights_cover(weights_of(eq_mle), pow2(pols@[0].variables())),
    ensures
        r == hypercube_sum(
            |point: Seq<F>| computation.value(point, batching_scalars@),
            tables_of(pols@),
            pow2(pols@[0].variables()),
            weights_of(eq_mle),
        ),
{
    super::hypercube::compute_over_hypercube::<F, EF, SC, W>(
        pols,
        computation,
        batching_scalars,
        eq_mle,
    )
}

/// Sums a computation over the hypercube, where the values are of the extension: point by
/// point, on the host whatever the number of variables.
#[must_use]
pub fn compute_over_extension_hypercube<EF: Field, SC: SumcheckComputation<EF, EF>>(
    pols: &[EvaluationsList<EF>],
    computation: &SC,
    batching_scalars: &[EF],
    eq_mle: Option<&EvaluationsList<EF>>,
) -> (r: EF)
    requires
        pols@.len() > 0,
        all_have_variables(pols@, pols@[0].variables()),
        computation.accepts(pols@.len(), batching_scalars@.len()),
        weights_cover(weights_of(eq_mle), pow2(pols@[0].variables())),
    ensures
        r == hypercube_sum(
            |point: Seq<EF>| computation.value(point, batching_scalars@),
            tables_of(pols@),
            pow2(pols@[0].variables()),
            weights_of(eq_mle),
        ),
{
    super::hypercube::compute_over_extension_hypercube(pols, computation, batching_scalars, eq_mle)
}

} // verus!
