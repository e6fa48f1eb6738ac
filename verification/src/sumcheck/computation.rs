//! What is summed over the hypercube.

use vstd::prelude::*;

use crate::field::{ExtensionField, Field, Ring};
use crate::packed::Packed;

verus! {

/// A function of one value of each polynomial, and of scalars that batch its parts.
pub trait SumcheckComputation<NF: Field, EF: ExtensionField<NF>> {
    /// Whether the computation is defined on so many values and scalars.
    open spec fn accepts(&self, n_values: nat, n_scalars: nat) -> bool {
        true
    }

    /// The value of the computation. Where a computation does not say what it is, it is some
    /// function of the computation, of the values and of the scalars, of which nothing else is
    /// known.
    open spec fn value(&self, point: Seq<NF>, scalars: Seq<EF>) -> EF {
        arbitrary::<spec_fn(&Self, Seq<NF>, Seq<EF>) -> EF>()(self, point, scalars)
    }

    fn eval(&self, point: &[NF], batching_scalars: &[EF]) -> (r: EF)
        requires
            self.accepts(point@.len(), batching_scalars@.len()),
        ensures
            r == self.value(point@, batching_scalars@),
    ;
}

/// Lane `l` of each of the packed values.
pub open spec fn lanes_at<F, const W: usize>(point: Seq<Packed<F, W>>, l: int) -> Seq<F> {
    Seq::new(point.len(), |k: int| point[k].lane(l))
}

/// The coefficients of the scalars, one list for each position.
pub open spec fn are_decomposed<F: Field, EF: ExtensionField<F>>(
    decomposed: Seq<Vec<F>>,
    scalars: Seq<EF>,
) -> bool {
    &&& decomposed.len() == EF::spec_dimension()
    &&& forall|i: int|
        0 <= i < decomposed.len() ==> (#[trigger] decomposed[i])@ == Seq::new(
            scalars.len(),
            |k: int| scalars[k].coefficient(i),
        )
}

/// A computation on values of the base field that can be carried out on several points
/// at once.
pub trait SumcheckComputationPacked<F: Field, EF: ExtensionField<F>>: SumcheckComputation<
    F,
    EF,
> {
    /// Whether the computation can be carried out on lanes. One that is only ever summed over
    /// values of an extension need not be.
    open spec fn fills_lanes(&self) -> bool {
        true
    }

    /// The values of the computation at the points in the lanes, if it can be carried out on
    /// them. The scalars are given whole and decomposed.
    fn eval_packed<const W: usize>(
        &self,
        point: &[Packed<F, W>],
        batching_scalars: &[EF],
        decomposed_batching_scalars: &[Vec<F>],
    ) -> (r: Vec<EF>)
        requires
            self.fills_lanes() ==> {
                &&& self.accepts(point@.len(), batching_scalars@.len())
                &&& are_decomposed::<F, EF>(decomposed_batching_scalars@, batching_scalars@)
            },
        ensures
            self.fills_lanes() ==> {
                &&& r@.len() == W
                &&& forall|l: int|
                    0 <= l < W ==> #[trigger] r@[l] == self.value(
                        lanes_at(point@, l),
                        batching_scalars@,
                    )
            },
    ;
}

/// A value multiplied by a weight, if there is one.
pub open spec fn with_factor<EF: Ring>(value: EF, factor: Option<EF>) -> EF {
    match factor {
        Some(factor) => value.spec_mul(factor),
        None => value,
    }
}

/// The value of a computation at a point, multiplied by the weight of the point, if it
/// has one.
#[must_use]
pub fn eval_sumcheck_computation<NF: Field, EF: ExtensionField<NF>, SC: SumcheckComputation<NF, EF>>(
    computation: &SC,
    batching_scalars: &[EF],
    point: &[NF],
    eq_mle_eval: Option<EF>,
) -> (r: EF)
    requires
        computation.accepts(point@.len(), batching_scalars@.len()),
    ensures
        r == with_factor(computation.value(point@, batching_scalars@), eq_mle_eval),
{
    let value = computation.eval(point, batching_scalars);
    match eq_mle_eval {
        Some(factor) => value.times(factor),
        None => value,
    }
}

} // verus!
