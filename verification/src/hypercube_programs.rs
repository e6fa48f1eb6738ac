//! Sums of compiled constraint programs over the hypercube.

use vstd::arithmetic::div_mod::*;
use vstd::arithmetic::mul::*;
use vstd::arithmetic::power2::*;
use vstd::prelude::*;
use vstd::slice::slice_subrange;

use crate::evals::EvaluationsList;
use crate::field::{ExtensionField, Field, Ring};
use crate::kernel_ir::inputs::{ConstraintProgramInputs, KernelInput, RowPair, RowSelector};
use crate::kernel_ir::layout::ConstraintInputLayout;
use crate::kernel_ir::lowered::{
    is_lowered_from, lane_of_each, lowering_preserves_evaluation, LoweredConstraintProgram,
};
use crate::kernel_ir::program::{
    batched, tape_depends_on_what_it_reads, ConstraintProgram, KernelInstruction,
};
use crate::multilinear::all_have_variables;
use crate::packed::Packed;
use crate::sumcheck::computation::{lanes_at, with_factor};
use crate::sumcheck::hypercube::{
    packed_point_of, point_at, point_of, tables_of, weight_at, weights_cover, weights_of,
    HypercubeEvaluator,
};
use crate::sums::{sum_congruent, sum_of_blocks, sum_to};

verus! {

/// The inputs whose main rows are the two halves of a point, and whose selectors are
/// all zero.
pub open spec fn main_pair_flat<R: Ring>(layout: ConstraintInputLayout, point: Seq<R>) -> Seq<R> {
    let width = point.len() as int / 2;
    point.take(layout.main_width as int) + point.subrange(width, width + layout.main_width) + seq![
        R::spec_zero(),
        R::spec_zero(),
        R::spec_zero(),
    ]
}

/// Whether a layout has room for main columns alone, and for no more than `width` of
/// them.
pub open spec fn reads_main_columns_only(layout: ConstraintInputLayout, width: int) -> bool {
    &&& layout.main_width <= width
    &&& layout.preprocessed_width == 0
    &&& layout.permutation_width == 0
    &&& layout.public_values == 0
    &&& layout.challenges == 0
}

/// Whether a program can be summed over so many polynomials, local columns before next
/// ones, with so many scalars.
pub open spec fn program_accepts<F>(
    program: LoweredConstraintProgram<F>,
    n_pols: nat,
    n_scalars: nat,
) -> bool {
    &&& n_pols % 2 == 0
    &&& program.well_formed()
    &&& program.can_read_all(program.input_layout.slot_count() as nat)
    &&& program.input_layout.slot_count() <= usize::MAX
    &&& reads_main_columns_only(program.input_layout, n_pols as int / 2)
    &&& program.outputs@.len() == n_scalars
}

/// The batched constraint value at a point that holds the local row and then the next
/// one.
pub open spec fn program_value<F: Field, NF: ExtensionField<F>, EF: ExtensionField<NF>>(
    program: LoweredConstraintProgram<F>,
    point: Seq<NF>,
    scalars: Seq<EF>,
) -> EF {
    batched::<NF, EF>(
        scalars,
        program.output_values::<NF>(main_pair_flat(program.input_layout, point)),
    )
}

/// The flat buffer of the two halves of a point.
fn flatten_main_pair<R: Ring>(layout: &ConstraintInputLayout, point: &[R]) -> (r: Vec<R>)
    requires
        point@.len() % 2 == 0,
        reads_main_columns_only(*layout, point@.len() as int / 2),
        layout.slot_count() <= usize::MAX,
    ensures
        r@ == main_pair_flat(*layout, point@),
        r@.len() == layout.slot_count(),
{
    let n: usize = point.len();
    let width: usize = n / 2;
    let local = slice_subrange(point, 0, width);
    let next = slice_subrange(point, width, n);
    let zero = R::zero();
    let inputs = ConstraintProgramInputs {
        main: RowPair::new(local, next),
        preprocessed: RowPair::empty(),
        permutation: RowPair::empty(),
        public_values: &[],
        challenges: &[],
        is_first_row: zero,
        is_last_row: zero,
        is_transition: zero,
    };
    let flat = layout.flatten_inputs(&inputs);
    assert(flat@ =~= main_pair_flat(*layout, point@));
    flat
}

/// Sums a compiled program over values of the base field, `W` points at a time.
pub struct ConstraintProgramHypercubeEvaluator<'a, F, const W: usize> {
    pub program: &'a LoweredConstraintProgram<F>,
}

impl<'a, F, const W: usize> ConstraintProgramHypercubeEvaluator<'a, F, W> {
    #[must_use]
    pub fn new(program: &'a LoweredConstraintProgram<F>) -> (r: Self)
        ensures
            r.program == program,
    {
        ConstraintProgramHypercubeEvaluator { program }
    }
}

/// Sums a compiled program over values of an extension, point by point.
pub struct ConstraintProgramExtensionHypercubeEvaluator<'a, F> {
    pub program: &'a LoweredConstraintProgram<F>,
}

impl<'a, F> ConstraintProgramExtensionHypercubeEvaluator<'a, F> {
    #[must_use]
    pub fn new(program: &'a LoweredConstraintProgram<F>) -> (r: Self)
        ensures
            r.program == program,
    {
        ConstraintProgramExtensionHypercubeEvaluator { program }
    }
}

/// Each lane multiplied by the weight of its hypercube index.
fn weigh_lanes<EF: Field, const W: usize>(
    value: Packed<EF, W>,
    start: usize,
    eq_mle: Option<&EvaluationsList<EF>>,
) -> (r: Packed<EF, W>)
    requires
        W > 0,
        weights_cover(weights_of(eq_mle), (start + W) as nat),
    ensures
        forall|l: int|
            0 <= l < W ==> #[trigger] r.lane(l) == with_factor(
                value.lane(l),
                weight_at(weights_of(eq_mle), start + l),
            ),
{
    match eq_mle {
        Some(eq_mle) => {
            let weights: Packed<EF, W> = Packed::pack(eq_mle.evals(), start);
            let product = value.times(weights);
            assert forall|l: int| 0 <= l < W implies #[trigger] product.lane(l) == value.lane(
                l,
            ).spec_mul(eq_mle@[start + l]) by {
                Packed::<EF, W>::lanes_compute_alone(value, weights, EF::spec_zero(), l);
            }
            product
        },
        None => value,
    }
}

/// Lane `l` of the flat buffer of packed halves is the flat buffer of lane `l` of the
/// halves.
proof fn lane_of_main_pair<F: Ring, const W: usize>(
    layout: ConstraintInputLayout,
    point: Seq<Packed<F, W>>,
    l: int,
)
    requires
        0 <= l < W,
        point.len() % 2 == 0,
        layout.main_width <= point.len() as int / 2,
    ensures
        lane_of_each(main_pair_flat(layout, point), l) == main_pair_flat(
            layout,
            lanes_at(point, l),
        ),
{
    let zero = Packed::<F, W>::spec_zero();
    Packed::<F, W>::lanes_compute_alone(zero, zero, F::spec_zero(), l);
    assert(lane_of_each(main_pair_flat(layout, point), l) =~= main_pair_flat(
        layout,
        lanes_at(point, l),
    ));
}

/// The sum of the lanes.
fn sum_of_lanes<EF: Field, const W: usize>(value: Packed<EF, W>) -> (r: EF)
    ensures
        r == sum_to(W as nat, |l: int| value.lane(l)),
{
    let ghost term = |l: int| value.lane(l);
    let mut sum = EF::zero();
    let mut l: usize = 0;
    while l < W
        invariant
            l <= W,
            term == |l: int| value.lane(l),
            sum == sum_to(l as nat, term),
        decreases W - l,
    {
        sum = sum.plus(value.extract(l));
        l += 1;
    }
    sum
}

impl<'a, F: Field, EF: ExtensionField<F>, const W: usize> HypercubeEvaluator<
    F,
    EF,
> for ConstraintProgramHypercubeEvaluator<'a, F, W> {
    open spec fn accepts(&self, n_pols: nat, n_vars: nat, n_scalars: nat) -> bool {
        &&& program_accepts(*self.program, n_pols, n_scalars)
        &&& W > 0
        &&& pow2(n_vars) % (W as nat) == 0
    }

    open spec fn point_value(&self, point: Seq<F>, scalars: Seq<EF>) -> EF {
        program_value::<F, F, EF>(*self.program, point, scalars)
    }

    fn compute(
        &self,
        pols: &[EvaluationsList<F>],
        batching_scalars: &[EF],
        eq_mle: Option<&EvaluationsList<EF>>,
    ) -> (r: EF) {
        let ghost f = |point: Seq<F>| self.point_value(point, batching_scalars@);
        let ghost tables = tables_of(pols@);
        let ghost weights = weights_of(eq_mle);
        let ghost term = |x: int| with_factor(f(point_at(tables, x)), weight_at(weights, x));
        let ghost block = |a: int| sum_to(W as nat, |l: int| term(a * (W as nat) + l));
        let ghost n_vars = pols@[0].variables();
        let ghost chunks = pow2(n_vars) / (W as nat);
        let ghost mut chunk: nat = 0;
        assert(pols@[0].well_formed());
        let n: usize = pols[0].num_evals();
        let mut sum = EF::zero();
        let mut start: usize = 0;
        proof {
            lemma_fundamental_div_mod(pow2(n_vars) as int, W as int);
            lemma_mul_is_commutative(W as int, chunks as int);
        }
        while start < n
            invariant
                W > 0,
                n == pow2(n_vars) == chunks * W,
                all_have_variables(pols@, n_vars),
                program_accepts(*self.program, pols@.len(), batching_scalars@.len()),
                tables == tables_of(pols@),
                weights == weights_of(eq_mle),
                weights_cover(weights, n as nat),
                f == |point: Seq<F>| self.point_value(point, batching_scalars@),
                term == |x: int| with_factor(f(point_at(tables, x)), weight_at(weights, x)),
                block == |a: int| sum_to(W as nat, |l: int| term(a * (W as nat) + l)),
                start == chunk * W,
                chunk <= chunks,
                start <= n,
                sum == sum_to(chunk, block),
            decreases n - start,
        {
            proof {
                if chunk == chunks {
                    assert(false);
                }
                lemma_mul_inequality((chunk + 1) as int, chunks as int, W as int);
                lemma_mul_is_distributive_add_other_way(W as int, chunk as int, 1);
                lemma_mul_basics(W as int);
                assert forall|k: int| 0 <= k < pols@.len() implies start + W <= (
                #[trigger] pols@[k])@.len() by {
                    assert(pols@[k].well_formed());
                }
            }
            let point: Vec<Packed<F, W>> = packed_point_of(pols, start);
            let flat = flatten_main_pair(&self.program.input_layout, point.as_slice());
            let packed = self.program.evaluate_batched_packed::<EF, W>(
                flat.as_slice(),
                batching_scalars,
            );
            let weighted = weigh_lanes(packed, start, eq_mle);
            let value = sum_of_lanes(weighted);
            proof {
                let by_lane = |l: int| weighted.lane(l);
                let by_term = |l: int| term(chunk * (W as nat) + l);
                assert forall|l: int| 0 <= l < W implies #[trigger] by_lane(l) == by_term(l) by {
                    assert(lanes_at(point@, l) == point_at(tables, start + l));
                    lane_of_main_pair::<F, W>(self.program.input_layout, point@, l);
                    assert(packed.lane(l) == f(point_at(tables, start + l)));
                }
                sum_congruent(W as nat, by_lane, by_term);
                sum_congruent(W as nat, by_term, |l: int| term((chunk as int) * (W as nat) + l));
                assert(value == block(chunk as int));
                chunk = chunk + 1;
            }
            sum = sum.plus(value);
            start += W;
        }
        proof {
            if chunk < chunks {
                lemma_mul_strict_inequality(chunk as int, chunks as int, W as int);
            }
            sum_of_blocks(chunks, W as nat, term);
        }
        sum
    }
}

impl<'a, F: Field, EF: ExtensionField<F>> HypercubeEvaluator<
    EF,
    EF,
> for ConstraintProgramExtensionHypercubeEvaluator<'a, F> {
    open spec fn accepts(&self, n_pols: nat, n_vars: nat, n_scalars: nat) -> bool {
        program_accepts(*self.program, n_pols, n_scalars)
    }

    open spec fn point_value(&self, point: Seq<EF>, scalars: Seq<EF>) -> EF {
        program_value::<F, EF, EF>(*self.program, point, scalars)
    }

    fn compute(
        &self,
        pols: &[EvaluationsList<EF>],
        batching_scalars: &[EF],
        eq_mle: Option<&EvaluationsList<EF>>,
    ) -> (r: EF) {
        let ghost f = |point: Seq<EF>| self.point_value(point, batching_scalars@);
        let ghost tables = tables_of(pols@);
        let ghost weights = weights_of(eq_mle);
        let ghost term = |x: int| with_factor(f(point_at(tables, x)), weight_at(weights, x));
        let ghost n_vars = pols@[0].variables();
        assert(pols@[0].well_formed());
        let n: usize = pols[0].num_evals();
        let mut sum = EF::zero();
        let mut x: usize = 0;
        while x < n
            invariant
                x <= n,
                n == pow2(n_vars),
                all_have_variables(pols@, n_vars),
                program_accepts(*self.program, pols@.len(), batching_scalars@.len()),
                tables == tables_of(pols@),
                weights == weights_of(eq_mle),
                weights_cover(weights, n as nat),
                f == |point: Seq<EF>| self.point_value(point, batching_scalars@),
                term == |x: int| with_factor(f(point_at(tables, x)), weight_at(weights, x)),
                sum == sum_to(x as nat, term),
            decreases n - x,
        {
            assert forall|k: int| 0 <= k < pols@.len() implies x < (
            #[trigger] pols@[k])@.len() by {
                assert(pols@[k].well_formed());
            }
            let point = point_of(pols, x);
            let flat = flatten_main_pair(&self.program.input_layout, point.as_slice());
            let value = self.program.evaluate_batched_in_extension::<EF, EF>(
                flat.as_slice(),
                batching_scalars,
            );
            let weighted = match eq_mle {
                Some(eq_mle) => value.times(eq_mle.evals()[x]),
                None => value,
            };
            sum = sum.plus(weighted);
            x += 1;
        }
        sum
    }
}

/// What an evaluator sums is the batched value of the constraints on the local and the
/// next row. The selectors, which the evaluator takes to be zero, do not matter to a
/// program that reads none.
pub proof fn evaluators_sum_constraint_values<
    F: Field,
    NF: ExtensionField<F>,
    EF: ExtensionField<NF>,
>(
    program: ConstraintProgram<F>,
    lowered: LoweredConstraintProgram<F>,
    inputs: ConstraintProgramInputs<'_, NF>,
    point: Seq<NF>,
    scalars: Seq<EF>,
)
    requires
        program.can_lower(),
        is_lowered_from(lowered, program),
        point.len() % 2 == 0,
        reads_main_columns_only(lowered.input_layout, point.len() as int / 2),
        inputs.main.local@ == point.take(point.len() as int / 2),
        inputs.main.next@ == point.skip(point.len() as int / 2),
        forall|k: int|
            0 <= k < program.instructions@.len() ==> (
            #[trigger] program.instructions@[k]) != KernelInstruction::<F>::Input(
                KernelInput::Selector(RowSelector::First),
            ) && program.instructions@[k] != KernelInstruction::<F>::Input(
                KernelInput::Selector(RowSelector::Last),
            ) && program.instructions@[k] != KernelInstruction::<F>::Input(
                KernelInput::Selector(RowSelector::Transition),
            ),
    ensures
        program_value::<F, NF, EF>(lowered, point, scalars) == batched::<NF, EF>(
            scalars,
            program.output_values::<NF>(inputs.reader()),
        ),
{
    let layout = lowered.input_layout;
    let zero = NF::spec_zero();
    let plain = ConstraintProgramInputs {
        is_first_row: zero,
        is_last_row: zero,
        is_transition: zero,
        ..inputs
    };
    assert(layout.flat(plain) =~= main_pair_flat(layout, point));
    lowering_preserves_evaluation::<F, NF>(program, lowered, plain);
    assert forall|k: int| 0 <= k < program.instructions@.len() implies ((
    #[trigger] program.instructions@[k]) matches KernelInstruction::Input(input)
        ==> plain.reader()(input) == inputs.reader()(input)) by {
        if let KernelInstruction::Input(input) = program.instructions@[k] {
            assert(plain.value(input) == inputs.value(input));
        }
    }
    tape_depends_on_what_it_reads::<F, NF>(
        program.instructions@,
        plain.reader(),
        inputs.reader(),
    );
}

} // verus!
