//! Instruction tapes that read their inputs from the slots of a flat buffer.

use vstd::prelude::*;

use super::inputs::{ConstraintProgramInputs, KernelInput};
use super::layout::{flat_buffer_holds_each_input, ConstraintInputLayout};
use super::program::{
    batch, batch_packed, batched, tape_values, ConstraintProgram, KernelInstruction,
    UnsupportedGpuFeature,
};
use crate::field::{Algebra, ExtensionField, Field, Ring};
use crate::packed::Packed;

verus! {

/// One step of a lowered program.
#[derive(Debug, Clone)]
pub enum LoweredKernelInstruction<F> {
    Constant(F),
    Input { slot: usize },
    Add { lhs: usize, rhs: usize },
    Sub { lhs: usize, rhs: usize },
    Neg { src: usize },
    Mul { lhs: usize, rhs: usize },
}

/// A tape whose inputs are slots of a flat buffer with a given layout.
#[derive(Debug, Clone)]
pub struct LoweredConstraintProgram<F> {
    pub input_layout: ConstraintInputLayout,
    pub instructions: Vec<LoweredKernelInstruction<F>>,
    pub outputs: Vec<usize>,
    pub unsupported_features: Vec<UnsupportedGpuFeature>,
    pub max_constraint_degree: usize,
}

pub open spec fn max_width(width: usize, index: usize) -> usize {
    if width > index {
        width
    } else {
        (index + 1) as usize
    }
}

impl ConstraintInputLayout {
    /// The layout, widened where needed to have room for `input`.
    pub open spec fn widened_for(self, input: KernelInput) -> ConstraintInputLayout {
        match input {
            KernelInput::Main { column, .. } => ConstraintInputLayout {
                main_width: max_width(self.main_width, column),
                ..self
            },
            KernelInput::Preprocessed { column, .. } => ConstraintInputLayout {
                preprocessed_width: max_width(self.preprocessed_width, column),
                ..self
            },
            KernelInput::Permutation { column, .. } => ConstraintInputLayout {
                permutation_width: max_width(self.permutation_width, column),
                ..self
            },
            KernelInput::Public { index } => ConstraintInputLayout {
                public_values: max_width(self.public_values, index),
                ..self
            },
            KernelInput::Challenge { index } => ConstraintInputLayout {
                challenges: max_width(self.challenges, index),
                ..self
            },
            KernelInput::Selector(_) => self,
        }
    }

    /// Whether `other` has at least as much room for every group.
    pub open spec fn fits_within(self, other: ConstraintInputLayout) -> bool {
        &&& self.main_width <= other.main_width
        &&& self.preprocessed_width <= other.preprocessed_width
        &&& self.permutation_width <= other.permutation_width
        &&& self.public_values <= other.public_values
        &&& self.challenges <= other.challenges
    }

    /// Widens the layout where needed to have room for `input`.
    fn widen_for(&mut self, input: KernelInput)
        requires
            input.has_next_index(),
        ensures
            *final(self) == old(self).widened_for(input),
    {
        match input {
            KernelInput::Main { column, .. } => {
                if self.main_width <= column {
                    self.main_width = column + 1;
                }
            },
            KernelInput::Preprocessed { column, .. } => {
                if self.preprocessed_width <= column {
                    self.preprocessed_width = column + 1;
                }
            },
            KernelInput::Permutation { column, .. } => {
                if self.permutation_width <= column {
                    self.permutation_width = column + 1;
                }
            },
            KernelInput::Public { index } => {
                if self.public_values <= index {
                    self.public_values = index + 1;
                }
            },
            KernelInput::Challenge { index } => {
                if self.challenges <= index {
                    self.challenges = index + 1;
                }
            },
            KernelInput::Selector(_) => {},
        }
    }
}

impl KernelInput {
    /// Whether the column or index of the input is below the largest `usize`.
    pub open spec fn has_next_index(self) -> bool {
        match self {
            KernelInput::Main { column, .. } => column < usize::MAX,
            KernelInput::Preprocessed { column, .. } => column < usize::MAX,
            KernelInput::Permutation { column, .. } => column < usize::MAX,
            KernelInput::Public { index } => index < usize::MAX,
            KernelInput::Challenge { index } => index < usize::MAX,
            KernelInput::Selector(_) => true,
        }
    }
}

/// The layout with just enough room for the inputs that a tape reads.
pub open spec fn layout_of<F>(instructions: Seq<KernelInstruction<F>>) -> ConstraintInputLayout
    decreases instructions.len(),
{
    if instructions.len() == 0 {
        ConstraintInputLayout {
            main_width: 0,
            preprocessed_width: 0,
            permutation_width: 0,
            public_values: 0,
            challenges: 0,
        }
    } else {
        match instructions.last() {
            KernelInstruction::Input(input) => layout_of(instructions.drop_last()).widened_for(
                input,
            ),
            _ => layout_of(instructions.drop_last()),
        }
    }
}

/// The layout of a tape covers every input of a supported row that the tape reads.
pub proof fn layout_covers_inputs<F>(
    instructions: Seq<KernelInstruction<F>>,
    k: int,
    input: KernelInput,
)
    requires
        0 <= k < instructions.len(),
        instructions[k] == KernelInstruction::<F>::Input(input),
        input.row_is_supported(),
        forall|j: int|
            0 <= j < instructions.len() ==> ((
            #[trigger] instructions[j]) matches KernelInstruction::Input(i) ==> i.has_next_index()),
    ensures
        layout_of(instructions).covers(input),
    decreases instructions.len(),
{
    let shorter = instructions.drop_last();
    if k < shorter.len() {
        assert(shorter[k] == instructions[k]);
        assert forall|j: int| 0 <= j < shorter.len() implies ((
        #[trigger] shorter[j]) matches KernelInstruction::Input(i) ==> i.has_next_index()) by {
            assert(shorter[j] == instructions[j]);
        }
        layout_covers_inputs(shorter, k, input);
        assert(instructions[instructions.len() - 1] == instructions.last());
    } else {
        assert(instructions[k] == instructions.last());
    }
}

/// The layout of a tape is the least that covers the inputs that the tape reads.
pub proof fn layout_is_least<F>(
    instructions: Seq<KernelInstruction<F>>,
    other: ConstraintInputLayout,
)
    requires
        forall|j: int|
            0 <= j < instructions.len() ==> ((
            #[trigger] instructions[j]) matches KernelInstruction::Input(i) ==> other.covers(i)),
    ensures
        layout_of(instructions).fits_within(other),
    decreases instructions.len(),
{
    if instructions.len() > 0 {
        let shorter = instructions.drop_last();
        assert forall|j: int| 0 <= j < shorter.len() implies ((
        #[trigger] shorter[j]) matches KernelInstruction::Input(i) ==> other.covers(i)) by {
            assert(shorter[j] == instructions[j]);
        }
        layout_is_least(shorter, other);
        assert(instructions[instructions.len() - 1] == instructions.last());
    }
}

impl<F> KernelInstruction<F> {
    /// The instruction that reads the input's slot in place of the input.
    pub open spec fn lowered(self, layout: ConstraintInputLayout) -> LoweredKernelInstruction<F> {
        match self {
            KernelInstruction::Constant(value) => LoweredKernelInstruction::Constant(value),
            KernelInstruction::Input(input) => LoweredKernelInstruction::Input {
                slot: layout.slot(input) as usize,
            },
            KernelInstruction::Add { lhs, rhs } => LoweredKernelInstruction::Add { lhs, rhs },
            KernelInstruction::Sub { lhs, rhs } => LoweredKernelInstruction::Sub { lhs, rhs },
            KernelInstruction::Neg { src } => LoweredKernelInstruction::Neg { src },
            KernelInstruction::Mul { lhs, rhs } => LoweredKernelInstruction::Mul { lhs, rhs },
        }
    }
}

/// Whether the column or index of every input is below the largest `usize`.
pub open spec fn tape_has_layout<F>(instructions: Seq<KernelInstruction<F>>) -> bool {
    forall|k: int|
        0 <= k < instructions.len() ==> ((
        #[trigger] instructions[k]) matches KernelInstruction::Input(input)
            ==> input.has_next_index())
}

/// Whether every input lies in a supported row and has a slot that a `usize` can hold.
pub open spec fn tape_can_lower<F>(instructions: Seq<KernelInstruction<F>>) -> bool {
    &&& tape_has_layout(instructions)
    &&& forall|k: int|
        0 <= k < instructions.len() ==> ((
        #[trigger] instructions[k]) matches KernelInstruction::Input(input)
            ==> input.row_is_supported() && layout_of(instructions).slot(input) <= usize::MAX)
}

impl<F> ConstraintProgram<F> {
    /// Whether every input lies in a supported row and has a slot that a `usize` can
    /// hold.
    pub open spec fn can_lower(self) -> bool {
        tape_can_lower(self.instructions@)
    }
}

/// Whether `lowered` is `program` with every input replaced by its slot in the layout
/// with just enough room.
pub open spec fn is_lowered_from<F>(
    lowered: LoweredConstraintProgram<F>,
    program: ConstraintProgram<F>,
) -> bool {
    let layout = layout_of(program.instructions@);
    &&& lowered.input_layout == layout
    &&& lowered.instructions@ == Seq::new(
        program.instructions@.len(),
        |k: int| program.instructions@[k].lowered(layout),
    )
    &&& lowered.outputs@ == program.outputs@
    &&& lowered.unsupported_features@ == program.unsupported_features@
    &&& lowered.max_constraint_degree == program.max_constraint_degree
}

impl<F: Field> ConstraintProgram<F> {
    /// The same program with every input replaced by its slot in the layout with just
    /// enough room.
    #[must_use]
    pub fn lower(&self) -> (r: LoweredConstraintProgram<F>)
        requires
            self.can_lower(),
        ensures
            is_lowered_from(r, *self),
    {
        let input_layout = self.derive_input_layout();
        let mut instructions: Vec<LoweredKernelInstruction<F>> = Vec::with_capacity(
            self.instructions.len(),
        );
        let mut k: usize = 0;
        while k < self.instructions.len()
            invariant
                self.can_lower(),
                input_layout == layout_of(self.instructions@),
                k <= self.instructions@.len(),
                instructions@ == Seq::new(
                    k as nat,
                    |j: int| self.instructions@[j].lowered(input_layout),
                ),
            decreases self.instructions@.len() - k,
        {
            let instruction = match &self.instructions[k] {
                KernelInstruction::Constant(value) => LoweredKernelInstruction::Constant(*value),
                KernelInstruction::Input(input) => LoweredKernelInstruction::Input {
                    slot: input_layout.slot_for_input(*input),
                },
                KernelInstruction::Add { lhs, rhs } => LoweredKernelInstruction::Add {
                    lhs: *lhs,
                    rhs: *rhs,
                },
                KernelInstruction::Sub { lhs, rhs } => LoweredKernelInstruction::Sub {
                    lhs: *lhs,
                    rhs: *rhs,
                },
                KernelInstruction::Neg { src } => LoweredKernelInstruction::Neg { src: *src },
                KernelInstruction::Mul { lhs, rhs } => LoweredKernelInstruction::Mul {
                    lhs: *lhs,
                    rhs: *rhs,
                },
            };
            instructions.push(instruction);
            k += 1;
            assert(instructions@ =~= Seq::new(
                k as nat,
                |j: int| self.instructions@[j].lowered(input_layout),
            ));
        }
        let outputs = self.outputs.clone();
        let unsupported_features = self.unsupported_features.clone();
        assert(outputs@ =~= self.outputs@);
        assert(unsupported_features@ =~= self.unsupported_features@);
        LoweredConstraintProgram {
            input_layout,
            instructions,
            outputs,
            unsupported_features,
            max_constraint_degree: self.max_constraint_degree,
        }
    }

    fn derive_input_layout(&self) -> (r: ConstraintInputLayout)
        requires
            tape_has_layout(self.instructions@),
        ensures
            r == layout_of(self.instructions@),
    {
        let mut layout = ConstraintInputLayout::default();
        let mut k: usize = 0;
        while k < self.instructions.len()
            invariant
                tape_has_layout(self.instructions@),
                k <= self.instructions@.len(),
                layout == layout_of(self.instructions@.take(k as int)),
            decreases self.instructions@.len() - k,
        {
            assert(self.instructions@.take(k + 1).drop_last() =~= self.instructions@.take(
                k as int,
            ));
            if let KernelInstruction::Input(input) = &self.instructions[k] {
                layout.widen_for(*input);
            }
            k += 1;
        }
        assert(self.instructions@.take(k as int) =~= self.instructions@);
        layout
    }
}

impl<F> LoweredKernelInstruction<F> {
    /// Whether every operand is a position below `position`.
    pub open spec fn operands_below(self, position: int) -> bool {
        match self {
            LoweredKernelInstruction::Constant(_) => true,
            LoweredKernelInstruction::Input { .. } => true,
            LoweredKernelInstruction::Add { lhs, rhs } => lhs < position && rhs < position,
            LoweredKernelInstruction::Sub { lhs, rhs } => lhs < position && rhs < position,
            LoweredKernelInstruction::Neg { src } => src < position,
            LoweredKernelInstruction::Mul { lhs, rhs } => lhs < position && rhs < position,
        }
    }
}

impl<F: Ring> LoweredKernelInstruction<F> {
    /// The value that the instruction computes from the flat buffer and from the
    /// values of the instructions before it.
    pub open spec fn value<R: Algebra<F>>(self, flat: Seq<R>, values: Seq<R>) -> R {
        match self {
            LoweredKernelInstruction::Constant(value) => R::spec_embed(value),
            LoweredKernelInstruction::Input { slot } => flat[slot as int],
            LoweredKernelInstruction::Add { lhs, rhs } => values[lhs as int].spec_add(
                values[rhs as int],
            ),
            LoweredKernelInstruction::Sub { lhs, rhs } => values[lhs as int].spec_sub(
                values[rhs as int],
            ),
            LoweredKernelInstruction::Neg { src } => values[src as int].spec_neg(),
            LoweredKernelInstruction::Mul { lhs, rhs } => values[lhs as int].spec_mul(
                values[rhs as int],
            ),
        }
    }
}

/// The values of the instructions of a lowered tape, in order.
pub open spec fn lowered_tape_values<F: Ring, R: Algebra<F>>(
    instructions: Seq<LoweredKernelInstruction<F>>,
    flat: Seq<R>,
) -> Seq<R>
    decreases instructions.len(),
{
    if instructions.len() == 0 {
        Seq::empty()
    } else {
        let values = lowered_tape_values(instructions.drop_last(), flat);
        values.push(instructions.last().value(flat, values))
    }
}

impl<F> LoweredConstraintProgram<F> {
    /// Whether operands and outputs name instructions that come before their use.
    pub open spec fn well_formed(self) -> bool {
        &&& forall|k: int|
            0 <= k < self.instructions@.len() ==> (#[trigger] self.instructions@[k]).operands_below(
                k,
            )
        &&& forall|k: int|
            0 <= k < self.outputs@.len() ==> #[trigger] self.outputs@[k] < self.instructions@.len()
    }

    /// Whether a flat buffer of `n` values has every slot of the layout and every slot
    /// that the program reads.
    pub open spec fn can_read_all(self, n: nat) -> bool {
        &&& self.input_layout.slot_count() <= n
        &&& forall|k: int|
            0 <= k < self.instructions@.len() ==> ((
            #[trigger] self.instructions@[k]) matches LoweredKernelInstruction::Input { slot }
                ==> slot < n)
    }
}

impl<F: Ring> LoweredConstraintProgram<F> {
    /// The values of the constraints, in order.
    pub open spec fn output_values<R: Algebra<F>>(self, flat: Seq<R>) -> Seq<R> {
        let values = lowered_tape_values(self.instructions@, flat);
        Seq::new(self.outputs@.len(), |k: int| values[self.outputs@[k] as int])
    }

    /// Runs the tape and returns the value of every instruction.
    fn run<R: Algebra<F>>(&self, flat_inputs: &[R]) -> (r: Vec<R>)
        requires
            self.well_formed(),
            self.can_read_all(flat_inputs@.len()),
        ensures
            r@ == lowered_tape_values(self.instructions@, flat_inputs@),
            r@.len() == self.instructions@.len(),
    {
        let mut values: Vec<R> = Vec::with_capacity(self.instructions.len());
        let mut k: usize = 0;
        while k < self.instructions.len()
            invariant
                self.well_formed(),
                self.can_read_all(flat_inputs@.len()),
                k <= self.instructions@.len(),
                values@.len() == k,
                values@ == lowered_tape_values(self.instructions@.take(k as int), flat_inputs@),
            decreases self.instructions@.len() - k,
        {
            proof {
                assert(self.instructions@.take(k + 1).drop_last() =~= self.instructions@.take(
                    k as int,
                ));
                assert(self.instructions@.take(k + 1).last() == self.instructions@[k as int]);
                assert(self.instructions@[k as int].operands_below(k as int));
            }
            let value = match &self.instructions[k] {
                LoweredKernelInstruction::Constant(value) => R::embed(*value),
                LoweredKernelInstruction::Input { slot } => flat_inputs[*slot],
                LoweredKernelInstruction::Add { lhs, rhs } => values[*lhs].plus(values[*rhs]),
                LoweredKernelInstruction::Sub { lhs, rhs } => values[*lhs].minus(values[*rhs]),
                LoweredKernelInstruction::Neg { src } => values[*src].negated(),
                LoweredKernelInstruction::Mul { lhs, rhs } => values[*lhs].times(values[*rhs]),
            };
            values.push(value);
            k += 1;
        }
        assert(self.instructions@.take(k as int) =~= self.instructions@);
        values
    }
}

/// Lane `l` of every value of a packed buffer.
pub open spec fn lane_of_each<F, const W: usize>(flat: Seq<Packed<F, W>>, l: int) -> Seq<F> {
    Seq::new(flat.len(), |k: int| flat[k].lane(l))
}

/// A lowered tape on a packed buffer computes in each lane what it computes on that
/// lane of the buffer.
pub proof fn packed_lowered_tape_computes_by_lane<F: Ring, const W: usize>(
    instructions: Seq<LoweredKernelInstruction<F>>,
    flat: Seq<Packed<F, W>>,
    l: int,
)
    requires
        0 <= l < W,
        forall|k: int|
            0 <= k < instructions.len() ==> (#[trigger] instructions[k]).operands_below(k),
        forall|k: int|
            0 <= k < instructions.len() ==> ((
            #[trigger] instructions[k]) matches LoweredKernelInstruction::Input { slot } ==> slot
                < flat.len()),
    ensures
        lowered_tape_values(instructions, flat).len() == instructions.len(),
        lowered_tape_values::<F, F>(instructions, lane_of_each(flat, l)).len()
            == instructions.len(),
        forall|k: int|
            0 <= k < instructions.len() ==> #[trigger] lowered_tape_values(instructions, flat)[k].lane(
            l) == lowered_tape_values::<F, F>(instructions, lane_of_each(flat, l))[k],
    decreases instructions.len(),
{
    if instructions.len() > 0 {
        let shorter = instructions.drop_last();
        let last = instructions.last();
        assert(last == instructions[instructions.len() - 1]);
        assert(last.operands_below(instructions.len() - 1));
        assert forall|k: int| 0 <= k < shorter.len() implies (
        #[trigger] shorter[k]).operands_below(k) by {
            assert(instructions[k].operands_below(k));
        }
        assert forall|k: int| 0 <= k < shorter.len() implies ((
        #[trigger] shorter[k]) matches LoweredKernelInstruction::Input { slot } ==> slot
            < flat.len()) by {
            assert(shorter[k] == instructions[k]);
        }
        packed_lowered_tape_computes_by_lane(shorter, flat, l);
        let values = lowered_tape_values(shorter, flat);
        let lanes = lane_of_each(flat, l);
        let lane_values = lowered_tape_values::<F, F>(shorter, lanes);
        assert(last.value(flat, values).lane(l) == last.value::<F>(lanes, lane_values)) by {
            match last {
                LoweredKernelInstruction::Constant(value) => {
                    Packed::<F, W>::lanes_compute_alone(
                        Packed::<F, W>::spec_zero(),
                        Packed::<F, W>::spec_zero(),
                        value,
                        l,
                    );
                },
                LoweredKernelInstruction::Input { slot } => {},
                LoweredKernelInstruction::Add { lhs, rhs } => {
                    Packed::<F, W>::lanes_compute_alone(
                        values[lhs as int],
                        values[rhs as int],
                        F::spec_zero(),
                        l,
                    );
                },
                LoweredKernelInstruction::Sub { lhs, rhs } => {
                    Packed::<F, W>::lanes_compute_alone(
                        values[lhs as int],
                        values[rhs as int],
                        F::spec_zero(),
                        l,
                    );
                },
                LoweredKernelInstruction::Neg { src } => {
                    Packed::<F, W>::lanes_compute_alone(
                        values[src as int],
                        values[src as int],
                        F::spec_zero(),
                        l,
                    );
                },
                LoweredKernelInstruction::Mul { lhs, rhs } => {
                    Packed::<F, W>::lanes_compute_alone(
                        values[lhs as int],
                        values[rhs as int],
                        F::spec_zero(),
                        l,
                    );
                },
            }
        }
    }
}

impl<F: Field> LoweredConstraintProgram<F> {
    /// The values of the constraints on a buffer of the base field, combined by the
    /// scalars.
    #[must_use]
    pub fn evaluate_batched<EF: ExtensionField<F>>(
        &self,
        flat_inputs: &[F],
        batching_scalars: &[EF],
    ) -> (r: EF)
        requires
            self.well_formed(),
            self.can_read_all(flat_inputs@.len()),
            self.outputs@.len() == batching_scalars@.len(),
        ensures
            r == batched::<F, EF>(batching_scalars@, self.output_values(flat_inputs@)),
    {
        self.evaluate_batched_in_extension(flat_inputs, batching_scalars)
    }

    /// The values of the constraints on a buffer of an extension, combined by the
    /// scalars.
    #[must_use]
    pub fn evaluate_batched_in_extension<NF: ExtensionField<F>, EF: ExtensionField<NF>>(
        &self,
        flat_inputs: &[NF],
        batching_scalars: &[EF],
    ) -> (r: EF)
        requires
            self.well_formed(),
            self.can_read_all(flat_inputs@.len()),
            self.outputs@.len() == batching_scalars@.len(),
        ensures
            r == batched::<NF, EF>(batching_scalars@, self.output_values::<NF>(flat_inputs@)),
    {
        let values: Vec<NF> = self.run(flat_inputs);
        batch(&self.outputs, &values, batching_scalars)
    }

    /// The values of the constraints on a packed buffer, combined by the scalars. Each
    /// lane of the result is what the same lane of the buffer gives.
    #[must_use]
    pub fn evaluate_batched_packed<EF: ExtensionField<F>, const W: usize>(
        &self,
        flat_inputs: &[Packed<F, W>],
        batching_scalars: &[EF],
    ) -> (r: Packed<EF, W>)
        requires
            self.well_formed(),
            self.can_read_all(flat_inputs@.len()),
            self.outputs@.len() == batching_scalars@.len(),
        ensures
            forall|l: int|
                0 <= l < W ==> #[trigger] r.lane(l) == batched::<F, EF>(
                    batching_scalars@,
                    self.output_values::<F>(lane_of_each(flat_inputs@, l)),
                ),
    {
        let values: Vec<Packed<F, W>> = self.run(flat_inputs);
        let r = batch_packed(&self.outputs, &values, batching_scalars);
        proof {
            assert forall|l: int| 0 <= l < W implies #[trigger] r.lane(l) == batched::<F, EF>(
                batching_scalars@,
                self.output_values::<F>(lane_of_each(flat_inputs@, l)),
            ) by {
                packed_lowered_tape_computes_by_lane(self.instructions@, flat_inputs@, l);
                assert(Seq::new(
                    self.outputs@.len(),
                    |k: int| values@[self.outputs@[k] as int].lane(l),
                ) =~= self.output_values::<F>(lane_of_each(flat_inputs@, l)));
            }
        }
        r
    }
}

pub(crate) proof fn lowered_tape_computes_the_same<F: Ring, R: Algebra<F>>(
    instructions: Seq<KernelInstruction<F>>,
    layout: ConstraintInputLayout,
    read: spec_fn(KernelInput) -> R,
    flat: Seq<R>,
)
    requires
        forall|k: int|
            0 <= k < instructions.len() ==> ((
            #[trigger] instructions[k]) matches KernelInstruction::Input(input) ==> layout.slot(
                input,
            ) <= usize::MAX && 0 <= layout.slot(input) && flat[layout.slot(input)] == read(input)),
    ensures
        lowered_tape_values(
            Seq::new(instructions.len(), |k: int| instructions[k].lowered(layout)),
            flat,
        ) == tape_values(instructions, read),
    decreases instructions.len(),
{
    let lowered = Seq::new(instructions.len(), |k: int| instructions[k].lowered(layout));
    if instructions.len() > 0 {
        let shorter = instructions.drop_last();
        assert forall|k: int| 0 <= k < shorter.len() implies ((
        #[trigger] shorter[k]) matches KernelInstruction::Input(input) ==> layout.slot(input)
            <= usize::MAX && 0 <= layout.slot(input) && flat[layout.slot(input)] == read(input)) by {
            assert(shorter[k] == instructions[k]);
        }
        lowered_tape_computes_the_same(shorter, layout, read, flat);
        assert(lowered.drop_last() =~= Seq::new(
            shorter.len(),
            |k: int| shorter[k].lowered(layout),
        ));
        assert(instructions.last() == instructions[instructions.len() - 1]);
    }
}

/// On the flat buffer of any inputs, a lowered program computes the constraint
/// values that the program computes on the inputs. The buffer holds every slot that
/// the lowered program reads.
pub proof fn lowering_preserves_evaluation<F: Field, R: Algebra<F>>(
    program: ConstraintProgram<F>,
    lowered: LoweredConstraintProgram<F>,
    inputs: ConstraintProgramInputs<'_, R>,
)
    requires
        program.can_lower(),
        is_lowered_from(lowered, program),
        lowered.input_layout.is_filled_by(inputs),
    ensures
        program.can_read_all(inputs),
        lowered.can_read_all(lowered.input_layout.flat(inputs).len()),
        program.well_formed() ==> lowered.well_formed(),
        lowered.output_values(lowered.input_layout.flat(inputs)) == program.output_values(
            inputs.reader(),
        ),
{
    let instructions = program.instructions@;
    let layout = lowered.input_layout;
    let flat = layout.flat(inputs);
    assert forall|k: int| 0 <= k < instructions.len() implies ((
    #[trigger] instructions[k]) matches KernelInstruction::Input(input) ==> layout.slot(input)
        <= usize::MAX && 0 <= layout.slot(input) < flat.len() && flat[layout.slot(input)]
        == inputs.value(input) && inputs.holds(input)) by {
        if let KernelInstruction::Input(input) = instructions[k] {
            layout_covers_inputs(instructions, k, input);
            flat_buffer_holds_each_input(layout, inputs, input);
        }
    }
    assert(layout.flat(inputs).len() == layout.slot_count());
    assert forall|k: int| 0 <= k < lowered.instructions@.len() implies ((
    #[trigger] lowered.instructions@[k]) matches LoweredKernelInstruction::Input { slot } ==> slot
        < flat.len()) by {
        assert(lowered.instructions@[k] == instructions[k].lowered(layout));
    }
    if program.well_formed() {
        assert forall|k: int| 0 <= k < lowered.instructions@.len() implies (
        #[trigger] lowered.instructions@[k]).operands_below(k) by {
            assert(instructions[k].operands_below(k));
        }
    }
    lowered_tape_computes_the_same(instructions, layout, inputs.reader(), flat);
}

} // verus!
