//! The slots of a flat input buffer.

use vstd::prelude::*;

use super::inputs::{ConstraintProgramInputs, KernelInput, RowSelector};

verus! {

/// How many values of each kind a flat input buffer holds. The groups stand in
/// the buffer in the order main, preprocessed and permutation rows (each local
/// before next), public values, challenges, and last the three selectors.
#[derive(Debug, Clone, Copy, PartialEq, Eq, Structural)]
pub struct ConstraintInputLayout {
    pub main_width: usize,
    pub preprocessed_width: usize,
    pub permutation_width: usize,
    pub public_values: usize,
    pub challenges: usize,
}

impl Default for ConstraintInputLayout {
    fn default() -> (r: Self)
        ensures
            r == (ConstraintInputLayout {
                main_width: 0,
                preprocessed_width: 0,
                permutation_width: 0,
                public_values: 0,
                challenges: 0,
            }),
    {
        ConstraintInputLayout {
            main_width: 0,
            preprocessed_width: 0,
            permutation_width: 0,
            public_values: 0,
            challenges: 0,
        }
    }
}

impl ConstraintInputLayout {
    pub open spec fn preprocessed_start(self) -> int {
        2 * self.main_width
    }

    pub open spec fn permutation_start(self) -> int {
        self.preprocessed_start() + 2 * self.preprocessed_width
    }

    pub open spec fn public_values_start(self) -> int {
        self.permutation_start() + 2 * self.permutation_width
    }

    pub open spec fn challenges_start(self) -> int {
        self.public_values_start() + self.public_values
    }

    pub open spec fn selectors_start(self) -> int {
        self.challenges_start() + self.challenges
    }

    /// The number of slots.
    pub open spec fn slot_count(self) -> int {
        self.selectors_start() + 3
    }

    /// The slot of an input of a supported row.
    pub open spec fn slot(self, input: KernelInput) -> int {
        match input {
            KernelInput::Main { row_offset, column } => if row_offset == 0 {
                column as int
            } else {
                self.main_width + column
            },
            KernelInput::Preprocessed { row_offset, column } => self.preprocessed_start()
                + if row_offset == 0 {
                column as int
            } else {
                self.preprocessed_width + column
            },
            KernelInput::Permutation { row_offset, column } => self.permutation_start()
                + if row_offset == 0 {
                column as int
            } else {
                self.permutation_width + column
            },
            KernelInput::Public { index } => self.public_values_start() + index,
            KernelInput::Challenge { index } => self.challenges_start() + index,
            KernelInput::Selector(RowSelector::First) => self.selectors_start(),
            KernelInput::Selector(RowSelector::Last) => self.selectors_start() + 1,
            KernelInput::Selector(RowSelector::Transition) => self.selectors_start() + 2,
        }
    }

    /// Whether the layout has room for `input`.
    pub open spec fn covers(self, input: KernelInput) -> bool {
        match input {
            KernelInput::Main { row_offset, column } => row_offset <= 1 && column < self.main_width,
            KernelInput::Preprocessed { row_offset, column } => row_offset <= 1 && column
                < self.preprocessed_width,
            KernelInput::Permutation { row_offset, column } => row_offset <= 1 && column
                < self.permutation_width,
            KernelInput::Public { index } => index < self.public_values,
            KernelInput::Challenge { index } => index < self.challenges,
            KernelInput::Selector(_) => true,
        }
    }

    /// Whether the inputs hold every value that the layout has room for.
    pub open spec fn is_filled_by<T>(self, inputs: ConstraintProgramInputs<'_, T>) -> bool {
        &&& inputs.main.local@.len() >= self.main_width
        &&& inputs.main.next@.len() >= self.main_width
        &&& inputs.preprocessed.local@.len() >= self.preprocessed_width
        &&& inputs.preprocessed.next@.len() >= self.preprocessed_width
        &&& inputs.permutation.local@.len() >= self.permutation_width
        &&& inputs.permutation.next@.len() >= self.permutation_width
        &&& inputs.public_values@.len() >= self.public_values
        &&& inputs.challenges@.len() >= self.challenges
    }

    /// The flat buffer of `inputs`: the leading values of each group, as many as
    /// the layout has room for, and the selectors.
    pub open spec fn flat<T>(self, inputs: ConstraintProgramInputs<'_, T>) -> Seq<T> {
        inputs.main.local@.take(self.main_width as int) + inputs.main.next@.take(
            self.main_width as int,
        ) + inputs.preprocessed.local@.take(self.preprocessed_width as int)
            + inputs.preprocessed.next@.take(self.preprocessed_width as int)
            + inputs.permutation.local@.take(self.permutation_width as int)
            + inputs.permutation.next@.take(self.permutation_width as int)
            + inputs.public_values@.take(self.public_values as int) + inputs.challenges@.take(
            self.challenges as int,
        ) + seq![inputs.is_first_row, inputs.is_last_row, inputs.is_transition]
    }

    #[must_use]
    pub fn total_slots(&self) -> (r: usize)
        requires
            self.slot_count() <= usize::MAX,
        ensures
            r == self.slot_count(),
    {
        self.selectors_offset() + 3
    }

    #[must_use]
    pub fn main_local_offset(&self) -> (r: usize)
        ensures
            r == 0,
    {
        0
    }

    #[must_use]
    pub fn main_next_offset(&self) -> (r: usize)
        ensures
            r == self.main_width,
    {
        self.main_local_offset() + self.main_width
    }

    #[must_use]
    pub fn preprocessed_local_offset(&self) -> (r: usize)
        requires
            self.preprocessed_start() <= usize::MAX,
        ensures
            r == self.preprocessed_start(),
    {
        self.main_next_offset() + self.main_width
    }

    #[must_use]
    pub fn preprocessed_next_offset(&self) -> (r: usize)
        requires
            self.preprocessed_start() + self.preprocessed_width <= usize::MAX,
        ensures
            r == self.preprocessed_start() + self.preprocessed_width,
    {
        self.preprocessed_local_offset() + self.preprocessed_width
    }

    #[must_use]
    pub fn permutation_local_offset(&self) -> (r: usize)
        requires
            self.permutation_start() <= usize::MAX,
        ensures
            r == self.permutation_start(),
    {
        self.preprocessed_next_offset() + self.preprocessed_width
    }

    #[must_use]
    pub fn permutation_next_offset(&self) -> (r: usize)
        requires
            self.permutation_start() + self.permutation_width <= usize::MAX,
        ensures
            r == self.permutation_start() + self.permutation_width,
    {
        self.permutation_local_offset() + self.permutation_width
    }

    #[must_use]
    pub fn public_values_offset(&self) -> (r: usize)
        requires
            self.public_values_start() <= usize::MAX,
        ensures
            r == self.public_values_start(),
    {
        self.permutation_next_offset() + self.permutation_width
    }

    #[must_use]
    pub fn challenges_offset(&self) -> (r: usize)
        requires
            self.challenges_start() <= usize::MAX,
        ensures
            r == self.challenges_start(),
    {
        self.public_values_offset() + self.public_values
    }

    #[must_use]
    pub fn selectors_offset(&self) -> (r: usize)
        requires
            self.selectors_start() <= usize::MAX,
        ensures
            r == self.selectors_start(),
    {
        self.challenges_offset() + self.challenges
    }

    /// The slot of `input`.
    #[must_use]
    pub fn slot_for_input(&self, input: KernelInput) -> (r: usize)
        requires
            input.row_is_supported(),
            self.slot(input) <= usize::MAX,
        ensures
            r == self.slot(input),
    {
        match input {
            KernelInput::Main { row_offset, column } => if row_offset == 0 {
                self.main_local_offset() + column
            } else {
                self.main_next_offset() + column
            },
            KernelInput::Preprocessed { row_offset, column } => if row_offset == 0 {
                self.preprocessed_local_offset() + column
            } else {
                self.preprocessed_next_offset() + column
            },
            KernelInput::Permutation { row_offset, column } => if row_offset == 0 {
                self.permutation_local_offset() + column
            } else {
                self.permutation_next_offset() + column
            },
            KernelInput::Public { index } => self.public_values_offset() + index,
            KernelInput::Challenge { index } => self.challenges_offset() + index,
            KernelInput::Selector(RowSelector::First) => self.selectors_offset(),
            KernelInput::Selector(RowSelector::Last) => self.selectors_offset() + 1,
            KernelInput::Selector(RowSelector::Transition) => self.selectors_offset() + 2,
        }
    }

    /// Copies the values that the layout has room for into one buffer, each to its
    /// slot.
    #[must_use]
    pub fn flatten_inputs<T: Copy>(&self, inputs: &ConstraintProgramInputs<'_, T>) -> (r: Vec<T>)
        requires
            self.is_filled_by(*inputs),
            self.slot_count() <= usize::MAX,
        ensures
            r@ == self.flat(*inputs),
            r@.len() == self.slot_count(),
    {
        let mut flat_inputs: Vec<T> = Vec::with_capacity(self.total_slots());
        self.push_slice(&mut flat_inputs, inputs.main.local, self.main_width);
        self.push_slice(&mut flat_inputs, inputs.main.next, self.main_width);
        self.push_slice(&mut flat_inputs, inputs.preprocessed.local, self.preprocessed_width);
        self.push_slice(&mut flat_inputs, inputs.preprocessed.next, self.preprocessed_width);
        self.push_slice(&mut flat_inputs, inputs.permutation.local, self.permutation_width);
        self.push_slice(&mut flat_inputs, inputs.permutation.next, self.permutation_width);
        self.push_slice(&mut flat_inputs, inputs.public_values, self.public_values);
        self.push_slice(&mut flat_inputs, inputs.challenges, self.challenges);
        flat_inputs.push(inputs.is_first_row);
        flat_inputs.push(inputs.is_last_row);
        flat_inputs.push(inputs.is_transition);
        assert(flat_inputs@ =~= self.flat(*inputs));
        flat_inputs
    }

    fn push_slice<T: Copy>(&self, flat_inputs: &mut Vec<T>, values: &[T], width: usize)
        requires
            values@.len() >= width,
        ensures
            final(flat_inputs)@ == old(flat_inputs)@ + values@.take(width as int),
    {
        let mut i: usize = 0;
        assert(flat_inputs@ =~= old(flat_inputs)@ + values@.take(0));
        while i < width
            invariant
                i <= width <= values@.len(),
                flat_inputs@ == old(flat_inputs)@ + values@.take(i as int),
            decreases width - i,
        {
            flat_inputs.push(values[i]);
            i += 1;
            assert(flat_inputs@ =~= old(flat_inputs)@ + values@.take(i as int));
        }
    }
}

/// Every input that a layout covers has a slot of its own inside the buffer.
pub proof fn slots_are_distinct(layout: ConstraintInputLayout, a: KernelInput, b: KernelInput)
    requires
        layout.covers(a),
        layout.covers(b),
    ensures
        0 <= layout.slot(a) < layout.slot_count(),
        layout.slot(a) == layout.slot(b) <==> a == b,
{
}

/// Every slot of the buffer is that of an input that the layout covers.
pub proof fn every_slot_is_taken(layout: ConstraintInputLayout, slot: int) -> (input: KernelInput)
    requires
        0 <= slot < layout.slot_count(),
    ensures
        layout.covers(input),
        layout.slot(input) == slot,
{
    let main = layout.main_width;
    let preprocessed = layout.preprocessed_width;
    let permutation = layout.permutation_width;
    if slot < main {
        KernelInput::Main { row_offset: 0, column: slot as usize }
    } else if slot < layout.preprocessed_start() {
        KernelInput::Main { row_offset: 1, column: (slot - main) as usize }
    } else if slot < layout.preprocessed_start() + preprocessed {
        let column = (slot - layout.preprocessed_start()) as usize;
        KernelInput::Preprocessed { row_offset: 0, column }
    } else if slot < layout.permutation_start() {
        let column = (slot - layout.preprocessed_start() - preprocessed) as usize;
        KernelInput::Preprocessed { row_offset: 1, column }
    } else if slot < layout.permutation_start() + permutation {
        let column = (slot - layout.permutation_start()) as usize;
        KernelInput::Permutation { row_offset: 0, column }
    } else if slot < layout.public_values_start() {
        let column = (slot - layout.permutation_start() - permutation) as usize;
        KernelInput::Permutation { row_offset: 1, column }
    } else if slot < layout.challenges_start() {
        KernelInput::Public { index: (slot - layout.public_values_start()) as usize }
    } else if slot < layout.selectors_start() {
        KernelInput::Challenge { index: (slot - layout.challenges_start()) as usize }
    } else if slot == layout.selectors_start() {
        KernelInput::Selector(RowSelector::First)
    } else if slot == layout.selectors_start() + 1 {
        KernelInput::Selector(RowSelector::Last)
    } else {
        KernelInput::Selector(RowSelector::Transition)
    }
}

/// The flat buffer holds the value of each covered input in the input's slot.
pub proof fn flat_buffer_holds_each_input<T>(
    layout: ConstraintInputLayout,
    inputs: ConstraintProgramInputs<'_, T>,
    input: KernelInput,
)
    requires
        layout.is_filled_by(inputs),
        layout.covers(input),
    ensures
        inputs.holds(input),
        layout.flat(inputs).len() == layout.slot_count(),
        layout.flat(inputs)[layout.slot(input)] == inputs.value(input),
{
}

} // verus!
