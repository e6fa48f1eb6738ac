//! What an instruction can read of a pair of adjacent rows.

use vstd::prelude::*;

use crate::field::Field;

verus! {

/// A column that tells the first, the last or every other row apart.
#[derive(Debug, Clone, Copy, PartialEq, Eq, Hash, Structural)]
pub enum RowSelector {
    First,
    Last,
    Transition,
}

/// One value that an instruction reads.
#[derive(Debug, Clone, Copy, PartialEq, Eq, Hash, Structural)]
pub enum KernelInput {
    Main { row_offset: usize, column: usize },
    Preprocessed { row_offset: usize, column: usize },
    Public { index: usize },
    Challenge { index: usize },
    Permutation { row_offset: usize, column: usize },
    Selector(RowSelector),
}

impl KernelInput {
    /// Whether the input lies in the local row or the next one, or in no row.
    pub open spec fn row_is_supported(self) -> bool {
        match self {
            KernelInput::Main { row_offset, .. } => row_offset <= 1,
            KernelInput::Preprocessed { row_offset, .. } => row_offset <= 1,
            KernelInput::Permutation { row_offset, .. } => row_offset <= 1,
            _ => true,
        }
    }
}

/// The local row and the next row of one group of columns.
#[derive(Debug, Clone, Copy)]
pub struct RowPair<'a, F> {
    pub local: &'a [F],
    pub next: &'a [F],
}

impl<'a, F> RowPair<'a, F> {
    /// Whether the pair holds `column` in the row at `row_offset`.
    pub open spec fn holds(self, row_offset: usize, column: usize) -> bool {
        ||| row_offset == 0 && column < self.local@.len()
        ||| row_offset == 1 && column < self.next@.len()
    }

    /// The value of `column` in the row at `row_offset`.
    pub open spec fn at(self, row_offset: usize, column: usize) -> F {
        if row_offset == 0 {
            self.local@[column as int]
        } else {
            self.next@[column as int]
        }
    }

    #[must_use]
    pub fn new(local: &'a [F], next: &'a [F]) -> (r: Self)
        ensures
            r.local == local,
            r.next == next,
    {
        RowPair { local, next }
    }

    /// The pair of rows without columns.
    #[must_use]
    pub fn empty() -> (r: Self)
        ensures
            r.local@.len() == 0,
            r.next@.len() == 0,
    {
        RowPair { local: &[], next: &[] }
    }
}

/// Everything that a constraint program can read at one row.
#[derive(Debug, Clone, Copy)]
pub struct ConstraintProgramInputs<'a, F> {
    pub main: RowPair<'a, F>,
    pub preprocessed: RowPair<'a, F>,
    pub permutation: RowPair<'a, F>,
    pub public_values: &'a [F],
    pub challenges: &'a [F],
    pub is_first_row: F,
    pub is_last_row: F,
    pub is_transition: F,
}

impl<'a, F> ConstraintProgramInputs<'a, F> {
    /// Whether `input` is among the values held here.
    pub open spec fn holds(self, input: KernelInput) -> bool {
        match input {
            KernelInput::Main { row_offset, column } => self.main.holds(row_offset, column),
            KernelInput::Preprocessed { row_offset, column } => self.preprocessed.holds(
                row_offset,
                column,
            ),
            KernelInput::Public { index } => index < self.public_values@.len(),
            KernelInput::Challenge { index } => index < self.challenges@.len(),
            KernelInput::Permutation { row_offset, column } => self.permutation.holds(
                row_offset,
                column,
            ),
            KernelInput::Selector(_) => true,
        }
    }

    /// The value of `input`.
    pub open spec fn value(self, input: KernelInput) -> F {
        match input {
            KernelInput::Main { row_offset, column } => self.main.at(row_offset, column),
            KernelInput::Preprocessed { row_offset, column } => self.preprocessed.at(
                row_offset,
                column,
            ),
            KernelInput::Public { index } => self.public_values@[index as int],
            KernelInput::Challenge { index } => self.challenges@[index as int],
            KernelInput::Permutation { row_offset, column } => self.permutation.at(
                row_offset,
                column,
            ),
            KernelInput::Selector(RowSelector::First) => self.is_first_row,
            KernelInput::Selector(RowSelector::Last) => self.is_last_row,
            KernelInput::Selector(RowSelector::Transition) => self.is_transition,
        }
    }

    #[must_use]
    pub fn with_preprocessed(self, local: &'a [F], next: &'a [F]) -> (r: Self)
        ensures
            r.preprocessed.local == local,
            r.preprocessed.next == next,
            r == (ConstraintProgramInputs { preprocessed: r.preprocessed, ..self }),
    {
        ConstraintProgramInputs { preprocessed: RowPair::new(local, next), ..self }
    }

    #[must_use]
    pub fn with_permutation(self, local: &'a [F], next: &'a [F]) -> (r: Self)
        ensures
            r.permutation.local == local,
            r.permutation.next == next,
            r == (ConstraintProgramInputs { permutation: r.permutation, ..self }),
    {
        ConstraintProgramInputs { permutation: RowPair::new(local, next), ..self }
    }

    #[must_use]
    pub fn with_public_values(self, public_values: &'a [F]) -> (r: Self)
        ensures
            r == (ConstraintProgramInputs { public_values, ..self }),
    {
        ConstraintProgramInputs { public_values, ..self }
    }

    #[must_use]
    pub fn with_challenges(self, challenges: &'a [F]) -> (r: Self)
        ensures
            r == (ConstraintProgramInputs { challenges, ..self }),
    {
        ConstraintProgramInputs { challenges, ..self }
    }

    /// The value of `input`.
    #[must_use]
    pub fn read(&self, input: KernelInput) -> (r: F) where F: Copy
        requires
            self.holds(input),
        ensures
            r == self.value(input),
    {
        match input {
            KernelInput::Main { row_offset, column } => Self::read_row_pair(
                self.main,
                row_offset,
                column,
            ),
            KernelInput::Preprocessed { row_offset, column } => Self::read_row_pair(
                self.preprocessed,
                row_offset,
                column,
            ),
            KernelInput::Public { index } => self.public_values[index],
            KernelInput::Challenge { index } => self.challenges[index],
            KernelInput::Permutation { row_offset, column } => Self::read_row_pair(
                self.permutation,
                row_offset,
                column,
            ),
            KernelInput::Selector(RowSelector::First) => self.is_first_row,
            KernelInput::Selector(RowSelector::Last) => self.is_last_row,
            KernelInput::Selector(RowSelector::Transition) => self.is_transition,
        }
    }

    fn read_row_pair(rows: RowPair<'_, F>, row_offset: usize, column: usize) -> (r: F) where F: Copy
        requires
            rows.holds(row_offset, column),
        ensures
            r == rows.at(row_offset, column),
    {
        if row_offset == 0 {
            rows.local[column]
        } else {
            rows.next[column]
        }
    }
}

impl<'a, F: Field> ConstraintProgramInputs<'a, F> {
    /// Inputs with the two main rows and the selectors given, and nothing else.
    #[must_use]
    pub fn new(
        main_local: &'a [F],
        main_next: &'a [F],
        is_first_row: F,
        is_last_row: F,
        is_transition: F,
    ) -> (r: Self)
        ensures
            r.main.local == main_local,
            r.main.next == main_next,
            r.preprocessed.local@.len() == 0,
            r.preprocessed.next@.len() == 0,
            r.permutation.local@.len() == 0,
            r.permutation.next@.len() == 0,
            r.public_values@.len() == 0,
            r.challenges@.len() == 0,
            r.is_first_row == is_first_row,
            r.is_last_row == is_last_row,
            r.is_transition == is_transition,
    {
        ConstraintProgramInputs {
            main: RowPair::new(main_local, main_next),
            preprocessed: RowPair::empty(),
            permutation: RowPair::empty(),
            public_values: &[],
            challenges: &[],
            is_first_row,
            is_last_row,
            is_transition,
        }
    }

    /// The inputs of row `row_index` of a trace, whose selectors follow from the
    /// index: the last row is the one that is no transition.
    #[must_use]
    pub fn for_main_row(
        main_local: &'a [F],
        main_next: &'a [F],
        row_index: usize,
        trace_height: usize,
    ) -> (r: Self)
        requires
            row_index < trace_height,
        ensures
            r.main.local == main_local,
            r.main.next == main_next,
            r.preprocessed.local@.len() == 0,
            r.preprocessed.next@.len() == 0,
            r.permutation.local@.len() == 0,
            r.permutation.next@.len() == 0,
            r.public_values@.len() == 0,
            r.challenges@.len() == 0,
            r.is_first_row == if row_index == 0 {
                F::spec_one()
            } else {
                F::spec_zero()
            },
            r.is_last_row == if row_index + 1 == trace_height {
                F::spec_one()
            } else {
                F::spec_zero()
            },
            r.is_transition == if row_index + 1 == trace_height {
                F::spec_zero()
            } else {
                F::spec_one()
            },
    {
        Self::new(
            main_local,
            main_next,
            if row_index == 0 {
                F::one()
            } else {
                F::zero()
            },
            if row_index + 1 == trace_height {
                F::one()
            } else {
                F::zero()
            },
            if row_index + 1 == trace_height {
                F::zero()
            } else {
                F::one()
            },
        )
    }
}

} // verus!
