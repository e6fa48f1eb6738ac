//! What programs compute, said of the values themselves.

use vstd::prelude::*;

use super::compile::{
    compilation_preserves_meaning, evaluation_order, features_of, is_compiled_from, largest_degree,
    visit, visit_each,
};
use super::inputs::{ConstraintProgramInputs, KernelInput, RowSelector};
use super::layout::ConstraintInputLayout;
use super::lowered::{
    is_lowered_from, layout_of, lowered_tape_values, LoweredConstraintProgram,
    LoweredKernelInstruction,
};
use super::program::{
    count, tape_values, ConstraintProgram, KernelInstruction, UnsupportedGpuFeature,
};
use super::symbolic::{node_value, Entry, SymbolicExpression, SymbolicGraph, SymbolicVariable};
use crate::field::{Algebra, Field, Ring};

verus! {

/// A variable is read from the place that its entry, its offset and its index name.
pub proof fn variable_is_read_from_its_place(variable: SymbolicVariable)
    ensures
        match variable.entry {
            Entry::Main { offset } => variable.input() == (KernelInput::Main {
                row_offset: offset,
                column: variable.index,
            }),
            Entry::Preprocessed { offset } => variable.input() == (KernelInput::Preprocessed {
                row_offset: offset,
                column: variable.index,
            }),
            Entry::Permutation { offset } => variable.input() == (KernelInput::Permutation {
                row_offset: offset,
                column: variable.index,
            }),
            Entry::Public => variable.input() == (KernelInput::Public { index: variable.index }),
            Entry::Challenge => variable.input() == (KernelInput::Challenge {
                index: variable.index,
            }),
        },
{
}

/// Variables that differ in their entry, their offset or their index are read from different
/// places.
pub proof fn different_variables_have_different_inputs(a: SymbolicVariable, b: SymbolicVariable)
    ensures
        a.input() == b.input() <==> a.entry == b.entry && a.index == b.index,
{
}

/// What an input holds: an element of the row, or of the list, that it names.
pub proof fn input_holds_element<F>(inputs: ConstraintProgramInputs<'_, F>, input: KernelInput)
    ensures
        match input {
            KernelInput::Main { row_offset, column } => {
                &&& row_offset == 0 ==> inputs.value(input) == inputs.main.local@[column as int]
                &&& row_offset == 1 ==> inputs.value(input) == inputs.main.next@[column as int]
                &&& inputs.holds(input) <==> row_offset == 0 && column < inputs.main.local@.len()
                    || row_offset == 1 && column < inputs.main.next@.len()
            },
            KernelInput::Preprocessed { row_offset, column } => {
                &&& row_offset == 0 ==> inputs.value(input)
                    == inputs.preprocessed.local@[column as int]
                &&& row_offset == 1 ==> inputs.value(input)
                    == inputs.preprocessed.next@[column as int]
                &&& inputs.holds(input) <==> row_offset == 0 && column
                    < inputs.preprocessed.local@.len() || row_offset == 1 && column
                    < inputs.preprocessed.next@.len()
            },
            KernelInput::Permutation { row_offset, column } => {
                &&& row_offset == 0 ==> inputs.value(input)
                    == inputs.permutation.local@[column as int]
                &&& row_offset == 1 ==> inputs.value(input)
                    == inputs.permutation.next@[column as int]
                &&& inputs.holds(input) <==> row_offset == 0 && column
                    < inputs.permutation.local@.len() || row_offset == 1 && column
                    < inputs.permutation.next@.len()
            },
            KernelInput::Public { index } => {
                &&& inputs.value(input) == inputs.public_values@[index as int]
                &&& inputs.holds(input) <==> index < inputs.public_values@.len()
            },
            KernelInput::Challenge { index } => {
                &&& inputs.value(input) == inputs.challenges@[index as int]
                &&& inputs.holds(input) <==> index < inputs.challenges@.len()
            },
            KernelInput::Selector(RowSelector::First) => inputs.holds(input) && inputs.value(input)
                == inputs.is_first_row,
            KernelInput::Selector(RowSelector::Last) => inputs.holds(input) && inputs.value(input)
                == inputs.is_last_row,
            KernelInput::Selector(RowSelector::Transition) => inputs.holds(input) && inputs.value(
                input,
            ) == inputs.is_transition,
        },
{
}

/// Whether `value` is what a variable stands for on the given inputs.
pub open spec fn is_value_of_variable<F>(
    inputs: ConstraintProgramInputs<'_, F>,
    variable: SymbolicVariable,
    value: F,
) -> bool {
    let k = variable.index as int;
    match variable.entry {
        Entry::Main { offset } => {
            &&& offset == 0 ==> value == inputs.main.local@[k]
            &&& offset == 1 ==> value == inputs.main.next@[k]
        },
        Entry::Preprocessed { offset } => {
            &&& offset == 0 ==> value == inputs.preprocessed.local@[k]
            &&& offset == 1 ==> value == inputs.preprocessed.next@[k]
        },
        Entry::Permutation { offset } => {
            &&& offset == 0 ==> value == inputs.permutation.local@[k]
            &&& offset == 1 ==> value == inputs.permutation.next@[k]
        },
        Entry::Public => value == inputs.public_values@[k],
        Entry::Challenge => value == inputs.challenges@[k],
    }
}

/// A compiled program computes the constraints: there is a value for each expression that is
/// the element, the sum, the difference, the opposite or the product that the expression
/// denotes, and the outputs are the values of the constraints, in order.
pub proof fn compiled_outputs_are_the_constraints<F: Field, R: Algebra<F>>(
    graph: SymbolicGraph<F>,
    program: ConstraintProgram<F>,
    inputs: ConstraintProgramInputs<'_, R>,
) -> (values: Seq<R>)
    requires
        graph.well_formed(),
        is_compiled_from(program, graph),
    ensures
        values.len() == graph.nodes@.len(),
        program.output_values(inputs.reader()).len() == graph.constraints@.len(),
        forall|k: int|
            0 <= k < graph.constraints@.len() ==> program.output_values(inputs.reader())[k]
                == values[#[trigger] graph.constraints@[k] as int],
        forall|id: int|
            0 <= id < graph.nodes@.len() ==> match #[trigger] graph.nodes@[id] {
                SymbolicExpression::Variable(variable) => is_value_of_variable(
                    inputs,
                    variable,
                    values[id],
                ),
                SymbolicExpression::IsFirstRow => values[id] == inputs.is_first_row,
                SymbolicExpression::IsLastRow => values[id] == inputs.is_last_row,
                SymbolicExpression::IsTransition => values[id] == inputs.is_transition,
                SymbolicExpression::Constant(value) => values[id] == R::spec_embed(value),
                SymbolicExpression::Add { x, y, .. } => values[id] == values[x as int].spec_add(
                    values[y as int],
                ),
                SymbolicExpression::Sub { x, y, .. } => values[id] == values[x as int].spec_sub(
                    values[y as int],
                ),
                SymbolicExpression::Neg { x, .. } => values[id] == values[x as int].spec_neg(),
                SymbolicExpression::Mul { x, y, .. } => values[id] == values[x as int].spec_mul(
                    values[y as int],
                ),
            },
{
    let nodes = graph.nodes@;
    let read = inputs.reader();
    let values = Seq::new(nodes.len(), |id: int| node_value(nodes, id as nat, read));
    compilation_preserves_meaning(graph, program, read);
    assert forall|k: int| 0 <= k < graph.constraints@.len() implies program.output_values(read)[k]
        == values[#[trigger] graph.constraints@[k] as int] by {
        assert(graph.constraints@[k] < nodes.len());
    }
    assert forall|id: int| 0 <= id < nodes.len() implies match #[trigger] nodes[id] {
        SymbolicExpression::Variable(variable) => is_value_of_variable(
            inputs,
            variable,
            values[id],
        ),
        SymbolicExpression::IsFirstRow => values[id] == inputs.is_first_row,
        SymbolicExpression::IsLastRow => values[id] == inputs.is_last_row,
        SymbolicExpression::IsTransition => values[id] == inputs.is_transition,
        SymbolicExpression::Constant(value) => values[id] == R::spec_embed(value),
        SymbolicExpression::Add { x, y, .. } => values[id] == values[x as int].spec_add(
            values[y as int],
        ),
        SymbolicExpression::Sub { x, y, .. } => values[id] == values[x as int].spec_sub(
            values[y as int],
        ),
        SymbolicExpression::Neg { x, .. } => values[id] == values[x as int].spec_neg(),
        SymbolicExpression::Mul { x, y, .. } => values[id] == values[x as int].spec_mul(
            values[y as int],
        ),
    } by {
        match nodes[id] {
            SymbolicExpression::Add { x, y, .. } => {
                assert(nodes[id].operands()[0] == x && nodes[id].operands()[1] == y);
            },
            SymbolicExpression::Sub { x, y, .. } => {
                assert(nodes[id].operands()[0] == x && nodes[id].operands()[1] == y);
            },
            SymbolicExpression::Neg { x, .. } => {
                assert(nodes[id].operands()[0] == x);
            },
            SymbolicExpression::Mul { x, y, .. } => {
                assert(nodes[id].operands()[0] == x && nodes[id].operands()[1] == y);
            },
            _ => {},
        }
    }
    values
}

/// A constraint that is a public value is, in the compiled program, that element of the public
/// values.
pub proof fn public_constraint_is_public_value<F: Field, R: Algebra<F>>(
    graph: SymbolicGraph<F>,
    program: ConstraintProgram<F>,
    inputs: ConstraintProgramInputs<'_, R>,
    k: int,
    index: usize,
)
    requires
        graph.well_formed(),
        is_compiled_from(program, graph),
        0 <= k < graph.constraints@.len(),
        graph.nodes@[graph.constraints@[k] as int] == SymbolicExpression::<F>::Variable(
            SymbolicVariable { entry: Entry::Public, index },
        ),
    ensures
        program.output_values(inputs.reader())[k] == inputs.public_values@[index as int],
{
    let values = compiled_outputs_are_the_constraints(graph, program, inputs);
    assert(graph.constraints@[k] < graph.nodes@.len());
}

/// Every value of a tape is what its instruction makes of the inputs and of the values before
/// it.
pub proof fn tape_obeys_instructions<F: Ring, R: Algebra<F>>(
    instructions: Seq<KernelInstruction<F>>,
    read: spec_fn(KernelInput) -> R,
    k: int,
)
    requires
        0 <= k < instructions.len(),
        instructions[k].operands_below(k),
    ensures
        tape_values(instructions, read).len() == instructions.len(),
        ({
            let values = tape_values(instructions, read);
            match instructions[k] {
                KernelInstruction::Constant(value) => values[k] == R::spec_embed(value),
                KernelInstruction::Input(input) => values[k] == read(input),
                KernelInstruction::Add { lhs, rhs } => values[k] == values[lhs as int].spec_add(
                    values[rhs as int],
                ),
                KernelInstruction::Sub { lhs, rhs } => values[k] == values[lhs as int].spec_sub(
                    values[rhs as int],
                ),
                KernelInstruction::Neg { src } => values[k] == values[src as int].spec_neg(),
                KernelInstruction::Mul { lhs, rhs } => values[k] == values[lhs as int].spec_mul(
                    values[rhs as int],
                ),
            }
        }),
    decreases instructions.len(),
{
    let shorter = instructions.drop_last();
    tape_has_a_value_for_each(instructions, read);
    tape_has_a_value_for_each(shorter, read);
    if k < shorter.len() {
        tape_obeys_instructions(shorter, read, k);
    }
}

proof fn tape_has_a_value_for_each<F: Ring, R: Algebra<F>>(
    instructions: Seq<KernelInstruction<F>>,
    read: spec_fn(KernelInput) -> R,
)
    ensures
        tape_values(instructions, read).len() == instructions.len(),
    decreases instructions.len(),
{
    if instructions.len() > 0 {
        tape_has_a_value_for_each(instructions.drop_last(), read);
    }
}

/// Every value of a lowered tape is what its instruction makes of the slots and of the values
/// before it.
pub proof fn lowered_tape_obeys_instructions<F: Ring, R: Algebra<F>>(
    instructions: Seq<LoweredKernelInstruction<F>>,
    flat: Seq<R>,
    k: int,
)
    requires
        0 <= k < instructions.len(),
        instructions[k].operands_below(k),
    ensures
        lowered_tape_values(instructions, flat).len() == instructions.len(),
        ({
            let values = lowered_tape_values(instructions, flat);
            match instructions[k] {
                LoweredKernelInstruction::Constant(value) => values[k] == R::spec_embed(value),
                LoweredKernelInstruction::Input { slot } => values[k] == flat[slot as int],
                LoweredKernelInstruction::Add { lhs, rhs } => values[k]
                    == values[lhs as int].spec_add(values[rhs as int]),
                LoweredKernelInstruction::Sub { lhs, rhs } => values[k]
                    == values[lhs as int].spec_sub(values[rhs as int]),
                LoweredKernelInstruction::Neg { src } => values[k] == values[src as int].spec_neg(),
                LoweredKernelInstruction::Mul { lhs, rhs } => values[k]
                    == values[lhs as int].spec_mul(values[rhs as int]),
            }
        }),
    decreases instructions.len(),
{
    let shorter = instructions.drop_last();
    lowered_tape_has_a_value_for_each(instructions, flat);
    lowered_tape_has_a_value_for_each(shorter, flat);
    if k < shorter.len() {
        lowered_tape_obeys_instructions(shorter, flat, k);
    }
}

proof fn lowered_tape_has_a_value_for_each<F: Ring, R: Algebra<F>>(
    instructions: Seq<LoweredKernelInstruction<F>>,
    flat: Seq<R>,
)
    ensures
        lowered_tape_values(instructions, flat).len() == instructions.len(),
    decreases instructions.len(),
{
    if instructions.len() > 0 {
        lowered_tape_has_a_value_for_each(instructions.drop_last(), flat);
    }
}

/// The outputs of a program are the values that its output positions name, in order.
pub proof fn outputs_are_values_at_positions<F: Ring, R: Algebra<F>>(
    program: ConstraintProgram<F>,
    read: spec_fn(KernelInput) -> R,
    lowered: LoweredConstraintProgram<F>,
    flat: Seq<R>,
)
    ensures
        program.output_values(read).len() == program.outputs@.len(),
        forall|k: int|
            0 <= k < program.outputs@.len() ==> program.output_values(read)[k] == tape_values(
                program.instructions@,
                read,
            )[#[trigger] program.outputs@[k] as int],
        lowered.output_values(flat).len() == lowered.outputs@.len(),
        forall|k: int|
            0 <= k < lowered.outputs@.len() ==> lowered.output_values(flat)[k]
                == lowered_tape_values(
                lowered.instructions@,
                flat,
            )[#[trigger] lowered.outputs@[k] as int],
{
}

/// Lowering keeps every instruction, its operands, the outputs, the features and the degree; an
/// input becomes the slot that the layout gives it.
pub proof fn lowering_keeps_instructions<F>(
    program: ConstraintProgram<F>,
    lowered: LoweredConstraintProgram<F>,
    k: int,
)
    requires
        is_lowered_from(lowered, program),
        0 <= k < program.instructions@.len(),
    ensures
        lowered.instructions@.len() == program.instructions@.len(),
        lowered.outputs@ == program.outputs@,
        lowered.unsupported_features@ == program.unsupported_features@,
        lowered.max_constraint_degree == program.max_constraint_degree,
        match program.instructions@[k] {
            KernelInstruction::Constant(value) => lowered.instructions@[k]
                == LoweredKernelInstruction::Constant(value),
            KernelInstruction::Input(input) => {
                &&& lowered.instructions@[k] is Input
                &&& 0 <= lowered.input_layout.slot(input) <= usize::MAX
                    ==> lowered.instructions@[k]->slot == lowered.input_layout.slot(input)
            },
            KernelInstruction::Add { lhs, rhs } => lowered.instructions@[k] == (
            LoweredKernelInstruction::<F>::Add { lhs, rhs }),
            KernelInstruction::Sub { lhs, rhs } => lowered.instructions@[k] == (
            LoweredKernelInstruction::<F>::Sub { lhs, rhs }),
            KernelInstruction::Neg { src } => lowered.instructions@[k] == (
            LoweredKernelInstruction::<F>::Neg { src }),
            KernelInstruction::Mul { lhs, rhs } => lowered.instructions@[k] == (
            LoweredKernelInstruction::<F>::Mul { lhs, rhs }),
        },
{
}

/// Where the parts of a flat buffer start: the local main row, the next main row, then the
/// preprocessed, the permutation rows, the public values, the challenges and three selectors.
pub proof fn parts_follow_each_other(layout: ConstraintInputLayout, i: usize)
    ensures
        layout.slot(KernelInput::Main { row_offset: 0, column: i }) == i,
        layout.slot(KernelInput::Main { row_offset: 1, column: i }) == layout.main_width + i,
        layout.slot(KernelInput::Preprocessed { row_offset: 0, column: i })
            == layout.main_width + layout.main_width + i,
        layout.slot(KernelInput::Preprocessed { row_offset: 1, column: i })
            == layout.main_width + layout.main_width + layout.preprocessed_width + i,
        layout.slot(KernelInput::Permutation { row_offset: 0, column: i })
            == layout.main_width + layout.main_width + layout.preprocessed_width
            + layout.preprocessed_width + i,
        layout.slot(KernelInput::Permutation { row_offset: 1, column: i })
            == layout.main_width + layout.main_width + layout.preprocessed_width
            + layout.preprocessed_width + layout.permutation_width + i,
        layout.slot(KernelInput::Public { index: i }) == layout.main_width + layout.main_width
            + layout.preprocessed_width + layout.preprocessed_width + layout.permutation_width
            + layout.permutation_width + i,
        layout.slot(KernelInput::Challenge { index: i }) == layout.main_width + layout.main_width
            + layout.preprocessed_width + layout.preprocessed_width + layout.permutation_width
            + layout.permutation_width + layout.public_values + i,
        layout.slot(KernelInput::Selector(RowSelector::First)) == layout.slot_count() - 3,
        layout.slot(KernelInput::Selector(RowSelector::Last)) == layout.slot_count() - 2,
        layout.slot(KernelInput::Selector(RowSelector::Transition)) == layout.slot_count() - 1,
        layout.slot_count() == layout.main_width + layout.main_width + layout.preprocessed_width
            + layout.preprocessed_width + layout.permutation_width + layout.permutation_width
            + layout.public_values + layout.challenges + 3,
        layout.preprocessed_start() == layout.slot(
            KernelInput::Preprocessed { row_offset: 0, column: 0 },
        ),
        layout.permutation_start() == layout.slot(
            KernelInput::Permutation { row_offset: 0, column: 0 },
        ),
        layout.public_values_start() == layout.slot(KernelInput::Public { index: 0 }),
        layout.challenges_start() == layout.slot(KernelInput::Challenge { index: 0 }),
        layout.selectors_start() == layout.slot(KernelInput::Selector(RowSelector::First)),
{
}

/// A layout has room for no more than what is read: where it has room for columns, public values
/// or challenges, the last of them is read by some instruction.
pub proof fn layout_ends_with_what_is_read<F>(instructions: Seq<KernelInstruction<F>>)
    requires
        forall|j: int|
            0 <= j < instructions.len() ==> ((
            #[trigger] instructions[j]) matches KernelInstruction::Input(i) ==> i.has_next_index()),
    ensures
        layout_of(instructions).main_width > 0 ==> exists|j: int|
            0 <= j < instructions.len() && ((
            #[trigger] instructions[j]) matches KernelInstruction::Input(
                KernelInput::Main { column, .. },
            ) && column + 1 == layout_of(instructions).main_width),
        layout_of(instructions).preprocessed_width > 0 ==> exists|j: int|
            0 <= j < instructions.len() && ((
            #[trigger] instructions[j]) matches KernelInstruction::Input(
                KernelInput::Preprocessed { column, .. },
            ) && column + 1 == layout_of(instructions).preprocessed_width),
        layout_of(instructions).permutation_width > 0 ==> exists|j: int|
            0 <= j < instructions.len() && ((
            #[trigger] instructions[j]) matches KernelInstruction::Input(
                KernelInput::Permutation { column, .. },
            ) && column + 1 == layout_of(instructions).permutation_width),
        layout_of(instructions).public_values > 0 ==> exists|j: int|
            0 <= j < instructions.len() && ((
            #[trigger] instructions[j]) matches KernelInstruction::Input(
                KernelInput::Public { index },
            ) && index + 1 == layout_of(instructions).public_values),
        layout_of(instructions).challenges > 0 ==> exists|j: int|
            0 <= j < instructions.len() && ((
            #[trigger] instructions[j]) matches KernelInstruction::Input(
                KernelInput::Challenge { index },
            ) && index + 1 == layout_of(instructions).challenges),
        forall|j: int|
            0 <= j < instructions.len() ==> match #[trigger] instructions[j] {
                KernelInstruction::Input(KernelInput::Main { column, .. }) => column < layout_of(
                    instructions,
                ).main_width,
                KernelInstruction::Input(KernelInput::Preprocessed { column, .. }) => column
                    < layout_of(instructions).preprocessed_width,
                KernelInstruction::Input(KernelInput::Permutation { column, .. }) => column
                    < layout_of(instructions).permutation_width,
                KernelInstruction::Input(KernelInput::Public { index }) => index < layout_of(
                    instructions,
                ).public_values,
                KernelInstruction::Input(KernelInput::Challenge { index }) => index < layout_of(
                    instructions,
                ).challenges,
                _ => true,
            },
    decreases instructions.len(),
{
    if instructions.len() > 0 {
        let shorter = instructions.drop_last();
        let n = shorter.len() as int;
        let before = layout_of(shorter);
        let after = layout_of(instructions);
        assert forall|j: int| 0 <= j < n implies ((
        #[trigger] shorter[j]) matches KernelInstruction::Input(i) ==> i.has_next_index()) by {
            assert(shorter[j] == instructions[j]);
        }
        layout_ends_with_what_is_read(shorter);
        assert(instructions[n] == instructions.last());
        assert forall|j: int| 0 <= j < n implies #[trigger] instructions[j] == shorter[j] by {}
        if before.main_width > 0 && after.main_width == before.main_width {
            let j = choose|j: int|
                0 <= j < n && ((#[trigger] shorter[j]) matches KernelInstruction::Input(
                    KernelInput::Main { column, .. },
                ) && column + 1 == before.main_width);
            assert(instructions[j] == shorter[j]);
        }
        if before.preprocessed_width > 0 && after.preprocessed_width == before.preprocessed_width {
            let j = choose|j: int|
                0 <= j < n && ((#[trigger] shorter[j]) matches KernelInstruction::Input(
                    KernelInput::Preprocessed { column, .. },
                ) && column + 1 == before.preprocessed_width);
            assert(instructions[j] == shorter[j]);
        }
        if before.permutation_width > 0 && after.permutation_width == before.permutation_width {
            let j = choose|j: int|
                0 <= j < n && ((#[trigger] shorter[j]) matches KernelInstruction::Input(
                    KernelInput::Permutation { column, .. },
                ) && column + 1 == before.permutation_width);
            assert(instructions[j] == shorter[j]);
        }
        if before.public_values > 0 && after.public_values == before.public_values {
            let j = choose|j: int|
                0 <= j < n && ((#[trigger] shorter[j]) matches KernelInstruction::Input(
                    KernelInput::Public { index },
                ) && index + 1 == before.public_values);
            assert(instructions[j] == shorter[j]);
        }
        if before.challenges > 0 && after.challenges == before.challenges {
            let j = choose|j: int|
                0 <= j < n && ((#[trigger] shorter[j]) matches KernelInstruction::Input(
                    KernelInput::Challenge { index },
                ) && index + 1 == before.challenges);
            assert(instructions[j] == shorter[j]);
        }
    }
}

/// Which expressions a device cannot compute: permutation columns, public values, challenges and
/// row selectors.
pub proof fn feature_belongs_to_expression<F>(node: SymbolicExpression<F>)
    ensures
        node.feature() == Some(UnsupportedGpuFeature::PermutationInput) <==> (
        node matches SymbolicExpression::Variable(v) && v.entry is Permutation),
        node.feature() == Some(UnsupportedGpuFeature::PublicInput) <==> (
        node matches SymbolicExpression::Variable(v) && v.entry is Public),
        node.feature() == Some(UnsupportedGpuFeature::ChallengeInput) <==> (
        node matches SymbolicExpression::Variable(v) && v.entry is Challenge),
        node.feature() == Some(UnsupportedGpuFeature::RowSelector(RowSelector::First)) <==> node
            is IsFirstRow,
        node.feature() == Some(UnsupportedGpuFeature::RowSelector(RowSelector::Last)) <==> node
            is IsLastRow,
        node.feature() == Some(UnsupportedGpuFeature::RowSelector(RowSelector::Transition))
            <==> node is IsTransition,
{
}

/// Features are listed in the order in which the expressions that have them are computed.
pub proof fn features_come_in_order<F>(
    nodes: Seq<SymbolicExpression<F>>,
    order: Seq<usize>,
    id: usize,
)
    ensures
        features_of(nodes, Seq::<usize>::empty()).len() == 0,
        nodes[id as int].feature() is None ==> features_of(nodes, order.push(id)) == features_of(
            nodes,
            order,
        ),
        nodes[id as int].feature() matches Some(f) ==> (if features_of(nodes, order).contains(f) {
            features_of(nodes, order.push(id)) == features_of(nodes, order)
        } else {
            features_of(nodes, order.push(id)) == features_of(nodes, order).push(f)
        }),
{
    assert(order.push(id).drop_last() =~= order);
}

/// The degree of an expression: one for a column and for the first and last row selectors, zero
/// for constants, public values, challenges and the transition selector, and for the others the
/// one that they carry.
pub proof fn degree_of_expression<F>(node: SymbolicExpression<F>)
    ensures
        match node {
            SymbolicExpression::Variable(v) => node.degree() == if v.entry is Public
                || v.entry is Challenge {
                0int
            } else {
                1
            },
            SymbolicExpression::IsFirstRow => node.degree() == 1,
            SymbolicExpression::IsLastRow => node.degree() == 1,
            SymbolicExpression::IsTransition => node.degree() == 0,
            SymbolicExpression::Constant(_) => node.degree() == 0,
            SymbolicExpression::Add { degree_multiple, .. } => node.degree() == degree_multiple,
            SymbolicExpression::Sub { degree_multiple, .. } => node.degree() == degree_multiple,
            SymbolicExpression::Neg { degree_multiple, .. } => node.degree() == degree_multiple,
            SymbolicExpression::Mul { degree_multiple, .. } => node.degree() == degree_multiple,
        },
{
}

/// The largest degree of a list of expressions is that of one of them, and no other has a larger
/// one. It is zero where there are none.
pub proof fn largest_degree_is_maximum<F>(nodes: Seq<SymbolicExpression<F>>, ids: Seq<usize>)
    ensures
        forall|k: int|
            0 <= k < ids.len() ==> nodes[#[trigger] ids[k] as int].degree() <= largest_degree(
                nodes,
                ids,
            ),
        ids.len() == 0 ==> largest_degree(nodes, ids) == 0,
        ids.len() > 0 ==> exists|k: int|
            0 <= k < ids.len() && nodes[#[trigger] ids[k] as int].degree() == largest_degree(
                nodes,
                ids,
            ),
    decreases ids.len(),
{
    if ids.len() > 0 {
        let shorter = ids.drop_last();
        largest_degree_is_maximum(nodes, shorter);
        assert(ids[ids.len() - 1] == ids.last());
        assert forall|k: int| 0 <= k < ids.len() implies nodes[#[trigger] ids[k] as int].degree()
            <= largest_degree(nodes, ids) by {
            if k < shorter.len() {
                assert(shorter[k] == ids[k]);
            }
        }
        if shorter.len() > 0 {
            let k = choose|k: int|
                0 <= k < shorter.len() && nodes[#[trigger] shorter[k] as int].degree()
                    == largest_degree(nodes, shorter);
            assert(ids[k] == shorter[k]);
        }
    }
}

/// How many elements satisfy a predicate is how many a filter keeps.
pub proof fn count_is_length_of_filter<T>(items: Seq<T>, predicate: spec_fn(T) -> bool)
    ensures
        count(items, predicate) == items.filter(predicate).len(),
    decreases items.len(),
{
    reveal(Seq::filter);
    if items.len() > 0 {
        count_is_length_of_filter(items.drop_last(), predicate);
    }
}

/// Expressions are computed from left to right: an expression that is not computed yet comes
/// behind its left operand, which comes before its right one, and the constraints come one
/// after another.
pub proof fn expressions_are_computed_left_to_right<F>(
    nodes: Seq<SymbolicExpression<F>>,
    id: usize,
    order: Seq<usize>,
    ids: Seq<usize>,
)
    requires
        id < nodes.len(),
        forall|j: int|
            0 <= j < nodes[id as int].operands().len() ==> #[trigger] nodes[id as int].operands()[j]
                < id,
    ensures
        order.contains(id) ==> visit(nodes, id, order) == order,
        !order.contains(id) ==> match nodes[id as int] {
            SymbolicExpression::Add { x, y, .. } => visit(nodes, id, order) == visit(
                nodes,
                y,
                visit(nodes, x, order),
            ).push(id),
            SymbolicExpression::Sub { x, y, .. } => visit(nodes, id, order) == visit(
                nodes,
                y,
                visit(nodes, x, order),
            ).push(id),
            SymbolicExpression::Mul { x, y, .. } => visit(nodes, id, order) == visit(
                nodes,
                y,
                visit(nodes, x, order),
            ).push(id),
            SymbolicExpression::Neg { x, .. } => visit(nodes, id, order) == visit(
                nodes,
                x,
                order,
            ).push(id),
            _ => visit(nodes, id, order) == order.push(id),
        },
        visit_each(nodes, Seq::empty(), nodes.len() as int, order) == order,
        visit_each(nodes, ids.push(id), nodes.len() as int, order) == visit(
            nodes,
            id,
            visit_each(nodes, ids, nodes.len() as int, order),
        ),
{
    assert(ids.push(id).drop_last() =~= ids);
    let node = nodes[id as int];
    let bound = id as int;
    assert(visit_each(nodes, Seq::<usize>::empty(), bound, order) == order);
    match node {
        SymbolicExpression::Add { x, y, .. } => {
            both_operands_are_visited(nodes, x, y, bound, order, node.operands());
        },
        SymbolicExpression::Sub { x, y, .. } => {
            both_operands_are_visited(nodes, x, y, bound, order, node.operands());
        },
        SymbolicExpression::Mul { x, y, .. } => {
            both_operands_are_visited(nodes, x, y, bound, order, node.operands());
        },
        SymbolicExpression::Neg { x, .. } => {
            let operands = node.operands();
            assert(operands[0] == x);
            assert(operands.drop_last() =~= Seq::<usize>::empty());
            assert(operands.last() == x);
        },
        _ => {
            assert(node.operands() =~= Seq::<usize>::empty());
        },
    }
}

proof fn both_operands_are_visited<F>(
    nodes: Seq<SymbolicExpression<F>>,
    x: usize,
    y: usize,
    bound: int,
    order: Seq<usize>,
    operands: Seq<usize>,
)
    requires
        operands == seq![x, y],
        forall|j: int| 0 <= j < operands.len() ==> #[trigger] operands[j] < bound,
    ensures
        visit_each(nodes, operands, bound, order) == visit(nodes, y, visit(nodes, x, order)),
{
    assert(operands[0] == x && operands[1] == y);
    let left = operands.drop_last();
    assert(left.last() == x && left.len() == 1);
    assert(left.drop_last() =~= Seq::<usize>::empty());
    assert(visit_each(nodes, left.drop_last(), bound, order) == order);
    assert(visit_each(nodes, left, bound, order) == visit(nodes, x, order));
}

/// A compiled program has one instruction for each expression in the order of evaluation, of
/// the kind of the expression, and its operands are the positions of the operands.
pub proof fn instruction_has_kind_of_expression<F>(
    graph: SymbolicGraph<F>,
    program: ConstraintProgram<F>,
    k: int,
)
    requires
        is_compiled_from(program, graph),
        0 <= k < program.instructions@.len(),
    ensures
        program.instructions@.len() == evaluation_order(graph).len(),
        match graph.nodes@[evaluation_order(graph)[k] as int] {
            SymbolicExpression::Variable(variable) => program.instructions@[k]
                == KernelInstruction::<F>::Input(variable.input()),
            SymbolicExpression::IsFirstRow => program.instructions@[k] == KernelInstruction::<
                F,
            >::Input(KernelInput::Selector(RowSelector::First)),
            SymbolicExpression::IsLastRow => program.instructions@[k] == KernelInstruction::<
                F,
            >::Input(KernelInput::Selector(RowSelector::Last)),
            SymbolicExpression::IsTransition => program.instructions@[k] == KernelInstruction::<
                F,
            >::Input(KernelInput::Selector(RowSelector::Transition)),
            SymbolicExpression::Constant(value) => program.instructions@[k]
                == KernelInstruction::Constant(value),
            SymbolicExpression::Add { .. } => program.instructions@[k] is Add,
            SymbolicExpression::Sub { .. } => program.instructions@[k] is Sub,
            SymbolicExpression::Neg { .. } => program.instructions@[k] is Neg,
            SymbolicExpression::Mul { .. } => program.instructions@[k] is Mul,
        },
{
}

} // verus!
