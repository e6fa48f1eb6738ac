//! Why a compiled program has no larger degree than its constraints say.

use vstd::prelude::*;

use super::compile::{
    evaluation_order, evaluation_order_is_topological, features_are_those_of_nodes, instruction_for,
    is_compiled_from,
};
use super::lowered::{is_lowered_from, LoweredConstraintProgram, LoweredKernelInstruction};
use super::meaning_laws::largest_degree_is_maximum;
use super::program::ConstraintProgram;
use super::symbolic::{SymbolicExpression, SymbolicGraph};
use crate::program_degree::{degree_is_at_most, instruction_degree, tape_degrees};

verus! {

/// Whether every expression carries at least the degree that its operands give it: the larger one
/// for a sum or a difference, the same for a negation, and both together for a product.
pub open spec fn degrees_suffice<F>(nodes: Seq<SymbolicExpression<F>>) -> bool {
    forall|id: int|
        0 <= id < nodes.len() ==> match #[trigger] nodes[id] {
            SymbolicExpression::Add { x, y, .. } => nodes[id].degree() >= nodes[x as int].degree()
                && nodes[id].degree() >= nodes[y as int].degree(),
            SymbolicExpression::Sub { x, y, .. } => nodes[id].degree() >= nodes[x as int].degree()
                && nodes[id].degree() >= nodes[y as int].degree(),
            SymbolicExpression::Neg { x, .. } => nodes[id].degree() >= nodes[x as int].degree(),
            SymbolicExpression::Mul { x, y, .. } => nodes[id].degree() >= nodes[x as int].degree()
                + nodes[y as int].degree(),
            _ => true,
        }
}

/// The degree of an instruction is what it makes of the degrees before it.
proof fn tape_degree_at<F>(instructions: Seq<LoweredKernelInstruction<F>>, k: int)
    requires
        0 <= k < instructions.len(),
        instructions[k].operands_below(k),
    ensures
        tape_degrees(instructions).len() == instructions.len(),
        tape_degrees(instructions)[k] == instruction_degree(
            instructions[k],
            tape_degrees(instructions),
        ),
    decreases instructions.len(),
{
    let shorter = instructions.drop_last();
    tape_has_a_degree_for_each(instructions);
    tape_has_a_degree_for_each(shorter);
    if k < shorter.len() {
        tape_degree_at(shorter, k);
    }
}

proof fn tape_has_a_degree_for_each<F>(instructions: Seq<LoweredKernelInstruction<F>>)
    ensures
        tape_degrees(instructions).len() == instructions.len(),
    decreases instructions.len(),
{
    if instructions.len() > 0 {
        tape_has_a_degree_for_each(instructions.drop_last());
    }
}

/// An operand of an expression is computed before it.
proof fn operand_is_before<F>(graph: SymbolicGraph<F>, k: int, j: int)
    requires
        graph.well_formed(),
        0 <= k < evaluation_order(graph).len(),
        0 <= j < graph.nodes@[evaluation_order(graph)[k] as int].operands().len(),
    ensures
        ({
            let order = evaluation_order(graph);
            let operand = graph.nodes@[order[k] as int].operands()[j];
            &&& 0 <= order.index_of(operand) < k
            &&& order[order.index_of(operand)] == operand
        }),
{
    let order = evaluation_order(graph);
    evaluation_order_is_topological(graph);
    let operand = graph.nodes@[order[k] as int].operands()[j];
    assert(order.take(k).contains(operand));
    let p = choose|p: int| 0 <= p < order.take(k).len() && order.take(k)[p] == operand;
    assert(order[p] == operand);
    let q = order.index_of(operand);
    assert(order[q] == operand);
    assert(q == p);
}

/// The degree of the tape at a position is at most the degree of its expression.
proof fn tape_degree_is_bounded<F>(
    graph: SymbolicGraph<F>,
    program: ConstraintProgram<F>,
    lowered: LoweredConstraintProgram<F>,
    k: int,
)
    requires
        graph.well_formed(),
        is_compiled_from(program, graph),
        is_lowered_from(lowered, program),
        program.unsupported_features@.len() == 0,
        degrees_suffice(graph.nodes@),
        0 <= k < lowered.instructions@.len(),
    ensures
        tape_degrees(lowered.instructions@).len() == lowered.instructions@.len(),
        tape_degrees(lowered.instructions@)[k] <= graph.nodes@[evaluation_order(
            graph,
        )[k] as int].degree(),
    decreases k,
{
    let order = evaluation_order(graph);
    let nodes = graph.nodes@;
    let node = nodes[order[k] as int];
    let n = program.instructions.len();
    assert(order.len() == n);
    assert(program.instructions@[k] == instruction_for(node, order));
    evaluation_order_is_topological(graph);
    if let Some(feature) = node.feature() {
        features_are_those_of_nodes(nodes, order, feature);
        assert(program.unsupported_features@.contains(feature));
    }
    match node {
        SymbolicExpression::Add { x, y, .. } => {
            assert(node.operands()[0] == x && node.operands()[1] == y);
            operand_is_before(graph, k, 0);
            operand_is_before(graph, k, 1);
            tape_degree_is_bounded(graph, program, lowered, order.index_of(x));
            tape_degree_is_bounded(graph, program, lowered, order.index_of(y));
        },
        SymbolicExpression::Sub { x, y, .. } => {
            assert(node.operands()[0] == x && node.operands()[1] == y);
            operand_is_before(graph, k, 0);
            operand_is_before(graph, k, 1);
            tape_degree_is_bounded(graph, program, lowered, order.index_of(x));
            tape_degree_is_bounded(graph, program, lowered, order.index_of(y));
        },
        SymbolicExpression::Neg { x, .. } => {
            assert(node.operands()[0] == x);
            operand_is_before(graph, k, 0);
            tape_degree_is_bounded(graph, program, lowered, order.index_of(x));
        },
        SymbolicExpression::Mul { x, y, .. } => {
            assert(node.operands()[0] == x && node.operands()[1] == y);
            operand_is_before(graph, k, 0);
            operand_is_before(graph, k, 1);
            tape_degree_is_bounded(graph, program, lowered, order.index_of(x));
            tape_degree_is_bounded(graph, program, lowered, order.index_of(y));
        },
        _ => {},
    }
    tape_degree_at(lowered.instructions@, k);
}

/// A compiled program that a device can run has at most the degree that compilation finds, if every
/// expression carries at least the degree that its operands give it.
pub proof fn compiled_degree_is_bounded<F>(
    graph: SymbolicGraph<F>,
    program: ConstraintProgram<F>,
    lowered: LoweredConstraintProgram<F>,
)
    requires
        graph.well_formed(),
        is_compiled_from(program, graph),
        is_lowered_from(lowered, program),
        program.unsupported_features@.len() == 0,
        degrees_suffice(graph.nodes@),
    ensures
        degree_is_at_most(lowered, program.max_constraint_degree as nat),
{
    let order = evaluation_order(graph);
    evaluation_order_is_topological(graph);
    largest_degree_is_maximum(graph.nodes@, graph.constraints@);
    assert forall|k: int| 0 <= k < lowered.outputs@.len() implies tape_degrees(
        lowered.instructions@,
    )[#[trigger] lowered.outputs@[k] as int] <= program.max_constraint_degree by {
        let id = graph.constraints@[k];
        assert(order.contains(id));
        let p = order.index_of(id);
        assert(order[p] == id);
        assert(program.outputs@[k] == p);
        tape_degree_is_bounded(graph, program, lowered, p);
    }
}

} // verus!
