//! Compilation of symbolic constraints to instruction tapes.

use std::collections::HashMap;

use vstd::prelude::*;

use super::inputs::{KernelInput, RowSelector};
use super::meaning_laws::largest_degree_is_maximum;
use super::program::{tape_values, ConstraintProgram, KernelInstruction, UnsupportedGpuFeature};
use super::symbolic::{
    is_acyclic, node_value, occurs_in, Entry, SymbolicExpression, SymbolicGraph, SymbolicVariable,
};
use crate::field::{Algebra, Field, Ring};

verus! {

broadcast use vstd::std_specs::hash::group_hash_axioms;

/// The order in which nodes are computed, after `id` has been asked for: a node that
/// is not there yet is added behind its operands.
pub open spec fn visit<F>(
    nodes: Seq<SymbolicExpression<F>>,
    id: usize,
    order: Seq<usize>,
) -> Seq<usize>
    decreases id as int, nodes[id as int].operands().len() + 1,
{
    if order.contains(id) {
        order
    } else {
        visit_each(nodes, nodes[id as int].operands(), id as int, order).push(id)
    }
}

/// The order in which nodes are computed, after each of `ids`, all below `bound`, has
/// been asked for in turn.
pub open spec fn visit_each<F>(
    nodes: Seq<SymbolicExpression<F>>,
    ids: Seq<usize>,
    bound: int,
    order: Seq<usize>,
) -> Seq<usize>
    decreases bound, ids.len(),
{
    if ids.len() == 0 {
        order
    } else {
        let before = visit_each(nodes, ids.drop_last(), bound, order);
        if ids.last() < bound {
            visit(nodes, ids.last(), before)
        } else {
            before
        }
    }
}

/// The order in which the nodes of a graph are computed.
pub open spec fn evaluation_order<F>(graph: SymbolicGraph<F>) -> Seq<usize> {
    visit_each(graph.nodes@, graph.constraints@, graph.nodes@.len() as int, Seq::empty())
}

/// The instruction that computes a node from the positions of its operands.
pub open spec fn instruction_for<F>(
    node: SymbolicExpression<F>,
    order: Seq<usize>,
) -> KernelInstruction<F> {
    match node {
        SymbolicExpression::Variable(variable) => KernelInstruction::Input(variable.input()),
        SymbolicExpression::IsFirstRow => KernelInstruction::Input(
            KernelInput::Selector(RowSelector::First),
        ),
        SymbolicExpression::IsLastRow => KernelInstruction::Input(
            KernelInput::Selector(RowSelector::Last),
        ),
        SymbolicExpression::IsTransition => KernelInstruction::Input(
            KernelInput::Selector(RowSelector::Transition),
        ),
        SymbolicExpression::Constant(value) => KernelInstruction::Constant(value),
        SymbolicExpression::Add { x, y, .. } => KernelInstruction::Add {
            lhs: order.index_of(x) as usize,
            rhs: order.index_of(y) as usize,
        },
        SymbolicExpression::Sub { x, y, .. } => KernelInstruction::Sub {
            lhs: order.index_of(x) as usize,
            rhs: order.index_of(y) as usize,
        },
        SymbolicExpression::Neg { x, .. } => KernelInstruction::Neg {
            src: order.index_of(x) as usize,
        },
        SymbolicExpression::Mul { x, y, .. } => KernelInstruction::Mul {
            lhs: order.index_of(x) as usize,
            rhs: order.index_of(y) as usize,
        },
    }
}

/// The list with the feature added at its end, unless it is there.
pub open spec fn with_feature(
    features: Seq<UnsupportedGpuFeature>,
    feature: Option<UnsupportedGpuFeature>,
) -> Seq<UnsupportedGpuFeature> {
    match feature {
        Some(feature) => if features.contains(feature) {
            features
        } else {
            features.push(feature)
        },
        None => features,
    }
}

/// The features of the nodes, in the order in which each comes up first.
pub open spec fn features_of<F>(
    nodes: Seq<SymbolicExpression<F>>,
    order: Seq<usize>,
) -> Seq<UnsupportedGpuFeature>
    decreases order.len(),
{
    if order.len() == 0 {
        Seq::empty()
    } else {
        with_feature(features_of(nodes, order.drop_last()), nodes[order.last() as int].feature())
    }
}

/// The largest degree of the given nodes, or zero if there are none.
pub open spec fn largest_degree<F>(
    nodes: Seq<SymbolicExpression<F>>,
    ids: Seq<usize>,
) -> usize
    decreases ids.len(),
{
    if ids.len() == 0 {
        0
    } else {
        let before = largest_degree(nodes, ids.drop_last());
        let last = nodes[ids.last() as int].degree();
        if last > before {
            last
        } else {
            before
        }
    }
}

/// Whether every node comes once, and its operands before it.
pub open spec fn is_topological<F>(nodes: Seq<SymbolicExpression<F>>, order: Seq<usize>) -> bool {
    &&& order.no_duplicates()
    &&& forall|k: int| 0 <= k < order.len() ==> #[trigger] order[k] < nodes.len()
    &&& forall|k: int, j: int|
        0 <= k < order.len() && 0 <= j < nodes[order[k] as int].operands().len()
            ==> order.take(k).contains(#[trigger] nodes[order[k] as int].operands()[j])
}

/// Whether `longer` starts with `order`.
pub open spec fn extends(longer: Seq<usize>, order: Seq<usize>) -> bool {
    order.len() <= longer.len() && longer.take(order.len() as int) == order
}

proof fn extension_keeps_positions(longer: Seq<usize>, order: Seq<usize>, id: usize)
    requires
        extends(longer, order),
        longer.no_duplicates(),
        order.contains(id),
    ensures
        longer.contains(id),
        longer.index_of(id) == order.index_of(id),
        0 <= order.index_of(id) < order.len(),
        order[order.index_of(id)] == id,
{
    let k = order.index_of(id);
    assert(order[k] == id);
    assert(longer.take(order.len() as int)[k] == id);
    assert(longer[k] == id);
    let j = longer.index_of(id);
    assert(longer[j] == id);
}

proof fn extends_is_transitive(longest: Seq<usize>, longer: Seq<usize>, order: Seq<usize>)
    requires
        extends(longest, longer),
        extends(longer, order),
    ensures
        extends(longest, order),
{
    assert(longest.take(order.len() as int) =~= longer.take(order.len() as int));
}

proof fn visit_is_topological<F>(
    nodes: Seq<SymbolicExpression<F>>,
    id: usize,
    order: Seq<usize>,
)
    requires
        is_acyclic(nodes),
        id < nodes.len(),
        is_topological(nodes, order),
    ensures
        is_topological(nodes, visit(nodes, id, order)),
        extends(visit(nodes, id, order), order),
        visit(nodes, id, order).contains(id),
        forall|e: usize| #[trigger]
            visit(nodes, id, order).contains(e) ==> order.contains(e) || e <= id,
    decreases id as int, nodes[id as int].operands().len() + 1,
{
    if order.contains(id) {
        assert(order.take(order.len() as int) =~= order);
    } else {
        let operands = nodes[id as int].operands();
        assert forall|k: int| 0 <= k < operands.len() implies #[trigger] operands[k] < id by {
            assert(nodes[id as int].operands()[k] < id);
        }
        visit_each_is_topological(nodes, operands, id as int, order);
        let before = visit_each(nodes, operands, id as int, order);
        let after = before.push(id);
        assert(after.take(before.len() as int) =~= before);
        extends_is_transitive(after, before, order);
        assert(after[before.len() as int] == id);
        assert forall|k: int, j: int|
            0 <= k < after.len() && 0 <= j
                < nodes[after[k] as int].operands().len() implies after.take(k).contains(
            #[trigger] nodes[after[k] as int].operands()[j],
        ) by {
            if k < before.len() {
                assert(after.take(k) =~= before.take(k));
                assert(before.take(k).contains(nodes[before[k] as int].operands()[j]));
            } else {
                assert(after.take(k) =~= before);
                assert(before.contains(operands[j]));
            }
        }
        assert(!before.contains(id));
        assert(after.no_duplicates());
        assert forall|e: usize| #[trigger] after.contains(e) implies order.contains(e) || e <= id by {
            if e != id {
                let k = after.index_of(e);
                assert(before[k] == e);
                assert(before.contains(e));
            }
        }
    }
}

proof fn visit_each_is_topological<F>(
    nodes: Seq<SymbolicExpression<F>>,
    ids: Seq<usize>,
    bound: int,
    order: Seq<usize>,
)
    requires
        is_acyclic(nodes),
        bound <= nodes.len(),
        forall|k: int| 0 <= k < ids.len() ==> #[trigger] ids[k] < bound,
        is_topological(nodes, order),
    ensures
        is_topological(nodes, visit_each(nodes, ids, bound, order)),
        extends(visit_each(nodes, ids, bound, order), order),
        forall|k: int|
            0 <= k < ids.len() ==> visit_each(nodes, ids, bound, order).contains(#[trigger] ids[k]),
        forall|e: usize| #[trigger]
            visit_each(nodes, ids, bound, order).contains(e) ==> order.contains(e) || e < bound,
    decreases bound, ids.len(),
{
    if ids.len() == 0 {
        assert(order.take(order.len() as int) =~= order);
    } else {
        let shorter = ids.drop_last();
        assert forall|k: int| 0 <= k < shorter.len() implies #[trigger] shorter[k] < bound by {
            assert(ids[k] < bound);
        }
        assert(ids[ids.len() - 1] < bound);
        visit_each_is_topological(nodes, shorter, bound, order);
        let before = visit_each(nodes, shorter, bound, order);
        visit_is_topological(nodes, ids.last(), before);
        let after = visit(nodes, ids.last(), before);
        extends_is_transitive(after, before, order);
        assert forall|k: int| 0 <= k < ids.len() implies after.contains(#[trigger] ids[k]) by {
            if k < shorter.len() {
                assert(before.contains(shorter[k]));
                extension_keeps_positions(after, before, ids[k]);
            }
        }
    }
}

/// A node that already has its place keeps its instruction when the order grows.
proof fn instruction_is_stable<F>(
    node: SymbolicExpression<F>,
    longer: Seq<usize>,
    order: Seq<usize>,
)
    requires
        extends(longer, order),
        longer.no_duplicates(),
        forall|j: int|
            0 <= j < node.operands().len() ==> order.contains(#[trigger] node.operands()[j]),
    ensures
        instruction_for(node, longer) == instruction_for(node, order),
{
    assert forall|j: int| 0 <= j < node.operands().len() implies longer.index_of(
        #[trigger] node.operands()[j],
    ) == order.index_of(node.operands()[j]) by {
        extension_keeps_positions(longer, order, node.operands()[j]);
    }
    match node {
        SymbolicExpression::Add { x, y, .. } => {
            assert(node.operands()[0] == x && node.operands()[1] == y);
        },
        SymbolicExpression::Sub { x, y, .. } => {
            assert(node.operands()[0] == x && node.operands()[1] == y);
        },
        SymbolicExpression::Neg { x, .. } => {
            assert(node.operands()[0] == x);
        },
        SymbolicExpression::Mul { x, y, .. } => {
            assert(node.operands()[0] == x && node.operands()[1] == y);
        },
        _ => {},
    }
}

/// The instructions of the nodes in an order.
pub open spec fn instructions_of<F>(
    nodes: Seq<SymbolicExpression<F>>,
    order: Seq<usize>,
) -> Seq<KernelInstruction<F>> {
    Seq::new(order.len(), |k: int| instruction_for(nodes[order[k] as int], order))
}

proof fn pushing_adds_one_instruction<F>(
    nodes: Seq<SymbolicExpression<F>>,
    order: Seq<usize>,
    id: usize,
)
    requires
        is_topological(nodes, order.push(id)),
    ensures
        instructions_of(nodes, order.push(id)) == instructions_of(nodes, order).push(
            instruction_for(nodes[id as int], order),
        ),
        features_of(nodes, order.push(id)) == with_feature(
            features_of(nodes, order),
            nodes[id as int].feature(),
        ),
{
    let after = order.push(id);
    assert(after.take(order.len() as int) =~= order);
    assert(after.drop_last() =~= order);
    let n = order.len() as int;
    assert(after[n] == id);
    assert forall|k: int| 0 <= k < after.len() implies #[trigger] instruction_for(
        nodes[after[k] as int],
        after,
    ) == instruction_for(nodes[after[k] as int], order) by {
        let node = nodes[after[k] as int];
        assert forall|j: int| 0 <= j < node.operands().len() implies order.contains(
            #[trigger] node.operands()[j],
        ) by {
            assert(after.take(k).contains(nodes[after[k] as int].operands()[j]));
            let i = after.take(k).index_of(node.operands()[j]);
            assert(order[i] == node.operands()[j]);
        }
        instruction_is_stable(node, after, order);
    }
    assert(instructions_of(nodes, after) =~= instructions_of(nodes, order).push(
        instruction_for(nodes[id as int], order),
    ));
}

/// Adding a feature twice is adding it once, and a list without duplicates stays one that
/// starts with the features that were there.
pub proof fn feature_is_added_once(
    features: Seq<UnsupportedGpuFeature>,
    feature: UnsupportedGpuFeature,
)
    requires
        features.no_duplicates(),
    ensures
        features.contains(feature) ==> with_feature(features, Some(feature)) == features,
        !features.contains(feature) ==> with_feature(features, Some(feature)) == features + seq![
            feature,
        ],
        with_feature(features, Some(feature)).no_duplicates(),
        with_feature(features, Some(feature)).contains(feature),
        with_feature(features, Some(feature)).take(features.len() as int) == features,
        with_feature(with_feature(features, Some(feature)), Some(feature)) == with_feature(
            features,
            Some(feature),
        ),
{
    let after = with_feature(features, Some(feature));
    assert(after.take(features.len() as int) =~= features);
    if !features.contains(feature) {
        assert(after[features.len() as int] == feature);
        assert(after =~= features + seq![feature]);
    }
}

/// What holds of a partly compiled program once the nodes in `order` are compiled.
pub open spec fn has_compiled<F>(
    nodes: Seq<SymbolicExpression<F>>,
    order: Seq<usize>,
    instructions: Seq<KernelInstruction<F>>,
    features: Seq<UnsupportedGpuFeature>,
    memo: Map<usize, usize>,
) -> bool {
    &&& is_topological(nodes, order)
    &&& instructions == instructions_of(nodes, order)
    &&& features == features_of(nodes, order)
    &&& forall|id: usize| #[trigger] memo.contains_key(id) <==> order.contains(id)
    &&& forall|id: usize| #[trigger] memo.contains_key(id) ==> memo[id] == order.index_of(id)
}

/// Compiling more nodes keeps the instructions and the positions of those that are compiled.
proof fn compiled_part_is_kept<F>(
    nodes: Seq<SymbolicExpression<F>>,
    longer: Seq<usize>,
    order: Seq<usize>,
)
    requires
        extends(longer, order),
        is_topological(nodes, longer),
        is_topological(nodes, order),
    ensures
        instructions_of(nodes, longer).take(order.len() as int) == instructions_of(nodes, order),
        forall|id: usize| #[trigger]
            order.contains(id) ==> longer.contains(id) && longer.index_of(id) == order.index_of(
                id,
            ),
{
    let kept = instructions_of(nodes, longer).take(order.len() as int);
    assert forall|k: int| 0 <= k < order.len() implies #[trigger] kept[k] == instructions_of(
        nodes,
        order,
    )[k] by {
        let node = nodes[order[k] as int];
        assert(longer.take(order.len() as int)[k] == longer[k]);
        assert forall|j: int| 0 <= j < node.operands().len() implies order.contains(
            #[trigger] node.operands()[j],
        ) by {
            assert(order.take(k).contains(nodes[order[k] as int].operands()[j]));
            let i = order.take(k).index_of(node.operands()[j]);
            assert(order[i] == node.operands()[j]);
        }
        instruction_is_stable(node, longer, order);
    }
    assert(kept =~= instructions_of(nodes, order));
    assert forall|id: usize| #[trigger] order.contains(id) implies longer.contains(id)
        && longer.index_of(id) == order.index_of(id) by {
        extension_keeps_positions(longer, order, id);
    }
}

/// Compiling a node keeps the instructions and the positions that are there and gives the node a
/// position among the instructions. Compiling it a second time gives the same position and
/// changes nothing.
pub proof fn compiling_again_changes_nothing<F>(
    nodes: Seq<SymbolicExpression<F>>,
    id: usize,
    order: Seq<usize>,
    before: (Seq<KernelInstruction<F>>, Seq<UnsupportedGpuFeature>, Map<usize, usize>),
    once: (Seq<KernelInstruction<F>>, Seq<UnsupportedGpuFeature>, Map<usize, usize>),
    twice: (Seq<KernelInstruction<F>>, Seq<UnsupportedGpuFeature>, Map<usize, usize>),
)
    requires
        is_acyclic(nodes),
        id < nodes.len(),
        has_compiled(nodes, order, before.0, before.1, before.2),
        has_compiled(nodes, visit(nodes, id, order), once.0, once.1, once.2),
        has_compiled(
            nodes,
            visit(nodes, id, visit(nodes, id, order)),
            twice.0,
            twice.1,
            twice.2,
        ),
    ensures
        once.0.take(before.0.len() as int) == before.0,
        before.2.submap_of(once.2),
        once.2.contains_key(id),
        0 <= once.2[id] < once.0.len(),
        visit(nodes, id, visit(nodes, id, order)).index_of(id) == visit(
            nodes,
            id,
            order,
        ).index_of(id),
        twice.0 == once.0,
        twice.1 == once.1,
        twice.2 == once.2,
{
    let after = visit(nodes, id, order);
    visit_is_topological(nodes, id, order);
    compiled_part_is_kept(nodes, after, order);
    assert(visit(nodes, id, after) == after);
    assert(after.contains(id));
    let k = after.index_of(id);
    assert(after[k] == id);
    assert(once.2.contains_key(id));
    assert(once.0.len() == after.len());
    assert forall|e: usize| before.2.contains_key(e) implies #[trigger] once.2.contains_key(e)
        && once.2[e] == before.2[e] by {
        assert(order.contains(e));
    }
    assert(before.2.submap_of(once.2));
    assert(twice.2 =~= once.2) by {
        assert forall|e: usize| twice.2.contains_key(e) <==> #[trigger] once.2.contains_key(e) by {}
    }
}

proof fn position_after_push(order: Seq<usize>, id: usize)
    requires
        order.push(id).no_duplicates(),
    ensures
        order.push(id).contains(id),
        order.push(id).index_of(id) == order.len(),
        !order.contains(id),
        forall|e: usize|
            order.push(id).contains(e) <==> #[trigger] order.contains(e) || e == id,
        forall|e: usize| #[trigger]
            order.contains(e) ==> order.push(id).index_of(e) == order.index_of(e),
{
    let after = order.push(id);
    assert(after[order.len() as int] == id);
    let k = after.index_of(id);
    assert(after[k] == id);
    if order.contains(id) {
        let j = order.index_of(id);
        assert(after[j] == id);
        assert(false);
    }
    assert forall|e: usize| after.contains(e) <==> #[trigger] order.contains(e) || e == id by {
        if after.contains(e) && e != id {
            let j = after.index_of(e);
            assert(order[j] == e);
        }
        if order.contains(e) {
            let j = order.index_of(e);
            assert(after[j] == e);
        }
    }
    assert(after.take(order.len() as int) =~= order);
    assert forall|e: usize| #[trigger] order.contains(e) implies after.index_of(e)
        == order.index_of(e) by {
        extension_keeps_positions(after, order, e);
    }
}

/// Adds a feature to the list, unless it is there.
pub(crate) fn push_unsupported(
    unsupported_features: &mut Vec<UnsupportedGpuFeature>,
    feature: UnsupportedGpuFeature,
)
    ensures
        final(unsupported_features)@ == with_feature(old(unsupported_features)@, Some(feature)),
        old(unsupported_features)@.no_duplicates()
            ==> final(unsupported_features)@.no_duplicates(),
{
    proof {
        if unsupported_features@.no_duplicates() {
            feature_is_added_once(unsupported_features@, feature);
        }
    }
    let mut k: usize = 0;
    while k < unsupported_features.len()
        invariant
            k <= unsupported_features@.len(),
            unsupported_features@ == old(unsupported_features)@,
            forall|j: int| 0 <= j < k ==> #[trigger] unsupported_features@[j] != feature,
        decreases unsupported_features@.len() - k,
    {
        if unsupported_features[k] == feature {
            assert(unsupported_features@.contains(feature));
            return ;
        }
        k += 1;
    }
    unsupported_features.push(feature);
}

/// The input of a variable; its feature is added to the list.
fn kernel_input_for_variable(
    variable: &SymbolicVariable,
    unsupported_features: &mut Vec<UnsupportedGpuFeature>,
) -> (r: KernelInput)
    ensures
        r == variable.input(),
        match variable.entry {
            Entry::Main { offset } => r == (KernelInput::Main {
                row_offset: offset,
                column: variable.index,
            }),
            Entry::Preprocessed { offset } => r == (KernelInput::Preprocessed {
                row_offset: offset,
                column: variable.index,
            }),
            Entry::Permutation { offset } => r == (KernelInput::Permutation {
                row_offset: offset,
                column: variable.index,
            }),
            Entry::Public => r == (KernelInput::Public { index: variable.index }),
            Entry::Challenge => r == (KernelInput::Challenge { index: variable.index }),
        },
        final(unsupported_features)@ == with_feature(
            old(unsupported_features)@,
            variable.feature(),
        ),
{
    match variable.entry {
        Entry::Main { offset } => KernelInput::Main { row_offset: offset, column: variable.index },
        Entry::Preprocessed { offset } => KernelInput::Preprocessed {
            row_offset: offset,
            column: variable.index,
        },
        Entry::Permutation { offset } => {
            push_unsupported(unsupported_features, UnsupportedGpuFeature::PermutationInput);
            KernelInput::Permutation { row_offset: offset, column: variable.index }
        },
        Entry::Public => {
            push_unsupported(unsupported_features, UnsupportedGpuFeature::PublicInput);
            KernelInput::Public { index: variable.index }
        },
        Entry::Challenge => {
            push_unsupported(unsupported_features, UnsupportedGpuFeature::ChallengeInput);
            KernelInput::Challenge { index: variable.index }
        },
    }
}

/// Appends an instruction and returns its position.
fn push_instruction<F>(
    program: &mut ConstraintProgram<F>,
    instruction: KernelInstruction<F>,
) -> (r: usize)
    ensures
        r == old(program).instructions@.len(),
        final(program).instructions@ == old(program).instructions@.push(instruction),
        final(program).outputs == old(program).outputs,
        final(program).unsupported_features == old(program).unsupported_features,
        final(program).max_constraint_degree == old(program).max_constraint_degree,
{
    let id: usize = program.instructions.len();
    program.instructions.push(instruction);
    id
}

/// Appends the instructions that node `id` still needs and returns the position of its
/// own.
pub(crate) fn compile_expression<F: Field>(
    nodes: &Vec<SymbolicExpression<F>>,
    id: usize,
    program: &mut ConstraintProgram<F>,
    memo: &mut HashMap<usize, usize>,
    Ghost(order): Ghost<Seq<usize>>,
) -> (r: usize)
    requires
        is_acyclic(nodes@),
        id < nodes@.len(),
        has_compiled(
            nodes@,
            order,
            old(program).instructions@,
            old(program).unsupported_features@,
            old(memo)@,
        ),
    ensures
        has_compiled(
            nodes@,
            visit(nodes@, id, order),
            final(program).instructions@,
            final(program).unsupported_features@,
            final(memo)@,
        ),
        r == visit(nodes@, id, order).index_of(id),
        r < final(program).instructions@.len(),
        final(memo)@.contains_key(id),
        final(memo)@[id] == r,
        old(memo)@.contains_key(id) ==> {
            &&& r == old(memo)@[id]
            &&& *final(program) == *old(program)
            &&& final(memo)@ == old(memo)@
        },
        final(program).instructions@.take(old(program).instructions@.len() as int)
            == old(program).instructions@,
        old(memo)@.submap_of(final(memo)@),
        final(program).outputs == old(program).outputs,
        final(program).max_constraint_degree == old(program).max_constraint_degree,
    decreases id, 1nat,
{
    let ghost state = (program.instructions@, program.unsupported_features@, memo@);
    if let Some(cached) = memo.get(&id) {
        proof {
            compiling_again_changes_nothing(nodes@, id, order, state, state, state);
        }
        return *cached;
    }
    let ghost operands = nodes@[id as int].operands();
    let ghost before = visit_each(nodes@, operands, id as int, order);
    proof {
        assert(!order.contains(id));
        visit_is_topological(nodes@, id, order);
        assert forall|k: int| 0 <= k < operands.len() implies #[trigger] operands[k] < id by {
            assert(nodes@[id as int].operands()[k] < id);
        }
        visit_each_is_topological(nodes@, operands, id as int, order);
        reveal_with_fuel(visit_each, 3);
        assert(visit(nodes@, id, order) == before.push(id));
    }
    let instruction = match &nodes[id] {
        SymbolicExpression::Variable(variable) => {
            let input = kernel_input_for_variable(variable, &mut program.unsupported_features);
            KernelInstruction::Input(input)
        },
        SymbolicExpression::IsFirstRow => {
            push_unsupported(
                &mut program.unsupported_features,
                UnsupportedGpuFeature::RowSelector(RowSelector::First),
            );
            KernelInstruction::Input(KernelInput::Selector(RowSelector::First))
        },
        SymbolicExpression::IsLastRow => {
            push_unsupported(
                &mut program.unsupported_features,
                UnsupportedGpuFeature::RowSelector(RowSelector::Last),
            );
            KernelInstruction::Input(KernelInput::Selector(RowSelector::Last))
        },
        SymbolicExpression::IsTransition => {
            push_unsupported(
                &mut program.unsupported_features,
                UnsupportedGpuFeature::RowSelector(RowSelector::Transition),
            );
            KernelInstruction::Input(KernelInput::Selector(RowSelector::Transition))
        },
        SymbolicExpression::Constant(value) => KernelInstruction::Constant(*value),
        SymbolicExpression::Add { x, y, .. } => {
            let (lhs, rhs) = compile_pair(nodes, *x, *y, id, program, memo, Ghost(order));
            KernelInstruction::Add { lhs, rhs }
        },
        SymbolicExpression::Sub { x, y, .. } => {
            let (lhs, rhs) = compile_pair(nodes, *x, *y, id, program, memo, Ghost(order));
            KernelInstruction::Sub { lhs, rhs }
        },
        SymbolicExpression::Neg { x, .. } => {
            proof {
                assert(operands[0] == *x);
                assert(operands.drop_last() =~= Seq::empty());
            }
            let src = compile_expression(nodes, *x, program, memo, Ghost(order));
            KernelInstruction::Neg { src }
        },
        SymbolicExpression::Mul { x, y, .. } => {
            let (lhs, rhs) = compile_pair(nodes, *x, *y, id, program, memo, Ghost(order));
            KernelInstruction::Mul { lhs, rhs }
        },
    };
    let position = push_instruction(program, instruction);
    memo.insert(id, position);
    proof {
        pushing_adds_one_instruction(nodes@, before, id);
        position_after_push(before, id);
        let now = (program.instructions@, program.unsupported_features@, memo@);
        compiling_again_changes_nothing(nodes@, id, order, state, now, now);
    }
    position
}

/// Compiles the operands `x` and `y` of node `id` in turn and returns their positions.
fn compile_pair<F: Field>(
    nodes: &Vec<SymbolicExpression<F>>,
    x: usize,
    y: usize,
    id: usize,
    program: &mut ConstraintProgram<F>,
    memo: &mut HashMap<usize, usize>,
    Ghost(order): Ghost<Seq<usize>>,
) -> (r: (usize, usize))
    requires
        is_acyclic(nodes@),
        x < id,
        y < id,
        id < nodes@.len(),
        has_compiled(
            nodes@,
            order,
            old(program).instructions@,
            old(program).unsupported_features@,
            old(memo)@,
        ),
    ensures
        has_compiled(
            nodes@,
            visit_each(nodes@, seq![x, y], id as int, order),
            final(program).instructions@,
            final(program).unsupported_features@,
            final(memo)@,
        ),
        r.0 == visit_each(nodes@, seq![x, y], id as int, order).index_of(x),
        r.1 == visit_each(nodes@, seq![x, y], id as int, order).index_of(y),
        final(program).outputs == old(program).outputs,
        final(program).max_constraint_degree == old(program).max_constraint_degree,
    decreases id, 0nat,
{
    let ghost after_x = visit(nodes@, x, order);
    let ghost after_y = visit(nodes@, y, after_x);
    proof {
        reveal_with_fuel(visit_each, 3);
        assert(seq![x, y].drop_last() =~= seq![x]);
        assert(seq![x].drop_last() =~= Seq::empty());
        visit_is_topological(nodes@, x, order);
        visit_is_topological(nodes@, y, after_x);
        extension_keeps_positions(after_y, after_x, x);
    }
    let lhs: usize = compile_expression(nodes, x, program, memo, Ghost(order));
    let rhs: usize = compile_expression(nodes, y, program, memo, Ghost(after_x));
    (lhs, rhs)
}

/// Whether a program is what compiling a graph gives.
pub open spec fn is_compiled_from<F>(
    program: ConstraintProgram<F>,
    graph: SymbolicGraph<F>,
) -> bool {
    let order = evaluation_order(graph);
    &&& program.instructions@ == instructions_of(graph.nodes@, order)
    &&& program.outputs@.len() == graph.constraints@.len()
    &&& forall|k: int|
        0 <= k < program.outputs@.len() ==> #[trigger] program.outputs@[k] == order.index_of(
            graph.constraints@[k],
        )
    &&& program.unsupported_features@ == features_of(graph.nodes@, order)
    &&& program.max_constraint_degree == largest_degree(graph.nodes@, graph.constraints@)
}

/// Compiles the constraints of a graph to one tape. Every node that occurs in a
/// constraint is computed by one instruction, behind those of its operands.
#[must_use]
pub fn compile_air_constraint_program<F: Field>(graph: &SymbolicGraph<F>) -> (r: ConstraintProgram<
    F,
>)
    requires
        graph.well_formed(),
    ensures
        r.well_formed(),
        is_compiled_from(r, *graph),
        r.outputs@.len() == graph.constraints@.len(),
        forall|k: int|
            0 <= k < graph.constraints@.len() ==> graph.nodes@[#[trigger] graph.constraints@[k] as
                int].degree() <= r.max_constraint_degree,
        graph.constraints@.len() == 0 ==> r.max_constraint_degree == 0,
        graph.constraints@.len() > 0 ==> exists|k: int|
            0 <= k < graph.constraints@.len() && graph.nodes@[#[trigger] graph.constraints@[k] as
                int].degree() == r.max_constraint_degree,
{
    let mut program = ConstraintProgram {
        instructions: Vec::new(),
        outputs: Vec::with_capacity(graph.constraints.len()),
        unsupported_features: Vec::new(),
        max_constraint_degree: max_degree(graph),
    };
    let mut memo: HashMap<usize, usize> = HashMap::new();
    let ghost nodes = graph.nodes@;
    let ghost ids = graph.constraints@;
    let ghost bound = graph.nodes@.len() as int;
    let mut k: usize = 0;
    assert(ids.take(0) =~= Seq::empty());
    assert(program.instructions@ =~= instructions_of(nodes, Seq::empty()));
    while k < graph.constraints.len()
        invariant
            graph.well_formed(),
            nodes == graph.nodes@,
            ids == graph.constraints@,
            bound == graph.nodes@.len(),
            k <= ids.len(),
            program.max_constraint_degree == largest_degree(nodes, ids),
            has_compiled(
                nodes,
                visit_each(nodes, ids.take(k as int), bound, Seq::empty()),
                program.instructions@,
                program.unsupported_features@,
                memo@,
            ),
            program.outputs@.len() == k,
            forall|j: int|
                0 <= j < k ==> visit_each(
                    nodes,
                    ids.take(k as int),
                    bound,
                    Seq::empty(),
                ).contains(#[trigger] ids[j]) && program.outputs@[j] == visit_each(
                    nodes,
                    ids.take(k as int),
                    bound,
                    Seq::empty(),
                ).index_of(ids[j]),
        decreases ids.len() - k,
    {
        let ghost before = visit_each(nodes, ids.take(k as int), bound, Seq::empty());
        let ghost after = visit(nodes, ids[k as int], before);
        assert(graph.constraints@[k as int] < graph.nodes@.len());
        let output: usize = compile_expression(
            &graph.nodes,
            graph.constraints[k],
            &mut program,
            &mut memo,
            Ghost(before),
        );
        program.outputs.push(output);
        proof {
            assert(ids.take(k + 1).drop_last() =~= ids.take(k as int));
            assert(after == visit_each(nodes, ids.take(k + 1), bound, Seq::empty()));
            visit_is_topological(nodes, ids[k as int], before);
            assert forall|j: int| 0 <= j < k + 1 implies after.contains(
                #[trigger] ids[j],
            ) && program.outputs@[j] == after.index_of(ids[j]) by {
                if j < k {
                    extension_keeps_positions(after, before, ids[j]);
                }
            }
        }
        k += 1;
    }
    proof {
        largest_degree_is_maximum(nodes, ids);
        assert(ids.take(k as int) =~= ids);
        let order = evaluation_order(*graph);
        evaluation_order_is_topological(*graph);
        assert(graph.nodes@.len() == graph.nodes.len());
        instructions_are_well_formed(nodes, order);
        assert forall|j: int| 0 <= j < program.outputs@.len() implies #[trigger] program.outputs@[j]
            < program.instructions@.len() by {
            assert(order.contains(ids[j]));
            assert(order[order.index_of(ids[j])] == ids[j]);
        }
    }
    program
}

/// The largest degree of a constraint, or zero if there are none.
fn max_degree<F>(graph: &SymbolicGraph<F>) -> (r: usize)
    requires
        graph.well_formed(),
    ensures
        r == largest_degree(graph.nodes@, graph.constraints@),
{
    let mut degree: usize = 0;
    let mut k: usize = 0;
    while k < graph.constraints.len()
        invariant
            graph.well_formed(),
            k <= graph.constraints@.len(),
            degree == largest_degree(graph.nodes@, graph.constraints@.take(k as int)),
        decreases graph.constraints@.len() - k,
    {
        assert(graph.constraints@.take(k + 1).drop_last() =~= graph.constraints@.take(k as int));
        assert(graph.constraints@[k as int] < graph.nodes@.len());
        let next: usize = graph.nodes[graph.constraints[k]].degree_multiple();
        if next > degree {
            degree = next;
        }
        k += 1;
    }
    assert(graph.constraints@.take(k as int) =~= graph.constraints@);
    degree
}

/// In the evaluation order every node comes once, behind its operands, and every
/// constraint is there.
pub proof fn evaluation_order_is_topological<F>(graph: SymbolicGraph<F>)
    requires
        graph.well_formed(),
    ensures
        is_topological(graph.nodes@, evaluation_order(graph)),
        forall|k: int|
            0 <= k < graph.constraints@.len() ==> evaluation_order(graph).contains(
                #[trigger] graph.constraints@[k],
            ),
{
    visit_each_is_topological(
        graph.nodes@,
        graph.constraints@,
        graph.nodes@.len() as int,
        Seq::empty(),
    );
}

/// In a topological order, an operand's position is below that of its node.
proof fn operand_position<F>(
    nodes: Seq<SymbolicExpression<F>>,
    order: Seq<usize>,
    k: int,
    j: int,
)
    requires
        is_topological(nodes, order),
        0 <= k < order.len(),
        0 <= j < nodes[order[k] as int].operands().len(),
    ensures
        0 <= order.index_of(nodes[order[k] as int].operands()[j]) < k,
        order[order.index_of(nodes[order[k] as int].operands()[j])]
            == nodes[order[k] as int].operands()[j],
{
    let operand = nodes[order[k] as int].operands()[j];
    let before = order.take(k);
    assert(before.contains(operand));
    extension_keeps_positions(order, before, operand);
}

/// An order without repetition holds at most every node.
proof fn order_fits<F>(nodes: Seq<SymbolicExpression<F>>, order: Seq<usize>)
    requires
        is_topological(nodes, order),
    ensures
        order.len() <= nodes.len(),
{
    let ints = vstd::set_lib::set_int_range(0, nodes.len() as int);
    vstd::set_lib::lemma_int_range(0, nodes.len() as int);
    let wide = order.map_values(|id: usize| id as int);
    assert(wide.no_duplicates());
    wide.unique_seq_to_set();
    assert(wide.to_set().subset_of(ints)) by {
        assert forall|e: int| #[trigger] wide.to_set().contains(e) implies ints.contains(e) by {
            let k = wide.index_of(e);
            assert(order[k] < nodes.len());
        }
    }
    vstd::set_lib::lemma_len_subset(wide.to_set(), ints);
}

proof fn instructions_are_well_formed<F>(nodes: Seq<SymbolicExpression<F>>, order: Seq<usize>)
    requires
        is_topological(nodes, order),
        nodes.len() <= usize::MAX,
    ensures
        forall|k: int|
            0 <= k < order.len() ==> (#[trigger] instructions_of(nodes, order)[k]).operands_below(
                k,
            ),
{
    order_fits(nodes, order);
    assert forall|k: int| 0 <= k < order.len() implies (#[trigger] instructions_of(
        nodes,
        order,
    )[k]).operands_below(k) by {
        let node = nodes[order[k] as int];
        assert forall|j: int| 0 <= j < node.operands().len() implies 0 <= order.index_of(
            #[trigger] node.operands()[j],
        ) < k by {
            operand_position(nodes, order, k, j);
        }
        match node {
            SymbolicExpression::Add { x, y, .. } => {
                assert(node.operands()[0] == x && node.operands()[1] == y);
            },
            SymbolicExpression::Sub { x, y, .. } => {
                assert(node.operands()[0] == x && node.operands()[1] == y);
            },
            SymbolicExpression::Neg { x, .. } => {
                assert(node.operands()[0] == x);
            },
            SymbolicExpression::Mul { x, y, .. } => {
                assert(node.operands()[0] == x && node.operands()[1] == y);
            },
            _ => {},
        }
    }
}

proof fn tape_computes_nodes<F: Ring, R: Algebra<F>>(
    nodes: Seq<SymbolicExpression<F>>,
    order: Seq<usize>,
    read: spec_fn(KernelInput) -> R,
    n: nat,
)
    requires
        is_acyclic(nodes),
        nodes.len() <= usize::MAX,
        is_topological(nodes, order),
        n <= order.len(),
    ensures
        tape_values(instructions_of(nodes, order).take(n as int), read).len() == n,
        forall|k: int|
            0 <= k < n ==> #[trigger] tape_values(
                instructions_of(nodes, order).take(n as int),
                read,
            )[k] == node_value(nodes, order[k] as nat, read),
    decreases n,
{
    if n > 0 {
        let m = (n - 1) as nat;
        let instructions = instructions_of(nodes, order);
        tape_computes_nodes(nodes, order, read, m);
        assert(instructions.take(n as int).drop_last() =~= instructions.take(m as int));
        let values = tape_values(instructions.take(m as int), read);
        let id = order[m as int];
        let node = nodes[id as int];
        order_fits(nodes, order);
        assert(order[m as int] < nodes.len());
        assert forall|j: int| 0 <= j < node.operands().len() implies {
            let operand = #[trigger] node.operands()[j];
            &&& operand < id
            &&& 0 <= order.index_of(operand) < m
            &&& values[order.index_of(operand)] == node_value(nodes, operand as nat, read)
        } by {
            operand_position(nodes, order, m as int, j);
            assert(nodes[id as int].operands()[j] < id);
            let p = order.index_of(node.operands()[j]);
            assert(values[p] == node_value(nodes, order[p] as nat, read));
        }
        match node {
            SymbolicExpression::Add { x, y, .. } => {
                assert(node.operands()[0] == x && node.operands()[1] == y);
            },
            SymbolicExpression::Sub { x, y, .. } => {
                assert(node.operands()[0] == x && node.operands()[1] == y);
            },
            SymbolicExpression::Neg { x, .. } => {
                assert(node.operands()[0] == x);
            },
            SymbolicExpression::Mul { x, y, .. } => {
                assert(node.operands()[0] == x && node.operands()[1] == y);
            },
            _ => {},
        }
        assert(instructions.take(n as int).last().value(read, values) == node_value(
            nodes,
            id as nat,
            read,
        ));
    }
}

/// A compiled program computes, on any inputs, the value of each constraint as the
/// graph gives it.
pub proof fn compilation_preserves_meaning<F: Field, R: Algebra<F>>(
    graph: SymbolicGraph<F>,
    program: ConstraintProgram<F>,
    read: spec_fn(KernelInput) -> R,
)
    requires
        graph.well_formed(),
        is_compiled_from(program, graph),
    ensures
        program.output_values(read) == Seq::new(
            graph.constraints@.len(),
            |k: int| node_value(graph.nodes@, graph.constraints@[k] as nat, read),
        ),
{
    let nodes = graph.nodes@;
    let order = evaluation_order(graph);
    assert(graph.nodes@.len() == graph.nodes.len());
    evaluation_order_is_topological(graph);
    order_fits(nodes, order);
    tape_computes_nodes(nodes, order, read, order.len());
    let instructions = instructions_of(nodes, order);
    assert(instructions.take(order.len() as int) =~= instructions);
    let expected = Seq::new(
        graph.constraints@.len(),
        |k: int| node_value(nodes, graph.constraints@[k] as nat, read),
    );
    assert forall|k: int| 0 <= k < expected.len() implies #[trigger] program.output_values(read)[k]
        == expected[k] by {
        assert(order.contains(graph.constraints@[k]));
        let p = order.index_of(graph.constraints@[k]);
        assert(order[p] == graph.constraints@[k]);
        assert(program.outputs@[k] == p);
        assert(tape_values(instructions, read)[p] == node_value(nodes, order[p] as nat, read));
    }
    assert(program.output_values(read) =~= expected);
}

proof fn visit_adds_what_occurs<F>(
    nodes: Seq<SymbolicExpression<F>>,
    id: usize,
    order: Seq<usize>,
    e: usize,
)
    requires
        is_acyclic(nodes),
        id < nodes.len(),
        is_topological(nodes, order),
    ensures
        visit(nodes, id, order).contains(e) <==> order.contains(e) || occurs_in(nodes, e, id),
    decreases id as int, nodes[id as int].operands().len() + 1,
{
    if order.contains(id) {
        if occurs_in(nodes, e, id) {
            occurring_nodes_are_there(nodes, id, order, e);
        }
    } else {
        let operands = nodes[id as int].operands();
        assert forall|k: int| 0 <= k < operands.len() implies #[trigger] operands[k] < id by {
            assert(nodes[id as int].operands()[k] < id);
        }
        visit_each_adds_what_occurs(nodes, operands, id as int, order, e);
        visit_is_topological(nodes, id, order);
        let before = visit_each(nodes, operands, id as int, order);
        position_after_push(before, id);
        assert(visit(nodes, id, order).contains(e) <==> before.contains(e) || e == id);
        if exists|k: int|
            0 <= k < operands.len() && occurs_in(nodes, e, #[trigger] operands[k]) {
            let k = choose|k: int|
                0 <= k < operands.len() && occurs_in(nodes, e, #[trigger] operands[k]);
            assert(nodes[id as int].operands()[k] < id);
            assert(occurs_in(nodes, e, id));
        }
        if occurs_in(nodes, e, id) && e != id {
            let k = choose|k: int|
                0 <= k < nodes[id as int].operands().len() && {
                    let operand = #[trigger] nodes[id as int].operands()[k];
                    operand < id && occurs_in(nodes, e, operand)
                };
            assert(occurs_in(nodes, e, operands[k]));
        }
    }
}

proof fn visit_each_adds_what_occurs<F>(
    nodes: Seq<SymbolicExpression<F>>,
    ids: Seq<usize>,
    bound: int,
    order: Seq<usize>,
    e: usize,
)
    requires
        is_acyclic(nodes),
        bound <= nodes.len(),
        forall|k: int| 0 <= k < ids.len() ==> #[trigger] ids[k] < bound,
        is_topological(nodes, order),
    ensures
        visit_each(nodes, ids, bound, order).contains(e) <==> order.contains(e) || exists|k: int|
            0 <= k < ids.len() && occurs_in(nodes, e, #[trigger] ids[k]),
    decreases bound, ids.len(),
{
    if ids.len() > 0 {
        let shorter = ids.drop_last();
        assert forall|k: int| 0 <= k < shorter.len() implies #[trigger] shorter[k] < bound by {
            assert(ids[k] < bound);
        }
        assert(ids[ids.len() - 1] < bound);
        visit_each_adds_what_occurs(nodes, shorter, bound, order, e);
        visit_each_is_topological(nodes, shorter, bound, order);
        let before = visit_each(nodes, shorter, bound, order);
        visit_adds_what_occurs(nodes, ids.last(), before, e);
        if exists|k: int| 0 <= k < shorter.len() && occurs_in(nodes, e, #[trigger] shorter[k]) {
            let k = choose|k: int|
                0 <= k < shorter.len() && occurs_in(nodes, e, #[trigger] shorter[k]);
            assert(occurs_in(nodes, e, ids[k]));
        }
        if exists|k: int| 0 <= k < ids.len() && occurs_in(nodes, e, #[trigger] ids[k]) {
            let k = choose|k: int| 0 <= k < ids.len() && occurs_in(nodes, e, #[trigger] ids[k]);
            if k < shorter.len() {
                assert(occurs_in(nodes, e, shorter[k]));
            }
        }
    }
}

proof fn occurring_nodes_are_there<F>(
    nodes: Seq<SymbolicExpression<F>>,
    id: usize,
    order: Seq<usize>,
    e: usize,
)
    requires
        is_topological(nodes, order),
        order.contains(id),
        occurs_in(nodes, e, id),
    ensures
        order.contains(e),
    decreases id,
{
    if e != id {
        let k = choose|k: int|
            0 <= k < nodes[id as int].operands().len() && {
                let operand = #[trigger] nodes[id as int].operands()[k];
                operand < id && occurs_in(nodes, e, operand)
            };
        let p = order.index_of(id);
        assert(order[p] == id);
        assert(order.take(p).contains(nodes[order[p] as int].operands()[k]));
        let operand = nodes[id as int].operands()[k];
        let q = order.take(p).index_of(operand);
        assert(order[q] == operand);
        occurring_nodes_are_there(nodes, operand, order, e);
    }
}

/// The evaluation order holds the nodes that occur in a constraint, each once, and no
/// others.
pub proof fn evaluation_order_holds_what_occurs<F>(graph: SymbolicGraph<F>, id: usize)
    requires
        graph.well_formed(),
    ensures
        evaluation_order(graph).no_duplicates(),
        evaluation_order(graph).contains(id) <==> exists|k: int|
            0 <= k < graph.constraints@.len() && occurs_in(
                graph.nodes@,
                id,
                #[trigger] graph.constraints@[k],
            ),
{
    evaluation_order_is_topological(graph);
    visit_each_adds_what_occurs(
        graph.nodes@,
        graph.constraints@,
        graph.nodes@.len() as int,
        Seq::empty(),
        id,
    );
}

/// The features of an order are those of its nodes, each once.
pub proof fn features_are_those_of_nodes<F>(
    nodes: Seq<SymbolicExpression<F>>,
    order: Seq<usize>,
    feature: UnsupportedGpuFeature,
)
    ensures
        features_of(nodes, order).no_duplicates(),
        features_of(nodes, order).contains(feature) <==> exists|k: int|
            0 <= k < order.len() && nodes[#[trigger] order[k] as int].feature() == Some(feature),
    decreases order.len(),
{
    if order.len() > 0 {
        let shorter = order.drop_last();
        let before = features_of(nodes, shorter);
        let after = features_of(nodes, order);
        features_are_those_of_nodes(nodes, shorter, feature);
        assert(order[order.len() - 1] == order.last());
        if before.contains(feature) {
            let k = choose|k: int|
                0 <= k < shorter.len() && nodes[#[trigger] shorter[k] as int].feature() == Some(
                    feature,
                );
            assert(order[k] == shorter[k]);
            let j = before.index_of(feature);
            assert(after[j] == feature);
        }
        if nodes[order.last() as int].feature() == Some(feature) && !before.contains(feature) {
            assert(after[before.len() as int] == feature);
        }
        if after.contains(feature) && !before.contains(feature) {
            let j = after.index_of(feature);
            assert(after[j] == feature);
            assert(j >= before.len()) by {
                if j < before.len() {
                    assert(before[j] == feature);
                }
            }
        }
        if exists|k: int|
            0 <= k < order.len() && nodes[#[trigger] order[k] as int].feature() == Some(feature) {
            let k = choose|k: int|
                0 <= k < order.len() && nodes[#[trigger] order[k] as int].feature() == Some(
                    feature,
                );
            if k < shorter.len() {
                assert(shorter[k] == order[k]);
            }
        }
    }
}

/// A compiled program can run on a device exactly if no permutation column, public
/// value, challenge or row selector occurs in a constraint.
pub proof fn gpu_candidates_read_only_columns<F: Field>(
    graph: SymbolicGraph<F>,
    program: ConstraintProgram<F>,
)
    requires
        graph.well_formed(),
        is_compiled_from(program, graph),
    ensures
        program.unsupported_features@.no_duplicates(),
        program.unsupported_features@.len() == 0 <==> forall|k: int, id: usize|
            0 <= k < graph.constraints@.len() && #[trigger] occurs_in(
                graph.nodes@,
                id,
                graph.constraints@[k],
            ) ==> graph.nodes@[id as int].feature() is None,
{
    let nodes = graph.nodes@;
    let order = evaluation_order(graph);
    let features = program.unsupported_features@;
    features_are_those_of_nodes(nodes, order, UnsupportedGpuFeature::PublicInput);
    if features.len() == 0 {
        assert forall|k: int, id: usize|
            0 <= k < graph.constraints@.len() && #[trigger] occurs_in(
                nodes,
                id,
                graph.constraints@[k],
            ) implies nodes[id as int].feature() is None by {
            if let Some(feature) = nodes[id as int].feature() {
                evaluation_order_holds_what_occurs(graph, id);
                assert(order.contains(id));
                let p = order.index_of(id);
                assert(order[p] == id);
                features_are_those_of_nodes(nodes, order, feature);
                assert(features.contains(feature));
            }
        }
    } else {
        let feature = features[0];
        assert(features.contains(feature));
        features_are_those_of_nodes(nodes, order, feature);
        let p = choose|k: int|
            0 <= k < order.len() && nodes[#[trigger] order[k] as int].feature() == Some(feature);
        let id = order[p];
        assert(order.contains(id));
        evaluation_order_holds_what_occurs(graph, id);
        let k = choose|k: int|
            0 <= k < graph.constraints@.len() && occurs_in(
                nodes,
                id,
                #[trigger] graph.constraints@[k],
            );
        assert(occurs_in(nodes, id, graph.constraints@[k]));
        assert(nodes[id as int].feature() is Some);
    }
}

} // verus!
