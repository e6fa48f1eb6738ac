//! Symbolic constraints as a graph with shared nodes.

use vstd::prelude::*;

use super::inputs::{KernelInput, RowSelector};
use super::program::UnsupportedGpuFeature;
use crate::field::{Algebra, Ring};

verus! {

/// The table that a variable belongs to.
#[derive(Debug, Clone, Copy, PartialEq, Eq, Hash, Structural)]
pub enum Entry {
    Preprocessed { offset: usize },
    Main { offset: usize },
    Permutation { offset: usize },
    Public,
    Challenge,
}

/// A cell of the evaluation window.
#[derive(Debug, Clone, Copy, PartialEq, Eq, Hash, Structural)]
pub struct SymbolicVariable {
    pub entry: Entry,
    pub index: usize,
}

/// One node of a graph. Operands are the positions of other nodes, and an operation
/// carries its degree in the trace length.
#[derive(Debug, Clone)]
pub enum SymbolicExpression<F> {
    Variable(SymbolicVariable),
    IsFirstRow,
    IsLastRow,
    IsTransition,
    Constant(F),
    Add { x: usize, y: usize, degree_multiple: usize },
    Sub { x: usize, y: usize, degree_multiple: usize },
    Neg { x: usize, degree_multiple: usize },
    Mul { x: usize, y: usize, degree_multiple: usize },
}

/// Expressions that share subexpressions, and which of them are constraints.
#[derive(Debug, Clone)]
pub struct SymbolicGraph<F> {
    pub nodes: Vec<SymbolicExpression<F>>,
    pub constraints: Vec<usize>,
}

impl SymbolicVariable {
    /// The input that holds the variable.
    pub open spec fn input(self) -> KernelInput {
        match self.entry {
            Entry::Main { offset } => KernelInput::Main { row_offset: offset, column: self.index },
            Entry::Preprocessed { offset } => KernelInput::Preprocessed {
                row_offset: offset,
                column: self.index,
            },
            Entry::Permutation { offset } => KernelInput::Permutation {
                row_offset: offset,
                column: self.index,
            },
            Entry::Public => KernelInput::Public { index: self.index },
            Entry::Challenge => KernelInput::Challenge { index: self.index },
        }
    }

    /// What a program that reads the variable needs beyond main and preprocessed
    /// columns.
    pub open spec fn feature(self) -> Option<UnsupportedGpuFeature> {
        match self.entry {
            Entry::Main { .. } => None,
            Entry::Preprocessed { .. } => None,
            Entry::Permutation { .. } => Some(UnsupportedGpuFeature::PermutationInput),
            Entry::Public => Some(UnsupportedGpuFeature::PublicInput),
            Entry::Challenge => Some(UnsupportedGpuFeature::ChallengeInput),
        }
    }
}

impl<F> SymbolicExpression<F> {
    /// The operands, left before right.
    pub open spec fn operands(self) -> Seq<usize> {
        match self {
            SymbolicExpression::Add { x, y, .. } => seq![x, y],
            SymbolicExpression::Sub { x, y, .. } => seq![x, y],
            SymbolicExpression::Neg { x, .. } => seq![x],
            SymbolicExpression::Mul { x, y, .. } => seq![x, y],
            _ => Seq::empty(),
        }
    }

    /// What a program that computes the node needs beyond main and preprocessed
    /// columns, operands apart.
    pub open spec fn feature(self) -> Option<UnsupportedGpuFeature> {
        match self {
            SymbolicExpression::Variable(variable) => variable.feature(),
            SymbolicExpression::IsFirstRow => Some(
                UnsupportedGpuFeature::RowSelector(RowSelector::First),
            ),
            SymbolicExpression::IsLastRow => Some(
                UnsupportedGpuFeature::RowSelector(RowSelector::Last),
            ),
            SymbolicExpression::IsTransition => Some(
                UnsupportedGpuFeature::RowSelector(RowSelector::Transition),
            ),
            _ => None,
        }
    }

    /// The degree in the trace length: a column and the first and last row selectors
    /// have degree one, other leaves have degree zero.
    pub open spec fn degree(self) -> usize {
        match self {
            SymbolicExpression::Variable(variable) => match variable.entry {
                Entry::Public => 0,
                Entry::Challenge => 0,
                _ => 1,
            },
            SymbolicExpression::IsFirstRow => 1,
            SymbolicExpression::IsLastRow => 1,
            SymbolicExpression::IsTransition => 0,
            SymbolicExpression::Constant(_) => 0,
            SymbolicExpression::Add { degree_multiple, .. } => degree_multiple,
            SymbolicExpression::Sub { degree_multiple, .. } => degree_multiple,
            SymbolicExpression::Neg { degree_multiple, .. } => degree_multiple,
            SymbolicExpression::Mul { degree_multiple, .. } => degree_multiple,
        }
    }

    /// The degree in the trace length.
    pub fn degree_multiple(&self) -> (r: usize)
        ensures
            r == self.degree(),
    {
        match self {
            SymbolicExpression::Variable(variable) => match variable.entry {
                Entry::Public => 0,
                Entry::Challenge => 0,
                _ => 1,
            },
            SymbolicExpression::IsFirstRow => 1,
            SymbolicExpression::IsLastRow => 1,
            SymbolicExpression::IsTransition => 0,
            SymbolicExpression::Constant(_) => 0,
            SymbolicExpression::Add { degree_multiple, .. } => *degree_multiple,
            SymbolicExpression::Sub { degree_multiple, .. } => *degree_multiple,
            SymbolicExpression::Neg { degree_multiple, .. } => *degree_multiple,
            SymbolicExpression::Mul { degree_multiple, .. } => *degree_multiple,
        }
    }
}

/// Whether every operand stands before the node that uses it.
pub open spec fn is_acyclic<F>(nodes: Seq<SymbolicExpression<F>>) -> bool {
    forall|id: int, k: int|
        0 <= id < nodes.len() && 0 <= k < nodes[id].operands().len()
            ==> #[trigger] nodes[id].operands()[k] < id
}

impl<F> SymbolicGraph<F> {
    /// Whether every operand stands before the node that uses it, and every constraint
    /// is a node.
    pub open spec fn well_formed(self) -> bool {
        &&& is_acyclic(self.nodes@)
        &&& forall|k: int|
            0 <= k < self.constraints@.len() ==> #[trigger] self.constraints@[k] < self.nodes@.len()
    }
}

/// The value of node `id`.
pub open spec fn node_value<F: Ring, R: Algebra<F>>(
    nodes: Seq<SymbolicExpression<F>>,
    id: nat,
    read: spec_fn(KernelInput) -> R,
) -> R
    decreases id,
{
    match nodes[id as int] {
        SymbolicExpression::Variable(variable) => read(variable.input()),
        SymbolicExpression::IsFirstRow => read(KernelInput::Selector(RowSelector::First)),
        SymbolicExpression::IsLastRow => read(KernelInput::Selector(RowSelector::Last)),
        SymbolicExpression::IsTransition => read(KernelInput::Selector(RowSelector::Transition)),
        SymbolicExpression::Constant(value) => R::spec_embed(value),
        SymbolicExpression::Add { x, y, .. } => if x < id && y < id {
            node_value(nodes, x as nat, read).spec_add(node_value(nodes, y as nat, read))
        } else {
            arbitrary()
        },
        SymbolicExpression::Sub { x, y, .. } => if x < id && y < id {
            node_value(nodes, x as nat, read).spec_sub(node_value(nodes, y as nat, read))
        } else {
            arbitrary()
        },
        SymbolicExpression::Neg { x, .. } => if x < id {
            node_value(nodes, x as nat, read).spec_neg()
        } else {
            arbitrary()
        },
        SymbolicExpression::Mul { x, y, .. } => if x < id && y < id {
            node_value(nodes, x as nat, read).spec_mul(node_value(nodes, y as nat, read))
        } else {
            arbitrary()
        },
    }
}

/// Whether node `id` occurs in the expression of node `root`.
pub open spec fn occurs_in<F>(nodes: Seq<SymbolicExpression<F>>, id: usize, root: usize) -> bool
    decreases root,
{
    id == root || exists|k: int|
        0 <= k < nodes[root as int].operands().len() && {
            let operand = #[trigger] nodes[root as int].operands()[k];
            operand < root && occurs_in(nodes, id, operand)
        }
}

} // verus!
