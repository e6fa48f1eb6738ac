//! AIR constraints as flat instruction programs.
//!
//! [`inputs`] names what an instruction can read, [`layout`] assigns each input a
//! slot of a flat buffer, [`program`] holds instruction tapes that read inputs by
//! name, [`lowered`] those that read slots. [`symbolic`] is the graph of constraints
//! that [`compile`] turns into a tape. [`meaning_laws`] says what tapes compute, value by
//! value, and [`degree_laws`] what degree they have.

pub mod compile;
pub mod degree_laws;
pub mod inputs;
pub mod layout;
pub mod lowered;
pub mod meaning_laws;
pub mod program;
pub mod symbolic;

pub use compile::compile_air_constraint_program;
pub use inputs::{ConstraintProgramInputs, KernelInput, RowPair, RowSelector};
pub use layout::ConstraintInputLayout;
pub use lowered::{LoweredConstraintProgram, LoweredKernelInstruction};
pub use program::{
    ConstraintProgram, ConstraintProgramStats, KernelInstruction, UnsupportedGpuFeature,
};
pub use symbolic::{Entry, SymbolicExpression, SymbolicGraph, SymbolicVariable};
