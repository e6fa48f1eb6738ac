//! Constraint programs, sumcheck rounds and witness batching for a multilinear
//! AIR prover, with machine-checked contracts.
//!
//! [`kernel_ir`] compiles the constraints of a table to a program, [`hypercube_programs`] sums a
//! program over the hypercube, [`sumcheck`] proves such sums round by round, and
//! [`air_prover`] runs a whole proof as a sequence of turns. [`zerocheck_laws`],
//! [`table_claim_laws`] and [`inner_sumcheck`] say why the claims of a proof of a table that meets
//! its constraints are true, and [`air_laws`] says how its turns fit together.

pub mod air_laws;
pub mod air_prover;
pub mod dense;
pub mod dense_laws;
pub mod device;
pub mod element_laws;
pub mod evals;
pub mod exchange;
pub mod field;
pub mod hypercube_programs;
pub mod inner_sumcheck;
pub mod kernel_ir;
pub mod koala_bear;
pub mod multilinear;
pub mod multilinear_laws;
pub mod octic;
pub mod octic_laws;
pub mod octic_product;
pub mod packed;
pub mod program_degree;
pub mod program_rounds;
pub mod selectors;
pub mod sumcheck;
pub mod sums;
pub mod table;
pub mod table_claim_laws;
pub mod text;
pub mod witness;
pub mod witness_laws;
pub mod zerocheck_laws;
