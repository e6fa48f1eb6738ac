//! The prover's side of the sumcheck protocol.
//!
//! [`computation`] is what is summed and [`hypercube`] sums it, [`round`] is one round,
//! [`prover`] keeps what one round hands to the next, and [`run`] makes the rounds a sequence
//! of turns. [`backend`] says where the heavy steps run. [`round_laws`] and [`claim_laws`] say
//! why a true claim stays true, [`uniqueness_laws`] what determines what a round sends, and
//! [`message_laws`] what its messages and its sums are.

pub mod backend;
pub mod claim_laws;
pub mod computation;
pub mod hypercube;
pub mod message_laws;
pub mod prover;
pub mod round;
pub mod round_laws;
pub mod run;
pub mod uniqueness_laws;

pub use backend::MIN_VARS_FOR_GPU;
pub use computation::{eval_sumcheck_computation, SumcheckComputation, SumcheckComputationPacked};
pub use hypercube::{
    compute_over_extension_hypercube, compute_over_hypercube, ComputationEvaluator,
    HypercubeEvaluator, PackedComputationEvaluator,
};
pub use prover::{SumcheckProver, SumcheckStatement};
pub use round::{sc_round, RoundOutcome, RoundParameters, SumcheckRound};
pub use run::{prove, SumcheckRun, SumcheckStep};
