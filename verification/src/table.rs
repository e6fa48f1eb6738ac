//! A table of rows that satisfies constraints, and the parameters of its proof.

use vstd::arithmetic::mul::*;
use vstd::arithmetic::power2::*;
use vstd::prelude::*;

use crate::dense::DensePolynomial;
use crate::evals::{p3_log2_strict, EvaluationsList};
use crate::field::Field;
use crate::kernel_ir::compile::{
    compile_air_constraint_program, evaluation_order, features_of, instructions_of,
    is_compiled_from,
};
use crate::kernel_ir::lowered::{is_lowered_from, tape_can_lower, LoweredConstraintProgram};
use crate::kernel_ir::program::ConstraintProgram;
use crate::kernel_ir::symbolic::SymbolicGraph;
use crate::multilinear::{log2_ceil, log2_up, power_of_two};
use crate::selectors::{are_selectors, univariate_selectors};

verus! {

/// How many variables each round of the commitment scheme folds.
#[derive(Debug, Clone, Copy, PartialEq, Eq, Structural)]
pub enum FoldingFactor {
    /// The same number in every round.
    Constant(usize),
    /// A number for the first round and one for the others.
    ConstantFromSecondRound(usize, usize),
}

/// What the soundness of the commitment scheme rests on.
#[derive(Debug, Clone, Copy, PartialEq, Eq, Structural)]
pub enum SecurityAssumption {
    UniqueDecoding,
    JohnsonBound,
    CapacityBound,
}

/// The settings of a proof.
#[derive(Debug, Clone, Copy, PartialEq, Eq, Structural)]
pub struct AirSettings {
    pub security_bits: usize,
    pub whir_soudness_type: SecurityAssumption,
    pub whir_folding_factor: FoldingFactor,
    pub whir_log_inv_rate: usize,
    pub univariate_skips: usize,
    pub whir_initial_domain_reduction_factor: usize,
}

impl AirSettings {
    #[must_use]
    pub fn new(
        security_bits: usize,
        whir_soudness_type: SecurityAssumption,
        whir_folding_factor: FoldingFactor,
        whir_log_inv_rate: usize,
        univariate_skips: usize,
        whir_initial_domain_reduction_factor: usize,
    ) -> (r: Self)
        ensures
            r == (AirSettings {
                security_bits,
                whir_soudness_type,
                whir_folding_factor,
                whir_log_inv_rate,
                univariate_skips,
                whir_initial_domain_reduction_factor,
            }),
    {
        AirSettings {
            security_bits,
            whir_soudness_type,
            whir_folding_factor,
            whir_log_inv_rate,
            univariate_skips,
            whir_initial_domain_reduction_factor,
        }
    }
}

/// The parameters of the commitment scheme.
#[derive(Debug, Clone, Copy, PartialEq, Eq, Structural)]
pub struct WhirParameters {
    pub num_variables: usize,
    pub initial_statement: bool,
    pub security_level: usize,
    pub pow_bits: usize,
    pub folding_factor: FoldingFactor,
    pub soundness_type: SecurityAssumption,
    pub starting_log_inv_rate: usize,
    pub rs_domain_initial_reduction_factor: usize,
    pub univariate_skip: bool,
}

/// A table: its size, its preprocessed columns, and its constraints.
#[derive(Debug, Clone)]
pub struct AirTable<F, A> {
    pub log_length: usize,
    pub n_columns: usize,
    pub air: A,
    pub preprocessed_columns: Vec<EvaluationsList<F>>,
    pub n_constraints: usize,
    pub constraint_degree: usize,
    pub univariate_selectors: Vec<DensePolynomial<F>>,
    /// The compiled constraints, if a device can run them.
    pub device_constraint_program: Option<LoweredConstraintProgram<F>>,
}

impl<F: Field, A> AirTable<F, A> {
    /// The table with the given constraints. The graph holds the constraints of `air`,
    /// and `n_columns` is its number of columns, preprocessed ones included.
    #[must_use]
    pub fn new(
        air: A,
        n_columns: usize,
        constraints: &SymbolicGraph<F>,
        log_length: usize,
        univariate_skips: usize,
        preprocessed_columns: Vec<EvaluationsList<F>>,
        constraint_degree: usize,
    ) -> (r: Self)
        requires
            constraints.well_formed(),
            features_of(constraints.nodes@, evaluation_order(*constraints)).len() == 0
                ==> tape_can_lower(
                instructions_of(constraints.nodes@, evaluation_order(*constraints)),
            ),
            pow2(univariate_skips as nat) <= usize::MAX,
            pow2(univariate_skips as nat) <= F::characteristic(),
        ensures
            r.log_length == log_length,
            r.n_columns == n_columns,
            r.air == air,
            r.preprocessed_columns == preprocessed_columns,
            r.n_constraints == constraints.constraints@.len(),
            r.constraint_degree == constraint_degree,
            are_selectors(r.univariate_selectors@, pow2(univariate_skips as nat)),
            r.device_constraint_program is Some <==> features_of(
                constraints.nodes@,
                evaluation_order(*constraints),
            ).len() == 0,
            r.device_constraint_program matches Some(lowered) ==> exists|
                program: ConstraintProgram<F>,
            | #[trigger]
                is_compiled_from(program, *constraints) && program.well_formed()
                    && is_lowered_from(lowered, program),
    {
        let program = compile_air_constraint_program(constraints);
        let n_constraints: usize = program.outputs.len();
        let device_constraint_program = if program.is_gpu_candidate() {
            Some(program.lower())
        } else {
            None
        };
        AirTable {
            log_length,
            n_columns,
            air,
            preprocessed_columns,
            n_constraints,
            constraint_degree,
            univariate_selectors: univariate_selectors(univariate_skips),
            device_constraint_program,
        }
    }

    /// The number of columns that are not preprocessed.
    #[must_use]
    pub fn n_witness_columns(&self) -> (r: usize)
        requires
            self.preprocessed_columns@.len() <= self.n_columns,
        ensures
            r == self.n_columns - self.preprocessed_columns@.len(),
    {
        self.n_columns - self.preprocessed_columns.len()
    }

    /// The base-two logarithm of the number of witness columns, rounded up.
    #[must_use]
    pub fn log_n_witness_columns(&self) -> (r: usize)
        requires
            self.preprocessed_columns@.len() <= self.n_columns,
        ensures
            r == log2_ceil((self.n_columns - self.preprocessed_columns@.len()) as nat),
    {
        log2_up(self.n_witness_columns())
    }

    #[must_use]
    pub fn n_preprocessed_columns(&self) -> (r: usize)
        ensures
            r == self.preprocessed_columns@.len(),
    {
        self.preprocessed_columns.len()
    }

    /// The number of variables of the committed polynomial, which holds every witness
    /// column.
    pub open spec fn n_committed_variables(self) -> nat {
        self.log_length as nat + log2_ceil(
            (self.n_columns - self.preprocessed_columns@.len()) as nat,
        )
    }

    /// The parameters under which the witness is committed.
    #[must_use]
    pub fn build_whir_params(&self, settings: &AirSettings, pow_bits: usize) -> (r: WhirParameters)
        requires
            self.preprocessed_columns@.len() <= self.n_columns,
            self.n_committed_variables() <= usize::MAX,
        ensures
            r == (WhirParameters {
                num_variables: self.n_committed_variables() as usize,
                initial_statement: true,
                security_level: settings.security_bits,
                pow_bits,
                folding_factor: settings.whir_folding_factor,
                soundness_type: settings.whir_soudness_type,
                starting_log_inv_rate: settings.whir_log_inv_rate,
                rs_domain_initial_reduction_factor: settings.whir_initial_domain_reduction_factor,
                univariate_skip: false,
            }),
    {
        let num_variables: usize = self.log_length + self.log_n_witness_columns();
        WhirParameters {
            num_variables,
            initial_statement: true,
            security_level: settings.security_bits,
            pow_bits,
            folding_factor: settings.whir_folding_factor,
            soundness_type: settings.whir_soudness_type,
            starting_log_inv_rate: settings.whir_log_inv_rate,
            rs_domain_initial_reduction_factor: settings.whir_initial_domain_reduction_factor,
            univariate_skip: false,
        }
    }

    /// The size of the transform that the commitment prepares for: the committed
    /// polynomial at the chosen rate, in elements of an extension with `extension_degree`
    /// coefficients.
    #[must_use]
    pub fn dft_size(&self, settings: &AirSettings, extension_degree: usize) -> (r: usize)
        requires
            self.preprocessed_columns@.len() <= self.n_columns,
            exists|k: nat|
                extension_degree == #[trigger] pow2(k) && k <= self.n_committed_variables()
                    + settings.whir_log_inv_rate,
            pow2(self.n_committed_variables() + settings.whir_log_inv_rate as nat)
                <= extension_degree * usize::MAX,
            self.n_committed_variables() + settings.whir_log_inv_rate <= usize::MAX,
        ensures
            r * extension_degree == pow2(
                self.n_committed_variables() + settings.whir_log_inv_rate as nat,
            ),
    {
        let log_degree: usize = p3_log2_strict(extension_degree);
        let ghost total = self.n_committed_variables() + settings.whir_log_inv_rate as nat;
        proof {
            let k = choose|k: nat|
                extension_degree == #[trigger] pow2(k) && k <= self.n_committed_variables()
                    + settings.whir_log_inv_rate;
            crate::evals::variables_are_determined(k, log_degree as nat);
        }
        let log_size: usize = self.log_n_witness_columns() + self.log_length
            + settings.whir_log_inv_rate - log_degree;
        proof {
            lemma_pow2_adds(log_size as nat, log_degree as nat);
            lemma_pow2_pos(log_degree as nat);
            assert(log_size + log_degree == total);
            assert(pow2(log_size as nat) <= usize::MAX) by {
                let (a, d, m) = (
                    pow2(log_size as nat) as int,
                    extension_degree as int,
                    usize::MAX as int,
                );
                lemma_mul_is_commutative(d, m);
                if a > m {
                    lemma_mul_strict_inequality(m, a, d);
                }
            }
        }
        power_of_two(log_size, Ghost(1))
    }

    /// The number of challenges that the zerocheck asks for: one for the skipped
    /// variables together and one for each of the others.
    #[must_use]
    pub fn n_zerocheck_challenges(&self, settings: &AirSettings) -> (r: usize)
        requires
            settings.univariate_skips < self.log_length,
            self.log_length - settings.univariate_skips < usize::MAX,
        ensures
            r == self.log_length + 1 - settings.univariate_skips,
    {
        self.log_length - settings.univariate_skips + 1
    }
}

} // verus!
