//! The proof that a witness satisfies the constraints of a table, as a sequence of turns.
//!
//! The witness is committed, a zerocheck shows that the batched constraints vanish on every
//! row, an inner sumcheck reduces what the zerocheck leaves to one value of the batched
//! column, and the commitment is opened there.

use vstd::arithmetic::mul::*;
use vstd::arithmetic::power2::*;
use vstd::prelude::*;
use vstd::slice::slice_subrange;

use crate::air_laws::{constraints_are_batched_by_powers, zerocheck_messages_have_length};
use crate::dense::{poly_value, poly_value_is_canonical, DensePolynomial};
use crate::evals::{exponent_is_below_power, multilinear_value, EvaluationsList};
use crate::exchange::{copy_of, slice_is_determined, slice_of, Exchange, Work};
use crate::field::{reduced, reduction, vanishes, ExtensionField, Field};
use crate::inner_sumcheck::{
    inner_claim_survives_round, inner_product, inner_sum_is_true, inner_sumcheck_multilinears,
    opening_is_true, opening_statement, power, powers, tables_folded_by, InnerSumcheckCircuit,
    OpeningStatement,
};
use crate::multilinear::{
    all_have_variables, combination, down_weights, first_variables_folded, log2_ceil,
    log2_ceil_is_least, packed_multilinear, packed_values, rows_down, rows_up, scaled_values,
    sum_values, up_weights,
};
use crate::multilinear_laws::multilinear_value_is_canonical;
use crate::sumcheck::claim_laws::{
    adds_up, folding_each_variable_evaluates, folding_one_by_one_fixes_variables,
    successively_folded,
};
use crate::sumcheck::hypercube::{
    hypercube_sum, tables_of, ComputationEvaluator, HypercubeEvaluator,
};
use crate::sumcheck::message_laws::sum_adds_points_up;
use crate::sumcheck::prover::{SumcheckProver, SumcheckStatement};
use crate::sumcheck::round::{
    are_round_selectors, domain_weights, is_round_polynomial, references_to,
};
use crate::sumcheck::round_laws::integers_differ_by_units;
use crate::sumcheck::run::{folded_from, prove, rounds_fold, SumcheckRun, SumcheckStep};
use crate::sums::sum_is_canonical;
use crate::table::{AirSettings, AirTable, WhirParameters};
use crate::witness::{
    is_batched_witness, leading_weights, prepare_batched_witness, BatchedWitness,
};
use crate::witness_laws::value_left;

verus! {

/// What the prover asks for.
#[derive(Debug, Clone)]
pub enum AirAction<F, EF> {
    /// The polynomial is to be committed.
    Commit { parameters: WhirParameters, dft_size: usize, polynomial: EvaluationsList<F> },
    Exchange(Exchange<EF>),
    /// The commitment is to be opened.
    Open(OpeningStatement<EF>),
}

/// What the prover waits for.
#[derive(Debug, Clone)]
pub enum AirStage<F, EF> {
    /// The commitment.
    Commitment,
    /// The scalar that batches the constraints.
    ConstraintsBatching,
    /// The point of the zerocheck.
    ZerocheckPoint { batching_scalars: Vec<EF> },
    /// The challenge of a round of the zerocheck.
    Zerocheck {
        batching_scalars: Vec<EF>,
        point: Vec<EF>,
        columns: Vec<EvaluationsList<F>>,
        run: SumcheckRun<F, EF>,
    },
    /// The scalars that batch the columns, and the point at which the batch is checked.
    ColumnsBatching { zerocheck_challenges: Vec<EF> },
    /// The challenge of a round of the inner sumcheck.
    Inner {
        columns_batching_scalars: Vec<EF>,
        pols: Vec<EvaluationsList<EF>>,
        run: SumcheckRun<F, EF>,
    },
    /// Nothing.
    Finished,
}

/// The prover of a table.
#[derive(Clone)]
pub struct AirProver<'a, F, EF, A> {
    pub table: &'a AirTable<F, A>,
    pub settings: AirSettings,
    pub witness: &'a [EvaluationsList<F>],
    pub stage: AirStage<F, EF>,
}

/// Whether `columns` are those of the upper rows and then those of the lower rows,
/// preprocessed ones first.
pub open spec fn are_zerocheck_columns<F: Field>(
    columns: Seq<EvaluationsList<F>>,
    preprocessed: Seq<EvaluationsList<F>>,
    witness: Seq<EvaluationsList<F>>,
) -> bool {
    let n = preprocessed.len() + witness.len();
    &&& columns.len() == 2 * n
    &&& forall|k: int|
        0 <= k < n ==> (#[trigger] columns[k])@ == rows_up((preprocessed + witness)[k]@)
    &&& forall|k: int|
        n <= k < columns.len() ==> (#[trigger] columns[k])@ == rows_down(
            (preprocessed + witness)[k - n]@,
        )
}

impl<'a, F: Field, EF: ExtensionField<F>, A> AirProver<'a, F, EF, A> {
    /// The number of witness columns.
    pub open spec fn n_witness(self) -> nat {
        (self.table.n_columns - self.table.preprocessed_columns@.len()) as nat
    }

    /// The number of scalars that batch the columns.
    pub open spec fn n_column_scalars(self) -> nat {
        log2_ceil(self.n_witness())
    }

    /// The number of rounds of the zerocheck.
    pub open spec fn n_zerocheck_rounds(self) -> int {
        self.table.log_length - self.settings.univariate_skips + 1
    }

    /// What the zerocheck proves.
    pub open spec fn zerocheck_statement<'b>(
        self,
        batching_scalars: Seq<EF>,
        point: Seq<EF>,
    ) -> SumcheckStatement<'b, EF> {
        SumcheckStatement {
            n_vars: self.table.log_length,
            skips: self.settings.univariate_skips,
            constraints_degree: self.table.constraint_degree,
            batching_scalars: slice_of(batching_scalars),
            eq_factor: Some(slice_of(point)),
            is_zerofier: true,
            n_rounds: self.n_zerocheck_rounds() as usize,
        }
    }

    /// What the inner sumcheck proves.
    pub open spec fn inner_statement<'b>(self) -> SumcheckStatement<'b, EF> {
        SumcheckStatement {
            n_vars: self.table.log_length,
            skips: 1,
            constraints_degree: 2,
            batching_scalars: slice_of(seq![EF::spec_one()]),
            eq_factor: None,
            is_zerofier: false,
            n_rounds: self.table.log_length,
        }
    }

    /// Whether the witness fits the table: the columns have the length of the table, the
    /// sizes fit the machine, and the integers of each round are different elements of the
    /// field.
    pub open spec fn fits(self) -> bool {
        let skips = self.settings.univariate_skips;
        let degree = self.table.constraint_degree;
        let total = self.table.n_committed_variables() + self.settings.whir_log_inv_rate as nat;
        &&& skips < self.table.log_length
        &&& self.table.preprocessed_columns@.len() < self.table.n_columns
        &&& 2 * self.table.n_columns <= usize::MAX
        &&& self.witness@.len() == self.n_witness()
        &&& all_have_variables(self.witness@, self.table.log_length as nat)
        &&& all_have_variables(self.table.preprocessed_columns@, self.table.log_length as nat)
        &&& pow2(self.table.n_committed_variables()) <= usize::MAX
        &&& total <= usize::MAX
        &&& exists|k: nat| EF::spec_dimension() == #[trigger] pow2(k) && k <= total
        &&& pow2(total) <= EF::spec_dimension() * usize::MAX
        &&& EF::spec_dimension() <= usize::MAX
        &&& self.n_column_scalars() + 1 + skips <= usize::MAX
        &&& pow2(skips as nat) <= F::characteristic()
        &&& degree * (pow2(skips as nat) - 1) + 1 <= F::characteristic()
        &&& degree * (pow2(skips as nat) - 1) + 1 + pow2(skips as nat) <= usize::MAX
        &&& 2 * pow2(skips as nat) <= usize::MAX
        &&& degree + 1 <= F::characteristic()
        &&& degree + 3 <= usize::MAX
        &&& 3 <= F::characteristic()
    }

    /// Whether two evaluators can compute every round of the zerocheck.
    pub open spec fn accepted_by<E: HypercubeEvaluator<F, EF>, L: HypercubeEvaluator<EF, EF>>(
        self,
        evaluator: E,
        later_evaluator: L,
    ) -> bool {
        let skips = self.settings.univariate_skips;
        &&& evaluator.accepts(
            2 * self.table.n_columns as nat,
            (self.table.log_length - skips) as nat,
            self.table.n_constraints as nat,
        )
        &&& forall|n: nat|
            n < self.table.log_length - skips ==> #[trigger] later_evaluator.accepts(
                2 * self.table.n_columns as nat,
                n,
                self.table.n_constraints as nat,
            )
    }

    /// The number of challenges that the stage waits for.
    pub open spec fn n_awaited(self) -> int {
        match self.stage {
            AirStage::Commitment => 0,
            AirStage::ConstraintsBatching => 1,
            AirStage::ZerocheckPoint { .. } => self.n_zerocheck_rounds(),
            AirStage::Zerocheck { .. } => 1,
            AirStage::ColumnsBatching { .. } => self.n_column_scalars() + 1
                + self.settings.univariate_skips,
            AirStage::Inner { .. } => 1,
            AirStage::Finished => 0,
        }
    }

    /// Whether the stage holds what the turns so far have made of the witness.
    pub open spec fn well_formed(self) -> bool {
        &&& self.fits()
        &&& match self.stage {
            AirStage::ZerocheckPoint { batching_scalars } => batching_scalars@.len()
                == self.table.n_constraints,
            AirStage::Zerocheck { batching_scalars, point, columns, run } => {
                let statement = self.zerocheck_statement(batching_scalars@, point@);
                &&& batching_scalars@.len() == self.table.n_constraints
                &&& point@.len() == self.n_zerocheck_rounds()
                &&& statement.can_run::<F>()
                &&& all_have_variables(columns@, self.table.log_length as nat)
                &&& are_zerocheck_columns(
                    columns@,
                    self.table.preprocessed_columns@,
                    self.witness@,
                )
                &&& run.awaits(statement)
                &&& run.prover matches Some(prover) ==> {
                    &&& prover.folded@.len() == columns@.len()
                    &&& exists|selectors: Seq<DensePolynomial<F>>| #[trigger]
                        folded_from::<F, F, EF>(
                            prover,
                            statement,
                            tables_of(columns@),
                            selectors,
                        )
                }
            },
            AirStage::ColumnsBatching { zerocheck_challenges } => zerocheck_challenges@.len()
                == self.n_zerocheck_rounds(),
            AirStage::Inner { columns_batching_scalars, pols, run } => {
                &&& columns_batching_scalars@.len() == self.n_column_scalars()
                &&& pols@.len() == 2
                &&& all_have_variables(pols@, self.table.log_length as nat)
                &&& self.inner_statement().can_run::<F>()
                &&& run.awaits(self.inner_statement())
                &&& run.prover matches Some(prover) ==> prover.folded@.len() == 2
                &&& self.inner_is_true(columns_batching_scalars@, pols@, run)
            },
            _ => true,
        }
    }

    /// Whether the table, the settings and the witness stay the same.
    pub open spec fn same_task(self, next: Self) -> bool {
        &&& next.table == self.table
        &&& next.settings == self.settings
        &&& next.witness == self.witness
    }

    /// Whether the coordinates of the zerocheck's point that a claimed sum is divided by are
    /// not zero.
    pub open spec fn point_is_usable(self, point: Seq<EF>) -> bool {
        self.table.constraint_degree > 0 ==> forall|k: int|
            1 <= k < point.len() ==> !vanishes(#[trigger] point[k])
    }

    /// Once the commitment is made, the scalar that batches the constraints is asked for.
    fn after_commitment(self) -> (r: (Self, AirAction<F, EF>))
        requires
            self.well_formed(),
        ensures
            r.0.well_formed(),
            self.same_task(r.0),
            r.0.stage is ConstraintsBatching,
            r.1 matches AirAction::Exchange(turn) && turn.is_turn(
                seq![],
                Some(Work::ConstraintsBatching),
                1,
                None,
            ),
    {
        let turn = Exchange {
            messages: Vec::new(),
            work_before: Some(Work::ConstraintsBatching),
            n_challenges: 1,
            work_after: None,
        };
        let next = AirProver {
            table: self.table,
            settings: self.settings,
            witness: self.witness,
            stage: AirStage::ConstraintsBatching,
        };
        (next, AirAction::Exchange(turn))
    }

    /// Once the batching scalar is known, the point of the zerocheck is asked for.
    fn after_constraints_batching(self, scalar: EF) -> (r: (Self, AirAction<F, EF>))
        requires
            self.well_formed(),
        ensures
            r.0.well_formed(),
            self.same_task(r.0),
            r.0.stage matches AirStage::ZerocheckPoint { batching_scalars } && batching_scalars@
                == Seq::new(self.table.n_constraints as nat, |k: int| power(scalar, k as nat)),
            r.1 matches AirAction::Exchange(turn) && turn.is_turn(
                seq![],
                Some(Work::Zerocheck),
                self.n_zerocheck_rounds(),
                None,
            ),
    {
        let batching_scalars = powers(scalar, self.table.n_constraints);
        proof {
            self.zerocheck_rounds_fit();
        }
        let n_challenges: usize = self.table.n_zerocheck_challenges(&self.settings);
        let turn = Exchange {
            messages: Vec::new(),
            work_before: Some(Work::Zerocheck),
            n_challenges,
            work_after: None,
        };
        let next = AirProver {
            table: self.table,
            settings: self.settings,
            witness: self.witness,
            stage: AirStage::ZerocheckPoint { batching_scalars },
        };
        (next, AirAction::Exchange(turn))
    }

    /// A step that keeps the task keeps what depends on the task alone.
    proof fn same_task_fits(self, next: Self)
        requires
            self.fits(),
            self.same_task(next),
        ensures
            next.fits(),
            next.n_zerocheck_rounds() == self.n_zerocheck_rounds(),
            next.n_witness() == self.n_witness(),
    {
    }

    /// A stage of the zerocheck whose polynomials are folded columns is well formed.
    proof fn zerocheck_stage_holds(self, selectors: Seq<DensePolynomial<F>>)
        requires
            self.fits(),
            self.stage matches AirStage::Zerocheck { batching_scalars, point, columns, run } && {
                let statement = self.zerocheck_statement(batching_scalars@, point@);
                &&& batching_scalars@.len() == self.table.n_constraints
                &&& point@.len() == self.n_zerocheck_rounds()
                &&& statement.can_run::<F>()
                &&& all_have_variables(columns@, self.table.log_length as nat)
                &&& are_zerocheck_columns(
                    columns@,
                    self.table.preprocessed_columns@,
                    self.witness@,
                )
                &&& run.awaits(statement)
                &&& run.prover matches Some(prover) && prover.folded@.len() == columns@.len()
                    && folded_from::<F, F, EF>(prover, statement, tables_of(columns@), selectors)
            },
        ensures
            self.well_formed(),
    {
    }

    /// The rounds of the zerocheck can be counted.
    proof fn zerocheck_rounds_fit(self)
        requires
            self.fits(),
        ensures
            self.n_zerocheck_rounds() <= usize::MAX,
    {
        exponent_is_below_power(self.table.n_committed_variables());
    }

    /// What the zerocheck proves.
    fn zerocheck<'b>(&self, batching_scalars: &'b Vec<EF>, point: &'b Vec<EF>) -> (r:
        SumcheckStatement<'b, EF>)
        requires
            self.fits(),
            point@.len() == self.n_zerocheck_rounds(),
        ensures
            r == self.zerocheck_statement(batching_scalars@, point@),
            r.well_formed(),
            r.batching_scalars@ == batching_scalars@,
            r.eq_factor matches Some(eq_factor) && eq_factor@ == point@,
    {
        proof {
            self.zerocheck_rounds_fit();
            slice_is_determined(slice_of::<'b, EF>(batching_scalars@));
        }
        let scalars = batching_scalars.as_slice();
        let coordinates = point.as_slice();
        proof {
            slice_is_determined(scalars);
            slice_is_determined(coordinates);
        }
        SumcheckStatement::new(
            self.settings.univariate_skips,
            self.table.log_length,
            self.table.constraint_degree,
            scalars,
            Some(coordinates),
            true,
            None,
        )
    }

    /// Every round of the zerocheck can run.
    proof fn zerocheck_can_run(self, batching_scalars: Seq<EF>, point: Seq<EF>)
        requires
            self.fits(),
            point.len() == self.n_zerocheck_rounds(),
            self.zerocheck_statement(batching_scalars, point).well_formed(),
            self.zerocheck_statement(batching_scalars, point).eq_factor->0@ == point,
            self.point_is_usable(point),
        ensures
            self.zerocheck_statement(batching_scalars, point).can_run::<F>(),
    {
        let statement = self.zerocheck_statement(batching_scalars, point);
        let first = statement.first_parameters(EF::spec_zero(), None);
        lemma_pow2_pos(self.settings.univariate_skips as nat);
        if self.settings.univariate_skips > 0 {
            lemma_pow2_strictly_increases(
                (self.table.log_length - self.settings.univariate_skips) as nat,
                self.table.log_length as nat,
            );
        }
        if self.table.n_committed_variables() > self.table.log_length {
            lemma_pow2_strictly_increases(
                self.table.log_length as nat,
                self.table.n_committed_variables(),
            );
        }
        assert(first.domain() == pow2(self.settings.univariate_skips as nat));
    }

    /// Once the point is known, the zerocheck starts.
    fn after_zerocheck_point<E: HypercubeEvaluator<F, EF>>(
        self,
        batching_scalars: Vec<EF>,
        challenges: &[EF],
        evaluator: &E,
    ) -> (r: (Self, AirAction<F, EF>))
        requires
            self.well_formed(),
            batching_scalars@.len() == self.table.n_constraints,
            challenges@.len() == self.n_zerocheck_rounds(),
            self.point_is_usable(challenges@),
            evaluator.accepts(
                2 * self.table.n_columns as nat,
                (self.table.log_length - self.settings.univariate_skips) as nat,
                self.table.n_constraints as nat,
            ),
        ensures
            r.0.well_formed(),
            self.same_task(r.0),
            self.is_point_step(batching_scalars@, challenges@, *evaluator, r.0.stage, r.1),
    {
        let point = copy_of(challenges);
        let columns = self.table.zerocheck_columns(self.witness);
        let statement = self.zerocheck(&batching_scalars, &point);
        proof {
            self.zerocheck_can_run(batching_scalars@, point@);
            EF::results_are_canonical(EF::spec_zero(), EF::spec_zero());
            reduction(EF::spec_zero());
        }
        let references = references_to(&columns);
        proof {
            assert(all_have_variables(columns@, statement.n_vars as nat));
        }
        let (run, turn) = prove::<F, F, EF, E>(
            &statement,
            references.as_slice(),
            EF::zero(),
            None,
            evaluator,
        );
        let next = AirProver {
            table: self.table,
            settings: self.settings,
            witness: self.witness,
            stage: AirStage::Zerocheck { batching_scalars, point, columns, run },
        };
        (next, AirAction::Exchange(turn))
    }

    /// Once the challenge of a round of the zerocheck is known, the next round follows, or
    /// the values that the columns are left with are sent.
    fn after_zerocheck_round<L: HypercubeEvaluator<EF, EF>>(
        self,
        batching_scalars: Vec<EF>,
        point: Vec<EF>,
        columns: Vec<EvaluationsList<F>>,
        run: SumcheckRun<F, EF>,
        challenge: EF,
        later_evaluator: &L,
    ) -> (r: (Self, AirAction<F, EF>))
        requires
            (AirProver {
                stage: AirStage::Zerocheck { batching_scalars, point, columns, run },
                ..self
            }).well_formed(),
            forall|n: nat|
                n < self.table.log_length - self.settings.univariate_skips
                    ==> #[trigger] later_evaluator.accepts(
                    2 * self.table.n_columns as nat,
                    n,
                    self.table.n_constraints as nat,
                ),
        ensures
            r.0.well_formed(),
            self.same_task(r.0),
            self.is_zerocheck_step(
                batching_scalars@,
                point@,
                columns,
                run,
                challenge,
                *later_evaluator,
                r.0.stage,
                r.1,
            ),
    {
        let statement = self.zerocheck(&batching_scalars, &point);
        let references = references_to(&columns);
        let ghost before = run;
        let ghost selectors = if run.prover is None {
            run.round.selectors@
        } else {
            choose|selectors: Seq<DensePolynomial<F>>| #[trigger]
                folded_from::<F, F, EF>(
                    run.prover->0,
                    statement,
                    tables_of(columns@),
                    selectors,
                )
        };
        proof {
            self.zerocheck_rounds_fit();
            assert(all_have_variables(columns@, statement.n_vars as nat));
        }
        match run.advance::<F, L>(&statement, references.as_slice(), later_evaluator, challenge) {
            SumcheckStep::Next { run, turn } => {
                proof {
                    rounds_fold::<F, F, EF>(
                        before,
                        statement,
                        tables_of(columns@),
                        challenge,
                        run.prover->0,
                        selectors,
                    );
                }
                let next = AirProver {
                    table: self.table,
                    settings: self.settings,
                    witness: self.witness,
                    stage: AirStage::Zerocheck { batching_scalars, point, columns, run },
                };
                proof {
                    self.same_task_fits(next);
                    next.zerocheck_stage_holds(selectors);
                }
                (next, AirAction::Exchange(turn))
            },
            SumcheckStep::Finished(prover) => {
                let (up, down) = self.table.inner_sums(prover.folded.as_slice());
                proof {
                    rounds_fold::<F, F, EF>(
                        before,
                        statement,
                        tables_of(columns@),
                        challenge,
                        prover,
                        selectors,
                    );
                    let all = before.challenges().push(challenge);
                    let skipped = self.table.preprocessed_columns@.len();
                    let joined = self.table.preprocessed_columns@ + self.witness@;
                    assert forall|k: int| 0 <= k < self.n_witness() implies #[trigger] up@[k]
                        == self.values_up(selectors, all)[k] by {
                        assert(joined[skipped + k] == self.witness@[k]);
                        self.column_is_left_with_value(
                            prover,
                            statement,
                            columns@,
                            selectors,
                            skipped + k,
                        );
                    }
                    assert forall|k: int| 0 <= k < self.n_witness() implies #[trigger] down@[k]
                        == self.values_down(selectors, all)[k] by {
                        assert(joined[skipped + k] == self.witness@[k]);
                        self.column_is_left_with_value(
                            prover,
                            statement,
                            columns@,
                            selectors,
                            self.table.n_columns + skipped + k,
                        );
                    }
                    assert(up@ =~= self.values_up(selectors, all));
                    assert(down@ =~= self.values_down(selectors, all));
                }
                let n_scalars: usize = self.table.log_n_witness_columns();
                let mut messages: Vec<Vec<EF>> = Vec::new();
                messages.push(up);
                messages.push(down);
                let turn = Exchange {
                    messages,
                    work_before: Some(Work::ColumnsBatching),
                    n_challenges: n_scalars + 1 + self.settings.univariate_skips,
                    work_after: None,
                };
                let next = AirProver {
                    table: self.table,
                    settings: self.settings,
                    witness: self.witness,
                    stage: AirStage::ColumnsBatching { zerocheck_challenges: prover.challenges },
                };
                proof {
                    assert(prover.challenges@.len() == self.n_zerocheck_rounds());
                    assert(next.well_formed());
                    assert(folded_from::<F, F, EF>(
                        prover,
                        statement,
                        tables_of(columns@),
                        selectors,
                    ));
                }
                (next, AirAction::Exchange(turn))
            },
        }
    }

    /// The values that the challenges leave the witness columns with in the upper row.
    pub open spec fn values_up(
        self,
        selectors: Seq<DensePolynomial<F>>,
        challenges: Seq<EF>,
    ) -> Seq<EF> {
        let scalars = domain_weights::<F, EF>(
            self.settings.univariate_skips,
            selectors,
            challenges[0],
        );
        Seq::new(
            self.n_witness(),
            |k: int|
                value_left::<F, EF>(rows_up(self.witness@[k]@), scalars, challenges.drop_first()),
        )
    }

    /// The values that the challenges leave the witness columns with in the lower row.
    pub open spec fn values_down(
        self,
        selectors: Seq<DensePolynomial<F>>,
        challenges: Seq<EF>,
    ) -> Seq<EF> {
        let scalars = domain_weights::<F, EF>(
            self.settings.univariate_skips,
            selectors,
            challenges[0],
        );
        Seq::new(
            self.n_witness(),
            |k: int|
                value_left::<F, EF>(rows_down(self.witness@[k]@), scalars, challenges.drop_first()),
        )
    }

    /// A folded column is left with one value.
    pub(crate) proof fn column_is_left_with_value(
        self,
        prover: SumcheckProver<EF>,
        statement: SumcheckStatement<'_, EF>,
        columns: Seq<EvaluationsList<F>>,
        selectors: Seq<DensePolynomial<F>>,
        k: int,
    )
        requires
            folded_from::<F, F, EF>(prover, statement, tables_of(columns), selectors),
            prover.challenges@.len() == statement.n_vars - statement.skips + 1,
            statement.skips <= statement.n_vars,
            0 <= k < columns.len(),
        ensures
            reduced(prover.folded@[k]@[0]) == value_left::<F, EF>(
                columns[k]@,
                domain_weights::<F, EF>(statement.skips, selectors, prover.challenges@[0]),
                prover.challenges@.drop_first(),
            ),
    {
        let scalars = domain_weights::<F, EF>(statement.skips, selectors, prover.challenges@[0]);
        let tail = prover.challenges@.drop_first();
        let size = pow2(tail.len());
        let folded = first_variables_folded::<F, EF>(columns[k]@, scalars, size);
        assert(tables_of(columns)[k] == columns[k]@);
        assert(prover.folded@[k]@ == successively_folded(folded, tail));
        assert forall|i: int| 0 <= i < folded.len() implies (#[trigger] folded[i]).canonical() by {
            sum_is_canonical(
                scalars.len(),
                |j: int| scalars[j].spec_mul(EF::spec_embed(columns[k]@[j * size + i])),
            );
        }
        folding_each_variable_evaluates(folded, tail);
        multilinear_value_is_canonical::<EF, EF>(folded, tail);
        reduction(multilinear_value::<EF, EF>(folded, tail));
    }

    /// Whether a round of the zerocheck is followed by the next one, and the last one by the
    /// values that the witness columns are left with, in the upper and in the lower row.
    pub open spec fn is_zerocheck_step<L: HypercubeEvaluator<EF, EF>>(
        self,
        batching_scalars: Seq<EF>,
        point: Seq<EF>,
        columns: Vec<EvaluationsList<F>>,
        run: SumcheckRun<F, EF>,
        challenge: EF,
        later_evaluator: L,
        next: AirStage<F, EF>,
        action: AirAction<F, EF>,
    ) -> bool {
        let statement = self.zerocheck_statement(batching_scalars, point);
        if run.challenges().len() + 1 < self.n_zerocheck_rounds() {
            next matches AirStage::Zerocheck {
                batching_scalars: next_scalars,
                point: next_point,
                columns: next_columns,
                run: next_run,
            } && {
                &&& next_scalars@ == batching_scalars
                &&& next_point@ == point
                &&& next_columns == columns
                &&& next_run.prover matches Some(prover) && run.leaves::<F>(
                    statement,
                    tables_of(columns@),
                    challenge,
                    prover,
                )
                &&& next_run.sends_later_round(statement, later_evaluator)
                &&& action matches AirAction::Exchange(turn) && next_run.is_round_turn(
                    statement,
                    turn,
                )
            }
        } else {
            &&& next matches AirStage::ColumnsBatching { zerocheck_challenges }
                && zerocheck_challenges@ == run.challenges().push(challenge)
            &&& exists|selectors: Seq<DensePolynomial<F>>, prover: SumcheckProver<EF>|
                {
                    &&& are_round_selectors(selectors, statement.skips)
                    &&& run.leaves::<F>(statement, tables_of(columns@), challenge, prover)
                    &&& #[trigger] folded_from::<F, F, EF>(
                        prover,
                        statement,
                        tables_of(columns@),
                        selectors,
                    )
                    &&& action matches AirAction::Exchange(turn) && turn.is_turn(
                        seq![
                            self.values_up(selectors, run.challenges().push(challenge)),
                            self.values_down(selectors, run.challenges().push(challenge)),
                        ],
                        Some(Work::ColumnsBatching),
                        self.n_column_scalars() + 1 + self.settings.univariate_skips,
                        None,
                    )
                }
        }
    }

    /// What the inner sumcheck proves.
    fn inner<'b>(&self, scalars: &'b Vec<EF>) -> (r: SumcheckStatement<'b, EF>)
        requires
            self.fits(),
            scalars@ == seq![EF::spec_one()],
        ensures
            r == self.inner_statement(),
            r.can_run::<F>(),
            r.batching_scalars@ == seq![EF::spec_one()],
    {
        let scalars = scalars.as_slice();
        proof {
            slice_is_determined(scalars);
            lemma2_to64();
        }
        let r = SumcheckStatement::new(1, self.table.log_length, 2, scalars, None, false, None);
        proof {
            let first = r.first_parameters(EF::spec_zero(), None);
            assert(first.domain() == 2);
            assert(first.degree() == 2);
        }
        r
    }

    /// The tables that the awaited round of the inner sumcheck sums over.
    pub open spec fn inner_tables(
        self,
        pols: Seq<EvaluationsList<EF>>,
        run: SumcheckRun<F, EF>,
    ) -> Seq<Seq<EF>> {
        match run.prover {
            None => tables_of(pols),
            Some(prover) => tables_of(prover.folded@),
        }
    }

    /// The number of variables that the awaited round of the inner sumcheck leaves.
    pub open spec fn inner_left(self, run: SumcheckRun<F, EF>) -> nat {
        (self.table.log_length - run.challenges().len() - 1) as nat
    }

    /// Whether the inner sumcheck is about the batched column, and its claim is true.
    pub open spec fn inner_is_true(
        self,
        columns_batching_scalars: Seq<EF>,
        pols: Seq<EvaluationsList<EF>>,
        run: SumcheckRun<F, EF>,
    ) -> bool {
        let statement = self.inner_statement();
        let tables = self.inner_tables(pols, run);
        let left = self.inner_left(run);
        &&& pols[1]@ == combination::<F, EF>(
            self.witness@,
            leading_weights(columns_batching_scalars, self.witness@.len()),
            pow2(self.table.log_length as nat),
        )
        &&& forall|k: int, i: int|
            0 <= k < 2 && 0 <= i < pols[k]@.len() ==> (#[trigger] pols[k]@[i]).canonical()
        &&& run.missing_mul_factor is None
        &&& run.prover matches Some(prover) ==> {
            &&& prover.missing_mul_factor is None
            &&& forall|k: int|
                0 <= k < 2 ==> (#[trigger] prover.folded@[k])@ == successively_folded(
                    pols[k]@,
                    prover.challenges@,
                )
        }
        &&& is_round_polynomial::<F, EF, EF>(
            run.round.polynomial.coeffs@,
            run.parameters(statement),
            inner_product::<EF>(),
            tables,
            pow2(left),
            run.round.selectors@,
        )
        &&& integers_differ_by_units::<F>(run.parameters(statement).n_values())
        &&& hypercube_sum(inner_product::<EF>(), tables, 2 * pow2(left), None) == reduced(
            run.parameters(statement).sum,
        )
    }

    /// Whether the scalars for the columns are followed by the inner sumcheck, whose first
    /// turn also sends the mixed views of the batched column.
    pub open spec fn is_columns_step(
        self,
        zerocheck_challenges: Seq<EF>,
        challenges: Seq<EF>,
        next: AirStage<F, EF>,
        action: AirAction<F, EF>,
    ) -> bool {
        let n = self.n_column_scalars() as int;
        let alpha = challenges[n];
        let epsilons = challenges.skip(n + 1);
        let tail = zerocheck_challenges.skip(1);
        next matches AirStage::Inner { columns_batching_scalars, pols, run } && {
            &&& columns_batching_scalars@ == challenges.take(n)
            &&& run.prover is None
            &&& pols@[0]@ == sum_values(
                up_weights(epsilons + tail),
                scaled_values(down_weights(epsilons + tail), alpha),
            )
            &&& exists|batched: BatchedWitness<EF>|
                {
                    &&& #[trigger] is_batched_witness::<F, EF>(
                        batched,
                        self.witness@,
                        columns_batching_scalars@,
                        alpha,
                        tail,
                        epsilons,
                    )
                    &&& pols@[1] == batched.batched_column
                    &&& run.sum == batched.inner_sum
                    &&& adds_up::<F, EF>(
                        run.round.polynomial.coeffs@,
                        run.parameters(self.inner_statement()),
                    )
                    &&& action matches AirAction::Exchange(turn) && turn.is_turn(
                        seq![batched.sub_evals@, run.round.polynomial.coeffs@],
                        None,
                        1,
                        Some(Work::SumcheckRound { degree: 2 }),
                    )
                }
        }
    }

    /// Once the scalars for the columns are known, the inner sumcheck starts.
    fn after_columns_batching(
        self,
        zerocheck_challenges: Vec<EF>,
        challenges: &[EF],
    ) -> (r: (Self, AirAction<F, EF>))
        requires
            self.fits(),
            zerocheck_challenges@.len() == self.n_zerocheck_rounds(),
            challenges@.len() == self.n_column_scalars() + 1 + self.settings.univariate_skips,
        ensures
            r.0.well_formed(),
            self.same_task(r.0),
            self.is_columns_step(zerocheck_challenges@, challenges@, r.0.stage, r.1),
    {
        let n: usize = self.table.log_n_witness_columns();
        let n_challenges: usize = challenges.len();
        let n_rounds: usize = zerocheck_challenges.len();
        let scalars = slice_subrange(challenges, 0, n);
        let alpha = challenges[n];
        let epsilons = slice_subrange(challenges, n + 1, n_challenges);
        let tail = slice_subrange(zerocheck_challenges.as_slice(), 1, n_rounds);
        proof {
            assert(scalars@ =~= challenges@.take(n as int));
            assert(epsilons@ =~= challenges@.skip(n + 1));
            assert(tail@ =~= zerocheck_challenges@.skip(1));
            assert(self.witness@[0].well_formed());
            log2_ceil_is_least(self.n_witness());
            if n < self.table.n_committed_variables() {
                lemma_pow2_strictly_increases(n as nat, self.table.n_committed_variables());
            }
        }
        let batched = prepare_batched_witness(self.witness, scalars, alpha, tail, epsilons);
        let ghost made = batched;
        let inner_sum = batched.inner_sum;
        let sub_evals = copy_of(batched.sub_evals.evals());
        let pols = inner_sumcheck_multilinears(epsilons, tail, alpha, batched.batched_column);
        let mut ones: Vec<EF> = Vec::new();
        ones.push(EF::one());
        assert(ones@ =~= seq![EF::spec_one()]);
        let statement = self.inner(&ones);
        let references = references_to(&pols);
        let evaluator = ComputationEvaluator { computation: &InnerSumcheckCircuit };
        proof {
            assert(all_have_variables(pols@, statement.n_vars as nat));
        }
        let (run, round_turn) = prove::<
            F,
            EF,
            EF,
            ComputationEvaluator<'_, InnerSumcheckCircuit>,
        >(
            &statement,
            references.as_slice(),
            inner_sum,
            None,
            &evaluator,
        );
        let mut messages: Vec<Vec<EF>> = Vec::new();
        messages.push(sub_evals);
        messages.push(copy_of(run.round.polynomial.coeffs.as_slice()));
        let turn = Exchange {
            messages,
            work_before: round_turn.work_before,
            n_challenges: round_turn.n_challenges,
            work_after: round_turn.work_after,
        };
        let columns_batching_scalars = copy_of(scalars);
        proof {
            lemma2_to64();
            self.inner_starts_true(made, scalars@, alpha, tail@, epsilons@, pols@, run, evaluator);
            assert(run.parameters(statement).domain() == 2);
            assert(run.sent_degree(statement) == 2) by {
                lemma_mul_basics(2);
            }
            assert(turn.messages@[0]@ == made.sub_evals@);
            assert(turn.messages@[1]@ == run.round.polynomial.coeffs@);
            assert(turn.is_turn(
                seq![made.sub_evals@, run.round.polynomial.coeffs@],
                None,
                1,
                Some(Work::SumcheckRound { degree: 2 }),
            ));
            assert(is_batched_witness::<F, EF>(
                made,
                self.witness@,
                columns_batching_scalars@,
                alpha,
                zerocheck_challenges@.skip(1),
                challenges@.skip(n + 1),
            ));
        }
        let next = AirProver {
            table: self.table,
            settings: self.settings,
            witness: self.witness,
            stage: AirStage::Inner { columns_batching_scalars, pols, run },
        };
        (next, AirAction::Exchange(turn))
    }

    /// The inner sumcheck starts from a true claim.
    proof fn inner_starts_true(
        self,
        batched: BatchedWitness<EF>,
        scalars: Seq<EF>,
        alpha: EF,
        tail: Seq<EF>,
        epsilons: Seq<EF>,
        pols: Seq<EvaluationsList<EF>>,
        run: SumcheckRun<F, EF>,
        evaluator: ComputationEvaluator<'_, InnerSumcheckCircuit>,
    )
        requires
            self.fits(),
            epsilons.len() + tail.len() == self.table.log_length,
            is_batched_witness::<F, EF>(batched, self.witness@, scalars, alpha, tail, epsilons),
            pols.len() == 2,
            pols[0]@ == sum_values(
                up_weights(epsilons + tail),
                scaled_values(down_weights(epsilons + tail), alpha),
            ),
            pols[1] == batched.batched_column,
            run.prover is None,
            run.sum == batched.inner_sum,
            run.missing_mul_factor is None,
            is_round_polynomial::<F, EF, EF>(
                run.round.polynomial.coeffs@,
                run.parameters(self.inner_statement()),
                |point: Seq<EF>|
                    <ComputationEvaluator<'_, InnerSumcheckCircuit> as HypercubeEvaluator<
                        EF,
                        EF,
                    >>::point_value(
                        &evaluator,
                        point,
                        self.inner_statement().batching_scalars@,
                    ),
                tables_of(pols),
                pow2((self.table.log_length - 1) as nat),
                run.round.selectors@,
            ),
            integers_differ_by_units::<F>(run.parameters(self.inner_statement()).n_values()),
        ensures
            self.inner_is_true(scalars, pols, run),
    {
        let f = |point: Seq<EF>|
            <ComputationEvaluator<'_, InnerSumcheckCircuit> as HypercubeEvaluator<
                EF,
                EF,
            >>::point_value(&evaluator, point, self.inner_statement().batching_scalars@);
        assert(f =~= inner_product::<EF>());
        let n = self.table.log_length as nat;
        lemma_pow2_unfold(n);
        assert(self.witness@[0].well_formed());
        inner_sum_is_true(batched, alpha, epsilons, tail, pols);
        multilinear_value_is_canonical::<EF, EF>(batched.sub_evals@, epsilons);
        reduction(batched.inner_sum);
        assert forall|k: int, i: int| 0 <= k < 2 && 0 <= i < pols[k]@.len() implies (
        #[trigger] pols[k]@[i]).canonical() by {
            if k == 0 {
                let up = up_weights(epsilons + tail);
                let down = scaled_values(down_weights(epsilons + tail), alpha);
                EF::results_are_canonical(up[i], down[i]);
            } else {
                let weights = leading_weights(scalars, self.witness@.len());
                sum_is_canonical(
                    self.witness@.len(),
                    |j: int| weights[j].spec_mul(EF::spec_embed(self.witness@[j]@[i])),
                );
            }
        }
    }

    /// Whether a round of the inner sumcheck is followed by the next one, and the last one by
    /// the opening, which is true of the committed polynomial.
    pub open spec fn is_inner_step(
        self,
        columns_batching_scalars: Seq<EF>,
        pols: Vec<EvaluationsList<EF>>,
        run: SumcheckRun<F, EF>,
        challenge: EF,
        next: AirStage<F, EF>,
        action: AirAction<F, EF>,
    ) -> bool {
        let statement = self.inner_statement();
        if run.challenges().len() + 1 < self.table.log_length {
            next matches AirStage::Inner {
                columns_batching_scalars: next_scalars,
                pols: next_pols,
                run: next_run,
            } && {
                &&& next_scalars@ == columns_batching_scalars
                &&& next_pols == pols
                &&& next_run.prover matches Some(prover) && run.leaves::<EF>(
                    statement,
                    tables_of(pols@),
                    challenge,
                    prover,
                )
                &&& adds_up::<F, EF>(
                    next_run.round.polynomial.coeffs@,
                    next_run.parameters(statement),
                )
                &&& action matches AirAction::Exchange(turn) && next_run.is_round_turn(
                    statement,
                    turn,
                )
            }
        } else {
            &&& next is Finished
            &&& action matches AirAction::Open(opening) && {
                &&& opening.point@ == columns_batching_scalars + run.challenges().push(challenge)
                &&& opening.value == multilinear_value::<F, EF>(
                    packed_values(
                        self.witness@,
                        pow2(self.table.log_length as nat) as int,
                        pow2(self.table.n_committed_variables()),
                    ),
                    opening.point@,
                )
                &&& poly_value::<EF, EF>(run.round.polynomial.coeffs@, challenge)
                    == multilinear_value::<EF, EF>(
                    pols@[0]@,
                    run.challenges().push(challenge),
                ).spec_mul(opening.value)
            }
        }
    }

    /// The last claim of the inner sumcheck is the product of the values of the two polynomials.
    proof fn last_inner_claim(
        self,
        pols: Seq<EvaluationsList<EF>>,
        prover: SumcheckProver<EF>,
    )
        requires
            pols.len() == 2,
            all_have_variables(pols, prover.challenges@.len()),
            forall|k: int, i: int|
                0 <= k < 2 && 0 <= i < pols[k]@.len() ==> (#[trigger] pols[k]@[i]).canonical(),
            prover.folded@.len() == 2,
            forall|k: int|
                0 <= k < 2 ==> (#[trigger] prover.folded@[k])@ == successively_folded(
                    pols[k]@,
                    prover.challenges@,
                ),
            prover.sum == hypercube_sum(
                inner_product::<EF>(),
                tables_of(prover.folded@),
                pow2(0),
                None,
            ),
        ensures
            prover.sum == multilinear_value::<EF, EF>(pols[0]@, prover.challenges@).spec_mul(
                reduced(prover.folded@[1]@[0]),
            ),
    {
        lemma2_to64();
        assert forall|k: int| 0 <= k < 2 implies (#[trigger] prover.folded@[k])@[0]
            == multilinear_value::<EF, EF>(pols[k]@, prover.challenges@) by {
            assert(pols[k].well_formed());
            assert forall|i: int| 0 <= i < pols[k]@.len() implies (
            #[trigger] pols[k]@[i]).canonical() by {}
            folding_each_variable_evaluates(pols[k]@, prover.challenges@);
        }
        let point = Seq::new(2, |k: int| prover.folded@[k]@[0]);
        sum_adds_points_up(inner_product::<EF>(), tables_of(prover.folded@), 0, None, point);
        let a = point[0];
        let b = point[1];
        multilinear_value_is_canonical::<EF, EF>(pols[1]@, prover.challenges@);
        reduction(b);
        EF::results_are_canonical(a, b);
        reduction(a.spec_mul(b));
    }

    /// The claim of the inner sumcheck stays true, and the polynomials stay those of the start,
    /// folded at the challenges.
    proof fn inner_stays_true(
        self,
        columns_batching_scalars: Seq<EF>,
        pols: Seq<EvaluationsList<EF>>,
        run: SumcheckRun<F, EF>,
        challenge: EF,
        prover: SumcheckProver<EF>,
    )
        requires
            self.fits(),
            pols.len() == 2,
            all_have_variables(pols, self.table.log_length as nat),
            run.awaits(self.inner_statement()),
            run.prover matches Some(before) ==> before.folded@.len() == 2,
            self.inner_is_true(columns_batching_scalars, pols, run),
            run.leaves::<EF>(self.inner_statement(), tables_of(pols), challenge, prover),
        ensures
            prover.missing_mul_factor is None,
            prover.folded@.len() == 2,
            forall|k: int|
                0 <= k < 2 ==> (#[trigger] prover.folded@[k])@ == successively_folded(
                    pols[k]@,
                    prover.challenges@,
                ),
            prover.sum == hypercube_sum(
                inner_product::<EF>(),
                tables_of(prover.folded@),
                pow2(self.inner_left(run)),
                None,
            ),
            prover.sum.canonical(),
    {
        let statement = self.inner_statement();
        let tables = self.inner_tables(pols, run);
        let left = self.inner_left(run);
        let parameters = run.parameters(statement);
        let size = pow2(left);
        lemma2_to64();
        lemma_pow2_unfold((left + 1) as nat);
        assert forall|k: int| 0 <= k < 2 implies {
            &&& (#[trigger] tables[k]).len() == 2 * size
            &&& tables[k] == successively_folded(pols[k]@, run.challenges())
            &&& forall|i: int| 0 <= i < tables[k].len() ==> (#[trigger] tables[k][i]).canonical()
        } by {
            assert(pols[k].well_formed());
            let rest = Seq::new((left + 1) as nat, |i: int| EF::spec_zero());
            if let Some(before) = run.prover {
                assert(before.folded@[k]@ == successively_folded(pols[k]@, before.challenges@));
            }
            assert forall|i: int| 0 <= i < pols[k]@.len() implies (
            #[trigger] pols[k]@[i]).canonical() by {}
            folding_one_by_one_fixes_variables(pols[k]@, run.challenges(), rest);
        }
        inner_claim_survives_round::<F, EF>(
            run.round.polynomial.coeffs@,
            parameters,
            tables,
            left,
            run.round.selectors@,
            challenge,
        );
        assert(run.challenges().push(challenge).drop_last() =~= run.challenges());
        assert forall|k: int| 0 <= k < 2 implies (#[trigger] prover.folded@[k])@
            == successively_folded(pols[k]@, prover.challenges@) && prover.folded@[k]@
            == tables_folded_by(tables, challenge, size)[k] by {
            assert(tables[k].len() == 2 * size);
            assert(tables_of(pols)[k] == pols[k]@);
        }
        assert(tables_of(prover.folded@) =~= tables_folded_by(tables, challenge, size));
        poly_value_is_canonical::<EF, EF>(run.round.polynomial.coeffs@, challenge);
    }

    /// Once the challenge of a round of the inner sumcheck is known, the next round follows,
    /// or the opening.
    fn after_inner_round(
        self,
        columns_batching_scalars: Vec<EF>,
        pols: Vec<EvaluationsList<EF>>,
        run: SumcheckRun<F, EF>,
        challenge: EF,
    ) -> (r: (Self, AirAction<F, EF>))
        requires
            (AirProver {
                stage: AirStage::Inner { columns_batching_scalars, pols, run },
                ..self
            }).well_formed(),
        ensures
            r.0.well_formed(),
            self.same_task(r.0),
            self.is_inner_step(
                columns_batching_scalars@,
                pols,
                run,
                challenge,
                r.0.stage,
                r.1,
            ),
    {
        let mut ones: Vec<EF> = Vec::new();
        ones.push(EF::one());
        assert(ones@ =~= seq![EF::spec_one()]);
        let statement = self.inner(&ones);
        let references = references_to(&pols);
        let evaluator = ComputationEvaluator { computation: &InnerSumcheckCircuit };
        let ghost before = run;
        proof {
            assert(all_have_variables(pols@, statement.n_vars as nat));
        }
        match run.advance::<EF, ComputationEvaluator<'_, InnerSumcheckCircuit>>(
            &statement,
            references.as_slice(),
            &evaluator,
            challenge,
        ) {
            SumcheckStep::Next { run, turn } => {
                proof {
                    let prover = run.prover->0;
                    self.inner_stays_true(
                        columns_batching_scalars@,
                        pols@,
                        before,
                        challenge,
                        prover,
                    );
                    let f = |point: Seq<EF>|
                        <ComputationEvaluator<'_, InnerSumcheckCircuit> as HypercubeEvaluator<
                            EF,
                            EF,
                        >>::point_value(&evaluator, point, statement.batching_scalars@);
                    assert(f =~= inner_product::<EF>());
                    reduction(prover.sum);
                    lemma_pow2_unfold(self.inner_left(before));
                }
                let next = AirProver {
                    table: self.table,
                    settings: self.settings,
                    witness: self.witness,
                    stage: AirStage::Inner { columns_batching_scalars, pols, run },
                };
                (next, AirAction::Exchange(turn))
            },
            SumcheckStep::Finished(prover) => {
                proof {
                    self.inner_stays_true(
                        columns_batching_scalars@,
                        pols@,
                        before,
                        challenge,
                        prover,
                    );
                    assert(prover.folded@[1].well_formed());
                }
                let opening = opening_statement(
                    columns_batching_scalars.as_slice(),
                    prover.challenges.as_slice(),
                    prover.folded.as_slice(),
                );
                proof {
                    log2_ceil_is_least(self.n_witness());
                    opening_is_true::<F, EF>(
                        self.witness@,
                        columns_batching_scalars@,
                        prover.challenges@,
                        opening,
                    );
                    self.last_inner_claim(pols@, prover);
                }
                let next = AirProver {
                    table: self.table,
                    settings: self.settings,
                    witness: self.witness,
                    stage: AirStage::Finished,
                };
                (next, AirAction::Open(opening))
            },
        }
    }

    /// Whether the point is followed by the first round of the zerocheck, whose claim is zero.
    pub open spec fn is_point_step<E: HypercubeEvaluator<F, EF>>(
        self,
        batching_scalars: Seq<EF>,
        challenges: Seq<EF>,
        evaluator: E,
        next: AirStage<F, EF>,
        action: AirAction<F, EF>,
    ) -> bool {
        let statement = self.zerocheck_statement(batching_scalars, challenges);
        next matches AirStage::Zerocheck { batching_scalars: scalars, point, columns, run } && {
            &&& scalars@ == batching_scalars
            &&& point@ == challenges
            &&& statement.batching_scalars@ == batching_scalars
            &&& statement.eq_factor matches Some(eq_factor) && eq_factor@ == challenges
            &&& run.prover is None
            &&& run.sum == EF::spec_zero()
            &&& run.missing_mul_factor is None
            &&& is_round_polynomial::<F, F, EF>(
                run.round.polynomial.coeffs@,
                run.parameters(statement),
                |p: Seq<F>| evaluator.point_value(p, batching_scalars),
                tables_of(columns@),
                pow2((self.table.log_length - self.settings.univariate_skips) as nat),
                run.round.selectors@,
            )
            &&& integers_differ_by_units::<F>(run.parameters(statement).n_values())
            &&& adds_up::<F, EF>(run.round.polynomial.coeffs@, run.parameters(statement))
            &&& action matches AirAction::Exchange(turn) && run.is_round_turn(statement, turn)
        }
    }

    /// Whether the challenges that the stage waits for lead to the next stage and action.
    pub open spec fn is_step<E: HypercubeEvaluator<F, EF>, L: HypercubeEvaluator<EF, EF>>(
        self,
        challenges: Seq<EF>,
        evaluator: E,
        later_evaluator: L,
        next: AirStage<F, EF>,
        action: AirAction<F, EF>,
    ) -> bool {
        match self.stage {
            AirStage::Commitment => {
                &&& next is ConstraintsBatching
                &&& action matches AirAction::Exchange(turn) && turn.is_turn(
                    seq![],
                    Some(Work::ConstraintsBatching),
                    1,
                    None,
                )
            },
            AirStage::ConstraintsBatching => {
                &&& next matches AirStage::ZerocheckPoint { batching_scalars } && batching_scalars@
                    == Seq::new(
                    self.table.n_constraints as nat,
                    |k: int| power(challenges[0], k as nat),
                )
                &&& action matches AirAction::Exchange(turn) && turn.is_turn(
                    seq![],
                    Some(Work::Zerocheck),
                    self.n_zerocheck_rounds(),
                    None,
                )
            },
            AirStage::ZerocheckPoint { batching_scalars } => self.is_point_step(
                batching_scalars@,
                challenges,
                evaluator,
                next,
                action,
            ),
            AirStage::Zerocheck { batching_scalars, point, columns, run } => self.is_zerocheck_step(
                batching_scalars@,
                point@,
                columns,
                run,
                challenges[0],
                later_evaluator,
                next,
                action,
            ),
            AirStage::ColumnsBatching { zerocheck_challenges } => self.is_columns_step(
                zerocheck_challenges@,
                challenges,
                next,
                action,
            ),
            AirStage::Inner { columns_batching_scalars, pols, run } => self.is_inner_step(
                columns_batching_scalars@,
                pols,
                run,
                challenges[0],
                next,
                action,
            ),
            AirStage::Finished => false,
        }
    }

    /// Takes the challenges that the stage waits for, and says what comes next.
    pub fn advance<E: HypercubeEvaluator<F, EF>, L: HypercubeEvaluator<EF, EF>>(
        self,
        challenges: &[EF],
        evaluator: &E,
        later_evaluator: &L,
    ) -> (r: (Self, AirAction<F, EF>))
        requires
            self.well_formed(),
            self.stage !is Finished,
            challenges@.len() == self.n_awaited(),
            self.stage is ZerocheckPoint ==> self.point_is_usable(challenges@),
            self.accepted_by(*evaluator, *later_evaluator),
        ensures
            r.0.well_formed(),
            self.same_task(r.0),
            self.is_step(challenges@, *evaluator, *later_evaluator, r.0.stage, r.1),
            r.1 is Open <==> r.0.stage is Finished,
            r.1 !is Commit,
            r.1 matches AirAction::Exchange(turn) ==> turn.n_challenges == r.0.n_awaited(),
            self.stage is ConstraintsBatching ==> (
            r.0.stage matches AirStage::ZerocheckPoint { batching_scalars } && {
                &&& batching_scalars@.len() == self.table.n_constraints
                &&& self.table.n_constraints > 0 ==> batching_scalars@[0] == EF::spec_one()
                &&& forall|k: int, next: int|
                    0 <= k && next == k + 1 && next < self.table.n_constraints
                        ==> #[trigger] batching_scalars@[next] == (
                    #[trigger] batching_scalars@[k]).spec_mul(challenges@[0])
            }),
            self.stage is ZerocheckPoint && self.table.constraint_degree > 0 ==> (
            r.1 matches AirAction::Exchange(turn) && turn.messages@.len() == 1
                && turn.messages@[0]@.len() == (self.table.constraint_degree + 1) * (pow2(
                self.settings.univariate_skips as nat,
            ) - 1) + 1),
            self.stage is ZerocheckPoint && self.table.constraint_degree == 0 ==> (
            r.1 matches AirAction::Exchange(turn) && turn.messages@.len() == 1
                && turn.messages@[0]@.len() == 2 * (pow2(self.settings.univariate_skips as nat) - 1)
                + 1),
            self.stage is Zerocheck && r.0.stage is Zerocheck ==> (
            r.1 matches AirAction::Exchange(turn) && turn.messages@.len() == 1
                && turn.messages@[0]@.len() == self.table.constraint_degree + 2),
    {
        let ghost before = self;
        let task = AirProver {
            table: self.table,
            settings: self.settings,
            witness: self.witness,
            stage: AirStage::Commitment,
        };
        let r = match self.stage {
            AirStage::Commitment => task.after_commitment(),
            AirStage::ConstraintsBatching => task.after_constraints_batching(challenges[0]),
            AirStage::ZerocheckPoint { batching_scalars } => task.after_zerocheck_point::<E>(
                batching_scalars,
                challenges,
                evaluator,
            ),
            AirStage::Zerocheck { batching_scalars, point, columns, run } =>
                task.after_zerocheck_round::<L>(
                batching_scalars,
                point,
                columns,
                run,
                challenges[0],
                later_evaluator,
            ),
            AirStage::ColumnsBatching { zerocheck_challenges } => task.after_columns_batching(
                zerocheck_challenges,
                challenges,
            ),
            AirStage::Inner { columns_batching_scalars, pols, run } => task.after_inner_round(
                columns_batching_scalars,
                pols,
                run,
                challenges[0],
            ),
            AirStage::Finished => task.after_commitment(),
        };
        proof {
            if before.stage is ConstraintsBatching {
                constraints_are_batched_by_powers(
                    before,
                    challenges@,
                    *evaluator,
                    *later_evaluator,
                    r.0.stage,
                    r.1,
                );
            }
            if before.stage is ZerocheckPoint || before.stage is Zerocheck {
                zerocheck_messages_have_length(
                    before,
                    challenges@,
                    *evaluator,
                    *later_evaluator,
                    r.0.stage,
                    r.1,
                );
            }
        }
        r
    }
}

impl<F: Field, A> AirTable<F, A> {
    /// Starts the proof that the witness satisfies the constraints: the columns are to be
    /// committed, one after another. The prover that comes back takes the challenges.
    pub fn prove<'a, EF: ExtensionField<F>>(
        &'a self,
        settings: AirSettings,
        witness: &'a [EvaluationsList<F>],
        pow_bits: usize,
    ) -> (r: (AirProver<'a, F, EF, A>, AirAction<F, EF>))
        requires
            (AirProver::<'a, F, EF, A> {
                table: self,
                settings,
                witness,
                stage: AirStage::Commitment,
            }).fits(),
        ensures
            r.0.well_formed(),
            r.0.table == self,
            r.0.settings == settings,
            r.0.witness == witness,
            r.0.stage is Commitment,
            r.1 matches AirAction::Commit { parameters, dft_size, polynomial } && {
                &&& parameters == WhirParameters {
                    num_variables: self.n_committed_variables() as usize,
                    initial_statement: true,
                    security_level: settings.security_bits,
                    pow_bits,
                    folding_factor: settings.whir_folding_factor,
                    soundness_type: settings.whir_soudness_type,
                    starting_log_inv_rate: settings.whir_log_inv_rate,
                    rs_domain_initial_reduction_factor:
                        settings.whir_initial_domain_reduction_factor,
                    univariate_skip: false,
                }
                &&& dft_size * EF::spec_dimension() == pow2(
                    self.n_committed_variables() + settings.whir_log_inv_rate as nat,
                )
                &&& polynomial.well_formed()
                &&& polynomial@ == packed_values(
                    witness@,
                    pow2(self.log_length as nat) as int,
                    pow2(self.n_committed_variables()),
                )
            },
    {
        let prover: AirProver<'a, F, EF, A> = AirProver {
            table: self,
            settings,
            witness,
            stage: AirStage::Commitment,
        };
        proof {
            assert(witness@[0].well_formed());
        }
        let parameters = self.build_whir_params(&settings, pow_bits);
        let degree: usize = EF::dimension();
        let dft_size: usize = self.dft_size(&settings, degree);
        let polynomial = packed_multilinear(witness);
        (prover, AirAction::Commit { parameters, dft_size, polynomial })
    }
}

} // verus!
