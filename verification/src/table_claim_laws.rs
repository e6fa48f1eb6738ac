//! Why the claims that a prover makes of a table are true where the witness meets the constraints.

use vstd::arithmetic::power2::*;
use vstd::prelude::*;

use crate::air_prover::{are_zerocheck_columns, AirAction, AirProver, AirStage};
use crate::dense::{poly_value, DensePolynomial};
use crate::evals::EvaluationsList;
use crate::field::{reduction, ExtensionField, Field};
use crate::hypercube_programs::{
    main_pair_flat, program_accepts, program_value, reads_main_columns_only,
};
use crate::kernel_ir::compile::{compilation_preserves_meaning, is_compiled_from};
use crate::kernel_ir::degree_laws::{compiled_degree_is_bounded, degrees_suffice};
use crate::kernel_ir::inputs::KernelInput;
use crate::kernel_ir::lowered::{
    is_lowered_from, layout_covers_inputs, lowered_tape_computes_the_same,
    LoweredConstraintProgram, LoweredKernelInstruction,
};
use crate::kernel_ir::program::{ConstraintProgram, KernelInstruction};
use crate::kernel_ir::symbolic::{node_value, SymbolicGraph};
use crate::multilinear::{rows_down, rows_up};
use crate::program_degree::{constants_are_canonical, degree_is_at_most};
use crate::sumcheck::hypercube::{point_at, tables_of, HypercubeEvaluator};
use crate::sumcheck::message_laws::factor_grows_by_agreement;
use crate::sumcheck::prover::SumcheckProver;
use crate::sumcheck::round::{domain_weights, is_round_polynomial};
use crate::sumcheck::round_laws::integers_differ_by_units;
use crate::sumcheck::run::{folded_from, rounds_fold};
use crate::sums::{sum_is_canonical, sum_to};
use crate::witness_laws::value_left;
use crate::zerocheck_laws::{
    claim_is_true, constraints, evaluates, first_polynomial_leaves_true_claim,
    later_challenge_leaves_true_claim, met_constraints_batch_to_zero, suits,
    true_claim_ends_in_value,
};

verus! {

/// The columns of a table at rows `x` and `x + 1`, preprocessed ones first.
pub open spec fn row_pair<F>(
    preprocessed: Seq<EvaluationsList<F>>,
    witness: Seq<EvaluationsList<F>>,
    x: int,
) -> Seq<F> {
    let columns = preprocessed + witness;
    Seq::new(
        2 * columns.len(),
        |k: int|
            if k < columns.len() {
                columns[k]@[x]
            } else {
                columns[k - columns.len()]@[x + 1]
            },
    )
}

/// Whether a program holds the constraints of the table of a prover, and every two rows that
/// follow each other meet them.
pub open spec fn meets_constraints<F: Field, EF: ExtensionField<F>, A>(
    prover: AirProver<'_, F, EF, A>,
    program: LoweredConstraintProgram<F>,
) -> bool {
    let preprocessed = prover.table.preprocessed_columns@;
    let witness = prover.witness@;
    &&& program_accepts(
        program,
        2 * prover.table.n_columns as nat,
        prover.table.n_constraints as nat,
    )
    &&& prover.table.constraint_degree > 0
    &&& degree_is_at_most(program, prover.table.constraint_degree as nat)
    &&& constants_are_canonical::<F, EF>(program.instructions@)
    &&& forall|k: int, i: int|
        0 <= k < prover.table.n_columns && 0 <= i < (preprocessed + witness)[k]@.len() ==> (
        #[trigger] (preprocessed + witness)[k]@[i]).canonical()
    &&& forall|x: int, k: int|
        0 <= x && x + 1 < pow2(prover.table.log_length as nat) && 0 <= k < program.outputs@.len()
            ==> #[trigger] program.output_values::<F>(
            main_pair_flat(program.input_layout, row_pair(preprocessed, witness, x)),
        )[k] == F::spec_zero()
}

/// How far the challenges agree with the point: the weights of the first challenge with those of
/// the first coordinate, and then `(1 - r) * (1 - c) + r * c` for each coordinate `r` and its
/// challenge `c`, all multiplied.
pub open spec fn agreement<F: Field, EF: ExtensionField<F>>(
    skips: usize,
    selectors: Seq<DensePolynomial<F>>,
    point: Seq<EF>,
    challenges: Seq<EF>,
) -> EF
    decreases challenges.len(),
{
    if challenges.len() <= 1 {
        let a = domain_weights::<F, EF>(skips, selectors, point[0]);
        let b = domain_weights::<F, EF>(skips, selectors, challenges[0]);
        sum_to(b.len(), |i: int| a[i].spec_mul(b[i]))
    } else {
        let r = point[challenges.len() - 1];
        let c = challenges.last();
        EF::spec_one().spec_sub(r).spec_mul(EF::spec_one().spec_sub(c)).spec_add(
            r.spec_mul(c),
        ).spec_mul(agreement(skips, selectors, point, challenges.drop_last()))
    }
}

/// Whether the zerocheck of a prover is about its table, its claims so far are true, and the
/// factor of the claims is how far the challenges agree with the point.
pub open spec fn zerocheck_is_true<
    F: Field,
    EF: ExtensionField<F>,
    A,
    L: HypercubeEvaluator<EF, EF>,
>(
    prover: AirProver<'_, F, EF, A>,
    program: LoweredConstraintProgram<F>,
    later_evaluator: L,
    selectors: Seq<DensePolynomial<F>>,
) -> bool {
    prover.stage matches AirStage::Zerocheck { batching_scalars, point, columns, run } && {
        let statement = prover.zerocheck_statement(batching_scalars@, point@);
        let skips = prover.settings.univariate_skips;
        &&& statement.batching_scalars@ == batching_scalars@
        &&& statement.eq_factor matches Some(eq_factor) && eq_factor@ == point@
        &&& match run.prover {
            None => {
                &&& run.sum == EF::spec_zero()
                &&& run.missing_mul_factor is None
                &&& selectors == run.round.selectors@
                &&& is_round_polynomial::<F, F, EF>(
                    run.round.polynomial.coeffs@,
                    run.parameters(statement),
                    constraints::<F, F, EF>(program, batching_scalars@),
                    tables_of(columns@),
                    pow2((prover.table.log_length - skips) as nat),
                    run.round.selectors@,
                )
                &&& integers_differ_by_units::<F>(run.parameters(statement).n_values())
            },
            Some(before) => {
                &&& folded_from::<F, F, EF>(before, statement, tables_of(columns@), selectors)
                &&& claim_is_true::<F, EF>(before, statement, program)
                &&& before.missing_mul_factor == Some(
                    agreement::<F, EF>(skips, selectors, point@, before.challenges@),
                )
                &&& run.sends_later_round(statement, later_evaluator)
            },
        }
    }
}

/// Two rows that follow each other are what the columns of the zerocheck show in a row, and in
/// the last row it is the last two.
proof fn zerocheck_rows_are_row_pairs<F: Field>(
    columns: Seq<EvaluationsList<F>>,
    preprocessed: Seq<EvaluationsList<F>>,
    witness: Seq<EvaluationsList<F>>,
    n: nat,
    x: int,
)
    requires
        are_zerocheck_columns(columns, preprocessed, witness),
        forall|k: int|
            0 <= k < (preprocessed + witness).len() ==> (#[trigger] (preprocessed
                + witness)[k])@.len() == n,
        n >= 2,
        0 <= x < n,
    ensures
        point_at(tables_of(columns), x) == row_pair(
            preprocessed,
            witness,
            if x < n - 1 {
                x
            } else {
                n - 2
            },
        ),
{
    let joined = preprocessed + witness;
    let row = if x < n - 1 {
        x
    } else {
        n - 2
    };
    let point = point_at(tables_of(columns), x);
    let pair = row_pair(preprocessed, witness, row);
    assert(point.len() == pair.len());
    assert forall|k: int| 0 <= k < point.len() implies point[k] == pair[k] by {
        if k < joined.len() {
            assert(columns[k]@ == rows_up(joined[k]@));
            assert(joined[k]@.len() == n);
        } else {
            assert(columns[k]@ == rows_down(joined[k - joined.len()]@));
            assert(joined[k - joined.len()]@.len() == n);
        }
    }
    assert(point =~= pair);
}

/// The point starts a zerocheck that is true, if the witness meets constraints of at most the
/// degree of the table.
pub proof fn point_starts_true_zerocheck<
    F: Field,
    EF: ExtensionField<F>,
    A,
    E: HypercubeEvaluator<F, EF>,
    L: HypercubeEvaluator<EF, EF>,
>(
    prover: AirProver<'_, F, EF, A>,
    challenges: Seq<EF>,
    evaluator: E,
    later_evaluator: L,
    next: AirProver<'_, F, EF, A>,
    action: AirAction<F, EF>,
    program: LoweredConstraintProgram<F>,
) -> (selectors: Seq<DensePolynomial<F>>)
    requires
        prover.well_formed(),
        next.well_formed(),
        prover.same_task(next),
        prover.stage matches AirStage::ZerocheckPoint { batching_scalars } && evaluates::<
            F,
            F,
            EF,
            E,
        >(evaluator, program, batching_scalars@),
        prover.is_step(challenges, evaluator, later_evaluator, next.stage, action),
        meets_constraints(prover, program),
    ensures
        zerocheck_is_true(next, program, later_evaluator, selectors),
        action matches AirAction::Exchange(turn) && next.stage matches AirStage::Zerocheck {
            run,
            ..
        } && turn.messages@[0]@ == run.round.polynomial.coeffs@,
{
    let batching_scalars = prover.stage->ZerocheckPoint_batching_scalars;
    let f = |p: Seq<F>| evaluator.point_value(p, batching_scalars@);
    assert(f =~= constraints::<F, F, EF>(program, batching_scalars@));
    match next.stage {
        AirStage::Zerocheck { run, .. } => run.round.selectors@,
        _ => Seq::empty(),
    }
}

/// Every challenge keeps the zerocheck true.
pub proof fn round_keeps_zerocheck_true<
    F: Field,
    EF: ExtensionField<F>,
    A,
    E: HypercubeEvaluator<F, EF>,
    L: HypercubeEvaluator<EF, EF>,
>(
    prover: AirProver<'_, F, EF, A>,
    challenges: Seq<EF>,
    evaluator: E,
    later_evaluator: L,
    next: AirProver<'_, F, EF, A>,
    action: AirAction<F, EF>,
    program: LoweredConstraintProgram<F>,
    selectors: Seq<DensePolynomial<F>>,
)
    requires
        prover.well_formed(),
        prover.same_task(next),
        prover.is_step(challenges, evaluator, later_evaluator, next.stage, action),
        meets_constraints(prover, program),
        zerocheck_is_true(prover, program, later_evaluator, selectors),
        prover.stage matches AirStage::Zerocheck { batching_scalars, .. } && evaluates::<
            F,
            EF,
            EF,
            L,
        >(later_evaluator, program, batching_scalars@),
        next.stage is Zerocheck,
    ensures
        zerocheck_is_true(next, program, later_evaluator, selectors),
        action matches AirAction::Exchange(turn) && next.stage matches AirStage::Zerocheck {
            run,
            ..
        } && turn.messages@[0]@ == run.round.polynomial.coeffs@,
{
    if let AirStage::Zerocheck { batching_scalars, point, columns, run } = prover.stage {
        let statement = prover.zerocheck_statement(batching_scalars@, point@);
        if let AirStage::Zerocheck { run: next_run, .. } = next.stage {
            let left = next_run.prover->0;
            challenge_leaves_true_claim(
                prover,
                challenges[0],
                later_evaluator,
                program,
                selectors,
                left,
            );
            assert(next.zerocheck_statement(batching_scalars@, point@) == statement);
        }
    }
}

/// A challenge leaves a true claim, and the factor of the claim is how far the challenges agree
/// with the point.
proof fn challenge_leaves_true_claim<
    F: Field,
    EF: ExtensionField<F>,
    A,
    L: HypercubeEvaluator<EF, EF>,
>(
    prover: AirProver<'_, F, EF, A>,
    challenge: EF,
    later_evaluator: L,
    program: LoweredConstraintProgram<F>,
    selectors: Seq<DensePolynomial<F>>,
    left: SumcheckProver<EF>,
)
    requires
        prover.well_formed(),
        meets_constraints(prover, program),
        zerocheck_is_true(prover, program, later_evaluator, selectors),
        prover.stage matches AirStage::Zerocheck { batching_scalars, point, columns, run } && {
            &&& evaluates::<F, EF, EF, L>(later_evaluator, program, batching_scalars@)
            &&& run.leaves::<F>(
                prover.zerocheck_statement(batching_scalars@, point@),
                tables_of(columns@),
                challenge,
                left,
            )
        },
    ensures
        prover.stage matches AirStage::Zerocheck { batching_scalars, point, columns, run } && {
            let statement = prover.zerocheck_statement(batching_scalars@, point@);
            &&& folded_from::<F, F, EF>(left, statement, tables_of(columns@), selectors)
            &&& claim_is_true::<F, EF>(left, statement, program)
            &&& left.missing_mul_factor == Some(
                agreement::<F, EF>(
                    prover.settings.univariate_skips,
                    selectors,
                    point@,
                    left.challenges@,
                ),
            )
        },
{
    let n = pow2(prover.table.log_length as nat);
    let preprocessed = prover.table.preprocessed_columns@;
    let witness = prover.witness@;
    let joined = preprocessed + witness;
    if let AirStage::Zerocheck { batching_scalars, point, columns, run } = prover.stage {
        let statement = prover.zerocheck_statement(batching_scalars@, point@);
        let tables = tables_of(columns@);
        let skips = prover.settings.univariate_skips;
        rounds_fold::<F, F, EF>(run, statement, tables, challenge, left, selectors);
        assert(suits::<F, EF>(program, statement, tables.len()));
        match run.prover {
            None => {
                lemma2_to64();
                lemma_pow2_strictly_increases(0, prover.table.log_length as nat);
                assert(n >= 2);
                assert forall|k: int| 0 <= k < joined.len() implies (
                #[trigger] joined[k])@.len() == n by {
                    if k < preprocessed.len() {
                        assert(preprocessed[k].well_formed());
                    } else {
                        assert(witness[k - preprocessed.len()].well_formed());
                    }
                }
                assert forall|k: int| 0 <= k < tables.len() implies (#[trigger] tables[k]).len()
                    == n && forall|i: int|
                    0 <= i < tables[k].len() ==> (#[trigger] tables[k][i]).canonical() by {
                    if k < joined.len() {
                        assert(columns@[k]@ == rows_up(joined[k]@));
                        assert(joined[k]@.len() == n);
                        assert forall|i: int| 0 <= i < tables[k].len() implies (
                        #[trigger] tables[k][i]).canonical() by {
                            assert(joined[k]@[i].canonical());
                            assert(joined[k]@[n - 2].canonical());
                        }
                    } else {
                        let c = k - joined.len();
                        assert(columns@[k]@ == rows_down(joined[c]@));
                        assert(joined[c]@.len() == n);
                        assert forall|i: int| 0 <= i < tables[k].len() implies (
                        #[trigger] tables[k][i]).canonical() by {
                            if i + 1 < n {
                                assert(joined[c]@[i + 1].canonical());
                            }
                            assert(joined[c]@[n - 1].canonical());
                        }
                    }
                }
                assert forall|x: int| 0 <= x < n implies program_value::<F, F, EF>(
                    program,
                    #[trigger] point_at(tables, x),
                    batching_scalars@,
                ) == EF::spec_zero() by {
                    zerocheck_rows_are_row_pairs(columns@, preprocessed, witness, n, x);
                    met_constraints_batch_to_zero::<F, EF>(
                        program,
                        point_at(tables, x),
                        batching_scalars@,
                    );
                }
                reduction(EF::spec_zero());
                EF::results_are_canonical(EF::spec_zero(), EF::spec_zero());
                first_polynomial_leaves_true_claim::<F, EF>(
                    run,
                    statement,
                    program,
                    tables,
                    challenge,
                    left,
                );
                first_factor_is_agreement::<F, EF>(skips, selectors, point@, challenge);
                assert(left.challenges@ =~= seq![challenge]);
            },
            Some(before) => {
                later_challenge_leaves_true_claim::<F, EF, L>(
                    run,
                    statement,
                    later_evaluator,
                    program,
                    tables,
                    challenge,
                    left,
                );
                factor_grows_by_agreement::<F, EF>(
                    run.parameters(statement),
                    run.round.selectors@,
                    challenge,
                );
                assert(left.challenges@.drop_last() =~= before.challenges@);
                assert(left.challenges@.last() == challenge);
            },
        }
    }
}

/// The factor of the first claim.
proof fn first_factor_is_agreement<F: Field, EF: ExtensionField<F>>(
    skips: usize,
    selectors: Seq<DensePolynomial<F>>,
    point: Seq<EF>,
    challenge: EF,
)
    ensures
        agreement::<F, EF>(skips, selectors, point, seq![challenge]).spec_mul(EF::spec_one())
            == agreement::<F, EF>(skips, selectors, point, seq![challenge]),
{
    let a = domain_weights::<F, EF>(skips, selectors, point[0]);
    let b = domain_weights::<F, EF>(skips, selectors, challenge);
    let sum = sum_to(b.len(), |i: int| a[i].spec_mul(b[i]));
    sum_is_canonical(b.len(), |i: int| a[i].spec_mul(b[i]));
    EF::one_is_neutral(sum);
    EF::mul_is_commutative(sum, EF::spec_one());
}

/// After the last challenge, the polynomial of the last round says at the challenge what the
/// batched constraints are at the values that the columns are left with, times how far the
/// challenges agree with the point. The values of the witness columns are the two messages that
/// follow: first those of the upper row, then those of the lower one.
pub proof fn zerocheck_ends_in_values<
    F: Field,
    EF: ExtensionField<F>,
    A,
    E: HypercubeEvaluator<F, EF>,
    L: HypercubeEvaluator<EF, EF>,
>(
    prover: AirProver<'_, F, EF, A>,
    challenges: Seq<EF>,
    evaluator: E,
    later_evaluator: L,
    next: AirProver<'_, F, EF, A>,
    action: AirAction<F, EF>,
    program: LoweredConstraintProgram<F>,
    selectors: Seq<DensePolynomial<F>>,
) -> (values: Seq<EF>)
    requires
        prover.well_formed(),
        prover.same_task(next),
        prover.is_step(challenges, evaluator, later_evaluator, next.stage, action),
        meets_constraints(prover, program),
        zerocheck_is_true(prover, program, later_evaluator, selectors),
        prover.stage matches AirStage::Zerocheck { batching_scalars, .. } && evaluates::<
            F,
            EF,
            EF,
            L,
        >(later_evaluator, program, batching_scalars@),
        next.stage !is Zerocheck,
    ensures
        next.stage matches AirStage::ColumnsBatching { zerocheck_challenges } && {
            let n = prover.table.n_columns as int;
            let skipped = prover.table.preprocessed_columns@.len() as int;
            let columns = prover.table.preprocessed_columns@ + prover.witness@;
            let weights = domain_weights::<F, EF>(
                prover.settings.univariate_skips,
                selectors,
                zerocheck_challenges@[0],
            );
            let tail = zerocheck_challenges@.drop_first();
            &&& values.len() == 2 * n
            &&& forall|k: int|
                0 <= k < n ==> #[trigger] values[k] == value_left::<F, EF>(
                    rows_up(columns[k]@),
                    weights,
                    tail,
                )
            &&& forall|k: int|
                n <= k < 2 * n ==> #[trigger] values[k] == value_left::<F, EF>(
                    rows_down(columns[k - n]@),
                    weights,
                    tail,
                )
            &&& action matches AirAction::Exchange(turn) && {
                &&& turn.messages@.len() == 2
                &&& turn.messages@[0]@ == values.subrange(skipped, n)
                &&& turn.messages@[1]@ == values.subrange(n + skipped, 2 * n)
            }
            &&& prover.stage matches AirStage::Zerocheck { batching_scalars, point, run, .. } && {
                &&& zerocheck_challenges@ == run.challenges().push(challenges[0])
                &&& poly_value::<EF, EF>(run.round.polynomial.coeffs@, challenges[0])
                    == program_value::<F, EF, EF>(
                    program,
                    values,
                    batching_scalars@,
                ).spec_mul(
                    agreement::<F, EF>(
                        prover.settings.univariate_skips,
                        selectors,
                        point@,
                        zerocheck_challenges@,
                    ),
                )
            }
        },
{
    let challenge = challenges[0];
    let n = prover.table.n_columns as int;
    let skipped = prover.table.preprocessed_columns@.len() as int;
    let joined = prover.table.preprocessed_columns@ + prover.witness@;
    let (batching_scalars, point, columns, run) = match prover.stage {
        AirStage::Zerocheck { batching_scalars, point, columns, run } => (
            batching_scalars,
            point,
            columns,
            run,
        ),
        _ => arbitrary(),
    };
    let statement = prover.zerocheck_statement(batching_scalars@, point@);
    let tables = tables_of(columns@);
    let all = run.challenges().push(challenge);
    let (chosen, left) = choose|chosen: Seq<DensePolynomial<F>>, left: SumcheckProver<EF>|
        {
            &&& run.leaves::<F>(statement, tables, challenge, left)
            &&& #[trigger] folded_from::<F, F, EF>(left, statement, tables, chosen)
            &&& action matches AirAction::Exchange(turn) && turn.messages@.len() == 2
                && turn.messages@[0]@ == prover.values_up(chosen, all) && turn.messages@[1]@
                == prover.values_down(chosen, all)
        };
    assert(run.leaves::<F>(statement, tables, challenge, left));
    challenge_leaves_true_claim(prover, challenge, later_evaluator, program, selectors, left);
    let weights = domain_weights::<F, EF>(statement.skips, selectors, all[0]);
    let tail = all.drop_first();
    let values = Seq::new(
        tables.len(),
        |k: int| value_left::<F, EF>(tables[k], weights, tail),
    );
    assert(left.challenges@ == all);
    true_claim_ends_in_value::<F, EF>(left, statement, program, tables, selectors);
    assert forall|k: int| 0 <= k < n implies #[trigger] values[k] == value_left::<F, EF>(
        rows_up(joined[k]@),
        weights,
        tail,
    ) by {
        assert(columns@[k]@ == rows_up(joined[k]@));
    }
    assert forall|k: int| n <= k < 2 * n implies #[trigger] values[k] == value_left::<F, EF>(
        rows_down(joined[k - n]@),
        weights,
        tail,
    ) by {
        assert(columns@[k]@ == rows_down(joined[k - n]@));
    }
    if let AirAction::Exchange(turn) = action {
        assert forall|k: int| 0 <= k < n - skipped implies turn.messages@[0]@[k] == values[skipped
            + k] && turn.messages@[1]@[k] == values[n + skipped + k] by {
            assert(joined[skipped + k] == prover.witness@[k]);
            prover.column_is_left_with_value(left, statement, columns@, chosen, skipped + k);
            prover.column_is_left_with_value(left, statement, columns@, selectors, skipped + k);
            prover.column_is_left_with_value(left, statement, columns@, chosen, n + skipped + k);
            prover.column_is_left_with_value(
                left,
                statement,
                columns@,
                selectors,
                n + skipped + k,
            );
            assert(columns@[skipped + k]@ == rows_up(joined[skipped + k]@));
            assert(columns@[n + skipped + k]@ == rows_down(joined[skipped + k]@));
        }
        assert(turn.messages@[0]@ =~= values.subrange(skipped, n));
        assert(turn.messages@[1]@ =~= values.subrange(n + skipped, 2 * n));
    }
    values
}

/// What the rows `x` and `x + 1` of a table hold for an input: an element of a column. Nothing else
/// is read.
pub open spec fn row_reader<F: Field>(
    preprocessed: Seq<EvaluationsList<F>>,
    witness: Seq<EvaluationsList<F>>,
    x: int,
) -> spec_fn(KernelInput) -> F {
    |input: KernelInput|
        match input {
            KernelInput::Main { row_offset, column } => (preprocessed + witness)[column as int]@[x
                + row_offset],
            _ => F::spec_zero(),
        }
}

/// A table meets the constraints of its program if every two rows that follow each other make
/// every constraint expression zero, and the degree of the table is at least the one that
/// compilation finds.
pub proof fn met_expressions_meet_constraints<F: Field, EF: ExtensionField<F>, A>(
    prover: AirProver<'_, F, EF, A>,
    graph: SymbolicGraph<F>,
    program: ConstraintProgram<F>,
    lowered: LoweredConstraintProgram<F>,
)
    requires
        prover.fits(),
        graph.well_formed(),
        is_compiled_from(program, graph),
        program.well_formed(),
        program.can_lower(),
        is_lowered_from(lowered, program),
        program.unsupported_features@.len() == 0,
        degrees_suffice(graph.nodes@),
        reads_main_columns_only(lowered.input_layout, prover.table.n_columns as int),
        lowered.input_layout.slot_count() <= usize::MAX,
        prover.table.n_constraints == graph.constraints@.len(),
        0 < prover.table.constraint_degree,
        program.max_constraint_degree <= prover.table.constraint_degree,
        constants_are_canonical::<F, EF>(lowered.instructions@),
        forall|k: int, i: int|
            0 <= k < prover.table.n_columns && 0 <= i < (prover.table.preprocessed_columns@
                + prover.witness@)[k]@.len() ==> (#[trigger] (prover.table.preprocessed_columns@
                + prover.witness@)[k]@[i]).canonical(),
        forall|x: int, k: int|
            0 <= x && x + 1 < pow2(prover.table.log_length as nat) && 0 <= k
                < graph.constraints@.len() ==> #[trigger] node_value(
                graph.nodes@,
                graph.constraints@[k] as nat,
                row_reader(prover.table.preprocessed_columns@, prover.witness@, x),
            ) == F::spec_zero(),
    ensures
        meets_constraints(prover, lowered),
{
    let preprocessed = prover.table.preprocessed_columns@;
    let witness = prover.witness@;
    let n = prover.table.n_columns as int;
    let layout = lowered.input_layout;
    let instructions = program.instructions@;
    compiled_degree_is_bounded(graph, program, lowered);
    assert forall|k: int| 0 <= k < instructions.len() implies ((
    #[trigger] instructions[k]) matches KernelInstruction::Input(input) ==> layout.covers(input)
        && 0 <= layout.slot(input) < layout.slot_count()) by {
        if let KernelInstruction::Input(input) = instructions[k] {
            layout_covers_inputs(instructions, k, input);
        }
    }
    assert forall|k: int| 0 <= k < lowered.instructions@.len() implies ((
    #[trigger] lowered.instructions@[k]) matches LoweredKernelInstruction::Input { slot } ==> slot
        < layout.slot_count()) && lowered.instructions@[k].operands_below(k) by {
        assert(lowered.instructions@[k] == instructions[k].lowered(layout));
        assert(instructions[k].operands_below(k));
    }
    assert(lowered.well_formed());
    assert(program_accepts(lowered, 2 * n as nat, prover.table.n_constraints as nat));
    assert forall|x: int, k: int|
        0 <= x && x + 1 < pow2(prover.table.log_length as nat) && 0 <= k
            < lowered.outputs@.len() implies #[trigger] lowered.output_values::<F>(
        main_pair_flat(layout, row_pair(preprocessed, witness, x)),
    )[k] == F::spec_zero() by {
        let pair = row_pair(preprocessed, witness, x);
        let read = row_reader(preprocessed, witness, x);
        let flat = main_pair_flat(layout, pair);
        assert((preprocessed + witness).len() == n);
        assert(pair.len() == 2 * n);
        assert forall|j: int| 0 <= j < instructions.len() implies ((
        #[trigger] instructions[j]) matches KernelInstruction::Input(input) ==> layout.slot(input)
            <= usize::MAX && 0 <= layout.slot(input) && flat[layout.slot(input)] == read(input)) by {
            if let KernelInstruction::Input(input) = instructions[j] {
                assert(layout.covers(input));
                if let KernelInput::Main { row_offset, column } = input {
                    assert(row_offset == 0 || row_offset == 1);
                    assert(flat[column as int] == pair[column as int]);
                    assert(flat[layout.main_width + column] == pair[n + column]);
                }
            }
        }
        lowered_tape_computes_the_same(instructions, layout, read, flat);
        compilation_preserves_meaning(graph, program, read);
        assert(lowered.output_values::<F>(flat) =~= program.output_values::<F>(read));
        assert(node_value(graph.nodes@, graph.constraints@[k] as nat, read) == F::spec_zero());
    }
}

} // verus!
