//! Whole proofs, checked turn by turn.

use whirlaway::air_prover::{AirAction, AirStage};
use whirlaway::dense::DensePolynomial;
use whirlaway::evals::EvaluationsList;
use whirlaway::exchange::{Exchange, Work};
use whirlaway::field::{Algebra, ExtensionField, Field, Ring};
use whirlaway::hypercube_programs::{
    ConstraintProgramExtensionHypercubeEvaluator, ConstraintProgramHypercubeEvaluator,
};
use whirlaway::inner_sumcheck::{powers, InnerSumcheckCircuit};
use whirlaway::kernel_ir::{Entry, SymbolicExpression, SymbolicGraph, SymbolicVariable};
use whirlaway::koala_bear::KoalaBear;
use whirlaway::multilinear::{matrix_down_folded, matrix_up_folded, packed_multilinear};
use whirlaway::octic::OcticExtension;
use whirlaway::packed::Packed;
use whirlaway::selectors::univariate_selectors;
use whirlaway::sumcheck::{
    prove, ComputationEvaluator, HypercubeEvaluator, SumcheckComputation,
    SumcheckComputationPacked, SumcheckStatement, SumcheckStep,
};
use whirlaway::table::{AirSettings, AirTable, FoldingFactor, SecurityAssumption};

type F = KoalaBear;
type EF = OcticExtension;

fn base(value: u32) -> F {
    F::new(value)
}

fn lift(value: F) -> EF {
    <EF as Algebra<F>>::embed(value)
}

/// An element that is not in the base field.
fn wide(seed: u32) -> EF {
    let coefficients: [F; 8] = std::array::from_fn(|i| base(seed * 7_919 + 104_729 * i as u32 + 1));
    <EF as ExtensionField<F>>::from_basis_coefficients(&coefficients)
}

fn at(coeffs: &[EF], x: EF) -> EF {
    DensePolynomial::from_coefficients_vec(coeffs.to_vec()).evaluate::<EF>(x)
}

fn dot(a: &[EF], b: &[EF]) -> EF {
    a.iter().zip(b).fold(EF::zero(), |sum, (x, y)| sum.plus(x.times(*y)))
}

fn settings(univariate_skips: usize) -> AirSettings {
    AirSettings::new(
        128,
        SecurityAssumption::CapacityBound,
        FoldingFactor::ConstantFromSecondRound(7, 4),
        1,
        univariate_skips,
        5,
    )
}

/// Column 1 times column 2 is column 0, and column 1 counts the rows.
fn constraints() -> SymbolicGraph<F> {
    let column = |index: usize, offset: usize| {
        SymbolicExpression::Variable(SymbolicVariable { entry: Entry::Main { offset }, index })
    };
    SymbolicGraph {
        nodes: vec![
            column(0, 0),
            column(1, 0),
            column(2, 0),
            column(1, 1),
            SymbolicExpression::Mul { x: 1, y: 2, degree_multiple: 2 },
            SymbolicExpression::Sub { x: 4, y: 0, degree_multiple: 2 },
            SymbolicExpression::Constant(base(1)),
            SymbolicExpression::Sub { x: 3, y: 1, degree_multiple: 1 },
            SymbolicExpression::Sub { x: 7, y: 6, degree_multiple: 1 },
        ],
        constraints: vec![5, 8],
    }
}

/// The batched constraints at the values of the columns in the upper and the lower row.
fn batched_constraint(up: &[EF], down: &[EF], scalars: &[EF]) -> EF {
    let product = up[1].times(up[2]).minus(up[0]);
    let count = down[1].minus(up[1]).minus(EF::one());
    dot(&[product, count], scalars)
}

/// Takes a turn of one message, and returns the message and a challenge.
fn take_round(turn: &Exchange<EF>, degree: usize, message: usize) -> Vec<EF> {
    assert_eq!(turn.messages.len(), message + 1);
    assert_eq!(turn.work_before, None);
    assert_eq!(turn.n_challenges, 1);
    assert_eq!(turn.work_after, Some(Work::SumcheckRound { degree }));
    turn.messages[message].clone()
}

fn exchange(action: AirAction<F, EF>) -> Exchange<EF> {
    match action {
        AirAction::Exchange(turn) => turn,
        AirAction::Commit { .. } => panic!("the commitment comes first"),
        AirAction::Open(_) => panic!("the opening comes last"),
    }
}

/// Proves that a table of eight rows satisfies its constraints, and checks every turn as a
/// verifier does.
fn check_proof(skips: usize, n_preprocessed: usize) {
    let n_rows: u32 = 8;
    let counter: Vec<F> = (0..n_rows).map(|i| base(i + 5)).collect();
    let factor: Vec<F> = (0..n_rows).map(|i| base(i * i + 3)).collect();
    let product: Vec<F> = counter.iter().zip(&factor).map(|(a, b)| a.times(*b)).collect();
    let mut columns: Vec<EvaluationsList<F>> =
        [product, counter, factor].into_iter().map(EvaluationsList::new).collect();
    let witness = columns.split_off(n_preprocessed);
    let table: AirTable<F, ()> =
        AirTable::new((), 3, &constraints(), 3, skips, columns.clone(), 2);
    let program = table.device_constraint_program.as_ref().expect("only columns are read");
    let evaluator: ConstraintProgramHypercubeEvaluator<'_, F, 1> =
        ConstraintProgramHypercubeEvaluator::new(program);
    let later_evaluator: ConstraintProgramExtensionHypercubeEvaluator<'_, F> =
        ConstraintProgramExtensionHypercubeEvaluator::new(program);

    let (prover, action) = table.prove::<EF>(settings(skips), &witness, 16);
    let n_column_scalars = table.log_n_witness_columns();
    let committed = match action {
        AirAction::Commit { parameters, dft_size, polynomial } => {
            assert_eq!(parameters.num_variables, 3 + n_column_scalars);
            assert_eq!(parameters.pow_bits, 16);
            assert_eq!(dft_size, 1 << (3 + n_column_scalars + 1 - 3));
            assert_eq!(polynomial, packed_multilinear(&witness));
            polynomial
        }
        _ => panic!("the commitment comes first"),
    };

    let (prover, action) = prover.advance(&[], &evaluator, &later_evaluator);
    let turn = exchange(action);
    assert_eq!(turn.work_before, Some(Work::ConstraintsBatching));
    assert_eq!((turn.messages.len(), turn.n_challenges), (0, 1));
    let scalars = powers(wide(1), 2);

    let (prover, action) = prover.advance(&[wide(1)], &evaluator, &later_evaluator);
    let turn = exchange(action);
    assert_eq!(turn.work_before, Some(Work::Zerocheck));
    assert_eq!((turn.messages.len(), turn.n_challenges), (0, 4 - skips));
    let point: Vec<EF> = (0..4 - skips).map(|i| wide(10 + i as u32)).collect();

    // The zerocheck.
    let domain = 1usize << skips;
    let selectors = univariate_selectors::<F>(skips);
    let weights = |x: EF| selectors.iter().map(|s| s.evaluate::<EF>(x)).collect::<Vec<_>>();
    let (mut prover, mut action) = prover.advance(&point, &evaluator, &later_evaluator);
    let mut claim = EF::zero();
    let mut challenges: Vec<EF> = Vec::new();
    let mut eq_value = EF::one();
    for (round, coordinate) in point.iter().enumerate() {
        let turn = exchange(action);
        let size = if round == 0 { domain } else { 2 };
        let coeffs = take_round(&turn, 3 * (size - 1), 0);
        let on_domain: Vec<EF> = (0..size).map(|z| at(&coeffs, EF::from_usize(z))).collect();
        assert_eq!(dot(&on_domain, &vec![EF::one(); size]), claim);
        let challenge = wide(20 + round as u32);
        claim = at(&coeffs, challenge);
        challenges.push(challenge);
        let factor = if round == 0 {
            dot(&weights(*coordinate), &weights(challenge))
        } else {
            dot(
                EvaluationsList::eval_eq(&[*coordinate]).evals(),
                EvaluationsList::eval_eq(&[challenge]).evals(),
            )
        };
        eq_value = eq_value.times(factor);
        (prover, action) = prover.advance(&[challenge], &evaluator, &later_evaluator);
    }
    let turn = exchange(action);
    assert!(matches!(prover.stage, AirStage::ColumnsBatching { .. }));
    assert_eq!(turn.work_before, Some(Work::ColumnsBatching));
    assert_eq!(turn.n_challenges, n_column_scalars + 1 + skips);
    let (up, down) = (turn.messages[0].clone(), turn.messages[1].clone());
    assert_eq!((up.len(), down.len()), (witness.len(), witness.len()));

    // A verifier computes what preprocessed columns are left with by itself.
    let tail = &challenges[1..];
    let first_weights = weights(challenges[0]);
    let left = |evals: &[F]| {
        let fixed: EvaluationsList<EF> = EvaluationsList::new(evals.to_vec()).fold(tail);
        dot(fixed.evals(), &first_weights)
    };
    let shifted_up = |column: &EvaluationsList<F>| {
        let mut rows = column.evals().to_vec();
        rows[7] = rows[6];
        left(&rows)
    };
    let shifted_down = |column: &EvaluationsList<F>| {
        let mut rows = column.evals()[1..].to_vec();
        rows.push(rows[6]);
        left(&rows)
    };
    for (k, column) in witness.iter().enumerate() {
        assert_eq!(up[k], shifted_up(column));
        assert_eq!(down[k], shifted_down(column));
    }
    let all_up: Vec<EF> =
        columns.iter().map(|c| shifted_up(c)).chain(up.iter().copied()).collect();
    let all_down: Vec<EF> =
        columns.iter().map(|c| shifted_down(c)).chain(down.iter().copied()).collect();
    assert_eq!(claim, eq_value.times(batched_constraint(&all_up, &all_down, &scalars)));

    // The inner sumcheck.
    let column_scalars: Vec<EF> = (0..n_column_scalars).map(|i| wide(30 + i as u32)).collect();
    let alpha = wide(40);
    let epsilons: Vec<EF> = (0..skips).map(|i| wide(50 + i as u32)).collect();
    let reply = [column_scalars.clone(), vec![alpha], epsilons.clone()].concat();
    (prover, action) = prover.advance(&reply, &evaluator, &later_evaluator);
    let mut turn = exchange(action);
    let mut coeffs = take_round(&turn, 2, 1);
    let sub_evals = turn.messages[0].clone();
    let column_weights = EvaluationsList::eval_eq(&column_scalars);
    let batched_left = dot(column_weights.evals(), &up)
        .plus(dot(column_weights.evals(), &down).times(alpha));
    assert_eq!(dot(&sub_evals, &first_weights), batched_left);
    let mut claim: EF = EvaluationsList::new(sub_evals).evaluate(&epsilons);
    let mut inner_challenges: Vec<EF> = Vec::new();
    loop {
        assert_eq!(at(&coeffs, EF::zero()).plus(at(&coeffs, EF::one())), claim);
        let challenge = wide(60 + inner_challenges.len() as u32);
        claim = at(&coeffs, challenge);
        inner_challenges.push(challenge);
        (prover, action) = prover.advance(&[challenge], &evaluator, &later_evaluator);
        if inner_challenges.len() == 3 {
            break;
        }
        turn = exchange(action);
        coeffs = take_round(&turn, 2, 0);
    }

    // The opening.
    assert!(matches!(prover.stage, AirStage::Finished));
    let opening = match action {
        AirAction::Open(opening) => opening,
        _ => panic!("the opening comes last"),
    };
    assert_eq!(opening.point, [column_scalars, inner_challenges.clone()].concat());
    assert_eq!(committed.evaluate::<EF>(&opening.point), opening.value);
    let joined = [epsilons, tail.to_vec()].concat();
    let row_weight = matrix_up_folded(&joined)
        .evaluate::<EF>(&inner_challenges)
        .plus(matrix_down_folded(&joined).evaluate::<EF>(&inner_challenges).times(alpha));
    assert_eq!(claim, row_weight.times(opening.value));
}

#[test]
fn proof_of_a_table_is_accepted() {
    check_proof(1, 0);
    check_proof(2, 0);
}

#[test]
fn row_that_meets_the_constraints_batches_to_zero() {
    let table: AirTable<F, ()> = AirTable::new((), 3, &constraints(), 3, 1, Vec::new(), 2);
    let program = table.device_constraint_program.as_ref().expect("only columns are read");
    let sum = |row: [u32; 6]| {
        let columns: Vec<EvaluationsList<F>> =
            row.iter().map(|value| EvaluationsList::new(vec![base(*value)])).collect();
        let evaluator: ConstraintProgramHypercubeEvaluator<'_, F, 1> =
            ConstraintProgramHypercubeEvaluator::new(program);
        evaluator.compute(&columns, &[wide(3), wide(4)], None)
    };
    assert_eq!(sum([35, 5, 7, 1, 6, 2]), EF::zero());
    assert_eq!(sum([34, 5, 7, 1, 6, 2]), wide(3));
    assert_eq!(sum([35, 5, 7, 1, 8, 2]), wide(4).times(lift(base(2))));
}

#[test]
fn proof_that_skips_no_variable_is_accepted() {
    check_proof(0, 0);
    check_proof(0, 1);
}

#[test]
fn round_that_folds_no_variable_sends_the_claimed_sum() {
    let first: EvaluationsList<EF> = EvaluationsList::new((0..4).map(|i| wide(i + 1)).collect());
    let second: EvaluationsList<EF> = EvaluationsList::new((0..4).map(|i| wide(i + 90)).collect());
    let sum = dot(first.evals(), second.evals());
    let scalars = [EF::one()];
    let evaluator = ComputationEvaluator { computation: &InnerSumcheckCircuit };
    let statement = SumcheckStatement::new(0, 2, 2, &scalars, None, false, None);
    assert_eq!(statement.n_rounds, 3);
    let inputs = [&first, &second];
    let (run, turn) = prove::<F, EF, EF, _>(&statement, &inputs, sum, None, &evaluator);
    assert_eq!(take_round(&turn, 0, 0), vec![sum]);
    let (run, turn) = match run.advance::<EF, _>(&statement, &inputs, &evaluator, wide(201)) {
        SumcheckStep::Next { run, turn } => (run, turn),
        SumcheckStep::Finished(_) => panic!("two variables are left"),
    };
    let coeffs = take_round(&turn, 2, 0);
    assert_eq!(at(&coeffs, EF::zero()).plus(at(&coeffs, EF::one())), sum);
    assert_eq!(run.prover.expect("the first round is over").folded[0], first);
}

#[test]
fn proof_with_preprocessed_columns_is_accepted() {
    check_proof(1, 1);
    check_proof(2, 2);
}

#[test]
fn benchmark_table_has_the_documented_sizes() {
    let column = SymbolicExpression::Variable(SymbolicVariable {
        entry: Entry::Main { offset: 0 },
        index: 0,
    });
    let graph: SymbolicGraph<F> = SymbolicGraph { nodes: vec![column], constraints: vec![0] };
    let table: AirTable<F, ()> = AirTable::new((), 16, &graph, 16, 4, Vec::new(), 3);
    assert_eq!(table.log_n_witness_columns(), 4);
    assert_eq!(table.n_zerocheck_challenges(&settings(4)), 13);
    assert_eq!(table.build_whir_params(&settings(4), 0).num_variables, 20);
    assert_eq!(table.dft_size(&settings(4), 8), 1 << 18);
    assert_eq!(table.univariate_selectors.len(), 16);
}

#[test]
fn sumcheck_run_takes_as_many_turns_as_rounds() {
    let first: EvaluationsList<EF> = EvaluationsList::new((0..8).map(|i| wide(i + 1)).collect());
    let second: EvaluationsList<EF> = EvaluationsList::new((0..8).map(|i| wide(i + 90)).collect());
    let sum = dot(first.evals(), second.evals());
    let scalars = [EF::one()];
    let evaluator = ComputationEvaluator { computation: &InnerSumcheckCircuit };
    for n_rounds in [1, 2, 3] {
        let statement = SumcheckStatement::new(1, 3, 2, &scalars, None, false, Some(n_rounds));
        let inputs = [&first, &second];
        let (mut run, mut turn) = prove::<F, EF, EF, _>(&statement, &inputs, sum, None, &evaluator);
        let mut turns = 0;
        let prover = loop {
            turns += 1;
            let coeffs = take_round(&turn, 2, 0);
            assert_eq!(coeffs.len(), 3);
            match run.advance::<EF, _>(&statement, &inputs, &evaluator, wide(200 + turns)) {
                SumcheckStep::Next { run: next_run, turn: next_turn } => {
                    run = next_run;
                    turn = next_turn;
                }
                SumcheckStep::Finished(prover) => break prover,
            }
        };
        assert_eq!(turns as usize, n_rounds);
        assert_eq!(prover.challenges.len(), n_rounds);
        assert_eq!(prover.folded[0].num_variables(), 3 - n_rounds);
        assert_eq!(prover.sum, dot(prover.folded[0].evals(), prover.folded[1].evals()));
    }
}

#[test]
fn inner_circuit_has_no_lanes() {
    let lanes = |values: [u32; 2]| Packed::<F, 2>::from_lanes(values.map(base));
    let packed = <InnerSumcheckCircuit as SumcheckComputationPacked<F, EF>>::eval_packed(
        &InnerSumcheckCircuit,
        &[lanes([2, 3]), lanes([5, 7])],
        &[EF::one()],
        &[vec![base(1)]],
    );
    assert_eq!(packed, vec![EF::zero()]);
    let product = <InnerSumcheckCircuit as SumcheckComputation<EF, EF>>::eval(
        &InnerSumcheckCircuit,
        &[wide(2), wide(5)],
        &[EF::one()],
    );
    assert_eq!(product, wide(2).times(wide(5)));
}
