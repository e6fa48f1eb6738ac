//! Programs compiled from AIRs, run on rows, on packed rows and over the hypercube.

use std::collections::HashMap;

use p3_air::{Air, AirBuilder, BaseAir};
use p3_field::{PrimeCharacteristicRing, PrimeField32 as P3PrimeField32};
use p3_koala_bear::{GenericPoseidon2LinearLayersKoalaBear, KoalaBear as P3KoalaBear};
use p3_matrix::Matrix;
use p3_poseidon2_air::{generate_trace_rows, Poseidon2Air, RoundConstants};
use p3_uni_stark::{
    get_symbolic_constraints, Entry as P3Entry, SymbolicAirBuilder,
    SymbolicExpression as P3Expression,
};
use rand::rngs::StdRng;
use rand::{Rng, SeedableRng};
use whirlaway::device::dispatch::{
    conclude_packed_main_pairs, evaluate_extension_main_pairs, evaluate_packed_main_pairs,
    MainPairs,
};
use whirlaway::device::kernel::evaluate_air;
use whirlaway::device::{build_packed_main_payload, reduce_gpu_output, PayloadError};
use whirlaway::evals::EvaluationsList;
use whirlaway::field::{Algebra, ExtensionField, Field, Ring};
use whirlaway::hypercube_programs::{
    ConstraintProgramExtensionHypercubeEvaluator, ConstraintProgramHypercubeEvaluator,
};
use whirlaway::kernel_ir::{
    compile_air_constraint_program, ConstraintInputLayout, ConstraintProgram,
    ConstraintProgramInputs, Entry, KernelInput, KernelInstruction, LoweredKernelInstruction,
    RowPair, RowSelector, SymbolicExpression, SymbolicGraph, SymbolicVariable,
    UnsupportedGpuFeature,
};
use whirlaway::koala_bear::KoalaBear;
use whirlaway::octic::OcticExtension;
use whirlaway::packed::Packed;
use whirlaway::sumcheck::HypercubeEvaluator;

type EF = OcticExtension;

const LANES: usize = 4;

fn base(value: u32) -> KoalaBear {
    KoalaBear::new(value)
}

fn ext(value: u32) -> EF {
    <EF as Algebra<KoalaBear>>::embed(base(value))
}

fn base_poly(values: &[u32]) -> EvaluationsList<KoalaBear> {
    EvaluationsList::new(values.iter().copied().map(base).collect())
}

fn from_p3(value: P3KoalaBear) -> KoalaBear {
    KoalaBear::new(value.as_canonical_u32())
}

/// The position of an expression in the graph, which shares what the expressions share.
fn node_of(
    expression: &P3Expression<P3KoalaBear>,
    graph: &mut SymbolicGraph<KoalaBear>,
    positions: &mut HashMap<String, usize>,
) -> usize {
    let key = format!("{expression:p}");
    if let Some(&position) = positions.get(&key) {
        return position;
    }
    let node = match expression {
        P3Expression::Variable(variable) => SymbolicExpression::Variable(SymbolicVariable {
            entry: match variable.entry {
                P3Entry::Preprocessed { offset } => Entry::Preprocessed { offset },
                P3Entry::Main { offset } => Entry::Main { offset },
                P3Entry::Permutation { offset } => Entry::Permutation { offset },
                P3Entry::Public => Entry::Public,
                P3Entry::Challenge => Entry::Challenge,
            },
            index: variable.index,
        }),
        P3Expression::IsFirstRow => SymbolicExpression::IsFirstRow,
        P3Expression::IsLastRow => SymbolicExpression::IsLastRow,
        P3Expression::IsTransition => SymbolicExpression::IsTransition,
        P3Expression::Constant(value) => SymbolicExpression::Constant(from_p3(*value)),
        P3Expression::Add { x, y, degree_multiple } => SymbolicExpression::Add {
            x: node_of(x, graph, positions),
            y: node_of(y, graph, positions),
            degree_multiple: *degree_multiple,
        },
        P3Expression::Sub { x, y, degree_multiple } => SymbolicExpression::Sub {
            x: node_of(x, graph, positions),
            y: node_of(y, graph, positions),
            degree_multiple: *degree_multiple,
        },
        P3Expression::Neg { x, degree_multiple } => SymbolicExpression::Neg {
            x: node_of(x, graph, positions),
            degree_multiple: *degree_multiple,
        },
        P3Expression::Mul { x, y, degree_multiple } => SymbolicExpression::Mul {
            x: node_of(x, graph, positions),
            y: node_of(y, graph, positions),
            degree_multiple: *degree_multiple,
        },
    };
    let position = graph.nodes.len();
    graph.nodes.push(node);
    positions.insert(key, position);
    position
}

fn graph_of<A: Air<SymbolicAirBuilder<P3KoalaBear>>>(air: &A) -> SymbolicGraph<KoalaBear> {
    let constraints = get_symbolic_constraints::<P3KoalaBear, A>(air, 0, 0);
    let mut graph = SymbolicGraph { nodes: Vec::new(), constraints: Vec::new() };
    let mut positions = HashMap::new();
    for constraint in &constraints {
        let position = node_of(constraint, &mut graph, &mut positions);
        graph.constraints.push(position);
    }
    graph
}

fn compiled<A: Air<SymbolicAirBuilder<P3KoalaBear>>>(air: &A) -> ConstraintProgram<KoalaBear> {
    compile_air_constraint_program(&graph_of(air))
}

struct ArithmeticAir;

impl BaseAir<P3KoalaBear> for ArithmeticAir {
    fn width(&self) -> usize {
        2
    }
}

impl Air<SymbolicAirBuilder<P3KoalaBear>> for ArithmeticAir {
    fn eval(&self, builder: &mut SymbolicAirBuilder<P3KoalaBear>) {
        let main = builder.main();
        let local = main.row_slice(0).expect("matrix is empty");
        let local = &*local;
        builder.assert_zero(local[0] * local[1] + local[0] - P3KoalaBear::ONE);
    }
}

struct TwoRowAir;

impl BaseAir<P3KoalaBear> for TwoRowAir {
    fn width(&self) -> usize {
        2
    }
}

impl Air<SymbolicAirBuilder<P3KoalaBear>> for TwoRowAir {
    fn eval(&self, builder: &mut SymbolicAirBuilder<P3KoalaBear>) {
        let main = builder.main();
        let local = main.row_slice(0).expect("matrix is empty");
        let next = main.row_slice(1).expect("matrix is empty");
        builder.assert_zero(local[0] * local[1] + next[0] - P3KoalaBear::ONE);
    }
}

struct FirstRowAir;

impl BaseAir<P3KoalaBear> for FirstRowAir {
    fn width(&self) -> usize {
        1
    }
}

impl Air<SymbolicAirBuilder<P3KoalaBear>> for FirstRowAir {
    fn eval(&self, builder: &mut SymbolicAirBuilder<P3KoalaBear>) {
        let main = builder.main();
        let local = main.row_slice(0).expect("matrix is empty");
        let local = &*local;
        builder.when_first_row().assert_zero(local[0]);
    }
}

#[test]
fn compiles_simple_air_to_kernel_program() {
    let program = compiled(&ArithmeticAir);
    let stats = program.stats();

    assert!(program.is_gpu_candidate());
    assert_eq!(stats.constraints, 1);
    assert_eq!(stats.inputs, 3);
    assert_eq!(stats.muls, 1);
    assert_eq!(stats.adds, 1);
    assert_eq!(stats.subs, 1);
    assert_eq!(stats.unsupported_features, 0);
    assert_eq!(program.max_constraint_degree, 2);
}

#[test]
fn executable_program_matches_simple_air_constraint_value() {
    let program = compiled(&ArithmeticAir);
    let local = [base(2), base(3)];
    let next = [base(0), base(0)];

    let outputs = program.evaluate(&ConstraintProgramInputs::for_main_row(&local, &next, 0, 2));

    assert_eq!(outputs, vec![base(7)]);
}

#[test]
fn batched_execution_matches_constraint_outputs() {
    let program = compiled(&ArithmeticAir);
    let lowered = program.lower();
    let local = [base(2), base(3)];
    let next = [base(0), base(0)];
    let inputs = ConstraintProgramInputs::for_main_row(&local, &next, 0, 2);
    let batching_scalars = [ext(5)];

    let outputs = program.evaluate(&inputs);
    let batched = program.evaluate_batched(&inputs, &batching_scalars);
    let flat_inputs = lowered.input_layout.flatten_inputs(&inputs);
    let lowered_batched = lowered.evaluate_batched(&flat_inputs, &batching_scalars);

    assert_eq!(
        batched,
        batching_scalars[0].times(<EF as Algebra<KoalaBear>>::embed(outputs[0]))
    );
    assert_eq!(lowered_batched, batched);
}

#[test]
fn packed_batched_execution_matches_scalar_lanes() {
    let program = compiled(&ArithmeticAir);
    let lowered = program.lower();
    let local0: Packed<KoalaBear, LANES> =
        Packed::from_lanes(std::array::from_fn(|idx| base(idx as u32 + 2)));
    let local1: Packed<KoalaBear, LANES> =
        Packed::from_lanes(std::array::from_fn(|idx| base(idx as u32 + 3)));
    let next0: Packed<KoalaBear, LANES> = Packed::broadcast(base(0));
    let next1: Packed<KoalaBear, LANES> = Packed::broadcast(base(0));
    let local_rows = [local0, local1];
    let next_rows = [next0, next1];
    let packed_inputs = ConstraintProgramInputs {
        main: RowPair::new(&local_rows, &next_rows),
        preprocessed: RowPair::empty(),
        permutation: RowPair::empty(),
        public_values: &[],
        challenges: &[],
        is_first_row: Packed::broadcast(base(0)),
        is_last_row: Packed::broadcast(base(0)),
        is_transition: Packed::broadcast(base(1)),
    };
    let batching_scalars = [ext(5)];

    let packed = program.evaluate_batched_packed(&packed_inputs, &batching_scalars);
    let flat_inputs = lowered.input_layout.flatten_inputs(&packed_inputs);
    let lowered_packed = lowered.evaluate_batched_packed(&flat_inputs, &batching_scalars);
    let actual = (0..LANES)
        .map(|idx| lowered_packed.as_slice()[idx])
        .collect::<Vec<EF>>();
    let expected = (0..LANES)
        .map(|idx| {
            let local = [local0.as_slice()[idx], local1.as_slice()[idx]];
            let next = [next0.as_slice()[idx], next1.as_slice()[idx]];
            let inputs = ConstraintProgramInputs::new(&local, &next, base(0), base(0), base(1));
            program.evaluate_batched(&inputs, &batching_scalars)
        })
        .collect::<Vec<EF>>();

    assert_eq!(lowered_packed, packed);
    assert_eq!(actual, expected);
}

#[test]
fn flags_row_selectors_as_unsupported() {
    let program = compiled(&FirstRowAir);

    assert!(!program.is_gpu_candidate());
    assert_eq!(
        program.unsupported_features,
        vec![UnsupportedGpuFeature::RowSelector(RowSelector::First)]
    );
}

#[test]
fn executable_program_respects_row_selectors() {
    let program = compiled(&FirstRowAir);
    let local = [base(5)];
    let next = [base(0)];

    let first_row = program.evaluate(&ConstraintProgramInputs::for_main_row(&local, &next, 0, 2));
    let last_row = program.evaluate(&ConstraintProgramInputs::for_main_row(&local, &next, 1, 2));

    assert_eq!(first_row, vec![base(5)]);
    assert_eq!(last_row, vec![base(0)]);
}

#[test]
fn compiled_constraint_program_evaluator_matches_scalar_sum() {
    let program = compiled(&TwoRowAir);
    let lowered_program = program.lower();
    let evaluator: ConstraintProgramHypercubeEvaluator<'_, KoalaBear, LANES> =
        ConstraintProgramHypercubeEvaluator::new(&lowered_program);
    let pols = vec![
        base_poly(&[2, 3, 4, 5]),
        base_poly(&[6, 7, 8, 9]),
        base_poly(&[10, 11, 12, 13]),
        base_poly(&[14, 15, 16, 17]),
    ];
    let batching_scalars = vec![ext(19)];
    let eq_mle = EvaluationsList::new(vec![ext(23), ext(29), ext(31), ext(37)]);

    let actual = evaluator.compute(&pols, &batching_scalars, Some(&eq_mle));

    let expected = (0..pols[0].num_evals())
        .map(|idx| {
            let local = [pols[0].evals()[idx], pols[1].evals()[idx]];
            let next = [pols[2].evals()[idx], pols[3].evals()[idx]];
            let inputs = ConstraintProgramInputs::new(&local, &next, base(0), base(0), base(1));
            program.evaluate_batched(&inputs, &batching_scalars).times(eq_mle.evals()[idx])
        })
        .fold(EF::zero(), |sum, value| sum.plus(value));

    assert_eq!(actual, expected);
}

#[test]
fn evaluator_sums_have_the_expected_number() {
    // Rows (2, 6, 10), (3, 7, 11), (4, 8, 12), (5, 9, 13) give 21, 31, 43, 57.
    let lowered = compiled(&TwoRowAir).lower();
    let evaluator: ConstraintProgramHypercubeEvaluator<'_, KoalaBear, 2> =
        ConstraintProgramHypercubeEvaluator::new(&lowered);
    let pols = vec![
        base_poly(&[2, 3, 4, 5]),
        base_poly(&[6, 7, 8, 9]),
        base_poly(&[10, 11, 12, 13]),
        base_poly(&[14, 15, 16, 17]),
    ];
    let one = vec![ext(1)];
    let plain: EF = evaluator.compute(&pols, &one, None);
    assert_eq!(plain, ext(21 + 31 + 43 + 57));
    let eq_mle = EvaluationsList::new(vec![ext(1), ext(10), ext(100), ext(1000)]);
    let weighted: EF = evaluator.compute(&pols, &one, Some(&eq_mle));
    assert_eq!(weighted, ext(21 + 310 + 4300 + 57000));
}

#[test]
fn extension_evaluator_agrees_with_base_evaluator() {
    let lowered = compiled(&TwoRowAir).lower();
    let narrow: ConstraintProgramHypercubeEvaluator<'_, KoalaBear, LANES> =
        ConstraintProgramHypercubeEvaluator::new(&lowered);
    let wide: ConstraintProgramExtensionHypercubeEvaluator<'_, KoalaBear> =
        ConstraintProgramExtensionHypercubeEvaluator::new(&lowered);
    let values: [[u32; 4]; 4] = [[2, 3, 4, 5], [6, 7, 8, 9], [10, 11, 12, 13], [14, 15, 16, 17]];
    let pols = values.iter().map(|v| base_poly(v)).collect::<Vec<_>>();
    let lifted = values
        .iter()
        .map(|v| EvaluationsList::new(v.iter().copied().map(ext).collect()))
        .collect::<Vec<EvaluationsList<EF>>>();
    let scalars = vec![ext(19)];
    let eq_mle = EvaluationsList::eval_eq(&[ext(2), ext(3)]);
    let on_base: EF = narrow.compute(&pols, &scalars, Some(&eq_mle));
    let on_extension: EF = wide.compute(&lifted, &scalars, Some(&eq_mle));
    assert_eq!(on_base, on_extension);
    assert_eq!(
        on_base,
        evaluate_extension_main_pairs(&lowered, &lifted, &scalars, Some(&eq_mle))
    );
}

#[test]
fn device_answer_matches_host_sum() {
    let lowered = compiled(&TwoRowAir).lower();
    let pols = vec![
        base_poly(&[2, 3, 4, 5]),
        base_poly(&[6, 7, 8, 9]),
        base_poly(&[10, 11, 12, 13]),
        base_poly(&[14, 15, 16, 17]),
    ];
    let mut coefficients = [base(0); 8];
    for (i, coefficient) in coefficients.iter_mut().enumerate() {
        *coefficient = base(0x7eff_ff00 + 13 * i as u32);
    }
    let scalars = vec![<EF as ExtensionField<KoalaBear>>::from_basis_coefficients(&coefficients)];
    let eq_mle = EvaluationsList::eval_eq(&[ext(2), ext(3)]);

    let payload = build_packed_main_payload::<KoalaBear, EF>(&lowered, &pols, &scalars)
        .expect("the kernel has room for the program");
    assert_eq!(payload.header.order, 0x7f00_0001);
    assert_eq!(payload.header.point_count, 4);
    assert_eq!(payload.header.total_slots, 7);
    assert_eq!(payload.header.output_count, 1);
    assert_eq!(payload.header.extension_degree, 8);
    assert_eq!(payload.result_len_u32s(), 32);
    assert_eq!(&payload.flat_inputs[..7], &[2, 6, 10, 14, 0, 0, 0]);

    let words = evaluate_air(&payload);
    assert_eq!(words.len(), 32);
    let host: ConstraintProgramHypercubeEvaluator<'_, KoalaBear, LANES> =
        ConstraintProgramHypercubeEvaluator::new(&lowered);
    for weights in [None, Some(&eq_mle)] {
        let device = reduce_gpu_output::<KoalaBear, EF>(&words, weights);
        let expected: EF = host.compute(&pols, &scalars, weights);
        assert_eq!(device, expected);
        let answered = conclude_packed_main_pairs::<KoalaBear, EF, LANES>(
            Ok(words.clone()),
            &lowered,
            &pols,
            &scalars,
            weights,
        );
        assert_eq!(answered, expected);
        let failed = conclude_packed_main_pairs::<KoalaBear, EF, LANES>(
            Err("no device".to_string()),
            &lowered,
            &pols,
            &scalars,
            weights,
        );
        assert_eq!(failed, expected);
        match evaluate_packed_main_pairs::<KoalaBear, EF, LANES>(
            &lowered, &pols, &scalars, weights,
        ) {
            MainPairs::Run(run) => assert_eq!(evaluate_air(&run), words),
            MainPairs::Known { .. } => panic!("a device is to run the payload"),
        }
    }
}

#[test]
fn payload_is_refused_where_columns_are_missing() {
    // The program reads one column of the local row only, and four columns are given.
    let graph = SymbolicGraph {
        nodes: vec![SymbolicExpression::Variable(SymbolicVariable {
            entry: Entry::Main { offset: 0 },
            index: 0,
        })],
        constraints: vec![0],
    };
    let lowered = compile_air_constraint_program(&graph).lower();
    let pols = vec![
        base_poly(&[1, 2, 3, 4]),
        base_poly(&[1, 2, 3, 4]),
        base_poly(&[1, 2, 3, 4]),
        base_poly(&[1, 2, 3, 4]),
    ];
    let error = build_packed_main_payload::<KoalaBear, EF>(&lowered, &pols, &[ext(1)])
        .expect_err("the layout has no room for the columns");
    assert_eq!(error, PayloadError::NotMainColumnsOnly { expected_slots: 7, total_slots: 5 });
    assert_eq!(
        error.message(),
        "device runtime only supports main-column AIR inputs; expected 7 flat slots, got 5"
    );
}

#[test]
fn payload_is_refused_where_instructions_are_too_many() {
    let mut graph = SymbolicGraph {
        nodes: vec![SymbolicExpression::Variable(SymbolicVariable {
            entry: Entry::Main { offset: 0 },
            index: 0,
        })],
        constraints: vec![],
    };
    for _ in 0..2048 {
        let last = graph.nodes.len() - 1;
        graph.nodes.push(SymbolicExpression::Add { x: last, y: 0, degree_multiple: 1 });
    }
    graph.constraints.push(2048);
    let lowered = compile_air_constraint_program(&graph).lower();
    let pols = vec![base_poly(&[1, 2, 3, 4]), base_poly(&[1, 2, 3, 4])];
    let error = build_packed_main_payload::<KoalaBear, EF>(&lowered, &pols, &[ext(1)])
        .expect_err("the kernel has no room for the program");
    assert_eq!(error, PayloadError::TooManyInstructions { count: 2049 });
    assert_eq!(
        error.message(),
        "device runtime supports at most 2048 AIR instructions, got 2049"
    );
    match evaluate_packed_main_pairs::<KoalaBear, EF, LANES>(&lowered, &pols, &[ext(1)], None) {
        MainPairs::Run(_) => panic!("the kernel has no room for the program"),
        MainPairs::Known { value, reason } => {
            assert_eq!(value, ext(2049 * (1 + 2 + 3 + 4)));
            assert_eq!(reason, Some(PayloadError::TooManyInstructions { count: 2049 }));
        }
    }
}

#[test]
fn extension_degree_error_has_a_message() {
    assert_eq!(
        PayloadError::ExtensionDegreeTooLarge { degree: 16 }.message(),
        "device runtime supports extension degree at most 8, got 16"
    );
}

#[test]
fn shared_nodes_are_compiled_once() {
    let column = SymbolicExpression::Variable(SymbolicVariable {
        entry: Entry::Main { offset: 0 },
        index: 0,
    });
    let graph: SymbolicGraph<KoalaBear> = SymbolicGraph {
        nodes: vec![
            column,
            SymbolicExpression::Mul { x: 0, y: 0, degree_multiple: 2 },
            SymbolicExpression::Neg { x: 1, degree_multiple: 2 },
            SymbolicExpression::Sub { x: 1, y: 2, degree_multiple: 2 },
        ],
        constraints: vec![3, 1],
    };
    let program = compile_air_constraint_program(&graph);
    assert_eq!(program.instructions.len(), 4);
    assert_eq!(program.outputs, vec![3, 1]);
    assert_eq!(program.max_constraint_degree, 2);
    let stats = program.stats();
    assert_eq!((stats.inputs, stats.muls, stats.negs, stats.subs, stats.adds), (1, 1, 1, 1, 0));
    assert_eq!(stats.constants, 0);
    let local = [base(5)];
    let next = [base(0)];
    let inputs = ConstraintProgramInputs::for_main_row(&local, &next, 1, 4);
    assert_eq!(program.evaluate(&inputs), vec![base(50), base(25)]);
}

#[test]
fn nodes_that_no_constraint_needs_are_left_out() {
    let graph: SymbolicGraph<KoalaBear> = SymbolicGraph {
        nodes: vec![
            SymbolicExpression::IsTransition,
            SymbolicExpression::Constant(base(9)),
        ],
        constraints: vec![1],
    };
    let program = compile_air_constraint_program(&graph);
    assert_eq!(program.instructions.len(), 1);
    assert!(matches!(
        program.instructions[0],
        KernelInstruction::Constant(value) if value == base(9)
    ));
    assert!(program.is_gpu_candidate());
    assert_eq!(program.max_constraint_degree, 0);
}

#[test]
fn every_unsupported_input_is_flagged_once_in_order() {
    let variable = |entry: Entry| SymbolicExpression::Variable(SymbolicVariable { entry, index: 0 });
    let graph: SymbolicGraph<KoalaBear> = SymbolicGraph {
        nodes: vec![
            variable(Entry::Permutation { offset: 1 }),
            variable(Entry::Public),
            variable(Entry::Challenge),
            variable(Entry::Public),
            SymbolicExpression::IsLastRow,
            SymbolicExpression::IsTransition,
            variable(Entry::Preprocessed { offset: 1 }),
        ],
        constraints: vec![1, 0, 2, 3, 5, 4, 6],
    };
    let program = compile_air_constraint_program(&graph);
    assert_eq!(
        program.unsupported_features,
        vec![
            UnsupportedGpuFeature::PublicInput,
            UnsupportedGpuFeature::PermutationInput,
            UnsupportedGpuFeature::ChallengeInput,
            UnsupportedGpuFeature::RowSelector(RowSelector::Transition),
            UnsupportedGpuFeature::RowSelector(RowSelector::Last),
        ]
    );
    assert_eq!(program.stats().unsupported_features, 5);

    let (pre, next_pre) = ([base(1)], [base(2)]);
    let (perm, next_perm) = ([base(3)], [base(4)]);
    let (public, challenges) = ([base(5)], [base(6)]);
    let (local, next) = ([base(7)], [base(8)]);
    let inputs = ConstraintProgramInputs::for_main_row(&local, &next, 2, 3)
        .with_preprocessed(&pre, &next_pre)
        .with_permutation(&perm, &next_perm)
        .with_public_values(&public)
        .with_challenges(&challenges);
    let expected = [5, 4, 6, 5, 0, 1, 2].map(base).to_vec();
    assert_eq!(program.evaluate(&inputs), expected);

    let lowered = program.lower();
    let layout = lowered.input_layout;
    assert_eq!(layout.total_slots(), 9);
    assert!(matches!(
        lowered.instructions[0],
        LoweredKernelInstruction::Input { slot } if slot == layout.public_values_offset()
    ));
    let flat = layout.flatten_inputs(&inputs);
    let scalars = [1, 10, 100, 1000, 10_000, 100_000, 1_000_000].map(ext);
    assert_eq!(
        lowered.evaluate_batched(&flat, &scalars),
        program.evaluate_batched(&inputs, &scalars)
    );
    assert_eq!(lowered.evaluate_batched(&flat, &scalars), ext(2_105_645));
}

#[test]
fn layout_gives_each_input_its_own_slot() {
    let layout = ConstraintInputLayout {
        main_width: 2,
        preprocessed_width: 1,
        permutation_width: 1,
        public_values: 2,
        challenges: 1,
    };
    assert_eq!(layout.main_local_offset(), 0);
    assert_eq!(layout.main_next_offset(), 2);
    assert_eq!(layout.preprocessed_local_offset(), 4);
    assert_eq!(layout.preprocessed_next_offset(), 5);
    assert_eq!(layout.permutation_local_offset(), 6);
    assert_eq!(layout.permutation_next_offset(), 7);
    assert_eq!(layout.public_values_offset(), 8);
    assert_eq!(layout.challenges_offset(), 10);
    assert_eq!(layout.selectors_offset(), 11);
    assert_eq!(layout.total_slots(), 14);
    assert_eq!(layout.slot_for_input(KernelInput::Main { row_offset: 1, column: 1 }), 3);
    assert_eq!(layout.slot_for_input(KernelInput::Preprocessed { row_offset: 1, column: 0 }), 5);
    assert_eq!(layout.slot_for_input(KernelInput::Permutation { row_offset: 0, column: 0 }), 6);
    assert_eq!(layout.slot_for_input(KernelInput::Public { index: 1 }), 9);
    assert_eq!(layout.slot_for_input(KernelInput::Challenge { index: 0 }), 10);
    assert_eq!(layout.slot_for_input(KernelInput::Selector(RowSelector::First)), 11);
    assert_eq!(layout.slot_for_input(KernelInput::Selector(RowSelector::Last)), 12);
    assert_eq!(layout.slot_for_input(KernelInput::Selector(RowSelector::Transition)), 13);
    assert_eq!(ConstraintInputLayout::default().total_slots(), 3);

    let row = |row_offset: usize| {
        [
            KernelInput::Main { row_offset, column: 0 },
            KernelInput::Main { row_offset, column: 1 },
            KernelInput::Preprocessed { row_offset, column: 0 },
            KernelInput::Permutation { row_offset, column: 0 },
        ]
    };
    let shared = [
        KernelInput::Public { index: 0 },
        KernelInput::Public { index: 1 },
        KernelInput::Challenge { index: 0 },
        KernelInput::Selector(RowSelector::First),
        KernelInput::Selector(RowSelector::Last),
        KernelInput::Selector(RowSelector::Transition),
    ];
    let inputs = row(0).into_iter().chain(row(1)).chain(shared);
    let mut slots = inputs.map(|input| layout.slot_for_input(input)).collect::<Vec<_>>();
    slots.sort_unstable();
    assert_eq!(slots, (0..14).collect::<Vec<_>>());
}

#[test]
fn row_selectors_follow_the_row() {
    let row = [base(1)];
    let selectors = |index: usize, height: usize| {
        let inputs = ConstraintProgramInputs::for_main_row(&row, &row, index, height);
        (
            inputs.read(KernelInput::Selector(RowSelector::First)).as_canonical_u32(),
            inputs.read(KernelInput::Selector(RowSelector::Last)).as_canonical_u32(),
            inputs.read(KernelInput::Selector(RowSelector::Transition)).as_canonical_u32(),
        )
    };
    assert_eq!(selectors(0, 3), (1, 0, 1));
    assert_eq!(selectors(1, 3), (0, 0, 1));
    assert_eq!(selectors(2, 3), (0, 1, 0));
    assert_eq!(selectors(0, 1), (1, 1, 0));
}

const SBOX_DEGREE: u64 = 3;
const SBOX_REGISTERS: usize = 0;
const HALF_FULL_ROUNDS: usize = 4;
const PARTIAL_ROUNDS: usize = 20;
const WIDTH: usize = 16;

type PoseidonAir = Poseidon2Air<
    P3KoalaBear,
    GenericPoseidon2LinearLayersKoalaBear,
    WIDTH,
    SBOX_DEGREE,
    SBOX_REGISTERS,
    HALF_FULL_ROUNDS,
    PARTIAL_ROUNDS,
>;

fn evaluate_symbolic_expression(
    expr: &P3Expression<P3KoalaBear>,
    inputs: &ConstraintProgramInputs<'_, KoalaBear>,
    memo: &mut HashMap<String, KoalaBear>,
) -> KoalaBear {
    let key = format!("{expr:p}");
    if let Some(value) = memo.get(&key) {
        return *value;
    }
    let value = match expr {
        P3Expression::Variable(var) => inputs.read(match var.entry {
            P3Entry::Main { offset } => KernelInput::Main { row_offset: offset, column: var.index },
            P3Entry::Preprocessed { offset } => {
                KernelInput::Preprocessed { row_offset: offset, column: var.index }
            }
            P3Entry::Permutation { offset } => {
                KernelInput::Permutation { row_offset: offset, column: var.index }
            }
            P3Entry::Public => KernelInput::Public { index: var.index },
            P3Entry::Challenge => KernelInput::Challenge { index: var.index },
        }),
        P3Expression::IsFirstRow => inputs.read(KernelInput::Selector(RowSelector::First)),
        P3Expression::IsLastRow => inputs.read(KernelInput::Selector(RowSelector::Last)),
        P3Expression::IsTransition => inputs.read(KernelInput::Selector(RowSelector::Transition)),
        P3Expression::Constant(value) => from_p3(*value),
        P3Expression::Add { x, y, .. } => evaluate_symbolic_expression(x, inputs, memo)
            .plus(evaluate_symbolic_expression(y, inputs, memo)),
        P3Expression::Sub { x, y, .. } => evaluate_symbolic_expression(x, inputs, memo)
            .minus(evaluate_symbolic_expression(y, inputs, memo)),
        P3Expression::Neg { x, .. } => evaluate_symbolic_expression(x, inputs, memo).negated(),
        P3Expression::Mul { x, y, .. } => evaluate_symbolic_expression(x, inputs, memo)
            .times(evaluate_symbolic_expression(y, inputs, memo)),
    };
    memo.insert(key, value);
    value
}

#[test]
fn poseidon2_constraints_match_current_gpu_candidate_subset() {
    let mut rng = StdRng::seed_from_u64(0);
    let constants =
        RoundConstants::<P3KoalaBear, WIDTH, HALF_FULL_ROUNDS, PARTIAL_ROUNDS>::from_rng(&mut rng);
    let poseidon_air = PoseidonAir::new(constants);

    let program = compiled(&poseidon_air);
    let stats = program.stats();

    assert!(program.is_gpu_candidate());
    assert_eq!(stats.constraints, 148);
    assert_eq!(stats.unsupported_features, 0);
    assert!(stats.muls > 0);
}

#[test]
fn poseidon2_kernel_program_matches_symbolic_constraints_on_trace_rows() {
    let mut rng = StdRng::seed_from_u64(0);
    let constants =
        RoundConstants::<P3KoalaBear, WIDTH, HALF_FULL_ROUNDS, PARTIAL_ROUNDS>::from_rng(&mut rng);
    let poseidon_air = PoseidonAir::new(constants.clone());

    let inputs: Vec<[P3KoalaBear; WIDTH]> =
        (0..4).map(|_| std::array::from_fn(|_| rng.random())).collect();

    let trace = generate_trace_rows::<
        P3KoalaBear,
        GenericPoseidon2LinearLayersKoalaBear,
        WIDTH,
        SBOX_DEGREE,
        SBOX_REGISTERS,
        HALF_FULL_ROUNDS,
        PARTIAL_ROUNDS,
    >(inputs, &constants, 0);

    let symbolic_constraints =
        get_symbolic_constraints::<P3KoalaBear, PoseidonAir>(&poseidon_air, 0, 0);
    let program = compiled(&poseidon_air);
    let lowered = program.lower();

    for row_index in 0..trace.height() {
        let local: Vec<KoalaBear> = trace
            .row_slice(row_index)
            .expect("row is in bounds")
            .iter()
            .map(|value| from_p3(*value))
            .collect();
        let next: Vec<KoalaBear> = trace
            .row_slice((row_index + 1) % trace.height())
            .expect("row is in bounds")
            .iter()
            .map(|value| from_p3(*value))
            .collect();
        let inputs =
            ConstraintProgramInputs::for_main_row(&local, &next, row_index, trace.height());

        let mut memo = HashMap::new();
        let expected = symbolic_constraints
            .iter()
            .map(|constraint| evaluate_symbolic_expression(constraint, &inputs, &mut memo))
            .collect::<Vec<_>>();
        let actual = program.evaluate(&inputs);

        assert_eq!(actual, expected, "constraint mismatch on row {row_index}");
        assert!(actual.iter().all(|value| value.is_zero()));

        let scalars: Vec<EF> = (0..148).map(|i| ext(i + 2)).collect();
        let flat = lowered.input_layout.flatten_inputs(&inputs);
        assert_eq!(lowered.evaluate_batched(&flat, &scalars), EF::zero());
    }
}

#[test]
fn repeated_nodes_and_features_are_compiled_once() {
    let public = |index: usize| {
        SymbolicExpression::Variable(SymbolicVariable { entry: Entry::Public, index })
    };
    let nodes = || {
        vec![
            public(0),
            public(1),
            SymbolicExpression::Add { x: 0, y: 1, degree_multiple: 0 },
            SymbolicExpression::Mul { x: 2, y: 2, degree_multiple: 0 },
        ]
    };
    let once = compile_air_constraint_program(&SymbolicGraph::<KoalaBear> {
        nodes: nodes(),
        constraints: vec![3],
    });
    let twice = compile_air_constraint_program(&SymbolicGraph::<KoalaBear> {
        nodes: nodes(),
        constraints: vec![3, 3, 2],
    });
    let printed = |program: &ConstraintProgram<KoalaBear>| format!("{:?}", program.instructions);
    assert_eq!(printed(&once), printed(&twice));
    assert_eq!(once.instructions.len(), 4);
    assert_eq!(once.outputs, vec![3]);
    assert_eq!(twice.outputs, vec![3, 3, 2]);
    assert_eq!(once.unsupported_features, vec![UnsupportedGpuFeature::PublicInput]);
    assert_eq!(twice.unsupported_features, once.unsupported_features);
}
