//! Tables, their parameters, and the choice of a device.

use whirlaway::device::dispatch::{DeviceAttempts, GpuBackend, GpuBackendPreference};
use whirlaway::evals::EvaluationsList;
use whirlaway::field::{Algebra, Field};
use whirlaway::kernel_ir::{Entry, SymbolicExpression, SymbolicGraph, SymbolicVariable};
use whirlaway::koala_bear::KoalaBear;
use whirlaway::octic::OcticExtension;
use whirlaway::table::{AirSettings, AirTable, FoldingFactor, SecurityAssumption};

fn base(value: u32) -> KoalaBear {
    KoalaBear::new(value)
}

fn ext(value: u32) -> OcticExtension {
    <OcticExtension as Algebra<KoalaBear>>::embed(base(value))
}

fn settings(univariate_skips: usize) -> AirSettings {
    AirSettings::new(
        128,
        SecurityAssumption::CapacityBound,
        FoldingFactor::ConstantFromSecondRound(5, 3),
        2,
        univariate_skips,
        4,
    )
}

/// Column 0 times column 2 of the next row, and column 1.
fn constraints() -> SymbolicGraph<KoalaBear> {
    let column = |index: usize, offset: usize| {
        SymbolicExpression::Variable(SymbolicVariable { entry: Entry::Main { offset }, index })
    };
    SymbolicGraph {
        nodes: vec![
            column(0, 0),
            column(2, 1),
            SymbolicExpression::Mul { x: 0, y: 1, degree_multiple: 2 },
            column(1, 0),
        ],
        constraints: vec![2, 3],
    }
}

fn table() -> AirTable<KoalaBear, &'static str> {
    let preprocessed = vec![EvaluationsList::new([1, 2, 3, 4, 5, 6, 7, 8].map(base).to_vec())];
    AirTable::new("air", 4, &constraints(), 3, 2, preprocessed, 2)
}

#[test]
fn table_counts_its_columns_and_constraints() {
    let table = table();
    assert_eq!(table.air, "air");
    assert_eq!(table.n_columns, 4);
    assert_eq!(table.n_constraints, 2);
    assert_eq!(table.constraint_degree, 2);
    assert_eq!(table.n_preprocessed_columns(), 1);
    assert_eq!(table.n_witness_columns(), 3);
    assert_eq!(table.log_n_witness_columns(), 2);
    assert_eq!(table.univariate_selectors.len(), 4);
    for (i, selector) in table.univariate_selectors.iter().enumerate() {
        assert_eq!(selector.evaluate::<KoalaBear>(KoalaBear::from_usize(i)), base(1));
    }
    let program = table.device_constraint_program.as_ref().expect("only columns are read");
    assert_eq!(program.outputs.len(), 2);
    assert_eq!(program.input_layout.main_width, 3);
}

#[test]
fn table_has_no_device_program_where_selectors_are_read() {
    let graph: SymbolicGraph<KoalaBear> =
        SymbolicGraph { nodes: vec![SymbolicExpression::IsLastRow], constraints: vec![0] };
    let table = AirTable::new((), 1, &graph, 3, 1, Vec::new(), 1);
    assert_eq!(table.n_constraints, 1);
    assert!(table.device_constraint_program.is_none());
}

#[test]
fn commitment_parameters_follow_the_settings() {
    let parameters = table().build_whir_params(&settings(2), 16);
    assert_eq!(parameters.num_variables, 5);
    assert!(parameters.initial_statement);
    assert_eq!(parameters.security_level, 128);
    assert_eq!(parameters.pow_bits, 16);
    assert_eq!(parameters.folding_factor, FoldingFactor::ConstantFromSecondRound(5, 3));
    assert_eq!(parameters.soundness_type, SecurityAssumption::CapacityBound);
    assert_eq!(parameters.starting_log_inv_rate, 2);
    assert_eq!(parameters.rs_domain_initial_reduction_factor, 4);
    assert!(!parameters.univariate_skip);
    // 2^(2 + 3 + 2 - 3)
    assert_eq!(table().dft_size(&settings(2), 8), 16);
    assert_eq!(table().n_zerocheck_challenges(&settings(2)), 2);
}

#[test]
fn zerocheck_columns_put_preprocessed_columns_first() {
    let witness = vec![EvaluationsList::new([11, 12, 13, 14, 15, 16, 17, 18].map(base).to_vec())];
    let columns = table().zerocheck_columns(&witness);
    let evals = columns.iter().map(|column| column.evals().to_vec()).collect::<Vec<_>>();
    assert_eq!(
        evals,
        vec![
            [1, 2, 3, 4, 5, 6, 7, 7].map(base).to_vec(),
            [11, 12, 13, 14, 15, 16, 17, 17].map(base).to_vec(),
            [2, 3, 4, 5, 6, 7, 8, 8].map(base).to_vec(),
            [12, 13, 14, 15, 16, 17, 18, 18].map(base).to_vec(),
        ]
    );
}

#[test]
fn inner_sums_leave_out_preprocessed_columns() {
    let left = (1..=8).map(|i| EvaluationsList::new(vec![ext(i)])).collect::<Vec<_>>();
    let (up, down) = table().inner_sums(&left);
    assert_eq!(up, [2, 3, 4].map(ext).to_vec());
    assert_eq!(down, [6, 7, 8].map(ext).to_vec());
}

#[test]
fn settings_name_a_backend() {
    let preference = GpuBackendPreference::from_setting;
    assert_eq!(preference(None), GpuBackendPreference::Auto);
    assert_eq!(preference(Some("metal")), GpuBackendPreference::Metal);
    assert_eq!(preference(Some("  MeTaL\n")), GpuBackendPreference::Metal);
    assert_eq!(preference(Some("WGPU")), GpuBackendPreference::Wgpu);
    assert_eq!(preference(Some("\twgpu ")), GpuBackendPreference::Wgpu);
    assert_eq!(preference(Some("wg pu")), GpuBackendPreference::Auto);
    assert_eq!(preference(Some("cuda")), GpuBackendPreference::Auto);
    assert_eq!(preference(Some("")), GpuBackendPreference::Auto);
}

#[test]
fn backends_are_tried_in_order() {
    let mut attempts = DeviceAttempts::new(GpuBackendPreference::Auto, true);
    assert_eq!(attempts.next_backend(), Some(GpuBackend::Metal));
    attempts.record_failure("no device".to_string());
    assert_eq!(attempts.next_backend(), Some(GpuBackend::Wgpu));
    attempts.record_failure("no adapter".to_string());
    assert_eq!(attempts.next_backend(), None);
    assert_eq!(attempts.failure(), "metal: no device; wgpu: no adapter");

    let mut attempts = DeviceAttempts::new(GpuBackendPreference::Auto, false);
    assert_eq!(attempts.next_backend(), Some(GpuBackend::Wgpu));
    attempts.record_failure("no adapter".to_string());
    assert_eq!(attempts.next_backend(), None);
    assert_eq!(attempts.failure(), "wgpu: no adapter");
}

#[test]
fn a_named_backend_is_the_only_one() {
    let mut attempts = DeviceAttempts::new(GpuBackendPreference::Wgpu, true);
    assert_eq!(attempts.next_backend(), Some(GpuBackend::Wgpu));
    attempts.record_failure("no adapter".to_string());
    assert_eq!(attempts.next_backend(), None);
    assert_eq!(attempts.failure(), "no adapter");

    let mut attempts = DeviceAttempts::new(GpuBackendPreference::Metal, true);
    assert_eq!(attempts.next_backend(), Some(GpuBackend::Metal));
    attempts.record_failure("no device".to_string());
    assert_eq!(attempts.failure(), "no device");

    let attempts = DeviceAttempts::new(GpuBackendPreference::Metal, false);
    assert_eq!(attempts.next_backend(), None);
    assert_eq!(attempts.failure(), "metal backend is only available on macOS");
}
