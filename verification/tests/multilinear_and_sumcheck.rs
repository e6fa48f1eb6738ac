//! Multilinear polynomials, interpolation, and the rounds of the sumcheck.

use std::cell::Cell;

use whirlaway::dense::DensePolynomial;
use whirlaway::evals::EvaluationsList;
use whirlaway::field::{Algebra, ExtensionField, Field, Ring};
use whirlaway::inner_sumcheck::{
    inner_sumcheck_multilinears, opening_statement, powers, InnerSumcheckCircuit,
};
use whirlaway::koala_bear::KoalaBear;
use whirlaway::multilinear::{
    add_multilinears, batch_fold_multilinear_in_large_field,
    batch_fold_multilinear_in_small_field, column_down, column_up, columns_up_and_down, log2_up,
    matrix_down_folded, matrix_up_folded, multilinears_linear_combination, packed_multilinear,
};
use whirlaway::octic::OcticExtension;
use whirlaway::packed::Packed;
use whirlaway::selectors::univariate_selectors;
use whirlaway::sumcheck::{
    backend, compute_over_extension_hypercube, compute_over_hypercube, eval_sumcheck_computation,
    sc_round, ComputationEvaluator, PackedComputationEvaluator, RoundParameters,
    SumcheckComputation, SumcheckComputationPacked, SumcheckProver, SumcheckStatement,
};
use whirlaway::witness::prepare_batched_witness;

type F = KoalaBear;
type EF = OcticExtension;

const LANES: usize = 2;

struct PackedLaneSum;

impl SumcheckComputation<F, EF> for PackedLaneSum {
    fn eval(&self, point: &[F], batching_scalars: &[EF]) -> EF {
        lift(point[0]).plus(batching_scalars[0].times(lift(point[1])))
    }
}

impl SumcheckComputationPacked<F, EF> for PackedLaneSum {
    fn eval_packed<const W: usize>(
        &self,
        point: &[Packed<F, W>],
        batching_scalars: &[EF],
        _decomposed_batching_scalars: &[Vec<F>],
    ) -> Vec<EF> {
        let scalar = batching_scalars[0];
        (0..W)
            .map(|idx| {
                lift(point[0].as_slice()[idx]).plus(scalar.times(lift(point[1].as_slice()[idx])))
            })
            .collect()
    }
}

struct ExtensionLaneSum;

impl SumcheckComputation<EF, EF> for ExtensionLaneSum {
    fn eval(&self, point: &[EF], batching_scalars: &[EF]) -> EF {
        point[0].plus(batching_scalars[0].times(point[1]))
    }
}

/// The batched constraint `x (x - 1)`, which is zero on bits.
struct BitConstraint;

impl SumcheckComputation<F, EF> for BitConstraint {
    fn eval(&self, point: &[F], batching_scalars: &[EF]) -> EF {
        batching_scalars[0].times(lift(point[0].times(point[0].minus(F::one()))))
    }
}

impl SumcheckComputationPacked<F, EF> for BitConstraint {
    fn eval_packed<const W: usize>(
        &self,
        point: &[Packed<F, W>],
        batching_scalars: &[EF],
        _decomposed_batching_scalars: &[Vec<F>],
    ) -> Vec<EF> {
        let bit = |lane: usize| point[0].as_slice()[lane];
        (0..W).map(|lane| self.eval(&[bit(lane)], batching_scalars)).collect()
    }
}

/// A computation that counts how it is carried out.
struct Counted {
    points: Cell<usize>,
    lanes: Cell<usize>,
}

impl SumcheckComputation<F, EF> for Counted {
    fn eval(&self, point: &[F], _batching_scalars: &[EF]) -> EF {
        self.points.set(self.points.get() + 1);
        lift(point[0])
    }
}

impl SumcheckComputationPacked<F, EF> for Counted {
    fn eval_packed<const W: usize>(
        &self,
        point: &[Packed<F, W>],
        _batching_scalars: &[EF],
        _decomposed_batching_scalars: &[Vec<F>],
    ) -> Vec<EF> {
        self.lanes.set(self.lanes.get() + W);
        point[0].as_slice().iter().map(|value| lift(*value)).collect()
    }
}

impl SumcheckComputation<EF, EF> for BitConstraint {
    fn eval(&self, point: &[EF], batching_scalars: &[EF]) -> EF {
        batching_scalars[0].times(point[0].times(point[0].minus(EF::one())))
    }
}

fn lift(value: F) -> EF {
    <EF as Algebra<F>>::embed(value)
}

fn base(value: u32) -> F {
    F::new(value)
}

fn ext(value: u32) -> EF {
    lift(base(value))
}

/// An element that is not in the base field.
fn wide(seed: u32) -> EF {
    let coefficients: [F; 8] = std::array::from_fn(|i| base(seed * 1_000 + 37 * i as u32 + 1));
    <EF as ExtensionField<F>>::from_basis_coefficients(&coefficients)
}

fn base_poly(values: &[u32]) -> EvaluationsList<F> {
    EvaluationsList::new(values.iter().copied().map(base).collect())
}

fn ext_poly(values: &[u32]) -> EvaluationsList<EF> {
    EvaluationsList::new(values.iter().copied().map(ext).collect())
}

fn total(values: &[EF]) -> EF {
    values.iter().fold(EF::zero(), |sum, value| sum.plus(*value))
}

#[test]
fn backend_matches_cpu_for_small_field_folds() {
    let polys = [base_poly(&[1, 2, 3, 4]), base_poly(&[5, 6, 7, 8])];
    let refs = polys.iter().collect::<Vec<_>>();
    let scalars = [base(3), base(7)];

    let expected = batch_fold_multilinear_in_small_field(&refs, &scalars);
    let actual = backend::batch_fold_multilinear_in_small_field(&refs, &scalars);

    assert_eq!(actual.len(), expected.len());
    for (actual, expected) in actual.iter().zip(&expected) {
        assert_eq!(actual.evals(), expected.evals());
    }
    assert_eq!(actual[0].evals(), &[3 + 21, 6 + 28].map(base));
    assert_eq!(actual[1].evals(), &[15 + 49, 18 + 56].map(base));
}

#[test]
fn backend_matches_cpu_for_large_field_folds() {
    let polys = [base_poly(&[1, 2, 3, 4]), base_poly(&[5, 6, 7, 8])];
    let refs = polys.iter().collect::<Vec<_>>();
    let scalars = [ext(3), ext(7)];

    let expected = batch_fold_multilinear_in_large_field(&refs, &scalars);
    let actual = backend::batch_fold_multilinear_in_large_field(&refs, &scalars);

    assert_eq!(actual.len(), expected.len());
    for (actual, expected) in actual.iter().zip(&expected) {
        assert_eq!(actual.evals(), expected.evals());
    }
    assert_eq!(actual[0].evals(), &[24, 34].map(ext));
}

#[test]
fn backend_matches_cpu_for_packed_hypercube_reduction() {
    let polys = [base_poly(&[1, 2, 3, 4]), base_poly(&[5, 6, 7, 8])];
    let batching_scalars = [ext(11)];
    let eq_mle = EvaluationsList::eval_eq(&[ext(2), ext(3)]);

    let expected = compute_over_hypercube::<F, EF, PackedLaneSum, LANES>(
        &polys,
        &PackedLaneSum,
        &batching_scalars,
        Some(&eq_mle),
    );
    let actual = backend::compute_over_hypercube::<F, EF, PackedLaneSum, LANES>(
        &polys,
        &PackedLaneSum,
        &batching_scalars,
        Some(&eq_mle),
    );

    assert_eq!(actual, expected);
}

#[test]
fn backend_matches_cpu_for_extension_hypercube_reduction() {
    let polys = [ext_poly(&[1, 2, 3, 4]), ext_poly(&[5, 6, 7, 8])];
    let batching_scalars = [ext(11)];
    let eq_mle = EvaluationsList::eval_eq(&[ext(2), ext(3)]);

    let expected = compute_over_extension_hypercube::<EF, ExtensionLaneSum>(
        &polys,
        &ExtensionLaneSum,
        &batching_scalars,
        Some(&eq_mle),
    );
    let actual = backend::compute_over_extension_hypercube::<EF, ExtensionLaneSum>(
        &polys,
        &ExtensionLaneSum,
        &batching_scalars,
        Some(&eq_mle),
    );

    assert_eq!(actual, expected);
}

#[test]
fn base_values_are_summed_by_lanes() {
    let polys = [base_poly(&[1, 2, 3, 4])];
    let counted = Counted { points: Cell::new(0), lanes: Cell::new(0) };
    let sum =
        backend::compute_over_hypercube::<F, EF, Counted, LANES>(&polys, &counted, &[ext(1)], None);
    assert_eq!(sum, ext(10));
    assert_eq!((counted.points.get(), counted.lanes.get()), (0, 4));
}

#[test]
fn prepared_batched_witness_matches_previous_path() {
    let witness = vec![
        base_poly(&[1, 2, 3, 4, 5, 6, 7, 8]),
        base_poly(&[9, 10, 11, 12, 13, 14, 15, 16]),
        base_poly(&[17, 18, 19, 20, 21, 22, 23, 24]),
    ];
    let columns_batching_scalars = vec![ext(3), ext(5)];
    let alpha = ext(7);
    let zerocheck_tail = vec![ext(11)];
    let epsilons = vec![ext(13), ext(17)];

    let expected_batched_column = multilinears_linear_combination(
        &witness,
        &EvaluationsList::eval_eq(&columns_batching_scalars).evals()[..witness.len()],
    );
    let expected_mixed = add_multilinears(
        &column_up(&expected_batched_column),
        &column_down(&expected_batched_column).scale(alpha),
    );
    let expected_sub_evals: EvaluationsList<EF> = expected_mixed.fold(&zerocheck_tail);
    let expected_inner_sum: EF =
        expected_mixed.evaluate(&[epsilons.clone(), zerocheck_tail.clone()].concat());

    let actual = prepare_batched_witness(
        &witness,
        &columns_batching_scalars,
        alpha,
        &zerocheck_tail,
        &epsilons,
    );

    assert_eq!(actual.batched_column.evals(), expected_batched_column.evals());
    assert_eq!(actual.sub_evals.evals(), expected_sub_evals.evals());
    assert_eq!(actual.inner_sum, expected_inner_sum);
}

#[test]
fn hypercube_sum_has_the_expected_number() {
    // 1 + 11 * 5, 2 + 11 * 6, 3 + 11 * 7, 4 + 11 * 8
    let polys = [base_poly(&[1, 2, 3, 4]), base_poly(&[5, 6, 7, 8])];
    let sum =
        compute_over_hypercube::<F, EF, PackedLaneSum, 1>(&polys, &PackedLaneSum, &[ext(11)], None);
    assert_eq!(sum, ext(56 + 68 + 80 + 92));
    let value =
        eval_sumcheck_computation(&PackedLaneSum, &[ext(11)], &[base(1), base(5)], Some(ext(2)));
    assert_eq!(value, ext(112));
}

#[test]
fn equality_weights_and_values_at_points() {
    let eq = EvaluationsList::eval_eq(&[base(2), base(3)]);
    // (1 - 2)(1 - 3), (1 - 2) 3, 2 (1 - 3), 2 * 3
    let minus = |n: u32| base(n).negated();
    assert_eq!(eq.evals(), &[base(2), minus(3), minus(4), base(6)]);
    let poly = base_poly(&[5, 7, 11, 13]);
    assert_eq!(poly.num_variables(), 2);
    let corner: F = poly.evaluate(&[base(1), base(0)]);
    assert_eq!(corner, base(11));
    // 5 * 2 - 7 * 3 - 11 * 4 + 13 * 6
    let value: F = poly.evaluate(&[base(2), base(3)]);
    assert_eq!(value, base(23));
    let fixed: EvaluationsList<F> = poly.fold(&[base(3)]);
    // 5 + 3 * 2, 11 + 3 * 2
    assert_eq!(fixed.evals(), &[base(11), base(17)]);
    let constant: F = base_poly(&[42]).evaluate(&[]);
    assert_eq!(constant, base(42));
}

#[test]
fn folding_then_evaluating_evaluates_at_the_joined_point() {
    let poly = base_poly(&[3, 1, 4, 1, 5, 9, 2, 6]);
    let (a, b, c) = (wide(1), wide(2), wide(3));
    let whole: EF = poly.evaluate(&[a, b, c]);
    let last_fixed: EvaluationsList<EF> = poly.fold(&[b, c]);
    assert_eq!(last_fixed.evaluate::<EF>(&[a]), whole);
    let first_fixed =
        batch_fold_multilinear_in_large_field(&[&poly], &[EF::one().minus(a), a]);
    assert_eq!(first_fixed[0].evaluate::<EF>(&[b, c]), whole);
    let second = batch_fold_multilinear_in_large_field(
        &[&first_fixed[0]],
        &[EF::one().minus(b), b],
    );
    let third = batch_fold_multilinear_in_large_field(&[&second[0]], &[EF::one().minus(c), c]);
    assert_eq!(third[0].evals(), &[whole]);
}

#[test]
fn shifted_columns_show_neighbouring_rows() {
    let column = base_poly(&[10, 20, 30, 40]);
    assert_eq!(column_up(&column).evals(), &[10, 20, 30, 30].map(base));
    assert_eq!(column_down(&column).evals(), &[20, 30, 40, 40].map(base));
    let other = base_poly(&[1, 2, 3, 4]);
    let shifted = columns_up_and_down(&[&column, &other]);
    let evals = shifted.iter().map(|pol| pol.evals().to_vec()).collect::<Vec<_>>();
    assert_eq!(
        evals,
        vec![
            [10, 20, 30, 30].map(base).to_vec(),
            [1, 2, 3, 3].map(base).to_vec(),
            [20, 30, 40, 40].map(base).to_vec(),
            [2, 3, 4, 4].map(base).to_vec(),
        ]
    );
    let point = [wide(4), wide(5)];
    let lifted: EvaluationsList<EF> = ext_poly(&[10, 20, 30, 40]);
    let dot = |weights: &EvaluationsList<EF>| {
        let products = weights
            .evals()
            .iter()
            .zip(lifted.evals())
            .map(|(w, v)| w.times(*v))
            .collect::<Vec<_>>();
        total(&products)
    };
    assert_eq!(dot(&matrix_up_folded(&point)), column_up(&lifted).evaluate::<EF>(&point));
    assert_eq!(dot(&matrix_down_folded(&point)), column_down(&lifted).evaluate::<EF>(&point));
}

#[test]
fn rounded_logarithms() {
    let expected = [(0, 0), (1, 0), (2, 1), (3, 2), (4, 2), (5, 3), (8, 3), (9, 4), (1 << 20, 20)];
    for (n, log) in expected {
        assert_eq!(log2_up(n), log, "of {n}");
    }
}

#[test]
fn packing_concatenates_columns() {
    let packed = packed_multilinear(&[
        base_poly(&[1, 2]),
        base_poly(&[3, 4]),
        base_poly(&[5, 6]),
    ]);
    assert_eq!(packed.evals(), &[1, 2, 3, 4, 5, 6, 0, 0].map(base));
    // With the leading variables fixed to the index of a column, the column is left.
    let value: F = packed.evaluate(&[base(1), base(0), base(9)]);
    let column: F = base_poly(&[5, 6]).evaluate(&[base(9)]);
    assert_eq!(value, column);
}

#[test]
fn interpolation_goes_through_its_values() {
    let values = [(base(0), wide(1)), (base(1), wide(2)), (base(5), wide(3))];
    let p = DensePolynomial::lagrange_interpolation::<F>(&values).expect("nodes differ");
    assert_eq!(p.coeffs.len(), 3);
    for (node, value) in values {
        assert_eq!(p.evaluate::<EF>(lift(node)), value);
    }
    let repeated = [(base(3), ext(1)), (base(3), ext(1))];
    assert!(DensePolynomial::lagrange_interpolation::<F>(&repeated).is_none());
    // 1 + 2 X + 3 X^2 through its values at 0, 1 and 2.
    let square = [(base(0), base(1)), (base(1), base(6)), (base(2), base(17))];
    let q = DensePolynomial::<F>::lagrange_interpolation::<F>(&square).expect("nodes differ");
    assert_eq!(q.coeffs, [1, 2, 3].map(base).to_vec());
    // (1 + 2 X + 3 X^2) (4 + 5 X)
    let product = q.multiply(&DensePolynomial::from_coefficients_vec([4, 5].map(base).to_vec()));
    assert_eq!(product.coeffs, [4, 13, 22, 15].map(base).to_vec());
}

#[test]
fn selectors_select() {
    let selectors = univariate_selectors::<F>(2);
    assert_eq!(selectors.len(), 4);
    for (i, selector) in selectors.iter().enumerate() {
        for j in 0..4 {
            let value = selector.evaluate::<F>(F::from_usize(j));
            assert_eq!(value, F::from_usize(usize::from(i == j)));
        }
    }
}

#[test]
fn powers_start_at_one() {
    assert_eq!(powers(base(3), 4), [1, 3, 9, 27].map(base).to_vec());
    assert_eq!(powers(base(3), 0), Vec::<F>::new());
}

/// Runs all rounds of the inner sumcheck on two polynomials and checks each round.
fn run_inner_sumcheck(first: EvaluationsList<EF>, second: EvaluationsList<EF>) -> bool {
    let n_vars = first.num_variables();
    let products = first
        .evals()
        .iter()
        .zip(second.evals())
        .map(|(a, b)| a.times(*b))
        .collect::<Vec<_>>();
    let claimed = total(&products);
    let scalars = [EF::one()];
    let statement = SumcheckStatement::new(1, n_vars, 2, &scalars, None, false, None);
    assert_eq!(statement.n_rounds, n_vars);
    let evaluator = ComputationEvaluator { computation: &InnerSumcheckCircuit };
    let parameters = statement.first_round(claimed, None);
    assert_eq!(parameters.sent_degree(), 2);
    let inputs = [&first, &second];
    let mut claim = claimed;
    let round = sc_round::<F, EF, EF, _>(&parameters, &inputs, &evaluator);
    assert_eq!(round.polynomial.coeffs.len(), 3);
    let at = |p: &DensePolynomial<EF>, x: EF| p.evaluate::<EF>(x);
    assert_eq!(at(&round.polynomial, EF::zero()).plus(at(&round.polynomial, EF::one())), claim);
    let mut prover = SumcheckProver::after_first_round::<F, EF>(
        &statement,
        &round,
        &parameters,
        &inputs,
        wide(50),
    );
    claim = at(&round.polynomial, wide(50));
    while !prover.is_finished(&statement) {
        let challenge = wide(51 + prover.challenges.len() as u32);
        let round = prover.start_round::<F, _>(&statement, &evaluator);
        assert_eq!(
            at(&round.polynomial, EF::zero()).plus(at(&round.polynomial, EF::one())),
            claim
        );
        prover.receive_challenge::<F>(&statement, &round, challenge);
        claim = at(&round.polynomial, challenge);
        assert_eq!(prover.sum, claim);
    }
    assert_eq!(prover.challenges.len(), n_vars);
    let a: EF = first.evaluate(&prover.challenges);
    let b: EF = second.evaluate(&prover.challenges);
    assert_eq!(prover.folded[0].evals(), &[a]);
    assert_eq!(prover.folded[1].evals(), &[b]);
    claim == a.times(b)
}

#[test]
fn inner_sumcheck_ends_in_a_true_claim() {
    let first = EvaluationsList::new((0..8).map(|i| wide(i + 1)).collect());
    let second = EvaluationsList::new((0..8).map(|i| wide(3 * i + 20)).collect());
    assert!(run_inner_sumcheck(first, second));
    assert!(run_inner_sumcheck(ext_poly(&[3, 4]), ext_poly(&[5, 6])));
}

#[test]
fn round_polynomial_has_the_expected_coefficients() {
    // (1 + 2 X)(3 + 4 X) + (2 + 2 X)(5 + 2 X) on tables [1, 2, 3, 4] and [3, 5, 7, 7].
    let first = ext_poly(&[1, 2, 3, 4]);
    let second = ext_poly(&[3, 5, 7, 7]);
    let parameters = RoundParameters {
        skips: 1,
        eq_factor: None,
        batching_scalars: &[],
        is_zerocheck: false,
        comp_degree: 2,
        sum: ext(3 + 10 + 21 + 28),
        round: 0,
        missing_mul_factor: None,
    };
    let evaluator = ComputationEvaluator { computation: &InnerSumcheckCircuit };
    let round = sc_round::<F, EF, EF, _>(&parameters, &[&first, &second], &evaluator);
    assert_eq!(round.polynomial.coeffs, [13, 24, 12].map(ext).to_vec());
    let outcome = round.fold::<EF>(&parameters, &[&first, &second], ext(2));
    assert_eq!(outcome.sum, ext(13 + 48 + 48));
    assert_eq!(outcome.folded[0].evals(), &[5, 6].map(ext));
    assert_eq!(outcome.folded[1].evals(), &[11, 9].map(ext));
    assert_eq!(outcome.missing_mul_factor, None);
}

/// Runs a zerocheck on a column of bits, and returns whether it ends in a true claim.
fn run_zerocheck(bits: &[u32], skips: usize) {
    let column = base_poly(bits);
    let n_vars = column.num_variables();
    let point: Vec<EF> = (0..n_vars + 1 - skips).map(|i| wide(70 + i as u32)).collect();
    let scalars = [wide(90)];
    let statement =
        SumcheckStatement::new(skips, n_vars, 2, &scalars, Some(&point), true, None);
    let first_evaluator: PackedComputationEvaluator<'_, BitConstraint, 1> =
        PackedComputationEvaluator { computation: &BitConstraint };
    let evaluator = ComputationEvaluator { computation: &BitConstraint };
    let parameters = statement.first_round(EF::zero(), None);
    let domain = 1usize << skips;
    assert_eq!(parameters.sent_degree(), 3 * (domain - 1));
    let round = sc_round::<F, F, EF, _>(&parameters, &[&column], &first_evaluator);
    let on_domain = (0..domain)
        .map(|z| round.polynomial.evaluate::<EF>(EF::from_usize(z)))
        .collect::<Vec<_>>();
    assert_eq!(total(&on_domain), EF::zero());
    let mut prover = SumcheckProver::after_first_round::<F, F>(
        &statement,
        &round,
        &parameters,
        &[&column],
        wide(110),
    );
    while !prover.is_finished(&statement) {
        let claim = prover.sum;
        let round = prover.start_round::<F, _>(&statement, &evaluator);
        let ends = round
            .polynomial
            .evaluate::<EF>(EF::zero())
            .plus(round.polynomial.evaluate::<EF>(EF::one()));
        assert_eq!(ends, claim);
        prover.receive_challenge::<F>(&statement, &round, wide(111 + claim.is_zero() as u32));
    }
    let value = prover.folded[0].evals()[0];
    let left = <BitConstraint as SumcheckComputation<EF, EF>>::eval(&BitConstraint, &[value], &scalars);
    let factor = prover.missing_mul_factor.expect("there is an equality factor");
    assert_eq!(prover.sum, left.times(factor));
}

#[test]
fn zerocheck_round_does_not_depend_on_the_claim() {
    let column = base_poly(&[0, 1, 1, 0, 1, 0, 0, 5]);
    let scalars = [wide(90)];
    let evaluator: PackedComputationEvaluator<'_, BitConstraint, LANES> =
        PackedComputationEvaluator { computation: &BitConstraint };
    for skips in [1, 2] {
        let point: Vec<EF> = (0..4 - skips).map(|i| wide(70 + i as u32)).collect();
        for eq_factor in [None, Some(point.as_slice())] {
            let statement = SumcheckStatement::new(skips, 3, 2, &scalars, eq_factor, true, None);
            let a = statement.first_round(EF::zero(), None);
            let b = statement.first_round(wide(77), None);
            let first = sc_round::<F, F, EF, _>(&a, &[&column], &evaluator);
            let second = sc_round::<F, F, EF, _>(&b, &[&column], &evaluator);
            assert_eq!(first.polynomial.coeffs, second.polynomial.coeffs);
            for z in 0..1usize << skips {
                let x = EF::from_usize(z);
                assert_eq!(first.polynomial.evaluate::<EF>(x), EF::zero());
            }
            let first = first.fold::<F>(&a, &[&column], wide(110));
            let second = second.fold::<F>(&b, &[&column], wide(110));
            assert_eq!(first.folded, second.folded);
            assert_eq!(first.sum, second.sum);
            assert_eq!(first.missing_mul_factor, second.missing_mul_factor);
        }
    }
}

#[test]
fn zerocheck_ends_in_a_true_claim() {
    run_zerocheck(&[0, 1, 1, 0, 1, 0, 0, 1], 1);
    run_zerocheck(&[0, 1, 1, 0, 1, 0, 0, 1], 2);
    run_zerocheck(&[1, 1, 1, 0, 1, 0, 0, 1, 0, 0, 0, 0, 1, 1, 1, 1], 3);
}

#[test]
fn number_of_lanes_does_not_change_the_polynomial() {
    let polys = [base_poly(&[1, 2, 3, 4, 5, 6, 7, 8]), base_poly(&[9, 8, 7, 6, 5, 4, 3, 2])];
    let refs = polys.iter().collect::<Vec<_>>();
    let point = [wide(5), wide(6), wide(7)];
    let scalars = [wide(8)];
    let parameters = RoundParameters {
        skips: 1,
        eq_factor: Some(&point),
        batching_scalars: &scalars,
        is_zerocheck: false,
        comp_degree: 1,
        sum: wide(9),
        round: 0,
        missing_mul_factor: Some(wide(10)),
    };
    let plain: PackedComputationEvaluator<'_, PackedLaneSum, 1> =
        PackedComputationEvaluator { computation: &PackedLaneSum };
    let packed: PackedComputationEvaluator<'_, PackedLaneSum, LANES> =
        PackedComputationEvaluator { computation: &PackedLaneSum };
    let a = sc_round::<F, F, EF, _>(&parameters, &refs, &plain);
    let b = sc_round::<F, F, EF, _>(&parameters, &refs, &packed);
    assert_eq!(a.polynomial, b.polynomial);
    let ends = a.polynomial.evaluate::<EF>(EF::zero()).plus(a.polynomial.evaluate::<EF>(EF::one()));
    assert_eq!(ends, wide(9));
}

#[test]
fn opening_statement_is_true_of_the_packed_witness() {
    let witness = vec![
        base_poly(&[1, 2, 3, 4, 5, 6, 7, 8]),
        base_poly(&[9, 10, 11, 12, 13, 14, 15, 16]),
        base_poly(&[17, 18, 19, 20, 21, 22, 23, 24]),
    ];
    let columns_batching_scalars = vec![wide(1), wide(2)];
    let alpha = wide(3);
    let tail = vec![wide(4)];
    let epsilons = vec![wide(5), wide(6)];
    let batched =
        prepare_batched_witness(&witness, &columns_batching_scalars, alpha, &tail, &epsilons);
    let inner_sum = batched.inner_sum;
    let pols = inner_sumcheck_multilinears(&epsilons, &tail, alpha, batched.batched_column);
    let scalars = [EF::one()];
    let evaluator = ComputationEvaluator { computation: &InnerSumcheckCircuit };
    assert_eq!(
        compute_over_extension_hypercube::<EF, InnerSumcheckCircuit>(
            &pols,
            &InnerSumcheckCircuit,
            &scalars,
            None
        ),
        inner_sum
    );
    let statement = SumcheckStatement::new(1, 3, 2, &scalars, None, false, None);
    let parameters = statement.first_round(inner_sum, None);
    let inputs = pols.iter().collect::<Vec<_>>();
    let round = sc_round::<F, EF, EF, _>(&parameters, &inputs, &evaluator);
    let mut prover = SumcheckProver::after_first_round::<F, EF>(
        &statement,
        &round,
        &parameters,
        &inputs,
        wide(30),
    );
    while !prover.is_finished(&statement) {
        let round = prover.start_round::<F, _>(&statement, &evaluator);
        prover.receive_challenge::<F>(&statement, &round, wide(31 + prover.challenges.len() as u32));
    }
    let opening =
        opening_statement(&columns_batching_scalars, &prover.challenges, &prover.folded);
    assert_eq!(opening.point.len(), 5);
    assert_eq!(packed_multilinear(&witness).evaluate::<EF>(&opening.point), opening.value);
}
