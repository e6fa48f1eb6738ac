//! What the turns of a prover are, said of its table, its settings and its witness.

use vstd::arithmetic::div_mod::*;
use vstd::arithmetic::mul::*;
use vstd::arithmetic::power2::*;
use vstd::prelude::*;

use crate::air_prover::{AirAction, AirProver, AirStage};
use crate::dense::{poly_value, poly_value_is_canonical, DensePolynomial};
use crate::evals::{eq_weight, multilinear_value};
use crate::exchange::Work;
use crate::field::{reduction, Algebra, ExtensionField, Field};
use crate::inner_sumcheck::{inner_product, powers_multiply_up};
use crate::multilinear::{log2_ceil_is_least, packed_values, rows_down, rows_up};
use crate::multilinear_laws::multilinear_value_is_canonical;
use crate::sumcheck::hypercube::{tables_of, HypercubeEvaluator};
use crate::sumcheck::message_laws::message_has_length;
use crate::sumcheck::prover::SumcheckProver;
use crate::sumcheck::round::{are_round_selectors, domain_weights, domain_weights_count};
use crate::sumcheck::round_laws::node;
use crate::sumcheck::run::folded_from;
use crate::sums::{sum_congruent, sum_to};
use crate::table::AirTable;
use crate::witness::{is_batched_witness, BatchedWitness};
use crate::witness_laws::{sub_evals_batch_the_values_left, value_left};

verus! {

impl<'a, F: Field, EF: ExtensionField<F>, A> AirProver<'a, F, EF, A> {
    /// The coefficients of the polynomial whose challenge the stage waits for.
    pub open spec fn round_coeffs(self) -> Seq<EF> {
        match self.stage {
            AirStage::Zerocheck { run, .. } => run.round.polynomial.coeffs@,
            AirStage::Inner { run, .. } => run.round.polynomial.coeffs@,
            _ => Seq::empty(),
        }
    }
}

/// The scalars that batch the constraints: the first is one, and each is the one before it times
/// the challenge.
pub proof fn constraints_are_batched_by_powers<
    F: Field,
    EF: ExtensionField<F>,
    A,
    E: HypercubeEvaluator<F, EF>,
    L: HypercubeEvaluator<EF, EF>,
>(
    prover: AirProver<'_, F, EF, A>,
    challenges: Seq<EF>,
    evaluator: E,
    later_evaluator: L,
    next: AirStage<F, EF>,
    action: AirAction<F, EF>,
)
    requires
        prover.stage is ConstraintsBatching,
        prover.is_step(challenges, evaluator, later_evaluator, next, action),
    ensures
        next matches AirStage::ZerocheckPoint { batching_scalars } && {
            &&& batching_scalars@.len() == prover.table.n_constraints
            &&& prover.table.n_constraints > 0 ==> batching_scalars@[0] == EF::spec_one()
            &&& forall|k: int, next: int|
                0 <= k && next == k + 1 && next < prover.table.n_constraints
                    ==> #[trigger] batching_scalars@[next] == (
                #[trigger] batching_scalars@[k]).spec_mul(challenges[0])
        },
{
    if let AirStage::ZerocheckPoint { batching_scalars } = next {
        assert forall|k: int, next: int|
            0 <= k && next == k + 1 && next
                < prover.table.n_constraints implies #[trigger] batching_scalars@[next] == (
        #[trigger] batching_scalars@[k]).spec_mul(challenges[0]) by {
            powers_multiply_up(challenges[0], k as nat);
        }
        powers_multiply_up(challenges[0], 0);
    }
}

/// The messages of the zerocheck: for constraints of degree `d` and `s` variables skipped, the
/// first one has `(d + 1) * (2^s - 1) + 1` coefficients, or those of degree one where `d` is
/// zero, and each later one has `d + 2`. The work that is shown is that of the degrees
/// `(d + 1) * (2^s - 1)` and `d + 1`. The last challenge is followed by two messages with one
/// value for each witness column.
pub proof fn zerocheck_messages_have_length<
    F: Field,
    EF: ExtensionField<F>,
    A,
    E: HypercubeEvaluator<F, EF>,
    L: HypercubeEvaluator<EF, EF>,
>(
    prover: AirProver<'_, F, EF, A>,
    challenges: Seq<EF>,
    evaluator: E,
    later_evaluator: L,
    next: AirStage<F, EF>,
    action: AirAction<F, EF>,
)
    requires
        prover.well_formed(),
        prover.stage is ZerocheckPoint || prover.stage is Zerocheck,
        prover.is_step(challenges, evaluator, later_evaluator, next, action),
    ensures
        prover.stage is ZerocheckPoint ==> next is Zerocheck && (action matches AirAction::Exchange(
            turn,
        ) && {
            let d = prover.table.constraint_degree as int;
            let last = pow2(prover.settings.univariate_skips as nat) - 1;
            &&& turn.messages@.len() == 1
            &&& d > 0 ==> turn.messages@[0]@.len() == (d + 1) * last + 1
            &&& d == 0 ==> turn.messages@[0]@.len() == 2 * last + 1
            &&& turn.work_before is None
            &&& turn.n_challenges == 1
            &&& turn.work_after matches Some(Work::SumcheckRound { degree }) && degree == (d + 1)
                * last
        }),
        prover.stage is Zerocheck && next is Zerocheck ==> (action matches AirAction::Exchange(turn)
            && {
            &&& turn.messages@.len() == 1
            &&& turn.messages@[0]@.len() == prover.table.constraint_degree + 2
            &&& turn.work_before is None
            &&& turn.n_challenges == 1
            &&& turn.work_after matches Some(Work::SumcheckRound { degree }) && degree
                == prover.table.constraint_degree + 1
        }),
        prover.stage is Zerocheck && next !is Zerocheck ==> next is ColumnsBatching && (
        action matches AirAction::Exchange(turn) && {
            &&& turn.messages@.len() == 2
            &&& turn.messages@[0]@.len() == prover.table.n_columns
                - prover.table.preprocessed_columns@.len()
            &&& turn.messages@[1]@.len() == prover.table.n_columns
                - prover.table.preprocessed_columns@.len()
            &&& turn.work_before == Some(Work::ColumnsBatching)
            &&& turn.work_after is None
        }),
        prover.stage matches AirStage::Zerocheck { run, .. } ==> (next is Zerocheck
            <==> run.challenges().len() + 1 < prover.table.log_length
            - prover.settings.univariate_skips + 1),
{
    let skips = prover.settings.univariate_skips;
    lemma_pow2_pos(skips as nat);
    lemma2_to64();
    match prover.stage {
        AirStage::ZerocheckPoint { batching_scalars } => {
            if let AirStage::Zerocheck { point, columns, run, .. } = next {
                let statement = prover.zerocheck_statement(batching_scalars@, challenges);
                message_has_length::<F, F, EF>(
                    run.round.polynomial.coeffs@,
                    run.parameters(statement),
                    |p: Seq<F>| evaluator.point_value(p, batching_scalars@),
                    tables_of(columns@),
                    pow2((prover.table.log_length - skips) as nat),
                    run.round.selectors@,
                );
            }
        },
        AirStage::Zerocheck { batching_scalars, point, .. } => {
            if let AirStage::Zerocheck { columns, run, .. } = next {
                let statement = prover.zerocheck_statement(batching_scalars@, point@);
                let inner = run.prover->0;
                message_has_length::<F, EF, EF>(
                    run.round.polynomial.coeffs@,
                    run.parameters(statement),
                    |p: Seq<EF>| later_evaluator.point_value(p, statement.batching_scalars@),
                    tables_of(inner.folded@),
                    pow2((inner.n_vars_left(statement) - 1) as nat),
                    run.round.selectors@,
                );
                lemma_mul_basics(prover.table.constraint_degree + 1);
                lemma_mul_basics(statement.constraints_degree + 1);
            }
        },
        _ => {},
    }
}

/// What a prover remembers: the zerocheck keeps the scalars that batch the constraints, takes the
/// challenges as its point, and collects its own challenges in order. The inner sumcheck takes the
/// first challenges for the columns as their scalars, keeps them, and collects its own challenges
/// in order.
pub proof fn challenges_are_remembered<
    F: Field,
    EF: ExtensionField<F>,
    A,
    E: HypercubeEvaluator<F, EF>,
    L: HypercubeEvaluator<EF, EF>,
>(
    prover: AirProver<'_, F, EF, A>,
    challenges: Seq<EF>,
    evaluator: E,
    later_evaluator: L,
    next: AirStage<F, EF>,
    action: AirAction<F, EF>,
)
    requires
        prover.well_formed(),
        challenges.len() == prover.n_awaited(),
        prover.is_step(challenges, evaluator, later_evaluator, next, action),
    ensures
        match (prover.stage, next) {
            (
                AirStage::ZerocheckPoint { batching_scalars: before },
                AirStage::Zerocheck { batching_scalars, point, run, .. },
            ) => batching_scalars@ == before@ && point@ == challenges && run.challenges().len()
                == 0,
            (
                AirStage::Zerocheck {
                    batching_scalars: before,
                    point: old_point,
                    run: old_run,
                    ..
                },
                AirStage::Zerocheck { batching_scalars, point, run, .. },
            ) => batching_scalars@ == before@ && point@ == old_point@ && run.challenges()
                == old_run.challenges().push(challenges[0]),
            (
                AirStage::Zerocheck { run: old_run, .. },
                AirStage::ColumnsBatching { zerocheck_challenges },
            ) => zerocheck_challenges@ == old_run.challenges().push(challenges[0]),
            (
                AirStage::ColumnsBatching { .. },
                AirStage::Inner { columns_batching_scalars, run, .. },
            ) => columns_batching_scalars@ == challenges.take(
                challenges.len() - 1 - prover.settings.univariate_skips,
            ) && run.challenges().len() == 0,
            (
                AirStage::Inner { columns_batching_scalars: before, pols: old_pols, run: old_run },
                AirStage::Inner { columns_batching_scalars, pols, run },
            ) => columns_batching_scalars@ == before@ && pols == old_pols && run.challenges()
                == old_run.challenges().push(challenges[0]),
            _ => true,
        },
{
}

/// How many challenges are asked for: none for the commitment, one to batch the constraints, one
/// more than the variables that are not skipped for the point, and, to batch the columns, the
/// least number of bits that tells the witness columns apart, one more, and one for each
/// skipped variable.
pub proof fn challenges_are_counted<
    F: Field,
    EF: ExtensionField<F>,
    A,
    E: HypercubeEvaluator<F, EF>,
    L: HypercubeEvaluator<EF, EF>,
>(
    prover: AirProver<'_, F, EF, A>,
    challenges: Seq<EF>,
    evaluator: E,
    later_evaluator: L,
    next: AirProver<'_, F, EF, A>,
    action: AirAction<F, EF>,
)
    requires
        prover.well_formed(),
        next.well_formed(),
        prover.same_task(next),
        prover.is_step(challenges, evaluator, later_evaluator, next.stage, action),
    ensures
        prover.stage is Commitment ==> next.stage is ConstraintsBatching && (
        action matches AirAction::Exchange(turn) && turn.messages@.len() == 0 && turn.n_challenges
            == 1 && turn.work_before == Some(Work::ConstraintsBatching) && turn.work_after is None),
        prover.stage is ConstraintsBatching ==> next.stage is ZerocheckPoint && (
        action matches AirAction::Exchange(turn) && turn.messages@.len() == 0 && turn.work_before
            == Some(Work::Zerocheck) && turn.n_challenges == prover.table.log_length
            - prover.settings.univariate_skips + 1 && turn.work_after is None),
        next.stage is ColumnsBatching ==> (action matches AirAction::Exchange(turn) && {
            let bits = (turn.n_challenges - 1 - prover.settings.univariate_skips) as nat;
            let n = prover.table.n_columns - prover.table.preprocessed_columns@.len();
            &&& turn.n_challenges >= 1 + prover.settings.univariate_skips
            &&& n <= pow2(bits)
            &&& bits > 0 ==> pow2((bits - 1) as nat) < n
        }),
        prover.n_awaited() == match prover.stage {
            AirStage::Commitment => 0,
            AirStage::ConstraintsBatching => 1,
            AirStage::ZerocheckPoint { .. } => prover.table.log_length
                - prover.settings.univariate_skips + 1,
            AirStage::Zerocheck { .. } => 1,
            AirStage::ColumnsBatching { .. } => prover.n_awaited(),
            AirStage::Inner { .. } => 1,
            AirStage::Finished => 0,
        },
{
    if next.stage is ColumnsBatching {
        log2_ceil_is_least(prover.n_witness());
    }
}

/// The committed polynomial has the variables of a column, and as many more as tell the witness
/// columns apart.
pub proof fn commitment_has_room_for_columns<F: Field, A>(table: AirTable<F, A>)
    requires
        table.preprocessed_columns@.len() <= table.n_columns,
    ensures
        table.n_committed_variables() >= table.log_length,
        ({
            let bits = (table.n_committed_variables() - table.log_length) as nat;
            let n = table.n_columns - table.preprocessed_columns@.len();
            &&& n <= pow2(bits)
            &&& bits > 0 ==> pow2((bits - 1) as nat) < n
        }),
{
    log2_ceil_is_least((table.n_columns - table.preprocessed_columns@.len()) as nat);
}

/// The messages of the inner sumcheck: the first turn sends one value for each point of the
/// skipped variables and a polynomial with three coefficients, each later one a polynomial with
/// three coefficients, all with work for degree two. There is one round for each variable of the
/// table, and the opening comes after the last.
pub proof fn inner_messages_have_length<
    F: Field,
    EF: ExtensionField<F>,
    A,
    E: HypercubeEvaluator<F, EF>,
    L: HypercubeEvaluator<EF, EF>,
>(
    prover: AirProver<'_, F, EF, A>,
    challenges: Seq<EF>,
    evaluator: E,
    later_evaluator: L,
    next: AirProver<'_, F, EF, A>,
    action: AirAction<F, EF>,
)
    requires
        prover.well_formed(),
        next.well_formed(),
        prover.same_task(next),
        challenges.len() == prover.n_awaited(),
        prover.stage is ColumnsBatching || prover.stage is Inner,
        prover.is_step(challenges, evaluator, later_evaluator, next.stage, action),
    ensures
        prover.stage is ColumnsBatching ==> next.stage is Inner && (
        action matches AirAction::Exchange(turn) && {
            &&& turn.messages@.len() == 2
            &&& turn.messages@[0]@.len() == pow2(prover.settings.univariate_skips as nat)
            &&& turn.messages@[1]@.len() == 3
            &&& turn.work_before is None
            &&& turn.n_challenges == 1
            &&& turn.work_after == Some(Work::SumcheckRound { degree: 2 })
        }),
        prover.stage is Inner && next.stage is Inner ==> (action matches AirAction::Exchange(turn)
            && {
            &&& turn.messages@.len() == 1
            &&& turn.messages@[0]@.len() == 3
            &&& turn.work_before is None
            &&& turn.n_challenges == 1
            &&& turn.work_after == Some(Work::SumcheckRound { degree: 2 })
        }),
        prover.stage matches AirStage::Inner { columns_batching_scalars, run, .. } ==> {
            &&& next.stage is Inner <==> run.challenges().len() + 1 < prover.table.log_length
            &&& next.stage !is Inner ==> next.stage is Finished && (action matches AirAction::Open(
                opening,
            ) && opening.point@ == columns_batching_scalars@ + run.challenges().push(challenges[0]))
        },
{
    lemma2_to64();
    let statement = prover.inner_statement();
    if let AirStage::Inner { pols, run, .. } = next.stage {
        message_has_length::<F, EF, EF>(
            run.round.polynomial.coeffs@,
            run.parameters(statement),
            inner_product::<EF>(),
            next.inner_tables(pols@, run),
            pow2(next.inner_left(run)),
            run.round.selectors@,
        );
        assert(run.parameters(statement).skips == 1);
        assert(run.parameters(statement).comp_degree == 2);
        lemma_mul_basics(2);
    }
}

/// The opening is true of the polynomial that holds the witness columns one after another, and
/// zeros behind them.
pub proof fn opening_is_true_of_columns<
    F: Field,
    EF: ExtensionField<F>,
    A,
    E: HypercubeEvaluator<F, EF>,
    L: HypercubeEvaluator<EF, EF>,
>(
    prover: AirProver<'_, F, EF, A>,
    challenges: Seq<EF>,
    evaluator: E,
    later_evaluator: L,
    next: AirStage<F, EF>,
    action: AirAction<F, EF>,
    committed: Seq<F>,
)
    requires
        prover.well_formed(),
        prover.stage is Inner,
        prover.is_step(challenges, evaluator, later_evaluator, next, action),
        next !is Inner,
        committed.len() == pow2(prover.table.n_committed_variables()),
        forall|k: int, i: int|
            #![trigger prover.witness@[k]@[i]]
            0 <= k < prover.witness@.len() && 0 <= i < pow2(prover.table.log_length as nat)
                ==> committed[k * pow2(prover.table.log_length as nat) + i]
                == prover.witness@[k]@[i],
        forall|j: int|
            prover.witness@.len() * pow2(prover.table.log_length as nat) <= j < committed.len()
                ==> #[trigger] committed[j] == F::spec_zero(),
    ensures
        action matches AirAction::Open(opening) && opening.value == multilinear_value::<F, EF>(
            committed,
            opening.point@,
        ),
{
    let size = pow2(prover.table.log_length as nat) as int;
    let packed = packed_values(
        prover.witness@,
        size,
        pow2(prover.table.n_committed_variables()),
    );
    lemma_pow2_pos(prover.table.log_length as nat);
    assert forall|j: int| 0 <= j < committed.len() implies committed[j] == packed[j] by {
        let k = j / size;
        let i = j % size;
        lemma_fundamental_div_mod(j, size);
        lemma_mul_is_commutative(size, k);
        lemma_div_pos_is_pos(j, size);
        lemma_mod_bound(j, size);
        if k < prover.witness@.len() {
            assert(prover.witness@[k]@[i] == committed[k * size + i]);
        } else {
            lemma_mul_inequality(prover.witness@.len() as int, k, size);
        }
    }
    assert(committed =~= packed);
}

/// The rounds fit together: the first polynomial of the zerocheck adds up to zero over its domain,
/// every later one adds up over zero and one to the value of the one before it at the challenge,
/// the first one of the inner sumcheck adds up to the value of the mixed views that are sent
/// with it, at the last of the challenges, and the last one has at the challenge the value of
/// the opening, times the weight of its point.
pub proof fn rounds_fit_together<
    F: Field,
    EF: ExtensionField<F>,
    A,
    E: HypercubeEvaluator<F, EF>,
    L: HypercubeEvaluator<EF, EF>,
>(
    prover: AirProver<'_, F, EF, A>,
    challenges: Seq<EF>,
    evaluator: E,
    later_evaluator: L,
    next: AirProver<'_, F, EF, A>,
    action: AirAction<F, EF>,
)
    requires
        prover.well_formed(),
        next.well_formed(),
        prover.same_task(next),
        challenges.len() == prover.n_awaited(),
        prover.is_step(challenges, evaluator, later_evaluator, next.stage, action),
    ensures
        prover.stage is ZerocheckPoint ==> (action matches AirAction::Exchange(turn) && sum_to(
            pow2(prover.settings.univariate_skips as nat),
            |i: int|
                poly_value::<EF, EF>(
                    turn.messages@[0]@,
                    <EF as Algebra<F>>::spec_embed(F::spec_from_nat(i as nat)),
                ),
        ) == EF::spec_zero()),
        (prover.stage matches AirStage::Zerocheck { run, .. } && next.stage is Zerocheck
            && prover.table.constraint_degree > 0) ==> (action matches AirAction::Exchange(turn)
            && poly_value::<EF, EF>(turn.messages@[0]@, EF::spec_zero()).spec_add(
            poly_value::<EF, EF>(turn.messages@[0]@, EF::spec_one()),
        ) == poly_value::<EF, EF>(prover.round_coeffs(), challenges[0])),
        prover.stage is ColumnsBatching ==> (action matches AirAction::Exchange(turn)
            && poly_value::<EF, EF>(turn.messages@[1]@, EF::spec_zero()).spec_add(
            poly_value::<EF, EF>(turn.messages@[1]@, EF::spec_one()),
        ) == multilinear_value::<EF, EF>(
            turn.messages@[0]@,
            challenges.skip(challenges.len() - prover.settings.univariate_skips),
        )),
        prover.stage is Inner && next.stage is Inner ==> (action matches AirAction::Exchange(turn)
            && poly_value::<EF, EF>(turn.messages@[0]@, EF::spec_zero()).spec_add(
            poly_value::<EF, EF>(turn.messages@[0]@, EF::spec_one()),
        ) == poly_value::<EF, EF>(prover.round_coeffs(), challenges[0])),
        (prover.stage matches AirStage::Inner { pols, run, .. } && next.stage !is Inner) ==> (
        action matches AirAction::Open(opening) && poly_value::<EF, EF>(
            prover.round_coeffs(),
            challenges[0],
        ) == multilinear_value::<EF, EF>(
            prover.stage->pols@[0]@,
            opening.point@.skip(opening.point@.len() - prover.table.log_length),
        ).spec_mul(opening.value)),
        next.stage is Zerocheck ==> (action matches AirAction::Exchange(turn)
            && turn.messages@[0]@ == next.round_coeffs()),
        next.stage is Inner ==> (action matches AirAction::Exchange(turn)
            && turn.messages@.last()@ == next.round_coeffs()),
{
    EF::results_are_canonical(EF::spec_zero(), EF::spec_zero());
    reduction(EF::spec_zero());
    lemma2_to64();
    F::from_nat_counts_ones(0);
    <EF as Algebra<F>>::embed_is_homomorphism(F::spec_zero(), F::spec_one());
    if let AirStage::Inner { columns_batching_scalars, run, .. } = prover.stage {
        let inner = run.challenges().push(challenges[0]);
        if next.stage !is Inner {
            assert((columns_batching_scalars@ + inner).skip(
                columns_batching_scalars@.len() as int,
            ) =~= inner);
        }
    }
    match next.stage {
        AirStage::Zerocheck { batching_scalars, point, run, .. } => {
            let statement = prover.zerocheck_statement(batching_scalars@, point@);
            let coeffs = run.round.polynomial.coeffs@;
            if prover.stage is ZerocheckPoint {
                sum_congruent(
                    pow2(prover.settings.univariate_skips as nat),
                    |i: int| poly_value::<EF, EF>(coeffs, node::<F, EF>(i)),
                    |i: int|
                        poly_value::<EF, EF>(
                            coeffs,
                            <EF as Algebra<F>>::spec_embed(F::spec_from_nat(i as nat)),
                        ),
                );
            } else if prover.table.constraint_degree > 0 {
                sum_over_two_points::<F, EF>(coeffs);
                poly_value_is_canonical::<EF, EF>(prover.round_coeffs(), challenges[0]);
                reduction(poly_value::<EF, EF>(prover.round_coeffs(), challenges[0]));
            }
        },
        AirStage::Inner { run, .. } => {
            let coeffs = run.round.polynomial.coeffs@;
            sum_over_two_points::<F, EF>(coeffs);
            if prover.stage is ColumnsBatching {
                let n = prover.n_column_scalars() as int;
                assert(challenges.skip(n + 1) =~= challenges.skip(
                    challenges.len() - prover.settings.univariate_skips,
                ));
                multilinear_value_is_canonical::<EF, EF>(
                    action->Exchange_0.messages@[0]@,
                    challenges.skip(n + 1),
                );
                reduction(run.sum);
            } else {
                poly_value_is_canonical::<EF, EF>(prover.round_coeffs(), challenges[0]);
                reduction(poly_value::<EF, EF>(prover.round_coeffs(), challenges[0]));
            }
        },
        _ => {},
    }
}

/// The mixed views that are sent before the inner sumcheck, combined by the weights of the first
/// challenge of the zerocheck, are the values that were sent after it: those of the upper row plus
/// `alpha` times those of the lower row, batched by the equality weights of the column scalars.
pub proof fn mixed_views_batch_sent_values<
    F: Field,
    EF: ExtensionField<F>,
    A,
    E: HypercubeEvaluator<F, EF>,
    L: HypercubeEvaluator<EF, EF>,
>(
    prover: AirProver<'_, F, EF, A>,
    last_challenge: Seq<EF>,
    evaluator: E,
    later_evaluator: L,
    middle: AirProver<'_, F, EF, A>,
    values_action: AirAction<F, EF>,
    challenges: Seq<EF>,
    next: AirProver<'_, F, EF, A>,
    action: AirAction<F, EF>,
) -> (selectors: Seq<DensePolynomial<F>>)
    requires
        prover.well_formed(),
        middle.well_formed(),
        prover.same_task(middle),
        prover.is_step(
            last_challenge,
            evaluator,
            later_evaluator,
            middle.stage,
            values_action,
        ),
        middle.stage is ColumnsBatching,
        challenges.len() == middle.n_awaited(),
        middle.is_step(challenges, evaluator, later_evaluator, next.stage, action),
    ensures
        are_round_selectors(selectors, prover.settings.univariate_skips),
        values_action matches AirAction::Exchange(values) && action matches AirAction::Exchange(
            turn,
        ) && middle.stage matches AirStage::ColumnsBatching { zerocheck_challenges } && {
            let skips = prover.settings.univariate_skips;
            let n = challenges.len() - 1 - skips;
            let weights = domain_weights::<F, EF>(skips, selectors, zerocheck_challenges@[0]);
            sum_to(
                pow2(skips as nat),
                |i: int| weights[i].spec_mul(turn.messages@[0]@[i]),
            ) == sum_to(
                values.messages@[0]@.len(),
                |k: int|
                    eq_weight(challenges.take(n), k).spec_mul(
                        values.messages@[0]@[k].spec_add(
                            values.messages@[1]@[k].spec_mul(challenges[n]),
                        ),
                    ),
            )
        },
{
    let skips = prover.settings.univariate_skips;
    let n = challenges.len() - 1 - skips;
    let (batching_scalars, point, columns, run) = match prover.stage {
        AirStage::Zerocheck { batching_scalars, point, columns, run } => (
            batching_scalars,
            point,
            columns,
            run,
        ),
        _ => arbitrary(),
    };
    let statement = prover.zerocheck_statement(batching_scalars@, point@);
    let all = run.challenges().push(last_challenge[0]);
    let (selectors, left) = choose|selectors: Seq<DensePolynomial<F>>, left: SumcheckProver<EF>|
        {
            &&& are_round_selectors(selectors, skips)
            &&& #[trigger] folded_from::<F, F, EF>(
                left,
                statement,
                tables_of(columns@),
                selectors,
            )
            &&& values_action matches AirAction::Exchange(turn) && turn.messages@.len() == 2
                && turn.messages@[0]@ == prover.values_up(selectors, all) && turn.messages@[1]@
                == prover.values_down(selectors, all)
        };
    assert(are_round_selectors(selectors, skips));
    let weights = domain_weights::<F, EF>(skips, selectors, all[0]);
    domain_weights_count::<F, EF>(skips, selectors, all[0]);
    if let (AirAction::Exchange(values), AirAction::Exchange(turn)) = (values_action, action) {
        let scalars = challenges.take(n);
        let alpha = challenges[n];
        let epsilons = challenges.skip(n + 1);
        let tail = all.skip(1);
        let batched = choose|batched: BatchedWitness<EF>|
            {
                &&& #[trigger] is_batched_witness::<F, EF>(
                    batched,
                    prover.witness@,
                    scalars,
                    alpha,
                    tail,
                    epsilons,
                )
                &&& turn.messages@[0]@ == batched.sub_evals@
            };
        assert(all.drop_first() =~= tail);
        sub_evals_batch_the_values_left::<F, EF>(
            batched,
            prover.witness@,
            scalars,
            alpha,
            tail,
            epsilons,
            weights,
        );
        sum_congruent(
            prover.witness@.len(),
            |k: int|
                eq_weight(scalars, k).spec_mul(
                    value_left::<F, EF>(rows_up(prover.witness@[k]@), weights, tail).spec_add(
                        value_left::<F, EF>(
                            rows_down(prover.witness@[k]@),
                            weights,
                            tail,
                        ).spec_mul(alpha),
                    ),
                ),
            |k: int|
                eq_weight(challenges.take(n), k).spec_mul(
                    values.messages@[0]@[k].spec_add(
                        values.messages@[1]@[k].spec_mul(challenges[n]),
                    ),
                ),
        );
        sum_congruent(
            pow2(skips as nat),
            |i: int| weights[i].spec_mul(batched.sub_evals@[i]),
            |i: int| weights[i].spec_mul(turn.messages@[0]@[i]),
        );
    }
    selectors
}

/// A sum over the integers zero and one.
proof fn sum_over_two_points<F: Field, EF: ExtensionField<F>>(coeffs: Seq<EF>)
    ensures
        sum_to(2, |i: int| poly_value::<EF, EF>(coeffs, node::<F, EF>(i))) == poly_value::<EF, EF>(
            coeffs,
            EF::spec_zero(),
        ).spec_add(poly_value::<EF, EF>(coeffs, EF::spec_one())),
{
    let f = |i: int| poly_value::<EF, EF>(coeffs, node::<F, EF>(i));
    reveal_with_fuel(sum_to, 3);
    F::from_nat_counts_ones(0);
    <EF as Algebra<F>>::embed_is_homomorphism(F::spec_zero(), F::spec_one());
    poly_value_is_canonical::<EF, EF>(coeffs, EF::spec_zero());
    EF::zero_is_neutral(poly_value::<EF, EF>(coeffs, EF::spec_zero()));
    assert(f(0) == poly_value::<EF, EF>(coeffs, EF::spec_zero()));
    assert(f(1) == poly_value::<EF, EF>(coeffs, EF::spec_one()));
}

} // verus!
