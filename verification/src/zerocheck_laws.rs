//! Why the zerocheck of a table that meets its constraints ends in a true claim.

use vstd::arithmetic::power2::*;
use vstd::prelude::*;

use crate::dense::DensePolynomial;
use crate::evals::eq_weight;
use crate::field::{reduced, reduction, Algebra, ExtensionField, Field};
use crate::hypercube_programs::{main_pair_flat, program_accepts, program_value};
use crate::kernel_ir::lowered::LoweredConstraintProgram;
use crate::multilinear::first_variables_folded;
use crate::program_degree::{constants_are_canonical, degree_is_at_most};
use crate::program_rounds::program_is_polynomial_in_round;
use crate::sumcheck::claim_laws::{
    folding_each_variable_evaluates, successively_folded, true_claim_survives_round,
    vanishing_everywhere_vanishes_on_domain, whole_claim_is_round_claim,
};
use crate::sumcheck::computation::with_factor;
use crate::sumcheck::hypercube::{hypercube_sum, point_at, tables_of, weight_at, HypercubeEvaluator};
use crate::sumcheck::prover::{SumcheckProver, SumcheckStatement};
use crate::sumcheck::round::{domain_weights, is_round_polynomial};
use crate::sumcheck::round_laws::integers_differ_by_units;
use crate::sumcheck::run::{folded_from, SumcheckRun};
use crate::sums::{sum_is_canonical, sum_of_zeros, sum_to};
use crate::witness_laws::value_left;

verus! {

/// The batched constraints, as a function of a point.
pub open spec fn constraints<F: Field, NF: ExtensionField<F>, EF: ExtensionField<NF>>(
    program: LoweredConstraintProgram<F>,
    scalars: Seq<EF>,
) -> spec_fn(Seq<NF>) -> EF {
    |point: Seq<NF>| program_value::<F, NF, EF>(program, point, scalars)
}

/// Whether an evaluator sums the constraints of a program.
pub open spec fn evaluates<
    F: Field,
    NF: ExtensionField<F>,
    EF: ExtensionField<NF>,
    E: HypercubeEvaluator<NF, EF>,
>(
    evaluator: E,
    program: LoweredConstraintProgram<F>,
    scalars: Seq<EF>,
) -> bool {
    forall|point: Seq<NF>| #[trigger]
        evaluator.point_value(point, scalars) == program_value::<F, NF, EF>(
            program,
            point,
            scalars,
        )
}

/// Whether a program has the degree that a sumcheck allows for, and reads so many columns.
pub open spec fn suits<F: Field, EF: ExtensionField<F>>(
    program: LoweredConstraintProgram<F>,
    statement: SumcheckStatement<'_, EF>,
    n_columns: nat,
) -> bool {
    &&& program_accepts(program, n_columns, statement.batching_scalars@.len())
    &&& degree_is_at_most(program, statement.constraints_degree as nat)
    &&& constants_are_canonical::<F, EF>(program.instructions@)
}

/// The weights that the equality factor gives to the hypercube that is left after so many
/// challenges.
pub open spec fn weights_left<EF: Field>(
    statement: SumcheckStatement<'_, EF>,
    n_challenges: nat,
) -> Option<Seq<EF>> {
    match statement.eq_factor {
        Some(eq_factor) => {
            let rest = eq_factor@.skip(n_challenges as int);
            Some(Seq::new(pow2(rest.len()), |i: int| eq_weight(rest, i)))
        },
        None => None,
    }
}

/// Whether what a prover claims after some challenges is true: the value that is claimed is
/// the sum of the batched constraints over the hypercube that is left, multiplied by the value
/// that the equality factor has by then.
pub open spec fn claim_is_true<F: Field, EF: ExtensionField<F>>(
    prover: SumcheckProver<EF>,
    statement: SumcheckStatement<'_, EF>,
    program: LoweredConstraintProgram<F>,
) -> bool {
    &&& prover.sum == with_factor(
        hypercube_sum(
            constraints::<F, EF, EF>(program, statement.batching_scalars@),
            tables_of(prover.folded@),
            pow2(prover.n_vars_left(statement)),
            weights_left(statement, prover.challenges@.len()),
        ),
        prover.missing_mul_factor,
    )
    &&& forall|k: int, i: int|
        0 <= k < prover.folded@.len() && 0 <= i < prover.folded@[k]@.len() ==> (
        #[trigger] prover.folded@[k]@[i]).canonical()
}

/// The copy of a reduced element is reduced.
proof fn embedded_is_canonical<F: Field, EF: ExtensionField<F>>(a: F)
    requires
        a.canonical(),
    ensures
        <EF as Algebra<F>>::spec_embed(a).canonical(),
{
    reduction(a);
    <EF as Algebra<F>>::embed_is_homomorphism(F::spec_zero(), a);
    reduction(<EF as Algebra<F>>::spec_embed(a));
}

/// Folded polynomials hold reduced elements.
proof fn folded_is_canonical<NF: Field, EF: ExtensionField<NF>>(
    evals: Seq<NF>,
    scalars: Seq<EF>,
    size: nat,
)
    ensures
        forall|i: int|
            0 <= i < size ==> (#[trigger] first_variables_folded::<NF, EF>(
                evals,
                scalars,
                size,
            )[i]).canonical(),
{
    assert forall|i: int| 0 <= i < size implies (#[trigger] first_variables_folded::<NF, EF>(
        evals,
        scalars,
        size,
    )[i]).canonical() by {
        sum_is_canonical(
            scalars.len(),
            |j: int| scalars[j].spec_mul(<EF as Algebra<NF>>::spec_embed(evals[j * size + i])),
        );
    }
}

/// Where every constraint is zero, so are the batched constraints, whatever the scalars.
pub proof fn met_constraints_batch_to_zero<F: Field, EF: ExtensionField<F>>(
    program: LoweredConstraintProgram<F>,
    point: Seq<F>,
    scalars: Seq<EF>,
)
    requires
        scalars.len() == program.outputs@.len(),
        forall|k: int|
            0 <= k < program.outputs@.len() ==> #[trigger] program.output_values::<F>(
                main_pair_flat(program.input_layout, point),
            )[k] == F::spec_zero(),
    ensures
        program_value::<F, F, EF>(program, point, scalars) == EF::spec_zero(),
{
    let values = program.output_values::<F>(main_pair_flat(program.input_layout, point));
    let term = |k: int| scalars[k].spec_mul(<EF as Algebra<F>>::spec_embed(values[k]));
    <EF as Algebra<F>>::embed_is_homomorphism(F::spec_zero(), F::spec_zero());
    assert forall|k: int| 0 <= k < scalars.len() implies #[trigger] term(k)
        == EF::spec_zero() by {
        EF::mul_by_zero(scalars[k]);
    }
    sum_of_zeros(scalars.len(), term);
}

/// The polynomial of the first round over columns that meet the constraints in every row leaves a
/// true claim.
pub proof fn first_polynomial_leaves_true_claim<F: Field, EF: ExtensionField<F>>(
    run: SumcheckRun<F, EF>,
    statement: SumcheckStatement<'_, EF>,
    program: LoweredConstraintProgram<F>,
    tables: Seq<Seq<F>>,
    challenge: EF,
    prover: SumcheckProver<EF>,
)
    requires
        suits::<F, EF>(program, statement, tables.len()),
        statement.is_zerofier,
        run.awaits(statement),
        run.prover is None,
        reduced(run.sum) == EF::spec_zero(),
        is_round_polynomial::<F, F, EF>(
            run.round.polynomial.coeffs@,
            run.parameters(statement),
            constraints::<F, F, EF>(program, statement.batching_scalars@),
            tables,
            pow2((statement.n_vars - statement.skips) as nat),
            run.round.selectors@,
        ),
        integers_differ_by_units::<F>(run.parameters(statement).n_values()),
        run.leaves::<F>(statement, tables, challenge, prover),
        forall|k: int|
            0 <= k < tables.len() ==> (#[trigger] tables[k]).len() == pow2(
                statement.n_vars as nat,
            ) && forall|i: int| 0 <= i < tables[k].len() ==> (#[trigger] tables[k][i]).canonical(),
        forall|x: int|
            0 <= x < pow2(statement.n_vars as nat) ==> program_value::<F, F, EF>(
                program,
                #[trigger] point_at(tables, x),
                statement.batching_scalars@,
            ) == EF::spec_zero(),
    ensures
        claim_is_true::<F, EF>(prover, statement, program),
{
    let parameters = run.parameters(statement);
    let selectors = run.round.selectors@;
    let scalars = statement.batching_scalars@;
    let left = (statement.n_vars - statement.skips) as nat;
    let size = pow2(left);
    let f = constraints::<F, F, EF>(program, scalars);
    let g = constraints::<F, EF, EF>(program, scalars);
    let folded = tables_of(prover.folded@);
    lemma_pow2_adds(statement.skips as nat, left);
    assert forall|x: int| 0 <= x < parameters.domain() * size implies f(
        #[trigger] point_at(tables, x),
    ) == EF::spec_zero() by {}
    vanishing_everywhere_vanishes_on_domain::<F, F, EF>(parameters, f, tables, size, selectors);
    assert forall|k: int| 0 <= k < tables.len() implies (#[trigger] tables[k]).len()
        == parameters.domain() * size && forall|i: int|
        0 <= i < tables[k].len() ==> <EF as Algebra<F>>::spec_embed(
            #[trigger] tables[k][i],
        ).canonical() by {
        assert forall|i: int| 0 <= i < tables[k].len() implies <EF as Algebra<F>>::spec_embed(
            #[trigger] tables[k][i],
        ).canonical() by {
            embedded_is_canonical::<F, EF>(tables[k][i]);
        }
    }
    assert forall|k: int| 0 <= k < tables.len() implies #[trigger] folded[k]
        == first_variables_folded::<F, EF>(
        tables[k],
        domain_weights::<F, EF>(parameters.skips, selectors, challenge),
        size,
    ) by {
        assert(prover.folded@[k]@ == folded[k]);
    }
    let along = program_is_polynomial_in_round::<F, F, EF>(
        parameters,
        program,
        scalars,
        tables,
        size,
        selectors,
        folded,
        challenge,
    );
    true_claim_survives_round::<F, F, EF>(
        run.round.polynomial.coeffs@,
        parameters,
        f,
        tables,
        size,
        selectors,
        g,
        folded,
        challenge,
        along,
    );
    assert(prover.challenges@.len() == 1);
    assert forall|k: int, i: int|
        0 <= k < prover.folded@.len() && 0 <= i < prover.folded@[k]@.len() implies (
    #[trigger] prover.folded@[k]@[i]).canonical() by {
        folded_is_canonical::<F, EF>(
            tables[k],
            domain_weights::<F, EF>(parameters.skips, selectors, challenge),
            size,
        );
        assert(folded[k] == prover.folded@[k]@);
    }
}

/// A zerocheck of columns that meet the constraints in every row starts with a true claim, and
/// the first challenge leaves a true claim.
pub proof fn first_challenge_leaves_true_claim<
    F: Field,
    EF: ExtensionField<F>,
    E: HypercubeEvaluator<F, EF>,
>(
    run: SumcheckRun<F, EF>,
    statement: SumcheckStatement<'_, EF>,
    evaluator: E,
    program: LoweredConstraintProgram<F>,
    tables: Seq<Seq<F>>,
    challenge: EF,
    prover: SumcheckProver<EF>,
)
    requires
        suits::<F, EF>(program, statement, tables.len()),
        evaluates::<F, F, EF, E>(evaluator, program, statement.batching_scalars@),
        statement.is_zerofier,
        run.awaits(statement),
        run.prover is None,
        reduced(run.sum) == EF::spec_zero(),
        is_round_polynomial::<F, F, EF>(
            run.round.polynomial.coeffs@,
            run.parameters(statement),
            |point: Seq<F>| evaluator.point_value(point, statement.batching_scalars@),
            tables,
            pow2((statement.n_vars - statement.skips) as nat),
            run.round.selectors@,
        ),
        integers_differ_by_units::<F>(run.parameters(statement).n_values()),
        run.leaves::<F>(statement, tables, challenge, prover),
        forall|k: int|
            0 <= k < tables.len() ==> (#[trigger] tables[k]).len() == pow2(
                statement.n_vars as nat,
            ) && forall|i: int| 0 <= i < tables[k].len() ==> (#[trigger] tables[k][i]).canonical(),
        forall|x: int|
            0 <= x < pow2(statement.n_vars as nat) ==> program_value::<F, F, EF>(
                program,
                #[trigger] point_at(tables, x),
                statement.batching_scalars@,
            ) == EF::spec_zero(),
    ensures
        claim_is_true::<F, EF>(prover, statement, program),
{
    let scalars = statement.batching_scalars@;
    assert((|point: Seq<F>| evaluator.point_value(point, scalars)) =~= constraints::<F, F, EF>(
        program,
        scalars,
    ));
    first_polynomial_leaves_true_claim::<F, EF>(run, statement, program, tables, challenge, prover);
}

/// Every later challenge leaves a true claim if the one before it did.
pub proof fn later_challenge_leaves_true_claim<
    F: Field,
    EF: ExtensionField<F>,
    L: HypercubeEvaluator<EF, EF>,
>(
    run: SumcheckRun<F, EF>,
    statement: SumcheckStatement<'_, EF>,
    evaluator: L,
    program: LoweredConstraintProgram<F>,
    tables: Seq<Seq<F>>,
    challenge: EF,
    prover: SumcheckProver<EF>,
)
    requires
        suits::<F, EF>(program, statement, tables.len()),
        evaluates::<F, EF, EF, L>(evaluator, program, statement.batching_scalars@),
        statement.constraints_degree > 0,
        run.sends_later_round(statement, evaluator),
        run.prover matches Some(before) && before.folded@.len() == tables.len()
            && claim_is_true::<F, EF>(before, statement, program),
        run.leaves::<F>(statement, tables, challenge, prover),
    ensures
        claim_is_true::<F, EF>(prover, statement, program),
{
    let before = run.prover->0;
    let parameters = run.parameters(statement);
    let selectors = run.round.selectors@;
    let scalars = statement.batching_scalars@;
    let left = (before.n_vars_left(statement) - 1) as nat;
    let size = pow2(left);
    let g = constraints::<F, EF, EF>(program, scalars);
    let wide = tables_of(before.folded@);
    let folded = tables_of(prover.folded@);
    let w = domain_weights::<F, EF>(1, selectors, challenge);
    lemma2_to64();
    lemma_pow2_unfold(before.n_vars_left(statement));
    assert((|point: Seq<EF>| evaluator.point_value(point, scalars)) =~= g);
    assert forall|k: int| 0 <= k < wide.len() implies (#[trigger] wide[k]).len() == 2 * size
        && forall|i: int| 0 <= i < wide[k].len() ==> (#[trigger] wide[k][i]).canonical() by {
        assert(before.folded@[k].well_formed());
        assert(wide[k] == before.folded@[k]@);
        assert forall|i: int| 0 <= i < wide[k].len() implies (
        #[trigger] wide[k][i]).canonical() by {
            assert(before.folded@[k]@[i].canonical());
        }
    }
    assert(reduced(parameters.sum) == before.sum) by {
        let sum = hypercube_sum(
            g,
            wide,
            pow2(before.n_vars_left(statement)),
            weights_left(statement, before.challenges@.len()),
        );
        let term = |x: int|
            with_factor(
                g(point_at(wide, x)),
                weight_at(weights_left(statement, before.challenges@.len()), x),
            );
        sum_is_canonical(pow2(before.n_vars_left(statement)), term);
        if let Some(m) = before.missing_mul_factor {
            EF::results_are_canonical(sum, m);
        }
        reduction(before.sum);
    }
    whole_claim_is_round_claim::<F, EF, EF>(parameters, g, wide, left, selectors);
    assert(seq![EF::spec_one().spec_sub(challenge), challenge] =~= w);
    assert forall|k: int| 0 <= k < wide.len() implies #[trigger] folded[k]
        == first_variables_folded::<EF, EF>(wide[k], w, size) by {
        assert(prover.folded@[k]@ == folded[k]);
    }
    let along = program_is_polynomial_in_round::<F, EF, EF>(
        parameters,
        program,
        scalars,
        wide,
        size,
        selectors,
        folded,
        challenge,
    );
    true_claim_survives_round::<F, EF, EF>(
        run.round.polynomial.coeffs@,
        parameters,
        g,
        wide,
        size,
        selectors,
        g,
        folded,
        challenge,
        along,
    );
    assert(prover.challenges@.len() == before.challenges@.len() + 1);
    assert forall|k: int, i: int|
        0 <= k < prover.folded@.len() && 0 <= i < prover.folded@[k]@.len() implies (
    #[trigger] prover.folded@[k]@[i]).canonical() by {
        folded_is_canonical::<EF, EF>(wide[k], w, size);
        assert(folded[k] == prover.folded@[k]@);
    }
}

/// Once no variable is left, a true claim says what the batched constraints are at the values
/// that the columns are left with: the claimed value is theirs, multiplied by the value that
/// the equality factor has by then.
pub proof fn true_claim_ends_in_value<F: Field, EF: ExtensionField<F>>(
    prover: SumcheckProver<EF>,
    statement: SumcheckStatement<'_, EF>,
    program: LoweredConstraintProgram<F>,
    tables: Seq<Seq<F>>,
    selectors: Seq<DensePolynomial<F>>,
)
    requires
        prover.follows(statement),
        prover.folded@.len() == tables.len(),
        claim_is_true::<F, EF>(prover, statement, program),
        folded_from::<F, F, EF>(prover, statement, tables, selectors),
        prover.challenges@.len() == statement.n_vars - statement.skips + 1,
    ensures
        prover.sum == with_factor(
            program_value::<F, EF, EF>(
                program,
                Seq::new(
                    tables.len(),
                    |k: int|
                        value_left::<F, EF>(
                            tables[k],
                            domain_weights::<F, EF>(
                                statement.skips,
                                selectors,
                                prover.challenges@[0],
                            ),
                            prover.challenges@.drop_first(),
                        ),
                ),
                statement.batching_scalars@,
            ),
            prover.missing_mul_factor,
        ),
{
    let scalars = domain_weights::<F, EF>(statement.skips, selectors, prover.challenges@[0]);
    let tail = prover.challenges@.drop_first();
    let size = pow2(tail.len());
    let g = constraints::<F, EF, EF>(program, statement.batching_scalars@);
    let point = point_at(tables_of(prover.folded@), 0);
    let values = Seq::new(
        tables.len(),
        |k: int| value_left::<F, EF>(tables[k], scalars, tail),
    );
    assert forall|k: int| 0 <= k < tables.len() implies #[trigger] point[k] == values[k] by {
        let folded = first_variables_folded::<F, EF>(tables[k], scalars, size);
        folded_is_canonical::<F, EF>(tables[k], scalars, size);
        folding_each_variable_evaluates(folded, tail);
        assert(prover.folded@[k]@ == successively_folded(folded, tail));
    }
    assert(point =~= values);
    lemma2_to64();
    let weights = weights_left(statement, prover.challenges@.len());
    let term = |x: int| with_factor(g(point_at(tables_of(prover.folded@), x)), weight_at(weights, x));
    assert(pow2(prover.n_vars_left(statement)) == 1);
    let value = g(point);
    assert(value.canonical()) by {
        program_value_is_canonical::<F, EF>(program, point, statement.batching_scalars@);
    }
    reveal_with_fuel(sum_to, 2);
    reduction(value);
    assert(term(0) == value) by {
        if let Some(eq_factor) = statement.eq_factor {
            let rest = eq_factor@.skip(prover.challenges@.len() as int);
            assert(rest =~= Seq::empty());
            assert(eq_weight(rest, 0) == EF::spec_one());
        }
    }
    assert(sum_to(1, term) == value);
}

/// Batched constraints are reduced.
proof fn program_value_is_canonical<F: Field, EF: ExtensionField<F>>(
    program: LoweredConstraintProgram<F>,
    point: Seq<EF>,
    scalars: Seq<EF>,
)
    ensures
        program_value::<F, EF, EF>(program, point, scalars).canonical(),
{
    let values = program.output_values::<EF>(main_pair_flat(program.input_layout, point));
    sum_is_canonical(
        scalars.len(),
        |k: int| scalars[k].spec_mul(<EF as Algebra<EF>>::spec_embed(values[k])),
    );
}

} // verus!
