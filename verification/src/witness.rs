//! The witness columns, batched into one.

use vstd::arithmetic::power2::*;
use vstd::prelude::*;
use vstd::slice::slice_subrange;

use crate::evals::{eq_weight, last_variables_fixed, multilinear_value, EvaluationsList};
use crate::field::{Algebra, ExtensionField, Field, Ring};
use crate::multilinear::{
    add_multilinears, all_have_variables, column_down, column_up, combination, down_weights,
    multilinears_linear_combination, packed_values, rows_down, rows_up, scaled_values, sum_values,
    up_weights,
};
use crate::multilinear_laws::{
    down_weights_give_value, fixing_last_variables_evaluates, fixing_variables_of_multiple,
    fixing_variables_of_sum, up_weights_give_value, value_of_combination, value_of_multiple,
    value_of_packed, value_of_sum, weighted,
};
use crate::sums::{sum_congruent, sum_of_multiples, sum_of_sums, sum_to};

verus! {

/// The batched column, its mixed and folded views, and their value at a point.
#[derive(Debug, Clone)]
pub struct BatchedWitness<EF> {
    pub batched_column: EvaluationsList<EF>,
    pub sub_evals: EvaluationsList<EF>,
    pub inner_sum: EF,
}

/// The weights of the first `n` hypercube indices at a point.
pub open spec fn leading_weights<EF: Ring>(point: Seq<EF>, n: nat) -> Seq<EF> {
    Seq::new(n, |k: int| eq_weight(point, k))
}

/// The upper view of a column plus `alpha` times its lower view.
pub open spec fn mixed_views<EF: Ring>(column: Seq<EF>, alpha: EF) -> Seq<EF> {
    sum_values(rows_up(column), scaled_values(rows_down(column), alpha))
}

/// Whether `r` is the batched witness: the columns weighted by the batching scalars, the two
/// shifted views of the batched column with their last variables fixed to the tail and mixed
/// by `alpha`, and the value of the mix at `epsilons`.
pub open spec fn is_batched_witness<F: Field, EF: ExtensionField<F>>(
    r: BatchedWitness<EF>,
    witness: Seq<EvaluationsList<F>>,
    columns_batching_scalars: Seq<EF>,
    alpha: EF,
    zerocheck_tail: Seq<EF>,
    epsilons: Seq<EF>,
) -> bool {
    &&& r.batched_column.well_formed()
    &&& r.batched_column.variables() == witness[0].variables()
    &&& r.batched_column@ == combination::<F, EF>(
        witness,
        leading_weights(columns_batching_scalars, witness.len()),
        pow2(witness[0].variables()),
    )
    &&& r.sub_evals.well_formed()
    &&& r.sub_evals.variables() == epsilons.len()
    &&& r.sub_evals@ == sum_values(
        last_variables_fixed::<EF, EF>(
            rows_up(r.batched_column@),
            zerocheck_tail,
            pow2(epsilons.len()),
        ),
        scaled_values(
            last_variables_fixed::<EF, EF>(
                rows_down(r.batched_column@),
                zerocheck_tail,
                pow2(epsilons.len()),
            ),
            alpha,
        ),
    )
    &&& r.inner_sum == multilinear_value::<EF, EF>(r.sub_evals@, epsilons)
}

/// Batches the witness columns by their weights at `columns_batching_scalars`, folds
/// the two shifted views of the batched column by `zerocheck_tail`, mixes them by
/// `alpha`, and evaluates the mix at `epsilons`.
#[must_use]
pub fn prepare_batched_witness<F: Field, EF: ExtensionField<F>>(
    witness: &[EvaluationsList<F>],
    columns_batching_scalars: &[EF],
    alpha: EF,
    zerocheck_tail: &[EF],
    epsilons: &[EF],
) -> (r: BatchedWitness<EF>)
    requires
        0 < witness@.len() <= pow2(columns_batching_scalars@.len()) <= usize::MAX,
        all_have_variables(witness@, witness@[0].variables()),
        witness@[0].variables() > 0,
        witness@[0].variables() == epsilons@.len() + zerocheck_tail@.len(),
    ensures
        is_batched_witness::<F, EF>(
            r,
            witness@,
            columns_batching_scalars@,
            alpha,
            zerocheck_tail@,
            epsilons@,
        ),
        r.sub_evals@ == last_variables_fixed::<EF, EF>(
            mixed_views(r.batched_column@, alpha),
            zerocheck_tail@,
            pow2(epsilons@.len()),
        ),
        r.inner_sum == multilinear_value::<EF, EF>(
            mixed_views(r.batched_column@, alpha),
            epsilons@ + zerocheck_tail@,
        ),
{
    let weights = EvaluationsList::eval_eq(columns_batching_scalars);
    let scalars = slice_subrange(weights.evals(), 0, witness.len());
    assert(scalars@ =~= leading_weights(columns_batching_scalars@, witness@.len()));
    let batched_column = multilinears_linear_combination(witness, scalars);
    let up_folded = column_up(&batched_column).fold::<EF>(zerocheck_tail);
    let down_folded = column_down(&batched_column).fold::<EF>(zerocheck_tail);
    let sub_evals = add_multilinears(&up_folded, &down_folded.scale(alpha));
    let inner_sum = sub_evals.evaluate::<EF>(epsilons);
    proof {
        folding_commutes_with_mixing(batched_column@, alpha, epsilons@, zerocheck_tail@);
    }
    BatchedWitness { batched_column, sub_evals, inner_sum }
}

/// Folding the two views before mixing them gives what mixing before folding gives,
/// and the value of the folded mix is the value of the full mix at the joined point.
pub proof fn folding_commutes_with_mixing<EF: Ring>(
    column: Seq<EF>,
    alpha: EF,
    epsilons: Seq<EF>,
    tail: Seq<EF>,
)
    requires
        column.len() == pow2(epsilons.len() + tail.len()),
    ensures
        sum_values(
            last_variables_fixed::<EF, EF>(rows_up(column), tail, pow2(epsilons.len())),
            scaled_values(
                last_variables_fixed::<EF, EF>(rows_down(column), tail, pow2(epsilons.len())),
                alpha,
            ),
        ) == last_variables_fixed::<EF, EF>(
            mixed_views(column, alpha),
            tail,
            pow2(epsilons.len()),
        ),
        multilinear_value::<EF, EF>(
            last_variables_fixed::<EF, EF>(
                mixed_views(column, alpha),
                tail,
                pow2(epsilons.len()),
            ),
            epsilons,
        ) == multilinear_value::<EF, EF>(mixed_views(column, alpha), epsilons + tail),
{
    let n_left = pow2(epsilons.len());
    lemma_pow2_adds(epsilons.len(), tail.len());
    lemma_pow2_pos(epsilons.len() + tail.len());
    let up = rows_up(column);
    let down = rows_down(column);
    fixing_variables_of_multiple(down, alpha, tail, n_left);
    fixing_variables_of_sum(up, scaled_values(down, alpha), tail, n_left);
    fixing_last_variables_evaluates::<EF, EF>(mixed_views(column, alpha), epsilons, tail);
}

/// The claim of the inner sumcheck is true: weighting the batched column by the up
/// weights of the joined point plus `alpha` times its down weights gives the value of
/// the mixed views there.
pub proof fn inner_claim_holds<EF: Ring>(column: Seq<EF>, alpha: EF, point: Seq<EF>)
    requires
        point.len() > 0,
        column.len() == pow2(point.len()),
    ensures
        weighted(
            sum_values(up_weights(point), scaled_values(down_weights(point), alpha)),
            column,
        ) == multilinear_value::<EF, EF>(mixed_views(column, alpha), point),
{
    let n = column.len();
    lemma_pow2_unfold(point.len());
    lemma_pow2_pos((point.len() - 1) as nat);
    let up = up_weights(point);
    let down = down_weights(point);
    let f = |y: int| up[y].spec_mul(column[y]);
    let d = |y: int| down[y].spec_mul(column[y]);
    let g = |y: int| alpha.spec_mul(d(y));
    let h = |y: int| sum_values(up, scaled_values(down, alpha))[y].spec_mul(column[y]);
    assert forall|y: int| 0 <= y < n implies #[trigger] h(y) == f(y).spec_add(g(y)) by {
        let x = column[y];
        let scaled = down[y].spec_mul(alpha);
        EF::mul_is_commutative(up[y].spec_add(scaled), x);
        EF::mul_distributes_over_add(x, up[y], scaled);
        EF::mul_is_commutative(x, up[y]);
        EF::mul_is_commutative(x, scaled);
        EF::mul_is_commutative(down[y], alpha);
        EF::mul_is_associative(alpha, down[y], x);
    }
    sum_of_sums(n, f, g, h);
    sum_of_multiples(n, alpha, d, g);
    up_weights_give_value(column, point);
    down_weights_give_value(column, point);
    value_of_multiple(rows_down(column), alpha, point);
    value_of_sum(rows_up(column), scaled_values(rows_down(column), alpha), point);
    EF::mul_is_commutative(alpha, sum_to(n, d));
}

/// Opening the committed polynomial, which holds the columns one after another, at the
/// batching scalars followed by a point gives the value of the batched column at the
/// point.
pub proof fn packed_opening_is_batched_value<F: Ring, EF: Algebra<F>>(
    witness: Seq<EvaluationsList<F>>,
    columns_batching_scalars: Seq<EF>,
    point: Seq<EF>,
)
    requires
        witness.len() <= pow2(columns_batching_scalars.len()),
        all_have_variables(witness, point.len()),
    ensures
        multilinear_value::<F, EF>(
            packed_values(
                witness,
                pow2(point.len()) as int,
                pow2(columns_batching_scalars.len() + point.len()),
            ),
            columns_batching_scalars + point,
        ) == multilinear_value::<EF, EF>(
            combination::<F, EF>(
                witness,
                leading_weights(columns_batching_scalars, witness.len()),
                pow2(point.len()),
            ),
            point,
        ),
{
    let scalars = leading_weights(columns_batching_scalars, witness.len());
    assert forall|k: int| 0 <= k < witness.len() implies (#[trigger] witness[k])@.len() == pow2(
        point.len(),
    ) by {
        assert(witness[k].well_formed());
    }
    value_of_packed::<F, EF>(witness, columns_batching_scalars, point);
    value_of_combination::<F, EF>(witness, scalars, point);
    sum_congruent(
        witness.len(),
        |k: int|
            eq_weight(columns_batching_scalars, k).spec_mul(
                multilinear_value::<F, EF>(witness[k]@, point),
            ),
        |k: int| scalars[k].spec_mul(multilinear_value::<F, EF>(witness[k]@, point)),
    );
}

} // verus!
