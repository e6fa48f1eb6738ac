//! How the values that the zerocheck leaves are batched.

use vstd::arithmetic::div_mod::*;
use vstd::arithmetic::mul::*;
use vstd::arithmetic::power2::*;
use vstd::prelude::*;

use crate::evals::{eq_weight, last_variables_fixed, multilinear_value, EvaluationsList};
use crate::field::{Algebra, ExtensionField, Field, Ring};
use crate::multilinear::{
    all_have_variables, combination, embedded, first_variables_folded, rows_down, rows_up,
};
use crate::multilinear_laws::weighted;
use crate::sums::{
    sum_congruent, sum_of_blocks, sum_of_multiples, sum_of_sums, sum_to, sums_exchange,
};
use crate::witness::{
    folding_commutes_with_mixing, is_batched_witness, leading_weights, mixed_views, BatchedWitness,
};

verus! {

/// The weight of each row where the first variables are folded by `scalars` and the last ones
/// are fixed to `tail`.
spec fn row_weights<EF: Ring>(scalars: Seq<EF>, tail: Seq<EF>) -> Seq<EF> {
    let block = pow2(tail.len()) as int;
    Seq::new(
        scalars.len() * pow2(tail.len()),
        |x: int| scalars[x / block].spec_mul(eq_weight(tail, x % block)),
    )
}

/// The weight of row `y` of block `i`.
proof fn row_weight<EF: Ring>(scalars: Seq<EF>, tail: Seq<EF>, i: int, y: int)
    requires
        0 <= i < scalars.len(),
        0 <= y < pow2(tail.len()),
    ensures
        0 <= i * pow2(tail.len()) + y < row_weights(scalars, tail).len(),
        row_weights(scalars, tail)[i * pow2(tail.len()) + y] == scalars[i].spec_mul(
            eq_weight(tail, y),
        ),
{
    let block = pow2(tail.len()) as int;
    lemma_mul_inequality(i + 1, scalars.len() as int, block);
    lemma_mul_is_distributive_add_other_way(block, i, 1);
    lemma_mul_basics(block);
    lemma_mul_nonnegative(i, block);
    lemma_fundamental_div_mod_converse(i * block + y, block, i, y);
}

/// Folding the first variables and evaluating in the last ones weights the rows.
proof fn folded_value_is_weighted<EF: Ring>(table: Seq<EF>, scalars: Seq<EF>, tail: Seq<EF>)
    requires
        table.len() == scalars.len() * pow2(tail.len()),
    ensures
        weighted(row_weights(scalars, tail), table) == multilinear_value::<EF, EF>(
            first_variables_folded::<EF, EF>(table, scalars, pow2(tail.len())),
            tail,
        ),
{
    let n = scalars.len();
    let m = pow2(tail.len());
    let weights = row_weights(scalars, tail);
    let folded = first_variables_folded::<EF, EF>(table, scalars, m);
    let term = |x: int| weights[x].spec_mul(table[x]);
    let cell = |i: int, y: int| eq_weight(tail, y).spec_mul(scalars[i].spec_mul(table[i * m + y]));
    let rows = |i: int| sum_to(m, |y: int| cell(i, y));
    let columns = |y: int| sum_to(n, |i: int| cell(i, y));
    let values = |y: int| eq_weight(tail, y).spec_mul(<EF as Algebra<EF>>::spec_embed(folded[y]));
    sum_of_blocks(n, m, term);
    let blocks = |i: int| sum_to(m, |y: int| term(i * m + y));
    assert forall|i: int| 0 <= i < n implies #[trigger] blocks(i) == rows(i) by {
        let a = |y: int| term(i * m + y);
        let b = |y: int| cell(i, y);
        assert forall|y: int| 0 <= y < m implies #[trigger] a(y) == b(y) by {
            row_weight(scalars, tail, i, y);
            let (s, e, v) = (scalars[i], eq_weight(tail, y), table[i * m + y]);
            EF::mul_is_commutative(s, e);
            EF::mul_is_associative(e, s, v);
        }
        sum_congruent(m, a, b);
    }
    sum_congruent(n, blocks, rows);
    sums_exchange(n, m, cell);
    assert forall|y: int| 0 <= y < m implies #[trigger] columns(y) == values(y) by {
        let f = |i: int| scalars[i].spec_mul(<EF as Algebra<EF>>::spec_embed(table[i * m + y]));
        let h = |i: int| cell(i, y);
        sum_of_multiples(n, eq_weight(tail, y), f, h);
    }
    sum_congruent(m, columns, values);
}

/// Fixing the last variables and combining what is left by the scalars weights the rows.
proof fn fixed_values_are_weighted<EF: Ring>(table: Seq<EF>, scalars: Seq<EF>, tail: Seq<EF>)
    requires
        table.len() == scalars.len() * pow2(tail.len()),
    ensures
        weighted(row_weights(scalars, tail), table) == sum_to(
            scalars.len(),
            |i: int|
                scalars[i].spec_mul(
                    last_variables_fixed::<EF, EF>(table, tail, scalars.len())[i],
                ),
        ),
{
    let n = scalars.len();
    let m = pow2(tail.len());
    let weights = row_weights(scalars, tail);
    let fixed = last_variables_fixed::<EF, EF>(table, tail, n);
    let term = |x: int| weights[x].spec_mul(table[x]);
    sum_of_blocks(n, m, term);
    let blocks = |i: int| sum_to(m, |y: int| term(i * m + y));
    let values = |i: int| scalars[i].spec_mul(fixed[i]);
    assert forall|i: int| 0 <= i < n implies #[trigger] blocks(i) == values(i) by {
        let start = i * m;
        lemma_mul_inequality(i + 1, n as int, m as int);
        lemma_mul_is_distributive_add_other_way(m as int, i, 1);
        lemma_mul_basics(m as int);
        lemma_mul_nonnegative(i, m as int);
        let block = table.subrange(i * (m as int), (i + 1) * (m as int));
        let f = |y: int| eq_weight(tail, y).spec_mul(<EF as Algebra<EF>>::spec_embed(block[y]));
        let a = |y: int| term(i * m + y);
        assert forall|y: int| 0 <= y < m implies #[trigger] a(y) == scalars[i].spec_mul(f(y)) by {
            row_weight(scalars, tail, i, y);
            EF::mul_is_associative(scalars[i], eq_weight(tail, y), table[i * m + y]);
        }
        sum_of_multiples(m, scalars[i], f, a);
    }
    sum_congruent(n, blocks, values);
}

/// The upper view of a column plus `alpha` times its lower view, in the extension.
spec fn mixed_row<F: Ring, EF: Algebra<F>>(column: Seq<F>, alpha: EF, x: int) -> EF {
    EF::spec_embed(rows_up(column)[x]).spec_add(
        EF::spec_embed(rows_down(column)[x]).spec_mul(alpha),
    )
}

/// The mixed views of the batched column are the batched mixed views.
proof fn mixing_commutes_with_batching<F: Field, EF: ExtensionField<F>>(
    witness: Seq<EvaluationsList<F>>,
    scalars: Seq<EF>,
    alpha: EF,
    n: nat,
    x: int,
)
    requires
        n >= 2,
        forall|k: int| 0 <= k < witness.len() ==> (#[trigger] witness[k])@.len() == n,
        0 <= x < n,
    ensures
        mixed_views(combination::<F, EF>(witness, scalars, n), alpha)[x] == sum_to(
            witness.len(),
            |k: int| scalars[k].spec_mul(mixed_row::<F, EF>(witness[k]@, alpha, x)),
        ),
{
    let batched = combination::<F, EF>(witness, scalars, n);
    let up = |k: int| scalars[k].spec_mul(EF::spec_embed(rows_up(witness[k]@)[x]));
    let down = |k: int| scalars[k].spec_mul(EF::spec_embed(rows_down(witness[k]@)[x]));
    let scaled = |k: int| alpha.spec_mul(down(k));
    let mixed = |k: int| scalars[k].spec_mul(mixed_row::<F, EF>(witness[k]@, alpha, x));
    let xu = if x == n - 1 {
        n - 2
    } else {
        x
    };
    let xd = if x == n - 1 {
        n - 1
    } else {
        x + 1
    };
    let at_up = |k: int| scalars[k].spec_mul(EF::spec_embed(witness[k]@[xu]));
    let at_down = |k: int| scalars[k].spec_mul(EF::spec_embed(witness[k]@[xd]));
    assert(rows_up(batched)[x] == batched[xu]);
    assert(rows_down(batched)[x] == batched[xd]);
    assert forall|k: int| 0 <= k < witness.len() implies #[trigger] at_up(k) == up(k) by {
        assert(witness[k]@.len() == n);
    }
    assert forall|k: int| 0 <= k < witness.len() implies #[trigger] at_down(k) == down(k) by {
        assert(witness[k]@.len() == n);
    }
    sum_congruent(witness.len(), at_up, up);
    sum_congruent(witness.len(), at_down, down);
    assert forall|k: int| 0 <= k < witness.len() implies #[trigger] mixed(k) == up(k).spec_add(
        scaled(k),
    ) by {
        let u = EF::spec_embed(rows_up(witness[k]@)[x]);
        let d = EF::spec_embed(rows_down(witness[k]@)[x]);
        EF::mul_distributes_over_add(scalars[k], u, d.spec_mul(alpha));
        EF::mul_is_associative(scalars[k], d, alpha);
        EF::mul_is_commutative(scalars[k].spec_mul(d), alpha);
    }
    sum_of_sums(witness.len(), up, scaled, mixed);
    sum_of_multiples(witness.len(), alpha, down, scaled);
    EF::mul_is_commutative(alpha, sum_to(witness.len(), down));
}

/// The value that the zerocheck leaves a column with: its first variables folded by the weights
/// of the first challenge, its other ones fixed to the later challenges.
pub open spec fn value_left<F: Ring, EF: Algebra<F>>(
    column: Seq<F>,
    scalars: Seq<EF>,
    tail: Seq<EF>,
) -> EF {
    multilinear_value::<EF, EF>(
        first_variables_folded::<F, EF>(column, scalars, pow2(tail.len())),
        tail,
    )
}

/// A value that is left weights the rows of the column.
proof fn value_left_is_weighted<F: Ring, EF: Algebra<F>>(
    column: Seq<F>,
    scalars: Seq<EF>,
    tail: Seq<EF>,
)
    requires
        column.len() == scalars.len() * pow2(tail.len()),
    ensures
        value_left::<F, EF>(column, scalars, tail) == weighted(
            row_weights(scalars, tail),
            embedded::<F, EF>(column),
        ),
{
    let m = pow2(tail.len());
    let wide = embedded::<F, EF>(column);
    let a = first_variables_folded::<F, EF>(column, scalars, m);
    let b = first_variables_folded::<EF, EF>(wide, scalars, m);
    assert forall|y: int| 0 <= y < m implies #[trigger] a[y] == b[y] by {
        let f = |i: int| scalars[i].spec_mul(EF::spec_embed(column[i * m + y]));
        let g = |i: int| scalars[i].spec_mul(<EF as Algebra<EF>>::spec_embed(wide[i * m + y]));
        assert forall|i: int| 0 <= i < scalars.len() implies #[trigger] f(i) == g(i) by {
            row_weight(scalars, tail, i, y);
        }
        sum_congruent(scalars.len(), f, g);
    }
    assert(a =~= b);
    folded_value_is_weighted(wide, scalars, tail);
}

/// The values of the mixed views that are sent before the inner sumcheck, combined by the
/// weights of the first challenge, are the values that the zerocheck leaves the columns with,
/// batched by the column scalars: those of the upper rows plus `alpha` times those of the
/// lower rows.
pub proof fn sub_evals_batch_the_values_left<F: Field, EF: ExtensionField<F>>(
    batched: BatchedWitness<EF>,
    witness: Seq<EvaluationsList<F>>,
    columns_batching_scalars: Seq<EF>,
    alpha: EF,
    tail: Seq<EF>,
    epsilons: Seq<EF>,
    scalars: Seq<EF>,
)
    requires
        witness.len() > 0,
        epsilons.len() + tail.len() > 0,
        all_have_variables(witness, epsilons.len() + tail.len()),
        is_batched_witness::<F, EF>(
            batched,
            witness,
            columns_batching_scalars,
            alpha,
            tail,
            epsilons,
        ),
        scalars.len() == pow2(epsilons.len()),
    ensures
        sum_to(
            scalars.len(),
            |i: int| scalars[i].spec_mul(batched.sub_evals@[i]),
        ) == sum_to(
            witness.len(),
            |k: int|
                eq_weight(columns_batching_scalars, k).spec_mul(
                    value_left::<F, EF>(rows_up(witness[k]@), scalars, tail).spec_add(
                        value_left::<F, EF>(rows_down(witness[k]@), scalars, tail).spec_mul(alpha),
                    ),
                ),
        ),
{
    let n = pow2(epsilons.len() + tail.len());
    let w = leading_weights(columns_batching_scalars, witness.len());
    let weights = row_weights(scalars, tail);
    let column = batched.batched_column@;
    let mixed = mixed_views(column, alpha);
    lemma_pow2_adds(epsilons.len(), tail.len());
    lemma_pow2_unfold(epsilons.len() + tail.len());
    lemma_pow2_pos((epsilons.len() + tail.len() - 1) as nat);
    assert(witness[0].well_formed());
    assert forall|k: int| 0 <= k < witness.len() implies (#[trigger] witness[k])@.len() == n by {
        assert(witness[k].well_formed());
    }
    folding_commutes_with_mixing(column, alpha, epsilons, tail);
    fixed_values_are_weighted(mixed, scalars, tail);
    sum_congruent(
        scalars.len(),
        |i: int| scalars[i].spec_mul(batched.sub_evals@[i]),
        |i: int| scalars[i].spec_mul(last_variables_fixed::<EF, EF>(mixed, tail, scalars.len())[i]),
    );
    let cell = |x: int, k: int|
        weights[x].spec_mul(w[k].spec_mul(mixed_row::<F, EF>(witness[k]@, alpha, x)));
    let rows = |x: int| sum_to(witness.len(), |k: int| cell(x, k));
    let term = |x: int| weights[x].spec_mul(mixed[x]);
    assert forall|x: int| 0 <= x < n implies #[trigger] term(x) == rows(x) by {
        mixing_commutes_with_batching::<F, EF>(witness, w, alpha, n, x);
        sum_of_multiples(
            witness.len(),
            weights[x],
            |k: int| w[k].spec_mul(mixed_row::<F, EF>(witness[k]@, alpha, x)),
            |k: int| cell(x, k),
        );
    }
    sum_congruent(n, term, rows);
    sums_exchange(n, witness.len(), cell);
    let columns = |k: int| sum_to(n, |x: int| cell(x, k));
    let values = |k: int|
        eq_weight(columns_batching_scalars, k).spec_mul(
            value_left::<F, EF>(rows_up(witness[k]@), scalars, tail).spec_add(
                value_left::<F, EF>(rows_down(witness[k]@), scalars, tail).spec_mul(alpha),
            ),
        );
    assert forall|k: int| 0 <= k < witness.len() implies #[trigger] columns(k) == values(k) by {
        column_is_batched::<F, EF>(witness[k]@, w[k], alpha, scalars, tail);
        sum_congruent(
            n,
            |x: int| cell(x, k),
            |x: int|
                weights[x].spec_mul(w[k].spec_mul(mixed_row::<F, EF>(witness[k]@, alpha, x))),
        );
    }
    sum_congruent(witness.len(), columns, values);
}

/// The part of one column in the batch.
proof fn column_is_batched<F: Field, EF: ExtensionField<F>>(
    column: Seq<F>,
    factor: EF,
    alpha: EF,
    scalars: Seq<EF>,
    tail: Seq<EF>,
)
    requires
        column.len() == scalars.len() * pow2(tail.len()),
        column.len() >= 2,
    ensures
        sum_to(
            column.len(),
            |x: int|
                row_weights(scalars, tail)[x].spec_mul(
                    factor.spec_mul(mixed_row::<F, EF>(column, alpha, x)),
                ),
        ) == factor.spec_mul(
            value_left::<F, EF>(rows_up(column), scalars, tail).spec_add(
                value_left::<F, EF>(rows_down(column), scalars, tail).spec_mul(alpha),
            ),
        ),
{
    let n = column.len();
    let weights = row_weights(scalars, tail);
    let up = embedded::<F, EF>(rows_up(column));
    let down = embedded::<F, EF>(rows_down(column));
    value_left_is_weighted::<F, EF>(rows_up(column), scalars, tail);
    value_left_is_weighted::<F, EF>(rows_down(column), scalars, tail);
    let f = |x: int| weights[x].spec_mul(up[x]);
    let d = |x: int| weights[x].spec_mul(down[x]);
    let g = |x: int| alpha.spec_mul(d(x));
    let h = |x: int| weights[x].spec_mul(mixed_row::<F, EF>(column, alpha, x));
    let whole = |x: int|
        weights[x].spec_mul(factor.spec_mul(mixed_row::<F, EF>(column, alpha, x)));
    assert forall|x: int| 0 <= x < n implies #[trigger] h(x) == f(x).spec_add(g(x)) by {
        EF::mul_distributes_over_add(weights[x], up[x], down[x].spec_mul(alpha));
        EF::mul_is_associative(weights[x], down[x], alpha);
        EF::mul_is_commutative(weights[x].spec_mul(down[x]), alpha);
    }
    sum_of_sums(n, f, g, h);
    sum_of_multiples(n, alpha, d, g);
    EF::mul_is_commutative(alpha, sum_to(n, d));
    assert forall|x: int| 0 <= x < n implies #[trigger] whole(x) == factor.spec_mul(h(x)) by {
        let m = mixed_row::<F, EF>(column, alpha, x);
        EF::mul_is_associative(weights[x], factor, m);
        EF::mul_is_commutative(weights[x], factor);
        EF::mul_is_associative(factor, weights[x], m);
    }
    sum_of_multiples(n, factor, h, whole);
}

} // verus!
