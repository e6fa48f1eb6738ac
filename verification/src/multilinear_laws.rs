//! Laws of multilinear polynomials.

use vstd::arithmetic::div_mod::*;
use vstd::arithmetic::mul::*;
use vstd::arithmetic::power2::*;
use vstd::prelude::*;

use crate::evals::{eq_weight, last_variables_fixed, multilinear_value, EvaluationsList};
use crate::field::{Algebra, Ring};
use crate::multilinear::{
    combination, down_weights, first_variables_folded, packed_values, rows_down, rows_up,
    scaled_values, sum_values, up_weights,
};
use crate::sums::{
    sum_congruent, sum_is_canonical, sum_of_blocks, sum_of_multiples, sum_of_sums, sum_of_zeros,
    sum_splits, sum_to, sums_exchange,
};

verus! {

/// A weight is a reduced element.
pub proof fn eq_weight_is_canonical<F: Ring>(point: Seq<F>, i: int)
    ensures
        eq_weight(point, i).canonical(),
{
    F::results_are_canonical(F::spec_one(), F::spec_one());
    if point.len() > 0 {
        F::results_are_canonical(
            eq_weight(point.drop_last(), i / 2),
            if i % 2 == 0 {
                F::spec_one().spec_sub(point.last())
            } else {
                point.last()
            },
        );
    }
}

/// The weight at a point put together from two is the product of the weights at the
/// two, the first taken at the leading bits and the second at the trailing ones.
pub proof fn eq_weight_of_concatenation<F: Ring>(p: Seq<F>, q: Seq<F>, a: int, b: int)
    requires
        0 <= a,
        0 <= b < pow2(q.len()),
    ensures
        eq_weight(p + q, a * pow2(q.len()) + b) == eq_weight(p, a).spec_mul(eq_weight(q, b)),
    decreases q.len(),
{
    if q.len() == 0 {
        lemma2_to64();
        lemma_mul_basics(a);
        assert(p + q =~= p);
        eq_weight_is_canonical(p, a);
        F::one_is_neutral(eq_weight(p, a));
        F::mul_is_commutative(eq_weight(p, a), F::spec_one());
    } else {
        let shorter = q.drop_last();
        let half = pow2(shorter.len()) as int;
        let i = a * pow2(q.len()) + b;
        lemma_pow2_unfold(q.len());
        assert(i == 2 * (a * half) + b) by (nonlinear_arith)
            requires
                i == a * (2 * half) + b,
        ;
        assert(i / 2 == a * half + b / 2);
        assert(i % 2 == b % 2);
        assert((p + q).drop_last() =~= p + shorter);
        eq_weight_of_concatenation(p, shorter, a, b / 2);
        let factor = if b % 2 == 0 {
            F::spec_one().spec_sub(q.last())
        } else {
            q.last()
        };
        F::mul_is_associative(eq_weight(p, a), eq_weight(shorter, b / 2), factor);
    }
}

/// The value of a polynomial is a reduced element.
pub proof fn multilinear_value_is_canonical<F: Ring, EF: Algebra<F>>(
    evals: Seq<F>,
    point: Seq<EF>,
)
    ensures
        multilinear_value::<F, EF>(evals, point).canonical(),
{
    sum_is_canonical(
        pow2(point.len()),
        |i: int| eq_weight(point, i).spec_mul(EF::spec_embed(evals[i])),
    );
}

/// Fixing the last variables and evaluating in the first ones gives the value at the
/// whole point.
pub proof fn fixing_last_variables_evaluates<F: Ring, EF: Algebra<F>>(
    evals: Seq<F>,
    p: Seq<EF>,
    q: Seq<EF>,
)
    requires
        evals.len() == pow2(p.len() + q.len()),
    ensures
        multilinear_value::<EF, EF>(
            last_variables_fixed::<F, EF>(evals, q, pow2(p.len())),
            p,
        ) == multilinear_value::<F, EF>(evals, p + q),
{
    let blocks = pow2(p.len());
    let block = pow2(q.len());
    let fixed = last_variables_fixed::<F, EF>(evals, q, blocks);
    let term = |i: int| eq_weight(p + q, i).spec_mul(EF::spec_embed(evals[i]));
    let outer = |a: int| eq_weight(p, a).spec_mul(<EF as Algebra<EF>>::spec_embed(fixed[a]));
    lemma_pow2_adds(p.len(), q.len());
    assert((p + q).len() == p.len() + q.len());
    sum_of_blocks(blocks, block, term);
    let grouped = |a: int| sum_to(block, |b: int| term(a * block + b));
    assert forall|a: int| 0 <= a < blocks implies #[trigger] grouped(a) == outer(a) by {
        let part = evals.subrange(a * block, (a + 1) * block);
        lemma_mul_is_distributive_add_other_way(block as int, a, 1);
        lemma_mul_basics(block as int);
        lemma_mul_nonnegative(a, block as int);
        lemma_mul_inequality(a + 1, blocks as int, block as int);
        let inner = |b: int| eq_weight(q, b).spec_mul(EF::spec_embed(part[b]));
        let row = |b: int| term(a * block + b);
        assert forall|b: int| 0 <= b < block implies #[trigger] row(b) == eq_weight(p, a).spec_mul(
            inner(b),
        ) by {
            eq_weight_of_concatenation(p, q, a, b);
            assert(part[b] == evals[a * block + b]);
            EF::mul_is_associative(eq_weight(p, a), eq_weight(q, b), EF::spec_embed(part[b]));
        }
        sum_of_multiples(block, eq_weight(p, a), inner, row);
        sum_congruent(block, row, |b: int| term(a * block + b));
        assert(fixed[a] == sum_to(block, inner));
    }
    sum_congruent(blocks, grouped, outer);
}

/// Summing out the first variables by their weights and evaluating in the last ones
/// gives the value at the whole point.
pub proof fn folding_first_variables_evaluates<F: Ring, EF: Algebra<F>>(
    evals: Seq<F>,
    scalars: Seq<EF>,
    p: Seq<EF>,
    q: Seq<EF>,
)
    requires
        evals.len() == pow2(p.len() + q.len()),
        scalars.len() == pow2(p.len()),
        forall|j: int, x: EF|
            0 <= j < scalars.len() ==> #[trigger] scalars[j].spec_mul(x) == eq_weight(
                p,
                j,
            ).spec_mul(x),
    ensures
        multilinear_value::<EF, EF>(
            first_variables_folded::<F, EF>(evals, scalars, pow2(q.len())),
            q,
        ) == multilinear_value::<F, EF>(evals, p + q),
{
    let blocks = pow2(p.len());
    let block = pow2(q.len());
    let folded = first_variables_folded::<F, EF>(evals, scalars, block);
    let term = |i: int| eq_weight(p + q, i).spec_mul(EF::spec_embed(evals[i]));
    let outer = |b: int| eq_weight(q, b).spec_mul(<EF as Algebra<EF>>::spec_embed(folded[b]));
    let cell = |a: int, b: int| term(a * block + b);
    lemma_pow2_adds(p.len(), q.len());
    assert((p + q).len() == p.len() + q.len());
    sum_of_blocks(blocks, block, term);
    let rows = |a: int| sum_to(block, |b: int| term(a * block + b));
    let rows_by_cell = |a: int| sum_to(block, |b: int| cell(a, b));
    assert forall|a: int| 0 <= a < blocks implies #[trigger] rows(a) == rows_by_cell(a) by {
        sum_congruent(block, |b: int| term(a * block + b), |b: int| cell(a, b));
    }
    sum_congruent(blocks, rows, rows_by_cell);
    sums_exchange(blocks, block, cell);
    let columns = |b: int| sum_to(blocks, |a: int| cell(a, b));
    assert forall|b: int| 0 <= b < block implies #[trigger] columns(b) == outer(b) by {
        let inner = |j: int| scalars[j].spec_mul(EF::spec_embed(evals[j * block + b]));
        let column = |a: int| cell(a, b);
        assert forall|a: int| 0 <= a < blocks implies #[trigger] column(a) == eq_weight(
            q,
            b,
        ).spec_mul(inner(a)) by {
            let value = EF::spec_embed(evals[a * block + b]);
            eq_weight_of_concatenation(p, q, a, b);
            EF::mul_is_commutative(eq_weight(p, a), eq_weight(q, b));
            EF::mul_is_associative(eq_weight(q, b), eq_weight(p, a), value);
            assert(scalars[a].spec_mul(value) == eq_weight(p, a).spec_mul(value));
        }
        sum_of_multiples(blocks, eq_weight(q, b), inner, column);
        sum_congruent(blocks, column, |a: int| cell(a, b));
        assert(folded[b] == sum_to(blocks, inner));
    }
    sum_congruent(block, columns, outer);
}

/// Folding by `[1 - c, c]` fixes the first variable to `c`.
pub proof fn folding_by_challenge_fixes_first_variable<F: Ring, EF: Algebra<F>>(
    evals: Seq<F>,
    c: EF,
    q: Seq<EF>,
)
    requires
        evals.len() == pow2(1 + q.len()),
    ensures
        multilinear_value::<EF, EF>(
            first_variables_folded::<F, EF>(
                evals,
                seq![EF::spec_one().spec_sub(c), c],
                pow2(q.len()),
            ),
            q,
        ) == multilinear_value::<F, EF>(evals, seq![c] + q),
{
    let scalars = seq![EF::spec_one().spec_sub(c), c];
    let p = seq![c];
    lemma2_to64();
    assert forall|j: int, x: EF| 0 <= j < scalars.len() implies #[trigger] scalars[j].spec_mul(x)
        == eq_weight(p, j).spec_mul(x) by {
        assert(p.drop_last() =~= Seq::empty());
        reveal_with_fuel(eq_weight, 2);
        assert(eq_weight(p, j) == EF::spec_one().spec_mul(scalars[j]));
        EF::mul_is_associative(EF::spec_one(), scalars[j], x);
        EF::results_are_canonical(scalars[j], x);
        EF::one_is_neutral(scalars[j].spec_mul(x));
    }
    folding_first_variables_evaluates::<F, EF>(evals, scalars, p, q);
}

/// A polynomial without variables has its one value everywhere.
pub proof fn constant_value<F: Ring>(evals: Seq<F>)
    requires
        evals.len() == 1,
        evals[0].canonical(),
    ensures
        multilinear_value::<F, F>(evals, Seq::empty()) == evals[0],
{
    let term = |i: int| eq_weight(Seq::<F>::empty(), i).spec_mul(F::spec_embed(evals[i]));
    lemma2_to64();
    reveal_with_fuel(sum_to, 2);
    F::one_is_neutral(evals[0]);
    F::zero_is_neutral(evals[0]);
    assert(term(0) == evals[0]);
}

/// The value of a sum is the sum of the values.
pub proof fn value_of_sum<F: Ring>(a: Seq<F>, b: Seq<F>, point: Seq<F>)
    requires
        a.len() == pow2(point.len()),
        b.len() == pow2(point.len()),
    ensures
        multilinear_value::<F, F>(sum_values(a, b), point) == multilinear_value::<F, F>(
            a,
            point,
        ).spec_add(multilinear_value::<F, F>(b, point)),
{
    let n = pow2(point.len());
    let f = |i: int| eq_weight(point, i).spec_mul(F::spec_embed(a[i]));
    let g = |i: int| eq_weight(point, i).spec_mul(F::spec_embed(b[i]));
    let h = |i: int| eq_weight(point, i).spec_mul(F::spec_embed(sum_values(a, b)[i]));
    assert forall|i: int| 0 <= i < n implies #[trigger] h(i) == f(i).spec_add(g(i)) by {
        F::mul_distributes_over_add(eq_weight(point, i), a[i], b[i]);
    }
    sum_of_sums(n, f, g, h);
}

/// The value of a multiple is the multiple of the value.
pub proof fn value_of_multiple<F: Ring>(a: Seq<F>, scalar: F, point: Seq<F>)
    requires
        a.len() == pow2(point.len()),
    ensures
        multilinear_value::<F, F>(scaled_values(a, scalar), point) == multilinear_value::<F, F>(
            a,
            point,
        ).spec_mul(scalar),
{
    let n = pow2(point.len());
    let f = |i: int| eq_weight(point, i).spec_mul(F::spec_embed(a[i]));
    let h = |i: int| eq_weight(point, i).spec_mul(F::spec_embed(scaled_values(a, scalar)[i]));
    assert forall|i: int| 0 <= i < n implies #[trigger] h(i) == scalar.spec_mul(f(i)) by {
        F::mul_is_associative(eq_weight(point, i), a[i], scalar);
        F::mul_is_commutative(f(i), scalar);
    }
    sum_of_multiples(n, scalar, f, h);
    F::mul_is_commutative(scalar, sum_to(n, f));
}

/// Fixing variables of a sum gives the sum of the polynomials with those variables
/// fixed.
pub proof fn fixing_variables_of_sum<F: Ring>(
    a: Seq<F>,
    b: Seq<F>,
    point: Seq<F>,
    n_left: nat,
)
    requires
        a.len() == n_left * pow2(point.len()),
        b.len() == a.len(),
    ensures
        last_variables_fixed::<F, F>(sum_values(a, b), point, n_left) == sum_values(
            last_variables_fixed::<F, F>(a, point, n_left),
            last_variables_fixed::<F, F>(b, point, n_left),
        ),
{
    let block = pow2(point.len()) as int;
    let left = last_variables_fixed::<F, F>(sum_values(a, b), point, n_left);
    let right = sum_values(
        last_variables_fixed::<F, F>(a, point, n_left),
        last_variables_fixed::<F, F>(b, point, n_left),
    );
    assert forall|i: int| 0 <= i < n_left implies #[trigger] left[i] == right[i] by {
        block_is_inside(i, n_left as int, block);
        let x = a.subrange(i * block, (i + 1) * block);
        let y = b.subrange(i * block, (i + 1) * block);
        assert(sum_values(a, b).subrange(i * block, (i + 1) * block) =~= sum_values(x, y));
        value_of_sum(x, y, point);
    }
    assert(left =~= right);
}

/// Fixing variables of a multiple gives the multiple of the polynomial with those
/// variables fixed.
pub proof fn fixing_variables_of_multiple<F: Ring>(
    a: Seq<F>,
    scalar: F,
    point: Seq<F>,
    n_left: nat,
)
    requires
        a.len() == n_left * pow2(point.len()),
    ensures
        last_variables_fixed::<F, F>(scaled_values(a, scalar), point, n_left) == scaled_values(
            last_variables_fixed::<F, F>(a, point, n_left),
            scalar,
        ),
{
    let block = pow2(point.len()) as int;
    let left = last_variables_fixed::<F, F>(scaled_values(a, scalar), point, n_left);
    let right = scaled_values(last_variables_fixed::<F, F>(a, point, n_left), scalar);
    assert forall|i: int| 0 <= i < n_left implies #[trigger] left[i] == right[i] by {
        block_is_inside(i, n_left as int, block);
        let x = a.subrange(i * block, (i + 1) * block);
        assert(scaled_values(a, scalar).subrange(i * block, (i + 1) * block) =~= scaled_values(
            x,
            scalar,
        ));
        value_of_multiple(x, scalar, point);
    }
    assert(left =~= right);
}

proof fn block_is_inside(i: int, n: int, block: int)
    requires
        0 <= i < n,
        0 <= block,
    ensures
        0 <= i * block <= (i + 1) * block <= n * block,
        (i + 1) * block - i * block == block,
{
    lemma_mul_nonnegative(i, block);
    lemma_mul_is_distributive_add_other_way(block, i, 1);
    lemma_mul_basics(block);
    lemma_mul_inequality(i + 1, n, block);
}

/// The sum of the values, each multiplied by its weight.
pub open spec fn weighted<F: Ring>(weights: Seq<F>, values: Seq<F>) -> F {
    sum_to(values.len(), |y: int| weights[y].spec_mul(values[y]))
}

/// Weighting the rows of a column by the up weights of a point gives the value, at the
/// point, of the upper view of the column.
pub proof fn up_weights_give_value<F: Ring>(column: Seq<F>, point: Seq<F>)
    requires
        point.len() > 0,
        column.len() == pow2(point.len()),
    ensures
        weighted(up_weights(point), column) == multilinear_value::<F, F>(rows_up(column), point),
{
    let n = column.len();
    lemma_pow2_unfold(point.len());
    lemma_pow2_pos((point.len() - 1) as nat);
    let m = (n - 2) as nat;
    let w = |i: int| eq_weight(point, i);
    let f = |y: int| up_weights(point)[y].spec_mul(column[y]);
    let g = |i: int| eq_weight(point, i).spec_mul(F::spec_embed(rows_up(column)[i]));
    assert forall|i: int| 0 <= i < m implies #[trigger] f(i) == g(i) by {}
    sum_congruent(m, f, g);
    let x = column[n - 2];
    assert(f(n - 2) == w(n - 2).spec_add(w(n - 1)).spec_mul(x));
    assert(g(n - 2) == w(n - 2).spec_mul(x));
    assert(g(n - 1) == w(n - 1).spec_mul(x));
    F::mul_is_commutative(w(n - 2).spec_add(w(n - 1)), x);
    F::mul_distributes_over_add(x, w(n - 2), w(n - 1));
    F::mul_is_commutative(x, w(n - 2));
    F::mul_is_commutative(x, w(n - 1));
    assert(f(n - 1) == F::spec_zero().spec_mul(column[n - 1]));
    F::mul_is_commutative(F::spec_zero(), column[n - 1]);
    F::mul_by_zero(column[n - 1]);
    let common = sum_to(m, f);
    assert(sum_to((n - 1) as nat, f) == common.spec_add(f(n - 2)));
    assert(sum_to(n, f) == sum_to((n - 1) as nat, f).spec_add(F::spec_zero()));
    sum_is_canonical((n - 1) as nat, f);
    F::zero_is_neutral(sum_to((n - 1) as nat, f));
    F::add_is_commutative(sum_to((n - 1) as nat, f), F::spec_zero());
    assert(sum_to((n - 1) as nat, g) == common.spec_add(g(n - 2)));
    assert(sum_to(n, g) == common.spec_add(g(n - 2)).spec_add(g(n - 1)));
    F::add_is_associative(common, g(n - 2), g(n - 1));
}

/// Weighting the rows of a column by the down weights of a point gives the value, at
/// the point, of the lower view of the column.
pub proof fn down_weights_give_value<F: Ring>(column: Seq<F>, point: Seq<F>)
    requires
        point.len() > 0,
        column.len() == pow2(point.len()),
    ensures
        weighted(down_weights(point), column) == multilinear_value::<F, F>(
            rows_down(column),
            point,
        ),
{
    let n = column.len();
    lemma_pow2_unfold(point.len());
    lemma_pow2_pos((point.len() - 1) as nat);
    let m = (n - 2) as nat;
    let w = |i: int| eq_weight(point, i);
    let f = |y: int| down_weights(point)[y].spec_mul(column[y]);
    let g = |i: int| eq_weight(point, i).spec_mul(F::spec_embed(rows_down(column)[i]));
    let shifted = |y: int| f(1 + y);
    sum_splits(1, (n - 1) as nat, f);
    sum_congruent((n - 1) as nat, shifted, |i: int| f(1nat + i));
    reveal_with_fuel(sum_to, 2);
    assert(f(0) == F::spec_zero().spec_mul(column[0]));
    F::mul_is_commutative(F::spec_zero(), column[0]);
    F::mul_by_zero(column[0]);
    F::results_are_canonical(F::spec_zero(), F::spec_zero());
    F::zero_is_neutral(F::spec_zero());
    sum_is_canonical((n - 1) as nat, shifted);
    F::zero_is_neutral(sum_to((n - 1) as nat, shifted));
    assert(sum_to(n, f) == sum_to((n - 1) as nat, shifted));
    assert forall|i: int| 0 <= i < m implies #[trigger] shifted(i) == g(i) by {}
    sum_congruent(m, shifted, g);
    let x = column[n - 1];
    let common = sum_to(m, g);
    assert(shifted(n - 2) == w(n - 2).spec_add(w(n - 1)).spec_mul(x));
    assert(g(n - 2) == w(n - 2).spec_mul(x));
    assert(g(n - 1) == w(n - 1).spec_mul(x));
    F::mul_is_commutative(w(n - 2).spec_add(w(n - 1)), x);
    F::mul_distributes_over_add(x, w(n - 2), w(n - 1));
    F::mul_is_commutative(x, w(n - 2));
    F::mul_is_commutative(x, w(n - 1));
    assert(sum_to((n - 1) as nat, shifted) == common.spec_add(shifted(n - 2)));
    assert(sum_to((n - 1) as nat, g) == common.spec_add(g(n - 2)));
    assert(sum_to(n, g) == common.spec_add(g(n - 2)).spec_add(g(n - 1)));
    F::add_is_associative(common, g(n - 2), g(n - 1));
}

/// The value of a combination of polynomials is the combination of their values.
pub proof fn value_of_combination<F: Ring, EF: Algebra<F>>(
    pols: Seq<EvaluationsList<F>>,
    scalars: Seq<EF>,
    point: Seq<EF>,
)
    ensures
        multilinear_value::<EF, EF>(
            combination::<F, EF>(pols, scalars, pow2(point.len())),
            point,
        ) == sum_to(
            pols.len(),
            |k: int| scalars[k].spec_mul(multilinear_value::<F, EF>(pols[k]@, point)),
        ),
{
    let n = pow2(point.len());
    let combined = combination::<F, EF>(pols, scalars, n);
    let values = |k: int| scalars[k].spec_mul(multilinear_value::<F, EF>(pols[k]@, point));
    let cell = |x: int, k: int|
        eq_weight(point, x).spec_mul(scalars[k].spec_mul(EF::spec_embed(pols[k]@[x])));
    let outer = |x: int| eq_weight(point, x).spec_mul(<EF as Algebra<EF>>::spec_embed(combined[x]));
    let rows = |x: int| sum_to(pols.len(), |k: int| cell(x, k));
    assert forall|x: int| 0 <= x < n implies #[trigger] outer(x) == rows(x) by {
        let inner = |k: int| scalars[k].spec_mul(EF::spec_embed(pols[k]@[x]));
        let row = |k: int| cell(x, k);
        assert forall|k: int| 0 <= k < pols.len() implies #[trigger] row(k) == eq_weight(
            point,
            x,
        ).spec_mul(inner(k)) by {}
        sum_of_multiples(pols.len(), eq_weight(point, x), inner, row);
        assert(combined[x] == sum_to(pols.len(), inner));
        sum_congruent(pols.len(), row, |k: int| cell(x, k));
    }
    sum_congruent(n, outer, rows);
    sums_exchange(n, pols.len(), cell);
    let columns = |k: int| sum_to(n, |x: int| cell(x, k));
    assert forall|k: int| 0 <= k < pols.len() implies #[trigger] columns(k) == values(k) by {
        let inner = |x: int| eq_weight(point, x).spec_mul(EF::spec_embed(pols[k]@[x]));
        let column = |x: int| cell(x, k);
        assert forall|x: int| 0 <= x < n implies #[trigger] column(x) == scalars[k].spec_mul(
            inner(x),
        ) by {
            let value = EF::spec_embed(pols[k]@[x]);
            EF::mul_is_associative(eq_weight(point, x), scalars[k], value);
            EF::mul_is_commutative(eq_weight(point, x), scalars[k]);
            EF::mul_is_associative(scalars[k], eq_weight(point, x), value);
        }
        sum_of_multiples(n, scalars[k], inner, column);
        sum_congruent(n, column, |x: int| cell(x, k));
    }
    sum_congruent(pols.len(), columns, values);
}

/// The value of a packed polynomial at a point whose leading coordinates choose among
/// the columns is the sum of the values of the columns, each multiplied by its weight
/// at the leading coordinates.
pub proof fn value_of_packed<F: Ring, EF: Algebra<F>>(
    pols: Seq<EvaluationsList<F>>,
    leading: Seq<EF>,
    point: Seq<EF>,
)
    requires
        pols.len() <= pow2(leading.len()),
        forall|k: int| 0 <= k < pols.len() ==> (#[trigger] pols[k])@.len() == pow2(point.len()),
    ensures
        multilinear_value::<F, EF>(
            packed_values(
                pols,
                pow2(point.len()) as int,
                pow2(leading.len() + point.len()),
            ),
            leading + point,
        ) == sum_to(
            pols.len(),
            |k: int|
                eq_weight(leading, k).spec_mul(multilinear_value::<F, EF>(pols[k]@, point)),
        ),
{
    let columns = pow2(leading.len());
    let size = pow2(point.len());
    let total = pow2(leading.len() + point.len());
    let packed = packed_values(pols, size as int, total);
    let fixed = last_variables_fixed::<F, EF>(packed, point, columns);
    let f = |k: int| eq_weight(leading, k).spec_mul(multilinear_value::<F, EF>(pols[k]@, point));
    let g = |a: int| eq_weight(leading, a).spec_mul(<EF as Algebra<EF>>::spec_embed(fixed[a]));
    lemma_pow2_adds(leading.len(), point.len());
    lemma_pow2_pos(point.len());
    fixing_last_variables_evaluates::<F, EF>(packed, leading, point);
    assert forall|k: int| 0 <= k < pols.len() implies #[trigger] f(k) == g(k) by {
        block_is_inside(k, columns as int, size as int);
        let part = packed.subrange(k * size, (k + 1) * size);
        assert forall|x: int| 0 <= x < size implies #[trigger] part[x] == pols[k]@[x] by {
            lemma_fundamental_div_mod_converse(k * size + x, size as int, k, x);
        }
        assert(part =~= pols[k]@);
    }
    let rest = (columns - pols.len()) as nat;
    let tail = |i: int| g(pols.len() + i);
    sum_splits(pols.len(), rest, g);
    assert forall|i: int| 0 <= i < rest implies #[trigger] tail(i) == EF::spec_zero() by {
        let a = pols.len() + i;
        block_is_inside(a, columns as int, size as int);
        let part = packed.subrange(a * size, (a + 1) * size);
        let term = |x: int| eq_weight(point, x).spec_mul(EF::spec_embed(part[x]));
        assert forall|x: int| 0 <= x < size implies #[trigger] term(x) == EF::spec_zero() by {
            lemma_fundamental_div_mod_converse(a * size + x, size as int, a, x);
            assert(part[x] == F::spec_zero());
            EF::embed_is_homomorphism(F::spec_zero(), F::spec_zero());
            EF::mul_by_zero(eq_weight(point, x));
        }
        sum_of_zeros(size, term);
        EF::mul_by_zero(eq_weight(leading, a));
    }
    sum_of_zeros(rest, tail);
    sum_congruent(rest, tail, |i: int| g(pols.len() + i));
    sum_congruent(pols.len(), f, g);
    sum_is_canonical(pols.len(), g);
    EF::zero_is_neutral(sum_to(pols.len(), g));
    EF::add_is_commutative(sum_to(pols.len(), g), EF::spec_zero());
}

} // verus!
