//! Operations on several multilinear polynomials, and on columns as rows.

use vstd::arithmetic::div_mod::*;
use vstd::arithmetic::mul::*;
use vstd::arithmetic::power2::*;
use vstd::prelude::*;

use crate::evals::{eq_weight, variables_are_determined, EvaluationsList};
use crate::field::{Algebra, ExtensionField, Field, Ring};
use crate::sums::sum_to;

verus! {

/// The values once the first variables, of which `scalars` gives the weights, are
/// summed out: value `i` takes one value out of each of the `scalars.len()` blocks.
pub open spec fn first_variables_folded<F: Ring, EF: Algebra<F>>(
    evals: Seq<F>,
    scalars: Seq<EF>,
    size: nat,
) -> Seq<EF> {
    Seq::new(
        size,
        |i: int|
            sum_to(
                scalars.len(),
                |j: int| scalars[j].spec_mul(EF::spec_embed(evals[j * size + i])),
            ),
    )
}

/// Whether the number of scalars is a power of two no larger than the number of values.
pub open spec fn scalars_fit<F>(n_scalars: nat, poly: EvaluationsList<F>) -> bool {
    exists|k: nat| k <= poly.variables() && n_scalars == #[trigger] pow2(k)
}

/// Whether `folded` is `poly` with its first variables summed out by `scalars`.
pub open spec fn is_folded<F: Ring, EF: Algebra<F>>(
    folded: EvaluationsList<EF>,
    poly: EvaluationsList<F>,
    scalars: Seq<EF>,
) -> bool {
    &&& folded.well_formed()
    &&& folded@.len() * scalars.len() == poly@.len()
    &&& folded@ == first_variables_folded::<F, EF>(poly@, scalars, folded@.len())
}

fn fold_first_variables<F: Ring, EF: Algebra<F>>(
    poly: &EvaluationsList<F>,
    scalars: &[EF],
) -> (r: EvaluationsList<EF>)
    requires
        poly.well_formed(),
        scalars_fit(scalars@.len(), *poly),
    ensures
        is_folded::<F, EF>(r, *poly, scalars@),
{
    let ghost k = choose|k: nat| k <= poly.variables() && scalars@.len() == #[trigger] pow2(k);
    let ghost left = (poly.variables() - k) as nat;
    proof {
        lemma_pow2_adds(left, k);
        lemma_pow2_pos(k);
        lemma_pow2_pos(left);
        lemma_div_multiples_vanish(pow2(left) as int, pow2(k) as int);
        lemma_mul_is_commutative(pow2(left) as int, pow2(k) as int);
    }
    let evals = poly.evals();
    let size: usize = poly.num_evals() / scalars.len();
    let ghost expected = first_variables_folded::<F, EF>(poly@, scalars@, size as nat);
    let mut folded: Vec<EF> = Vec::with_capacity(size);
    let mut i: usize = 0;
    while i < size
        invariant
            i <= size,
            evals@ == poly@,
            scalars@.len() * size == poly@.len(),
            poly@.len() <= usize::MAX,
            expected == first_variables_folded::<F, EF>(poly@, scalars@, size as nat),
            folded@ == expected.take(i as int),
        decreases size - i,
    {
        let ghost term = |j: int| scalars@[j].spec_mul(EF::spec_embed(poly@[j * size + i]));
        let mut sum = EF::zero();
        let mut j: usize = 0;
        let mut position: usize = i;
        while j < scalars.len()
            invariant
                i < size,
                j <= scalars@.len(),
                evals@ == poly@,
                scalars@.len() * size == poly@.len(),
                poly@.len() <= usize::MAX,
                term == |j: int| scalars@[j].spec_mul(EF::spec_embed(poly@[j * size + i])),
                j < scalars@.len() ==> position == j * size + i,
                sum == sum_to(j as nat, term),
            decreases scalars@.len() - j,
        {
            proof {
                lemma_mul_inequality(j + 1, scalars@.len() as int, size as int);
                lemma_mul_is_distributive_add_other_way(size as int, j as int, 1);
                lemma_mul_basics(size as int);
                if j + 1 < scalars@.len() {
                    lemma_mul_inequality(j + 2, scalars@.len() as int, size as int);
                    lemma_mul_is_distributive_add_other_way(size as int, j as int, 2);
                }
            }
            sum = sum.plus(scalars[j].times(EF::embed(evals[position])));
            j += 1;
            if j < scalars.len() {
                position += size;
            }
        }
        assert(sum == expected[i as int]);
        folded.push(sum);
        i += 1;
        assert(folded@ =~= expected.take(i as int));
    }
    assert(folded@ =~= expected);
    EvaluationsList::new(folded)
}

/// Folds each polynomial by scalars of an extension.
#[must_use]
pub fn batch_fold_multilinear_in_large_field<F: Field, EF: ExtensionField<F>>(
    polys: &[&EvaluationsList<F>],
    scalars: &[EF],
) -> (r: Vec<EvaluationsList<EF>>)
    requires
        forall|p: int|
            0 <= p < polys@.len() ==> (#[trigger] polys@[p]).well_formed() && scalars_fit(
                scalars@.len(),
                *polys@[p],
            ),
    ensures
        r@.len() == polys@.len(),
        forall|p: int|
            0 <= p < polys@.len() ==> is_folded::<F, EF>(
                #[trigger] r@[p],
                *polys@[p],
                scalars@,
            ),
{
    let mut folded: Vec<EvaluationsList<EF>> = Vec::with_capacity(polys.len());
    let mut p: usize = 0;
    while p < polys.len()
        invariant
            p <= polys@.len(),
            folded@.len() == p,
            forall|p: int|
                0 <= p < polys@.len() ==> (#[trigger] polys@[p]).well_formed() && scalars_fit(
                    scalars@.len(),
                    *polys@[p],
                ),
            forall|q: int|
                0 <= q < p ==> is_folded::<F, EF>(#[trigger] folded@[q], *polys@[q], scalars@),
        decreases polys@.len() - p,
    {
        assert(polys@[p as int].well_formed());
        folded.push(fold_first_variables(polys[p], scalars));
        p += 1;
    }
    folded
}

/// The copies of the scalars in an extension.
pub open spec fn embedded<F: Ring, EF: Algebra<F>>(scalars: Seq<F>) -> Seq<EF> {
    Seq::new(scalars.len(), |j: int| EF::spec_embed(scalars[j]))
}

/// Folds each polynomial by scalars of the base field.
#[must_use]
pub fn batch_fold_multilinear_in_small_field<F: Field, EF: ExtensionField<F>>(
    polys: &[&EvaluationsList<EF>],
    scalars: &[F],
) -> (r: Vec<EvaluationsList<EF>>)
    requires
        forall|p: int|
            0 <= p < polys@.len() ==> (#[trigger] polys@[p]).well_formed() && scalars_fit(
                scalars@.len(),
                *polys@[p],
            ),
    ensures
        r@.len() == polys@.len(),
        forall|p: int|
            0 <= p < polys@.len() ==> is_folded::<EF, EF>(
                #[trigger] r@[p],
                *polys@[p],
                embedded::<F, EF>(scalars@),
            ),
{
    let mut wide: Vec<EF> = Vec::with_capacity(scalars.len());
    let mut j: usize = 0;
    while j < scalars.len()
        invariant
            j <= scalars@.len(),
            wide@ == embedded::<F, EF>(scalars@).take(j as int),
        decreases scalars@.len() - j,
    {
        wide.push(EF::embed(scalars[j]));
        j += 1;
        assert(wide@ =~= embedded::<F, EF>(scalars@).take(j as int));
    }
    assert(wide@ =~= embedded::<F, EF>(scalars@));
    batch_fold_multilinear_in_large_field::<EF, EF>(polys, &wide)
}

/// The sum of the polynomials, each multiplied by its scalar.
pub open spec fn combination<F: Ring, EF: Algebra<F>>(
    pols: Seq<EvaluationsList<F>>,
    scalars: Seq<EF>,
    n: nat,
) -> Seq<EF> {
    Seq::new(
        n,
        |x: int|
            sum_to(pols.len(), |k: int| scalars[k].spec_mul(EF::spec_embed(pols[k]@[x]))),
    )
}

/// Whether all polynomials have `n` variables.
pub open spec fn all_have_variables<F>(pols: Seq<EvaluationsList<F>>, n: nat) -> bool {
    forall|k: int|
        0 <= k < pols.len() ==> (#[trigger] pols[k]).well_formed() && pols[k].variables() == n
}

/// The sum of the polynomials, each multiplied by its scalar.
#[must_use]
pub fn multilinears_linear_combination<F: Field, EF: ExtensionField<F>>(
    pols: &[EvaluationsList<F>],
    scalars: &[EF],
) -> (r: EvaluationsList<EF>)
    requires
        pols@.len() > 0,
        pols@.len() == scalars@.len(),
        all_have_variables(pols@, pols@[0].variables()),
    ensures
        r.well_formed(),
        r.variables() == pols@[0].variables(),
        r@ == combination::<F, EF>(pols@, scalars@, r@.len()),
{
    let ghost n = pols@[0].variables();
    assert(pols@[0].well_formed());
    let size: usize = pols[0].num_evals();
    let ghost expected = combination::<F, EF>(pols@, scalars@, size as nat);
    let mut combined: Vec<EF> = Vec::with_capacity(size);
    let mut x: usize = 0;
    while x < size
        invariant
            x <= size,
            size == pow2(n),
            pols@.len() == scalars@.len(),
            all_have_variables(pols@, n),
            expected == combination::<F, EF>(pols@, scalars@, size as nat),
            combined@ == expected.take(x as int),
        decreases size - x,
    {
        let ghost term = |k: int| scalars@[k].spec_mul(EF::spec_embed(pols@[k]@[x as int]));
        let mut sum = EF::zero();
        let mut k: usize = 0;
        while k < pols.len()
            invariant
                x < size,
                size == pow2(n),
                k <= pols@.len() == scalars@.len(),
                all_have_variables(pols@, n),
                term == |k: int| scalars@[k].spec_mul(EF::spec_embed(pols@[k]@[x as int])),
                sum == sum_to(k as nat, term),
            decreases pols@.len() - k,
        {
            assert(pols@[k as int].well_formed());
            sum = sum.plus(scalars[k].times(EF::embed(pols[k].evals()[x])));
            k += 1;
        }
        assert(sum == expected[x as int]);
        combined.push(sum);
        x += 1;
        assert(combined@ =~= expected.take(x as int));
    }
    assert(combined@ =~= expected);
    let r = EvaluationsList::new(combined);
    proof {
        variables_are_determined(r.variables(), n);
    }
    r
}

/// The values of the sum of two polynomials.
pub open spec fn sum_values<F: Ring>(a: Seq<F>, b: Seq<F>) -> Seq<F> {
    Seq::new(a.len(), |i: int| a[i].spec_add(b[i]))
}

/// The values of a polynomial multiplied by a scalar.
pub open spec fn scaled_values<F: Ring>(a: Seq<F>, scalar: F) -> Seq<F> {
    Seq::new(a.len(), |i: int| a[i].spec_mul(scalar))
}

/// The sum of two polynomials in the same variables.
#[must_use]
pub fn add_multilinears<F: Field>(
    a: &EvaluationsList<F>,
    b: &EvaluationsList<F>,
) -> (r: EvaluationsList<F>)
    requires
        a.well_formed(),
        b.well_formed(),
        a.variables() == b.variables(),
    ensures
        r.well_formed(),
        r.variables() == a.variables(),
        r@ == sum_values(a@, b@),
{
    let mut sums: Vec<F> = Vec::with_capacity(a.num_evals());
    let mut i: usize = 0;
    while i < a.num_evals()
        invariant
            i <= a@.len() == b@.len(),
            sums@ == sum_values(a@, b@).take(i as int),
        decreases a@.len() - i,
    {
        sums.push(a.evals()[i].plus(b.evals()[i]));
        i += 1;
        assert(sums@ =~= sum_values(a@, b@).take(i as int));
    }
    assert(sums@ =~= sum_values(a@, b@));
    assert(sums@.len() == pow2(a.variables()));
    let r = EvaluationsList::new(sums);
    proof {
        variables_are_determined(r.variables(), a.variables());
    }
    r
}

impl<F: Field> EvaluationsList<F> {
    /// The polynomial multiplied by a scalar.
    #[must_use]
    pub fn scale(&self, scalar: F) -> (r: EvaluationsList<F>)
        requires
            self.well_formed(),
        ensures
            r.well_formed(),
            r.variables() == self.variables(),
            r@ == scaled_values(self@, scalar),
    {
        let mut scaled: Vec<F> = Vec::with_capacity(self.num_evals());
        let mut i: usize = 0;
        while i < self.num_evals()
            invariant
                i <= self@.len(),
                scaled@ == scaled_values(self@, scalar).take(i as int),
            decreases self@.len() - i,
        {
            scaled.push(self.evals()[i].times(scalar));
            i += 1;
            assert(scaled@ =~= scaled_values(self@, scalar).take(i as int));
        }
        assert(scaled@ =~= scaled_values(self@, scalar));
        assert(scaled@.len() == pow2(self.variables()));
        let r = EvaluationsList::new(scaled);
        proof {
            variables_are_determined(r.variables(), self.variables());
        }
        r
    }
}

/// The rows of a column seen from the upper row of a pair: the last row shows the row
/// before it.
pub open spec fn rows_up<F>(column: Seq<F>) -> Seq<F> {
    column.update(column.len() - 1, column[column.len() - 2])
}

/// The rows of a column seen from the lower row of a pair: each row shows the next one,
/// and the last row shows itself.
pub open spec fn rows_down<F>(column: Seq<F>) -> Seq<F> {
    column.drop_first().push(column.last())
}

/// The column as the upper row of each pair shows it.
#[must_use]
pub fn column_up<F: Field>(column: &EvaluationsList<F>) -> (r: EvaluationsList<F>)
    requires
        column.well_formed(),
        column.variables() > 0,
    ensures
        r.well_formed(),
        r.variables() == column.variables(),
        r@ == rows_up(column@),
{
    proof {
        lemma_pow2_unfold(column.variables());
        lemma_pow2_pos((column.variables() - 1) as nat);
    }
    let n: usize = column.num_evals();
    let evals = column.evals();
    let mut up: Vec<F> = Vec::with_capacity(n);
    let mut i: usize = 0;
    while i < n - 1
        invariant
            i <= n - 1,
            n >= 2,
            n == column@.len(),
            evals@ == column@,
            up@ == rows_up(column@).take(i as int),
        decreases n - i,
    {
        up.push(evals[i]);
        i += 1;
        assert(up@ =~= rows_up(column@).take(i as int));
    }
    up.push(evals[n - 2]);
    assert(up@ =~= rows_up(column@));
    assert(up@.len() == pow2(column.variables()));
    let r = EvaluationsList::new(up);
    proof {
        variables_are_determined(r.variables(), column.variables());
    }
    r
}

/// The column as the lower row of each pair shows it.
#[must_use]
pub fn column_down<F: Field>(column: &EvaluationsList<F>) -> (r: EvaluationsList<F>)
    requires
        column.well_formed(),
        column.variables() > 0,
    ensures
        r.well_formed(),
        r.variables() == column.variables(),
        r@ == rows_down(column@),
{
    proof {
        lemma_pow2_unfold(column.variables());
        lemma_pow2_pos((column.variables() - 1) as nat);
    }
    let n: usize = column.num_evals();
    let evals = column.evals();
    let mut down: Vec<F> = Vec::with_capacity(n);
    let mut i: usize = 1;
    while i < n
        invariant
            1 <= i <= n,
            n >= 2,
            n == column@.len(),
            evals@ == column@,
            down@ == column@.subrange(1, i as int),
        decreases n - i,
    {
        down.push(evals[i]);
        i += 1;
        assert(down@ =~= column@.subrange(1, i as int));
    }
    down.push(evals[n - 1]);
    assert(down@ =~= rows_down(column@));
    assert(down@.len() == pow2(column.variables()));
    let r = EvaluationsList::new(down);
    proof {
        variables_are_determined(r.variables(), column.variables());
    }
    r
}

/// The columns as the upper row of each pair shows them, followed by the columns as
/// the lower row shows them.
#[must_use]
pub fn columns_up_and_down<F: Field>(columns: &[&EvaluationsList<F>]) -> (r: Vec<
    EvaluationsList<F>,
>)
    requires
        2 * columns@.len() <= usize::MAX,
        forall|k: int|
            0 <= k < columns@.len() ==> (#[trigger] columns@[k]).well_formed()
                && columns@[k].variables() > 0,
    ensures
        r@.len() == 2 * columns@.len(),
        forall|k: int|
            0 <= k < columns@.len() ==> {
                &&& (#[trigger] r@[k]).well_formed()
                &&& r@[k].variables() == columns@[k].variables()
                &&& r@[k]@ == rows_up(columns@[k]@)
            },
        forall|k: int|
            columns@.len() <= k < 2 * columns@.len() ==> {
                &&& (#[trigger] r@[k]).well_formed()
                &&& r@[k].variables() == columns@[k - columns@.len()].variables()
                &&& r@[k]@ == rows_down(columns@[k - columns@.len()]@)
            },
{
    let mut shifted: Vec<EvaluationsList<F>> = Vec::with_capacity(columns.len() * 2);
    let mut k: usize = 0;
    while k < columns.len()
        invariant
            k <= columns@.len(),
            shifted@.len() == k,
            forall|k: int|
                0 <= k < columns@.len() ==> (#[trigger] columns@[k]).well_formed()
                    && columns@[k].variables() > 0,
            forall|j: int|
                0 <= j < k ==> {
                    &&& (#[trigger] shifted@[j]).well_formed()
                    &&& shifted@[j].variables() == columns@[j].variables()
                    &&& shifted@[j]@ == rows_up(columns@[j]@)
                },
        decreases columns@.len() - k,
    {
        assert(columns@[k as int].well_formed());
        shifted.push(column_up(columns[k]));
        k += 1;
    }
    let mut k: usize = 0;
    while k < columns.len()
        invariant
            k <= columns@.len(),
            shifted@.len() == columns@.len() + k,
            forall|k: int|
                0 <= k < columns@.len() ==> (#[trigger] columns@[k]).well_formed()
                    && columns@[k].variables() > 0,
            forall|j: int|
                0 <= j < columns@.len() ==> {
                    &&& (#[trigger] shifted@[j]).well_formed()
                    &&& shifted@[j].variables() == columns@[j].variables()
                    &&& shifted@[j]@ == rows_up(columns@[j]@)
                },
            forall|j: int|
                columns@.len() <= j < columns@.len() + k ==> {
                    &&& (#[trigger] shifted@[j]).well_formed()
                    &&& shifted@[j].variables() == columns@[j - columns@.len()].variables()
                    &&& shifted@[j]@ == rows_down(columns@[j - columns@.len()]@)
                },
        decreases columns@.len() - k,
    {
        assert(columns@[k as int].well_formed());
        shifted.push(column_down(columns[k]));
        k += 1;
    }
    shifted
}

/// The weights with which the rows of a column enter the value, at `point`, of the
/// column as the upper row shows it.
pub open spec fn up_weights<F: Ring>(point: Seq<F>) -> Seq<F> {
    let n = pow2(point.len());
    Seq::new(
        n,
        |y: int|
            if y == n - 1 {
                F::spec_zero()
            } else if y == n - 2 {
                eq_weight(point, n - 2).spec_add(eq_weight(point, n - 1))
            } else {
                eq_weight(point, y)
            },
    )
}

/// The weights with which the rows of a column enter the value, at `point`, of the
/// column as the lower row shows it.
pub open spec fn down_weights<F: Ring>(point: Seq<F>) -> Seq<F> {
    let n = pow2(point.len());
    Seq::new(
        n,
        |y: int|
            if y == 0 {
                F::spec_zero()
            } else if y == n - 1 {
                eq_weight(point, n - 2).spec_add(eq_weight(point, n - 1))
            } else {
                eq_weight(point, y - 1)
            },
    )
}

/// The weights of the rows in the value of the upper view of a column.
#[must_use]
pub fn matrix_up_folded<F: Field>(point: &[F]) -> (r: EvaluationsList<F>)
    requires
        point@.len() > 0,
        pow2(point@.len()) <= usize::MAX,
    ensures
        r.well_formed(),
        r.variables() == point@.len(),
        r@ == up_weights(point@),
{
    proof {
        lemma_pow2_unfold(point@.len());
        lemma_pow2_pos((point@.len() - 1) as nat);
    }
    let eq = EvaluationsList::eval_eq(point);
    let n: usize = eq.num_evals();
    let mut weights: Vec<F> = Vec::with_capacity(n);
    let mut y: usize = 0;
    while y < n - 2
        invariant
            y <= n - 2,
            2 <= n,
            n == eq@.len() == pow2(point@.len()),
            forall|i: int| 0 <= i < eq@.len() ==> #[trigger] eq@[i] == eq_weight(point@, i),
            weights@ == up_weights(point@).take(y as int),
        decreases n - y,
    {
        weights.push(eq.evals()[y]);
        y += 1;
        assert(weights@ =~= up_weights(point@).take(y as int));
    }
    weights.push(eq.evals()[n - 2].plus(eq.evals()[n - 1]));
    weights.push(F::zero());
    assert(weights@ =~= up_weights(point@));
    let r = EvaluationsList::new(weights);
    proof {
        variables_are_determined(r.variables(), point@.len());
    }
    r
}

/// The weights of the rows in the value of the lower view of a column.
#[must_use]
pub fn matrix_down_folded<F: Field>(point: &[F]) -> (r: EvaluationsList<F>)
    requires
        point@.len() > 0,
        pow2(point@.len()) <= usize::MAX,
    ensures
        r.well_formed(),
        r.variables() == point@.len(),
        r@ == down_weights(point@),
{
    proof {
        lemma_pow2_unfold(point@.len());
        lemma_pow2_pos((point@.len() - 1) as nat);
    }
    let eq = EvaluationsList::eval_eq(point);
    let n: usize = eq.num_evals();
    let mut weights: Vec<F> = Vec::with_capacity(n);
    weights.push(F::zero());
    let mut y: usize = 1;
    assert(weights@ =~= down_weights(point@).take(1));
    while y < n - 1
        invariant
            1 <= y <= n - 1,
            2 <= n,
            n == eq@.len() == pow2(point@.len()),
            forall|i: int| 0 <= i < eq@.len() ==> #[trigger] eq@[i] == eq_weight(point@, i),
            weights@ == down_weights(point@).take(y as int),
        decreases n - y,
    {
        weights.push(eq.evals()[y - 1]);
        y += 1;
        assert(weights@ =~= down_weights(point@).take(y as int));
    }
    weights.push(eq.evals()[n - 2].plus(eq.evals()[n - 1]));
    assert(weights@ =~= down_weights(point@));
    let r = EvaluationsList::new(weights);
    proof {
        variables_are_determined(r.variables(), point@.len());
    }
    r
}

/// The base-two logarithm, rounded up.
pub open spec fn log2_ceil(n: nat) -> nat
    decreases n,
{
    if n <= 1 {
        0
    } else {
        log2_ceil(n / 2 + n % 2) + 1
    }
}

/// The rounded logarithm is the least exponent whose power of two is not below `n`.
pub proof fn log2_ceil_is_least(n: nat)
    ensures
        n <= pow2(log2_ceil(n)),
        forall|k: nat| n <= #[trigger] pow2(k) ==> log2_ceil(n) <= k,
    decreases n,
{
    lemma2_to64();
    if n > 1 {
        let half = n / 2 + n % 2;
        log2_ceil_is_least(half);
        lemma_pow2_unfold(log2_ceil(n));
        assert forall|k: nat| n <= #[trigger] pow2(k) implies log2_ceil(n) <= k by {
            if k > 0 {
                lemma_pow2_unfold(k);
                assert(half <= pow2((k - 1) as nat));
            }
        }
    }
}

/// The base-two logarithm, rounded up.
#[must_use]
pub fn log2_up(n: usize) -> (r: usize)
    ensures
        r == log2_ceil(n as nat),
{
    let mut k: usize = 0;
    let mut m: usize = n;
    while m > 1
        invariant
            k + log2_ceil(m as nat) == log2_ceil(n as nat),
            k + m <= n || k == 0,
            k == 0 ==> m == n,
        decreases m,
    {
        m = m / 2 + m % 2;
        k += 1;
    }
    k
}

/// The values of the polynomials one after another, and zeros up to length `n`.
pub open spec fn packed_values<F: Ring>(
    pols: Seq<EvaluationsList<F>>,
    size: int,
    n: nat,
) -> Seq<F> {
    Seq::new(
        n,
        |i: int|
            if i / size < pols.len() {
                pols[i / size]@[i % size]
            } else {
                F::spec_zero()
            },
    )
}

/// The polynomial that holds the given ones one after another: the leading variables
/// choose among them. Zeros fill the rest up to a power of two.
#[must_use]
pub fn packed_multilinear<F: Field>(pols: &[EvaluationsList<F>]) -> (r: EvaluationsList<F>)
    requires
        pols@.len() > 0,
        all_have_variables(pols@, pols@[0].variables()),
        pow2(log2_ceil(pols@.len()) + pols@[0].variables()) <= usize::MAX,
    ensures
        r.well_formed(),
        r.variables() == log2_ceil(pols@.len()) + pols@[0].variables(),
        r@ == packed_values(pols@, pow2(pols@[0].variables()) as int, r@.len()),
{
    let ghost n = pols@[0].variables();
    let ghost total = pow2(log2_ceil(pols@.len()) + n);
    let ghost expected = packed_values(pols@, pow2(n) as int, total);
    proof {
        assert(pols@[0].well_formed());
        log2_ceil_is_least(pols@.len());
        lemma_pow2_adds(log2_ceil(pols@.len()), n);
        lemma_pow2_pos(n);
        lemma_mul_inequality(pols@.len() as int, pow2(log2_ceil(pols@.len())) as int, pow2(n) as int);
    }
    let size: usize = pols[0].num_evals();
    let columns: usize = power_of_two(log2_up(pols.len()), Ghost(pow2(n)));
    let length: usize = columns * size;
    let mut packed: Vec<F> = Vec::with_capacity(length);
    let mut k: usize = 0;
    while k < pols.len()
        invariant
            k <= pols@.len(),
            all_have_variables(pols@, n),
            size == pow2(n),
            size > 0,
            pols@.len() * size <= total <= usize::MAX,
            expected == packed_values(pols@, size as int, total),
            packed@.len() == k * size,
            packed@ == expected.take(k * size),
        decreases pols@.len() - k,
    {
        proof {
            assert(pols@[k as int].well_formed());
            lemma_mul_is_distributive_add_other_way(size as int, k as int, 1);
            lemma_mul_basics(size as int);
            lemma_mul_inequality(k + 1, pols@.len() as int, size as int);
        }
        let evals = pols[k].evals();
        let mut x: usize = 0;
        while x < size
            invariant
                k < pols@.len(),
                x <= size,
                size > 0,
                evals@ == pols@[k as int]@,
                evals@.len() == size,
                (k + 1) * size <= total <= usize::MAX,
                (k + 1) * size == k * size + size,
                expected == packed_values(pols@, size as int, total),
                packed@.len() == k * size + x,
                packed@ == expected.take(k * size + x),
            decreases size - x,
        {
            packed.push(evals[x]);
            proof {
                let i = k * size + x;
                lemma_fundamental_div_mod_converse(i, size as int, k as int, x as int);
                assert(expected[i] == evals@[x as int]);
            }
            x += 1;
            assert(packed@ =~= expected.take(k * size + x));
        }
        k += 1;
    }
    while packed.len() < length
        invariant
            size > 0,
            length == total,
            expected == packed_values(pols@, size as int, total),
            pols@.len() * size <= packed@.len() <= total,
            packed@ == expected.take(packed@.len() as int),
        decreases length - packed@.len(),
    {
        proof {
            let i = packed@.len() as int;
            if i / (size as int) < pols@.len() {
                lemma_fundamental_div_mod(i, size as int);
                lemma_mul_inequality(i / (size as int) + 1, pols@.len() as int, size as int);
                lemma_mul_is_distributive_add_other_way(size as int, i / (size as int), 1);
                lemma_mul_is_commutative(size as int, i / (size as int));
                lemma_mul_basics(size as int);
            }
            assert(expected[i] == F::spec_zero());
        }
        packed.push(F::zero());
        assert(packed@ =~= expected.take(packed@.len() as int));
    }
    assert(packed@ =~= expected);
    let r = EvaluationsList::new(packed);
    proof {
        variables_are_determined(r.variables(), log2_ceil(pols@.len()) + n);
    }
    r
}

/// `2^k`, of which some positive multiple fits in a `usize`.
pub(crate) fn power_of_two(k: usize, Ghost(multiple): Ghost<nat>) -> (r: usize)
    requires
        multiple > 0,
        pow2(k as nat) * multiple <= usize::MAX,
    ensures
        r == pow2(k as nat),
{
    proof {
        lemma_pow2_pos(k as nat);
        lemma_mul_increases(multiple as int, pow2(k as nat) as int);
        lemma_mul_is_commutative(multiple as int, pow2(k as nat) as int);
        lemma2_to64();
    }
    let mut power: usize = 1;
    let mut i: usize = 0;
    while i < k
        invariant
            i <= k,
            power == pow2(i as nat),
            pow2(k as nat) <= usize::MAX,
        decreases k - i,
    {
        proof {
            lemma_pow2_unfold((i + 1) as nat);
            if i + 1 < k {
                lemma_pow2_strictly_increases((i + 1) as nat, k as nat);
            }
        }
        power = power * 2;
        i += 1;
    }
    power
}

} // verus!
