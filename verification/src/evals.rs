//! Multilinear polynomials, held as their values on the hypercube.
//!
//! The first variable is the most significant bit of an index into the values.

use vstd::arithmetic::mul::*;
use vstd::arithmetic::power2::*;
use vstd::prelude::*;

use crate::field::{Algebra, ExtensionField, Field, Ring};
use crate::sums::sum_to;

verus! {

/// An exponent is below its power of two.
pub proof fn exponent_is_below_power(n: nat)
    ensures
        n < pow2(n),
    decreases n,
{
    lemma2_to64();
    if n > 0 {
        exponent_is_below_power((n - 1) as nat);
        lemma_pow2_unfold(n);
    }
}

/// `p3_util::log2_strict_usize` returns the exponent of a power of two. It panics on
/// every other number.
#[verifier::external_body]
pub(crate) fn p3_log2_strict(n: usize) -> (r: usize)
    requires
        exists|k: nat| n == #[trigger] pow2(k),
    ensures
        n == pow2(r as nat),
{
    p3_util::log2_strict_usize(n)
}

/// The weight of hypercube index `i` at a point: the product, over the coordinates, of
/// the coordinate where the bit of `i` is set, and of one minus it where it is not.
pub open spec fn eq_weight<F: Ring>(point: Seq<F>, i: int) -> F
    decreases point.len(),
{
    if point.len() == 0 {
        F::spec_one()
    } else {
        eq_weight(point.drop_last(), i / 2).spec_mul(
            if i % 2 == 0 {
                F::spec_one().spec_sub(point.last())
            } else {
                point.last()
            },
        )
    }
}

/// The value at `point` of the multilinear polynomial with the given values on the
/// hypercube.
pub open spec fn multilinear_value<F: Ring, EF: Algebra<F>>(evals: Seq<F>, point: Seq<EF>) -> EF {
    sum_to(
        pow2(point.len()),
        |i: int| eq_weight(point, i).spec_mul(EF::spec_embed(evals[i])),
    )
}

/// The values on the smaller hypercube once the last variables are fixed to `point`.
pub open spec fn last_variables_fixed<F: Ring, EF: Algebra<F>>(
    evals: Seq<F>,
    point: Seq<EF>,
    n_left: nat,
) -> Seq<EF> {
    let block = pow2(point.len()) as int;
    Seq::new(
        n_left,
        |a: int| multilinear_value::<F, EF>(evals.subrange(a * block, (a + 1) * block), point),
    )
}

/// A multilinear polynomial, held as its values on the hypercube.
#[derive(Debug, Clone, PartialEq, Eq)]
pub struct EvaluationsList<F> {
    evals: Vec<F>,
    num_variables: usize,
}

impl<F> View for EvaluationsList<F> {
    type V = Seq<F>;

    closed spec fn view(&self) -> Seq<F> {
        self.evals@
    }
}

impl<F> EvaluationsList<F> {
    /// The number of variables.
    pub closed spec fn variables(self) -> nat {
        self.num_variables as nat
    }

    /// Whether there is one value for each index of the hypercube.
    pub open spec fn well_formed(self) -> bool {
        self@.len() == pow2(self.variables())
    }

    /// The values can be counted.
    pub proof fn length_fits(self)
        ensures
            self@.len() <= usize::MAX,
    {
        assert(self.evals.len() == self.evals@.len());
    }

    /// The polynomial with the given values, of which there must be a power of two.
    #[must_use]
    pub fn new(evals: Vec<F>) -> (r: Self)
        requires
            exists|k: nat| evals@.len() == #[trigger] pow2(k),
        ensures
            r@ == evals@,
            r.well_formed(),
    {
        let num_variables: usize = p3_log2_strict(evals.len());
        EvaluationsList { evals, num_variables }
    }

    #[must_use]
    pub fn evals(&self) -> (r: &[F])
        ensures
            r@ == self@,
    {
        self.evals.as_slice()
    }

    #[must_use]
    pub fn num_evals(&self) -> (r: usize)
        ensures
            r == self@.len(),
    {
        self.evals.len()
    }

    #[must_use]
    pub fn num_variables(&self) -> (r: usize)
        ensures
            r == self.variables(),
    {
        self.num_variables
    }
}

/// The number of variables is determined by the number of values.
pub proof fn variables_are_determined(a: nat, b: nat)
    requires
        pow2(a) == pow2(b),
    ensures
        a == b,
{
    if a < b {
        lemma_pow2_strictly_increases(a, b);
    } else if b < a {
        lemma_pow2_strictly_increases(b, a);
    }
}

impl<F: Field> EvaluationsList<F> {
    /// The weights of all hypercube indices at a point.
    #[must_use]
    pub fn eval_eq(point: &[F]) -> (r: Self)
        requires
            pow2(point@.len()) <= usize::MAX,
        ensures
            r.well_formed(),
            r.variables() == point@.len(),
            forall|i: int| 0 <= i < r@.len() ==> #[trigger] r@[i] == eq_weight(point@, i),
    {
        let mut table: Vec<F> = Vec::with_capacity(1);
        table.push(F::one());
        let mut k: usize = 0;
        proof {
            lemma2_to64();
        }
        while k < point.len()
            invariant
                k <= point@.len(),
                pow2(point@.len()) <= usize::MAX,
                table@.len() == pow2(k as nat),
                forall|i: int|
                    0 <= i < table@.len() ==> #[trigger] table@[i] == eq_weight(
                        point@.take(k as int),
                        i,
                    ),
            decreases point@.len() - k,
        {
            proof {
                lemma_pow2_unfold((k + 1) as nat);
                if k + 1 < point@.len() {
                    lemma_pow2_strictly_increases((k + 1) as nat, point@.len());
                }
                assert(point@.take(k + 1).drop_last() =~= point@.take(k as int));
            }
            let mut next: Vec<F> = Vec::with_capacity(table.len() * 2);
            let low = F::one().minus(point[k]);
            let mut j: usize = 0;
            while j < table.len()
                invariant
                    k < point@.len(),
                    j <= table@.len(),
                    table@.len() * 2 <= usize::MAX,
                    low == F::spec_one().spec_sub(point@[k as int]),
                    point@.take(k + 1).drop_last() == point@.take(k as int),
                    forall|i: int|
                        0 <= i < table@.len() ==> #[trigger] table@[i] == eq_weight(
                            point@.take(k as int),
                            i,
                        ),
                    next@.len() == 2 * j,
                    forall|i: int|
                        0 <= i < next@.len() ==> #[trigger] next@[i] == eq_weight(
                            point@.take(k + 1),
                            i,
                        ),
                decreases table@.len() - j,
            {
                next.push(table[j].times(low));
                next.push(table[j].times(point[k]));
                j += 1;
            }
            table = next;
            k += 1;
        }
        assert(point@.take(k as int) =~= point@);
        let num_variables: usize = point.len();
        EvaluationsList { evals: table, num_variables }
    }

    /// The value of the polynomial at a point.
    #[must_use]
    pub fn evaluate<EF: ExtensionField<F>>(&self, point: &[EF]) -> (r: EF)
        requires
            self.well_formed(),
            point@.len() == self.variables(),
        ensures
            r == multilinear_value::<F, EF>(self@, point@),
    {
        assert(self@.len() == self.evals.len());
        let weights = EvaluationsList::eval_eq(point);
        assert(self@.subrange(0, self@.len() as int) =~= self@);
        weighted_sum(weights.evals(), self.evals(), 0, Ghost(point@))
    }

    /// The polynomial in the other variables once the last ones are fixed to `point`.
    #[must_use]
    pub fn fold<EF: ExtensionField<F>>(&self, point: &[EF]) -> (r: EvaluationsList<EF>)
        requires
            self.well_formed(),
            point@.len() <= self.variables(),
        ensures
            r.well_formed(),
            r.variables() == self.variables() - point@.len(),
            r@ == last_variables_fixed::<F, EF>(
                self@,
                point@,
                pow2((self.variables() - point@.len()) as nat),
            ),
    {
        let ghost n_left = (self.variables() - point@.len()) as nat;
        let ghost block = pow2(point@.len()) as int;
        let ghost expected = last_variables_fixed::<F, EF>(self@, point@, pow2(n_left));
        proof {
            assert(self@.len() == self.evals.len());
            lemma_pow2_adds(n_left, point@.len());
            lemma_pow2_pos(n_left);
            lemma_pow2_pos(point@.len());
            lemma_mul_increases(pow2(n_left) as int, block);
        }
        let weights = EvaluationsList::eval_eq(point);
        let size: usize = weights.num_evals();
        let mut folded: Vec<EF> = Vec::new();
        let mut start: usize = 0;
        while start < self.evals.len()
            invariant
                self.well_formed(),
                self@.len() == pow2(n_left) * block,
                self@.len() <= usize::MAX,
                block == pow2(point@.len()),
                size == block,
                block > 0,
                weights.well_formed(),
                weights.variables() == point@.len(),
                forall|i: int|
                    0 <= i < weights@.len() ==> #[trigger] weights@[i] == eq_weight(point@, i),
                expected == last_variables_fixed::<F, EF>(self@, point@, pow2(n_left)),
                expected.len() == pow2(n_left),
                folded@.len() <= pow2(n_left),
                start == folded@.len() * block,
                start <= self@.len(),
                folded@ == expected.take(folded@.len() as int),
            decreases self@.len() - start,
        {
            let ghost a = folded@.len() as int;
            proof {
                lemma_mul_is_distributive_add_other_way(block, a, 1);
                lemma_mul_basics(block);
                if a >= pow2(n_left) {
                    lemma_mul_inequality(pow2(n_left) as int, a, block);
                }
                lemma_mul_inequality(a + 1, pow2(n_left) as int, block);
            }
            let value = weighted_sum(weights.evals(), self.evals(), start, Ghost(point@));
            proof {
                assert(self@.subrange(start as int, start + block) =~= self@.subrange(
                    a * block,
                    (a + 1) * block,
                ));
                assert(value == expected[a]);
            }
            folded.push(value);
            start += size;
            assert(folded@ =~= expected.take(folded@.len() as int));
        }
        proof {
            if folded@.len() < pow2(n_left) {
                lemma_mul_strict_inequality(folded@.len() as int, pow2(n_left) as int, block);
            }
            assert(folded@ =~= expected);
        }
        let num_variables: usize = self.num_variables - point.len();
        EvaluationsList { evals: folded, num_variables }
    }
}

/// The sum of the values from `start` on, each multiplied by its weight.
fn weighted_sum<F: Ring, EF: Algebra<F>>(
    weights: &[EF],
    values: &[F],
    start: usize,
    Ghost(point): Ghost<Seq<EF>>,
) -> (r: EF)
    requires
        start + weights@.len() <= values@.len(),
        weights@.len() == pow2(point.len()),
        forall|i: int| 0 <= i < weights@.len() ==> #[trigger] weights@[i] == eq_weight(point, i),
    ensures
        r == multilinear_value::<F, EF>(
            values@.subrange(start as int, start + weights@.len()),
            point,
        ),
{
    let ghost block = values@.subrange(start as int, start + weights@.len());
    let ghost term = |i: int| eq_weight(point, i).spec_mul(EF::spec_embed(block[i]));
    let n: usize = values.len();
    let mut sum = EF::zero();
    let mut i: usize = 0;
    while i < weights.len()
        invariant
            i <= weights@.len(),
            start + weights@.len() <= values@.len() == n,
            block == values@.subrange(start as int, start + weights@.len()),
            term == |i: int| eq_weight(point, i).spec_mul(EF::spec_embed(block[i])),
            forall|i: int|
                0 <= i < weights@.len() ==> #[trigger] weights@[i] == eq_weight(point, i),
            sum == sum_to(i as nat, term),
        decreases weights@.len() - i,
    {
        sum = sum.plus(weights[i].times(EF::embed(values[start + i])));
        i += 1;
    }
    sum
}

} // verus!
