//! From the zerocheck to the opening of the committed witness.

use vstd::arithmetic::power2::*;
use vstd::prelude::*;

use crate::dense::{poly_value, DensePolynomial};
use crate::dense_laws::{poly_product, value_of_poly_product};
use crate::evals::{eq_weight, last_variables_fixed, multilinear_value, EvaluationsList};
use crate::field::{reduced, reduction, Algebra, ExtensionField, Field, Ring};
use crate::kernel_ir::program::batched;
use crate::multilinear::{
    add_multilinears, all_have_variables, columns_up_and_down, combination, down_weights, embedded,
    first_variables_folded, matrix_down_folded, matrix_up_folded, packed_values, rows_down,
    rows_up, scaled_values, sum_values, up_weights,
};
use crate::multilinear_laws::multilinear_value_is_canonical;
use crate::packed::Packed;
use crate::sumcheck::claim_laws::{
    folding_each_variable_evaluates, successively_folded, true_claim_survives_round,
    whole_claim_is_round_claim,
};
use crate::sumcheck::computation::{
    with_factor, SumcheckComputation, SumcheckComputationPacked,
};
use crate::sumcheck::hypercube::{hypercube_sum, point_at, tables_of, weight_at};
use crate::sumcheck::round::{
    are_round_selectors, domain_weights, folded_at, is_round_polynomial, tables_folded_at,
    RoundParameters,
};
use crate::sumcheck::round_laws::{integers_differ_by_units, line, line_folds, node};
use crate::sums::{sum_congruent, sum_is_canonical, sum_of_multiples, sum_splits, sum_to};
use crate::table::AirTable;
use crate::witness::{
    folding_commutes_with_mixing, inner_claim_holds, leading_weights,
    packed_opening_is_batched_value, BatchedWitness,
};

verus! {

/// The product of two polynomials, summed by the inner sumcheck.
#[derive(Debug, Clone, Copy, PartialEq, Eq, Structural)]
pub struct InnerSumcheckCircuit;

impl<NF: Field, EF: ExtensionField<NF>> SumcheckComputation<NF, EF> for InnerSumcheckCircuit {
    open spec fn accepts(&self, n_values: nat, n_scalars: nat) -> bool {
        n_values >= 2
    }

    open spec fn value(&self, point: Seq<NF>, scalars: Seq<EF>) -> EF {
        EF::spec_embed(point[0].spec_mul(point[1]))
    }

    fn eval(&self, point: &[NF], _batching_scalars: &[EF]) -> (r: EF) {
        EF::embed(point[0].times(point[1]))
    }
}

impl<F: Field, EF: ExtensionField<F>> SumcheckComputationPacked<F, EF> for InnerSumcheckCircuit {
    /// The inner sumcheck has values of the extension from its first round on.
    open spec fn fills_lanes(&self) -> bool {
        false
    }

    /// A single zero, whatever the lanes hold.
    fn eval_packed<const W: usize>(
        &self,
        _point: &[Packed<F, W>],
        _batching_scalars: &[EF],
        _decomposed_batching_scalars: &[Vec<F>],
    ) -> (r: Vec<EF>)
        ensures
            r@ == seq![EF::spec_zero()],
    {
        let mut zero: Vec<EF> = Vec::with_capacity(1);
        zero.push(EF::zero());
        assert(zero@ =~= seq![EF::spec_zero()]);
        zero
    }
}

/// The power `base^k`.
pub open spec fn power<F: Ring>(base: F, k: nat) -> F
    decreases k,
{
    if k == 0 {
        F::spec_one()
    } else {
        power(base, (k - 1) as nat).spec_mul(base)
    }
}

/// The first `n` powers of `base`, from its zeroth one on.
#[must_use]
pub fn powers<F: Field>(base: F, n: usize) -> (r: Vec<F>)
    ensures
        r@ == Seq::new(n as nat, |k: int| power(base, k as nat)),
        r@.len() == n,
        n > 0 ==> r@[0] == F::spec_one(),
        forall|k: int, next: int|
            0 <= k && next == k + 1 && next < n ==> #[trigger] r@[next] == (
            #[trigger] r@[k]).spec_mul(base),
{
    let mut powers: Vec<F> = Vec::with_capacity(n);
    let mut current = F::one();
    let mut k: usize = 0;
    while k < n
        invariant
            k <= n,
            current == power(base, k as nat),
            powers@ == Seq::new(k as nat, |k: int| power(base, k as nat)),
        decreases n - k,
    {
        powers.push(current);
        current = current.times(base);
        k += 1;
        assert(powers@ =~= Seq::new(k as nat, |k: int| power(base, k as nat)));
    }
    powers
}

/// The powers of a base start with one, and each is the one before it times the base.
pub proof fn powers_multiply_up<F: Ring>(base: F, k: nat)
    ensures
        power(base, 0) == F::spec_one(),
        power(base, k + 1) == power(base, k).spec_mul(base),
{
}

/// Values batched by the powers of a challenge are the polynomial with these values as its
/// coefficients, at the challenge.
pub proof fn batching_by_powers_is_polynomial<NF: Ring, EF: Algebra<NF>>(
    scalars: Seq<EF>,
    values: Seq<NF>,
    challenge: EF,
)
    requires
        scalars.len() == values.len(),
        scalars.len() > 0 ==> scalars[0] == EF::spec_one(),
        forall|k: int, next: int|
            0 <= k && next == k + 1 && next < scalars.len() ==> #[trigger] scalars[next] == (
            #[trigger] scalars[k]).spec_mul(challenge),
    ensures
        batched::<NF, EF>(scalars, values) == poly_value::<NF, EF>(values, challenge),
{
    let term = |k: int| power(challenge, k as nat).spec_mul(EF::spec_embed(values[k]));
    assert forall|k: int| 0 <= k < scalars.len() implies #[trigger] scalars[k] == power(
        challenge,
        k as nat,
    ) by {
        scalar_is_power(scalars, challenge, k);
    }
    sum_congruent(
        scalars.len(),
        |k: int| scalars[k].spec_mul(EF::spec_embed(values[k])),
        term,
    );
    powers_sum_to_polynomial::<NF, EF>(values, challenge);
}

proof fn scalar_is_power<EF: Ring>(scalars: Seq<EF>, challenge: EF, k: int)
    requires
        0 <= k < scalars.len(),
        scalars[0] == EF::spec_one(),
        forall|k: int, next: int|
            0 <= k && next == k + 1 && next < scalars.len() ==> #[trigger] scalars[next] == (
            #[trigger] scalars[k]).spec_mul(challenge),
    ensures
        scalars[k] == power(challenge, k as nat),
    decreases k,
{
    if k > 0 {
        scalar_is_power(scalars, challenge, k - 1);
        assert(scalars[k] == scalars[k - 1].spec_mul(challenge));
    }
}

proof fn powers_sum_to_polynomial<NF: Ring, EF: Algebra<NF>>(values: Seq<NF>, challenge: EF)
    ensures
        sum_to(
            values.len(),
            |k: int| power(challenge, k as nat).spec_mul(EF::spec_embed(values[k])),
        ) == poly_value::<NF, EF>(values, challenge),
    decreases values.len(),
{
    let term = |k: int| power(challenge, k as nat).spec_mul(EF::spec_embed(values[k]));
    if values.len() > 0 {
        let rest = values.drop_first();
        let first = EF::spec_embed(values[0]);
        let shorter = |k: int| power(challenge, k as nat).spec_mul(EF::spec_embed(rest[k]));
        let shifted = |i: int| term(1 + i);
        powers_sum_to_polynomial::<NF, EF>(rest, challenge);
        sum_splits(1, rest.len(), term);
        assert forall|i: int| 0 <= i < rest.len() implies #[trigger] shifted(i)
            == challenge.spec_mul(shorter(i)) by {
            let p = power(challenge, i as nat);
            let v = EF::spec_embed(rest[i]);
            assert(values[1 + i] == rest[i]);
            EF::mul_is_commutative(p, challenge);
            EF::mul_is_associative(challenge, p, v);
        }
        sum_of_multiples(rest.len(), challenge, shorter, shifted);
        let tail = challenge.spec_mul(sum_to(rest.len(), shorter));
        // The first term is one times the first value, and the value is only reduced once the
        // rest is added.
        assert(sum_to(1, term) == EF::spec_zero().spec_add(EF::spec_one().spec_mul(first))) by {
            reveal_with_fuel(sum_to, 2);
        }
        EF::results_are_canonical(EF::spec_one(), first);
        EF::zero_is_neutral(EF::spec_one().spec_mul(first));
        one_times_is_absorbed(first, tail);
    }
}

/// `1 * a + b == a + b`.
proof fn one_times_is_absorbed<EF: Ring>(a: EF, b: EF)
    ensures
        EF::spec_one().spec_mul(a).spec_add(b) == a.spec_add(b),
{
    EF::results_are_canonical(a, b);
    let zero = EF::spec_zero();
    // `1 * (a + b) == a + b`, and on the left the product of one and `b` goes the same way.
    EF::one_is_neutral(a.spec_add(b));
    EF::mul_distributes_over_add(EF::spec_one(), a, b);
    EF::results_are_canonical(EF::spec_one(), b);
    let one_a = EF::spec_one().spec_mul(a);
    let one_b = EF::spec_one().spec_mul(b);
    EF::results_are_canonical(zero, b);
    EF::one_is_neutral(zero.spec_add(b));
    EF::mul_distributes_over_add(EF::spec_one(), zero, b);
    EF::mul_by_zero(EF::spec_one());
    EF::zero_is_neutral(one_b);
    assert(one_b == zero.spec_add(b));
    EF::results_are_canonical(EF::spec_one(), a);
    EF::add_is_associative(one_a, zero, b);
    EF::add_is_commutative(one_a, zero);
    EF::zero_is_neutral(one_a);
}

/// What the commitment is opened at, and the value that it must show there.
#[derive(Debug, Clone, PartialEq, Eq)]
pub struct OpeningStatement<EF> {
    pub point: Vec<EF>,
    pub value: EF,
}

/// The values of polynomials without variables.
fn constants<EF: Field>(pols: &[EvaluationsList<EF>], start: usize, end: usize) -> (r: Vec<EF>)
    requires
        start <= end <= pols@.len(),
        forall|k: int|
            start <= k < end ==> (#[trigger] pols@[k]).well_formed() && pols@[k].variables() == 0,
    ensures
        r@ == Seq::new((end - start) as nat, |k: int| reduced(pols@[start + k]@[0])),
{
    let mut values: Vec<EF> = Vec::with_capacity(end - start);
    let mut k: usize = start;
    while k < end
        invariant
            start <= k <= end <= pols@.len(),
            forall|k: int|
                start <= k < end ==> (#[trigger] pols@[k]).well_formed() && pols@[k].variables()
                    == 0,
            values@ == Seq::new((k - start) as nat, |j: int| reduced(pols@[start + j]@[0])),
        decreases end - k,
    {
        assert(pols@[k as int].well_formed());
        let value = pols[k].evaluate::<EF>(&[]);
        proof {
            value_without_variables(pols@[k as int]@);
        }
        values.push(value);
        k += 1;
        assert(values@ =~= Seq::new((k - start) as nat, |j: int| reduced(pols@[start + j]@[0])));
    }
    values
}

/// A polynomial without variables has one value.
proof fn value_without_variables<EF: Ring>(evals: Seq<EF>)
    ensures
        forall|point: Seq<EF>|
            point.len() == 0 ==> #[trigger] multilinear_value::<EF, EF>(evals, point) == reduced(
                evals[0],
            ),
{
    assert forall|point: Seq<EF>| point.len() == 0 implies #[trigger] multilinear_value::<EF, EF>(
        evals,
        point,
    ) == reduced(evals[0]) by {
        let term = |i: int| eq_weight(point, i).spec_mul(<EF as Algebra<EF>>::spec_embed(evals[i]));
        lemma2_to64();
        reveal_with_fuel(sum_to, 2);
        reduction(evals[0]);
        reduction(reduced(evals[0]));
        assert(term(0) == reduced(evals[0]));
    }
}

impl<F: Field, A> AirTable<F, A> {
    /// The columns that the zerocheck sums over: those of the upper row, preprocessed
    /// ones first, and then those of the lower row.
    #[must_use]
    pub fn zerocheck_columns(&self, witness: &[EvaluationsList<F>]) -> (r: Vec<EvaluationsList<F>>)
        requires
            self.log_length > 0,
            all_have_variables(self.preprocessed_columns@, self.log_length as nat),
            all_have_variables(witness@, self.log_length as nat),
            2 * (self.preprocessed_columns@.len() + witness@.len()) <= usize::MAX,
        ensures
            r@.len() == 2 * (self.preprocessed_columns@.len() + witness@.len()),
            all_have_variables(r@, self.log_length as nat),
            forall|k: int|
                0 <= k < self.preprocessed_columns@.len() + witness@.len() ==> (
                #[trigger] r@[k])@ == rows_up((self.preprocessed_columns@ + witness@)[k]@),
            forall|k: int|
                self.preprocessed_columns@.len() + witness@.len() <= k < r@.len() ==> (
                #[trigger] r@[k])@ == rows_down(
                    (self.preprocessed_columns@ + witness@)[k - self.preprocessed_columns@.len()
                        - witness@.len()]@,
                ),
    {
        let ghost all = self.preprocessed_columns@ + witness@;
        let ghost n = self.log_length as nat;
        let mut columns: Vec<&EvaluationsList<F>> = Vec::new();
        let mut k: usize = 0;
        while k < self.preprocessed_columns.len()
            invariant
                k <= self.preprocessed_columns@.len(),
                all == self.preprocessed_columns@ + witness@,
                columns@.len() == k,
                forall|j: int| 0 <= j < k ==> *(#[trigger] columns@[j]) == all[j],
            decreases self.preprocessed_columns@.len() - k,
        {
            columns.push(&self.preprocessed_columns[k]);
            k += 1;
        }
        let mut k: usize = 0;
        while k < witness.len()
            invariant
                k <= witness@.len(),
                all == self.preprocessed_columns@ + witness@,
                columns@.len() == self.preprocessed_columns@.len() + k,
                forall|j: int| 0 <= j < columns@.len() ==> *(#[trigger] columns@[j]) == all[j],
            decreases witness@.len() - k,
        {
            columns.push(&witness[k]);
            k += 1;
        }
        proof {
            assert forall|k: int| 0 <= k < columns@.len() implies (
            #[trigger] columns@[k]).well_formed() && columns@[k].variables() == n by {
                if k < self.preprocessed_columns@.len() {
                    assert(self.preprocessed_columns@[k].well_formed());
                } else {
                    assert(witness@[k - self.preprocessed_columns@.len()].well_formed());
                }
            }
        }
        columns_up_and_down(columns.as_slice())
    }

    /// What the zerocheck leaves of the witness columns: their values in the upper row,
    /// and their values in the lower row.
    #[must_use]
    pub fn inner_sums<EF: ExtensionField<F>>(&self, all_inner_sums: &[EvaluationsList<EF>]) -> (r: (
        Vec<EF>,
        Vec<EF>,
    ))
        requires
            self.preprocessed_columns@.len() <= self.n_columns,
            all_inner_sums@.len() == 2 * self.n_columns,
            all_have_variables(all_inner_sums@, 0),
        ensures
            r.0@ == Seq::new(
                (self.n_columns - self.preprocessed_columns@.len()) as nat,
                |k: int| reduced(all_inner_sums@[self.preprocessed_columns@.len() + k]@[0]),
            ),
            r.1@ == Seq::new(
                (self.n_columns - self.preprocessed_columns@.len()) as nat,
                |k: int|
                    reduced(
                        all_inner_sums@[self.n_columns + self.preprocessed_columns@.len() + k]@[0],
                    ),
            ),
    {
        let n: usize = all_inner_sums.len();
        let skipped: usize = self.n_preprocessed_columns();
        let up = constants(all_inner_sums, skipped, self.n_columns);
        let down = constants(all_inner_sums, self.n_columns + skipped, n);
        (up, down)
    }
}

/// The two polynomials whose product the inner sumcheck sums: the weights of the rows at
/// the joined point, and the batched column.
#[must_use]
pub fn inner_sumcheck_multilinears<EF: Field>(
    epsilons: &[EF],
    zerocheck_tail: &[EF],
    alpha: EF,
    batched_column: EvaluationsList<EF>,
) -> (r: Vec<EvaluationsList<EF>>)
    requires
        epsilons@.len() + zerocheck_tail@.len() > 0,
        batched_column.well_formed(),
        batched_column.variables() == epsilons@.len() + zerocheck_tail@.len(),
    ensures
        r@.len() == 2,
        all_have_variables(r@, batched_column.variables()),
        r@[0]@ == sum_values(
            up_weights(epsilons@ + zerocheck_tail@),
            scaled_values(down_weights(epsilons@ + zerocheck_tail@), alpha),
        ),
        r@[1] == batched_column,
{
    proof {
        batched_column.length_fits();
    }
    let point = concatenated(epsilons, zerocheck_tail);
    let down = matrix_down_folded(point.as_slice()).scale(alpha);
    let weights = add_multilinears(&matrix_up_folded(point.as_slice()), &down);
    let mut pols: Vec<EvaluationsList<EF>> = Vec::with_capacity(2);
    pols.push(weights);
    pols.push(batched_column);
    pols
}

/// One list behind the other.
fn concatenated<EF: Copy>(first: &[EF], second: &[EF]) -> (r: Vec<EF>)
    ensures
        r@ == first@ + second@,
{
    let mut joined: Vec<EF> = Vec::new();
    let mut k: usize = 0;
    while k < first.len()
        invariant
            k <= first@.len(),
            joined@ == first@.take(k as int),
        decreases first@.len() - k,
    {
        joined.push(first[k]);
        k += 1;
        assert(joined@ =~= first@.take(k as int));
    }
    let mut k: usize = 0;
    assert(joined@ =~= first@ + second@.take(0));
    while k < second.len()
        invariant
            k <= second@.len(),
            joined@ == first@ + second@.take(k as int),
        decreases second@.len() - k,
    {
        joined.push(second[k]);
        k += 1;
        assert(joined@ =~= first@ + second@.take(k as int));
    }
    assert(joined@ =~= first@ + second@);
    joined
}

/// What the commitment must show once the inner sumcheck is over: at the batching scalars
/// followed by the inner challenges, the value that is left of the batched column.
#[must_use]
pub fn opening_statement<EF: Field>(
    columns_batching_scalars: &[EF],
    inner_challenges: &[EF],
    inner_evals: &[EvaluationsList<EF>],
) -> (r: OpeningStatement<EF>)
    requires
        inner_evals@.len() >= 2,
        inner_evals@[1].well_formed(),
        inner_evals@[1].variables() == 0,
    ensures
        r.point@ == columns_batching_scalars@ + inner_challenges@,
        r.value == reduced(inner_evals@[1]@[0]),
{
    let point = concatenated(columns_batching_scalars, inner_challenges);
    let value = inner_evals[1].evaluate::<EF>(&[]);
    proof {
        value_without_variables(inner_evals@[1]@);
    }
    OpeningStatement { point, value }
}

/// What the inner sumcheck sums.
pub open spec fn inner_product<EF: Ring>() -> spec_fn(Seq<EF>) -> EF {
    |point: Seq<EF>| point[0].spec_mul(point[1])
}

/// The value of the mixed views, which the batched witness comes with, is the sum that the
/// inner sumcheck claims.
pub proof fn inner_sum_is_true<EF: Field>(
    witness: BatchedWitness<EF>,
    alpha: EF,
    epsilons: Seq<EF>,
    tail: Seq<EF>,
    pols: Seq<EvaluationsList<EF>>,
)
    requires
        epsilons.len() + tail.len() > 0,
        witness.batched_column@.len() == pow2(epsilons.len() + tail.len()),
        witness.sub_evals@ == sum_values(
            last_variables_fixed::<EF, EF>(
                rows_up(witness.batched_column@),
                tail,
                pow2(epsilons.len()),
            ),
            scaled_values(
                last_variables_fixed::<EF, EF>(
                    rows_down(witness.batched_column@),
                    tail,
                    pow2(epsilons.len()),
                ),
                alpha,
            ),
        ),
        witness.inner_sum == multilinear_value::<EF, EF>(witness.sub_evals@, epsilons),
        pols.len() == 2,
        pols[0]@ == sum_values(
            up_weights(epsilons + tail),
            scaled_values(down_weights(epsilons + tail), alpha),
        ),
        pols[1] == witness.batched_column,
    ensures
        hypercube_sum(
            inner_product::<EF>(),
            tables_of(pols),
            pow2(epsilons.len() + tail.len()),
            None,
        ) == witness.inner_sum,
{
    let column = witness.batched_column@;
    let point = epsilons + tail;
    let n = pow2(point.len());
    lemma_pow2_unfold(point.len());
    lemma_pow2_pos((point.len() - 1) as nat);
    folding_commutes_with_mixing(column, alpha, epsilons, tail);
    inner_claim_holds(column, alpha, point);
    let weights = sum_values(up_weights(point), scaled_values(down_weights(point), alpha));
    let tables = tables_of(pols);
    let a = |x: int|
        with_factor(inner_product::<EF>()(point_at(tables, x)), weight_at(None::<Seq<EF>>, x));
    let b = |y: int| weights[y].spec_mul(column[y]);
    assert forall|x: int| 0 <= x < n implies #[trigger] a(x) == b(x) by {}
    sum_congruent(n, a, b);
}

/// The tables folded at a challenge in their first variable.
pub open spec fn tables_folded_by<EF: Ring>(tables: Seq<Seq<EF>>, challenge: EF, size: nat) -> Seq<
    Seq<EF>,
> {
    Seq::new(
        tables.len(),
        |k: int|
            first_variables_folded::<EF, EF>(
                tables[k],
                seq![EF::spec_one().spec_sub(challenge), challenge],
                size,
            ),
    )
}

/// A polynomial of degree one gives the value that folding at an integer leaves.
proof fn line_gives_folded_value<F: Field, EF: ExtensionField<F>>(
    evals: Seq<EF>,
    selectors: Seq<DensePolynomial<F>>,
    z: int,
    size: nat,
    x: int,
)
    requires
        evals.len() == 2 * size,
        forall|i: int| 0 <= i < evals.len() ==> (#[trigger] evals[i]).canonical(),
        0 <= x < size,
        0 <= z,
    ensures
        poly_value::<EF, EF>(
            line::<F, EF>(evals[x], evals[size + x]),
            node::<F, EF>(z),
        ) == folded_at::<F, EF>(evals, 1, selectors, z, size)[x],
{
    let values = seq![evals[x], evals[size + x]];
    let at = F::spec_from_nat(z as nat);
    let w = domain_weights::<F, EF>(1, selectors, node::<F, EF>(z));
    line_folds::<F, EF>(evals[x], evals[size + x], selectors, node::<F, EF>(z));
    let term = |j: int| w[j].spec_mul(values[j]);
    sum_congruent(
        2,
        term,
        |j: int|
            domain_weights::<F, EF>(1, selectors, node::<F, EF>(z))[j].spec_mul(
                seq![evals[x], evals[size + x]][j],
            ),
    );
    if z == 0 {
        lemma2_to64();
        let (zero, one) = (EF::spec_zero(), EF::spec_one());
        EF::embed_is_homomorphism(F::spec_zero(), F::spec_one());
        F::from_nat_counts_ones(0);
        EF::results_are_canonical(one, zero);
        EF::sub_is_add_of_neg(one, zero);
        EF::neg_cancels(zero);
        EF::results_are_canonical(zero, zero);
        EF::zero_is_neutral(zero.spec_neg());
        EF::add_is_commutative(one, zero);
        EF::zero_is_neutral(one);
        assert(w[0] == one && w[1] == zero);
        assert(evals[x].canonical());
        EF::one_is_neutral(evals[x]);
        EF::mul_by_zero(evals[size + x]);
        EF::mul_is_commutative(zero, evals[size + x]);
        reveal_with_fuel(sum_to, 3);
        EF::zero_is_neutral(evals[x]);
        EF::add_is_commutative(evals[x], zero);
        assert(term(0) == evals[x] && term(1) == zero);
    } else {
        let narrow = domain_weights::<F, F>(1, selectors, at);
        let scalars = embedded::<F, EF>(narrow);
        EF::embed_is_homomorphism(F::spec_one(), at);
        assert(scalars =~= w);
        let folded = |j: int|
            scalars[j].spec_mul(<EF as Algebra<EF>>::spec_embed(evals[j * size + x]));
        assert forall|j: int| 0 <= j < 2 implies #[trigger] term(j) == folded(j) by {
            assert(j == 0 || j == 1);
            assert(evals[j * size + x] == values[j]);
        }
        sum_congruent(2, term, folded);
    }
}

/// A true claim of the inner sumcheck stays true: where the claimed sum is the sum of the
/// products over the hypercube, the value of the round's polynomial at the challenge is the
/// sum of the products over the hypercube that is left once both polynomials are folded at
/// the challenge.
pub proof fn inner_claim_survives_round<F: Field, EF: ExtensionField<F>>(
    coeffs: Seq<EF>,
    parameters: RoundParameters<'_, EF>,
    tables: Seq<Seq<EF>>,
    left: nat,
    selectors: Seq<DensePolynomial<F>>,
    challenge: EF,
)
    requires
        parameters.skips == 1,
        parameters.comp_degree == 2,
        parameters.eq_factor is None,
        !parameters.is_zerocheck,
        parameters.missing_mul_factor is None,
        are_round_selectors(selectors, 1),
        integers_differ_by_units::<F>(parameters.n_values()),
        tables.len() == 2,
        forall|k: int|
            0 <= k < tables.len() ==> (#[trigger] tables[k]).len() == 2 * pow2(left) && forall|
                i: int,
            |
                0 <= i < tables[k].len() ==> (#[trigger] tables[k][i]).canonical(),
        is_round_polynomial::<F, EF, EF>(
            coeffs,
            parameters,
            inner_product::<EF>(),
            tables,
            pow2(left),
            selectors,
        ),
        hypercube_sum(inner_product::<EF>(), tables, 2 * pow2(left), None) == reduced(
            parameters.sum,
        ),
    ensures
        poly_value::<EF, EF>(coeffs, challenge) == hypercube_sum(
            inner_product::<EF>(),
            tables_folded_by(tables, challenge, pow2(left)),
            pow2(left),
            None,
        ),
{
    let size = pow2(left);
    let f = inner_product::<EF>();
    let folded = tables_folded_by(tables, challenge, size);
    lemma2_to64();
    whole_claim_is_round_claim::<F, EF, EF>(parameters, f, tables, left, selectors);
    let first = |x: int| line::<F, EF>(tables[0][x], tables[0][size + x]);
    let second = |x: int| line::<F, EF>(tables[1][x], tables[1][size + x]);
    let along = |x: int| poly_product(first(x), second(x));
    assert(parameters.n_values() == 3);
    assert forall|x: int| 0 <= x < size implies {
        &&& (#[trigger] along(x)).len() == parameters.n_values()
        &&& forall|z: int|
            0 <= z < parameters.n_values() ==> poly_value::<EF, EF>(
                along(x),
                #[trigger] node::<F, EF>(z),
            ) == f(point_at(tables_folded_at::<F, EF>(tables, 1, selectors, z, size), x))
        &&& poly_value::<EF, EF>(along(x), challenge) == f(point_at(folded, x))
    } by {
        line_folds::<F, EF>(tables[0][x], tables[0][size + x], selectors, challenge);
        line_folds::<F, EF>(tables[1][x], tables[1][size + x], selectors, challenge);
        assert forall|z: int| 0 <= z < parameters.n_values() implies poly_value::<EF, EF>(
            along(x),
            #[trigger] node::<F, EF>(z),
        ) == f(point_at(tables_folded_at::<F, EF>(tables, 1, selectors, z, size), x)) by {
            assert(tables[0].len() == 2 * size && tables[1].len() == 2 * size);
            value_of_poly_product(first(x), second(x), node::<F, EF>(z));
            line_gives_folded_value::<F, EF>(tables[0], selectors, z, size, x);
            line_gives_folded_value::<F, EF>(tables[1], selectors, z, size, x);
        }
        value_of_poly_product(first(x), second(x), challenge);
        line_at_challenge::<F, EF>(tables[0], selectors, challenge, size, x);
        line_at_challenge::<F, EF>(tables[1], selectors, challenge, size, x);
    }
    true_claim_survives_round::<F, EF, EF>(
        coeffs,
        parameters,
        f,
        tables,
        size,
        selectors,
        f,
        folded,
        challenge,
        along,
    );
}

/// A polynomial of degree one gives the value that folding at a challenge leaves.
proof fn line_at_challenge<F: Field, EF: ExtensionField<F>>(
    evals: Seq<EF>,
    selectors: Seq<DensePolynomial<F>>,
    challenge: EF,
    size: nat,
    x: int,
)
    requires
        evals.len() == 2 * size,
        0 <= x < size,
    ensures
        poly_value::<EF, EF>(
            line::<F, EF>(evals[x], evals[size + x]),
            challenge,
        ) == first_variables_folded::<EF, EF>(
            evals,
            seq![EF::spec_one().spec_sub(challenge), challenge],
            size,
        )[x],
{
    let scalars = seq![EF::spec_one().spec_sub(challenge), challenge];
    let values = seq![evals[x], evals[size + x]];
    line_folds::<F, EF>(evals[x], evals[size + x], selectors, challenge);
    let term = |j: int| domain_weights::<F, EF>(1, selectors, challenge)[j].spec_mul(values[j]);
    let folded = |j: int|
        scalars[j].spec_mul(<EF as Algebra<EF>>::spec_embed(evals[j * size + x]));
    assert forall|j: int| 0 <= j < 2 implies #[trigger] term(j) == folded(j) by {
        assert(j == 0 || j == 1);
        assert(evals[j * size + x] == values[j]);
    }
    sum_congruent(2, term, folded);
}

/// The opening that the inner sumcheck ends in is true of the committed polynomial: the
/// polynomial that holds the columns one after another takes the value at the point.
pub proof fn opening_is_true<F: Field, EF: ExtensionField<F>>(
    witness: Seq<EvaluationsList<F>>,
    columns_batching_scalars: Seq<EF>,
    inner_challenges: Seq<EF>,
    statement: OpeningStatement<EF>,
)
    requires
        witness.len() <= pow2(columns_batching_scalars.len()),
        all_have_variables(witness, inner_challenges.len()),
        statement.point@ == columns_batching_scalars + inner_challenges,
        statement.value == reduced(
            successively_folded(
                combination::<F, EF>(
                    witness,
                    leading_weights(columns_batching_scalars, witness.len()),
                    pow2(inner_challenges.len()),
                ),
                inner_challenges,
            )[0],
        ),
    ensures
        statement.value == multilinear_value::<F, EF>(
            packed_values(
                witness,
                pow2(inner_challenges.len()) as int,
                pow2(columns_batching_scalars.len() + inner_challenges.len()),
            ),
            statement.point@,
        ),
{
    let scalars = leading_weights(columns_batching_scalars, witness.len());
    let batched = combination::<F, EF>(witness, scalars, pow2(inner_challenges.len()));
    assert forall|x: int| 0 <= x < batched.len() implies (#[trigger] batched[x]).canonical() by {
        sum_is_canonical(
            witness.len(),
            |k: int| scalars[k].spec_mul(EF::spec_embed(witness[k]@[x])),
        );
    }
    folding_each_variable_evaluates(batched, inner_challenges);
    packed_opening_is_batched_value::<F, EF>(witness, columns_batching_scalars, inner_challenges);
    multilinear_value_is_canonical::<EF, EF>(batched, inner_challenges);
    reduction(multilinear_value::<EF, EF>(batched, inner_challenges));
}

} // verus!
