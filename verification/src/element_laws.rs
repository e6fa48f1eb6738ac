//! Polynomials, columns and their weights, element by element.

use vstd::arithmetic::div_mod::*;
use vstd::arithmetic::mul::*;
use vstd::arithmetic::power2::*;
use vstd::prelude::*;

use crate::dense::{has_equal_nodes, nodes_of, poly_value, DensePolynomial};
use crate::dense_laws::poly_product;
use crate::evals::{eq_weight, last_variables_fixed, multilinear_value, EvaluationsList};
use crate::field::{
    difference_vanishes, reduced, reduction, vanishes, Algebra, ExtensionField, Field, Ring,
};
use crate::hypercube_programs::main_pair_flat;
use crate::inner_sumcheck::InnerSumcheckCircuit;
use crate::kernel_ir::inputs::KernelInput;
use crate::kernel_ir::layout::ConstraintInputLayout;
use crate::kernel_ir::lowered::lane_of_each;
use crate::kernel_ir::program::{batched, lane_reader};
use crate::multilinear::{
    combination, down_weights, embedded, first_variables_folded, is_folded, packed_values,
    rows_down, rows_up, scaled_values, sum_values, up_weights,
};
use crate::packed::Packed;
use crate::selectors::are_selectors;
use crate::sumcheck::computation::{lanes_at, SumcheckComputation, SumcheckComputationPacked};
use crate::sumcheck::hypercube::{
    weight_at, weights_of, ComputationEvaluator, HypercubeEvaluator, PackedComputationEvaluator,
};
use crate::sums::{sum_congruent, sum_of_one_term, sum_to};
use crate::witness::leading_weights;

verus! {

/// The upper view of a column shows every row but the last, and the one before it instead. The
/// lower view shows the next row, and in the last row the last one once more.
pub proof fn views_show_rows<F>(column: Seq<F>, i: int)
    requires
        column.len() >= 2,
        0 <= i < column.len(),
    ensures
        rows_up(column).len() == column.len(),
        rows_down(column).len() == column.len(),
        i < column.len() - 1 ==> rows_up(column)[i] == column[i],
        i < column.len() - 1 ==> rows_down(column)[i] == column[i + 1],
        rows_up(column)[column.len() - 1] == column[column.len() - 2],
        rows_down(column)[column.len() - 1] == column[column.len() - 1],
{
}

/// Columns are added and multiplied row by row.
pub proof fn columns_compute_by_row<F: Ring>(a: Seq<F>, b: Seq<F>, scalar: F, i: int)
    requires
        a.len() == b.len(),
        0 <= i < a.len(),
    ensures
        sum_values(a, b).len() == a.len(),
        sum_values(a, b)[i] == a[i].spec_add(b[i]),
        scaled_values(a, scalar).len() == a.len(),
        scaled_values(a, scalar)[i] == a[i].spec_mul(scalar),
{
}

/// A combination of columns starts from zero and adds each column times its scalar.
pub proof fn combination_adds_columns<F: Ring, EF: Algebra<F>>(
    pols: Seq<EvaluationsList<F>>,
    scalars: Seq<EF>,
    pol: EvaluationsList<F>,
    scalar: EF,
    n: nat,
    x: int,
)
    requires
        pols.len() == scalars.len(),
        0 <= x < n,
    ensures
        combination::<F, EF>(pols, scalars, n).len() == n,
        combination::<F, EF>(Seq::empty(), Seq::empty(), n)[x] == EF::spec_zero(),
        combination::<F, EF>(pols.push(pol), scalars.push(scalar), n)[x] == combination::<F, EF>(
            pols,
            scalars,
            n,
        )[x].spec_add(scalar.spec_mul(EF::spec_embed(pol@[x]))),
{
    let longer = |k: int|
        scalars.push(scalar)[k].spec_mul(EF::spec_embed(pols.push(pol)[k]@[x]));
    sum_congruent(
        pols.len(),
        longer,
        |k: int| scalars[k].spec_mul(EF::spec_embed(pols[k]@[x])),
    );
    assert(longer(pols.len() as int) == scalar.spec_mul(EF::spec_embed(pol@[x])));
}

/// Batching starts from zero and adds each value times its scalar.
pub proof fn batching_adds_values<NF: Ring, EF: Algebra<NF>>(
    scalars: Seq<EF>,
    values: Seq<NF>,
    scalar: EF,
    value: NF,
)
    requires
        scalars.len() == values.len(),
    ensures
        batched::<NF, EF>(Seq::empty(), Seq::empty()) == EF::spec_zero(),
        batched::<NF, EF>(scalars.push(scalar), values.push(value)) == batched::<NF, EF>(
            scalars,
            values,
        ).spec_add(scalar.spec_mul(EF::spec_embed(value))),
{
    let longer = |k: int| scalars.push(scalar)[k].spec_mul(EF::spec_embed(values.push(value)[k]));
    sum_congruent(
        scalars.len(),
        longer,
        |k: int| scalars[k].spec_mul(EF::spec_embed(values[k])),
    );
    assert(longer(scalars.len() as int) == scalar.spec_mul(EF::spec_embed(value)));
}

/// The packed polynomial holds the columns one after another, and zeros behind them.
pub proof fn packed_holds_columns<F: Ring>(
    pols: Seq<EvaluationsList<F>>,
    size: nat,
    n: nat,
    k: int,
    i: int,
)
    requires
        0 <= k,
        0 <= i < size,
        k * size + i < n,
    ensures
        packed_values(pols, size as int, n).len() == n,
        k < pols.len() ==> packed_values(pols, size as int, n)[k * size + i] == pols[k]@[i],
        k >= pols.len() ==> packed_values(pols, size as int, n)[k * size + i] == F::spec_zero(),
{
    lemma_mul_nonnegative(k, size as int);
    lemma_fundamental_div_mod_converse(k * size + i, size as int, k, i);
}

/// Folding by a challenge takes the first half times one minus the challenge and the second half
/// times the challenge.
pub proof fn folding_mixes_halves<F: Ring, EF: Algebra<F>>(
    evals: Seq<F>,
    low: EF,
    high: EF,
    size: nat,
    i: int,
)
    requires
        0 <= i < size,
        evals.len() == 2 * size,
    ensures
        first_variables_folded::<F, EF>(evals, seq![low, high], size).len() == size,
        first_variables_folded::<F, EF>(evals, seq![low, high], size)[i] == low.spec_mul(
            EF::spec_embed(evals[i]),
        ).spec_add(high.spec_mul(EF::spec_embed(evals[size + i]))),
{
    let f = |j: int| seq![low, high][j].spec_mul(EF::spec_embed(evals[j * size + i]));
    reveal_with_fuel(sum_to, 3);
    lemma_mul_basics(size as int);
    assert(f(0) == low.spec_mul(EF::spec_embed(evals[i])));
    assert(f(1) == high.spec_mul(EF::spec_embed(evals[size + i])));
    EF::results_are_canonical(low, EF::spec_embed(evals[i]));
    EF::zero_is_neutral(f(0));
    assert(sum_to(2, f) == f(0).spec_add(f(1)));
}

/// Folding starts from zeros and adds each block of the evaluations times its scalar.
pub proof fn folding_adds_blocks<F: Ring, EF: Algebra<F>>(
    evals: Seq<F>,
    scalars: Seq<EF>,
    block: Seq<F>,
    scalar: EF,
    i: int,
)
    requires
        evals.len() == scalars.len() * block.len(),
        0 <= i < block.len(),
    ensures
        first_variables_folded::<F, EF>(Seq::empty(), Seq::empty(), block.len())[i]
            == EF::spec_zero(),
        first_variables_folded::<F, EF>(evals + block, scalars.push(scalar), block.len()).len()
            == block.len(),
        first_variables_folded::<F, EF>(evals + block, scalars.push(scalar), block.len())[i]
            == first_variables_folded::<F, EF>(evals, scalars, block.len())[i].spec_add(
            scalar.spec_mul(EF::spec_embed(block[i])),
        ),
{
    let size = block.len();
    let longer = |j: int|
        scalars.push(scalar)[j].spec_mul(EF::spec_embed((evals + block)[j * size + i]));
    let shorter = |j: int| scalars[j].spec_mul(EF::spec_embed(evals[j * size + i]));
    assert forall|j: int| 0 <= j < scalars.len() implies #[trigger] longer(j) == shorter(j) by {
        lemma_mul_nonnegative(j, size as int);
        lemma_mul_inequality(j + 1, scalars.len() as int, size as int);
        lemma_mul_is_distributive_add_other_way(size as int, j, 1);
        lemma_mul_basics(size as int);
    }
    sum_congruent(scalars.len(), longer, shorter);
    assert(longer(scalars.len() as int) == scalar.spec_mul(EF::spec_embed(block[i])));
}

/// A folded list has at each index the sum, over the blocks of the list, of a scalar times the
/// element of its block at the index.
pub proof fn folded_list_sums_blocks<F: Ring, EF: Algebra<F>>(
    folded: EvaluationsList<EF>,
    poly: EvaluationsList<F>,
    scalars: Seq<EF>,
    i: int,
)
    requires
        is_folded::<F, EF>(folded, poly, scalars),
        0 <= i < folded@.len(),
    ensures
        folded@.len() * scalars.len() == poly@.len(),
        folded@[i] == sum_to(
            scalars.len(),
            |j: int| scalars[j].spec_mul(EF::spec_embed(poly@[j * folded@.len() + i])),
        ),
{
}

/// Fixing the last variables takes each block of evaluations to its value at the point.
pub proof fn fixed_list_has_values_of_blocks<F: Ring, EF: Algebra<F>>(
    evals: Seq<F>,
    point: Seq<EF>,
    n_left: nat,
    block: Seq<F>,
    a: int,
)
    requires
        evals.len() == n_left * pow2(point.len()),
        0 <= a < n_left,
        block.len() == pow2(point.len()),
        forall|i: int|
            0 <= i < block.len() ==> #[trigger] block[i] == evals[a * pow2(point.len()) + i],
    ensures
        last_variables_fixed::<F, EF>(evals, point, n_left).len() == n_left,
        last_variables_fixed::<F, EF>(evals, point, n_left)[a] == multilinear_value::<F, EF>(
            block,
            point,
        ),
{
    let size = pow2(point.len()) as int;
    lemma_mul_nonnegative(a, size);
    lemma_mul_is_distributive_add_other_way(size, a, 1);
    lemma_mul_basics(size);
    lemma_mul_inequality(a + 1, n_left as int, size);
    assert(evals.subrange(a * size, (a + 1) * size) =~= block);
}

/// Copies of scalars and equality weights, one by one.
pub proof fn weights_by_index<F: Ring, EF: Algebra<F>>(
    scalars: Seq<F>,
    point: Seq<EF>,
    n: nat,
    j: int,
)
    requires
        0 <= j,
    ensures
        embedded::<F, EF>(scalars).len() == scalars.len(),
        j < scalars.len() ==> embedded::<F, EF>(scalars)[j] == EF::spec_embed(scalars[j]),
        leading_weights(point, n).len() == n,
        j < n ==> leading_weights(point, n)[j] == eq_weight(point, j),
{
}

/// A packed input is read lane by lane.
pub proof fn lanes_are_read_alone<F, const W: usize>(
    read: spec_fn(KernelInput) -> Packed<F, W>,
    flat: Seq<Packed<F, W>>,
    input: KernelInput,
    k: int,
    l: int,
)
    requires
        0 <= k < flat.len(),
    ensures
        lane_reader(read, l)(input) == read(input).lane(l),
        lane_of_each(flat, l).len() == flat.len(),
        lane_of_each(flat, l)[k] == flat[k].lane(l),
        lanes_at(flat, l).len() == flat.len(),
        lanes_at(flat, l)[k] == flat[k].lane(l),
{
}

/// The inner sumcheck multiplies the values of its two polynomials.
pub proof fn circuit_multiplies<NF: Field, EF: ExtensionField<NF>>(
    point: Seq<NF>,
    scalars: Seq<EF>,
    circuit: InnerSumcheckCircuit,
)
    requires
        point.len() == 2,
    ensures
        <InnerSumcheckCircuit as SumcheckComputation<NF, EF>>::value(&circuit, point, scalars)
            == <EF as Algebra<NF>>::spec_embed(point[0].spec_mul(point[1])),
{
}

/// The weights of a sum are the evaluations that are given for them.
pub proof fn weights_are_evaluations<EF>(eq_mle: EvaluationsList<EF>, x: int)
    ensures
        weights_of(None::<&EvaluationsList<EF>>) is None,
        weight_at(weights_of(None::<&EvaluationsList<EF>>), x) is None,
        weight_at(weights_of(Some(&eq_mle)), x) == Some(eq_mle@[x]),
{
}

/// An evaluator of a computation has at each point the value of the computation.
pub proof fn evaluator_has_value_of_computation<
    F: Field,
    EF: ExtensionField<F>,
    SC: SumcheckComputation<EF, EF>,
    PC: SumcheckComputationPacked<F, EF>,
    const W: usize,
>(
    evaluator: ComputationEvaluator<'_, SC>,
    packed: PackedComputationEvaluator<'_, PC, W>,
    wide: Seq<EF>,
    point: Seq<F>,
    scalars: Seq<EF>,
)
    ensures
        <ComputationEvaluator<'_, SC> as HypercubeEvaluator<EF, EF>>::point_value(
            &evaluator,
            wide,
            scalars,
        ) == evaluator.computation.value(wide, scalars),
        <PackedComputationEvaluator<'_, PC, W> as HypercubeEvaluator<F, EF>>::point_value(
            &packed,
            point,
            scalars,
        ) == packed.computation.value(point, scalars),
{
}

/// The weight of no coordinates is one, and a further coordinate `r` multiplies it by `1 - r` at
/// an even index and by `r` at an odd one.
pub proof fn weight_multiplies_up<F: Ring>(point: Seq<F>, r: F, i: int)
    requires
        0 <= i,
    ensures
        eq_weight(Seq::<F>::empty(), 0) == F::spec_one(),
        eq_weight(point.push(r), 2 * i) == eq_weight(point, i).spec_mul(
            F::spec_one().spec_sub(r),
        ),
        eq_weight(point.push(r), 2 * i + 1) == eq_weight(point, i).spec_mul(r),
{
    assert(point.push(r).drop_last() =~= point);
    assert((2 * i) / 2 == i && (2 * i) % 2 == 0);
    assert((2 * i + 1) / 2 == i && (2 * i + 1) % 2 == 1);
}

/// Whether a point is the vertex of the hypercube with index `i`, whose highest bit comes first.
pub open spec fn is_vertex<F: Ring>(point: Seq<F>, i: int) -> bool {
    &&& 0 <= i < pow2(point.len())
    &&& forall|k: int|
        0 <= k < point.len() ==> #[trigger] point[k] == if (i / (pow2(
            (point.len() - 1 - k) as nat,
        ) as int)) % 2 == 0 {
            F::spec_zero()
        } else {
            F::spec_one()
        }
}

/// At a vertex, the weight of its own index is one and every other weight is zero.
pub proof fn weight_at_vertex<F: Ring>(point: Seq<F>, i: int, j: int)
    requires
        is_vertex(point, i),
        0 <= j < pow2(point.len()),
    ensures
        eq_weight(point, j) == if i == j {
            F::spec_one()
        } else {
            F::spec_zero()
        },
    decreases point.len(),
{
    lemma2_to64();
    let (zero, one) = (F::spec_zero(), F::spec_one());
    F::results_are_canonical(zero, one);
    if point.len() > 0 {
        let n = point.len();
        let shorter = point.drop_last();
        lemma_pow2_unfold(n);
        assert(is_vertex(shorter, i / 2)) by {
            assert forall|k: int| 0 <= k < shorter.len() implies #[trigger] shorter[k] == if (i / 2
                / (pow2((shorter.len() - 1 - k) as nat) as int)) % 2 == 0 {
                zero
            } else {
                one
            } by {
                let m = pow2((shorter.len() - 1 - k) as nat) as int;
                lemma_pow2_pos((shorter.len() - 1 - k) as nat);
                lemma_pow2_unfold((n - 1 - k) as nat);
                lemma_div_denominator(i, 2, m);
                assert(point[k] == shorter[k]);
            }
        }
        weight_at_vertex(shorter, i / 2, j / 2);
        assert(point[n - 1] == point.last());
        assert(i / 1 == i);
        // One minus a bit is the other bit.
        F::sub_is_add_of_neg(one, one);
        F::neg_cancels(one);
        F::sub_is_add_of_neg(one, zero);
        F::neg_cancels(zero);
        F::results_are_canonical(zero, zero);
        F::zero_is_neutral(zero.spec_neg());
        F::zero_is_neutral(one);
        F::add_is_commutative(one, zero);
        F::one_is_neutral(one);
        F::one_is_neutral(zero);
        F::mul_by_zero(zero);
        F::mul_by_zero(one);
        F::mul_is_commutative(zero, one);
        assert(one.spec_sub(one) == zero);
        assert(one.spec_sub(zero) == one);
        assert(i == j <==> i / 2 == j / 2 && i % 2 == j % 2);
    }
}

/// The polynomial with given evaluations has evaluation `i` at the vertex with index `i`.
pub proof fn value_at_vertex<F: Ring, EF: Algebra<F>>(evals: Seq<F>, point: Seq<EF>, i: int)
    requires
        is_vertex(point, i),
    ensures
        multilinear_value::<F, EF>(evals, point) == reduced(EF::spec_embed(evals[i])),
{
    let f = |j: int| eq_weight(point, j).spec_mul(EF::spec_embed(evals[j]));
    assert forall|j: int| 0 <= j < pow2(point.len()) && j != i implies #[trigger] f(j)
        == EF::spec_zero() by {
        weight_at_vertex(point, i, j);
        EF::mul_is_commutative(EF::spec_zero(), EF::spec_embed(evals[j]));
        EF::mul_by_zero(EF::spec_embed(evals[j]));
    }
    weight_at_vertex(point, i, i);
    reduction(EF::spec_embed(evals[i]));
    sum_of_one_term(pow2(point.len()), i, f);
}

/// The weights of the upper view: a row has the equality weight of its index, the row before the
/// last also that of the last, and the last row has none.
pub proof fn upper_weights_by_row<F: Ring>(point: Seq<F>, y: int)
    requires
        point.len() > 0,
        0 <= y < pow2(point.len()),
    ensures
        up_weights(point).len() == pow2(point.len()),
        y < pow2(point.len()) - 2 ==> up_weights(point)[y] == eq_weight(point, y),
        up_weights(point)[pow2(point.len()) - 2] == eq_weight(
            point,
            pow2(point.len()) - 2,
        ).spec_add(eq_weight(point, pow2(point.len()) - 1)),
        up_weights(point)[pow2(point.len()) - 1] == F::spec_zero(),
{
    lemma_pow2_unfold(point.len());
    lemma_pow2_pos((point.len() - 1) as nat);
}

/// The weights of the lower view: a row has the equality weight of the index before it, the last
/// row also its own, and the first row has none.
pub proof fn lower_weights_by_row<F: Ring>(point: Seq<F>, y: int)
    requires
        point.len() > 0,
        0 <= y < pow2(point.len()),
    ensures
        down_weights(point).len() == pow2(point.len()),
        down_weights(point)[0] == F::spec_zero(),
        0 < y < pow2(point.len()) - 1 ==> down_weights(point)[y] == eq_weight(point, y - 1),
        down_weights(point)[pow2(point.len()) - 1] == eq_weight(
            point,
            pow2(point.len()) - 2,
        ).spec_add(eq_weight(point, pow2(point.len()) - 1)),
{
    lemma_pow2_unfold(point.len());
    lemma_pow2_pos((point.len() - 1) as nat);
}

/// A selector is one at its own integer and zero at the others below the number of selectors.
pub proof fn selector_selects<F: Field>(
    selectors: Seq<DensePolynomial<F>>,
    n: nat,
    i: int,
    j: int,
)
    requires
        are_selectors(selectors, n),
        0 <= i < n,
        0 <= j < n,
    ensures
        selectors.len() == n,
        selectors[i].coeffs@.len() == n,
        i == j ==> poly_value::<F, F>(selectors[i].coeffs@, F::spec_from_nat(j as nat))
            == F::spec_one(),
        i != j ==> poly_value::<F, F>(selectors[i].coeffs@, F::spec_from_nat(j as nat))
            == F::spec_zero(),
{
}

/// Interpolation fails exactly where two nodes are equal.
pub proof fn nodes_that_meet<S: Ring, F>(values: Seq<(S, F)>)
    ensures
        has_equal_nodes(nodes_of(values)) <==> exists|i: int, j: int|
            #![trigger values[i], values[j]]
            0 <= i < j < values.len() && vanishes(values[i].0.spec_sub(values[j].0)),
{
    let nodes = nodes_of(values);
    if has_equal_nodes(nodes) {
        let (i, j) = choose|i: int, j: int|
            #![trigger nodes[i], nodes[j]]
            0 <= i < nodes.len() && 0 <= j < nodes.len() && i != j && vanishes(
                nodes[i].spec_sub(nodes[j]),
            );
        assert(values[i].0 == nodes[i] && values[j].0 == nodes[j]);
        if i > j {
            vanishing_is_symmetric(nodes[i], nodes[j]);
        }
    }
    if exists|i: int, j: int|
        #![trigger values[i], values[j]]
        0 <= i < j < values.len() && vanishes(values[i].0.spec_sub(values[j].0)) {
        let (i, j) = choose|i: int, j: int|
            #![trigger values[i], values[j]]
            0 <= i < j < values.len() && vanishes(values[i].0.spec_sub(values[j].0));
        assert(values[i].0 == nodes[i] && values[j].0 == nodes[j]);
    }
}

/// If `a - b` is zero, so is `b - a`.
proof fn vanishing_is_symmetric<S: Ring>(a: S, b: S)
    requires
        vanishes(a.spec_sub(b)),
    ensures
        vanishes(b.spec_sub(a)),
{
    difference_vanishes(a, b);
    difference_vanishes(b, a);
}

/// The polynomial without coefficients is zero, and a polynomial is its constant coefficient plus
/// the variable times the polynomial of the other coefficients.
pub proof fn polynomial_by_coefficient<F: Ring, R: Algebra<F>>(first: F, rest: Seq<F>, x: R)
    ensures
        poly_value::<F, R>(Seq::empty(), x) == R::spec_zero(),
        poly_value::<F, R>(seq![first] + rest, x) == R::spec_embed(first).spec_add(
            x.spec_mul(poly_value::<F, R>(rest, x)),
        ),
{
    assert((seq![first] + rest).drop_first() =~= rest);
}

/// The product of two polynomials has one coefficient fewer than both together.
pub proof fn product_has_length<F: Ring>(a: Seq<F>, b: Seq<F>)
    requires
        a.len() > 0,
        b.len() > 0,
    ensures
        poly_product(a, b).len() == a.len() + b.len() - 1,
{
}

/// The slots of a pair of rows: the local columns that the program reads, the next ones, and three
/// zeros for the selectors.
pub proof fn pair_fills_slots<R: Ring>(layout: ConstraintInputLayout, point: Seq<R>, c: int)
    requires
        point.len() % 2 == 0,
        2 * layout.main_width <= point.len(),
        0 <= c < layout.main_width,
    ensures
        main_pair_flat(layout, point).len() == 2 * layout.main_width + 3,
        main_pair_flat(layout, point)[c] == point[c],
        main_pair_flat(layout, point)[layout.main_width + c] == point[point.len() as int / 2 + c],
        main_pair_flat(layout, point)[2 * layout.main_width] == R::spec_zero(),
        main_pair_flat(layout, point)[2 * layout.main_width + 1] == R::spec_zero(),
        main_pair_flat(layout, point)[2 * layout.main_width + 2] == R::spec_zero(),
{
}

} // verus!
