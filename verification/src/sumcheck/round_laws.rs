//! The equality factor of a round and its weights.

use vstd::arithmetic::power2::*;
use vstd::prelude::*;

use super::round::{
    are_round_selectors, domain_weights, is_eq_polynomial, RoundParameters,
};
use crate::dense::{
    is_unit, poly_multiple, poly_sum, poly_value, poly_value_is_canonical, value_of_poly_multiple,
    value_of_poly_sum, DensePolynomial,
};
use crate::dense_laws::{minus_one_negates, values_at_nodes_determine};
use crate::field::{inverse_of, reduced, reduction, Algebra, Field, Ring};
use crate::multilinear::embedded;
use crate::selectors::indicator;
use crate::sums::{add_interchange, sum_congruent, sum_of_one_term, sum_to};

verus! {

/// The integer `i` as an element of `EF`.
pub open spec fn node<F: Field, EF: Algebra<F>>(i: int) -> EF {
    <EF as Algebra<F>>::spec_embed(F::spec_from_nat(i as nat))
}

/// Whether any two integers below `n` differ by an element with an inverse.
pub open spec fn integers_differ_by_units<F: Field>(n: int) -> bool {
    forall|i: int, j: int|
        #![trigger F::spec_from_nat(i as nat), F::spec_from_nat(j as nat)]
        0 <= i < n && 0 <= j < n && i != j ==> is_unit(
            F::spec_from_nat(i as nat).spec_sub(F::spec_from_nat(j as nat)),
        )
}

/// Reducing a factor does not change a product.
pub(crate) proof fn product_with_reduced<F: Ring>(a: F, b: F)
    ensures
        a.spec_mul(reduced(b)) == a.spec_mul(b),
        reduced(a).spec_mul(b) == a.spec_mul(b),
{
    let one = F::spec_one();
    reduction(a);
    reduction(b);
    F::results_are_canonical(a, b);
    F::one_is_neutral(a.spec_mul(b));
    F::mul_is_associative(one, a, b);
    F::mul_is_commutative(a, reduced(b));
    F::mul_is_associative(one, b, a);
    F::results_are_canonical(b, a);
    F::one_is_neutral(b.spec_mul(a));
    F::mul_is_commutative(a, b);
}

/// The inverse of an element that has one.
pub(crate) proof fn inverse_of_unit<F: Ring>(a: F)
    requires
        is_unit(a),
    ensures
        a.spec_mul(inverse_of(a)) == F::spec_one(),
{
    let b = choose|b: F| #[trigger] a.spec_mul(b) == F::spec_one();
    reduction(b);
    product_with_reduced(a, b);
    let c = reduced(b);
    assert(c.canonical() && a.spec_mul(c) == F::spec_one());
}

/// The copies of the values of a polynomial are the values at the copies.
pub proof fn value_embeds<F: Ring, EF: Algebra<F>>(coeffs: Seq<F>, x: F)
    ensures
        poly_value::<F, EF>(coeffs, EF::spec_embed(x)) == EF::spec_embed(
            poly_value::<F, F>(coeffs, x),
        ),
    decreases coeffs.len(),
{
    EF::embed_is_homomorphism(F::spec_zero(), F::spec_zero());
    if coeffs.len() > 0 {
        let rest = coeffs.drop_first();
        value_embeds::<F, EF>(rest, x);
        let v = poly_value::<F, F>(rest, x);
        EF::embed_is_homomorphism(x, v);
        EF::embed_is_homomorphism(coeffs[0], x.spec_mul(v));
    }
}

/// The polynomial with the copies of the coefficients has the same values.
proof fn value_of_embedded<F: Ring, EF: Algebra<F>>(coeffs: Seq<F>, x: EF)
    ensures
        poly_value::<EF, EF>(embedded::<F, EF>(coeffs), x) == poly_value::<F, EF>(coeffs, x),
    decreases coeffs.len(),
{
    if coeffs.len() > 0 {
        value_of_embedded::<F, EF>(coeffs.drop_first(), x);
        assert(embedded::<F, EF>(coeffs).drop_first() =~= embedded::<F, EF>(coeffs.drop_first()));
    }
}

/// At an integer of the domain, the weights select it.
pub proof fn weights_select<F: Field, EF: Algebra<F>>(
    skips: usize,
    selectors: Seq<DensePolynomial<F>>,
    i: int,
    j: int,
)
    requires
        are_round_selectors(selectors, skips),
        0 <= i < pow2(skips as nat),
        0 <= j < pow2(skips as nat),
    ensures
        domain_weights::<F, EF>(skips, selectors, node::<F, EF>(j))[i] == indicator::<EF>(i, j),
{
    let (zero, one) = (EF::spec_zero(), EF::spec_one());
    EF::embed_is_homomorphism(F::spec_zero(), F::spec_one());
    F::from_nat_counts_ones(0);
    if skips == 1 {
        lemma2_to64();
        EF::results_are_canonical(one, zero);
        EF::sub_is_add_of_neg(one, one);
        EF::neg_cancels(one);
        EF::sub_is_add_of_neg(one, zero);
        EF::neg_cancels(zero);
        EF::results_are_canonical(zero, zero);
        EF::zero_is_neutral(zero.spec_neg());
        EF::zero_is_neutral(one);
        EF::add_is_commutative(one, zero);
    } else {
        value_embeds::<F, EF>(selectors[i].coeffs@, F::spec_from_nat(j as nat));
        assert(poly_value::<F, F>(selectors[i].coeffs@, F::spec_from_nat(j as nat))
            == indicator::<F>(i, j));
    }
}

/// The coefficients of the `i`-th weight as a polynomial.
spec fn weight_coeffs<F: Field, EF: Field + Algebra<F>>(
    skips: usize,
    selectors: Seq<DensePolynomial<F>>,
    i: int,
) -> Seq<EF> {
    if skips == 1 {
        if i == 0 {
            seq![EF::spec_one(), EF::spec_one().spec_neg()]
        } else {
            seq![EF::spec_zero(), EF::spec_one()]
        }
    } else {
        embedded::<F, EF>(selectors[i].coeffs@)
    }
}

proof fn weight_coeffs_give_weight<F: Field, EF: Field + Algebra<F>>(
    skips: usize,
    selectors: Seq<DensePolynomial<F>>,
    i: int,
    x: EF,
)
    requires
        are_round_selectors(selectors, skips),
        0 <= i < pow2(skips as nat),
    ensures
        weight_coeffs::<F, EF>(skips, selectors, i).len() == pow2(skips as nat),
        poly_value::<EF, EF>(weight_coeffs::<F, EF>(skips, selectors, i), x) == reduced(
            domain_weights::<F, EF>(skips, selectors, x)[i],
        ),
{
    let (zero, one) = (EF::spec_zero(), EF::spec_one());
    if skips == 1 {
        lemma2_to64();
        let c = weight_coeffs::<F, EF>(skips, selectors, i);
        let lead = c[1];
        assert(c.drop_first() =~= seq![lead]);
        assert(c.drop_first().drop_first() =~= Seq::empty());
        reveal_with_fuel(poly_value, 3);
        EF::mul_by_zero(x);
        EF::results_are_canonical(one, one);
        EF::results_are_canonical(one, x);
        EF::zero_is_neutral(lead);
        EF::add_is_commutative(lead, zero);
        EF::mul_is_commutative(x, lead);
        reduction(x);
        if i == 0 {
            // 1 + (-1) x == 1 - x
            EF::results_are_canonical(one, x);
            minus_one_negates(reduced(x));
            product_with_reduced(one.spec_neg(), x);
            EF::sub_is_add_of_neg(one, x);
            negation_of_reduced(x);
            reduction(one.spec_sub(x));
        } else {
            EF::zero_is_neutral(one.spec_mul(x));
        }
    } else {
        value_of_embedded::<F, EF>(selectors[i].coeffs@, x);
        poly_value_is_canonical::<F, EF>(selectors[i].coeffs@, x);
        reduction(poly_value::<F, EF>(selectors[i].coeffs@, x));
    }
}

/// Reducing an element does not change its negation.
proof fn negation_of_reduced<F: Ring>(a: F)
    ensures
        reduced(a).spec_neg() == a.spec_neg(),
{
    let zero = F::spec_zero();
    let (n, m) = (a.spec_neg(), reduced(a).spec_neg());
    F::results_are_canonical(a, a);
    F::results_are_canonical(reduced(a), a);
    // reduced(a) + n == 0
    F::neg_cancels(a);
    F::add_is_associative(zero, a, n);
    F::results_are_canonical(zero, zero);
    F::zero_is_neutral(zero);
    // m == m + (reduced(a) + n) == n
    F::neg_cancels(reduced(a));
    F::add_is_commutative(reduced(a), m);
    F::add_is_associative(m, reduced(a), n);
    F::zero_is_neutral(n);
    F::zero_is_neutral(m);
    F::add_is_commutative(m, zero);
}

/// The coefficients of the sum of the first `n` polynomials of `len` coefficients, each
/// multiplied by its scalar.
pub(crate) open spec fn mixed_coeffs<EF: Ring>(
    len: nat,
    polys: spec_fn(int) -> Seq<EF>,
    scalars: spec_fn(int) -> EF,
    n: nat,
) -> Seq<EF>
    decreases n,
{
    if n == 0 {
        Seq::new(len, |k: int| EF::spec_zero())
    } else {
        poly_sum(
            mixed_coeffs(len, polys, scalars, (n - 1) as nat),
            poly_multiple(scalars(n - 1), polys(n - 1)),
        )
    }
}

pub(crate) proof fn value_of_mixed<EF: Ring>(
    len: nat,
    polys: spec_fn(int) -> Seq<EF>,
    scalars: spec_fn(int) -> EF,
    n: nat,
    x: EF,
)
    requires
        forall|i: int| 0 <= i < n ==> (#[trigger] polys(i)).len() == len,
    ensures
        mixed_coeffs(len, polys, scalars, n).len() == len,
        poly_value::<EF, EF>(mixed_coeffs(len, polys, scalars, n), x) == sum_to(
            n,
            |i: int| scalars(i).spec_mul(poly_value::<EF, EF>(polys(i), x)),
        ),
    decreases n,
{
    if n == 0 {
        crate::dense::value_of_zeros(len, x);
    } else {
        let m = (n - 1) as nat;
        let before = mixed_coeffs(len, polys, scalars, m);
        assert(polys(n - 1).len() == len);
        value_of_mixed(len, polys, scalars, m, x);
        value_of_poly_sum(before, poly_multiple(scalars(n - 1), polys(n - 1)), x);
        value_of_poly_multiple(scalars(n - 1), polys(n - 1), x);
    }
}

/// The weights as polynomials, each multiplied by a scalar, take the sum of the weights
/// multiplied by the scalars.
pub(crate) proof fn value_of_mixed_weights<F: Field, EF: Field + Algebra<F>>(
    skips: usize,
    selectors: Seq<DensePolynomial<F>>,
    scalars: Seq<EF>,
    x: EF,
)
    requires
        are_round_selectors(selectors, skips),
    ensures
        mixed_weights::<F, EF>(skips, selectors, scalars).len() == pow2(skips as nat),
        poly_value::<EF, EF>(mixed_weights::<F, EF>(skips, selectors, scalars), x) == sum_to(
            pow2(skips as nat),
            |i: int| scalars[i].spec_mul(domain_weights::<F, EF>(skips, selectors, x)[i]),
        ),
{
    let n = pow2(skips as nat);
    let weights = domain_weights::<F, EF>(skips, selectors, x);
    let polys = |i: int| weight_coeffs::<F, EF>(skips, selectors, i);
    let factors = |i: int| scalars[i];
    assert forall|i: int| 0 <= i < n implies (#[trigger] polys(i)).len() == n by {
        weight_coeffs_give_weight::<F, EF>(skips, selectors, i, x);
    }
    value_of_mixed(n, polys, factors, n, x);
    let f = |i: int| factors(i).spec_mul(poly_value::<EF, EF>(polys(i), x));
    let g = |i: int| scalars[i].spec_mul(weights[i]);
    assert forall|i: int| 0 <= i < n implies #[trigger] f(i) == g(i) by {
        weight_coeffs_give_weight::<F, EF>(skips, selectors, i, x);
        product_with_reduced(scalars[i], weights[i]);
    }
    sum_congruent(n, f, g);
}

pub(crate) closed spec fn mixed_weights<F: Field, EF: Field + Algebra<F>>(
    skips: usize,
    selectors: Seq<DensePolynomial<F>>,
    scalars: Seq<EF>,
) -> Seq<EF> {
    mixed_coeffs(
        pow2(skips as nat),
        |i: int| weight_coeffs::<F, EF>(skips, selectors, i),
        |i: int| scalars[i],
        pow2(skips as nat),
    )
}

/// The coefficients of the polynomial of degree one with the given values at zero and one.
pub closed spec fn line<F: Field, EF: Field + Algebra<F>>(at_zero: EF, at_one: EF) -> Seq<EF> {
    mixed_weights::<F, EF>(1, Seq::empty(), seq![at_zero, at_one])
}

/// A polynomial of degree one takes, at `x`, what folding the two values at `x` gives.
pub proof fn line_folds<F: Field, EF: Field + Algebra<F>>(
    at_zero: EF,
    at_one: EF,
    selectors: Seq<DensePolynomial<F>>,
    x: EF,
)
    ensures
        line::<F, EF>(at_zero, at_one).len() == 2,
        poly_value::<EF, EF>(line::<F, EF>(at_zero, at_one), x) == sum_to(
            2,
            |j: int|
                domain_weights::<F, EF>(1, selectors, x)[j].spec_mul(
                    seq![at_zero, at_one][j],
                ),
        ),
{
    let values = seq![at_zero, at_one];
    let w = domain_weights::<F, EF>(1, selectors, x);
    lemma2_to64();
    value_of_mixed_weights::<F, EF>(1, Seq::empty(), values, x);
    let f = |i: int|
        values[i].spec_mul(domain_weights::<F, EF>(1, Seq::<DensePolynomial<F>>::empty(), x)[i]);
    let g = |j: int| w[j].spec_mul(values[j]);
    assert forall|i: int| 0 <= i < 2 implies #[trigger] f(i) == g(i) by {
        EF::mul_is_commutative(values[i], w[i]);
    }
    sum_congruent(2, f, g);
}

/// The nodes of the integers below `n`.
pub(crate) open spec fn nodes_below<F: Field, EF: Algebra<F>>(n: nat) -> Seq<EF> {
    Seq::new(n, |i: int| node::<F, EF>(i))
}

pub(crate) proof fn nodes_differ_by_units<F: Field, EF: Algebra<F>>(n: nat)
    requires
        integers_differ_by_units::<F>(n as int),
    ensures
        forall|i: int, j: int|
            #![trigger nodes_below::<F, EF>(n)[i], nodes_below::<F, EF>(n)[j]]
            0 <= i < n && 0 <= j < n && i != j ==> is_unit(
                nodes_below::<F, EF>(n)[i].spec_sub(nodes_below::<F, EF>(n)[j]),
            ),
{
    let nodes = nodes_below::<F, EF>(n);
    assert forall|i: int, j: int|
        #![trigger nodes[i], nodes[j]]
        0 <= i < n && 0 <= j < n && i != j implies is_unit(nodes[i].spec_sub(nodes[j])) by {
        let (a, b) = (F::spec_from_nat(i as nat), F::spec_from_nat(j as nat));
        let d = a.spec_sub(b);
        assert(is_unit(d));
        let c = choose|c: F| #[trigger] d.spec_mul(c) == F::spec_one();
        EF::embed_is_homomorphism(a, b);
        EF::embed_is_homomorphism(d, c);
        assert(nodes[i].spec_sub(nodes[j]).spec_mul(EF::spec_embed(c)) == EF::spec_one());
    }
}

/// The equality factor takes the weight of each integer at it.
pub proof fn eq_polynomial_at_integer<F: Field, EF: Field + Algebra<F>>(
    coeffs: Seq<EF>,
    parameters: RoundParameters<'_, EF>,
    selectors: Seq<DensePolynomial<F>>,
    i: int,
)
    requires
        are_round_selectors(selectors, parameters.skips),
        is_eq_polynomial::<F, EF>(coeffs, parameters, selectors),
        0 <= i < parameters.domain(),
    ensures
        coeffs.len() == parameters.domain(),
        poly_value::<EF, EF>(coeffs, node::<F, EF>(i)) == reduced(
            domain_weights::<F, EF>(
                parameters.skips,
                selectors,
                parameters.eq_coordinate(),
            )[i],
        ),
{
    let r = parameters.eq_coordinate();
    if parameters.skips == 1 {
        lemma2_to64();
        let (zero, one) = (EF::spec_zero(), EF::spec_one());
        let (a, b) = (coeffs[0], coeffs[1]);
        assert(coeffs.drop_first() =~= seq![b]);
        assert(coeffs.drop_first().drop_first() =~= Seq::empty());
        reveal_with_fuel(poly_value, 3);
        EF::embed_is_homomorphism(F::spec_zero(), F::spec_one());
        F::from_nat_counts_ones(0);
        EF::mul_by_zero(zero);
        EF::mul_by_zero(one);
        let tail = b.spec_add(zero);
        EF::results_are_canonical(b, zero);
        if i == 0 {
            EF::mul_by_zero(tail);
            EF::mul_is_commutative(zero, tail);
            EF::add_is_commutative(a, zero);
        } else {
            EF::one_is_neutral(tail);
            doubled_minus_one(r);
            EF::results_are_canonical(EF::spec_from_nat(2).spec_mul(r), one);
            EF::zero_is_neutral(b);
            EF::add_is_commutative(b, zero);
        }
    } else {
        assert(poly_value::<EF, EF>(
            coeffs,
            <EF as Algebra<F>>::spec_embed(F::spec_from_nat(i as nat)),
        ) == reduced(domain_weights::<F, EF>(parameters.skips, selectors, r)[i]));
    }
}

/// `(1 - r) + (2 r - 1) == r`.
proof fn doubled_minus_one<EF: Field>(r: EF)
    ensures
        EF::spec_one().spec_sub(r).spec_add(
            EF::spec_from_nat(2).spec_mul(r).spec_sub(EF::spec_one()),
        ) == reduced(r),
{
    let (zero, one) = (EF::spec_zero(), EF::spec_one());
    let two = EF::spec_from_nat(2);
    let s = reduced(r);
    let t = two.spec_mul(r);
    let (minus_r, minus_one) = (r.spec_neg(), one.spec_neg());
    EF::from_nat_counts_ones(1);
    assert(two == one.spec_add(one));
    reduction(r);
    // 2 r == s + s
    EF::mul_is_commutative(two, r);
    EF::mul_distributes_over_add(r, one, one);
    assert(t == s.spec_add(s));
    EF::sub_is_add_of_neg(one, r);
    EF::sub_is_add_of_neg(t, one);
    // (1 + -r) + (t + -1) == (1 + -1) + (-r + t)
    EF::add_is_commutative(t, minus_one);
    add_interchange(one, minus_r, minus_one, t);
    EF::neg_cancels(one);
    // -r + (s + s) == s
    EF::add_is_associative(minus_r, s, s);
    EF::add_is_commutative(minus_r, s);
    EF::add_is_associative(zero, r, minus_r);
    EF::neg_cancels(r);
    EF::results_are_canonical(zero, zero);
    EF::zero_is_neutral(zero);
    EF::zero_is_neutral(s);
}

/// The equality factor at any `x` is the sum of the products of the weights at the round's
/// coordinate and at `x`.
pub proof fn eq_polynomial_value<F: Field, EF: Field + Algebra<F>>(
    coeffs: Seq<EF>,
    parameters: RoundParameters<'_, EF>,
    selectors: Seq<DensePolynomial<F>>,
    x: EF,
)
    requires
        are_round_selectors(selectors, parameters.skips),
        is_eq_polynomial::<F, EF>(coeffs, parameters, selectors),
        integers_differ_by_units::<F>(parameters.domain() as int),
    ensures
        poly_value::<EF, EF>(coeffs, x) == sum_to(
            parameters.domain(),
            |i: int|
                domain_weights::<F, EF>(
                    parameters.skips,
                    selectors,
                    parameters.eq_coordinate(),
                )[i].spec_mul(domain_weights::<F, EF>(parameters.skips, selectors, x)[i]),
        ),
{
    let n = parameters.domain();
    let skips = parameters.skips;
    let scalars = domain_weights::<F, EF>(skips, selectors, parameters.eq_coordinate());
    let combined = mixed_weights::<F, EF>(skips, selectors, scalars);
    let nodes = nodes_below::<F, EF>(n);
    lemma_pow2_pos(skips as nat);
    nodes_differ_by_units::<F, EF>(n);
    eq_polynomial_at_integer::<F, EF>(coeffs, parameters, selectors, 0);
    value_of_mixed_weights::<F, EF>(skips, selectors, scalars, x);
    assert forall|j: int| 0 <= j < nodes.len() implies poly_value::<EF, EF>(
        coeffs,
        #[trigger] nodes[j],
    ) == poly_value::<EF, EF>(combined, nodes[j]) by {
        eq_polynomial_at_integer::<F, EF>(coeffs, parameters, selectors, j);
        value_of_mixed_weights::<F, EF>(skips, selectors, scalars, nodes[j]);
        let term = |i: int|
            scalars[i].spec_mul(domain_weights::<F, EF>(skips, selectors, nodes[j])[i]);
        assert forall|i: int| 0 <= i < n && i != j implies #[trigger] term(i)
            == EF::spec_zero() by {
            weights_select::<F, EF>(skips, selectors, i, j);
            EF::mul_by_zero(scalars[i]);
        }
        weights_select::<F, EF>(skips, selectors, j, j);
        reduction(scalars[j]);
        assert(term(j) == reduced(scalars[j]));
        sum_of_one_term(n, j, term);
    }
    values_at_nodes_determine(coeffs, combined, nodes, x);
}

} // verus!
