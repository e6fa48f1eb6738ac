//! Univariate polynomials, held as their coefficients.

use vstd::prelude::*;

use crate::field::{reduced, reduction, vanishes, Algebra, ExtensionField, Field, Ring};
use crate::sums::{sum_congruent, sum_of_one_term, sum_to};

verus! {

/// The value at `x` of the polynomial with the given coefficients, lowest first.
pub open spec fn poly_value<F: Ring, R: Algebra<F>>(coeffs: Seq<F>, x: R) -> R
    decreases coeffs.len(),
{
    if coeffs.len() == 0 {
        R::spec_zero()
    } else {
        R::spec_embed(coeffs[0]).spec_add(x.spec_mul(poly_value(coeffs.drop_first(), x)))
    }
}

/// A value is a reduced element.
pub proof fn poly_value_is_canonical<F: Ring, R: Algebra<F>>(coeffs: Seq<F>, x: R)
    ensures
        poly_value::<F, R>(coeffs, x).canonical(),
{
    R::results_are_canonical(R::spec_zero(), R::spec_zero());
    if coeffs.len() > 0 {
        R::results_are_canonical(
            R::spec_embed(coeffs[0]),
            x.spec_mul(poly_value(coeffs.drop_first(), x)),
        );
    }
}

/// The coefficientwise sum.
pub open spec fn poly_sum<F: Ring>(a: Seq<F>, b: Seq<F>) -> Seq<F> {
    Seq::new(a.len(), |k: int| a[k].spec_add(b[k]))
}

/// The coefficients multiplied by a scalar.
pub open spec fn poly_multiple<F: Ring>(scalar: F, a: Seq<F>) -> Seq<F> {
    Seq::new(a.len(), |k: int| scalar.spec_mul(a[k]))
}

/// The coefficients of the polynomial multiplied by `X`.
pub open spec fn poly_shift<F: Ring>(a: Seq<F>) -> Seq<F> {
    seq![F::spec_zero()] + a
}

/// The coefficients of the polynomial multiplied by `X - root`.
pub open spec fn times_root<F: Ring>(a: Seq<F>, root: F) -> Seq<F> {
    poly_sum(poly_shift(a), poly_multiple(root.spec_neg(), a).push(F::spec_zero()))
}

pub proof fn value_of_poly_sum<F: Ring>(a: Seq<F>, b: Seq<F>, x: F)
    requires
        a.len() == b.len(),
    ensures
        poly_value::<F, F>(poly_sum(a, b), x) == poly_value::<F, F>(a, x).spec_add(
            poly_value::<F, F>(b, x),
        ),
    decreases a.len(),
{
    if a.len() == 0 {
        F::results_are_canonical(F::spec_zero(), F::spec_zero());
        F::zero_is_neutral(F::spec_zero());
    } else {
        let (s, t) = (a.drop_first(), b.drop_first());
        value_of_poly_sum(s, t, x);
        assert(poly_sum(a, b).drop_first() =~= poly_sum(s, t));
        let (u, v) = (poly_value::<F, F>(s, x), poly_value::<F, F>(t, x));
        F::mul_distributes_over_add(x, u, v);
        crate::sums::add_interchange(a[0], b[0], x.spec_mul(u), x.spec_mul(v));
    }
}

pub proof fn value_of_poly_multiple<F: Ring>(scalar: F, a: Seq<F>, x: F)
    ensures
        poly_value::<F, F>(poly_multiple(scalar, a), x) == scalar.spec_mul(
            poly_value::<F, F>(a, x),
        ),
    decreases a.len(),
{
    if a.len() == 0 {
        F::mul_by_zero(scalar);
    } else {
        let s = a.drop_first();
        value_of_poly_multiple(scalar, s, x);
        assert(poly_multiple(scalar, a).drop_first() =~= poly_multiple(scalar, s));
        let u = poly_value::<F, F>(s, x);
        F::mul_distributes_over_add(scalar, a[0], x.spec_mul(u));
        F::mul_is_associative(x, scalar, u);
        F::mul_is_commutative(x, scalar);
        F::mul_is_associative(scalar, x, u);
    }
}

pub proof fn value_of_poly_shift<F: Ring>(a: Seq<F>, x: F)
    ensures
        poly_value::<F, F>(poly_shift(a), x) == x.spec_mul(poly_value::<F, F>(a, x)),
{
    assert(poly_shift(a).drop_first() =~= a);
    F::results_are_canonical(x, poly_value::<F, F>(a, x));
    F::zero_is_neutral(x.spec_mul(poly_value::<F, F>(a, x)));
}

/// A leading zero coefficient does not count.
pub proof fn value_with_leading_zero<F: Ring>(a: Seq<F>, x: F)
    ensures
        poly_value::<F, F>(a.push(F::spec_zero()), x) == poly_value::<F, F>(a, x),
    decreases a.len(),
{
    let longer = a.push(F::spec_zero());
    if a.len() == 0 {
        assert(longer.drop_first() =~= a);
        F::mul_by_zero(x);
        F::results_are_canonical(F::spec_zero(), F::spec_zero());
        F::zero_is_neutral(F::spec_zero());
    } else {
        value_with_leading_zero(a.drop_first(), x);
        assert(longer.drop_first() =~= a.drop_first().push(F::spec_zero()));
    }
}

pub proof fn value_of_times_root<F: Ring>(a: Seq<F>, root: F, x: F)
    ensures
        poly_value::<F, F>(times_root(a, root), x) == x.spec_sub(root).spec_mul(
            poly_value::<F, F>(a, x),
        ),
{
    let v = poly_value::<F, F>(a, x);
    let opposite = poly_multiple(root.spec_neg(), a);
    value_of_poly_sum(poly_shift(a), opposite.push(F::spec_zero()), x);
    value_of_poly_shift(a, x);
    value_with_leading_zero(opposite, x);
    value_of_poly_multiple(root.spec_neg(), a, x);
    F::sub_is_add_of_neg(x, root);
    F::mul_is_commutative(x.spec_add(root.spec_neg()), v);
    F::mul_distributes_over_add(v, x, root.spec_neg());
    F::mul_is_commutative(v, x);
    F::mul_is_commutative(v, root.spec_neg());
}

/// The product of `x - nodes[j]` over the `j < n` other than `i`.
pub open spec fn node_product<F: Ring>(nodes: Seq<F>, i: int, n: nat, x: F) -> F
    decreases n,
{
    if n == 0 {
        F::spec_one()
    } else if n - 1 == i {
        node_product(nodes, i, (n - 1) as nat, x)
    } else {
        node_product(nodes, i, (n - 1) as nat, x).spec_mul(x.spec_sub(nodes[n - 1]))
    }
}

proof fn node_product_at_other_node<F: Ring>(nodes: Seq<F>, i: int, n: nat, k: int)
    requires
        0 <= k < n,
        k != i,
    ensures
        node_product(nodes, i, n, nodes[k]) == F::spec_zero(),
    decreases n,
{
    let x = nodes[k];
    let m = (n - 1) as nat;
    if k == m {
        F::sub_is_add_of_neg(x, x);
        F::neg_cancels(x);
        F::mul_by_zero(node_product(nodes, i, m, x));
    } else {
        node_product_at_other_node(nodes, i, m, k);
        F::mul_by_zero(x.spec_sub(nodes[n - 1]));
        F::mul_is_commutative(F::spec_zero(), x.spec_sub(nodes[n - 1]));
    }
}

proof fn node_product_embeds<S: Ring, F: Algebra<S>>(nodes: Seq<S>, wide: Seq<F>, i: int, n: nat, x: S)
    requires
        forall|j: int| 0 <= j < n ==> #[trigger] wide[j] == F::spec_embed(nodes[j]),
    ensures
        F::spec_embed(node_product(nodes, i, n, x)) == node_product(wide, i, n, F::spec_embed(x)),
    decreases n,
{
    F::embed_is_homomorphism(S::spec_one(), S::spec_one());
    if n > 0 {
        let m = (n - 1) as nat;
        node_product_embeds::<S, F>(nodes, wide, i, m, x);
        assert(wide[n - 1] == F::spec_embed(nodes[n - 1]));
        F::embed_is_homomorphism(x, nodes[n - 1]);
        F::embed_is_homomorphism(node_product(nodes, i, m, x), x.spec_sub(nodes[n - 1]));
    }
}

/// Whether an element has a multiplicative inverse.
pub open spec fn is_unit<F: Ring>(a: F) -> bool {
    exists|b: F| #[trigger] a.spec_mul(b) == F::spec_one()
}

/// The points of interpolation.
pub open spec fn nodes_of<S, F>(values: Seq<(S, F)>) -> Seq<S> {
    Seq::new(values.len(), |i: int| values[i].0)
}

/// Whether some two of the nodes are equal.
pub open spec fn has_equal_nodes<S: Ring>(nodes: Seq<S>) -> bool {
    exists|i: int, j: int|
        #![trigger nodes[i], nodes[j]]
        0 <= i < nodes.len() && 0 <= j < nodes.len() && i != j && vanishes(
            nodes[i].spec_sub(nodes[j]),
        )
}

/// A univariate polynomial: its coefficients, lowest first.
#[derive(Debug, Clone, PartialEq, Eq)]
pub struct DensePolynomial<F> {
    pub coeffs: Vec<F>,
}

impl<F: Field> DensePolynomial<F> {
    /// The polynomial with the given coefficients, lowest first.
    #[must_use]
    pub fn from_coefficients_vec(coeffs: Vec<F>) -> (r: Self)
        ensures
            r.coeffs == coeffs,
    {
        DensePolynomial { coeffs }
    }

    /// The value of the polynomial at `x`.
    #[must_use]
    pub fn evaluate<EF: ExtensionField<F>>(&self, x: EF) -> (r: EF)
        ensures
            r == poly_value::<F, EF>(self.coeffs@, x),
    {
        let mut value = EF::zero();
        let mut k: usize = self.coeffs.len();
        assert(self.coeffs@.skip(k as int) =~= Seq::empty());
        while k > 0
            invariant
                k <= self.coeffs@.len(),
                value == poly_value::<F, EF>(self.coeffs@.skip(k as int), x),
            decreases k,
        {
            k -= 1;
            assert(self.coeffs@.skip(k as int).drop_first() =~= self.coeffs@.skip(k + 1));
            value = EF::embed(self.coeffs[k]).plus(x.times(value));
        }
        assert(self.coeffs@.skip(0) =~= self.coeffs@);
        value
    }
}

/// The product of the inverses of `nodes[i] - nodes[j]` over the other nodes, or `None`
/// if one of them is equal to `nodes[i]`.
fn inverse_node_product<S: Field, F: Field>(values: &[(S, F)], i: usize) -> (r: Option<S>)
    requires
        i < values@.len(),
    ensures
        r is None <==> exists|j: int|
            #![trigger values@[j]]
            0 <= j < values@.len() && j != i && vanishes(
                values@[i as int].0.spec_sub(values@[j].0),
            ),
        r matches Some(scale) ==> node_product(
            nodes_of(values@),
            i as int,
            values@.len(),
            values@[i as int].0,
        ).spec_mul(scale) == S::spec_one() && forall|j: int|
            #![trigger values@[j]]
            0 <= j < values@.len() && j != i ==> is_unit(
                values@[i as int].0.spec_sub(values@[j].0),
            ),
{
    let ghost nodes = nodes_of(values@);
    let x = values[i].0;
    let mut scale = S::one();
    let mut j: usize = 0;
    proof {
        S::results_are_canonical(S::spec_one(), S::spec_one());
        S::one_is_neutral(S::spec_one());
    }
    while j < values.len()
        invariant
            i < values@.len(),
            j <= values@.len(),
            nodes == nodes_of(values@),
            x == values@[i as int].0,
            node_product(nodes, i as int, j as nat, x).spec_mul(scale) == S::spec_one(),
            forall|k: int|
                #![trigger values@[k]]
                0 <= k < j && k != i ==> is_unit(x.spec_sub(values@[k].0)) && !vanishes(
                    x.spec_sub(values@[k].0),
                ),
        decreases values@.len() - j,
    {
        if j != i {
            let difference = x.minus(values[j].0);
            match difference.try_inverse() {
                None => {
                    return None;
                },
                Some(inverse) => {
                    proof {
                        let before = node_product(nodes, i as int, j as nat, x);
                        product_of_inverses(before, scale, difference, inverse);
                        assert(nodes[j as int] == values@[j as int].0);
                    }
                    scale = scale.times(inverse);
                },
            }
        }
        j += 1;
    }
    Some(scale)
}

proof fn product_of_inverses<F: Ring>(a: F, b: F, c: F, d: F)
    requires
        a.spec_mul(b) == F::spec_one(),
        c.spec_mul(d) == F::spec_one(),
    ensures
        a.spec_mul(c).spec_mul(b.spec_mul(d)) == F::spec_one(),
{
    F::mul_is_associative(a, c, b.spec_mul(d));
    F::mul_is_associative(c, b, d);
    F::mul_is_commutative(c, b);
    F::mul_is_associative(b, c, d);
    F::mul_is_associative(a, b, F::spec_one());
    F::results_are_canonical(F::spec_one(), F::spec_one());
    F::one_is_neutral(F::spec_one());
}

/// The coefficients of the polynomial multiplied by `X - root`.
fn multiply_by_root<F: Field>(coeffs: &Vec<F>, root: F) -> (r: Vec<F>)
    requires
        coeffs@.len() < usize::MAX,
    ensures
        r@ == times_root(coeffs@, root),
{
    let opposite = root.negated();
    let n: usize = coeffs.len();
    let mut product: Vec<F> = Vec::with_capacity(n + 1);
    let mut k: usize = 0;
    while k <= n
        invariant
            k <= n + 1,
            n == coeffs@.len() < usize::MAX,
            opposite == root.spec_neg(),
            product@ == times_root(coeffs@, root).take(k as int),
        decreases n + 1 - k,
    {
        let shifted = if k == 0 {
            F::zero()
        } else {
            coeffs[k - 1]
        };
        let scaled = if k == n {
            F::zero()
        } else {
            opposite.times(coeffs[k])
        };
        product.push(shifted.plus(scaled));
        k += 1;
        assert(product@ =~= times_root(coeffs@, root).take(k as int));
    }
    assert(product@ =~= times_root(coeffs@, root));
    product
}

/// What the polynomial that is one value of an interpolation gives at `x`.
spec fn basis_value<S: Ring, F: Algebra<S>>(values: Seq<(S, F)>, wide: Seq<F>, scale: S, i: int, x: F) -> F {
    values[i].1.spec_mul(F::spec_embed(scale)).spec_mul(node_product(wide, i, values.len(), x))
}

/// The polynomial that is `values[i].1` at node `i` and zero at the other nodes.
fn basis_term<S: Field, F: ExtensionField<S>>(
    values: &[(S, F)],
    i: usize,
    scale: S,
    Ghost(wide): Ghost<Seq<F>>,
) -> (r: Vec<F>)
    requires
        i < values@.len(),
        wide.len() == values@.len(),
        forall|j: int| 0 <= j < wide.len() ==> #[trigger] wide[j] == F::spec_embed(values@[j].0),
    ensures
        r@.len() == values@.len(),
        forall|x: F| #[trigger]
            poly_value::<F, F>(r@, x) == basis_value::<S, F>(values@, wide, scale, i as int, x),
{
    let factor = values[i].1.times(F::embed(scale));
    let mut term: Vec<F> = Vec::new();
    term.push(factor);
    let mut j: usize = 0;
    proof {
        F::results_are_canonical(values@[i as int].1, F::spec_embed(scale));
        assert forall|x: F| #[trigger] poly_value::<F, F>(term@, x) == factor.spec_mul(
            node_product(wide, i as int, 0, x),
        ) by {
            assert(term@.drop_first() =~= Seq::empty());
            reveal_with_fuel(poly_value, 2);
            F::mul_by_zero(x);
            reduction(factor);
            F::add_is_commutative(factor, F::spec_zero());
        }
    }
    while j < values.len()
        invariant
            i < values@.len(),
            j <= values@.len(),
            wide.len() == values@.len(),
            forall|j: int|
                0 <= j < wide.len() ==> #[trigger] wide[j] == F::spec_embed(values@[j].0),
            term@.len() == if j <= i {
                j + 1
            } else {
                j as int
            },
            forall|x: F| #[trigger]
                poly_value::<F, F>(term@, x) == factor.spec_mul(
                    node_product(wide, i as int, j as nat, x),
                ),
        decreases values@.len() - j,
    {
        if j != i {
            let root = F::embed(values[j].0);
            let next = multiply_by_root(&term, root);
            proof {
                assert forall|x: F| #[trigger] poly_value::<F, F>(next@, x) == factor.spec_mul(
                    node_product(wide, i as int, (j + 1) as nat, x),
                ) by {
                    let before = node_product(wide, i as int, j as nat, x);
                    assert(poly_value::<F, F>(term@, x) == factor.spec_mul(before));
                    value_of_times_root(term@, root, x);
                    assert(wide[j as int] == root);
                    F::mul_is_commutative(x.spec_sub(root), factor.spec_mul(before));
                    F::mul_is_associative(factor, before, x.spec_sub(root));
                }
            }
            term = next;
        } else {
            assert forall|x: F| #[trigger] poly_value::<F, F>(term@, x) == factor.spec_mul(
                node_product(wide, i as int, (j + 1) as nat, x),
            ) by {}
        }
        j += 1;
    }
    term
}

/// Whether every element is reduced.
pub open spec fn all_canonical<F: Ring>(elements: Seq<F>) -> bool {
    forall|k: int| 0 <= k < elements.len() ==> (#[trigger] elements[k]).canonical()
}

impl<F: Field> DensePolynomial<F> {
    /// The polynomial with as many coefficients as there are nodes that takes each value
    /// at its node, or `None` if two nodes are equal.
    #[must_use]
    pub fn lagrange_interpolation<S: Field>(values: &[(S, F)]) -> (r: Option<Self>) where
        F: ExtensionField<S>,

        ensures
            r is None <==> has_equal_nodes(nodes_of(values@)),
            r matches Some(p) ==> {
                &&& p.coeffs@.len() == values@.len()
                &&& all_canonical(p.coeffs@)
                &&& forall|i: int|
                    0 <= i < values@.len() ==> poly_value::<F, F>(
                        p.coeffs@,
                        F::spec_embed((#[trigger] values@[i]).0),
                    ) == reduced(values@[i].1)
                &&& forall|i: int, j: int|
                    #![trigger values@[i], values@[j]]
                    0 <= i < values@.len() && 0 <= j < values@.len() && i != j ==> is_unit(
                        values@[i].0.spec_sub(values@[j].0),
                    )
            },
    {
        let n: usize = values.len();
        let ghost nodes = nodes_of(values@);
        let ghost wide = Seq::new(values@.len(), |j: int| F::spec_embed(values@[j].0));
        let ghost mut scales: Seq<S> = Seq::empty();
        let mut coeffs: Vec<F> = Vec::with_capacity(n);
        let mut k: usize = 0;
        while k < n
            invariant
                k <= n,
                coeffs@ == Seq::new(k as nat, |k: int| F::spec_zero()),
            decreases n - k,
        {
            coeffs.push(F::zero());
            k += 1;
            assert(coeffs@ =~= Seq::new(k as nat, |k: int| F::spec_zero()));
        }
        proof {
            F::results_are_canonical(F::spec_zero(), F::spec_zero());
            assert forall|x: F| #[trigger] poly_value::<F, F>(coeffs@, x) == sum_to(
                0,
                basis_terms::<S, F>(values@, wide, scales, x),
            ) by {
                value_of_zeros(n as nat, x);
            }
        }
        let mut i: usize = 0;
        while i < n
            invariant
                i <= n == values@.len(),
                nodes == nodes_of(values@),
                wide == Seq::new(values@.len(), |j: int| F::spec_embed(values@[j].0)),
                coeffs@.len() == n,
                all_canonical(coeffs@),
                scales.len() == i,
                forall|a: int|
                    0 <= a < i ==> node_product(nodes, a, n as nat, nodes[a]).spec_mul(
                        #[trigger] scales[a],
                    ) == S::spec_one(),
                forall|a: int, b: int|
                    #![trigger values@[a], values@[b]]
                    0 <= a < i && 0 <= b < n && a != b ==> is_unit(
                        values@[a].0.spec_sub(values@[b].0),
                    ) && !vanishes(values@[a].0.spec_sub(values@[b].0)),
                forall|x: F| #[trigger]
                    poly_value::<F, F>(coeffs@, x) == sum_to(
                        i as nat,
                        basis_terms::<S, F>(values@, wide, scales, x),
                    ),
            decreases n - i,
        {
            let scale = match inverse_node_product(values, i) {
                Some(scale) => scale,
                None => {
                    proof {
                        let j = choose|j: int|
                            #![trigger values@[j]]
                            0 <= j < values@.len() && j != i && vanishes(
                                values@[i as int].0.spec_sub(values@[j].0),
                            );
                        assert(vanishes(nodes[i as int].spec_sub(nodes[j])));
                    }
                    return None;
                },
            };
            let term = basis_term(values, i, scale, Ghost(wide));
            let ghost before = coeffs@;
            let ghost longer = scales.push(scale);
            let mut sum: Vec<F> = Vec::with_capacity(n);
            let mut k: usize = 0;
            while k < n
                invariant
                    k <= n,
                    coeffs@.len() == n,
                    term@.len() == n,
                    sum@ == poly_sum(coeffs@, term@).take(k as int),
                decreases n - k,
            {
                sum.push(coeffs[k].plus(term[k]));
                k += 1;
                assert(sum@ =~= poly_sum(coeffs@, term@).take(k as int));
            }
            assert(sum@ =~= poly_sum(coeffs@, term@));
            proof {
                assert forall|k: int| 0 <= k < n implies (#[trigger] sum@[k]).canonical() by {
                    F::results_are_canonical(coeffs@[k], term@[k]);
                }
                assert forall|x: F| #[trigger] poly_value::<F, F>(sum@, x) == sum_to(
                    (i + 1) as nat,
                    basis_terms::<S, F>(values@, wide, longer, x),
                ) by {
                    value_of_poly_sum(coeffs@, term@, x);
                    let f = basis_terms::<S, F>(values@, wide, scales, x);
                    let g = basis_terms::<S, F>(values@, wide, longer, x);
                    assert(poly_value::<F, F>(coeffs@, x) == sum_to(i as nat, f));
                    assert forall|a: int| 0 <= a < i implies #[trigger] f(a) == g(a) by {
                        assert(longer[a] == scales[a]);
                    }
                    sum_congruent(i as nat, f, g);
                    assert(longer[i as int] == scale);
                    assert(poly_value::<F, F>(term@, x) == g(i as int));
                }
                assert forall|a: int| 0 <= a < i + 1 implies node_product(
                    nodes,
                    a,
                    n as nat,
                    nodes[a],
                ).spec_mul(#[trigger] longer[a]) == S::spec_one() by {
                    if a < i {
                        assert(longer[a] == scales[a]);
                    }
                }
                scales = longer;
            }
            coeffs = sum;
            i += 1;
        }
        proof {
            assert forall|m: int| 0 <= m < values@.len() implies poly_value::<F, F>(
                coeffs@,
                F::spec_embed((#[trigger] values@[m]).0),
            ) == reduced(values@[m].1) by {
                interpolation_at_node::<S, F>(values@, wide, scales, m);
            }
        }
        Some(DensePolynomial { coeffs })
    }
}

/// The summands of an interpolation at `x`.
spec fn basis_terms<S: Ring, F: Algebra<S>>(
    values: Seq<(S, F)>,
    wide: Seq<F>,
    scales: Seq<S>,
    x: F,
) -> spec_fn(int) -> F {
    |i: int| basis_value::<S, F>(values, wide, scales[i], i, x)
}

pub(crate) proof fn value_of_zeros<F: Ring>(n: nat, x: F)
    ensures
        poly_value::<F, F>(Seq::new(n, |k: int| F::spec_zero()), x) == F::spec_zero(),
    decreases n,
{
    if n > 0 {
        let zeros = Seq::new(n, |k: int| F::spec_zero());
        assert(zeros.drop_first() =~= Seq::new((n - 1) as nat, |k: int| F::spec_zero()));
        value_of_zeros((n - 1) as nat, x);
        F::mul_by_zero(x);
        F::results_are_canonical(F::spec_zero(), F::spec_zero());
        F::zero_is_neutral(F::spec_zero());
    }
}

proof fn interpolation_at_node<S: Ring, F: Algebra<S>>(
    values: Seq<(S, F)>,
    wide: Seq<F>,
    scales: Seq<S>,
    m: int,
)
    requires
        0 <= m < values.len(),
        scales.len() == values.len(),
        wide == Seq::new(values.len(), |j: int| F::spec_embed(values[j].0)),
        forall|a: int|
            0 <= a < values.len() ==> node_product(
                nodes_of(values),
                a,
                values.len(),
                nodes_of(values)[a],
            ).spec_mul(#[trigger] scales[a]) == S::spec_one(),
    ensures
        sum_to(
            values.len(),
            basis_terms::<S, F>(values, wide, scales, F::spec_embed(values[m].0)),
        ) == reduced(values[m].1),
{
    let n = values.len();
    let nodes = nodes_of(values);
    let x = F::spec_embed(values[m].0);
    let f = basis_terms::<S, F>(values, wide, scales, x);
    assert(wide[m] == x);
    assert forall|i: int| 0 <= i < n && i != m implies #[trigger] f(i) == F::spec_zero() by {
        node_product_at_other_node(wide, i, n, m);
        F::mul_by_zero(values[i].1.spec_mul(F::spec_embed(scales[i])));
    }
    let y = values[m].1;
    let scale = F::spec_embed(scales[m]);
    let product = node_product(wide, m, n, x);
    node_product_embeds::<S, F>(nodes, wide, m, n, nodes[m]);
    F::embed_is_homomorphism(node_product(nodes, m, n, nodes[m]), scales[m]);
    assert(product.spec_mul(scale) == F::spec_one());
    F::mul_is_associative(y, scale, product);
    F::mul_is_commutative(scale, product);
    reduction(y);
    assert(f(m) == reduced(y));
    sum_of_one_term(n, m, f);
}

} // verus!
