//! Products of univariate polynomials, and what values determine.

use vstd::prelude::*;

use crate::dense::{
    all_canonical, is_unit, poly_multiple, poly_shift, poly_sum, poly_value, poly_value_is_canonical,
    value_of_poly_multiple, value_of_poly_shift, value_of_poly_sum, value_with_leading_zero,
    DensePolynomial,
};
use crate::field::{difference_vanishes, reduced, reduction, vanishes, Field, Ring};
use crate::sums::{sum_congruent, sum_is_canonical, sum_of_zeros, sum_splits, sum_to};

verus! {

/// The summand of the coefficient of `X^k` in a product.
pub open spec fn product_term<F: Ring>(a: Seq<F>, b: Seq<F>, k: int) -> spec_fn(int) -> F {
    |i: int|
        if 0 <= k - i < b.len() {
            a[i].spec_mul(b[k - i])
        } else {
            F::spec_zero()
        }
}

/// The coefficients of a product of two polynomials: that of `X^k` is the sum of the
/// products of the coefficients of `X^i` and `X^(k - i)`.
pub open spec fn poly_product<F: Ring>(a: Seq<F>, b: Seq<F>) -> Seq<F> {
    if a.len() == 0 || b.len() == 0 {
        Seq::empty()
    } else {
        Seq::new(
            (a.len() + b.len() - 1) as nat,
            |k: int| sum_to(a.len(), product_term(a, b, k)),
        )
    }
}

impl<F: Field> DensePolynomial<F> {
    /// The product of two polynomials.
    #[must_use]
    pub fn multiply(&self, other: &Self) -> (r: Self)
        requires
            self.coeffs@.len() + other.coeffs@.len() <= usize::MAX,
        ensures
            r.coeffs@ == poly_product(self.coeffs@, other.coeffs@),
    {
        let ghost (a, b) = (self.coeffs@, other.coeffs@);
        let mut coeffs: Vec<F> = Vec::new();
        if self.coeffs.len() == 0 || other.coeffs.len() == 0 {
            return DensePolynomial { coeffs };
        }
        let n: usize = self.coeffs.len() + other.coeffs.len() - 1;
        let mut k: usize = 0;
        while k < n
            invariant
                k <= n,
                a == self.coeffs@,
                b == other.coeffs@,
                a.len() > 0,
                b.len() > 0,
                n == a.len() + b.len() - 1,
                coeffs@ == poly_product(a, b).take(k as int),
            decreases n - k,
        {
            let ghost term = product_term(a, b, k as int);
            let mut sum = F::zero();
            let mut i: usize = 0;
            while i < self.coeffs.len()
                invariant
                    i <= a.len(),
                    k < n,
                    a == self.coeffs@,
                    b == other.coeffs@,
                    term == product_term(a, b, k as int),
                    sum == sum_to(i as nat, term),
                decreases a.len() - i,
            {
                if i <= k && k - i < other.coeffs.len() {
                    sum = sum.plus(self.coeffs[i].times(other.coeffs[k - i]));
                } else {
                    proof {
                        sum_is_canonical(i as nat, term);
                        F::zero_is_neutral(sum);
                        F::add_is_commutative(sum, F::spec_zero());
                        assert(term(i as int) == F::spec_zero());
                    }
                }
                i += 1;
            }
            coeffs.push(sum);
            k += 1;
            assert(coeffs@ =~= poly_product(a, b).take(k as int));
        }
        assert(coeffs@ =~= poly_product(a, b));
        DensePolynomial { coeffs }
    }
}

/// Coefficients followed by zeros up to length `n`.
spec fn padded<F: Ring>(a: Seq<F>, n: nat) -> Seq<F> {
    Seq::new(
        n,
        |k: int|
            if k < a.len() {
                a[k]
            } else {
                F::spec_zero()
            },
    )
}

proof fn value_of_padded<F: Ring>(a: Seq<F>, n: nat, x: F)
    requires
        a.len() <= n,
    ensures
        poly_value::<F, F>(padded(a, n), x) == poly_value::<F, F>(a, x),
    decreases n,
{
    if a.len() == n {
        assert(padded(a, n) =~= a);
    } else {
        let m = (n - 1) as nat;
        value_of_padded(a, m, x);
        assert(padded(a, n) =~= padded(a, m).push(F::spec_zero()));
        value_with_leading_zero(padded(a, m), x);
    }
}

proof fn product_splits_off_first<F: Ring>(a: Seq<F>, b: Seq<F>)
    requires
        a.len() > 1,
        b.len() > 0,
    ensures
        poly_product(a, b) == poly_sum(
            padded(poly_multiple(a[0], b), (a.len() + b.len() - 1) as nat),
            poly_shift(poly_product(a.drop_first(), b)),
        ),
{
    let n = (a.len() + b.len() - 1) as nat;
    let rest = a.drop_first();
    let left = padded(poly_multiple(a[0], b), n);
    let right = poly_shift(poly_product(rest, b));
    assert(right.len() == n);
    assert forall|k: int| 0 <= k < n implies #[trigger] poly_product(a, b)[k] == poly_sum(
        left,
        right,
    )[k] by {
        let f = product_term(a, b, k);
        let g = product_term(rest, b, k - 1);
        let shifted = |i: int| f(1nat + i);
        sum_splits(1, rest.len(), f);
        assert forall|i: int| 0 <= i < rest.len() implies #[trigger] shifted(i) == g(i) by {}
        sum_congruent(rest.len(), shifted, g);
        reveal_with_fuel(sum_to, 2);
        F::results_are_canonical(a[0], b[k]);
        F::results_are_canonical(F::spec_zero(), F::spec_zero());
        F::zero_is_neutral(f(0));
        assert(sum_to(1, f) == f(0));
        assert(left[k] == f(0));
        if k == 0 {
            assert forall|i: int| 0 <= i < rest.len() implies #[trigger] g(i)
                == F::spec_zero() by {}
            sum_of_zeros(rest.len(), g);
            assert(right[0] == F::spec_zero());
        } else {
            assert(right[k] == poly_product(rest, b)[k - 1]);
        }
    }
    assert(poly_product(a, b) =~= poly_sum(left, right));
}

/// The value of a product is the product of the values.
pub proof fn value_of_poly_product<F: Ring>(a: Seq<F>, b: Seq<F>, x: F)
    requires
        a.len() > 0,
        b.len() > 0,
    ensures
        poly_value::<F, F>(poly_product(a, b), x) == poly_value::<F, F>(a, x).spec_mul(
            poly_value::<F, F>(b, x),
        ),
    decreases a.len(),
{
    let v = poly_value::<F, F>(b, x);
    let rest = a.drop_first();
    let u = poly_value::<F, F>(rest, x);
    poly_value_is_canonical::<F, F>(b, x);
    if a.len() == 1 {
        assert forall|k: int| 0 <= k < b.len() implies #[trigger] poly_product(a, b)[k]
            == poly_multiple(a[0], b)[k] by {
            let f = product_term(a, b, k);
            reveal_with_fuel(sum_to, 2);
            F::results_are_canonical(a[0], b[k]);
            F::zero_is_neutral(f(0));
        }
        assert(poly_product(a, b) =~= poly_multiple(a[0], b));
        value_of_poly_multiple(a[0], b, x);
        assert(rest =~= Seq::empty());
        assert(u == F::spec_zero());
        F::mul_by_zero(x);
        F::mul_is_commutative(a[0].spec_add(F::spec_zero()), v);
        F::mul_distributes_over_add(v, a[0], F::spec_zero());
        F::mul_by_zero(v);
        F::results_are_canonical(v, a[0]);
        F::zero_is_neutral(v.spec_mul(a[0]));
        F::add_is_commutative(v.spec_mul(a[0]), F::spec_zero());
        F::mul_is_commutative(v, a[0]);
    } else {
        let n = (a.len() + b.len() - 1) as nat;
        let left = padded(poly_multiple(a[0], b), n);
        let right = poly_shift(poly_product(rest, b));
        value_of_poly_product(rest, b, x);
        product_splits_off_first(a, b);
        value_of_poly_sum(left, right, x);
        value_of_padded(poly_multiple(a[0], b), n, x);
        value_of_poly_multiple(a[0], b, x);
        value_of_poly_shift(poly_product(rest, b), x);
        F::mul_is_commutative(a[0].spec_add(x.spec_mul(u)), v);
        F::mul_distributes_over_add(v, a[0], x.spec_mul(u));
        F::mul_is_commutative(v, a[0]);
        F::mul_is_commutative(v, x.spec_mul(u));
        F::mul_is_associative(x, u, v);
    }
}

/// The coefficients of the polynomial divided by `X - a`, without the remainder.
pub open spec fn quotient<F: Ring>(coeffs: Seq<F>, a: F) -> Seq<F>
    decreases coeffs.len(),
{
    if coeffs.len() <= 1 {
        Seq::empty()
    } else {
        let rest = coeffs.drop_first();
        seq![poly_value::<F, F>(rest, a)] + quotient(rest, a)
    }
}

/// A polynomial is its quotient by `X - a`, multiplied by `X - a`, plus its value at
/// `a`.
pub proof fn division_by_root<F: Ring>(coeffs: Seq<F>, a: F, x: F)
    requires
        coeffs.len() > 0,
    ensures
        quotient(coeffs, a).len() == coeffs.len() - 1,
        poly_value::<F, F>(coeffs, x) == x.spec_sub(a).spec_mul(
            poly_value::<F, F>(quotient(coeffs, a), x),
        ).spec_add(poly_value::<F, F>(coeffs, a)),
    decreases coeffs.len(),
{
    let c = coeffs[0];
    let rest = coeffs.drop_first();
    let d = x.spec_sub(a);
    if coeffs.len() == 1 {
        assert(rest =~= Seq::empty());
        F::mul_by_zero(x);
        F::mul_by_zero(a);
        F::mul_by_zero(d);
        poly_value_is_canonical::<F, F>(coeffs, a);
        F::zero_is_neutral(poly_value::<F, F>(coeffs, a));
        assert(poly_value::<F, F>(rest, x) == F::spec_zero());
        assert(poly_value::<F, F>(rest, a) == F::spec_zero());
        assert(poly_value::<F, F>(quotient(coeffs, a), x) == F::spec_zero());
    } else {
        division_by_root(rest, a, x);
        let q = quotient(rest, a);
        let r = poly_value::<F, F>(rest, a);
        let s = poly_value::<F, F>(q, x);
        let whole = quotient(coeffs, a);
        assert(whole.drop_first() =~= q);
        assert(poly_value::<F, F>(whole, x) == r.spec_add(x.spec_mul(s)));
        division_step(c, x, a, d, s, r);
        assert(poly_value::<F, F>(rest, x) == d.spec_mul(s).spec_add(r));
        assert(poly_value::<F, F>(coeffs, x) == c.spec_add(
            x.spec_mul(poly_value::<F, F>(rest, x)),
        ));
        assert(poly_value::<F, F>(coeffs, a) == c.spec_add(a.spec_mul(r)));
    }
}

/// `c + x (d s + r) == d (r + x s) + (c + a r)` where `d` is `x - a`.
proof fn division_step<F: Ring>(c: F, x: F, a: F, d: F, s: F, r: F)
    requires
        d == x.spec_sub(a),
    ensures
        c.spec_add(x.spec_mul(d.spec_mul(s).spec_add(r))) == d.spec_mul(
            r.spec_add(x.spec_mul(s)),
        ).spec_add(c.spec_add(a.spec_mul(r))),
{
    let ds = d.spec_mul(s);
    let xs = x.spec_mul(s);
    let xr = x.spec_mul(r);
    let ar = a.spec_mul(r);
    let dr = d.spec_mul(r);
    let xds = x.spec_mul(ds);
    // x (d s + r) == x d s + x r
    F::mul_distributes_over_add(x, ds, r);
    // d (r + x s) == d r + x d s
    F::mul_distributes_over_add(d, r, xs);
    F::mul_is_associative(d, x, s);
    F::mul_is_commutative(d, x);
    F::mul_is_associative(x, d, s);
    assert(d.spec_mul(xs) == xds);
    // d r + a r == x r
    F::mul_is_commutative(d, r);
    F::mul_is_commutative(a, r);
    F::mul_distributes_over_add(r, d, a);
    difference_vanishes(x, a);
    assert(r.spec_mul(d.spec_add(a)) == r.spec_mul(reduced(x)));
    F::mul_distributes_over_add(r, F::spec_zero(), x);
    F::mul_by_zero(r);
    F::results_are_canonical(r, x);
    F::zero_is_neutral(r.spec_mul(x));
    F::mul_is_commutative(r, x);
    assert(dr.spec_add(ar) == xr);
    // (d r + x d s) + (c + a r) == c + (x d s + x r)
    F::add_is_commutative(dr, xds);
    F::add_is_commutative(c, ar);
    F::add_is_associative(xds, dr, ar.spec_add(c));
    F::add_is_associative(dr, ar, c);
    F::add_is_associative(xds, xr, c);
    F::add_is_commutative(xds.spec_add(xr), c);
}

/// Dividing by the last root leaves the others.
proof fn quotient_keeps_roots<F: Ring>(coeffs: Seq<F>, nodes: Seq<F>)
    requires
        coeffs.len() == nodes.len() > 0,
        forall|i: int, j: int|
            #![trigger nodes[i], nodes[j]]
            0 <= i < nodes.len() && 0 <= j < nodes.len() && i != j ==> is_unit(
                nodes[i].spec_sub(nodes[j]),
            ),
        forall|i: int|
            0 <= i < nodes.len() ==> poly_value::<F, F>(coeffs, #[trigger] nodes[i])
                == F::spec_zero(),
    ensures
        quotient(coeffs, nodes.last()).len() == coeffs.len() - 1,
        forall|i: int, j: int|
            #![trigger nodes.drop_last()[i], nodes.drop_last()[j]]
            0 <= i < nodes.len() - 1 && 0 <= j < nodes.len() - 1 && i != j ==> is_unit(
                nodes.drop_last()[i].spec_sub(nodes.drop_last()[j]),
            ),
        forall|i: int|
            0 <= i < nodes.len() - 1 ==> poly_value::<F, F>(
                quotient(coeffs, nodes.last()),
                #[trigger] nodes.drop_last()[i],
            ) == F::spec_zero(),
{
    let n = coeffs.len();
    let a = nodes[n - 1];
    let q = quotient(coeffs, a);
    let fewer = nodes.drop_last();
    F::results_are_canonical(F::spec_zero(), F::spec_zero());
    division_by_root(coeffs, a, a);
    assert forall|i: int| 0 <= i < fewer.len() implies poly_value::<F, F>(q, #[trigger] fewer[i])
        == F::spec_zero() by {
        let y = nodes[i];
        let d = y.spec_sub(a);
        let v = poly_value::<F, F>(q, y);
        assert(poly_value::<F, F>(coeffs, y) == F::spec_zero());
        division_by_root(coeffs, a, y);
        F::results_are_canonical(d, v);
        F::zero_is_neutral(d.spec_mul(v));
        F::add_is_commutative(d.spec_mul(v), F::spec_zero());
        assert(d.spec_mul(v) == F::spec_zero());
        assert(is_unit(nodes[i].spec_sub(nodes[n - 1])));
        let b = choose|b: F| #[trigger] d.spec_mul(b) == F::spec_one();
        F::mul_is_commutative(d, b);
        F::mul_is_associative(b, d, v);
        F::mul_by_zero(b);
        poly_value_is_canonical::<F, F>(q, y);
        F::one_is_neutral(v);
    }
    assert forall|i: int, j: int|
        #![trigger fewer[i], fewer[j]]
        0 <= i < fewer.len() && 0 <= j < fewer.len() && i != j implies is_unit(
        fewer[i].spec_sub(fewer[j]),
    ) by {
        assert(is_unit(nodes[i].spec_sub(nodes[j])));
    }
}

/// A polynomial with as many coefficients as there are nodes, no two of them equal, that
/// is zero at every node is zero everywhere.
pub proof fn too_many_roots<F: Ring>(coeffs: Seq<F>, nodes: Seq<F>, x: F)
    requires
        coeffs.len() == nodes.len(),
        forall|i: int, j: int|
            #![trigger nodes[i], nodes[j]]
            0 <= i < nodes.len() && 0 <= j < nodes.len() && i != j ==> is_unit(
                nodes[i].spec_sub(nodes[j]),
            ),
        forall|i: int|
            0 <= i < nodes.len() ==> poly_value::<F, F>(coeffs, #[trigger] nodes[i])
                == F::spec_zero(),
    ensures
        poly_value::<F, F>(coeffs, x) == F::spec_zero(),
    decreases coeffs.len(),
{
    if coeffs.len() > 0 {
        let n = coeffs.len();
        let a = nodes[n - 1];
        let q = quotient(coeffs, a);
        let fewer = nodes.drop_last();
        F::results_are_canonical(F::spec_zero(), F::spec_zero());
        division_by_root(coeffs, a, a);
        quotient_keeps_roots(coeffs, nodes);
        too_many_roots(q, fewer, x);
        division_by_root(coeffs, a, x);
        F::mul_by_zero(x.spec_sub(a));
        F::zero_is_neutral(F::spec_zero());
    }
}

/// Two polynomials with as many coefficients as there are nodes, no two of them equal,
/// that agree at every node agree everywhere.
pub proof fn values_at_nodes_determine<F: Ring>(a: Seq<F>, b: Seq<F>, nodes: Seq<F>, x: F)
    requires
        a.len() == nodes.len(),
        b.len() == nodes.len(),
        forall|i: int, j: int|
            #![trigger nodes[i], nodes[j]]
            0 <= i < nodes.len() && 0 <= j < nodes.len() && i != j ==> is_unit(
                nodes[i].spec_sub(nodes[j]),
            ),
        forall|i: int|
            0 <= i < nodes.len() ==> poly_value::<F, F>(a, #[trigger] nodes[i]) == poly_value::<
                F,
                F,
            >(b, nodes[i]),
    ensures
        poly_value::<F, F>(a, x) == poly_value::<F, F>(b, x),
{
    let minus_one = F::spec_one().spec_neg();
    let opposite = poly_multiple(minus_one, b);
    let difference = poly_sum(a, opposite);
    assert forall|i: int| 0 <= i < nodes.len() implies poly_value::<F, F>(
        difference,
        #[trigger] nodes[i],
    ) == F::spec_zero() by {
        value_of_difference(a, b, nodes[i]);
        let v = poly_value::<F, F>(b, nodes[i]);
        F::sub_is_add_of_neg(v, v);
        F::neg_cancels(v);
    }
    too_many_roots(difference, nodes, x);
    value_of_difference(a, b, x);
    let (u, v) = (poly_value::<F, F>(a, x), poly_value::<F, F>(b, x));
    poly_value_is_canonical::<F, F>(a, x);
    poly_value_is_canonical::<F, F>(b, x);
    difference_vanishes(u, v);
    reduction(u);
    reduction(v);
    F::results_are_canonical(F::spec_zero(), F::spec_zero());
    F::zero_is_neutral(F::spec_zero());
    assert(vanishes(u.spec_sub(v)));
}

/// The values of the tails of the coefficients are the coefficients of the quotient.
proof fn quotient_holds_tail_values<F: Ring>(coeffs: Seq<F>, a: F, k: int)
    requires
        0 <= k < coeffs.len() - 1,
    ensures
        quotient(coeffs, a).len() == coeffs.len() - 1,
        quotient(coeffs, a)[k] == poly_value::<F, F>(coeffs.skip(k + 1), a),
    decreases coeffs.len(),
{
    let rest = coeffs.drop_first();
    division_by_root(coeffs, a, a);
    assert(rest =~= coeffs.skip(1));
    if k > 0 {
        quotient_holds_tail_values(rest, a, k - 1);
        assert(rest.skip(k) =~= coeffs.skip(k + 1));
    }
}

/// A polynomial with as many coefficients as there are nodes, no two of them equal, that is
/// zero at every node has no coefficient but zero.
pub proof fn too_many_roots_leave_no_coefficient<F: Ring>(coeffs: Seq<F>, nodes: Seq<F>)
    requires
        coeffs.len() == nodes.len(),
        forall|i: int, j: int|
            #![trigger nodes[i], nodes[j]]
            0 <= i < nodes.len() && 0 <= j < nodes.len() && i != j ==> is_unit(
                nodes[i].spec_sub(nodes[j]),
            ),
        forall|i: int|
            0 <= i < nodes.len() ==> poly_value::<F, F>(coeffs, #[trigger] nodes[i])
                == F::spec_zero(),
    ensures
        forall|k: int| 0 <= k < coeffs.len() ==> vanishes(#[trigger] coeffs[k]),
    decreases coeffs.len(),
{
    if coeffs.len() > 0 {
        let n = coeffs.len();
        let a = nodes[n - 1];
        let q = quotient(coeffs, a);
        quotient_keeps_roots(coeffs, nodes);
        too_many_roots_leave_no_coefficient(q, nodes.drop_last());
        assert forall|k: int| 0 <= k <= n implies poly_value::<F, F>(#[trigger] coeffs.skip(k), a)
            == F::spec_zero() by {
            if k == 0 {
                assert(coeffs.skip(0) =~= coeffs);
            } else if k < n {
                quotient_holds_tail_values(coeffs, a, k - 1);
                assert(vanishes(q[k - 1]));
                poly_value_is_canonical::<F, F>(coeffs.skip(k), a);
                reduction(q[k - 1]);
            } else {
                assert(coeffs.skip(k) =~= Seq::empty());
            }
        }
        assert forall|k: int| 0 <= k < n implies vanishes(#[trigger] coeffs[k]) by {
            let tail = coeffs.skip(k);
            assert(tail.drop_first() =~= coeffs.skip(k + 1));
            assert(poly_value::<F, F>(tail, a) == F::spec_zero());
            assert(poly_value::<F, F>(coeffs.skip(k + 1), a) == F::spec_zero());
            F::mul_by_zero(a);
            assert(tail[0] == coeffs[k]);
            F::add_is_commutative(coeffs[k], F::spec_zero());
            reduction(coeffs[k]);
        }
    }
}

/// Two polynomials with as many reduced coefficients as there are nodes, no two of them equal,
/// that agree at every node have the same coefficients.
pub proof fn values_at_nodes_determine_coefficients<F: Ring>(a: Seq<F>, b: Seq<F>, nodes: Seq<F>)
    requires
        a.len() == nodes.len(),
        b.len() == nodes.len(),
        all_canonical(a),
        all_canonical(b),
        forall|i: int, j: int|
            #![trigger nodes[i], nodes[j]]
            0 <= i < nodes.len() && 0 <= j < nodes.len() && i != j ==> is_unit(
                nodes[i].spec_sub(nodes[j]),
            ),
        forall|i: int|
            0 <= i < nodes.len() ==> poly_value::<F, F>(a, #[trigger] nodes[i]) == poly_value::<
                F,
                F,
            >(b, nodes[i]),
    ensures
        a == b,
{
    let minus_one = F::spec_one().spec_neg();
    let difference = poly_sum(a, poly_multiple(minus_one, b));
    assert forall|i: int| 0 <= i < nodes.len() implies poly_value::<F, F>(
        difference,
        #[trigger] nodes[i],
    ) == F::spec_zero() by {
        value_of_difference(a, b, nodes[i]);
        let v = poly_value::<F, F>(b, nodes[i]);
        F::sub_is_add_of_neg(v, v);
        F::neg_cancels(v);
    }
    too_many_roots_leave_no_coefficient(difference, nodes);
    assert forall|k: int| 0 <= k < a.len() implies a[k] == b[k] by {
        assert(vanishes(difference[k]));
        minus_one_negates(b[k]);
        F::sub_is_add_of_neg(a[k], b[k]);
        difference_vanishes(a[k], b[k]);
        reduction(a[k]);
        reduction(b[k]);
    }
    assert(a =~= b);
}

proof fn value_of_difference<F: Ring>(a: Seq<F>, b: Seq<F>, x: F)
    requires
        a.len() == b.len(),
    ensures
        poly_value::<F, F>(poly_sum(a, poly_multiple(F::spec_one().spec_neg(), b)), x)
            == poly_value::<F, F>(a, x).spec_sub(poly_value::<F, F>(b, x)),
{
    let minus_one = F::spec_one().spec_neg();
    let v = poly_value::<F, F>(b, x);
    value_of_poly_sum(a, poly_multiple(minus_one, b), x);
    value_of_poly_multiple(minus_one, b, x);
    F::sub_is_add_of_neg(poly_value::<F, F>(a, x), v);
    poly_value_is_canonical::<F, F>(b, x);
    minus_one_negates(v);
}

/// Multiplying a reduced element by minus one negates it.
pub proof fn minus_one_negates<F: Ring>(v: F)
    requires
        v.canonical(),
    ensures
        F::spec_one().spec_neg().spec_mul(v) == v.spec_neg(),
{
    let one = F::spec_one();
    let m = one.spec_neg().spec_mul(v);
    // v + (-1) v == 0
    F::one_is_neutral(v);
    F::mul_is_commutative(one, v);
    F::mul_is_commutative(one.spec_neg(), v);
    F::mul_distributes_over_add(v, one, one.spec_neg());
    F::neg_cancels(one);
    F::mul_by_zero(v);
    assert(v.spec_add(m) == F::spec_zero());
    // (-1) v == -v
    F::neg_cancels(v);
    F::results_are_canonical(v, v);
    F::results_are_canonical(one.spec_neg(), v);
    F::add_is_commutative(v, m);
    F::add_is_associative(m, v, v.spec_neg());
    F::zero_is_neutral(m);
    F::add_is_commutative(m, F::spec_zero());
    F::zero_is_neutral(v.spec_neg());
}

} // verus!
