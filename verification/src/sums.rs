//! Finite sums in a ring.

use vstd::arithmetic::mul::*;
use vstd::prelude::*;

use crate::field::{Algebra, Ring};

verus! {

/// The sum of `f(0)`, ..., `f(n - 1)`, added up from zero in that order.
pub open spec fn sum_to<R: Ring>(n: nat, f: spec_fn(int) -> R) -> R
    decreases n,
{
    if n == 0 {
        R::spec_zero()
    } else {
        sum_to((n - 1) as nat, f).spec_add(f(n - 1))
    }
}

/// Sums of equal terms are equal.
pub proof fn sum_congruent<R: Ring>(n: nat, f: spec_fn(int) -> R, g: spec_fn(int) -> R)
    requires
        forall|i: int| 0 <= i < n ==> #[trigger] f(i) == g(i),
    ensures
        sum_to(n, f) == sum_to(n, g),
    decreases n,
{
    if n > 0 {
        sum_congruent((n - 1) as nat, f, g);
        assert(f(n - 1) == g(n - 1));
    }
}

/// A sum is a reduced element.
pub proof fn sum_is_canonical<R: Ring>(n: nat, f: spec_fn(int) -> R)
    ensures
        sum_to(n, f).canonical(),
{
    R::results_are_canonical(R::spec_zero(), R::spec_zero());
    if n > 0 {
        R::results_are_canonical(sum_to((n - 1) as nat, f), f(n - 1));
    }
}

/// A sum of zeros is zero.
pub proof fn sum_of_zeros<R: Ring>(n: nat, f: spec_fn(int) -> R)
    requires
        forall|i: int| 0 <= i < n ==> #[trigger] f(i) == R::spec_zero(),
    ensures
        sum_to(n, f) == R::spec_zero(),
    decreases n,
{
    if n > 0 {
        sum_of_zeros((n - 1) as nat, f);
        assert(f(n - 1) == R::spec_zero());
        R::results_are_canonical(R::spec_zero(), R::spec_zero());
        R::zero_is_neutral(R::spec_zero());
    }
}

/// `(a + b) + (c + d) == (a + c) + (b + d)`.
pub proof fn add_interchange<R: Ring>(a: R, b: R, c: R, d: R)
    ensures
        a.spec_add(b).spec_add(c.spec_add(d)) == a.spec_add(c).spec_add(b.spec_add(d)),
{
    R::add_is_associative(a, b, c.spec_add(d));
    R::add_is_associative(b, c, d);
    R::add_is_commutative(b, c);
    R::add_is_associative(c, b, d);
    R::add_is_associative(a, c, b.spec_add(d));
}

/// The sum of termwise sums is the sum of the sums.
pub proof fn sum_of_sums<R: Ring>(
    n: nat,
    f: spec_fn(int) -> R,
    g: spec_fn(int) -> R,
    h: spec_fn(int) -> R,
)
    requires
        forall|i: int| 0 <= i < n ==> #[trigger] h(i) == f(i).spec_add(g(i)),
    ensures
        sum_to(n, h) == sum_to(n, f).spec_add(sum_to(n, g)),
    decreases n,
{
    if n == 0 {
        R::results_are_canonical(R::spec_zero(), R::spec_zero());
        R::zero_is_neutral(R::spec_zero());
    } else {
        let m = (n - 1) as nat;
        sum_of_sums(m, f, g, h);
        assert(h(n - 1) == f(n - 1).spec_add(g(n - 1)));
        add_interchange(sum_to(m, f), sum_to(m, g), f(n - 1), g(n - 1));
    }
}

/// A common factor can be taken out of a sum.
pub proof fn sum_of_multiples<R: Ring>(
    n: nat,
    c: R,
    f: spec_fn(int) -> R,
    h: spec_fn(int) -> R,
)
    requires
        forall|i: int| 0 <= i < n ==> #[trigger] h(i) == c.spec_mul(f(i)),
    ensures
        sum_to(n, h) == c.spec_mul(sum_to(n, f)),
    decreases n,
{
    if n == 0 {
        R::mul_by_zero(c);
    } else {
        let m = (n - 1) as nat;
        sum_of_multiples(m, c, f, h);
        assert(h(n - 1) == c.spec_mul(f(n - 1)));
        R::mul_distributes_over_add(c, sum_to(m, f), f(n - 1));
    }
}

/// A sum can be cut in two.
pub proof fn sum_splits<R: Ring>(n: nat, m: nat, f: spec_fn(int) -> R)
    ensures
        sum_to(n + m, f) == sum_to(n, f).spec_add(sum_to(m, |i: int| f(n + i))),
    decreases m,
{
    let g = |i: int| f(n + i);
    if m == 0 {
        sum_is_canonical(n, f);
        R::zero_is_neutral(sum_to(n, f));
        R::add_is_commutative(sum_to(n, f), R::spec_zero());
    } else {
        let k = (m - 1) as nat;
        sum_splits(n, k, f);
        assert((n + m - 1) as nat == n + k);
        assert(g(m - 1) == f(n + m - 1));
        R::add_is_associative(sum_to(n, f), sum_to(k, g), f(n + m - 1));
    }
}

/// A sum over `n * m` indices is a sum over `n` blocks of `m`.
pub proof fn sum_of_blocks<R: Ring>(n: nat, m: nat, f: spec_fn(int) -> R)
    ensures
        sum_to(n * m, f) == sum_to(n, |a: int| sum_to(m, |b: int| f(a * m + b))),
    decreases n,
{
    let g = |a: int| sum_to(m, |b: int| f(a * m + b));
    if n == 0 {
        lemma_mul_basics(m as int);
    } else {
        let k = (n - 1) as nat;
        sum_of_blocks(k, m, f);
        lemma_mul_is_distributive_add_other_way(m as int, k as int, 1);
        lemma_mul_basics(m as int);
        assert(n * m == k * m + m);
        sum_splits(k * m, m, f);
        sum_congruent(m, |i: int| f(k * m + i), |b: int| f((n - 1) * m + b));
        assert(g(n - 1) == sum_to(m, |b: int| f((n - 1) * m + b)));
    }
}

/// The order of two sums can be exchanged.
pub proof fn sums_exchange<R: Ring>(n: nat, m: nat, f: spec_fn(int, int) -> R)
    ensures
        sum_to(n, |i: int| sum_to(m, |j: int| f(i, j))) == sum_to(
            m,
            |j: int| sum_to(n, |i: int| f(i, j)),
        ),
    decreases n,
{
    let rows = |i: int| sum_to(m, |j: int| f(i, j));
    let columns = |j: int| sum_to(n, |i: int| f(i, j));
    if n == 0 {
        assert forall|j: int| 0 <= j < m implies #[trigger] columns(j) == R::spec_zero() by {}
        sum_of_zeros(m, columns);
    } else {
        let k = (n - 1) as nat;
        let shorter = |j: int| sum_to(k, |i: int| f(i, j));
        let last = |j: int| f(n - 1, j);
        sums_exchange(k, m, f);
        assert forall|j: int| 0 <= j < m implies #[trigger] columns(j) == shorter(j).spec_add(
            last(j),
        ) by {}
        sum_of_sums(m, shorter, last, columns);
        assert(rows(n - 1) == sum_to(m, |j: int| f(n - 1, j)));
        sum_congruent(m, last, |j: int| f(n - 1, j));
    }
}

/// A sum all of whose terms but one are zero is that term.
pub proof fn sum_of_one_term<R: Ring>(n: nat, k: int, f: spec_fn(int) -> R)
    requires
        0 <= k < n,
        f(k).canonical(),
        forall|i: int| 0 <= i < n && i != k ==> #[trigger] f(i) == R::spec_zero(),
    ensures
        sum_to(n, f) == f(k),
    decreases n,
{
    let m = (n - 1) as nat;
    R::zero_is_neutral(f(k));
    if k == m {
        sum_of_zeros(m, f);
    } else {
        sum_of_one_term(m, k, f);
        assert(f(n - 1) == R::spec_zero());
        R::add_is_commutative(f(k), R::spec_zero());
    }
}

/// The copy of a sum in an algebra is the sum of the copies.
pub proof fn embedded_sum<F: Ring, R: Algebra<F>>(
    n: nat,
    f: spec_fn(int) -> F,
    g: spec_fn(int) -> R,
)
    requires
        forall|i: int| 0 <= i < n ==> #[trigger] g(i) == R::spec_embed(f(i)),
    ensures
        R::spec_embed(sum_to(n, f)) == sum_to(n, g),
    decreases n,
{
    R::embed_is_homomorphism(F::spec_zero(), F::spec_zero());
    if n > 0 {
        embedded_sum::<F, R>((n - 1) as nat, f, g);
        assert(g(n - 1) == R::spec_embed(f(n - 1)));
        R::embed_is_homomorphism(sum_to((n - 1) as nat, f), f(n - 1));
    }
}

} // verus!
