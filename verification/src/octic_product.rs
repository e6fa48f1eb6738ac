//! Multiplication of integer polynomials modulo `X^8 - 3`.

use vstd::arithmetic::div_mod::*;
use vstd::arithmetic::mul::*;
use vstd::prelude::*;

verus! {

/// The sum of `f(0)`, ..., `f(n - 1)`.
pub open spec fn int_sum(f: spec_fn(int) -> int, n: nat) -> int
    decreases n,
{
    if n == 0 {
        0
    } else {
        int_sum(f, (n - 1) as nat) + f(n - 1)
    }
}

/// The factor that the product of `X^i` and `X^((k - i) mod 8)` carries at `X^k`:
/// it is `3` where the exponents wrap round.
pub open spec fn wrap_factor(i: int, k: int) -> int {
    if i <= k {
        1
    } else {
        3
    }
}

/// The coefficient of `X^k` in the product of two polynomials modulo `X^8 - 3`,
/// over the integers.
pub open spec fn product_coefficient(a: Seq<int>, b: Seq<int>, k: int) -> int {
    int_sum(|i: int| a[i] * b[(k - i) % 8] * wrap_factor(i, k), 8)
}

/// The integers that the coefficients hold.
pub open spec fn residues(coefficients: Seq<u32>) -> Seq<int> {
    Seq::new(8, |i: int| coefficients[i] as int)
}

pub(crate) proof fn reduced_sums_associate(x: int, y: int, z: int, m: int)
    requires
        m > 0,
    ensures
        ((x + y) % m + z) % m == (x + (y + z) % m) % m,
{
    lemma_add_mod_noop_right(z, x + y, m);
    lemma_add_mod_noop_right(x, y + z, m);
}

pub(crate) proof fn int_sum_of_eight(f: spec_fn(int) -> int)
    ensures
        int_sum(f, 8) == f(0) + f(1) + f(2) + f(3) + f(4) + f(5) + f(6) + f(7),
{
    reveal_with_fuel(int_sum, 9);
}

proof fn int_sum_congruent(f: spec_fn(int) -> int, g: spec_fn(int) -> int, n: nat, m: int)
    requires
        m > 0,
        forall|i: int| 0 <= i < n ==> #[trigger] f(i) % m == g(i) % m,
    ensures
        int_sum(f, n) % m == int_sum(g, n) % m,
    decreases n,
{
    if n > 0 {
        int_sum_congruent(f, g, (n - 1) as nat, m);
        lemma_add_mod_noop(int_sum(f, (n - 1) as nat), f(n - 1), m);
        lemma_add_mod_noop(int_sum(g, (n - 1) as nat), g(n - 1), m);
    }
}

proof fn int_sum_equal(f: spec_fn(int) -> int, g: spec_fn(int) -> int, n: nat)
    requires
        forall|i: int| 0 <= i < n ==> #[trigger] f(i) == g(i),
    ensures
        int_sum(f, n) == int_sum(g, n),
    decreases n,
{
    if n > 0 {
        int_sum_equal(f, g, (n - 1) as nat);
    }
}

proof fn int_sum_of_sums(f: spec_fn(int) -> int, g: spec_fn(int) -> int, n: nat)
    ensures
        int_sum(|i: int| f(i) + g(i), n) == int_sum(f, n) + int_sum(g, n),
    decreases n,
{
    if n > 0 {
        int_sum_of_sums(f, g, (n - 1) as nat);
    }
}

proof fn int_sum_scaled(f: spec_fn(int) -> int, c: int, n: nat)
    ensures
        int_sum(|i: int| f(i) * c, n) == int_sum(f, n) * c,
    decreases n,
{
    if n > 0 {
        int_sum_scaled(f, c, (n - 1) as nat);
        lemma_mul_is_distributive_add_other_way(c, int_sum(f, (n - 1) as nat), f(n - 1));
    } else {
        lemma_mul_basics(c);
    }
}

pub(crate) proof fn int_sum_of_zeros(f: spec_fn(int) -> int, n: nat)
    requires
        forall|i: int| 0 <= i < n ==> #[trigger] f(i) == 0,
    ensures
        int_sum(f, n) == 0,
    decreases n,
{
    if n > 0 {
        int_sum_of_zeros(f, (n - 1) as nat);
    }
}

proof fn int_sums_swap(f: spec_fn(int, int) -> int, n: nat, m: nat)
    ensures
        int_sum(|i: int| int_sum(|j: int| f(i, j), m), n) == int_sum(
            |j: int| int_sum(|i: int| f(i, j), n),
            m,
        ),
    decreases n,
{
    let columns = |j: int| int_sum(|i: int| f(i, j), n);
    if n == 0 {
        int_sum_of_zeros(columns, m);
    } else {
        let k = (n - 1) as nat;
        int_sums_swap(f, k, m);
        let shorter = |j: int| int_sum(|i: int| f(i, j), k);
        let row = |j: int| f(k as int, j);
        int_sum_of_sums(shorter, row, m);
        let both = |j: int| shorter(j) + row(j);
        int_sum_equal(columns, both, m);
    }
}

/// Reading the indices backwards from `k` visits each of them once.
proof fn int_sum_reversed(f: spec_fn(int) -> int, k: int)
    requires
        0 <= k < 8,
    ensures
        int_sum(|i: int| f((k - i) % 8), 8) == int_sum(f, 8),
{
    int_sum_of_eight(f);
    int_sum_of_eight(|i: int| f((k - i) % 8));
    assert(k == 0 || k == 1 || k == 2 || k == 3 || k == 4 || k == 5 || k == 6 || k == 7);
}

/// Reading the indices from `j` on, wrapping round, visits each of them once.
proof fn int_sum_rotated(f: spec_fn(int) -> int, j: int)
    requires
        0 <= j < 8,
    ensures
        int_sum(|m: int| f((m + j) % 8), 8) == int_sum(f, 8),
{
    int_sum_of_eight(f);
    int_sum_of_eight(|m: int| f((m + j) % 8));
    assert(j == 0 || j == 1 || j == 2 || j == 3 || j == 4 || j == 5 || j == 6 || j == 7);
}

/// The coefficients of a product depend on the residues of the factors alone.
pub(crate) proof fn product_coefficient_congruent(
    a: Seq<int>,
    a2: Seq<int>,
    b: Seq<int>,
    b2: Seq<int>,
    k: int,
    m: int,
)
    requires
        m > 0,
        forall|i: int| 0 <= i < 8 ==> #[trigger] a[i] % m == a2[i] % m,
        forall|i: int| 0 <= i < 8 ==> #[trigger] b[i] % m == b2[i] % m,
    ensures
        product_coefficient(a, b, k) % m == product_coefficient(a2, b2, k) % m,
{
    let f = |i: int| a[i] * b[(k - i) % 8] * wrap_factor(i, k);
    let g = |i: int| a2[i] * b2[(k - i) % 8] * wrap_factor(i, k);
    assert forall|i: int| 0 <= i < 8 implies #[trigger] f(i) % m == g(i) % m by {
        let x = (k - i) % 8;
        lemma_mul_mod_noop_general(a[i], b[x], m);
        lemma_mul_mod_noop_general(a2[i], b2[x], m);
        lemma_mul_mod_noop_left(a[i] * b[x], wrap_factor(i, k), m);
        lemma_mul_mod_noop_left(a2[i] * b2[x], wrap_factor(i, k), m);
    }
    int_sum_congruent(f, g, 8, m);
}

pub(crate) proof fn product_coefficient_commutes(a: Seq<int>, b: Seq<int>, k: int)
    requires
        0 <= k < 8,
    ensures
        product_coefficient(a, b, k) == product_coefficient(b, a, k),
{
    let f = |i: int| a[i] * b[(k - i) % 8] * wrap_factor(i, k);
    let g = |i: int| b[i] * a[(k - i) % 8] * wrap_factor(i, k);
    let f2 = |i: int| f((k - i) % 8);
    assert forall|i: int| 0 <= i < 8 implies #[trigger] f2(i) == g(i) by {
        let x = (k - i) % 8;
        assert((k - x) % 8 == i);
        assert(wrap_factor(x, k) == wrap_factor(i, k));
        lemma_mul_is_commutative(a[x], b[i]);
    }
    int_sum_equal(f2, g, 8);
    int_sum_reversed(f, k);
}

pub(crate) proof fn product_coefficient_distributes(a: Seq<int>, b: Seq<int>, c: Seq<int>, s: Seq<int>, k: int)
    requires
        0 <= k < 8,
        forall|i: int| 0 <= i < 8 ==> #[trigger] s[i] == b[i] + c[i],
    ensures
        product_coefficient(a, s, k) == product_coefficient(a, b, k) + product_coefficient(a, c, k),
{
    let f = |i: int| a[i] * b[(k - i) % 8] * wrap_factor(i, k);
    let g = |i: int| a[i] * c[(k - i) % 8] * wrap_factor(i, k);
    let h = |i: int| a[i] * s[(k - i) % 8] * wrap_factor(i, k);
    let both = |i: int| f(i) + g(i);
    assert forall|i: int| 0 <= i < 8 implies #[trigger] h(i) == both(i) by {
        let x = (k - i) % 8;
        assert(s[x] == b[x] + c[x]);
        lemma_mul_is_distributive_add(a[i], b[x], c[x]);
        lemma_mul_is_distributive_add_other_way(wrap_factor(i, k), a[i] * b[x], a[i] * c[x]);
    }
    int_sum_equal(h, both, 8);
    int_sum_of_sums(f, g, 8);
}

/// The product of two polynomials modulo `X^8 - 3`, over the integers.
pub open spec fn product(a: Seq<int>, b: Seq<int>) -> Seq<int> {
    Seq::new(8, |k: int| product_coefficient(a, b, k))
}

/// The wrap factors met on the way from `j` over `i` to `k` are those met when
/// the first step is taken last.
proof fn wrap_factors_compose(j: int, i: int, k: int)
    requires
        0 <= j < 8,
        0 <= i < 8,
        0 <= k < 8,
    ensures
        wrap_factor(j, i) * wrap_factor(i, k) == wrap_factor(j, k) * wrap_factor(
            (i - j) % 8,
            (k - j) % 8,
        ),
        (((k - j) % 8) - ((i - j) % 8)) % 8 == (k - i) % 8,
{
}

/// The summand of a product of three polynomials.
spec fn triple_term(a: Seq<int>, b: Seq<int>, c: Seq<int>, k: int) -> spec_fn(int, int) -> int {
    |i: int, j: int|
        a[j] * b[(i - j) % 8] * wrap_factor(j, i) * (c[(k - i) % 8] * wrap_factor(i, k))
}

proof fn triple_row(a: Seq<int>, b: Seq<int>, c: Seq<int>, k: int, i: int)
    requires
        0 <= i < 8,
    ensures
        product(a, b)[i] * c[(k - i) % 8] * wrap_factor(i, k) == int_sum(
            |j: int| triple_term(a, b, c, k)(i, j),
            8,
        ),
{
    let term = triple_term(a, b, c, k);
    let inner = |j: int| a[j] * b[(i - j) % 8] * wrap_factor(j, i);
    let scale = c[(k - i) % 8] * wrap_factor(i, k);
    int_sum_scaled(inner, scale, 8);
    int_sum_equal(|j: int| inner(j) * scale, |j: int| term(i, j), 8);
    lemma_mul_is_associative(int_sum(inner, 8), c[(k - i) % 8], wrap_factor(i, k));
}

proof fn factors_regroup(x: int, y: int, z: int, w1: int, w2: int, w3: int, w4: int)
    requires
        w1 * w2 == w3 * w4,
    ensures
        x * y * w1 * (z * w2) == y * z * w4 * (x * w3),
{
    assert(x * y * w1 * (z * w2) == x * y * z * (w1 * w2)) by (nonlinear_arith);
    assert(y * z * w4 * (x * w3) == x * y * z * (w3 * w4)) by (nonlinear_arith);
}

proof fn rotated_triple_term(a: Seq<int>, b: Seq<int>, c: Seq<int>, k: int, j: int, m: int)
    requires
        0 <= j < 8,
        0 <= k < 8,
        0 <= m < 8,
    ensures
        triple_term(a, b, c, k)((m + j) % 8, j) == b[m] * c[((k - j) % 8 - m) % 8] * wrap_factor(
            m,
            (k - j) % 8,
        ) * (a[j] * wrap_factor(j, k)),
{
    let d = (k - j) % 8;
    let i = (m + j) % 8;
    assert((i - j) % 8 == m);
    wrap_factors_compose(j, i, k);
    assert((d - m) % 8 == (k - i) % 8);
    factors_regroup(
        a[j],
        b[m],
        c[(k - i) % 8],
        wrap_factor(j, i),
        wrap_factor(i, k),
        wrap_factor(j, k),
        wrap_factor(m, d),
    );
}

proof fn triple_column(a: Seq<int>, b: Seq<int>, c: Seq<int>, k: int, j: int)
    requires
        0 <= j < 8,
        0 <= k < 8,
    ensures
        int_sum(|i: int| triple_term(a, b, c, k)(i, j), 8) == a[j] * product(b, c)[(k - j) % 8]
            * wrap_factor(j, k),
{
    let term = triple_term(a, b, c, k);
    let d = (k - j) % 8;
    let column = |i: int| term(i, j);
    let rotated = |m: int| column((m + j) % 8);
    let inner = |m: int| b[m] * c[(d - m) % 8] * wrap_factor(m, d);
    let scale = a[j] * wrap_factor(j, k);
    let scaled = |m: int| inner(m) * scale;
    int_sum_rotated(column, j);
    assert forall|m: int| 0 <= m < 8 implies #[trigger] rotated(m) == scaled(m) by {
        rotated_triple_term(a, b, c, k, j, m);
    }
    int_sum_equal(rotated, scaled, 8);
    int_sum_scaled(inner, scale, 8);
    let s = int_sum(inner, 8);
    assert(product(b, c)[d] == s);
    let (x, w) = (a[j], wrap_factor(j, k));
    assert(s * (x * w) == x * s * w) by (nonlinear_arith);
}

/// Multiplication of polynomials modulo `X^8 - 3` is associative.
pub(crate) proof fn product_coefficient_associates(a: Seq<int>, b: Seq<int>, c: Seq<int>, k: int)
    requires
        0 <= k < 8,
    ensures
        product_coefficient(product(a, b), c, k) == product_coefficient(a, product(b, c), k),
{
    let term = triple_term(a, b, c, k);
    let lhs = |i: int| product(a, b)[i] * c[(k - i) % 8] * wrap_factor(i, k);
    let by_row = |i: int| int_sum(|j: int| term(i, j), 8);
    let by_column = |j: int| int_sum(|i: int| term(i, j), 8);
    let rhs = |j: int| a[j] * product(b, c)[(k - j) % 8] * wrap_factor(j, k);
    assert forall|i: int| 0 <= i < 8 implies #[trigger] lhs(i) == by_row(i) by {
        triple_row(a, b, c, k, i);
    }
    int_sum_equal(lhs, by_row, 8);
    int_sums_swap(term, 8, 8);
    assert forall|j: int| 0 <= j < 8 implies #[trigger] by_column(j) == rhs(j) by {
        triple_column(a, b, c, k, j);
    }
    int_sum_equal(by_column, rhs, 8);
}

} // verus!
