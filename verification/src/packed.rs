//! Values of a ring held side by side and computed with lane by lane.

use vstd::array::spec_array_update;
use vstd::prelude::*;

use crate::field::{Algebra, Ring};

verus! {

/// `W` elements of `F`, one in each lane.
#[derive(Debug, Clone, Copy, PartialEq, Eq)]
pub struct Packed<F, const W: usize> {
    lanes: [F; W],
}

/// An array whose first `n` entries are `f(0)`, ..., `f(n - 1)`.
spec fn filled<F, const W: usize>(f: spec_fn(int) -> F, n: nat) -> [F; W]
    decreases n,
{
    if n == 0 {
        arbitrary()
    } else {
        spec_array_update(filled::<F, W>(f, (n - 1) as nat), n - 1, f(n - 1))
    }
}

proof fn filled_holds<F, const W: usize>(f: spec_fn(int) -> F, n: nat)
    requires
        n <= W,
    ensures
        forall|i: int| 0 <= i < n ==> #[trigger] filled::<F, W>(f, n)@[i] == f(i),
    decreases n,
{
    if n > 0 {
        let shorter = filled::<F, W>(f, (n - 1) as nat);
        filled_holds::<F, W>(f, (n - 1) as nat);
        assert(spec_array_update(shorter, n - 1, f(n - 1))@ == shorter@.update(n - 1, f(n - 1)));
    }
}

impl<F, const W: usize> Packed<F, W> {
    /// The element in lane `i`.
    pub closed spec fn lane(self, i: int) -> F {
        self.lanes@[i]
    }

    /// The value whose lane `i` holds `f(i)`.
    pub closed spec fn of(f: spec_fn(int) -> F) -> Self {
        Packed { lanes: filled(f, W as nat) }
    }

    /// Values that agree in every lane are equal.
    pub proof fn lanes_determine(a: Self, b: Self)
        requires
            forall|i: int| 0 <= i < W ==> #[trigger] a.lane(i) == b.lane(i),
        ensures
            a == b,
    {
        assert forall|i: int| 0 <= i < W implies #[trigger] a.lanes@[i] == b.lanes@[i] by {
            assert(a.lane(i) == b.lane(i));
        }
        assert(a.lanes =~= b.lanes);
    }

    pub broadcast proof fn of_has_lanes(f: spec_fn(int) -> F, i: int)
        requires
            0 <= i < W,
        ensures
            #[trigger] Self::of(f).lane(i) == f(i),
    {
        filled_holds::<F, W>(f, W as nat);
    }

    /// The value with the given lanes.
    pub fn from_lanes(lanes: [F; W]) -> (r: Self)
        ensures
            forall|i: int| 0 <= i < W ==> #[trigger] r.lane(i) == lanes@[i],
    {
        Packed { lanes }
    }

    /// The lanes, in order.
    pub fn as_slice(&self) -> (r: &[F])
        ensures
            r@.len() == W,
            forall|i: int| 0 <= i < W ==> #[trigger] r@[i] == self.lane(i),
    {
        self.lanes.as_slice()
    }

    /// The element in lane `i`.
    pub fn extract(&self, i: usize) -> (r: F) where F: Copy
        requires
            i < W,
        ensures
            r == self.lane(i as int),
    {
        self.lanes[i]
    }

    /// The value that holds `value` in every lane.
    pub fn broadcast(value: F) -> (r: Self) where F: Copy
        ensures
            r == Self::of(|i: int| value),
    {
        let r = Packed { lanes: [value; W] };
        proof {
            Self::of_has_lanes_at_all(|i: int| value, r);
        }
        r
    }

    /// The value whose lanes are the elements of `values` from `start` on.
    pub fn pack(values: &[F], start: usize) -> (r: Self) where F: Copy
        requires
            W > 0,
            start + W <= values@.len(),
        ensures
            forall|i: int| 0 <= i < W ==> #[trigger] r.lane(i) == values@[start + i],
    {
        let n: usize = values.len();
        let mut packed = Packed { lanes: [values[start]; W] };
        let mut i: usize = 0;
        while i < W
            invariant
                i <= W,
                start + W <= values@.len() == n,
                forall|j: int| 0 <= j < i ==> #[trigger] packed.lane(j) == values@[start + j],
            decreases W - i,
        {
            packed.replace(i, values[start + i]);
            i += 1;
        }
        packed
    }

    /// Puts `value` in lane `i`.
    fn replace(&mut self, i: usize, value: F)
        requires
            i < W,
        ensures
            final(self).lane(i as int) == value,
            forall|j: int| 0 <= j < W && j != i ==> #[trigger] final(self).lane(j) == old(
                self,
            ).lane(j),
    {
        self.lanes[i] = value;
    }

    proof fn of_has_lanes_at_all(f: spec_fn(int) -> F, p: Self)
        requires
            forall|i: int| 0 <= i < W ==> #[trigger] p.lane(i) == f(i),
        ensures
            p == Self::of(f),
    {
        broadcast use Packed::of_has_lanes;

        assert forall|i: int| 0 <= i < W implies #[trigger] p.lane(i) == Self::of(f).lane(i) by {}
        Self::lanes_determine(p, Self::of(f));
    }
}

impl<F: Ring, const W: usize> Ring for Packed<F, W> {
    open spec fn canonical(self) -> bool {
        forall|i: int| 0 <= i < W ==> #[trigger] self.lane(i).canonical()
    }

    open spec fn spec_zero() -> Self {
        Self::of(|i: int| F::spec_zero())
    }

    open spec fn spec_one() -> Self {
        Self::of(|i: int| F::spec_one())
    }

    open spec fn spec_add(self, rhs: Self) -> Self {
        Self::of(|i: int| self.lane(i).spec_add(rhs.lane(i)))
    }

    open spec fn spec_sub(self, rhs: Self) -> Self {
        Self::of(|i: int| self.lane(i).spec_sub(rhs.lane(i)))
    }

    open spec fn spec_neg(self) -> Self {
        Self::of(|i: int| self.lane(i).spec_neg())
    }

    open spec fn spec_mul(self, rhs: Self) -> Self {
        Self::of(|i: int| self.lane(i).spec_mul(rhs.lane(i)))
    }

    fn zero() -> (r: Self) {
        Packed::broadcast(F::zero())
    }

    fn one() -> (r: Self) {
        Packed::broadcast(F::one())
    }

    fn plus(self, rhs: Self) -> (r: Self) {
        let mut sum = self;
        let mut i: usize = 0;
        while i < W
            invariant
                i <= W,
                forall|j: int| 0 <= j < i ==> #[trigger] sum.lane(j) == self.lane(j).spec_add(
                    rhs.lane(j),
                ),
                forall|j: int| i <= j < W ==> #[trigger] sum.lane(j) == self.lane(j),
            decreases W - i,
        {
            sum.replace(i, self.extract(i).plus(rhs.extract(i)));
            i += 1;
        }
        proof {
            Self::of_has_lanes_at_all(|i: int| self.lane(i).spec_add(rhs.lane(i)), sum);
        }
        sum
    }

    fn minus(self, rhs: Self) -> (r: Self) {
        let mut difference = self;
        let mut i: usize = 0;
        while i < W
            invariant
                i <= W,
                forall|j: int| 0 <= j < i ==> #[trigger] difference.lane(j) == self.lane(
                    j,
                ).spec_sub(rhs.lane(j)),
                forall|j: int| i <= j < W ==> #[trigger] difference.lane(j) == self.lane(j),
            decreases W - i,
        {
            difference.replace(i, self.extract(i).minus(rhs.extract(i)));
            i += 1;
        }
        proof {
            Self::of_has_lanes_at_all(|i: int| self.lane(i).spec_sub(rhs.lane(i)), difference);
        }
        difference
    }

    fn negated(self) -> (r: Self) {
        let mut opposite = self;
        let mut i: usize = 0;
        while i < W
            invariant
                i <= W,
                forall|j: int| 0 <= j < i ==> #[trigger] opposite.lane(j) == self.lane(
                    j,
                ).spec_neg(),
                forall|j: int| i <= j < W ==> #[trigger] opposite.lane(j) == self.lane(j),
            decreases W - i,
        {
            opposite.replace(i, self.extract(i).negated());
            i += 1;
        }
        proof {
            Self::of_has_lanes_at_all(|i: int| self.lane(i).spec_neg(), opposite);
        }
        opposite
    }

    fn times(self, rhs: Self) -> (r: Self) {
        let mut product = self;
        let mut i: usize = 0;
        while i < W
            invariant
                i <= W,
                forall|j: int| 0 <= j < i ==> #[trigger] product.lane(j) == self.lane(j).spec_mul(
                    rhs.lane(j),
                ),
                forall|j: int| i <= j < W ==> #[trigger] product.lane(j) == self.lane(j),
            decreases W - i,
        {
            product.replace(i, self.extract(i).times(rhs.extract(i)));
            i += 1;
        }
        proof {
            Self::of_has_lanes_at_all(|i: int| self.lane(i).spec_mul(rhs.lane(i)), product);
        }
        product
    }

    proof fn results_are_canonical(a: Self, b: Self) {
        broadcast use Packed::of_has_lanes;

        assert forall|i: int| 0 <= i < W implies {
            &&& #[trigger] Self::spec_zero().lane(i).canonical()
            &&& Self::spec_one().lane(i).canonical()
            &&& a.spec_add(b).lane(i).canonical()
            &&& a.spec_sub(b).lane(i).canonical()
            &&& a.spec_neg().lane(i).canonical()
            &&& a.spec_mul(b).lane(i).canonical()
        } by {
            F::results_are_canonical(a.lane(i), b.lane(i));
        }
        let sum = a.spec_add(b);
        let difference = a.spec_sub(b);
        let opposite = a.spec_neg();
        let product = a.spec_mul(b);
        assert forall|i: int| 0 <= i < W implies #[trigger] Self::spec_one().lane(
            i,
        ).canonical() by {
            assert(Self::spec_zero().lane(i).canonical());
        }
        assert forall|i: int| 0 <= i < W implies #[trigger] sum.lane(i).canonical() by {
            assert(Self::spec_zero().lane(i).canonical());
        }
        assert forall|i: int| 0 <= i < W implies #[trigger] difference.lane(i).canonical() by {
            assert(Self::spec_zero().lane(i).canonical());
        }
        assert forall|i: int| 0 <= i < W implies #[trigger] opposite.lane(i).canonical() by {
            assert(Self::spec_zero().lane(i).canonical());
        }
        assert forall|i: int| 0 <= i < W implies #[trigger] product.lane(i).canonical() by {
            assert(Self::spec_zero().lane(i).canonical());
        }
    }

    proof fn add_is_commutative(a: Self, b: Self) {
        broadcast use Packed::of_has_lanes;

        assert forall|i: int| 0 <= i < W implies #[trigger] a.spec_add(b).lane(i) == b.spec_add(
            a,
        ).lane(i) by {
            F::add_is_commutative(a.lane(i), b.lane(i));
        }
        Self::lanes_determine(a.spec_add(b), b.spec_add(a));
    }

    proof fn add_is_associative(a: Self, b: Self, c: Self) {
        broadcast use Packed::of_has_lanes;

        let left = a.spec_add(b).spec_add(c);
        let right = a.spec_add(b.spec_add(c));
        assert forall|i: int| 0 <= i < W implies #[trigger] left.lane(i) == right.lane(i) by {
            F::add_is_associative(a.lane(i), b.lane(i), c.lane(i));
        }
        Self::lanes_determine(left, right);
    }

    proof fn mul_is_commutative(a: Self, b: Self) {
        broadcast use Packed::of_has_lanes;

        assert forall|i: int| 0 <= i < W implies #[trigger] a.spec_mul(b).lane(i) == b.spec_mul(
            a,
        ).lane(i) by {
            F::mul_is_commutative(a.lane(i), b.lane(i));
        }
        Self::lanes_determine(a.spec_mul(b), b.spec_mul(a));
    }

    proof fn mul_is_associative(a: Self, b: Self, c: Self) {
        broadcast use Packed::of_has_lanes;

        let left = a.spec_mul(b).spec_mul(c);
        let right = a.spec_mul(b.spec_mul(c));
        assert forall|i: int| 0 <= i < W implies #[trigger] left.lane(i) == right.lane(i) by {
            F::mul_is_associative(a.lane(i), b.lane(i), c.lane(i));
        }
        Self::lanes_determine(left, right);
    }

    proof fn mul_distributes_over_add(a: Self, b: Self, c: Self) {
        broadcast use Packed::of_has_lanes;

        let left = a.spec_mul(b.spec_add(c));
        let right = a.spec_mul(b).spec_add(a.spec_mul(c));
        assert forall|i: int| 0 <= i < W implies #[trigger] left.lane(i) == right.lane(i) by {
            F::mul_distributes_over_add(a.lane(i), b.lane(i), c.lane(i));
        }
        Self::lanes_determine(left, right);
    }

    proof fn zero_is_neutral(a: Self) {
        broadcast use Packed::of_has_lanes;

        let sum = Self::spec_zero().spec_add(a);
        assert forall|i: int| 0 <= i < W implies #[trigger] sum.lane(i) == a.lane(i) by {
            assert(a.lane(i).canonical());
            F::zero_is_neutral(a.lane(i));
        }
        Self::lanes_determine(sum, a);
    }

    proof fn one_is_neutral(a: Self) {
        broadcast use Packed::of_has_lanes;

        let product = Self::spec_one().spec_mul(a);
        assert forall|i: int| 0 <= i < W implies #[trigger] product.lane(i) == a.lane(i) by {
            assert(a.lane(i).canonical());
            F::one_is_neutral(a.lane(i));
        }
        Self::lanes_determine(product, a);
    }

    proof fn mul_by_zero(a: Self) {
        broadcast use Packed::of_has_lanes;

        let product = a.spec_mul(Self::spec_zero());
        assert forall|i: int| 0 <= i < W implies #[trigger] product.lane(i)
            == Self::spec_zero().lane(i) by {
            F::mul_by_zero(a.lane(i));
        }
        Self::lanes_determine(product, Self::spec_zero());
    }

    proof fn sub_is_add_of_neg(a: Self, b: Self) {
        broadcast use Packed::of_has_lanes;

        let left = a.spec_sub(b);
        let right = a.spec_add(b.spec_neg());
        assert forall|i: int| 0 <= i < W implies #[trigger] left.lane(i) == right.lane(i) by {
            F::sub_is_add_of_neg(a.lane(i), b.lane(i));
        }
        Self::lanes_determine(left, right);
    }

    proof fn neg_cancels(a: Self) {
        broadcast use Packed::of_has_lanes;

        let sum = a.spec_add(a.spec_neg());
        assert forall|i: int| 0 <= i < W implies #[trigger] sum.lane(i) == Self::spec_zero().lane(
            i,
        ) by {
            F::neg_cancels(a.lane(i));
        }
        Self::lanes_determine(sum, Self::spec_zero());
    }
}

impl<F: Ring, const W: usize> Algebra<F> for Packed<F, W> {
    open spec fn spec_embed(value: F) -> Self {
        Self::of(|i: int| value)
    }

    fn embed(value: F) -> (r: Self) {
        Packed::broadcast(value)
    }

    proof fn embed_is_homomorphism(a: F, b: F) {
        broadcast use Packed::of_has_lanes;

        Self::of_has_lanes_at_all(
            |i: int| a.spec_add(b),
            Self::spec_embed(a).spec_add(Self::spec_embed(b)),
        );
        Self::of_has_lanes_at_all(
            |i: int| a.spec_sub(b),
            Self::spec_embed(a).spec_sub(Self::spec_embed(b)),
        );
        Self::of_has_lanes_at_all(|i: int| a.spec_neg(), Self::spec_embed(a).spec_neg());
        Self::of_has_lanes_at_all(
            |i: int| a.spec_mul(b),
            Self::spec_embed(a).spec_mul(Self::spec_embed(b)),
        );
    }

    proof fn embed_keeps_canonical(a: F) {
        broadcast use Packed::of_has_lanes;

    }
}

impl<F: Ring, const W: usize> Packed<F, W> {
    /// The operations compute in each lane by itself.
    pub proof fn lanes_compute_alone(a: Self, b: Self, value: F, i: int)
        requires
            0 <= i < W,
        ensures
            Self::spec_zero().lane(i) == F::spec_zero(),
            Self::spec_one().lane(i) == F::spec_one(),
            Self::spec_embed(value).lane(i) == value,
            a.spec_add(b).lane(i) == a.lane(i).spec_add(b.lane(i)),
            a.spec_sub(b).lane(i) == a.lane(i).spec_sub(b.lane(i)),
            a.spec_neg().lane(i) == a.lane(i).spec_neg(),
            a.spec_mul(b).lane(i) == a.lane(i).spec_mul(b.lane(i)),
    {
        broadcast use Packed::of_has_lanes;

    }

    /// The value whose lanes are the copies of the lanes of `self` in `E`.
    pub fn widen<E: Algebra<F>>(self) -> (r: Packed<E, W>)
        ensures
            forall|i: int| 0 <= i < W ==> #[trigger] r.lane(i) == E::spec_embed(self.lane(i)),
    {
        let mut wide: Packed<E, W> = Packed::broadcast(E::zero());
        let mut i: usize = 0;
        while i < W
            invariant
                i <= W,
                forall|j: int|
                    0 <= j < i ==> #[trigger] wide.lane(j) == E::spec_embed(self.lane(j)),
            decreases W - i,
        {
            wide.replace(i, E::embed(self.extract(i)));
            i += 1;
        }
        wide
    }
}

} // verus!
