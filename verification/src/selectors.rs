//! The polynomials that select one index of a small domain.

use vstd::arithmetic::power2::*;
use vstd::prelude::*;

use crate::dense::{all_canonical, has_equal_nodes, nodes_of, poly_value, DensePolynomial};
use crate::field::{reduction, small_integers_differ, vanishes, Field, Ring};
use crate::multilinear::power_of_two;

verus! {

/// One where `i` and `j` are equal, zero elsewhere.
pub open spec fn indicator<F: Ring>(i: int, j: int) -> F {
    if i == j {
        F::spec_one()
    } else {
        F::spec_zero()
    }
}

/// Whether `selectors` are the polynomials with `n` reduced coefficients of which the `i`-th
/// is one at `i` and zero at the other integers below `n`.
pub open spec fn are_selectors<F: Field>(selectors: Seq<DensePolynomial<F>>, n: nat) -> bool {
    &&& selectors.len() == n
    &&& forall|i: int|
        0 <= i < n ==> (#[trigger] selectors[i]).coeffs@.len() == n && all_canonical(
            selectors[i].coeffs@,
        ) && forall|j: int|
            0 <= j < n ==> poly_value::<F, F>(
                selectors[i].coeffs@,
                #[trigger] F::spec_from_nat(j as nat),
            ) == indicator::<F>(i, j)
}

/// Integers below the characteristic are different nodes.
pub proof fn integer_nodes_differ<F: Field>(nodes: Seq<F>)
    requires
        nodes.len() <= F::characteristic(),
        forall|j: int| 0 <= j < nodes.len() ==> #[trigger] nodes[j] == F::spec_from_nat(j as nat),
    ensures
        !has_equal_nodes(nodes),
{
    assert forall|i: int, j: int|
        #![trigger nodes[i], nodes[j]]
        0 <= i < nodes.len() && 0 <= j < nodes.len() && i != j implies !vanishes(
        nodes[i].spec_sub(nodes[j]),
    ) by {
        small_integers_differ::<F>(i as nat, j as nat);
    }
}

/// The selectors of the domain of `2^skips` integers from zero on.
#[must_use]
pub fn univariate_selectors<F: Field>(skips: usize) -> (r: Vec<DensePolynomial<F>>)
    requires
        pow2(skips as nat) <= usize::MAX,
        pow2(skips as nat) <= F::characteristic(),
    ensures
        are_selectors(r@, pow2(skips as nat)),
{
    let n: usize = power_of_two(skips, Ghost(1));
    let mut selectors: Vec<DensePolynomial<F>> = Vec::with_capacity(n);
    let mut i: usize = 0;
    while i < n
        invariant
            i <= n,
            n <= F::characteristic(),
            selectors@.len() == i,
            forall|i: int|
                0 <= i < selectors@.len() ==> (#[trigger] selectors@[i]).coeffs@.len() == n
                    && all_canonical(selectors@[i].coeffs@) && forall|j: int|
                    0 <= j < n ==> poly_value::<F, F>(
                        selectors@[i].coeffs@,
                        #[trigger] F::spec_from_nat(j as nat),
                    ) == indicator::<F>(i, j),
        decreases n - i,
    {
        let mut values: Vec<(F, F)> = Vec::with_capacity(n);
        let mut j: usize = 0;
        while j < n
            invariant
                i < n,
                j <= n,
                values@.len() == j,
                forall|k: int|
                    0 <= k < j ==> #[trigger] values@[k] == (
                        F::spec_from_nat(k as nat),
                        indicator::<F>(i as int, k),
                    ),
            decreases n - j,
        {
            values.push(
                (
                    F::from_usize(j),
                    if i == j {
                        F::one()
                    } else {
                        F::zero()
                    },
                ),
            );
            j += 1;
        }
        proof {
            integer_nodes_differ(nodes_of(values@));
        }
        match DensePolynomial::lagrange_interpolation::<F>(&values) {
            Some(selector) => {
                proof {
                    assert forall|j: int| 0 <= j < n implies poly_value::<F, F>(
                        selector.coeffs@,
                        #[trigger] F::spec_from_nat(j as nat),
                    ) == indicator::<F>(i as int, j) by {
                        assert(values@[j].0 == F::spec_from_nat(j as nat));
                        F::results_are_canonical(F::spec_zero(), F::spec_zero());
                        reduction(indicator::<F>(i as int, j));
                    }
                }
                selectors.push(selector);
            },
            None => {
                assert(false);
            },
        }
        i += 1;
    }
    selectors
}

} // verus!
