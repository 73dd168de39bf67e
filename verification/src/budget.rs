//! Permutation budget: how many orderings a run will actually attempt.
//!
//! For small track sets the number of distinct permutations is computed
//! exactly and the requested count is capped by it; for larger sets the
//! factorial is meaningless against the adjacency constraint (and would
//! overflow), so the request passes through unchanged.

use vstd::prelude::*;

verus! {

/// Largest track count for which the exact factorial cap is applied.
pub const FACTORIAL_CAP_LIMIT: usize = 20;

/// Number of distinct permutations of `n` items.
pub open spec fn factorial(n: nat) -> nat
    decreases n,
{
    if n == 0 {
        1
    } else {
        n * factorial((n - 1) as nat)
    }
}

/// The number of orderings a run will attempt for `item_count` tracks when
/// `requested` orderings were asked for.
pub open spec fn spec_effective_count(item_count: nat, requested: nat) -> nat {
    if item_count <= FACTORIAL_CAP_LIMIT {
        if requested <= factorial(item_count) {
            requested
        } else {
            factorial(item_count)
        }
    } else {
        requested
    }
}

/// Whether the request was cut down to the permutation maximum.
pub open spec fn spec_was_truncated(item_count: nat, requested: nat) -> bool {
    item_count <= FACTORIAL_CAP_LIMIT && requested > factorial(item_count)
}

proof fn lemma_factorial_monotonic(m: nat, n: nat)
    requires
        m <= n,
    ensures
        factorial(m) <= factorial(n),
    decreases n,
{
    if m < n {
        lemma_factorial_monotonic(m, (n - 1) as nat);
        assert(factorial(n) == n * factorial((n - 1) as nat));
        assert(factorial((n - 1) as nat) <= n * factorial((n - 1) as nat))
            by (nonlinear_arith)
            requires
                n >= 1,
                factorial((n - 1) as nat) >= 0,
        ;
    }
}

proof fn lemma_factorial_fits_u64(n: nat)
    requires
        n <= FACTORIAL_CAP_LIMIT,
    ensures
        factorial(n) <= 2432902008176640000,
{
    lemma_factorial_monotonic(n, FACTORIAL_CAP_LIMIT as nat);
    assert(factorial(0) == 1);
    assert(factorial(1) == 1);
    assert(factorial(2) == 2);
    assert(factorial(3) == 6);
    assert(factorial(4) == 24);
    assert(factorial(5) == 120);
    assert(factorial(6) == 720);
    assert(factorial(7) == 5040);
    assert(factorial(8) == 40320);
    assert(factorial(9) == 362880);
    assert(factorial(10) == 3628800);
    assert(factorial(11) == 39916800);
    assert(factorial(12) == 479001600);
    assert(factorial(13) == 6227020800);
    assert(factorial(14) == 87178291200);
    assert(factorial(15) == 1307674368000);
    assert(factorial(16) == 20922789888000);
    assert(factorial(17) == 355687428096000);
    assert(factorial(18) == 6402373705728000);
    assert(factorial(19) == 121645100408832000);
    assert(factorial(20) == 2432902008176640000);
}

/// The validated budget of a run: how many orderings will be attempted, and
/// whether the caller's request had to be cut down.
pub struct PermutationBudget {
    /// Number of orderings the run will attempt to produce.
    pub effective_count: usize,
    /// True when `effective_count` is the permutation maximum rather than
    /// the requested count.
    pub was_truncated: bool,
}

impl PermutationBudget {
    /// Cap the requested ordering count by the number of distinct
    /// permutations of the track set, whenever the track set is small
    /// enough for that maximum to be worth computing.
    pub fn compute(item_count: usize, requested_count: usize) -> (r: PermutationBudget)
        requires
            item_count >= 1,
        ensures
            r.effective_count == spec_effective_count(item_count as nat, requested_count as nat),
            r.was_truncated == spec_was_truncated(item_count as nat, requested_count as nat),
    {
        if item_count <= FACTORIAL_CAP_LIMIT {
            let mut acc: u64 = 1;
            let mut i: usize = 0;
            while i < item_count
                invariant
                    i <= item_count <= FACTORIAL_CAP_LIMIT,
                    acc == factorial(i as nat),
                decreases item_count - i,
            {
                i = i + 1;
                proof {
                    assert(factorial(i as nat) == (i as nat) * factorial((i - 1) as nat));
                    assert((acc as int) * (i as int) == factorial(i as nat)) by (nonlinear_arith)
                        requires
                            acc == factorial((i - 1) as nat),
                            factorial(i as nat) == (i as nat) * factorial((i - 1) as nat),
                            i >= 1,
                    ;
                    lemma_factorial_fits_u64(i as nat);
                }
                acc = acc * (i as u64);
            }
            if (requested_count as u64) > acc {
                PermutationBudget { effective_count: acc as usize, was_truncated: true }
            } else {
                PermutationBudget { effective_count: requested_count, was_truncated: false }
            }
        } else {
            PermutationBudget { effective_count: requested_count, was_truncated: false }
        }
    }
}

} // verus!
