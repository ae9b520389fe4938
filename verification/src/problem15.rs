//! Binomial coefficients, and the number of monotone routes through a grid.

use vstd::arithmetic::div_mod::lemma_div_multiples_vanish;
use vstd::prelude::*;

verus! {

/// The number of ways to pick `k` of `n` things.
pub open spec fn binomial_coefficient(n: nat, k: nat) -> nat
    decreases n,
{
    if k == 0 {
        1
    } else if n == 0 {
        0
    } else {
        binomial_coefficient((n - 1) as nat, (k - 1) as nat) + binomial_coefficient(
            (n - 1) as nat,
            k,
        )
    }
}

/// There is no way to pick more than there is.
pub proof fn lemma_binomial_beyond(n: nat, k: nat)
    requires
        k > n,
    ensures
        binomial_coefficient(n, k) == 0,
    decreases n,
{
    if n > 0 {
        lemma_binomial_beyond((n - 1) as nat, (k - 1) as nat);
        lemma_binomial_beyond((n - 1) as nat, k);
    }
}

/// Each coefficient follows from its left neighbour:
/// `k * C(n, k) == (n - k + 1) * C(n, k - 1)`.
pub proof fn lemma_binomial_neighbours(n: nat, k: nat)
    requires
        1 <= k <= n + 1,
    ensures
        k * binomial_coefficient(n, k) == (n - k + 1) * binomial_coefficient(n, (k - 1) as nat),
    decreases n,
{
    if n == 0 {
        assert(binomial_coefficient(0, 1) == 0);
    } else {
        let m = (n - 1) as nat;
        let mid = binomial_coefficient(m, (k - 1) as nat);
        let right = binomial_coefficient(m, k);
        // k * C(n, k) == n * C(n - 1, k - 1)
        if k <= n {
            lemma_binomial_neighbours(m, k);
        } else {
            lemma_binomial_beyond(m, k);
            lemma_binomial_beyond(m, (k - 1) as nat);
        }
        assert(k * (mid + right) == n * mid) by (nonlinear_arith)
            requires
                k * right == (m - k + 1) * mid,
                m == n - 1,
        ;
        // (n - k + 1) * C(n, k - 1) == n * C(n - 1, k - 1)
        if k == 1 {
            assert(binomial_coefficient(n, 0) == 1);
            assert(mid == 1);
        } else {
            let left = binomial_coefficient(m, (k - 2) as nat);
            lemma_binomial_neighbours(m, (k - 1) as nat);
            assert((n - k + 1) * (left + mid) == n * mid) by (nonlinear_arith)
                requires
                    (k - 1) * mid == (m - (k - 1) + 1) * left,
                    m == n - 1,
            ;
        }
    }
}

/// The binomial coefficient `C(n, k)`, built up from `C(n, 0)` by
/// multiplying with `n + 1 - i` and dividing by `i` for `i` from 1 to `k`.
///
/// `k` may exceed `n` by one at most, and each product on the way has to
/// fit in 64 bits.
pub fn binomial(n: u64, k: u64) -> (ways: u64)
    requires
        k <= n + 1,
        forall|i: nat| 1 <= i <= k ==> i * #[trigger] binomial_coefficient(n as nat, i) <= u64::MAX,
    ensures
        ways == binomial_coefficient(n as nat, k as nat),
{
    let mut acc: u64 = 1;
    let mut i: u64 = 0;
    while i < k
        invariant
            i <= k <= n + 1,
            acc == binomial_coefficient(n as nat, i as nat),
            forall|j: nat|
                1 <= j <= k ==> j * #[trigger] binomial_coefficient(n as nat, j) <= u64::MAX,
        decreases k - i,
    {
        i = i + 1;
        let ghost target = binomial_coefficient(n as nat, i as nat);
        proof {
            lemma_binomial_neighbours(n as nat, i as nat);
            assert(i * target <= u64::MAX);
            assert(acc * (n - (i - 1)) == i * target) by (nonlinear_arith)
                requires
                    i * target == (n - i + 1) * acc,
            ;
            lemma_div_multiples_vanish(target as int, i as int);
        }
        acc = acc * (n - (i - 1)) / i;
    }
    acc
}

/// The number of routes along the edges of a `size` by `size` grid from one
/// corner to the opposite one, moving right and down only.
pub fn solve(size: u64) -> (routes: u64)
    requires
        2 * size <= u64::MAX,
        forall|i: nat|
            1 <= i <= size ==> i * #[trigger] binomial_coefficient((2 * size) as nat, i)
                <= u64::MAX,
    ensures
        routes == binomial_coefficient((2 * size) as nat, size as nat),
{
    let n = 2 * size;
    proof {
        assert forall|i: nat| 1 <= i <= size implies i * #[trigger] binomial_coefficient(
            n as nat,
            i,
        ) <= u64::MAX by {
            assert(i * binomial_coefficient((2 * size) as nat, i) <= u64::MAX);
        }
    }
    binomial(n, size)
}

} // verus!
