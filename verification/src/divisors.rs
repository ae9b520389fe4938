//! Sums of proper divisors.

use vstd::prelude::*;

verus! {

/// The sum of those numbers from 1 to `k` that divide `n`.
pub open spec fn divisor_sum_up_to(n: int, k: int) -> int
    decreases k,
{
    if k <= 0 {
        0
    } else {
        divisor_sum_up_to(n, k - 1) + if n % k == 0 {
            k
        } else {
            0
        }
    }
}

/// The sum of the divisors of `n` up to half of `n`: for `n >= 2` these are
/// its proper divisors.
pub open spec fn proper_divisor_sum(n: int) -> int {
    divisor_sum_up_to(n, n / 2)
}

/// Summing further never lowers the sum, which stays within the sum of all
/// numbers up to `k`.
pub proof fn lemma_divisor_sum_bounds(n: int, a: int, b: int)
    requires
        a <= b,
    ensures
        0 <= divisor_sum_up_to(n, a) <= divisor_sum_up_to(n, b),
        b >= 0 ==> 2 * divisor_sum_up_to(n, b) <= b * (b + 1),
    decreases b,
{
    if b > 0 {
        if a < b {
            lemma_divisor_sum_bounds(n, a, b - 1);
        } else {
            lemma_divisor_sum_bounds(n, a - 1, b - 1);
        }
        assert((b - 1) * b + 2 * b == b * (b + 1)) by (nonlinear_arith);
    }
}

/// The sum of the divisors of `n` up to half of `n`.
pub fn divisors_sum(n: usize) -> (sum: usize)
    requires
        proper_divisor_sum(n as int) <= usize::MAX,
    ensures
        sum == proper_divisor_sum(n as int),
{
    let half = n / 2;
    let mut sum: usize = 0;
    let mut x: usize = 0;
    while x < half
        invariant
            half == n / 2,
            x <= half,
            sum == divisor_sum_up_to(n as int, x as int),
            divisor_sum_up_to(n as int, half as int) <= usize::MAX,
        decreases half - x,
    {
        x = x + 1;
        proof {
            lemma_divisor_sum_bounds(n as int, x as int, half as int);
        }
        if n % x == 0 {
            sum = sum + x;
        }
    }
    sum
}

} // verus!
