//! The first triangle number with more than a given number of divisors.

use vstd::prelude::*;

verus! {

/// How many of the numbers from 1 to `k` divide `n`.
pub open spec fn divisors_up_to(n: int, k: int) -> nat
    decreases k,
{
    if k <= 0 {
        0
    } else {
        divisors_up_to(n, k - 1) + if n % k == 0 {
            1nat
        } else {
            0nat
        }
    }
}

/// The number of divisors of `n`: those up to half of `n`, and `n` itself.
pub open spec fn divisor_count(n: int) -> nat {
    divisors_up_to(n, n / 2) + 1
}

/// The divisor count of the `i`-th triangle number `i * (i + 1) / 2`, as
/// the product of the counts of its two coprime factors.
pub open spec fn triangle_divisor_count(i: int) -> nat {
    if i % 2 == 0 {
        divisor_count(i / 2) * divisor_count(i + 1)
    } else {
        divisor_count(i) * divisor_count((i + 1) / 2)
    }
}

/// `i` is the first index whose triangle number has more than `n` divisors.
pub open spec fn is_first_beyond(i: int, n: int) -> bool {
    &&& 1 <= i
    &&& triangle_divisor_count(i) > n
    &&& forall|j: int| 1 <= j < i ==> #[trigger] triangle_divisor_count(j) <= n
}

/// Counting further never lowers the count.
pub proof fn lemma_divisors_up_to_grows(n: int, a: int, b: int)
    requires
        a <= b,
    ensures
        divisors_up_to(n, a) <= divisors_up_to(n, b),
    decreases b,
{
    if b > 0 && a < b {
        lemma_divisors_up_to_grows(n, a, b - 1);
    }
}

/// The number of divisors of `n`.
pub fn count_divisors(n: u64) -> (count: usize)
    requires
        divisor_count(n as int) <= usize::MAX,
    ensures
        count == divisor_count(n as int),
{
    let half = n / 2;
    let mut count: usize = 0;
    let mut x: u64 = 0;
    while x < half
        invariant
            half == n / 2,
            x <= half,
            count == divisors_up_to(n as int, x as int),
            divisors_up_to(n as int, half as int) < usize::MAX,
        decreases half - x,
    {
        x = x + 1;
        proof {
            lemma_divisors_up_to_grows(n as int, x as int, half as int);
        }
        if n % x == 0 {
            count = count + 1;
        }
    }
    count + 1
}

/// The divisor count of the `i`-th triangle number.
pub fn triangles_divisors(i: u64) -> (count: usize)
    requires
        i < u64::MAX,
        triangle_divisor_count(i as int) <= usize::MAX,
    ensures
        count == triangle_divisor_count(i as int),
{
    if i % 2 == 0 {
        let ghost left = divisor_count(i as int / 2);
        let ghost right = divisor_count(i + 1);
        assert(left <= left * right && right <= left * right) by (nonlinear_arith)
            requires
                left >= 1,
                right >= 1,
        ;
        count_divisors(i / 2) * count_divisors(i + 1)
    } else {
        let ghost left = divisor_count(i as int);
        let ghost right = divisor_count((i + 1) / 2);
        assert(left <= left * right && right <= left * right) by (nonlinear_arith)
            requires
                left >= 1,
                right >= 1,
        ;
        count_divisors(i) * count_divisors((i + 1) / 2)
    }
}

/// The first triangle number with more than `n` divisors.
///
/// Its index `i` has to exist with `i * (i + 1)` within 64 bits and its
/// divisor count within `usize`.
pub fn solve(n: usize) -> (triangle: u64)
    requires
        exists|i: int|
            #[trigger] is_first_beyond(i, n as int) && i * (i + 1) <= u64::MAX
                && triangle_divisor_count(i) <= usize::MAX,
    ensures
        exists|i: int| #[trigger] is_first_beyond(i, n as int) && triangle == i * (i + 1) / 2,
{
    let ghost first = choose|i: int|
        #[trigger] is_first_beyond(i, n as int) && i * (i + 1) <= u64::MAX
            && triangle_divisor_count(i) <= usize::MAX;
    assert(first < u64::MAX) by (nonlinear_arith)
        requires
            first >= 1,
            first * (first + 1) <= u64::MAX,
    ;
    let mut index: u64 = 1;
    loop
        invariant
            is_first_beyond(first, n as int),
            first * (first + 1) <= u64::MAX,
            triangle_divisor_count(first) <= usize::MAX,
            1 <= index <= first < u64::MAX,
        ensures
            index == first,
        decreases first - index,
    {
        if triangles_divisors(index) > n {
            break ;
        }
        index = index + 1;
    }
    assert(is_first_beyond(index as int, n as int));
    index * (index + 1) / 2
}

} // verus!
