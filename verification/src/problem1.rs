//! The sum of the multiples of 3 or 5 below a bound.

use crate::seqs::lemma_push_contains;
use vstd::prelude::*;

verus! {

/// `x` is a multiple of 3 or of 5.
pub open spec fn is_multiple(x: int) -> bool {
    x % 3 == 0 || x % 5 == 0
}

/// The sum of the multiples of 3 or 5 from 1 up to, not including, `max`.
pub open spec fn sum_of_multiples_below(max: int) -> int
    decreases max,
{
    if max <= 1 {
        0
    } else {
        sum_of_multiples_below(max - 1) + if is_multiple(max - 1) {
            max - 1
        } else {
            0
        }
    }
}

/// The sum grows with the bound.
pub proof fn lemma_sum_of_multiples_monotonic(a: int, b: int)
    requires
        a <= b,
    ensures
        0 <= sum_of_multiples_below(a) <= sum_of_multiples_below(b),
    decreases b,
{
    if b > 1 {
        if a < b {
            lemma_sum_of_multiples_monotonic(a, b - 1);
        } else {
            lemma_sum_of_multiples_monotonic(a - 1, b - 1);
        }
    }
}

/// The multiples of 3 or 5 from 1 up to, not including, `max`, in
/// increasing order.
pub fn numbers(max: u64) -> (out: Vec<u64>)
    ensures
        forall|i: int, j: int| 0 <= i < j < out.len() ==> out[i] < out[j],
        forall|i: int|
            0 <= i < out.len() ==> 1 <= #[trigger] out[i] < max && is_multiple(out[i] as int),
        forall|x: u64| 1 <= x < max && is_multiple(x as int) ==> #[trigger] out@.contains(x),
{
    let mut out: Vec<u64> = Vec::new();
    if max == 0 {
        return out;
    }
    let mut x: u64 = 1;
    while x < max
        invariant
            1 <= x <= max,
            forall|i: int, j: int| 0 <= i < j < out.len() ==> out[i] < out[j],
            forall|i: int|
                0 <= i < out.len() ==> 1 <= #[trigger] out[i] < x && is_multiple(out[i] as int),
            forall|y: u64| 1 <= y < x && is_multiple(y as int) ==> #[trigger] out@.contains(y),
        decreases max - x,
    {
        if x % 3 == 0 || x % 5 == 0 {
            proof {
                assert forall|y: u64| 1 <= y < x + 1 && is_multiple(y as int) implies #[trigger]
                    out@.push(x).contains(y) by {
                    lemma_push_contains(out@, x, y);
                }
            }
            out.push(x);
        }
        x = x + 1;
    }
    out
}

/// The sum of the multiples of 3 or 5 below `max`.
pub fn solve(max: u64) -> (sum: u64)
    requires
        sum_of_multiples_below(max as int) <= u64::MAX,
    ensures
        sum == sum_of_multiples_below(max as int),
{
    let mut sum: u64 = 0;
    if max == 0 {
        return sum;
    }
    let mut x: u64 = 1;
    while x < max
        invariant
            1 <= x <= max,
            sum == sum_of_multiples_below(x as int),
            sum_of_multiples_below(max as int) <= u64::MAX,
        decreases max - x,
    {
        proof {
            lemma_sum_of_multiples_monotonic(x + 1, max as int);
        }
        if x % 3 == 0 || x % 5 == 0 {
            sum = sum + x;
        }
        x = x + 1;
    }
    sum
}

} // verus!
