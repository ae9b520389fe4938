//! The sum of the members of amicable pairs.

use crate::divisors::proper_divisor_sum;
use crate::utils::memoized;
use vstd::prelude::*;
use vstd::std_specs::hash::*;

verus! {

/// The sum of the divisors of `n` up to half of `n`.
pub fn divisors_sum(n: usize) -> (sum: usize)
    requires
        proper_divisor_sum(n as int) <= usize::MAX,
    ensures
        sum == proper_divisor_sum(n as int),
{
    crate::divisors::divisors_sum(n)
}

/// `a` and the sum of its proper divisors are two different numbers, each
/// the divisor sum of the other.
pub open spec fn is_amicable(a: int) -> bool {
    proper_divisor_sum(a) != a && proper_divisor_sum(proper_divisor_sum(a)) == a
}

/// What the amicable numbers from 1 up to, not including, `upto`
/// contribute: each itself, and its partner where that is not below `limit`
/// and so is not met on its own.
pub open spec fn amicable_total(upto: int, limit: int) -> int
    decreases upto,
{
    if upto <= 1 {
        0
    } else {
        let a = upto - 1;
        amicable_total(a, limit) + if is_amicable(a) {
            a + if proper_divisor_sum(a) >= limit {
                proper_divisor_sum(a)
            } else {
                0
            }
        } else {
            0
        }
    }
}

/// The total grows with the numbers looked at.
pub proof fn lemma_amicable_total_grows(a: int, b: int, limit: int)
    requires
        a <= b,
    ensures
        0 <= amicable_total(a, limit) <= amicable_total(b, limit),
    decreases b,
{
    if b > 1 {
        if a < b {
            lemma_amicable_total_grows(a, b - 1, limit);
        } else {
            lemma_amicable_total_grows(a - 1, b - 1, limit);
        }
        crate::divisors::lemma_divisor_sum_bounds(b - 1, 0, (b - 1) / 2);
    }
}

/// The sum of all members of amicable pairs that have a member below `limit`.
///
/// The divisor sums involved, and the result, have to fit in `usize`.
pub fn solve(limit: usize) -> (sum: usize)
    requires
        forall|a: int|
            1 <= a < limit ==> #[trigger] proper_divisor_sum(a) <= usize::MAX && proper_divisor_sum(
                proper_divisor_sum(a),
            ) <= usize::MAX,
        amicable_total(limit as int, limit as int) <= usize::MAX,
    ensures
        sum == amicable_total(limit as int, limit as int),
{
    broadcast use group_hash_axioms;

    let summed = |n: usize| -> (s: usize)
        requires
            proper_divisor_sum(n as int) <= usize::MAX,
        ensures
            s == proper_divisor_sum(n as int),
        {
            divisors_sum(n)
        };
    let mut div_sum = memoized(summed);
    let mut sum: usize = 0;
    if limit == 0 {
        return sum;
    }
    let mut a: usize = 1;
    while a < limit
        invariant
            1 <= a <= limit,
            div_sum.wf(),
            forall|x: usize|
                proper_divisor_sum(x as int) <= usize::MAX ==> call_requires(
                    div_sum.function(),
                    (x,),
                ),
            forall|x: usize, s: usize|
                call_ensures(div_sum.function(), (x,), s) ==> s == proper_divisor_sum(x as int),
            forall|x: int|
                1 <= x < limit ==> #[trigger] proper_divisor_sum(x) <= usize::MAX
                    && proper_divisor_sum(proper_divisor_sum(x)) <= usize::MAX,
            amicable_total(limit as int, limit as int) <= usize::MAX,
            sum == amicable_total(a as int, limit as int),
        decreases limit - a,
    {
        proof {
            lemma_amicable_total_grows(a + 1, limit as int, limit as int);
            assert(proper_divisor_sum(a as int) <= usize::MAX);
        }
        let b = div_sum.call(a);
        if a != b && div_sum.call(b) == a {
            sum = sum + a;
            if b >= limit {
                sum = sum + b;
            }
        }
        a = a + 1;
    }
    sum
}

} // verus!
