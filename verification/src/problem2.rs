//! The sum of the even Fibonacci terms below a bound.

use crate::fibonacci::{
    fibonacci, generate, lemma_fibonacci_monotonic, lemma_small_terms_are_fibonacci, term,
};
use vstd::prelude::*;

verus! {

/// The sum of the even terms below `max_val` among terms 1 to `i`.
pub open spec fn even_sum(i: nat, max_val: int) -> nat
    decreases i,
{
    if i == 0 {
        0
    } else {
        even_sum((i - 1) as nat, max_val) + if fibonacci(i) % 2 == 0 && fibonacci(i) < max_val {
            fibonacci(i)
        } else {
            0
        }
    }
}

/// No two neighbouring terms are both even.
pub proof fn lemma_no_even_neighbours(j: nat)
    ensures
        !(fibonacci(j) % 2 == 0 && fibonacci(j + 1) % 2 == 0),
    decreases j,
{
    if j > 0 {
        lemma_no_even_neighbours((j - 1) as nat);
    }
}

/// The even terms up to term `i` add up to less than term `i + 1`.
pub proof fn lemma_even_sum_bound(i: nat, max_val: int)
    ensures
        even_sum(i, max_val) < fibonacci(i + 1),
    decreases i,
{
    if i == 1 {
        reveal_with_fuel(fibonacci, 3);
    } else if i > 1 {
        lemma_even_sum_bound((i - 1) as nat, max_val);
        lemma_even_sum_bound((i - 2) as nat, max_val);
        lemma_no_even_neighbours((i - 1) as nat);
        lemma_fibonacci_monotonic(i, i + 1);
        assert(fibonacci(i + 1) == fibonacci((i - 1) as nat) + fibonacci(i));
        assert(even_sum((i - 1) as nat, max_val) == even_sum((i - 2) as nat, max_val) + if fibonacci(
            (i - 1) as nat,
        ) % 2 == 0 && fibonacci((i - 1) as nat) < max_val {
            fibonacci((i - 1) as nat)
        } else {
            0
        });
    }
}

/// Terms at or above the bound add nothing: past the first of them the sum
/// stays what it is.
pub proof fn lemma_even_sum_stable(a: nat, b: nat, max_val: int)
    requires
        a <= b,
        fibonacci(a) >= max_val,
    ensures
        even_sum(b, max_val) == even_sum(a, max_val),
    decreases b,
{
    if a < b {
        lemma_even_sum_stable(a, (b - 1) as nat, max_val);
        lemma_fibonacci_monotonic(a, b);
    }
}

/// The sum of the even Fibonacci terms below `max_val`.
///
/// The terms are drawn from the 64-bit generator until an even one reaches
/// `max_val`; such a term has to exist within 64 bits.
pub fn solve(max_val: u64) -> (sum: u64)
    requires
        exists|k: nat|
            fibonacci(k) <= u64::MAX && fibonacci(k) % 2 == 0 && #[trigger] fibonacci(k) >= max_val,
    ensures
        forall|k: nat| #[trigger] fibonacci(k) >= max_val ==> sum == even_sum(k, max_val as int),
{
    let ghost top = choose|k: nat|
        fibonacci(k) <= u64::MAX && fibonacci(k) % 2 == 0 && #[trigger] fibonacci(k) >= max_val;
    let mut fibs = generate::<u64>();
    let mut sum: u64 = 0;
    let mut done: bool = false;
    while !done
        invariant
            fibs.wf(),
            fibs.produced() <= top,
            fibonacci(top) <= u64::MAX,
            fibonacci(top) % 2 == 0,
            fibonacci(top) >= max_val,
            sum == even_sum(fibs.produced(), max_val as int),
            forall|j: nat|
                1 <= j <= fibs.produced() && !(done && j == fibs.produced()) && #[trigger] fibonacci(
                    j,
                ) % 2 == 0 ==> fibonacci(j) < max_val,
            done ==> fibonacci(fibs.produced()) >= max_val,
        decreases top - fibs.produced(), if done { 0int } else { 1int },
    {
        let ghost i = fibs.produced();
        proof {
            if i == top {
                assert(fibonacci(top) < max_val);
            }
            lemma_fibonacci_monotonic(i + 1, top);
            lemma_small_terms_are_fibonacci(i + 1);
        }
        match fibs.next() {
            Some(t) => {
                if t % 2 == 0 {
                    if t < max_val {
                        proof {
                            lemma_even_sum_bound(i + 1, max_val as int);
                            lemma_fibonacci_monotonic(i + 2, top);
                        }
                        sum = sum + t;
                    } else {
                        done = true;
                    }
                }
            },
            None => {},
        }
    }
    proof {
        let i = fibs.produced();
        assert forall|k: nat| #[trigger] fibonacci(k) >= max_val implies sum == even_sum(
            k,
            max_val as int,
        ) by {
            if k <= i {
                lemma_even_sum_stable(k, i, max_val as int);
            } else {
                lemma_even_sum_stable(i, k, max_val as int);
            }
        }
    }
    sum
}

} // verus!
