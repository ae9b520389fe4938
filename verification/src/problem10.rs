//! The sum of the primes below a bound.

use crate::number_theory::is_prime_number;
use crate::primes::generate;
use vstd::prelude::*;

verus! {

/// The sum of the primes below `limit`.
pub open spec fn prime_sum_below(limit: int) -> int
    decreases limit,
{
    if limit <= 0 {
        0
    } else {
        prime_sum_below(limit - 1) + if is_prime_number(limit - 1) {
            limit - 1
        } else {
            0
        }
    }
}

/// The sum grows with the bound, and a stretch without primes adds nothing.
pub proof fn lemma_prime_sum_grows(a: int, b: int)
    requires
        a <= b,
    ensures
        0 <= prime_sum_below(a) <= prime_sum_below(b),
        (forall|y: int| a <= y < b ==> !#[trigger] is_prime_number(y)) ==> prime_sum_below(a)
            == prime_sum_below(b),
    decreases b,
{
    if b > 0 {
        if a < b {
            lemma_prime_sum_grows(a, b - 1);
        } else {
            lemma_prime_sum_grows(a - 1, b - 1);
        }
    }
}

/// The sum of the primes below `limit`.
pub fn sum_primes_less_than(limit: u64) -> (sum: u64)
    requires
        prime_sum_below(limit as int) <= u64::MAX,
    ensures
        sum == prime_sum_below(limit as int),
{
    let mut primes = generate();
    let mut sum: u64 = 0;
    let mut open: bool = true;
    proof {
        reveal_with_fuel(prime_sum_below, 3);
        assert(!is_prime_number(0) && !is_prime_number(1));
    }
    while open
        invariant
            primes.wf(),
            1 <= primes.last() <= u64::MAX,
            prime_sum_below(limit as int) <= u64::MAX,
            open ==> sum == prime_sum_below(primes.last() + 1),
            open ==> primes.last() < limit || primes.last() == 1,
            !open ==> sum == prime_sum_below(limit as int),
        decreases u64::MAX - primes.last(), if open { 1int } else { 0int },
    {
        let ghost scanned = primes.last();
        match primes.next() {
            Some(p) => {
                if p < limit {
                    proof {
                        lemma_prime_sum_grows(scanned + 1, p as int);
                        lemma_prime_sum_grows(p + 1, limit as int);
                    }
                    sum = sum + p;
                } else {
                    proof {
                        if scanned + 1 <= limit {
                            lemma_prime_sum_grows(scanned + 1, limit as int);
                        } else {
                            lemma_prime_sum_grows(limit as int, scanned + 1);
                        }
                    }
                    open = false;
                }
            },
            None => {
                proof {
                    if scanned + 1 <= limit {
                        lemma_prime_sum_grows(scanned + 1, limit as int);
                    } else {
                        lemma_prime_sum_grows(limit as int, scanned + 1);
                    }
                }
                open = false;
            },
        }
    }
    sum
}

/// The sum of the primes below `limit`.
pub fn solve(limit: u64) -> (sum: u64)
    requires
        prime_sum_below(limit as int) <= u64::MAX,
    ensures
        sum == prime_sum_below(limit as int),
{
    sum_primes_less_than(limit)
}

} // verus!
