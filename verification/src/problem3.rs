//! Prime factors below the square root of a number.

use crate::number_theory::is_prime_number;
use crate::primes::generate;
use crate::seqs::lemma_push_contains;
use vstd::prelude::*;

verus! {

/// `p` is a prime factor of `n` whose square is below `n`.
pub open spec fn is_small_prime_factor(p: int, n: int) -> bool {
    is_prime_number(p) && p * p < n && n % p == 0
}

/// The prime factors of `n` that lie strictly below its square root, in
/// increasing order.
pub fn factors_for(n: u64) -> (out: Vec<u64>)
    ensures
        forall|i: int, j: int| 0 <= i < j < out.len() ==> out[i] < out[j],
        forall|i: int|
            0 <= i < out.len() ==> is_small_prime_factor(#[trigger] out[i] as int, n as int),
        forall|p: u64| is_small_prime_factor(p as int, n as int) ==> #[trigger] out@.contains(p),
{
    let mut primes = generate();
    let mut out: Vec<u64> = Vec::new();
    let mut open: bool = true;
    while open
        invariant
            primes.wf(),
            1 <= primes.last() <= u64::MAX,
            forall|i: int, j: int| 0 <= i < j < out.len() ==> out[i] < out[j],
            forall|i: int|
                0 <= i < out.len() ==> is_small_prime_factor(#[trigger] out[i] as int, n as int)
                    && out[i] <= primes.last(),
            open ==> forall|p: u64|
                p <= primes.last() && is_small_prime_factor(p as int, n as int)
                    ==> #[trigger] out@.contains(p),
            !open ==> forall|p: u64|
                is_small_prime_factor(p as int, n as int) ==> #[trigger] out@.contains(p),
        decreases u64::MAX - primes.last(), if open { 1int } else { 0int },
    {
        let ghost scanned = primes.last();
        match primes.next() {
            Some(p) => {
                let below = match p.checked_mul(p) {
                    Some(square) => square < n,
                    None => false,
                };
                if below {
                    if n % p == 0 {
                        proof {
                            assert forall|q: u64|
                                q <= p && is_small_prime_factor(
                                    q as int,
                                    n as int,
                                ) implies #[trigger] out@.push(p).contains(q) by {
                                lemma_push_contains(out@, p, q);
                            }
                        }
                        out.push(p);
                    }
                } else {
                    proof {
                        assert forall|q: u64|
                            is_small_prime_factor(q as int, n as int) implies #[trigger] out@.contains(
                            q,
                        ) by {
                            if q >= p {
                                assert(q * q >= p * p) by (nonlinear_arith)
                                    requires
                                        q >= p,
                                ;
                            }
                            assert(q <= scanned);
                        }
                    }
                    open = false;
                }
            },
            None => {
                open = false;
            },
        }
    }
    out
}

/// The largest prime factor of `n` that lies strictly below its square root.
pub fn solve(n: u64) -> (largest: u64)
    requires
        exists|p: u64| is_small_prime_factor(p as int, n as int),
    ensures
        is_small_prime_factor(largest as int, n as int),
        forall|p: u64| is_small_prime_factor(p as int, n as int) ==> p <= largest,
{
    let mut factors = factors_for(n);
    let ghost all = factors@;
    proof {
        let p = choose|p: u64| is_small_prime_factor(p as int, n as int);
        assert(all.contains(p));
    }
    let largest = factors.pop().unwrap();
    proof {
        assert(largest == all[all.len() - 1]);
        assert forall|p: u64| is_small_prime_factor(p as int, n as int) implies p <= largest by {
            assert(all.contains(p));
            let i = choose|i: int| 0 <= i < all.len() && all[i] == p;
            if i < all.len() - 1 {
                assert(all[i] < all[all.len() - 1]);
            }
        }
    }
    largest
}

} // verus!
