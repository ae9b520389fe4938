//! Collatz chains, and the start in a range that gives the longest one.

use crate::ranges::{bounds, is_empty_range};
use crate::sequence::LazySequence;
use std::ops::RangeInclusive;
use vstd::prelude::*;

verus! {

/// The Collatz successor of `x`: half of an even `x`, `3x + 1` for an odd one.
pub open spec fn collatz_step(x: nat) -> nat {
    if x % 2 == 0 {
        x / 2
    } else {
        3 * x + 1
    }
}

/// The value `k` steps after `start`.
pub open spec fn collatz_at(start: nat, k: nat) -> nat
    decreases k,
{
    if k == 0 {
        start
    } else {
        collatz_step(collatz_at(start, (k - 1) as nat))
    }
}

/// The chain from `start` meets 1 for the first time after `steps` steps,
/// and up to there every successor fits in 64 bits.
pub open spec fn reaches_one_in(start: nat, steps: nat) -> bool {
    &&& collatz_at(start, steps) == 1
    &&& forall|j: nat|
        j < steps ==> #[trigger] collatz_at(start, j) != 1 && collatz_step(collatz_at(start, j))
            <= u64::MAX
}

/// The chain from `start` ends, within 64 bits and with a length that fits
/// in `usize`.
pub open spec fn chain_ends(start: nat) -> bool {
    exists|steps: nat| #[trigger] reaches_one_in(start, steps) && steps < usize::MAX
}

/// The number of terms of the chain from `start`, its final 1 included.
pub open spec fn chain_length(start: nat) -> nat {
    (choose|steps: nat| #[trigger] reaches_one_in(start, steps) && steps < usize::MAX) + 1
}

/// The chain from `start` has met 1 within its first `k` steps.
pub open spec fn has_met_one(start: nat, k: nat) -> bool
    decreases k,
{
    collatz_at(start, k) == 1 || (k > 0 && has_met_one(start, (k - 1) as nat))
}

/// Up to where the chain from `start` meets 1, if it ever does, every
/// successor fits in 64 bits.
pub open spec fn stays_in_range(start: nat) -> bool {
    forall|k: nat| !#[trigger] has_met_one(start, k) ==> collatz_step(collatz_at(start, k)) <= u64::MAX
}

/// The chain from the successor of `start` is the chain from `start` one
/// step on.
pub proof fn lemma_chain_shifts(start: nat, k: nat)
    ensures
        collatz_at(collatz_step(start), k) == collatz_at(start, k + 1),
        start != 1 && !has_met_one(collatz_step(start), k) ==> !has_met_one(start, k + 1),
    decreases k,
{
    if k > 0 {
        lemma_chain_shifts(start, (k - 1) as nat);
    } else {
        assert(collatz_at(start, 1) == collatz_step(collatz_at(start, 0)));
        assert(has_met_one(start, 0) == (start == 1));
    }
}

/// A chain meets 1 for the first time only once.
pub proof fn lemma_first_one_is_unique(start: nat, a: nat, b: nat)
    requires
        reaches_one_in(start, a),
        reaches_one_in(start, b),
    ensures
        a == b,
{
    if a < b {
        assert(collatz_at(start, a) != 1);
    }
    if b < a {
        assert(collatz_at(start, b) != 1);
    }
}

/// A cursor over a Collatz chain: it yields the start first and stops
/// after yielding 1.
pub struct Collatz {
    n: Option<u64>,
}

impl Collatz {
    /// The value to be produced next, if any.
    pub closed spec fn pending(&self) -> Option<u64> {
        self.n
    }

    /// Produces the pending value and moves to its successor; `None` once 1
    /// has been produced. The successor has to fit in 64 bits.
    pub fn next(&mut self) -> (item: Option<u64>)
        requires
            old(self).pending() matches Some(x) ==> x == 1 || collatz_step(x as nat) <= u64::MAX,
        ensures
            item == old(self).pending(),
            final(self).pending() == match old(self).pending() {
                None => None::<u64>,
                Some(x) => if x == 1 {
                    None
                } else {
                    Some(collatz_step(x as nat) as u64)
                },
            },
    {
        let current = self.n;
        let next = match current {
            None => None,
            Some(x) => {
                if x == 1 {
                    None
                } else if x % 2 == 0 {
                    Some(x / 2)
                } else {
                    Some(x * 3 + 1)
                }
            },
        };
        self.n = next;
        current
    }

    /// Everything the cursor has yet to produce, in order: the chain from
    /// the pending value down to 1.
    pub fn collect(self) -> (terms: Vec<u64>)
        requires
            self.pending() matches Some(x) ==> chain_ends(x as nat),
        ensures
            match self.pending() {
                None => terms.len() == 0,
                Some(x) => terms.len() == chain_length(x as nat) && forall|i: int|
                    0 <= i < terms.len() ==> #[trigger] terms[i] == collatz_at(x as nat, i as nat),
            },
    {
        let mut terms: Vec<u64> = Vec::new();
        let mut chain = self;
        let start = match chain.n {
            None => {
                return terms;
            },
            Some(x) => x,
        };
        let ghost steps = choose|steps: nat| #[trigger]
            reaches_one_in(start as nat, steps) && steps < usize::MAX;
        let mut more: bool = true;
        while more
            invariant
                reaches_one_in(start as nat, steps),
                steps < usize::MAX,
                terms.len() <= steps + 1,
                more && terms.len() <= steps ==> chain.pending() == Some(
                    collatz_at(start as nat, terms.len() as nat) as u64,
                ) && collatz_at(start as nat, terms.len() as nat) <= u64::MAX,
                terms.len() == steps + 1 ==> chain.pending().is_none(),
                !more ==> terms.len() == steps + 1,
                forall|i: int|
                    0 <= i < terms.len() ==> #[trigger] terms[i] == collatz_at(
                        start as nat,
                        i as nat,
                    ),
            decreases steps + 1 - terms.len(), if more { 1int } else { 0int },
        {
            proof {
                if terms.len() < steps {
                    assert(collatz_at(start as nat, terms.len() as nat) != 1);
                    assert(collatz_at(start as nat, (terms.len() + 1) as nat) == collatz_step(
                        collatz_at(start as nat, terms.len() as nat),
                    ));
                }
            }
            match chain.next() {
                Some(x) => {
                    terms.push(x);
                },
                None => {
                    more = false;
                },
            }
        }
        terms
    }
}

impl LazySequence for Collatz {
    type Item = u64;

    open spec fn ready(&self) -> bool {
        self.pending() matches Some(x) ==> stays_in_range(x as nat)
    }

    open spec fn pulls(&self, after: &Self, item: Option<u64>) -> bool {
        &&& item == self.pending()
        &&& after.pending() == match self.pending() {
            None => None::<u64>,
            Some(x) => if x == 1 {
                None
            } else {
                Some(collatz_step(x as nat) as u64)
            },
        }
    }

    fn advance(&mut self) -> (item: Option<u64>) {
        proof {
            match self.pending() {
                Some(x) => {
                    assert(has_met_one(x as nat, 0) == (x == 1));
                    if x != 1 {
                        assert forall|k: nat| !#[trigger] has_met_one(
                            collatz_step(x as nat),
                            k,
                        ) implies collatz_step(collatz_at(collatz_step(x as nat), k))
                            <= u64::MAX by {
                            lemma_chain_shifts(x as nat, k);
                            assert(!has_met_one(x as nat, k + 1));
                        }
                    }
                },
                None => {},
            }
        }
        self.next()
    }
}

/// A cursor over the Collatz chain that starts at `n`.
pub fn collatz_from(n: u64) -> (chain: Collatz)
    ensures
        chain.pending() == Some(n),
{
    Collatz { n: Some(n) }
}

/// The number of terms of the Collatz chain from `n`, its final 1 included.
///
/// That every chain ends is an open conjecture: the caller vouches for this one.
pub fn collatz_length(n: u64) -> (length: usize)
    requires
        chain_ends(n as nat),
    ensures
        length == chain_length(n as nat),
        length >= 1,
        reaches_one_in(n as nat, (length - 1) as nat),
        forall|steps: nat| #[trigger] reaches_one_in(n as nat, steps) ==> length == steps + 1,
{
    let ghost steps = choose|steps: nat| #[trigger]
        reaches_one_in(n as nat, steps) && steps < usize::MAX;
    let mut chain = collatz_from(n);
    let mut length: usize = 0;
    let mut more: bool = true;
    while more
        invariant
            reaches_one_in(n as nat, steps),
            steps < usize::MAX,
            length <= steps + 1,
            more && length <= steps ==> chain.pending() == Some(
                collatz_at(n as nat, length as nat) as u64,
            ) && collatz_at(n as nat, length as nat) <= u64::MAX,
            length == steps + 1 ==> chain.pending().is_none(),
            !more ==> length == steps + 1,
        decreases steps + 1 - length, if more { 1int } else { 0int },
    {
        proof {
            if length < steps {
                assert(collatz_at(n as nat, length as nat) != 1);
                assert(collatz_at(n as nat, (length + 1) as nat) == collatz_step(
                    collatz_at(n as nat, length as nat),
                ));
            }
        }
        match chain.next() {
            Some(_) => {
                length = length + 1;
            },
            None => {
                more = false;
            },
        }
    }
    proof {
        assert forall|other: nat| #[trigger] reaches_one_in(n as nat, other) implies length
            == other + 1 by {
            lemma_first_one_is_unique(n as nat, steps, other);
        }
    }
    length
}

/// The start in `r` whose Collatz chain is the longest; among starts with
/// chains of equal length, the first.
///
/// The range must not be empty, and the caller vouches for the end of the
/// chain of each of its members.
pub fn solve(r: RangeInclusive<u64>) -> (best: u64)
    requires
        !is_empty_range(r),
        forall|n: u64| r@.start <= n <= r@.end ==> #[trigger] chain_ends(n as nat),
    ensures
        r@.start <= best <= r@.end,
        forall|n: u64|
            r@.start <= n <= r@.end ==> #[trigger] chain_length(n as nat) <= chain_length(
                best as nat,
            ),
        forall|n: u64|
            r@.start <= n < best ==> #[trigger] chain_length(n as nat) < chain_length(best as nat),
{
    match bounds(&r) {
        None => 0,
        Some((lo, hi)) => {
            let mut best: u64 = lo;
            let mut longest: usize = collatz_length(lo);
            let mut n: u64 = lo;
            while n < hi
                invariant
                    lo <= best <= n <= hi,
                    lo == r@.start,
                    hi == r@.end,
                    forall|m: u64| lo <= m <= hi ==> #[trigger] chain_ends(m as nat),
                    longest == chain_length(best as nat),
                    forall|m: u64|
                        lo <= m <= n ==> #[trigger] chain_length(m as nat) <= chain_length(
                            best as nat,
                        ),
                    forall|m: u64|
                        lo <= m < best ==> #[trigger] chain_length(m as nat) < chain_length(
                            best as nat,
                        ),
                decreases hi - n,
            {
                n = n + 1;
                let length = collatz_length(n);
                if length > longest {
                    best = n;
                    longest = length;
                }
            }
            best
        },
    }
}

} // verus!
