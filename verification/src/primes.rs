//! Prime numbers: a trial-division test and an incremental sieve.

use crate::number_theory::{
    consecutive_primes, is_prime_number, last_or, lemma_consecutive_primes_complete,
    lemma_consecutive_primes_count, lemma_consecutive_primes_element,
    lemma_consecutive_primes_push, lemma_least_divisor_is_prime, lemma_multiples_are_spaced,
    lemma_prime_misses_square_of_prime, lemma_primes_between_none, lemma_primes_between_split,
    lemma_product_is_multiple, lemma_sum_of_multiples, next_prime_after, no_proper_divisor,
    primes_between,
};
use crate::sequence::LazySequence;
use std::collections::HashMap;
use vstd::prelude::*;
use vstd::std_specs::hash::*;

verus! {

/// A machine integer type that trial division can run on.
pub trait Whole: Copy {
    /// The integer that a value stands for.
    spec fn as_int(self) -> int;

    /// The value that stands for the small number `x`.
    fn small(x: u8) -> (v: Self)
        ensures
            v.as_int() == x,
    ;

    /// Whether `self` is less than `other`.
    fn is_below(self, other: Self) -> (below: bool)
        ensures
            below == (self.as_int() < other.as_int()),
    ;

    /// Whether the positive `d` divides `self` without remainder.
    fn is_multiple_of(self, d: Self) -> (multiple: bool)
        requires
            0 < d.as_int() < self.as_int(),
        ensures
            multiple == (self.as_int() % d.as_int() == 0),
    ;

    /// The value after `self`, which lies below `above`.
    fn successor(self, above: Self) -> (next: Self)
        requires
            self.as_int() < above.as_int(),
        ensures
            next.as_int() == self.as_int() + 1,
    ;
}

impl Whole for u64 {
    open spec fn as_int(self) -> int {
        self as int
    }

    fn small(x: u8) -> (v: u64) {
        x as u64
    }

    fn is_below(self, other: u64) -> (below: bool) {
        self < other
    }

    fn is_multiple_of(self, d: u64) -> (multiple: bool) {
        self % d == 0
    }

    fn successor(self, above: u64) -> (next: u64) {
        self + 1
    }
}

impl Whole for i64 {
    open spec fn as_int(self) -> int {
        self as int
    }

    fn small(x: u8) -> (v: i64) {
        x as i64
    }

    fn is_below(self, other: i64) -> (below: bool) {
        self < other
    }

    fn is_multiple_of(self, d: i64) -> (multiple: bool) {
        self % d == 0
    }

    fn successor(self, above: i64) -> (next: i64) {
        self + 1
    }
}

/// Trial division: tests every candidate divisor from 2 to `n - 1`.
///
/// For `n >= 2` the answer is primality; a number below 2 has no candidate
/// divisors at all and is accepted.
pub fn is_prime<T: Whole>(n: T) -> (prime: bool)
    ensures
        prime == no_proper_divisor(n.as_int()),
        n.as_int() >= 2 ==> prime == is_prime_number(n.as_int()),
{
    let mut d: T = T::small(2);
    while d.is_below(n)
        invariant
            2 <= d.as_int(),
            d.as_int() <= n.as_int() || n.as_int() < 2,
            forall|e: int| 2 <= e < d.as_int() ==> #[trigger] (n.as_int() % e) != 0,
        decreases n.as_int() - d.as_int(),
    {
        if n.is_multiple_of(d) {
            return false;
        }
        d = d.successor(n);
    }
    true
}

/// The composite `c` is accounted for by the prime `q` when the scan stands
/// at `x`: either `c` is itself a pending strike point, or the strike point
/// of `q` has not passed `c` yet.
pub open spec fn struck(pending: Map<u64, u64>, q: int, c: int, x: int) -> bool {
    ||| pending.contains_key(c as u64)
    ||| exists|k: u64| #[trigger] pending.contains_key(k) && x <= k < c && pending[k] == q
}

/// Every pending strike point lies at or beyond `x` and is a multiple of the
/// prime below `x` that it is recorded for.
pub open spec fn strike_points_valid(pending: Map<u64, u64>, x: int) -> bool {
    forall|k: u64| #[trigger]
        pending.contains_key(k) ==> {
            &&& x <= k
            &&& is_prime_number(pending[k] as int)
            &&& pending[k] < x
            &&& k as int % pending[k] as int == 0
        }
}

/// Every multiple `c >= q * q` of a prime `q < x` that the scan has yet to
/// reach is accounted for.
pub open spec fn multiples_covered(pending: Map<u64, u64>, x: int) -> bool {
    forall|q: int, c: int|
        is_prime_number(q) && q < x && c % q == 0 && q * q <= c && x <= c <= u64::MAX
            ==> #[trigger] struck(pending, q, c, x)
}

/// No prime has more than one pending strike point.
pub open spec fn one_strike_point_each(pending: Map<u64, u64>) -> bool {
    forall|j: u64, k: u64|
        #[trigger] pending.contains_key(j) && #[trigger] pending.contains_key(k) && pending[j]
            == pending[k] ==> j == k
}

/// The invariant of the incremental sieve with every number below `x`
/// scanned: the map holds one next composite to strike per prime, and no
/// composite from `x` on escapes them.
pub open spec fn sieve_invariant(pending: Map<u64, u64>, x: int) -> bool {
    &&& strike_points_valid(pending, x)
    &&& one_strike_point_each(pending)
    &&& multiples_covered(pending, x)
}

/// A number the scan reaches that is no strike point is prime.
pub proof fn lemma_unstruck_is_prime(pending: Map<u64, u64>, x: u64)
    requires
        sieve_invariant(pending, x as int),
        x >= 2,
        !pending.contains_key(x),
    ensures
        is_prime_number(x as int),
{
    if !is_prime_number(x as int) {
        let q = crate::number_theory::least_divisor_from(x as int, 2);
        lemma_least_divisor_is_prime(x as int);
        assert(q < x);
        assert(struck(pending, q, x as int, x as int));
    }
}

/// A strike point is composite.
pub proof fn lemma_struck_is_composite(pending: Map<u64, u64>, x: u64)
    requires
        sieve_invariant(pending, x as int),
        pending.contains_key(x),
    ensures
        !is_prime_number(x as int),
        2 <= pending[x] < x,
{
}

/// Recording the square of a newly found prime `x` (when it fits) keeps the
/// invariant and moves the scan past `x`.
pub proof fn lemma_prime_step(pending: Map<u64, u64>, x: u64, after: Map<u64, u64>)
    requires
        sieve_invariant(pending, x as int),
        is_prime_number(x as int),
        !pending.contains_key(x),
        after == if x * x <= u64::MAX {
            pending.insert((x * x) as u64, x)
        } else {
            pending
        },
    ensures
        sieve_invariant(after, x + 1),
{
    let xi = x as int;
    assert(xi * xi >= 2 * xi) by (nonlinear_arith)
        requires
            xi >= 2,
    ;
    lemma_product_is_multiple(xi, xi);
    assert forall|k: u64| #[trigger] after.contains_key(k) implies {
        &&& x + 1 <= k
        &&& is_prime_number(after[k] as int)
        &&& after[k] < x + 1
        &&& k as int % after[k] as int == 0
    } by {
        if x * x <= u64::MAX && k == (x * x) as u64 {
        } else {
            assert(pending.contains_key(k));
        }
    }
    assert forall|q: int, c: int|
        is_prime_number(q) && q < x + 1 && c % q == 0 && q * q <= c && x + 1 <= c
            <= u64::MAX implies #[trigger] struck(after, q, c, x + 1) by {
        if q == xi {
            let sq = (x * x) as u64;
            assert(after.contains_key(sq));
            if c != sq {
                assert(after.contains_key(sq) && x + 1 <= sq < c && after[sq] == q);
            }
        } else {
            assert(struck(pending, q, c, xi));
            if !pending.contains_key(c as u64) {
                let k = choose|k: u64| #[trigger]
                    pending.contains_key(k) && xi <= k < c && pending[k] == q;
                lemma_prime_misses_square_of_prime(q, xi);
                assert(k as int != xi * xi);
                assert(after.contains_key(k) && x + 1 <= k < c && after[k] == q);
            }
        }
    }
}

/// Moving the strike point of `f` from the composite `x` to its next free
/// multiple `v` (or dropping it when no multiple is left in range) keeps the
/// invariant and moves the scan past `x`.
pub proof fn lemma_composite_step(
    pending: Map<u64, u64>,
    x: u64,
    v: Option<u64>,
    after: Map<u64, u64>,
)
    requires
        sieve_invariant(pending, x as int),
        pending.contains_key(x),
        match v {
            Some(w) => {
                &&& x < w
                &&& w as int % pending[x] as int == 0
                &&& !pending.remove(x).contains_key(w)
                &&& forall|c: int|
                    x < c < w && c % (pending[x] as int) == 0 ==> #[trigger] pending.remove(
                        x,
                    ).contains_key(c as u64)
                &&& after == pending.remove(x).insert(w, pending[x])
            },
            None => {
                &&& forall|c: int|
                    x < c <= u64::MAX && c % (pending[x] as int) == 0
                        ==> #[trigger] pending.remove(x).contains_key(c as u64)
                &&& after == pending.remove(x)
            },
        },
    ensures
        sieve_invariant(after, x + 1),
{
    let f = pending[x];
    let rest = pending.remove(x);
    lemma_struck_is_composite(pending, x);
    assert forall|k: u64| #[trigger] after.contains_key(k) implies {
        &&& x + 1 <= k
        &&& is_prime_number(after[k] as int)
        &&& after[k] < x + 1
        &&& k as int % after[k] as int == 0
    } by {
        if v is Some && k == v->0 {
        } else {
            assert(pending.contains_key(k));
        }
    }
    assert forall|q: int, c: int|
        is_prime_number(q) && q < x + 1 && c % q == 0 && q * q <= c && x + 1 <= c
            <= u64::MAX implies #[trigger] struck(after, q, c, x + 1) by {
        assert(struck(pending, q, c, x as int));
        if pending.contains_key(c as u64) {
            assert(rest.contains_key(c as u64));
            assert(after.contains_key(c as u64));
        } else {
            let k = choose|k: u64| #[trigger]
                pending.contains_key(k) && x <= k < c && pending[k] == q;
            if k != x {
                assert(rest.contains_key(k));
                assert(after.contains_key(k) && x + 1 <= k < c && after[k] == q);
            } else {
                match v {
                    Some(w) => {
                        if c < w {
                            assert(rest.contains_key(c as u64));
                        } else if c > w {
                            assert(after.contains_key(w) && x + 1 <= w < c && after[w] == q);
                        }
                    },
                    None => {
                        assert(rest.contains_key(c as u64));
                    },
                }
            }
        }
    }
}

/// An unbounded, strictly increasing producer of the prime numbers: a sieve
/// that keeps, for each prime found so far, only the next composite it will
/// strike.
pub struct Generator {
    factors: HashMap<u64, u64>,
    current: u64,
}

impl Generator {
    /// The value most recently produced; 1 before the first.
    pub closed spec fn last(&self) -> int {
        self.current as int
    }

    /// The pending strike points: each maps the next composite that a prime
    /// found so far will strike to that prime.
    pub closed spec fn pending(&self) -> Map<u64, u64> {
        self.factors@
    }

    /// The strike points are those of a sieve that has scanned everything
    /// up to `last()`.
    pub open spec fn wf(&self) -> bool {
        self.last() >= 1 && sieve_invariant(self.pending(), self.last() + 1)
    }

    /// Produces the next prime, or `None` once no further prime fits in 64 bits.
    pub fn next(&mut self) -> (produced: Option<u64>)
        requires
            old(self).wf(),
        ensures
            final(self).wf(),
            match produced {
                Some(p) => next_prime_after(old(self).last(), p as int) && final(self).last() == p,
                None => final(self).last() == u64::MAX && forall|y: int|
                    old(self).last() < y <= u64::MAX ==> !#[trigger] is_prime_number(y),
            },
    {
        broadcast use group_hash_axioms;

        let mut x: u64 = self.current;
        while x < u64::MAX
            invariant
                self.current == old(self).current,
                1 <= self.current <= x,
                sieve_invariant(self.factors@, x + 1),
                forall|y: int| self.current < y <= x ==> !#[trigger] is_prime_number(y),
            decreases u64::MAX - x,
        {
            x = x + 1;
            let ghost before = self.factors@;
            match self.factors.remove(&x) {
                None => {
                    // no prime strikes `x`: it is prime, and its square is
                    // the first multiple that no smaller prime accounts for
                    proof {
                        assert(self.factors@ =~= before);
                        lemma_unstruck_is_prime(before, x);
                    }
                    match x.checked_mul(x) {
                        Some(square) => {
                            self.factors.insert(square, x);
                        },
                        None => {},
                    }
                    proof {
                        lemma_prime_step(before, x, self.factors@);
                    }
                    self.current = x;
                    return Some(x);
                },
                Some(f) => {
                    // `f` strikes `x`: move it on to its next multiple that
                    // is not taken, if there is one left in range
                    proof {
                        lemma_struck_is_composite(before, x);
                    }
                    let ghost rest = self.factors@;
                    let mut v: u64 = x;
                    let mut placed: bool = false;
                    let ghost mut landing: Option<u64> = None;
                    while !placed
                        invariant
                            self.current == old(self).current,
                            2 <= f < x <= v,
                            f == before[x],
                            before.contains_key(x),
                            rest == before.remove(x),
                            v as int % f as int == 0,
                            x as int % f as int == 0,
                            !placed ==> self.factors@ == rest,
                            !placed ==> forall|c: int|
                                x < c <= v && c % (f as int) == 0 ==> #[trigger] rest.contains_key(
                                    c as u64,
                                ),
                            placed ==> self.factors@ == rest.insert(v, f),
                            placed ==> x < v && !rest.contains_key(v),
                            placed ==> forall|c: int|
                                x < c < v && c % (f as int) == 0 ==> #[trigger] rest.contains_key(
                                    c as u64,
                                ),
                            placed ==> landing == Some(v),
                            !placed ==> landing.is_none(),
                        ensures
                            match landing {
                                Some(w) => {
                                    &&& x < w
                                    &&& w as int % f as int == 0
                                    &&& !rest.contains_key(w)
                                    &&& forall|c: int|
                                        x < c < w && c % (f as int) == 0
                                            ==> #[trigger] rest.contains_key(c as u64)
                                    &&& self.factors@ == rest.insert(w, f)
                                },
                                None => {
                                    &&& forall|c: int|
                                        x < c <= u64::MAX && c % (f as int) == 0
                                            ==> #[trigger] rest.contains_key(c as u64)
                                    &&& self.factors@ == rest
                                },
                            },
                        decreases u64::MAX - v, if placed { 0int } else { 1int },
                    {
                        match v.checked_add(f) {
                            None => {
                                proof {
                                    assert forall|c: int|
                                        x < c <= u64::MAX && c % (f as int)
                                            == 0 implies #[trigger] rest.contains_key(c as u64) by {
                                        if c > v {
                                            lemma_multiples_are_spaced(v as int, c, f as int);
                                        }
                                    }
                                }
                                break ;
                            },
                            Some(w) => {
                                proof {
                                    lemma_sum_of_multiples(v as int, f as int, f as int);
                                    assert forall|c: int|
                                        x < c < w && c % (f as int)
                                            == 0 implies #[trigger] rest.contains_key(c as u64) by {
                                        if c > v {
                                            lemma_multiples_are_spaced(v as int, c, f as int);
                                        }
                                    }
                                }
                                v = w;
                                if !self.factors.contains_key(&v) {
                                    self.factors.insert(v, f);
                                    placed = true;
                                    proof {
                                        landing = Some(v);
                                    }
                                }
                            },
                        }
                    }
                    proof {
                        lemma_composite_step(before, x, landing, self.factors@);
                    }
                },
            }
        }
        self.current = x;
        None
    }

    /// Produces up to `n` further primes; fewer only when no more fit in 64 bits.
    pub fn take(&mut self, n: usize) -> (out: Vec<u64>)
        requires
            old(self).wf(),
        ensures
            final(self).wf(),
            consecutive_primes(old(self).last(), out@),
            out.len() <= n,
            out.len() == n ==> final(self).last() == last_or(old(self).last(), out@),
            out.len() < n ==> final(self).last() == u64::MAX && forall|y: int|
                last_or(old(self).last(), out@) < y <= u64::MAX ==> !#[trigger] is_prime_number(y),
    {
        let mut out: Vec<u64> = Vec::new();
        let mut exhausted: bool = false;
        while out.len() < n && !exhausted
            invariant
                self.wf(),
                consecutive_primes(old(self).last(), out@),
                out.len() <= n,
                !exhausted ==> self.last() == last_or(old(self).last(), out@),
                exhausted ==> out.len() < n && self.last() == u64::MAX && forall|y: int|
                    last_or(old(self).last(), out@) < y <= u64::MAX ==> !#[trigger] is_prime_number(
                        y,
                    ),
            decreases n - out.len(), if exhausted { 0int } else { 1int },
        {
            match self.next() {
                Some(p) => {
                    proof {
                        lemma_consecutive_primes_push(old(self).last(), out@, p);
                    }
                    out.push(p);
                },
                None => {
                    exhausted = true;
                },
            }
        }
        out
    }

    /// Skips `n` primes and produces the one after them, or `None` when fewer
    /// than `n + 1` further primes fit in 64 bits.
    pub fn nth(&mut self, n: usize) -> (produced: Option<u64>)
        requires
            old(self).wf(),
        ensures
            final(self).wf(),
            match produced {
                Some(p) => {
                    &&& old(self).last() < p
                    &&& is_prime_number(p as int)
                    &&& primes_between(old(self).last(), p as int) == n + 1
                    &&& final(self).last() == p
                },
                None => {
                    &&& final(self).last() == u64::MAX
                    &&& primes_between(old(self).last(), u64::MAX as int) <= n
                },
            },
    {
        let skipped = self.take(n);
        proof {
            lemma_consecutive_primes_count(old(self).last(), skipped@);
        }
        let ghost mid = last_or(old(self).last(), skipped@);
        if skipped.len() < n {
            proof {
                lemma_primes_between_none(mid, u64::MAX as int);
                lemma_primes_between_split(old(self).last(), mid, u64::MAX as int);
            }
            return None;
        }
        let produced = self.next();
        proof {
            match produced {
                Some(p) => {
                    lemma_consecutive_primes_push(old(self).last(), skipped@, p);
                    lemma_consecutive_primes_count(old(self).last(), skipped@.push(p));
                },
                None => {
                    lemma_primes_between_none(mid, u64::MAX as int);
                    lemma_primes_between_split(old(self).last(), mid, u64::MAX as int);
                },
            }
        }
        produced
    }

    /// Produces primes for as long as they stay below `limit`. The first prime
    /// at or above `limit`, if one fits in 64 bits, is consumed and dropped.
    pub fn take_while_below(&mut self, limit: u64) -> (out: Vec<u64>)
        requires
            old(self).wf(),
        ensures
            final(self).wf(),
            consecutive_primes(old(self).last(), out@),
            forall|i: int| 0 <= i < out.len() ==> #[trigger] out[i] < limit,
            forall|y: int|
                last_or(old(self).last(), out@) < y < limit ==> !#[trigger] is_prime_number(y),
            (final(self).last() >= limit && next_prime_after(
                last_or(old(self).last(), out@),
                final(self).last(),
            )) || (final(self).last() == u64::MAX && forall|y: int|
                last_or(old(self).last(), out@) < y <= u64::MAX ==> !#[trigger] is_prime_number(y)),
    {
        let mut out: Vec<u64> = Vec::new();
        let mut open: bool = true;
        while open
            invariant
                self.wf(),
                consecutive_primes(old(self).last(), out@),
                forall|i: int| 0 <= i < out.len() ==> #[trigger] out[i] < limit,
                open ==> self.last() == last_or(old(self).last(), out@),
                !open ==> forall|y: int|
                    last_or(old(self).last(), out@) < y < limit ==> !#[trigger] is_prime_number(y),
                !open ==> (self.last() >= limit && next_prime_after(
                    last_or(old(self).last(), out@),
                    self.last(),
                )) || (self.last() == u64::MAX && forall|y: int|
                    last_or(old(self).last(), out@) < y <= u64::MAX ==> !#[trigger] is_prime_number(
                        y,
                    )),
            decreases u64::MAX - self.last(), if open { 1int } else { 0int },
        {
            match self.next() {
                Some(p) => {
                    if p < limit {
                        proof {
                            lemma_consecutive_primes_push(old(self).last(), out@, p);
                        }
                        out.push(p);
                    } else {
                        open = false;
                    }
                },
                None => {
                    open = false;
                },
            }
        }
        out
    }
}

/// Between 2 and the last value it has produced, a fresh generator has
/// produced exactly the numbers that trial division accepts.
pub proof fn lemma_generator_agrees_with_trial_division(produced: Seq<u64>, n: u64)
    requires
        consecutive_primes(1, produced),
        2 <= n <= last_or(1, produced),
    ensures
        produced.contains(n) <==> no_proper_divisor(n as int),
{
    if no_proper_divisor(n as int) {
        lemma_consecutive_primes_complete(1, produced, n as int);
    }
    if produced.contains(n) {
        let i = choose|i: int| 0 <= i < produced.len() && produced[i] == n;
        lemma_consecutive_primes_element(1, produced, i);
    }
}

impl LazySequence for Generator {
    type Item = u64;

    open spec fn ready(&self) -> bool {
        self.wf()
    }

    open spec fn pulls(&self, after: &Self, item: Option<u64>) -> bool {
        match item {
            Some(p) => next_prime_after(self.last(), p as int) && after.last() == p,
            None => after.last() == u64::MAX && forall|y: int|
                self.last() < y <= u64::MAX ==> !#[trigger] is_prime_number(y),
        }
    }

    fn advance(&mut self) -> (item: Option<u64>) {
        self.next()
    }
}

/// A fresh prime generator, positioned before 2.
pub fn generate() -> (g: Generator)
    ensures
        g.wf(),
        g.last() == 1,
        g.pending() == Map::<u64, u64>::empty(),
{
    Generator { factors: HashMap::new(), current: 1 }
}

} // verus!
