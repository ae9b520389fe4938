//! Shared helpers: decimal digit decomposition and a memoizing cache.

use crate::sequence::LazySequence;
use std::collections::HashMap;
use std::hash::Hash;
use vstd::prelude::*;
use vstd::std_specs::hash::*;

verus! {

/// The decimal digits of `n`, most significant first; empty for zero.
pub open spec fn digits_of(n: nat) -> Seq<u64>
    decreases n,
{
    if n == 0 {
        Seq::empty()
    } else {
        digits_of(n / 10).push((n % 10) as u64)
    }
}

/// The number written by the digits `s`, most significant first:
/// the accumulator times ten plus the digit, over all of `s`.
pub open spec fn number_from_digits(s: Seq<u64>) -> nat
    decreases s.len(),
{
    if s.len() == 0 {
        0
    } else {
        number_from_digits(s.drop_last()) * 10 + s.last() as nat
    }
}

/// The sum of the decimal digits of `n`.
pub open spec fn digit_sum(n: nat) -> nat
    decreases n,
{
    if n == 0 {
        0
    } else {
        n % 10 + digit_sum(n / 10)
    }
}

/// The decimal digits of `n`, least significant first; empty for zero.
pub open spec fn low_digits(n: nat) -> Seq<u64>
    decreases n,
{
    if n == 0 {
        Seq::empty()
    } else {
        seq![(n % 10) as u64] + low_digits(n / 10)
    }
}

/// The digits of `n` add up to its digit sum.
pub proof fn lemma_low_digits_total(n: nat)
    ensures
        crate::seqs::total(low_digits(n)) == digit_sum(n),
    decreases n,
{
    if n > 0 {
        lemma_low_digits_total(n / 10);
        crate::seqs::lemma_total_drop_first(low_digits(n));
        assert(low_digits(n).drop_first() =~= low_digits(n / 10));
    }
}

/// The sequence `s` read back to front.
pub open spec fn reversed(s: Seq<u64>) -> Seq<u64> {
    Seq::new(s.len(), |i: int| s[s.len() - 1 - i])
}

/// Reassembling the digits of `n` gives `n` back, and every digit is below ten.
pub proof fn lemma_digits_round_trip(n: nat)
    ensures
        number_from_digits(digits_of(n)) == n,
        forall|i: int| 0 <= i < digits_of(n).len() ==> #[trigger] digits_of(n)[i] < 10,
        n == 0 <==> digits_of(n).len() == 0,
        n > 0 ==> digits_of(n)[0] != 0,
    decreases n,
{
    if n > 0 {
        lemma_digits_round_trip(n / 10);
        assert(digits_of(n).drop_last() =~= digits_of(n / 10));
    }
}

/// A cursor over the decimal digits of a number, least significant first.
pub struct IterDigits {
    n: u64,
}

impl IterDigits {
    /// The magnitude whose digits are still to come.
    pub closed spec fn remaining(&self) -> nat {
        self.n as nat
    }

    /// A cursor over the digits of `n`.
    pub fn new(n: u64) -> (it: IterDigits)
        ensures
            it.remaining() == n,
    {
        IterDigits { n }
    }

    /// Strips and returns the least significant remaining digit; `None` once
    /// the remaining magnitude is zero.
    pub fn next(&mut self) -> (digit: Option<u64>)
        ensures
            old(self).remaining() == 0 ==> digit.is_none() && final(self).remaining() == 0,
            old(self).remaining() > 0 ==> digit == Some((old(self).remaining() % 10) as u64)
                && final(self).remaining() == old(self).remaining() / 10,
    {
        if self.n > 0 {
            let d = self.n % 10;
            self.n = self.n / 10;
            return Some(d);
        }
        None
    }
}

impl LazySequence for IterDigits {
    type Item = u64;

    open spec fn ready(&self) -> bool {
        true
    }

    open spec fn pulls(&self, after: &Self, item: Option<u64>) -> bool {
        if self.remaining() == 0 {
            item.is_none() && after.remaining() == 0
        } else {
            item == Some((self.remaining() % 10) as u64) && after.remaining() == self.remaining()
                / 10
        }
    }

    fn advance(&mut self) -> (item: Option<u64>) {
        self.next()
    }
}

/// The decimal digits of `x`, most significant first. Zero has no digits.
pub fn int_to_digits(x: u64) -> (digits: Vec<u64>)
    ensures
        digits@ == digits_of(x as nat),
{
    let mut it = IterDigits::new(x);
    let mut low: Vec<u64> = Vec::new();
    let mut more: bool = true;
    while more
        invariant
            digits_of(x as nat) == digits_of(it.remaining()) + reversed(low@),
            !more ==> it.remaining() == 0,
        decreases it.remaining(), if more { 1int } else { 0int },
    {
        let ghost before = it.remaining();
        let ghost shorter = low@;
        match it.next() {
            Some(d) => {
                low.push(d);
                assert(digits_of(before) + reversed(shorter) =~= digits_of(before / 10) + reversed(
                    low@,
                ));
            },
            None => {
                more = false;
            },
        }
    }
    let mut digits: Vec<u64> = Vec::new();
    let mut i: usize = low.len();
    while i > 0
        invariant
            i <= low.len(),
            digits.len() == low.len() - i,
            forall|j: int| 0 <= j < digits.len() ==> digits[j] == low[low.len() - 1 - j],
        decreases i,
    {
        i = i - 1;
        digits.push(low[i]);
    }
    assert(digits@ =~= digits_of(x as nat));
    digits
}

/// A cache around a single-argument function: each distinct argument is
/// evaluated once, and later calls with it return the stored result.
pub struct Memo<F, A, R> {
    data: HashMap<A, R>,
    func: F,
    evaluated: Ghost<nat>,
}

impl<F: Fn(A) -> R, A, R> Memo<F, A, R> where A: Eq + Hash + Copy, R: Copy {
    /// The results stored so far, by argument.
    pub closed spec fn stored(&self) -> Map<A, R> {
        self.data@
    }

    /// The wrapped function.
    pub closed spec fn function(&self) -> F {
        self.func
    }

    /// How often the wrapped function has been evaluated.
    pub closed spec fn evaluations(&self) -> nat {
        self.evaluated@
    }

    /// Every stored result is one the wrapped function gives for its
    /// argument, and there is one evaluation per stored argument.
    pub open spec fn wf(&self) -> bool {
        &&& obeys_key_model::<A>()
        &&& self.stored().dom().finite()
        &&& self.evaluations() == self.stored().dom().len()
        &&& forall|a: A| #[trigger]
            self.stored().contains_key(a) ==> call_ensures(
                self.function(),
                (a,),
                self.stored()[a],
            )
    }

    /// The result of the wrapped function for `arg`: evaluated on the first
    /// call with `arg`, taken from the store on every later one.
    pub fn call(&mut self, arg: A) -> (result: R)
        requires
            old(self).wf(),
            call_requires(old(self).function(), (arg,)),
        ensures
            final(self).wf(),
            final(self).function() == old(self).function(),
            call_ensures(old(self).function(), (arg,), result),
            old(self).stored().contains_key(arg) ==> result == old(self).stored()[arg],
            final(self).stored() == old(self).stored().insert(arg, result),
            final(self).evaluations() == old(self).evaluations() + if old(
                self,
            ).stored().contains_key(arg) {
                0nat
            } else {
                1nat
            },
            final(self).evaluations() == final(self).stored().dom().len(),
    {
        broadcast use group_hash_axioms;

        let ghost before = self.data@;
        let result = match self.data.remove(&arg) {
            Some(r) => r,
            None => {
                proof {
                    self.evaluated@ = self.evaluated@ + 1;
                }
                (self.func)(arg)
            },
        };
        self.data.insert(arg, result);
        assert(self.data@ =~= before.insert(arg, result));
        result
    }
}

/// The result of `f` is fixed by its argument.
pub open spec fn is_pure<F: Fn(A) -> R, A, R>(f: F) -> bool {
    forall|a: A, r1: R, r2: R|
        #[trigger] call_ensures(f, (a,), r1) && #[trigger] call_ensures(f, (a,), r2) ==> r1 == r2
}

/// Wrapping a pure function changes no result: what the cache holds for an
/// argument, and so returns for it, is what a direct call returns.
pub proof fn lemma_cache_is_transparent<F: Fn(A) -> R, A: Eq + Hash + Copy, R: Copy>(
    cache: Memo<F, A, R>,
    arg: A,
    direct: R,
)
    requires
        cache.wf(),
        is_pure(cache.function()),
        cache.stored().contains_key(arg),
        call_ensures(cache.function(), (arg,), direct),
    ensures
        cache.stored()[arg] == direct,
{
}

/// Wraps `func` in an empty cache.
pub fn memoized<F, A, R>(func: F) -> (cache: Memo<F, A, R>) where
    F: Fn(A) -> R,
    A: Eq + Hash + Copy,
    R: Copy,

    requires
        obeys_key_model::<A>(),
    ensures
        cache.wf(),
        cache.function() == func,
        cache.stored() == Map::<A, R>::empty(),
        cache.evaluations() == 0,
{
    Memo { data: HashMap::new(), func, evaluated: Ghost(0) }
}

} // verus!
