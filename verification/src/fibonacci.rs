//! The two-term linear recurrence seeded at (one, one), over any term type
//! that offers a unit and an addition.

use crate::bigint::{big_add, big_clone, big_digits, big_one, magnitude};
use crate::sequence::LazySequence;
use num::BigUint;
use vstd::prelude::*;

verus! {

/// The classical sequence 1, 1, 2, 3, 5, 8, ... over the naturals.
pub open spec fn fibonacci(k: nat) -> nat
    decreases k,
{
    if k <= 1 {
        1
    } else {
        fibonacci((k - 2) as nat) + fibonacci((k - 1) as nat)
    }
}

/// A type whose values can serve as terms of the recurrence.
pub trait Term: Sized {
    /// The natural number that a term stands for.
    spec fn value(&self) -> nat;

    /// What adding terms that stand for `a` and `b` gives: the sum itself
    /// for an unbounded type, the type's overflow rule otherwise.
    spec fn sum_of(a: nat, b: nat) -> nat;

    /// The multiplicative identity.
    fn one() -> (unit: Self)
        ensures
            unit.value() == 1,
    ;

    /// The sum of two terms.
    fn plus(&self, rhs: &Self) -> (sum: Self)
        ensures
            sum.value() == Self::sum_of(self.value(), rhs.value()),
    ;

    /// A copy of a term.
    fn duplicate(&self) -> (copy: Self)
        ensures
            copy.value() == self.value(),
    ;
}

/// 64-bit terms. Addition wraps around modulo 2^64: from the first term that
/// exceeds `u64::MAX` on, the generated values differ from `fibonacci`.
impl Term for u64 {
    open spec fn value(&self) -> nat {
        *self as nat
    }

    open spec fn sum_of(a: nat, b: nat) -> nat {
        if a + b > u64::MAX {
            (a + b - 0x1_0000_0000_0000_0000) as nat
        } else {
            a + b
        }
    }

    fn one() -> (unit: u64) {
        1
    }

    fn plus(&self, rhs: &u64) -> (sum: u64) {
        self.wrapping_add(*rhs)
    }

    fn duplicate(&self) -> (copy: u64) {
        *self
    }
}

/// Arbitrary-precision terms: addition never overflows.
impl Term for BigUint {
    open spec fn value(&self) -> nat {
        magnitude(big_digits(*self))
    }

    open spec fn sum_of(a: nat, b: nat) -> nat {
        a + b
    }

    fn one() -> (unit: BigUint) {
        big_one()
    }

    fn plus(&self, rhs: &BigUint) -> (sum: BigUint) {
        big_add(self, rhs)
    }

    fn duplicate(&self) -> (copy: BigUint) {
        big_clone(self)
    }
}

/// Term `k` of the recurrence as the term type `T` computes it.
pub open spec fn term<T: Term>(k: nat) -> nat
    decreases k,
{
    if k <= 1 {
        1
    } else {
        T::sum_of(term::<T>((k - 2) as nat), term::<T>((k - 1) as nat))
    }
}

/// Over `BigUint` the generated terms are the Fibonacci numbers.
pub proof fn lemma_big_terms_are_fibonacci(k: nat)
    ensures
        term::<BigUint>(k) == fibonacci(k),
    decreases k,
{
    if k > 1 {
        lemma_big_terms_are_fibonacci((k - 2) as nat);
        lemma_big_terms_are_fibonacci((k - 1) as nat);
    }
}

/// The Fibonacci numbers never decrease.
pub proof fn lemma_fibonacci_monotonic(i: nat, j: nat)
    requires
        i <= j,
    ensures
        1 <= fibonacci(i) <= fibonacci(j),
    decreases j,
{
    if j > 1 {
        if i < j {
            lemma_fibonacci_monotonic(i, (j - 1) as nat);
        }
        lemma_fibonacci_monotonic(0, (j - 2) as nat);
    }
}

/// Over `u64` the generated terms are the Fibonacci numbers for as long as
/// these fit in 64 bits.
pub proof fn lemma_small_terms_are_fibonacci(k: nat)
    requires
        fibonacci(k) <= u64::MAX,
    ensures
        term::<u64>(k) == fibonacci(k),
    decreases k,
{
    if k > 1 {
        lemma_fibonacci_monotonic((k - 2) as nat, k);
        lemma_fibonacci_monotonic((k - 1) as nat, k);
        lemma_small_terms_are_fibonacci((k - 2) as nat);
        lemma_small_terms_are_fibonacci((k - 1) as nat);
    }
}

/// A never-ending producer of the terms of the recurrence.
pub struct Generator<T> {
    curr: T,
    next: T,
    count: Ghost<nat>,
}

impl<T: Term> Generator<T> {
    /// How many terms have been produced so far.
    pub closed spec fn produced(&self) -> nat {
        self.count@
    }

    /// The value of the term produced last; of term 0 before the first.
    pub closed spec fn current(&self) -> nat {
        self.curr.value()
    }

    /// The value of the term to be produced next.
    pub closed spec fn upcoming(&self) -> nat {
        self.next.value()
    }

    /// After `k` productions the generator holds terms `k` and `k + 1`.
    pub open spec fn wf(&self) -> bool {
        &&& self.current() == term::<T>(self.produced())
        &&& self.upcoming() == term::<T>(self.produced() + 1)
    }

    /// Produces the next term; the sequence never ends.
    pub fn next(&mut self) -> (item: Option<T>)
        requires
            old(self).wf(),
        ensures
            final(self).wf(),
            final(self).produced() == old(self).produced() + 1,
            final(self).current() == old(self).upcoming(),
            final(self).upcoming() == T::sum_of(old(self).current(), old(self).upcoming()),
            item matches Some(t) && t.value() == final(self).current(),
    {
        let new_next = self.curr.plus(&self.next);
        self.curr = self.next.duplicate();
        self.next = new_next;
        proof {
            self.count@ = self.count@ + 1;
        }
        Some(self.curr.duplicate())
    }

    /// Produces the next `n` terms.
    pub fn take(&mut self, n: usize) -> (items: Vec<T>)
        requires
            old(self).wf(),
        ensures
            final(self).wf(),
            final(self).produced() == old(self).produced() + n,
            items.len() == n,
            forall|i: int|
                0 <= i < n ==> (#[trigger] items[i]).value() == term::<T>(
                    (old(self).produced() + 1 + i) as nat,
                ),
    {
        let mut items: Vec<T> = Vec::new();
        while items.len() < n
            invariant
                self.wf(),
                self.produced() == old(self).produced() + items.len(),
                items.len() <= n,
                forall|i: int|
                    0 <= i < items.len() ==> (#[trigger] items[i]).value() == term::<T>(
                        (old(self).produced() + 1 + i) as nat,
                    ),
            decreases n - items.len(),
        {
            match self.next() {
                Some(t) => {
                    items.push(t);
                },
                None => {},
            }
        }
        items
    }
}

impl<T: Term> LazySequence for Generator<T> {
    type Item = T;

    open spec fn ready(&self) -> bool {
        self.wf()
    }

    open spec fn pulls(&self, after: &Self, item: Option<T>) -> bool {
        &&& after.produced() == self.produced() + 1
        &&& after.current() == self.upcoming()
        &&& after.upcoming() == T::sum_of(self.current(), self.upcoming())
        &&& item matches Some(t) && t.value() == after.current()
    }

    fn advance(&mut self) -> (item: Option<T>) {
        self.next()
    }
}

/// A fresh generator, seeded at (one, one): its first terms are 1, 2, 3, 5.
pub fn generate<T: Term>() -> (g: Generator<T>)
    ensures
        g.wf(),
        g.produced() == 0,
{
    Generator { curr: T::one(), next: T::one(), count: Ghost(0) }
}

} // verus!
