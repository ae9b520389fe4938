//! Quadratic formulas that give long runs of primes.

use crate::number_theory::{lemma_product_is_multiple, no_proper_divisor};
use crate::primes::is_prime;
use crate::utils::{memoized, Memo};
use vstd::prelude::*;
use vstd::std_specs::hash::*;

verus! {

/// The absolute value of `v`.
pub open spec fn magnitude(v: int) -> int {
    if v < 0 {
        -v
    } else {
        v
    }
}

/// `generator` gives for `n` a value whose magnitude `check` answers with `verdict`.
pub open spec fn answers_at<F: Fn(i64) -> i64, P: Fn(u64) -> bool>(
    generator: F,
    check: P,
    n: i64,
    verdict: bool,
) -> bool {
    exists|v: i64| #[trigger]
        call_ensures(generator, (n,), v) && call_ensures(
            check,
            (magnitude(v as int) as u64,),
            verdict,
        )
}

/// `generator` can be called up to `stop`, where `check` is sure to refuse.
pub open spec fn refuses_at<F: Fn(i64) -> i64, P: Fn(u64) -> bool>(
    generator: F,
    check: P,
    stop: i64,
) -> bool {
    &&& 0 <= stop <= usize::MAX
    &&& forall|n: i64| 0 <= n <= stop ==> call_requires(generator, (n,))
    &&& forall|v: i64, verdict: bool| #[trigger]
        call_ensures(generator, (stop,), v) && #[trigger] call_ensures(
            check,
            (magnitude(v as int) as u64,),
            verdict,
        ) ==> !verdict
}

/// The magnitude of `v`.
fn magnitude_of(v: i64) -> (m: u64)
    ensures
        m == magnitude(v as int),
{
    if v >= 0 {
        v as u64
    } else {
        (-(v + 1)) as u64 + 1
    }
}

/// How many of the values that `generator` gives for 0, 1, 2, ... pass
/// `check` by magnitude before the first one fails.
///
/// `check` is asked through its cache. It has to accept every argument,
/// and there has to be a point at which it is sure to refuse.
pub fn seq_of_primes<F, P>(generator: F, check: &mut Memo<P, u64, bool>) -> (count: usize) where
    F: Fn(i64) -> i64,
    P: Fn(u64) -> bool,

    requires
        old(check).wf(),
        forall|x: u64| call_requires(old(check).function(), (x,)),
        exists|stop: i64| refuses_at(generator, old(check).function(), stop),
    ensures
        final(check).wf(),
        final(check).function() == old(check).function(),
        forall|n: i64|
            0 <= n < count ==> #[trigger] answers_at(generator, old(check).function(), n, true),
        answers_at(generator, old(check).function(), count as i64, false),
        forall|stop: i64| #[trigger]
            refuses_at(generator, old(check).function(), stop) ==> count <= stop,
{
    let ghost stop = choose|stop: i64| refuses_at(generator, old(check).function(), stop);
    let mut n: i64 = 0;
    let mut count: usize = 0;
    loop
        invariant
            check.wf(),
            check.function() == old(check).function(),
            forall|x: u64| call_requires(check.function(), (x,)),
            refuses_at(generator, check.function(), stop),
            0 <= n <= stop,
            count == n,
            forall|m: i64|
                0 <= m < n ==> #[trigger] answers_at(generator, check.function(), m, true),
        ensures
            check.wf(),
            check.function() == old(check).function(),
            count == n,
            forall|m: i64|
                0 <= m < n ==> #[trigger] answers_at(generator, check.function(), m, true),
            answers_at(generator, check.function(), n, false),
        decreases stop - n,
    {
        let v = generator(n);
        let verdict = check.call(magnitude_of(v));
        assert(call_ensures(generator, (n,), v) && call_ensures(
            check.function(),
            (magnitude(v as int) as u64,),
            verdict,
        ));
        if !verdict {
            break ;
        }
        n = n + 1;
        count = count + 1;
    }
    proof {
        assert forall|other: i64| #[trigger]
            refuses_at(generator, old(check).function(), other) implies count <= other by {
            if other < count {
                assert(answers_at(generator, check.function(), other, true));
            }
        }
    }
    count
}

/// The value of the formula `n * n + a * n + b`.
pub open spec fn quadratic(a: int, b: int, n: int) -> int {
    n * n + a * n + b
}

/// Trial division accepts the magnitude of `v`.
pub open spec fn accepts(v: int) -> bool {
    no_proper_divisor(magnitude(v))
}

/// The formula with coefficients `a` and `b` gives accepted values for
/// `n` from 0 up to, not including, `len`, and a refused one for `len`.
pub open spec fn is_run(a: int, b: int, len: int) -> bool {
    &&& 0 <= len
    &&& !accepts(quadratic(a, b, len))
    &&& forall|n: int| 0 <= n < len ==> #[trigger] accepts(quadratic(a, b, n))
}

/// `a` and `b` are coefficients that the search tries.
pub open spec fn is_tried(a: int, b: int) -> bool {
    -999 <= a <= 999 && -1000 <= b <= 1000
}

/// `(a, b)` is tried before `(c, d)`.
pub open spec fn tried_before(a: int, b: int, c: int, d: int) -> bool {
    a < c || (a == c && b < d)
}

/// `(a, b)` gives a run of `len > 0` values, longer than that of any pair
/// tried before the scan reached `(c, d)`, and as long at least as that of
/// any pair tried after it up to there.
pub open spec fn leads(a: int, b: int, len: int, c: int, d: int) -> bool {
    &&& is_tried(a, b)
    &&& tried_before(a, b, c, d)
    &&& is_run(a, b, len)
    &&& len > 0
    &&& forall|x: int, y: int, other: int|
        is_tried(x, y) && tried_before(x, y, c, d) && #[trigger] is_run(x, y, other) ==> other < len
            || (other == len && !tried_before(x, y, a, b))
}

/// A run has one length only.
pub proof fn lemma_run_is_unique(a: int, b: int, len: int, other: int)
    requires
        is_run(a, b, len),
        is_run(a, b, other),
    ensures
        len == other,
{
    if len < other {
        assert(accepts(quadratic(a, b, len)));
    }
    if other < len {
        assert(accepts(quadratic(a, b, other)));
    }
}

/// Every formula that the search tries gives a refused value at
/// `n = 2000 + m` with `m` its value at 2000: there the value is
/// `m * (4001 + m + a)`.
pub proof fn lemma_run_ends(a: int, b: int)
    requires
        is_tried(a, b),
    ensures
        2_001_000 <= quadratic(a, b, 2000) <= 5_999_000,
        !accepts(quadratic(a, b, 2000 + quadratic(a, b, 2000))),
        0 < quadratic(a, b, 2000 + quadratic(a, b, 2000)) < 0x1_0000_0000_0000,
{
    let m = quadratic(a, b, 2000);
    assert(m == 4_000_000 + 2000 * a + b) by (nonlinear_arith)
        requires
            m == 2000 * 2000 + a * 2000 + b,
    ;
    let other = 4001 + m + a;
    let v = quadratic(a, b, 2000 + m);
    assert(v == m * other) by (nonlinear_arith)
        requires
            v == (2000 + m) * (2000 + m) + a * (2000 + m) + b,
            m == 4_000_000 + 2000 * a + b,
            other == 4001 + m + a,
    ;
    assert(m < m * other && m * other < 0x1_0000_0000_0000) by (nonlinear_arith)
        requires
            2_001_000 <= m <= 5_999_000,
            2 <= other <= 7_000_000,
    ;
    lemma_product_is_multiple(m, other);
    assert(magnitude(v) % m == 0);
}

/// The product of the coefficients `a` and `b`, with `a` from -999 to 999
/// and `b` from -1000 to 1000, for which `n * n + a * n + b` passes trial
/// division by magnitude for the most `n` in a row from 0 on. Of several
/// such pairs the one tried first counts, by `a` and then by `b`.
pub fn solve() -> (product: i64)
    ensures
        exists|a: int, b: int, len: int| #[trigger] leads(a, b, len, 1000, -1000) && product == a * b,
{
    broadcast use group_hash_axioms;

    let tested = |x: u64| -> (prime: bool)
        ensures
            prime == no_proper_divisor(x as int),
        {
            is_prime::<u64>(x)
        };
    let mut memo_is_prime = memoized(tested);
    let mut longest_yet: usize = 0;
    let mut coefs: (i64, i64) = (0, 0);
    let mut a: i64 = -999;
    while a <= 999
        invariant
            -999 <= a <= 1000,
            memo_is_prime.wf(),
            forall|x: u64| call_requires(memo_is_prime.function(), (x,)),
            forall|x: u64, r: bool|
                call_ensures(memo_is_prime.function(), (x,), r) ==> r == no_proper_divisor(x as int),
            longest_yet == 0 ==> a == -999,
            longest_yet > 0 ==> leads(coefs.0 as int, coefs.1 as int, longest_yet as int, a as int, -1000),
        decreases 1000 - a,
    {
        let mut b: i64 = -1000;
        while b <= 1000
            invariant
                -999 <= a <= 999,
                -1000 <= b <= 1001,
                memo_is_prime.wf(),
                forall|x: u64| call_requires(memo_is_prime.function(), (x,)),
                forall|x: u64, r: bool|
                    call_ensures(memo_is_prime.function(), (x,), r) ==> r == no_proper_divisor(
                        x as int,
                    ),
                longest_yet == 0 ==> a == -999 && b <= 0 && forall|y: int, other: int|
                    -1000 <= y < b && #[trigger] is_run(-999, y, other) ==> other == 0,
                longest_yet > 0 ==> leads(
                    coefs.0 as int,
                    coefs.1 as int,
                    longest_yet as int,
                    a as int,
                    b as int,
                ),
            decreases 1001 - b,
        {
            let formula = |n: i64| -> (v: i64)
                requires
                    0 <= n <= 6_001_000,
                ensures
                    v == quadratic(a as int, b as int, n as int),
                {
                    assert(n * n <= 6_001_000 * 6_001_000 && -999 * 6_001_000 <= a * n <= 999
                        * 6_001_000) by (nonlinear_arith)
                        requires
                            0 <= n <= 6_001_000,
                            -999 <= a <= 999,
                    ;
                    n * n + a * n + b
                };
            proof {
                lemma_run_ends(a as int, b as int);
                let stop = (2000 + quadratic(a as int, b as int, 2000)) as i64;
                assert(refuses_at(formula, memo_is_prime.function(), stop));
            }
            let ghost check = memo_is_prime.function();
            let seq = seq_of_primes(formula, &mut memo_is_prime);
            proof {
                // the count is the length of the run of this formula
                assert(seq <= 6_001_000);
                assert(answers_at(formula, check, seq as i64, false));
                assert forall|n: int| 0 <= n < seq implies #[trigger] accepts(
                    quadratic(a as int, b as int, n),
                ) by {
                    assert(answers_at(formula, check, n as i64, true));
                }
                assert(is_run(a as int, b as int, seq as int));
                if a == -999 && b == 0 {
                    assert(accepts(quadratic(-999, 0, 0)));
                }
            }
            let ghost before = coefs;
            let ghost best = longest_yet;
            if seq > longest_yet {
                coefs = (a, b);
                longest_yet = seq;
            }
            proof {
                if longest_yet > 0 {
                    assert forall|x: int, y: int, other: int|
                        is_tried(x, y) && tried_before(x, y, a as int, b + 1) && #[trigger] is_run(
                            x,
                            y,
                            other,
                        ) implies other < longest_yet || (other == longest_yet && !tried_before(
                        x,
                        y,
                        coefs.0 as int,
                        coefs.1 as int,
                    )) by {
                        if x == a && y == b {
                            lemma_run_is_unique(x, y, other, seq as int);
                        } else if best == 0 {
                            assert(x == -999 && y < b);
                            assert(other == 0);
                        }
                    }
                } else {
                    assert forall|y: int, other: int|
                        -1000 <= y < b + 1 && #[trigger] is_run(-999, y, other) implies other
                        == 0 by {
                        if y == b {
                            lemma_run_is_unique(-999, y, other, seq as int);
                        }
                    }
                }
            }
            b = b + 1;
        }
        a = a + 1;
    }
    proof {
        assert(leads(coefs.0 as int, coefs.1 as int, longest_yet as int, 1000, -1000));
        assert(coefs.0 * coefs.1 == (coefs.0 as int) * (coefs.1 as int));
    }
    assert(-999_000 <= coefs.0 * coefs.1 <= 999_000) by (nonlinear_arith)
        requires
            -999 <= coefs.0 <= 999,
            -1000 <= coefs.1 <= 1000,
    ;
    coefs.0 * coefs.1
}

} // verus!
