//! Divisibility and primality over the mathematical integers, with the
//! lemmas the sieve and the puzzles rest on.

use vstd::arithmetic::div_mod::*;
use vstd::arithmetic::mul::*;
use vstd::prelude::*;

verus! {

/// No integer strictly between 1 and `n` divides `n`.
pub open spec fn no_proper_divisor(n: int) -> bool {
    forall|d: int| 2 <= d < n ==> #[trigger] (n % d) != 0
}

/// `n` is a prime number.
pub open spec fn is_prime_number(n: int) -> bool {
    n >= 2 && no_proper_divisor(n)
}

/// `p` is the first prime above `a`.
pub open spec fn next_prime_after(a: int, p: int) -> bool {
    &&& a < p
    &&& is_prime_number(p)
    &&& forall|y: int| a < y < p ==> !#[trigger] is_prime_number(y)
}

/// The number of primes `p` with `a < p <= b`.
pub open spec fn primes_between(a: int, b: int) -> nat
    decreases b - a,
{
    if b <= a {
        0
    } else {
        primes_between(a, b - 1) + if is_prime_number(b) {
            1nat
        } else {
            0nat
        }
    }
}

/// Element `i` of `s` is the first prime above its predecessor, which for the
/// first element is `start`.
pub open spec fn follows_in_run(start: int, s: Seq<u64>, i: int) -> bool {
    next_prime_after(
        if i == 0 {
            start
        } else {
            s[i - 1] as int
        },
        s[i] as int,
    )
}

/// `s` lists, in increasing order and without a gap, the primes that follow `start`.
pub open spec fn consecutive_primes(start: int, s: Seq<u64>) -> bool {
    forall|i: int| 0 <= i < s.len() ==> #[trigger] follows_in_run(start, s, i)
}

/// The last element of `s`, or `start` when `s` is empty.
pub open spec fn last_or(start: int, s: Seq<u64>) -> int {
    if s.len() == 0 {
        start
    } else {
        s.last() as int
    }
}

/// The smallest divisor of `n` that is at least `from`, or `n` itself.
pub open spec fn least_divisor_from(n: int, from: int) -> int
    decreases n - from,
{
    if from >= n {
        n
    } else if from >= 1 && n % from == 0 {
        from
    } else {
        least_divisor_from(n, from + 1)
    }
}

/// A product of two positive factors is a multiple of each.
pub proof fn lemma_product_is_multiple(a: int, b: int)
    requires
        a > 0,
    ensures
        (a * b) % a == 0,
        (b * a) % a == 0,
{
    lemma_mod_multiples_basic(b, a);
    lemma_mul_is_commutative(a, b);
}

/// A multiple of `d` is `d` times its quotient.
pub proof fn lemma_multiple_is_product(n: int, d: int)
    requires
        d > 0,
        n % d == 0,
    ensures
        n == d * (n / d),
{
    lemma_fundamental_div_mod(n, d);
}

/// Divisibility is transitive.
pub proof fn lemma_divides_transitive(a: int, b: int, c: int)
    requires
        a > 0,
        b > 0,
        b % a == 0,
        c % b == 0,
    ensures
        c % a == 0,
{
    lemma_multiple_is_product(b, a);
    lemma_multiple_is_product(c, b);
    let u = b / a;
    let v = c / b;
    assert(c == a * (u * v)) by {
        lemma_mul_is_associative(a, u, v);
    }
    lemma_product_is_multiple(a, u * v);
}

/// Two distinct multiples of `f` lie at least `f` apart.
pub proof fn lemma_multiples_are_spaced(a: int, b: int, f: int)
    requires
        f > 0,
        a % f == 0,
        b % f == 0,
        a < b,
    ensures
        a + f <= b,
{
    lemma_multiple_is_product(a, f);
    lemma_multiple_is_product(b, f);
    let u = a / f;
    let v = b / f;
    assert(u < v) by (nonlinear_arith)
        requires
            f > 0,
            a == f * u,
            b == f * v,
            a < b,
    ;
    assert(f * (u + 1) <= f * v) by (nonlinear_arith)
        requires
            f > 0,
            u + 1 <= v,
    ;
    assert(f * (u + 1) == f * u + f) by (nonlinear_arith);
}

/// The sum of two multiples of `f` is a multiple of `f`.
pub proof fn lemma_sum_of_multiples(a: int, b: int, f: int)
    requires
        f > 0,
        a % f == 0,
        b % f == 0,
    ensures
        (a + b) % f == 0,
{
    lemma_multiple_is_product(a, f);
    lemma_multiple_is_product(b, f);
    assert(a + b == f * (a / f + b / f)) by {
        lemma_mul_is_distributive_add(f, a / f, b / f);
    }
    lemma_product_is_multiple(f, a / f + b / f);
}

/// What `least_divisor_from` finds: a divisor with no smaller one at or above `from`.
pub proof fn lemma_least_divisor_from(n: int, from: int)
    requires
        1 <= from <= n,
    ensures
        from <= least_divisor_from(n, from) <= n,
        n % least_divisor_from(n, from) == 0,
        forall|d: int| from <= d < least_divisor_from(n, from) ==> #[trigger] (n % d) != 0,
    decreases n - from,
{
    if from >= n {
        lemma_mod_self_0(n);
    } else if n % from == 0 {
    } else {
        lemma_least_divisor_from(n, from + 1);
    }
}

/// The smallest divisor above 1 of any `n >= 2` is prime, and for a composite
/// `n` its square does not exceed `n`.
pub proof fn lemma_least_divisor_is_prime(n: int)
    requires
        n >= 2,
    ensures
        is_prime_number(least_divisor_from(n, 2)),
        n % least_divisor_from(n, 2) == 0,
        2 <= least_divisor_from(n, 2) <= n,
        !is_prime_number(n) ==> least_divisor_from(n, 2) * least_divisor_from(n, 2) <= n,
{
    let q = least_divisor_from(n, 2);
    lemma_least_divisor_from(n, 2);
    assert forall|d: int| 2 <= d < q implies #[trigger] (q % d) != 0 by {
        if q % d == 0 {
            lemma_divides_transitive(d, q, n);
            assert(n % d != 0);
        }
    }
    if !is_prime_number(n) {
        let d = choose|d: int| 2 <= d < n && #[trigger] (n % d) == 0;
        assert(q <= d);
        let c = n / q;
        lemma_multiple_is_product(n, q);
        assert(c >= 2 && c < n) by (nonlinear_arith)
            requires
                n == q * c,
                2 <= q < n,
        ;
        lemma_product_is_multiple(c, q);
        assert(n % c == 0);
        assert(c >= q);
        assert(q * q <= q * c) by (nonlinear_arith)
            requires
                q <= c,
                q >= 2,
        ;
    }
}

/// A prime divides no product of two positive numbers below it.
pub proof fn lemma_prime_misses_small_products(q: int, a: int, b: int)
    requires
        is_prime_number(q),
        0 < a < q,
        0 < b < q,
    ensures
        (a * b) % q != 0,
    decreases a,
{
    if a == 1 {
        assert(a * b == b) by (nonlinear_arith)
            requires
                a == 1,
        ;
        lemma_small_mod(b as nat, q as nat);
    } else {
        let s = q % a;
        let k = q / a;
        lemma_fundamental_div_mod(q, a);
        assert(q % a != 0);
        lemma_mod_bound(q, a);
        lemma_prime_misses_small_products(q, s, b);
        if (a * b) % q == 0 {
            // s * b == q * b - k * (a * b) would then be a multiple of q as well
            lemma_multiple_is_product(a * b, q);
            let t = (a * b) / q;
            assert(s * b == q * (b - k * t)) by (nonlinear_arith)
                requires
                    q == a * k + s,
                    a * b == q * t,
            ;
            lemma_product_is_multiple(q, b - k * t);
            assert(false);
        }
    }
}

/// A prime does not divide the square of a larger prime.
pub proof fn lemma_prime_misses_square_of_prime(q: int, x: int)
    requires
        is_prime_number(q),
        is_prime_number(x),
        q < x,
    ensures
        (x * x) % q != 0,
{
    let r = x % q;
    lemma_mod_bound(x, q);
    assert(x % q != 0);
    lemma_prime_misses_small_products(q, r, r);
    lemma_mul_mod_noop_general(x, x, q);
}

/// Counting primes splits at any point in between.
pub proof fn lemma_primes_between_split(a: int, b: int, c: int)
    requires
        a <= b <= c,
    ensures
        primes_between(a, c) == primes_between(a, b) + primes_between(b, c),
    decreases c - b,
{
    if c > b {
        lemma_primes_between_split(a, b, c - 1);
    }
}

/// A stretch without primes counts zero.
pub proof fn lemma_primes_between_none(a: int, b: int)
    requires
        forall|y: int| a < y <= b ==> !#[trigger] is_prime_number(y),
    ensures
        primes_between(a, b) == 0,
    decreases b - a,
{
    if b > a {
        lemma_primes_between_none(a, b - 1);
    }
}

/// Up to and including the first prime above `a` there is exactly one prime.
pub proof fn lemma_primes_between_next(a: int, p: int)
    requires
        next_prime_after(a, p),
    ensures
        primes_between(a, p) == 1,
{
    lemma_primes_between_none(a, p - 1);
}

/// Dropping the last element of a run of consecutive primes leaves such a run.
pub proof fn lemma_consecutive_primes_front(start: int, s: Seq<u64>)
    requires
        consecutive_primes(start, s),
        s.len() > 0,
    ensures
        consecutive_primes(start, s.drop_last()),
        next_prime_after(last_or(start, s.drop_last()), s.last() as int),
{
    let front = s.drop_last();
    assert forall|i: int| 0 <= i < front.len() implies #[trigger] follows_in_run(
        start,
        front,
        i,
    ) by {
        assert(follows_in_run(start, s, i));
    }
    assert(follows_in_run(start, s, s.len() - 1));
}

/// Appending the next prime to a run of consecutive primes extends the run.
pub proof fn lemma_consecutive_primes_push(start: int, s: Seq<u64>, p: u64)
    requires
        consecutive_primes(start, s),
        next_prime_after(last_or(start, s), p as int),
    ensures
        consecutive_primes(start, s.push(p)),
        last_or(start, s.push(p)) == p,
{
    let t = s.push(p);
    assert forall|i: int| 0 <= i < t.len() implies #[trigger] follows_in_run(start, t, i) by {
        if i < s.len() {
            assert(follows_in_run(start, s, i));
        }
    }
}

/// Every element of a run of consecutive primes is a prime above the start
/// and at most the last element.
pub proof fn lemma_consecutive_primes_element(start: int, s: Seq<u64>, i: int)
    requires
        consecutive_primes(start, s),
        0 <= i < s.len(),
    ensures
        start < s[i] <= last_or(start, s),
        is_prime_number(s[i] as int),
    decreases s.len(),
{
    let front = s.drop_last();
    lemma_consecutive_primes_front(start, s);
    if i < front.len() {
        lemma_consecutive_primes_element(start, front, i);
    } else if front.len() > 0 {
        lemma_consecutive_primes_element(start, front, front.len() - 1);
    }
}

/// A run of consecutive primes is strictly increasing.
pub proof fn lemma_consecutive_primes_increasing(start: int, s: Seq<u64>, i: int, j: int)
    requires
        consecutive_primes(start, s),
        0 <= i < j < s.len(),
    ensures
        s[i] < s[j],
    decreases s.len(),
{
    let front = s.drop_last();
    lemma_consecutive_primes_front(start, s);
    if j < front.len() {
        lemma_consecutive_primes_increasing(start, front, i, j);
    } else {
        lemma_consecutive_primes_element(start, front, i);
    }
}

/// A run of consecutive primes holds every prime between its start and its
/// last element.
pub proof fn lemma_consecutive_primes_complete(start: int, s: Seq<u64>, y: int)
    requires
        consecutive_primes(start, s),
        start < y <= last_or(start, s),
        is_prime_number(y),
    ensures
        s.contains(y as u64),
    decreases s.len(),
{
    if s.len() > 0 {
        let front = s.drop_last();
        lemma_consecutive_primes_front(start, s);
        if y <= last_or(start, front) {
            lemma_consecutive_primes_complete(start, front, y);
            let i = choose|i: int| 0 <= i < front.len() && front[i] == y as u64;
            assert(s[i] == y as u64);
        } else {
            assert(s[s.len() - 1] == y as u64);
        }
    }
}

/// A run of consecutive primes is as long as the count of primes it spans.
pub proof fn lemma_consecutive_primes_count(start: int, s: Seq<u64>)
    requires
        consecutive_primes(start, s),
    ensures
        start <= last_or(start, s),
        primes_between(start, last_or(start, s)) == s.len(),
    decreases s.len(),
{
    if s.len() > 0 {
        let front = s.drop_last();
        lemma_consecutive_primes_front(start, s);
        lemma_consecutive_primes_count(start, front);
        let mid = last_or(start, front);
        lemma_primes_between_next(mid, s.last() as int);
        lemma_primes_between_split(start, mid, s.last() as int);
    }
}

} // verus!
