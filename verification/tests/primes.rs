use euler::primes::{generate, is_prime, Whole};

#[test]
fn test_is_prime() {
    let small_primes: Vec<u64> = generate().take(4);
    assert!(small_primes.into_iter().all(|x| is_prime(x)));
}

#[test]
fn primes_generator_works() {
    let small_primes: Vec<u64> = generate().take(4);
    assert!(small_primes == vec![2, 3, 5, 7]);
}

#[test]
fn test_specific_primes() {
    assert!(generate().nth(5) == Some(13));
    assert!(generate().nth(500) == Some(3581));
}

#[test]
fn primes_are_strictly_increasing_and_have_no_proper_divisor() {
    let mut g = generate();
    let mut previous = 1;
    for _ in 0..200 {
        let p = g.next().unwrap();
        assert!(p > previous);
        assert!((2..p).all(|d| p % d != 0));
        previous = p;
    }
}

#[test]
fn no_prime_is_skipped() {
    let produced = generate().take(25);
    let expected: Vec<u64> = (2..100u64).filter(|n| (2..*n).all(|d| n % d != 0)).collect();
    assert_eq!(produced, expected);
}

#[test]
fn trial_division_agrees_with_generator_below_100() {
    let produced = generate().take_while_below(100);
    for n in 2..100u64 {
        assert_eq!(is_prime(n), produced.contains(&n));
    }
}

#[test]
fn trial_division_accepts_zero_and_one() {
    assert!(is_prime(0u64));
    assert!(is_prime(1u64));
    assert!(is_prime(2u64));
    assert!(!is_prime(4u64));
    assert!(!is_prime(91u64));
    assert!(is_prime(97u64));
}

#[test]
fn trial_division_on_signed_numbers() {
    assert!(is_prime(-7i64));
    assert!(is_prime(-8i64));
    assert!(is_prime(0i64));
    assert!(is_prime(7i64));
    assert!(!is_prime(8i64));
    assert!(!is_prime(1601i64 * 1601));
    assert!(is_prime(1601i64));
    assert_eq!(<i64 as Whole>::small(2), 2);
    assert!(Whole::is_below(-3i64, 2));
    assert!(Whole::is_multiple_of(12i64, 4));
    assert!(!Whole::is_multiple_of(12u64, 5));
    assert_eq!(Whole::successor(4u64, 9), 5);
}

#[test]
fn take_while_below_consumes_the_first_prime_at_the_limit() {
    let mut g = generate();
    assert_eq!(g.take_while_below(10), vec![2, 3, 5, 7]);
    assert_eq!(g.next(), Some(13));
    let mut h = generate();
    assert_eq!(h.take_while_below(2), Vec::<u64>::new());
    assert_eq!(h.next(), Some(3));
}

#[test]
fn take_and_nth_continue_where_the_generator_stands() {
    let mut g = generate();
    assert_eq!(g.take(0), Vec::<u64>::new());
    assert_eq!(g.nth(0), Some(2));
    assert_eq!(g.nth(1), Some(5));
    assert_eq!(g.take(3), vec![7, 11, 13]);
}

#[test]
fn squares_of_primes_are_struck() {
    let produced = generate().take_while_below(400);
    for p in [2u64, 3, 5, 7, 11, 13, 17, 19] {
        assert!(produced.contains(&p));
        assert!(!produced.contains(&(p * p)));
    }
    assert_eq!(produced.len(), 78);
}
