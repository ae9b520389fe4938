use euler::fibonacci::{generate, Term};
use num::BigUint;

#[test]
fn fibonacci_generator_works() {
    let fibs: Vec<u64> = generate::<u64>().take(10);
    assert!(fibs == vec![1, 2, 3, 5, 8, 13, 21, 34, 55, 89]);
}

#[test]
fn big_terms_match_small_terms() {
    let small: Vec<u64> = generate::<u64>().take(90);
    let big: Vec<BigUint> = generate::<BigUint>().take(90);
    for i in 0..90 {
        assert_eq!(BigUint::from(small[i]), big[i]);
    }
}

#[test]
fn next_never_ends_and_follows_the_recurrence() {
    let mut g = generate::<u64>();
    let mut a = g.next().unwrap();
    let mut b = g.next().unwrap();
    for _ in 0..80 {
        let c = g.next().unwrap();
        assert_eq!(c, a + b);
        a = b;
        b = c;
    }
}

#[test]
fn small_terms_wrap_around() {
    let terms: Vec<u64> = generate::<u64>().take(94);
    assert_eq!(terms[91], 12200160415121876738);
    assert_eq!(terms[92], 7540113804746346429u64.wrapping_add(12200160415121876738));
    assert_eq!(terms[92], 1293530146158671551);
}

#[test]
fn big_terms_grow_past_64_bits() {
    let terms: Vec<BigUint> = generate::<BigUint>().take(94);
    let expected = BigUint::from(7540113804746346429u64) + BigUint::from(12200160415121876738u64);
    assert_eq!(terms[92], expected);
    assert!(terms[92] > BigUint::from(u64::MAX));
}

#[test]
fn term_operations() {
    assert_eq!(<u64 as Term>::one(), 1);
    assert_eq!(Term::plus(&3u64, &4u64), 7);
    assert_eq!(Term::plus(&u64::MAX, &2u64), 1);
    assert_eq!(Term::duplicate(&9u64), 9);
    assert_eq!(<BigUint as Term>::one(), BigUint::from(1u32));
    assert_eq!(Term::plus(&BigUint::from(u64::MAX), &BigUint::from(2u32)), BigUint::from(u64::MAX) + 2u32);
    assert_eq!(Term::duplicate(&BigUint::from(77u32)), BigUint::from(77u32));
}
