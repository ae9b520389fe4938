use euler::fibonacci;
use euler::primes;
use euler::problem14::collatz_from;
use euler::problem20::Digitizer;
use euler::sequence::{take_first, LazySequence};
use euler::utils::IterDigits;
use num::BigUint;

#[test]
fn every_generator_can_be_pulled_through_the_shared_protocol() {
    let mut primes = primes::generate();
    assert_eq!(primes.advance(), Some(2));
    assert_eq!(primes.advance(), Some(3));

    let mut fibs = fibonacci::generate::<u64>();
    assert_eq!(fibs.advance(), Some(1));
    assert_eq!(fibs.advance(), Some(2));

    let mut chain = collatz_from(2);
    assert_eq!(chain.advance(), Some(2));
    assert_eq!(chain.advance(), Some(1));
    assert_eq!(chain.advance(), None);

    let mut digits = IterDigits::new(70);
    assert_eq!(digits.advance(), Some(0));
    assert_eq!(digits.advance(), Some(7));
    assert_eq!(digits.advance(), None);

    let mut big = Digitizer::new(BigUint::from(5u32));
    assert_eq!(big.advance(), Some(5));
    assert_eq!(big.advance(), None);
}

#[test]
fn take_first_stops_at_the_count_or_at_the_end() {
    let mut primes = primes::generate();
    assert_eq!(take_first(&mut primes, 5), vec![2, 3, 5, 7, 11]);
    assert_eq!(take_first(&mut primes, 0), Vec::<u64>::new());
    assert_eq!(take_first(&mut primes, 2), vec![13, 17]);

    let mut fibs = fibonacci::generate::<BigUint>();
    let first: Vec<BigUint> = take_first(&mut fibs, 4);
    assert_eq!(first, vec![1u32, 2, 3, 5].into_iter().map(BigUint::from).collect::<Vec<_>>());

    let mut chain = collatz_from(13);
    assert_eq!(take_first(&mut chain, 3), vec![13, 40, 20]);
    assert_eq!(take_first(&mut chain, 100), vec![10, 5, 16, 8, 4, 2, 1]);
    assert_eq!(take_first(&mut chain, 100), Vec::<u64>::new());

    let mut digits = IterDigits::new(123);
    assert_eq!(take_first(&mut digits, 10), vec![3, 2, 1]);
    let mut none = IterDigits::new(0);
    assert_eq!(take_first(&mut none, 10), Vec::<u64>::new());

    let mut big = Digitizer::new(BigUint::from(9070u32));
    assert_eq!(take_first(&mut big, 2), vec![0, 7]);
    assert_eq!(take_first(&mut big, 9), vec![0, 9]);
}
