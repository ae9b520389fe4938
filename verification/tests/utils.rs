use euler::utils::{int_to_digits, memoized, IterDigits};
use std::cell::Cell;

#[test]
fn convert_int_to_digits() {
    assert!(int_to_digits(123) == vec![1, 2, 3]);
    assert!(int_to_digits(10) == vec![1, 0]);
    assert!(int_to_digits(0) == vec![]);
}

#[test]
fn memoization() {
    let mut cache = memoized(|x| x + 2);
    assert!(cache.call(2) == 4);
}

#[test]
fn digits_round_trip() {
    for n in [0u64, 1, 9, 10, 99, 100, 123, 1001, 987654321, u64::MAX] {
        let digits = int_to_digits(n);
        let mut acc: u64 = 0;
        for d in &digits {
            assert!(*d < 10);
            acc = acc * 10 + d;
        }
        assert_eq!(acc, n);
    }
}

#[test]
fn digit_cursor_yields_least_significant_first() {
    let mut it = IterDigits::new(120);
    assert_eq!(it.next(), Some(0));
    assert_eq!(it.next(), Some(2));
    assert_eq!(it.next(), Some(1));
    assert_eq!(it.next(), None);
    assert_eq!(it.next(), None);
    assert_eq!(IterDigits::new(0).next(), None);
}

#[test]
fn memoization_is_transparent_and_evaluates_each_argument_once() {
    let calls = Cell::new(0usize);
    let f = |x: u32| {
        calls.set(calls.get() + 1);
        x * x + 1
    };
    let mut cache = memoized(f);
    let args = [3u32, 5, 3, 3, 7, 5, 0, 7, 3];
    for a in args {
        assert_eq!(cache.call(a), a * a + 1);
    }
    assert_eq!(calls.get(), 4);
}
