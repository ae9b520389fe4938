use euler::primes;
use euler::utils::memoized;
use euler::{
    problem1, problem10, problem12, problem14, problem15, problem16, problem18, problem2,
    problem20, problem21, problem22, problem23, problem24, problem25, problem27, problem28,
    problem29, problem3, problem31, problem35, problem4, problem5, problem6, problem7, problem9,
};
use itertools::Itertools;
use num::BigUint;
use std::collections::HashSet;

#[test]
fn main_example_works() {
    // multiples of 3 or 5
    let data: Vec<u64> = problem1::numbers(10);
    assert!(data == vec![3, 5, 6, 9]);

    // prime factors below the square root
    let prime_factors = problem3::factors_for(13195);
    assert!(prime_factors == vec![5, 7, 13, 29]);

    // smallest common multiple
    assert!(problem5::divisible_by_all(2520, 1..=10));
    assert!(problem5::smallest_divisible_by(1..=10) == 2520);

    // sums of squares
    assert!(problem6::sum_of_squares(1..=10) == 385);
    assert!(problem6::square_of_sum(1..=10) == 3025);
    assert!(problem6::solve(1..=10) == 2640);

    // Pythagorean triplet
    assert!(problem9::find_triplet(12) == (3, 4, 5));

    // sum of primes
    assert!(problem10::sum_primes_less_than(10) == 17);

    // triangle numbers
    assert!(problem12::solve(5) == 28);
}

#[test]
fn test_is_palimdrome() {
    assert!(problem4::is_palimdrome_number(1001));
    assert!(problem4::is_palimdrome_number(10501));
}

#[test]
fn test_factors() {
    assert!(problem4::palimdrome_factors(90, 100) == vec![(91, 99)]);
}

#[test]
fn test_count_divisors() {
    assert!(problem12::count_divisors(10) == 4);
    assert!(problem12::count_divisors(28) == 6);
}

#[test]
fn example_sequence() {
    let seq: Vec<u64> = problem14::collatz_from(13).collect();
    assert!(seq == vec![13, 40, 20, 10, 5, 16, 8, 4, 2, 1]);
}

#[test]
fn test_solver() {
    assert!(problem14::solve(1..=10) == 9);
}

#[test]
fn test_choose() {
    assert!(problem15::binomial(5, 2) == 10);
}

#[test]
fn main_example() {
    // grid routes
    assert!(problem15::solve(2) == 6);

    // digit sum of a power
    assert!(problem16::solve(2, 15) == 26);

    // number triangle
    let example_data = vec![vec![3], vec![7, 4], vec![2, 4, 6], vec![8, 5, 9, 3]];
    assert!(problem18::solve(&example_data) == 23);

    // digit sum of a factorial
    assert!(problem20::solve(10) == 27);

    // amicable numbers
    assert!(problem21::divisors_sum(220) == 284);
    assert!(problem21::divisors_sum(284) == 220);

    // abundant numbers
    let x: Vec<(usize, char)> = (0..2).cartesian_product("αβ".chars()).collect();
    assert!(x == vec![(0, 'α'), (0, 'β'), (1, 'α'), (1, 'β')]);
    assert!(problem23::is_abundant(12) == true);

    // permutations
    assert!(problem24::state(&vec![2, 3]) == vec![vec![2, 3], vec![3, 2],]);
    assert!(
        problem24::state(&vec![1, 2, 3])
            == vec![
                vec![1, 2, 3],
                vec![1, 3, 2],
                vec![2, 1, 3],
                vec![2, 3, 1],
                vec![3, 1, 2],
                vec![3, 2, 1],
            ]
    );
    let answer = vec!["012", "021", "102", "120", "201", "210"];
    let my_answer = problem24::lexical_perm(&vec![0, 1, 2]);
    println!("{:?} != {:?}", my_answer, answer);
    assert!(answer == my_answer);

    // distinct powers
    let ds = problem29::digits(2..=5, 2..=5);
    assert_eq!(ds.len(), 15);
}

#[test]
fn test_mul() {
    assert!(problem16::mul(&[2, 3], 2) == vec![4, 6]);
}

#[test]
fn test_mul_internal_carry() {
    assert!(problem16::mul(&[5, 1], 2) == vec![0, 3]);
}

#[test]
fn test_mul_external_carry() {
    assert!(problem16::mul(&[8], 8) == vec![4, 6]);
    assert!(problem16::mul(&[0, 1], 10) == vec![0, 0, 1]);
}

#[test]
fn test_digits_in() {
    let a: BigUint = problem20::big_factorial(10);
    let ds = problem20::digits_in(a);
    assert!(ds == vec![0, 0, 8, 8, 2, 6, 3]);
}

#[test]
fn test_factorial() {
    let a: BigUint = problem20::big_factorial(10);
    assert!(a == BigUint::from(3628800u32));
}

#[test]
fn test_name_score() {
    assert!(problem22::score("COLIN") == 53);
}

#[test]
fn test_example() {
    let fib_idx = problem25::index_for_fib_of_at_least(BigUint::from(100u32));
    assert_eq!(fib_idx, 12);
}

#[test]
fn examples() {
    let mut memo_is_prime = memoized(primes::is_prime);
    assert_eq!(problem27::seq_of_primes(|n| n * n + n + 41, &mut memo_is_prime), 40);
    assert_eq!(problem27::seq_of_primes(|n| n * n - 79 * n + 1601, &mut memo_is_prime), 80);
}

#[test]
fn first_ring() {
    assert_eq!(problem28::ring_corners(0), 1);
    assert_eq!(problem28::ring_corners(1), 9 + 7 + 5 + 3);
    assert_eq!(problem28::sum_until(1), 9 + 7 + 5 + 3 + 1);
}

#[test]
fn example_197() {
    let primes = primes::generate().take_while_below(1000).into_iter().collect::<HashSet<u64>>();
    assert_eq!(problem35::rotations_of(197), vec![197, 719, 971]);
    assert!(problem35::is_circular(197, &primes));
}

#[test]
fn sum_of_multiples_below_one_thousand() {
    assert_eq!(problem1::solve(10), 23);
    assert_eq!(problem1::solve(1000), 233168);
    assert_eq!(problem1::solve(0), 0);
    assert_eq!(problem1::solve(4), 3);
    assert_eq!(problem1::numbers(0), Vec::<u64>::new());
}

#[test]
fn even_fibonacci_terms() {
    assert_eq!(problem2::solve(100), 2 + 8 + 34);
    assert_eq!(problem2::solve(34), 2 + 8);
    assert_eq!(problem2::solve(35), 2 + 8 + 34);
    assert_eq!(problem2::solve(0), 0);
    assert_eq!(problem2::solve(4_000_000), 4613732);
}

#[test]
fn largest_small_prime_factor() {
    assert_eq!(problem3::solve(13195), 29);
    assert_eq!(problem3::solve(600851475143), 6857);
    assert_eq!(problem3::factors_for(49), Vec::<u64>::new());
    assert_eq!(problem3::factors_for(50), vec![2, 5]);
    assert_eq!(problem3::factors_for(0), Vec::<u64>::new());
    assert_eq!(problem3::factors_for(14), vec![2]);
}

#[test]
fn largest_palindrome_product() {
    assert_eq!(problem4::solve(10, 100), 9009);
    assert_eq!(problem4::solve(90, 100), 9009);
    assert!(problem4::is_palimdrome_number(0));
    assert!(problem4::is_palimdrome_number(7));
    assert!(!problem4::is_palimdrome_number(10));
    assert!(!problem4::is_palimdrome_number(1231));
    assert_eq!(problem4::palimdrome_factors(1, 4), vec![(1, 1), (1, 2), (1, 3), (2, 2), (2, 3), (3, 3)]);
    assert_eq!(problem4::palimdrome_factors(5, 5), Vec::<(u64, u64)>::new());
}

#[test]
fn smallest_common_multiple() {
    assert_eq!(problem5::solve(1..=10), 2520);
    assert_eq!(problem5::solve(3..=3), 3);
    assert_eq!(problem5::solve(4..=6), 60);
    assert!(!problem5::divisible_by_all(2519, 1..=10));
    assert!(problem5::divisible_by_all(7, 5..=4));
}

#[test]
fn ranges_that_hold_nothing() {
    assert_eq!(problem6::sum_of_squares(5..=1), 0);
    assert_eq!(problem6::square_of_sum(5..=1), 0);
    assert_eq!(problem6::solve(5..=1), 0);
    let mut used = 1..=3u64;
    for _ in used.by_ref() {}
    assert_eq!(problem6::sum_of_squares(used), 0);
    assert_eq!(problem6::solve(1..=100), 25164150);
    assert_eq!(problem6::sum_of_squares(3..=4), 25);
    assert_eq!(problem6::square_of_sum(3..=4), 49);
}

#[test]
fn prime_at_a_position() {
    assert_eq!(problem7::solve(1), 2);
    assert_eq!(problem7::solve(6), 13);
    assert_eq!(problem7::solve(10_001), 104743);
}

#[test]
fn product_of_the_triplet() {
    assert_eq!(problem9::solve(12), 60);
    assert_eq!(problem9::solve(1000), 31875000);
    assert_eq!(problem9::find_triplet(30), (5, 12, 13));
    // 60 is the perimeter of (10, 24, 26) and of (15, 20, 25)
    assert_eq!(problem9::find_triplet(60), (10, 24, 26));
}

#[test]
fn sum_of_primes_below_a_bound() {
    assert_eq!(problem10::solve(10), 17);
    assert_eq!(problem10::solve(0), 0);
    assert_eq!(problem10::solve(2), 0);
    assert_eq!(problem10::solve(3), 2);
    assert_eq!(problem10::solve(100), 1060);
    assert_eq!(problem10::solve(20_000), 21171191);
}

#[test]
fn divisors_of_triangle_numbers() {
    assert_eq!(problem12::count_divisors(0), 1);
    assert_eq!(problem12::count_divisors(1), 1);
    assert_eq!(problem12::count_divisors(2), 2);
    // the seventh triangle number is 28
    assert_eq!(problem12::triangles_divisors(7), 6);
    assert_eq!(problem12::triangles_divisors(8), 9);
    assert_eq!(problem12::solve(0), 1);
    assert_eq!(problem12::solve(1), 3);
    assert_eq!(problem12::solve(3), 6);
}

#[test]
fn collatz_chains() {
    assert_eq!(problem14::collatz_length(1), 1);
    assert_eq!(problem14::collatz_length(13), 10);
    assert_eq!(problem14::collatz_length(27), 112);
    assert_eq!(problem14::collatz_from(1).collect(), vec![1]);
    let mut chain = problem14::collatz_from(6);
    assert_eq!(chain.next(), Some(6));
    assert_eq!(chain.next(), Some(3));
    assert_eq!(chain.next(), Some(10));
    assert_eq!(chain.collect(), vec![5, 16, 8, 4, 2, 1]);
    let mut done = problem14::collatz_from(1);
    assert_eq!(done.next(), Some(1));
    assert_eq!(done.next(), None);
    assert_eq!(done.next(), None);
    assert_eq!(done.collect(), Vec::<u64>::new());
}

#[test]
fn longest_chain_goes_to_the_first_of_equals() {
    // 12 and 13 both have chains of 10 terms
    assert_eq!(problem14::collatz_length(12), 10);
    assert_eq!(problem14::solve(12..=13), 12);
    assert_eq!(problem14::solve(7..=7), 7);
    assert_eq!(problem14::solve(1..=1000), 871);
}

#[test]
fn binomial_coefficients() {
    assert_eq!(problem15::binomial(0, 0), 1);
    assert_eq!(problem15::binomial(0, 1), 0);
    assert_eq!(problem15::binomial(5, 0), 1);
    assert_eq!(problem15::binomial(5, 5), 1);
    assert_eq!(problem15::binomial(5, 6), 0);
    assert_eq!(problem15::binomial(10, 3), 120);
    assert_eq!(problem15::solve(20), 137846528820);
}

#[test]
fn digit_sum_of_powers() {
    assert_eq!(problem16::solve(2, 0), 1);
    assert_eq!(problem16::solve(0, 3), 0);
    assert_eq!(problem16::solve(10, 5), 1);
    assert_eq!(problem16::solve(2, 1000), 1366);
    assert_eq!(problem16::mul(&[], 7), Vec::<u64>::new());
    assert_eq!(problem16::mul(&[9, 9], 9), vec![1, 9, 8]);
    assert_eq!(problem16::mul(&[3], 0), vec![0]);
    // entries that are no digits count with the weight of their place
    assert_eq!(problem16::mul(&[12, 3], 2), vec![4, 8]);
    // a final carry is appended whole
    assert_eq!(problem16::mul(&[9], 100), vec![0, 90]);
    // 100 to the power 2: the entries 0, 0 and 100
    assert_eq!(problem16::solve(100, 1), 10);
    assert_eq!(problem16::solve(100, 2), 100);
    assert_eq!(problem16::solve(11, 2), 1 + 2 + 1);
}

#[test]
fn routes_through_the_triangle() {
    let data = problem18::input();
    assert_eq!(data.len(), 15);
    for (r, row) in data.iter().enumerate() {
        assert_eq!(row.len(), r + 1);
        assert!(row.iter().all(|x| *x < 100));
    }
    assert_eq!(data[0], vec![75]);
    assert_eq!(data[14][14], 23);
    assert_eq!(problem18::solve(&data), 1074);
    assert_eq!(problem18::solve(&vec![]), 0);
    let example_data = vec![vec![3], vec![7, 4], vec![2, 4, 6], vec![8, 5, 9, 3]];
    assert_eq!(problem18::route_sum(&example_data, 1, 1), 4 + 6 + 9);
    assert_eq!(problem18::route_sum(&example_data, 4, 0), 0);
}

#[test]
fn digits_of_big_numbers() {
    assert_eq!(problem20::digits_in(BigUint::from(0u32)), Vec::<u64>::new());
    assert_eq!(problem20::digits_in(BigUint::from(7u32)), vec![7]);
    assert_eq!(problem20::digits_in(BigUint::from(120u32)), vec![0, 2, 1]);
    let huge = BigUint::from(u64::MAX) * BigUint::from(10u32) + BigUint::from(3u32);
    assert_eq!(
        problem20::digits_in(huge),
        vec![3, 5, 1, 6, 1, 5, 5, 9, 0, 7, 3, 7, 0, 4, 4, 7, 6, 4, 4, 8, 1]
    );
    let mut it = problem20::Digitizer::new(BigUint::from(42u32));
    assert_eq!(it.next(), Some(2));
    assert_eq!(it.next(), Some(4));
    assert_eq!(it.next(), None);
    assert_eq!(it.next(), None);
    assert_eq!(problem20::big_factorial(0), BigUint::from(1u32));
    assert_eq!(problem20::big_factorial(1), BigUint::from(1u32));
    assert_eq!(problem20::big_factorial(25), BigUint::parse_bytes(b"15511210043330985984000000", 10).unwrap());
    assert_eq!(problem20::solve(100), 648);
    assert_eq!(problem20::solve(0), 1);
}

#[test]
fn amicable_numbers() {
    assert_eq!(problem21::divisors_sum(0), 0);
    assert_eq!(problem21::divisors_sum(1), 0);
    assert_eq!(problem21::divisors_sum(6), 6);
    assert_eq!(problem21::solve(0), 0);
    assert_eq!(problem21::solve(220), 0);
    // 284 is not below 221, but its partner 220 is
    assert_eq!(problem21::solve(221), 220 + 284);
    assert_eq!(problem21::solve(300), 220 + 284);
    assert_eq!(problem21::solve(10000), 31626);
}

#[test]
fn scores_of_names() {
    assert_eq!(problem22::score(""), 0);
    assert_eq!(problem22::score("A"), 1);
    assert_eq!(problem22::score("@"), 0);
    let names: Vec<String> =
        vec!["\"MARY\"", "\"ANN\"", "\"COLIN\""].into_iter().map(|s| s.to_owned()).collect();
    // ANN 29, COLIN 53, MARY 57
    assert_eq!(problem22::solve(&names), 29 + 2 * 53 + 3 * 57);
    let unquoted: Vec<String> = vec!["B", "\"\"A"].into_iter().map(|s| s.to_owned()).collect();
    assert_eq!(problem22::solve(&unquoted), 1 + 2 * 2);
    assert_eq!(problem22::solve(&vec![]), 0);
    // a shorter name comes before its extensions
    let nested: Vec<String> = vec!["ANNA", "ANN"].into_iter().map(|s| s.to_owned()).collect();
    assert_eq!(problem22::solve(&nested), 29 + 2 * 30);
}

#[test]
fn abundant_numbers() {
    assert!(!problem23::is_abundant(0));
    assert!(!problem23::is_abundant(6));
    assert!(!problem23::is_abundant(11));
    assert!(problem23::is_abundant(18));
    assert_eq!(problem23::divisors_sum(12), 16);
    assert_eq!(problem23::LIMIT, 28123);
}

#[test]
fn permutations_in_order() {
    assert_eq!(problem24::state(&Vec::<u8>::new()), Vec::<Vec<u8>>::new());
    assert_eq!(problem24::state(&vec![7]), Vec::<Vec<i32>>::new());
    assert_eq!(problem24::state(&vec![1, 2, 3, 4]).len(), 24);
    assert_eq!(problem24::state(&vec![1, 2, 3, 4])[23], vec![4, 3, 2, 1]);
    assert_eq!(problem24::lexical_perm(&vec![10, 2, 0])[0], "1020");
    assert_eq!(problem24::lexical_perm(&vec![10, 2, 0])[5], "0210");
}

#[test]
fn first_fibonacci_number_of_a_size() {
    assert_eq!(problem25::index_for_fib_of_at_least(BigUint::from(0u32)), 2);
    assert_eq!(problem25::index_for_fib_of_at_least(BigUint::from(1u32)), 2);
    assert_eq!(problem25::index_for_fib_of_at_least(BigUint::from(2u32)), 3);
    assert_eq!(problem25::index_for_fib_of_at_least(BigUint::from(144u32)), 12);
    assert_eq!(problem25::index_for_fib_of_at_least(BigUint::from(145u32)), 13);
    assert_eq!(problem25::solve(1), 2);
    assert_eq!(problem25::solve(2), 7);
    assert_eq!(problem25::solve(3), 12);
    assert_eq!(problem25::solve(1000), 4782);
}

#[test]
fn runs_of_primes() {
    let mut memo_is_prime = memoized(primes::is_prime);
    // 4 is refused at once
    assert_eq!(problem27::seq_of_primes(|n| n + 4, &mut memo_is_prime), 0);
    // 0 and 1 have no proper divisor, and the sign does not count
    assert_eq!(problem27::seq_of_primes(|n| n, &mut memo_is_prime), 4);
    assert_eq!(problem27::seq_of_primes(|n| -n - 5, &mut memo_is_prime), 1);
    assert_eq!(problem27::seq_of_primes(|_| i64::MIN + 1 - 1, &mut memo_is_prime), 0);
}

#[test]
fn spiral_diagonals() {
    assert_eq!(problem28::ring_corners(2), 25 + 21 + 17 + 13);
    assert_eq!(problem28::sum_until(0), 1);
    assert_eq!(problem28::sum_until(2), 101);
    assert_eq!(problem28::solve(1), 1);
    assert_eq!(problem28::solve(5), 101);
    assert_eq!(problem28::solve(6), 101);
    assert_eq!(problem28::solve(1001), 669171001);
}

#[test]
fn distinct_powers() {
    assert_eq!(problem29::solve(2..=5), 15);
    assert_eq!(problem29::solve(2..=10), 69);
    assert_eq!(problem29::solve(5..=2), 0);
    assert_eq!(problem29::solve(0..=1), 2);
    let found = problem29::digits(2..=3, 2..=4);
    let expected: Vec<BigUint> = vec![4u32, 8, 16, 9, 27, 81].into_iter().map(BigUint::from).collect();
    assert_eq!(found, expected);
    // 2^4 and 4^2 are one number
    assert_eq!(problem29::digits(2..=4, 2..=4).len(), 8);
    assert_eq!(problem29::digits(2..=2, 70..=70), vec![BigUint::from(1u128 << 70)]);
}

#[test]
fn ways_to_pay() {
    assert_eq!(problem31::ways(vec![1], 5), vec![vec![(5, 1)]]);
    assert_eq!(problem31::ways(vec![7], 5), vec![vec![(5, 1)]]);
    assert_eq!(
        problem31::ways(vec![1, 2], 4),
        vec![vec![(4, 1)], vec![(1, 2), (2, 1)], vec![(2, 2)]]
    );
    assert_eq!(
        problem31::ways(vec![1, 2, 5], 5),
        vec![vec![(5, 1)], vec![(1, 2), (3, 1)], vec![(2, 2), (1, 1)], vec![(1, 5)]]
    );
    assert_eq!(problem31::ways(vec![1, 2], 0), vec![vec![(0, 2)]]);
    assert_eq!(problem31::solve(), 73682);
}

#[test]
fn circular_primes() {
    assert_eq!(problem35::digits_to_int(&vec![]), 0);
    assert_eq!(problem35::digits_to_int(&vec![0, 1, 2]), 12);
    assert_eq!(problem35::digits_to_int(&vec![1, 8, 4, 4, 6, 7, 4, 4, 0, 7, 3, 7, 0, 9, 5, 5, 1, 6, 1, 5]), u64::MAX);
    assert_eq!(problem35::rotations_of(0), vec![0]);
    assert_eq!(problem35::rotations_of(5), vec![5]);
    assert_eq!(problem35::rotations_of(101), vec![101, 110, 11]);
    let known: HashSet<u64> = vec![2, 3, 5, 7, 11, 13, 17, 31, 37].into_iter().collect();
    assert!(problem35::is_circular(13, &known));
    assert!(!problem35::is_circular(17, &known));
    assert_eq!(problem35::solve(100), 13);
    assert_eq!(problem35::solve(14), 5);
    assert_eq!(problem35::solve(0), 0);
    assert_eq!(problem35::solve(1000), 25);
}
