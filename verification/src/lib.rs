//! Lazy numeric sequence generators, a memoizing cache and a collection of
//! small number puzzles built on them, with machine-checked contracts.

pub mod bigint;
pub mod divisors;
pub mod fibonacci;
pub mod number_theory;
pub mod primes;
pub mod problem1;
pub mod problem2;
pub mod problem3;
pub mod problem4;
pub mod problem5;
pub mod problem6;
pub mod problem7;
pub mod problem9;
pub mod problem10;
pub mod problem12;
pub mod problem14;
pub mod problem15;
pub mod problem16;
pub mod problem18;
pub mod problem20;
pub mod problem21;
pub mod problem22;
pub mod problem23;
pub mod problem24;
pub mod problem25;
pub mod problem27;
pub mod problem28;
pub mod problem29;
pub mod problem31;
pub mod problem35;
pub mod ranges;
pub mod sequence;
pub mod seqs;
pub mod utils;
