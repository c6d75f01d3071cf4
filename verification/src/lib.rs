//! Lazy sequences drawn from suspendable computations, and the number
//! sequences built on them: Fibonacci numbers, primes from an incremental
//! sieve, and pairs in descending order of their product.
pub mod fibonacci;
pub mod frontier;
pub mod generator;
pub mod num;
pub mod pairs;
pub mod primes;
pub mod problems;
pub mod sieve;
pub mod string;

pub use crate::num::{fib, fib_largest_lte, is_prime};
