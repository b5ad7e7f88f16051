//! Counting primes by trial division, and rendering the result of a timed run.
//!
//! [`primes`] holds the primality predicate and the counting loop, both proved
//! against the textbook definition of a prime. [`report`] renders the lines a
//! benchmark run prints.

pub mod primes;
pub mod report;

pub use primes::{count_primes, isprime, isqrt, BOUND};
