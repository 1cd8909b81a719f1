//! Prime factorization of `n!` without computing `n!`, by Legendre's formula
//! over a cache of primes kept by a sieve of Eratosthenes.

pub mod primes;
pub mod engine;
pub mod legendre;
pub mod multiplicity;
pub mod theorems;

pub use engine::FactorialEngine;
pub use primes::{is_prime, primes_upto};
