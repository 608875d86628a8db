//! Number-theory helpers and puzzle solutions, with machine-checked contracts.
//!
//! The heart of the crate is a wheel-optimised sieve of Eratosthenes
//! ([`primes::primes_upto`]); around it stand small arithmetic utilities.

pub mod adjacent;
pub mod best;
pub mod bitset;
pub mod bounds;
pub mod decimal;
pub mod disjoint;
pub mod divisibility;
pub mod factors;
pub mod fibs;
pub mod partitions;
pub mod poker;
pub mod primes;
pub mod queue;
pub mod runner;
pub mod sieves;
pub mod slices;
pub mod solutions;
pub mod wheel;
pub mod windows;

pub use best::Best;
pub use best::CountOf;
pub use decimal::is_palindrome;
pub use decimal::POWERS_OF_10;
pub use factors::factors;
pub use fibs::fibs;
pub use fibs::Fibs;
pub use partitions::partitions3;
pub use sieves::isqrt;
