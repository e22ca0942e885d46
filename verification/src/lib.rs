//! A suite of exact, deterministic primality-testing algorithms for `u64`
//! candidates, plus a bit-packed Sieve of Eratosthenes that enumerates all
//! primes up to a bound.
//!
//! Every algorithm is total over its input domain, never panics, and carries
//! a contract that pins its boolean (or sequence) result down exactly.

pub mod aks;
pub mod miller_rabin;
pub mod primes;
pub mod registry;
pub mod sieve_of_eratosthenes;
pub mod trial_division;
pub mod trial_division_newton;
pub mod trial_division_sqrt;
