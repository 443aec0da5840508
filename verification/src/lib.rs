//! A recursively bootstrapped segmented sieve of Eratosthenes.
//!
//! `compute_primes` returns every prime up to a given limit, in ascending
//! order. Seed primes up to the ceiling square root of the limit are obtained
//! by running the same pipeline recursively; the remaining range is split into
//! per-worker shares and sieved in bounded sub-segments against the seeds.

pub mod primality;
pub mod sieve;
pub mod laws;
