//! Number-theoretic primitives over arbitrary-precision integers: the
//! extended Euclidean algorithm, modular multiplicative inverses, and
//! Miller-Rabin probabilistic primality testing.
//!
//! The algorithms are verified over the mathematical values that the
//! bignum collaborator's integers stand for; `bignum` holds the trusted
//! boundary around that collaborator.

pub mod arith;
pub mod bignum;
pub mod egcd;
pub mod modinverse;
pub mod mrt;
pub mod primes;
