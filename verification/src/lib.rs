//! Arithmetic in the prime field of order 2^64 - 2^32 + 1: the field
//! elements and their operators, the proof that the modulus is prime, and
//! the round constants of a Rescue permutation over the field.

pub mod field_element;
pub mod generate_params;
pub mod primes;
