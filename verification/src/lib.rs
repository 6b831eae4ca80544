//! Public parameters of a leveled, residue-number-system BFV scheme: the prime
//! moduli, the chain of ring contexts built on them, and the constants that
//! encryption and decryption read at every level.

pub mod bigint;
pub mod primes;
pub mod ring;
pub mod selection;
pub mod encryption;
pub mod decryption;
pub mod parameters;
pub mod laws;
