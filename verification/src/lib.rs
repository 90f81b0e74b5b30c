//! A Bloom filter: a set of byte strings that answers "possibly present" or
//! "definitely absent" from a fixed array of bits, verified with Verus.
//!
//! - [`estimate`] sizes a filter: how many bits and how many probes suit a
//!   false-positive rate and an expected number of items.
//! - [`logarithm`] computes the binary logarithm that the sizing needs, in
//!   integer arithmetic.
//! - [`hashing`] hashes a value under two seeds and derives its probe
//!   sequence from the two hashes.
//! - [`bloom`] is the filter itself, its mathematical model, and the laws
//!   that hold of it.
//! - [`bits`] holds the bit array of the `bit-vec` crate and what is assumed
//!   of it.
pub mod bits;
pub mod bloom;
pub mod estimate;
pub mod hashing;
pub mod logarithm;

pub use bloom::BloomFilter;
pub use estimate::{estimate_bits, estimate_hash, ConfigError, Rate};
pub use hashing::HashIter;
