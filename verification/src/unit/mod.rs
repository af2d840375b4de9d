//! Hashing and the Bloom filter built on it.

pub mod bloom_filter_policy;
pub mod filter_policy;
pub mod hash;
