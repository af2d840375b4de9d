//! Leaf utilities: checksums, byte codecs, hashing, comparators, caches.

pub mod bytewise_comparator_impl;
pub mod cache;
pub mod cache_model;
pub mod coding;
pub mod comparator;
pub mod crc32c;
pub mod env;
pub mod random;
pub mod random_access_file;
pub mod sequential_file;
pub mod test_util;
pub mod writable_file;
