//! The write path and the in-memory tier: internal keys, the write-ahead
//! log, the memtable and the cache of open tables.

pub mod file_name;
pub mod internal_filter_policy;
pub mod internal_key;
pub mod internal_key_comparator;
pub mod log_format;
pub mod log_laws;
pub mod log_reader;
pub mod log_writer;
pub mod mem_table;
pub mod snap_shot;
pub mod table_cache;
