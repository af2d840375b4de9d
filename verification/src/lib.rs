//! Core of an embedded, ordered key-value store built as a log-structured
//! merge-tree: byte codecs, the internal-key model, the write-ahead log
//! framing, the sorted-table format with its readers, the memtable and the
//! sharded LRU caches.

pub mod db;
pub mod obj;
pub mod table;
pub mod unit;
pub mod util;
