//! The sorted-table file format and its readers.

pub mod block;
pub mod block_builder;
pub mod block_laws;
pub mod built_block;
pub mod filter_block;
pub mod format;
pub mod iterator;
pub mod iterator_wrapper;
pub mod table;
pub mod table_file;
pub mod table_model;
pub mod two_level_iterator;
