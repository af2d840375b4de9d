//! Option bundles read by the storage core.

use vstd::prelude::*;

verus! {

/// How a block's body is stored.  The number of each kind is the type byte
/// of the block trailer.
#[derive(Debug, PartialEq, Eq, Structural, Clone, Copy)]
pub enum CompressionType {
    KnoCompression,
    KSnappyCompression,
    KZstdCompression,
}

impl CompressionType {
    /// The type byte of a kind.
    pub open spec fn spec_to_u8(self) -> u8 {
        match self {
            CompressionType::KnoCompression => 0,
            CompressionType::KSnappyCompression => 1,
            CompressionType::KZstdCompression => 2,
        }
    }

    /// The kind that a type byte stands for, if any.
    pub open spec fn spec_from_u8(byte: u8) -> Option<CompressionType> {
        if byte == 0 {
            Some(CompressionType::KnoCompression)
        } else if byte == 1 {
            Some(CompressionType::KSnappyCompression)
        } else if byte == 2 {
            Some(CompressionType::KZstdCompression)
        } else {
            None
        }
    }

    pub fn to_u8(self) -> (byte: u8)
        ensures
            byte == self.spec_to_u8(),
    {
        match self {
            CompressionType::KnoCompression => 0,
            CompressionType::KSnappyCompression => 1,
            CompressionType::KZstdCompression => 2,
        }
    }

    pub fn from_u8(byte: u8) -> (kind: Option<CompressionType>)
        ensures
            kind == Self::spec_from_u8(byte),
    {
        if byte == 0 {
            Some(CompressionType::KnoCompression)
        } else if byte == 1 {
            Some(CompressionType::KSnappyCompression)
        } else if byte == 2 {
            Some(CompressionType::KZstdCompression)
        } else {
            None
        }
    }
}

/// Settings of the storage core.  The comparator, the filter policy and the
/// block cache are handed to the components that use them.
#[derive(Debug, Clone, Copy)]
pub struct Options {
    pub create_if_missing: bool,
    pub error_if_exists: bool,
    /// Verify the checksum of every block read.
    pub paranoid_checks: bool,
    pub write_buffer_size: usize,
    /// Upper bound of the open-file limiter.
    pub max_open_files: u64,
    /// Target size of an uncompressed block.
    pub block_size: usize,
    /// Number of entries between two restart points.
    pub block_restart_interval: u32,
    pub max_file_size: usize,
    pub compression: CompressionType,
    pub zstd_compression_level: u32,
    pub reuse_logs: bool,
}

impl Options {
    /// The default settings.
    pub fn new() -> (o: Options)
        ensures
            o == (Options {
                create_if_missing: false,
                error_if_exists: false,
                paranoid_checks: false,
                write_buffer_size: 4194304,
                max_open_files: 1000,
                block_size: 4096,
                block_restart_interval: 16,
                max_file_size: 2097152,
                compression: CompressionType::KSnappyCompression,
                zstd_compression_level: 1,
                reuse_logs: false,
            }),
    {
        Options {
            create_if_missing: false,
            error_if_exists: false,
            paranoid_checks: false,
            write_buffer_size: 4194304,
            max_open_files: 1000,
            block_size: 4096,
            block_restart_interval: 16,
            max_file_size: 2097152,
            compression: CompressionType::KSnappyCompression,
            zstd_compression_level: 1,
            reuse_logs: false,
        }
    }
}

/// Settings of one read.
#[derive(Debug, Clone, Copy)]
pub struct ReadOptions {
    /// Verify the checksum of every block this read fetches.
    pub verify_checksums: bool,
    /// Keep the blocks this read fetches in the block cache.
    pub fill_cache: bool,
    /// Sequence number as of which to read; `None` reads the latest state.
    pub snapshot: Option<u64>,
}

impl ReadOptions {
    pub fn new() -> (o: ReadOptions)
        ensures
            o == (ReadOptions { verify_checksums: false, fill_cache: true, snapshot: None }),
    {
        ReadOptions { verify_checksums: false, fill_cache: true, snapshot: None }
    }
}

} // verus!
