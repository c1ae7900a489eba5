//! Settings handed to the underlying engine.
use vstd::prelude::*;

verus! {

/// Algorithms of block compression for the database.
///
/// Database contents are stored in blocks of key-value pairs; each block may be
/// compressed before it is written to a file.
#[derive(Debug, Clone, Copy, PartialEq, Eq, Structural)]
pub enum CompressionType {
    Bz2,
    Lz4,
    Lz4hc,
    Snappy,
    Zlib,
    Zstd,
    NoCompression,
}

impl CompressionType {
    /// The lower-case name of the algorithm.
    pub fn name(&self) -> (r: &'static str)
        ensures
            r@ == compression_name(*self),
    {
        match self {
            CompressionType::Bz2 => "bz2",
            CompressionType::Lz4 => "lz4",
            CompressionType::Lz4hc => "lz4hc",
            CompressionType::Snappy => "snappy",
            CompressionType::Zlib => "zlib",
            CompressionType::Zstd => "zstd",
            CompressionType::NoCompression => "none",
        }
    }
}

/// The lower-case name of each compression algorithm.
pub open spec fn compression_name(c: CompressionType) -> Seq<char> {
    match c {
        CompressionType::Bz2 => "bz2"@,
        CompressionType::Lz4 => "lz4"@,
        CompressionType::Lz4hc => "lz4hc"@,
        CompressionType::Snappy => "snappy"@,
        CompressionType::Zlib => "zlib"@,
        CompressionType::Zstd => "zstd"@,
        CompressionType::NoCompression => "none"@,
    }
}

/// Options for the database, passed through to the underlying engine.
#[derive(Debug, Clone, Copy, PartialEq, Eq, Structural)]
#[non_exhaustive]
pub struct DBOptions {
    /// Number of files the engine may keep open; `None` means no limit.
    pub max_open_files: Option<i32>,
    /// Whether a missing database is created on open. Defaults to `true`.
    pub create_if_missing: bool,
    /// Block compression. Defaults to `CompressionType::NoCompression`.
    pub compression_type: CompressionType,
    /// Maximal total size of the write-ahead log in bytes; `None` leaves it to the engine.
    pub max_total_wal_size: Option<u64>,
    /// Maximal size of the in-memory block cache in bytes; `None` means no cache.
    pub max_cache_size: Option<usize>,
}

impl DBOptions {
    /// Creates a new `DBOptions` object.
    pub fn new(
        max_open_files: Option<i32>,
        create_if_missing: bool,
        compression_type: CompressionType,
        max_total_wal_size: Option<u64>,
        max_cache_size: Option<usize>,
    ) -> (r: Self)
        ensures
            r.max_open_files == max_open_files,
            r.create_if_missing == create_if_missing,
            r.compression_type == compression_type,
            r.max_total_wal_size == max_total_wal_size,
            r.max_cache_size == max_cache_size,
    {
        DBOptions {
            max_open_files,
            create_if_missing,
            compression_type,
            max_total_wal_size,
            max_cache_size,
        }
    }
}

impl Default for DBOptions {
    /// No limit on open files, create when missing, no compression, engine-chosen
    /// log size, no cache.
    fn default() -> (r: Self)
        ensures
            r.max_open_files.is_none(),
            r.create_if_missing,
            r.compression_type == CompressionType::NoCompression,
            r.max_total_wal_size.is_none(),
            r.max_cache_size.is_none(),
    {
        Self::new(None, true, CompressionType::NoCompression, None, None)
    }
}

} // verus!
