//! Configuration of the engine.

use vstd::prelude::*;
use crate::error::Error;

verus! {

/// How the blocks of a sorted table are compressed on disk.
#[derive(Debug, Clone, Copy, PartialEq, Eq, Structural)]
pub enum CompressionType {
    /// Blocks are stored as they are.
    NoCompression,
    /// Blocks are compressed with Snappy.
    Snappy,
    /// Blocks are compressed with LZ4.
    Lz4,
}

impl CompressionType {
    /// The byte that stands for this compression type on disk.
    pub open spec fn spec_as_u8(self) -> u8 {
        match self {
            CompressionType::NoCompression => 0,
            CompressionType::Snappy => 1,
            CompressionType::Lz4 => 2,
        }
    }

    /// The compression type a byte stands for, if any.
    pub open spec fn spec_from_u8(value: u8) -> Option<Self> {
        if value == 0 {
            Some(CompressionType::NoCompression)
        } else if value == 1 {
            Some(CompressionType::Snappy)
        } else if value == 2 {
            Some(CompressionType::Lz4)
        } else {
            None
        }
    }

    /// The compression type a byte stands for, if any.
    pub fn from_u8(value: u8) -> (t: Option<Self>)
        ensures
            t == Self::spec_from_u8(value),
    {
        match value {
            0 => Some(CompressionType::NoCompression),
            1 => Some(CompressionType::Snappy),
            2 => Some(CompressionType::Lz4),
            _ => None,
        }
    }

    /// The byte that stands for this compression type on disk.
    pub fn as_u8(self) -> (b: u8)
        ensures
            b == self.spec_as_u8(),
            Self::spec_from_u8(b) == Some(self),
    {
        match self {
            CompressionType::NoCompression => 0,
            CompressionType::Snappy => 1,
            CompressionType::Lz4 => 2,
        }
    }
}

impl Default for CompressionType {
    fn default() -> (t: Self)
        ensures
            t == CompressionType::Snappy,
    {
        CompressionType::Snappy
    }
}

/// Options for opening a database.
#[derive(Debug, Clone)]
pub struct Options {
    /// Create the database if it does not exist.
    pub create_if_missing: bool,
    /// Fail if the database already exists.
    pub error_if_exists: bool,
    /// Size in bytes at which the active MemTable is frozen.
    pub memtable_size: usize,
    /// Number of level-0 tables that triggers a compaction.
    pub level0_compaction_threshold: usize,
    /// Growth factor between levels (reserved).
    pub level_size_multiplier: usize,
    /// Target size of level 1 in bytes.
    pub base_level_size: usize,
    /// Number of levels.
    pub max_levels: usize,
    /// Target size of a data block in bytes.
    pub block_size: usize,
    /// Byte budget of the block cache; 0 disables it.
    pub block_cache_size: usize,
    /// Whether new tables carry a bloom filter.
    pub use_bloom_filter: bool,
    /// Target false-positive rate of the bloom filter, in parts per million.
    pub bloom_filter_fp_rate_ppm: u32,
    /// Compression of data blocks.
    pub compression: CompressionType,
    /// Whether writes are logged before they are applied.
    pub use_wal: bool,
    /// Whether the log is made durable after each logical write.
    pub sync_wal: bool,
    /// Number of background compaction workers.
    pub compaction_threads: usize,
}

/// The options a database gets when nothing is chosen.
pub open spec fn default_options() -> Options {
    Options {
        create_if_missing: true,
        error_if_exists: false,
        memtable_size: 4194304,
        level0_compaction_threshold: 4,
        level_size_multiplier: 10,
        base_level_size: 10485760,
        max_levels: 7,
        block_size: 4096,
        block_cache_size: 8388608,
        use_bloom_filter: true,
        bloom_filter_fp_rate_ppm: 10000,
        compression: CompressionType::Snappy,
        use_wal: true,
        sync_wal: true,
        compaction_threads: 1,
    }
}

impl Default for Options {
    fn default() -> (o: Self)
        ensures
            o == default_options(),
    {
        Options {
            create_if_missing: true,
            error_if_exists: false,
            memtable_size: 4194304,
            level0_compaction_threshold: 4,
            level_size_multiplier: 10,
            base_level_size: 10485760,
            max_levels: 7,
            block_size: 4096,
            block_cache_size: 8388608,
            use_bloom_filter: true,
            bloom_filter_fp_rate_ppm: 10000,
            compression: CompressionType::Snappy,
            use_wal: true,
            sync_wal: true,
            compaction_threads: 1,
        }
    }
}

impl Options {
    /// Options with the default values.
    pub fn new() -> (o: Self)
        ensures
            o == default_options(),
    {
        Options::default()
    }

    /// Sets whether a missing database is created.
    pub fn create_if_missing(self, value: bool) -> (o: Self)
        ensures
            o == (Options { create_if_missing: value, ..self }),
    {
        let mut o = self;
        o.create_if_missing = value;
        o
    }

    /// Sets the size at which the MemTable is frozen.
    pub fn memtable_size(self, size: usize) -> (o: Self)
        ensures
            o == (Options { memtable_size: size, ..self }),
    {
        let mut o = self;
        o.memtable_size = size;
        o
    }

    /// Sets the target size of a data block.
    pub fn block_size(self, size: usize) -> (o: Self)
        ensures
            o == (Options { block_size: size, ..self }),
    {
        let mut o = self;
        o.block_size = size;
        o
    }

    /// Sets the byte budget of the block cache.
    pub fn block_cache_size(self, size: usize) -> (o: Self)
        ensures
            o == (Options { block_cache_size: size, ..self }),
    {
        let mut o = self;
        o.block_cache_size = size;
        o
    }

    /// Sets the compression of data blocks.
    pub fn compression(self, compression: CompressionType) -> (o: Self)
        ensures
            o == (Options { compression: compression, ..self }),
    {
        let mut o = self;
        o.compression = compression;
        o
    }

    /// Sets whether writes are logged.
    pub fn use_wal(self, value: bool) -> (o: Self)
        ensures
            o == (Options { use_wal: value, ..self }),
    {
        let mut o = self;
        o.use_wal = value;
        o
    }

    /// Whether every option lies in its accepted range.
    pub open spec fn valid(self) -> bool {
        &&& self.memtable_size > 0
        &&& self.block_size > 0
        &&& self.max_levels > 0
        &&& 0 < self.bloom_filter_fp_rate_ppm < 1000000
    }

    /// Accepts the options exactly when they are valid, and reports an
    /// invalid argument otherwise.
    pub fn validate(&self) -> (r: Result<(), Error>)
        ensures
            r is Ok <==> self.valid(),
            r matches Err(e) ==> e is InvalidArgument,
    {
        if self.memtable_size == 0 {
            return Err(Error::invalid_argument("memtable_size must be > 0"));
        }
        if self.block_size == 0 {
            return Err(Error::invalid_argument("block_size must be > 0"));
        }
        if self.max_levels == 0 {
            return Err(Error::invalid_argument("max_levels must be > 0"));
        }
        if self.bloom_filter_fp_rate_ppm == 0 || self.bloom_filter_fp_rate_ppm >= 1000000 {
            return Err(Error::invalid_argument("bloom_filter_fp_rate must be between 0 and 1"));
        }
        Ok(())
    }
}

} // verus!
