//! Sorted tables: immutable files of key-value pairs in key order.
//!
//! A table is laid out as data blocks, an optional filter block, a
//! meta-index block, an index block and a footer of fixed size. Every block
//! is followed by one byte that names its compression and by the four bytes
//! of the checksum of the stored block bytes.

use vstd::prelude::*;

pub mod block;
pub mod block_laws;
pub mod builder;
pub mod footer;
pub mod index;
pub mod layout;
pub mod reader;
pub mod table_laws;

pub use block::{Block, BlockBuilder, BlockIterator};
pub use builder::SSTableBuilder;
pub use footer::{BlockHandle, Footer};
pub use index::IndexBlock;
pub use reader::SSTableReader;
pub use crate::config::CompressionType;

verus! {

/// Default target size of a data block.
pub const DEFAULT_BLOCK_SIZE: usize = 4096;

/// Size of the footer.
pub const FOOTER_SIZE: usize = 48;

/// The number that ends every table file: the bytes `SS_ELBAT` read as a
/// little-endian integer.
pub const MAGIC_NUMBER: u64 = 0x5441424c455f5353;

/// Number of bytes that follow every stored block: the compression byte and
/// the checksum.
pub const BLOCK_TRAILER_SIZE: usize = 5;

} // verus!
