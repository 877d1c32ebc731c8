//! An embedded, ordered key-value storage engine organised as a
//! log-structured merge tree, verified with Verus.

pub mod cache;
pub mod cached_read;
pub mod checksum;
pub mod codec;
pub mod compaction;
pub mod compress;
pub mod config;
pub mod db;
pub mod db_laws;
pub mod error;
pub mod file_names;
pub mod filter;
pub mod flush;
pub mod iterator;
pub mod key_order;
pub mod lookup;
pub mod memtable;
pub mod reopen_laws;
pub mod replay;
pub mod snapshot;
pub mod sstable;
pub mod storage;
pub mod table_numbers;
pub mod wal;
pub mod write_batch;

pub use config::{CompressionType, Options};
pub use db::DB;
pub use error::{Error, Result};
pub use iterator::{DBIterator, IteratorState};
pub use snapshot::Snapshot;
pub use storage::{Directory, FileId, FileKind};
pub use write_batch::{WriteBatch, WriteOp};
