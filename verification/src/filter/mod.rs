//! Filters that tell quickly that a key is not in a table.

use vstd::prelude::*;

pub mod bloom;

pub use bloom::BloomFilter;

use crate::error::Error;

verus! {

/// A set of keys that may answer "possibly" for keys that were never added,
/// and never answers "no" for a key that was.
pub trait Filter: Sized {
    /// Whether `key` may have been added.
    fn may_contain(&self, key: &[u8]) -> bool;

    /// Adds `key`.
    fn add(&mut self, key: &[u8]);

    /// The filter as bytes.
    fn encode(&self) -> Vec<u8>;

    /// The filter that bytes stand for.
    fn decode(data: &[u8]) -> Result<Self, Error>;
}

} // verus!
