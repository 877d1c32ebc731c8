//! A cache of decoded table blocks.

use vstd::prelude::*;

pub mod lru;

pub use lru::{BlockCache, CacheKey, CacheStats};

verus! {

} // verus!
