//! Compaction: merging table files into the next level.
//!
//! Level 0 holds the tables that flushes wrote; their key ranges may
//! overlap. A compaction merges the tables of a task into one table of the
//! next level: of several entries for one key the one from the newest table
//! stays, and tombstones are dropped from level 1 on.

use vstd::prelude::*;

pub mod job;
pub mod job_laws;
pub mod manifest;
pub mod merge;
pub mod merge_laws;
pub mod picker;
pub mod version;

pub use job::{CompactionJob, CompactionResult};
pub use manifest::VersionSet;
pub use merge::MergeIterator;
pub use picker::{CompactionPicker, CompactionTask};
pub use version::{Version, VersionEdit};

verus! {

/// Number of files at level 0 that triggers a compaction.
pub const MAX_LEVEL0_FILES: usize = 4;

/// The deepest level whose target size fits into 64 bits.
pub const MAX_SIZED_LEVEL: usize = 13;

/// Ten to the power of `n`.
pub open spec fn pow10(n: nat) -> nat
    decreases n,
{
    if n == 0 {
        1
    } else {
        10 * pow10((n - 1) as nat)
    }
}

/// The target size of a level from the first on: ten to the power of the
/// level, in mebibytes.
pub open spec fn target_size(level: nat) -> nat {
    pow10(level) * 1048576
}

/// The powers of ten grow.
pub proof fn lemma_pow10_grows(a: nat, b: nat)
    requires
        a <= b,
    ensures
        pow10(a) <= pow10(b),
        pow10(a) >= 1,
    decreases b,
{
    if a < b {
        lemma_pow10_grows(a, (b - 1) as nat);
    } else if a > 0 {
        lemma_pow10_grows((a - 1) as nat, (a - 1) as nat);
    }
}

/// The target size of a level in bytes. Level 0 has none: it is compacted
/// by the number of its files, and its target is the largest number.
pub fn target_size_for_level(level: usize) -> (n: u64)
    requires
        level <= MAX_SIZED_LEVEL,
    ensures
        n == if level == 0 {
            u64::MAX as nat
        } else {
            target_size(level as nat)
        },
{
    if level == 0 {
        return u64::MAX;
    }
    let mut power: u64 = 1;
    let mut i: usize = 0;
    while i < level
        invariant
            i <= level <= MAX_SIZED_LEVEL,
            power == pow10(i as nat),
            power <= 10000000000000,
        decreases level - i,
    {
        proof {
            lemma_pow10_grows((i + 1) as nat, 13);
            assert(pow10(13) == 10000000000000) by {
                reveal_with_fuel(pow10, 14);
            }
        }
        power = power * 10;
        i += 1;
    }
    power * 1048576
}

} // verus!
