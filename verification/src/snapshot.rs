//! Snapshots: reading the database as it was at a sequence number.

use vstd::prelude::*;
use crate::db::DB;
use crate::error::Error;

verus! {

/// A point in the history of a database: the sequence number of the last
/// write that a reader of the snapshot sees.
#[derive(Debug, Clone, Copy, PartialEq, Eq, Structural)]
pub struct Snapshot {
    sequence: u64,
}

impl Snapshot {
    /// The sequence number of the snapshot.
    pub closed spec fn spec_sequence(&self) -> u64 {
        self.sequence
    }

    /// A snapshot at the given sequence number.
    pub fn new(sequence: u64) -> (s: Self)
        ensures
            s.spec_sequence() == sequence,
    {
        Snapshot { sequence }
    }

    /// The value of `key` as it was when the snapshot was taken.
    pub fn get(&self, db: &DB, key: &[u8]) -> (r: Result<Option<Vec<u8>>, Error>)
        requires
            db.well_formed(),
        ensures
            match db.lookup(key@, self.spec_sequence()) {
                Ok(found) => match found.value() {
                    Some(v) => r matches Ok(Some(bytes)) && bytes@ == v,
                    None => r matches Ok(None),
                },
                Err(k) => r matches Err(e) && e.kind() == k,
            },
    {
        db.get_at_sequence(key, self.sequence)
    }

    /// The sequence number of the snapshot.
    pub fn sequence(&self) -> (s: u64)
        ensures
            s == self.spec_sequence(),
    {
        self.sequence
    }
}

impl DB {
    /// A snapshot of the database as it is now.
    pub fn snapshot(&self) -> (s: Snapshot)
        ensures
            s.spec_sequence() == self.spec_sequence(),
    {
        Snapshot::new(self.sequence())
    }
}

} // verus!
