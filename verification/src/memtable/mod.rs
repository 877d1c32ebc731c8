//! The in-memory table of recent writes.
//!
//! A MemTable holds every version of every key written to it, in the order
//! of internal keys. A lookup at a snapshot sees the newest version whose
//! sequence number is not above the snapshot.

use vstd::prelude::*;

pub mod internal_key;
pub mod skiplist;

pub use internal_key::{InternalKey, InternalKeyView, ValueType};

use crate::codec::{bytes_equal, copy_bytes};
use crate::key_order::{key_lt, lemma_key_lt_asymmetric, lemma_key_lt_irreflexive, lt_at};
use crate::lookup::{Lookup, LookupView};
use crate::memtable::internal_key::rank_of;
use crate::memtable::skiplist::{empty_contents, entry_key_of, entry_le, entry_lt, entry_views, in_bounds, is_range_of, skipmap_contents, skipmap_entries, skipmap_insert, skipmap_len, skipmap_new, skipmap_range, EntryKey, EntryList, EntryMap};

verus! {

/// Size limit of a MemTable when nothing else is asked for.
pub const DEFAULT_MEMTABLE_SIZE_LIMIT: usize = 4194304;

/// The bytes that an entry is counted as beyond its key and value.
pub const ENTRY_OVERHEAD: usize = 16;

/// The key under which a version is stored: the user key, the sequence
/// number counted down from the largest one, and the rank of the kind.
pub open spec fn entry_key(user_key: Seq<u8>, sequence: u64, kind: ValueType) -> EntryKey {
    (user_key, (u64::MAX - sequence) as u64, rank_of(kind))
}

/// The sequence number of a stored version.
pub open spec fn sequence_of(k: EntryKey) -> u64 {
    (u64::MAX - k.1) as u64
}

/// Whether a stored version is one of `key` that a reader at `snapshot`
/// sees.
pub open spec fn visible(k: EntryKey, key: Seq<u8>, snapshot: u64) -> bool {
    k.0 == key && sequence_of(k) <= snapshot
}

/// Whether `k` is the newest version of `key` that a reader at `snapshot`
/// sees.
pub open spec fn is_newest_visible(
    contents: Map<EntryKey, Seq<u8>>,
    key: Seq<u8>,
    snapshot: u64,
    k: EntryKey,
) -> bool {
    &&& contents.dom().contains(k)
    &&& visible(k, key, snapshot)
    &&& forall|o: EntryKey|
        #[trigger] contents.dom().contains(o) && visible(o, key, snapshot) ==> entry_le(k, o)
}

/// What a reader at `snapshot` finds for `key`: the newest version whose
/// sequence number is not above the snapshot. A value gives its bytes, a
/// tombstone says that the key is deleted.
pub open spec fn lookup_in(contents: Map<EntryKey, Seq<u8>>, key: Seq<u8>, snapshot: u64)
    -> LookupView {
    if exists|k: EntryKey| is_newest_visible(contents, key, snapshot, k) {
        let k = choose|k: EntryKey| is_newest_visible(contents, key, snapshot, k);
        if k.2 == 0 {
            LookupView::Found(contents[k])
        } else {
            LookupView::Deleted
        }
    } else {
        LookupView::Missing
    }
}

/// There is only one newest visible version.
pub proof fn lemma_newest_unique(
    contents: Map<EntryKey, Seq<u8>>,
    key: Seq<u8>,
    snapshot: u64,
    a: EntryKey,
    b: EntryKey,
)
    requires
        is_newest_visible(contents, key, snapshot, a),
        is_newest_visible(contents, key, snapshot, b),
    ensures
        a == b,
{
    assert(entry_le(a, b));
    assert(entry_le(b, a));
}

/// What a lookup gives when the newest visible version is known.
pub proof fn lemma_lookup_of_newest(
    contents: Map<EntryKey, Seq<u8>>,
    key: Seq<u8>,
    snapshot: u64,
    k: EntryKey,
)
    requires
        is_newest_visible(contents, key, snapshot, k),
    ensures
        lookup_in(contents, key, snapshot) == if k.2 == 0 {
            LookupView::Found(contents[k])
        } else {
            LookupView::Deleted
        },
{
    let c = choose|c: EntryKey| is_newest_visible(contents, key, snapshot, c);
    lemma_newest_unique(contents, key, snapshot, c, k);
}

/// A version written at a sequence number above a snapshot changes nothing
/// for a reader at the snapshot.
pub proof fn lemma_later_write_is_invisible(
    contents: Map<EntryKey, Seq<u8>>,
    written: EntryKey,
    value: Seq<u8>,
    key: Seq<u8>,
    snapshot: u64,
)
    requires
        sequence_of(written) > snapshot,
    ensures
        lookup_in(contents.insert(written, value), key, snapshot) == lookup_in(
            contents,
            key,
            snapshot,
        ),
{
    let after = contents.insert(written, value);
    assert forall|k: EntryKey| is_newest_visible(after, key, snapshot, k) implies is_newest_visible(
        contents,
        key,
        snapshot,
        k,
    ) by {
        assert(k != written);
        assert forall|o: EntryKey| #[trigger]
            contents.dom().contains(o) && visible(o, key, snapshot) implies entry_le(k, o) by {
            assert(after.dom().contains(o));
        }
    }
    assert forall|k: EntryKey| is_newest_visible(contents, key, snapshot, k) implies is_newest_visible(
        after,
        key,
        snapshot,
        k,
    ) by {
        assert forall|o: EntryKey| #[trigger]
            after.dom().contains(o) && visible(o, key, snapshot) implies entry_le(k, o) by {
            assert(o != written);
            assert(contents.dom().contains(o));
        }
    }
    if exists|k: EntryKey| is_newest_visible(contents, key, snapshot, k) {
        let k = choose|k: EntryKey| is_newest_visible(contents, key, snapshot, k);
        assert(is_newest_visible(after, key, snapshot, k));
        lemma_lookup_of_newest(after, key, snapshot, k);
        lemma_lookup_of_newest(contents, key, snapshot, k);
        assert(k != written);
    } else {
        if exists|k: EntryKey| is_newest_visible(after, key, snapshot, k) {
            let k = choose|k: EntryKey| is_newest_visible(after, key, snapshot, k);
            assert(is_newest_visible(contents, key, snapshot, k));
        }
    }
}

/// A version written at a sequence number above every version of its key
/// is what a reader at or above that sequence number finds.
pub proof fn lemma_newest_write_is_found(
    contents: Map<EntryKey, Seq<u8>>,
    key: Seq<u8>,
    sequence: u64,
    kind: ValueType,
    value: Seq<u8>,
    snapshot: u64,
)
    requires
        sequence <= snapshot,
        forall|o: EntryKey| #[trigger] contents.dom().contains(o) && o.0 == key ==> sequence_of(o)
            < sequence,
    ensures
        lookup_in(contents.insert(entry_key(key, sequence, kind), value), key, snapshot) == match kind {
            ValueType::Value => LookupView::Found(value),
            ValueType::Deletion => LookupView::Deleted,
        },
{
    let k = entry_key(key, sequence, kind);
    let after = contents.insert(k, value);
    assert forall|o: EntryKey| #[trigger]
        after.dom().contains(o) && visible(o, key, snapshot) implies entry_le(k, o) by {
        if o != k {
            assert(contents.dom().contains(o));
            assert(sequence_of(o) < sequence);
        }
    }
    assert(is_newest_visible(after, key, snapshot, k));
    lemma_lookup_of_newest(after, key, snapshot, k);
}

/// Whether versions are what a MemTable holds: finitely many, each a value
/// or a tombstone, and a tombstone without bytes.
pub open spec fn tidy(contents: Map<EntryKey, Seq<u8>>) -> bool {
    &&& contents.dom().finite()
    &&& forall|k: EntryKey|
        #[trigger] contents.dom().contains(k) ==> k.2 <= 1 && (k.2 == 1 ==> contents[k].len() == 0)
}

/// A single entry of a MemTable.
#[derive(Debug, Clone)]
pub struct MemTableEntry {
    key: InternalKey,
    value: Vec<u8>,
}

impl MemTableEntry {
    /// The key under which the entry is stored.
    pub open spec fn spec_entry_key(&self) -> EntryKey {
        entry_key(self.spec_key().user_key, self.spec_key().sequence, self.spec_key().value_type)
    }

    /// The internal key of the entry.
    pub closed spec fn spec_key(&self) -> InternalKeyView {
        self.key@
    }

    /// The value of the entry.
    pub closed spec fn spec_value(&self) -> Seq<u8> {
        self.value@
    }

    /// The internal key of the entry.
    pub fn key(&self) -> (k: &InternalKey)
        ensures
            k@ == self.spec_key(),
    {
        &self.key
    }

    /// The value of the entry; empty for a tombstone.
    pub fn value(&self) -> (v: &[u8])
        ensures
            v@ == self.spec_value(),
    {
        self.value.as_slice()
    }

    /// The user key of the entry.
    pub fn user_key(&self) -> (k: &[u8])
        ensures
            k@ == self.spec_key().user_key,
    {
        self.key.user_key()
    }

    /// The sequence number of the entry.
    pub fn sequence(&self) -> (s: u64)
        ensures
            s == self.spec_key().sequence,
    {
        self.key.sequence()
    }

    /// The kind of the entry.
    pub fn value_type(&self) -> (t: ValueType)
        ensures
            t == self.spec_key().value_type,
    {
        self.key.value_type()
    }
}

/// The keys and values that a list of entries stands for.
pub open spec fn listed(entries: Seq<MemTableEntry>) -> Seq<(EntryKey, Seq<u8>)> {
    entries.map_values(|e: MemTableEntry| (e.spec_entry_key(), e.spec_value()))
}

/// The table of recent writes.
pub struct MemTable {
    data: EntryMap,
    size: usize,
    start_sequence: u64,
}

impl MemTable {
    /// Every version the table holds, under its key.
    pub closed spec fn contents(&self) -> Map<EntryKey, Seq<u8>> {
        skipmap_contents(self.data)
    }

    /// The approximate size of the table in bytes.
    pub closed spec fn spec_size(&self) -> usize {
        self.size
    }

    /// The sequence number at which the table starts.
    pub closed spec fn spec_start_sequence(&self) -> u64 {
        self.start_sequence
    }

    /// The table holds finitely many versions, each a value or a tombstone,
    /// and a tombstone carries no bytes.
    pub open spec fn well_formed(&self) -> bool {
        tidy(self.contents())
    }

    /// What a reader at `snapshot` finds for `key`.
    pub open spec fn lookup(&self, key: Seq<u8>, snapshot: u64) -> LookupView {
        lookup_in(self.contents(), key, snapshot)
    }

    /// An empty table that starts at the given sequence number.
    pub fn new(start_sequence: u64) -> (t: Self)
        ensures
            t.well_formed(),
            t.contents() == empty_contents(),
            t.spec_size() == 0,
            t.spec_start_sequence() == start_sequence,
    {
        MemTable { data: skipmap_new(), size: 0, start_sequence }
    }

    /// Stores `value` as the version of `key` at `sequence`.
    pub fn put(&mut self, key: &[u8], value: &[u8], sequence: u64)
        requires
            old(self).well_formed(),
            old(self).spec_size() + key@.len() + value@.len() + ENTRY_OVERHEAD <= usize::MAX,
        ensures
            final(self).well_formed(),
            final(self).contents() == old(self).contents().insert(
                entry_key(key@, sequence, ValueType::Value),
                value@,
            ),
            final(self).spec_size() == old(self).spec_size() + key@.len() + value@.len()
                + ENTRY_OVERHEAD,
            final(self).spec_start_sequence() == old(self).spec_start_sequence(),
    {
        let entry_size = key.len() + value.len() + ENTRY_OVERHEAD;
        skipmap_insert(&mut self.data, (copy_bytes(key), u64::MAX - sequence, 0u8), copy_bytes(value));
        self.size = self.size + entry_size;
    }

    /// Stores a tombstone as the version of `key` at `sequence`.
    pub fn delete(&mut self, key: &[u8], sequence: u64)
        requires
            old(self).well_formed(),
            old(self).spec_size() + key@.len() + ENTRY_OVERHEAD <= usize::MAX,
        ensures
            final(self).well_formed(),
            final(self).contents() == old(self).contents().insert(
                entry_key(key@, sequence, ValueType::Deletion),
                Seq::<u8>::empty(),
            ),
            final(self).spec_size() == old(self).spec_size() + key@.len() + ENTRY_OVERHEAD,
            final(self).spec_start_sequence() == old(self).spec_start_sequence(),
    {
        let entry_size = key.len() + ENTRY_OVERHEAD;
        skipmap_insert(&mut self.data, (copy_bytes(key), u64::MAX - sequence, 1u8), Vec::new());
        self.size = self.size + entry_size;
    }

    /// What a reader at `max_sequence` finds for `key`: a value, a
    /// tombstone, or nothing.
    pub fn find(&self, key: &[u8], max_sequence: u64) -> (found: Lookup)
        requires
            self.well_formed(),
        ensures
            found@ == self.lookup(key@, max_sequence),
    {
        let lower = (copy_bytes(key), 0u64, 0u8);
        let mut upper_key = copy_bytes(key);
        upper_key.push(0u8);
        let upper = (upper_key, 0u64, 0u8);
        let ghost lo = entry_key_of(lower);
        let ghost hi = entry_key_of(upper);
        let range = skipmap_range(&self.data, lower, upper);
        let ghost contents = self.contents();
        let ghost views = entry_views(range@);
        proof {
            assert(lt_at(key@, hi.0, key@.len() as int));
            assert(key_lt(key@, hi.0));
            lemma_key_lt_asymmetric(key@, hi.0);
        }
        let mut i: usize = 0;
        while i < range.len()
            invariant
                i <= range@.len(),
                views == entry_views(range@),
                views.len() == range@.len(),
                contents == self.contents(),
                is_range_of(views, contents, Some(lo), Some(hi)),
                lo == (key@, 0u64, 0u8),
                hi.1 == 0 && hi.2 == 0,
                key_lt(key@, hi.0),
                key@ != hi.0,
                forall|j: int| 0 <= j < i ==> !visible((#[trigger] views[j]).0, key@, max_sequence),
            decreases range@.len() - i,
        {
            let ghost k = views[i as int].0;
            proof {
                assert(views[i as int] == (entry_key_of(range@[i as int].0), range@[i as int].1@));
            }
            if bytes_equal(range[i].0.0.as_slice(), key) && u64::MAX - range[i].0.1
                <= max_sequence {
                proof {
                    assert(visible(k, key@, max_sequence));
                    assert forall|o: EntryKey| #[trigger]
                        contents.dom().contains(o) && visible(o, key@, max_sequence) implies entry_le(
                        k,
                        o,
                    ) by {
                        assert(in_bounds(o, Some(lo), Some(hi)));
                        let j = choose|j: int| 0 <= j < views.len() && (#[trigger] views[j]).0 == o;
                        if j < i {
                            assert(!visible(views[j].0, key@, max_sequence));
                        } else if j > i {
                            assert(entry_lt(views[i as int].0, views[j].0));
                        }
                    }
                    assert(is_newest_visible(contents, key@, max_sequence, k));
                    lemma_lookup_of_newest(contents, key@, max_sequence, k);
                }
                if range[i].0.2 == 0 {
                    return Lookup::Found(copy_bytes(range[i].1.as_slice()));
                } else {
                    return Lookup::Deleted;
                }
            }
            i += 1;
        }
        proof {
            if exists|k: EntryKey| is_newest_visible(contents, key@, max_sequence, k) {
                let o = choose|k: EntryKey| is_newest_visible(contents, key@, max_sequence, k);
                assert(contents.dom().contains(o) && visible(o, key@, max_sequence));
                assert(in_bounds(o, Some(lo), Some(hi)));
                let j = choose|j: int| 0 <= j < views.len() && (#[trigger] views[j]).0 == o;
                assert(!visible(views[j].0, key@, max_sequence));
            }
        }
        Lookup::Missing
    }

    /// The value that a reader at `max_sequence` sees for `key`: `None` when
    /// the key is not in the table or is deleted.
    pub fn get(&self, key: &[u8], max_sequence: u64) -> (value: Option<Vec<u8>>)
        requires
            self.well_formed(),
        ensures
            match value {
                Some(v) => self.lookup(key@, max_sequence).value() == Some(v@),
                None => self.lookup(key@, max_sequence).value() is None,
            },
    {
        self.find(key, max_sequence).into_value()
    }

    /// The approximate size of the table in bytes: for every entry written
    /// the lengths of its key and value and sixteen bytes.
    pub fn approximate_size(&self) -> (n: usize)
        ensures
            n == self.spec_size(),
    {
        self.size
    }

    /// The number of versions in the table.
    pub fn len(&self) -> (n: usize)
        ensures
            n == self.contents().dom().len(),
    {
        skipmap_len(&self.data)
    }

    /// Whether the table holds no version.
    pub fn is_empty(&self) -> (b: bool)
        requires
            self.well_formed(),
        ensures
            b == (self.contents() == empty_contents()),
    {
        let n = skipmap_len(&self.data);
        proof {
            let dom = self.contents().dom();
            if n == 0 {
                dom.lemma_len0_is_empty();
                assert(self.contents() =~= empty_contents());
            } else {
                assert(empty_contents().dom().len() == 0);
            }
        }
        n == 0
    }

    /// Every entry of the table, in the order of internal keys.
    pub fn entries(&self) -> (list: Vec<MemTableEntry>)
        requires
            self.well_formed(),
        ensures
            is_range_of(listed(list@), self.contents(), None, None),
    {
        let raw = skipmap_entries(&self.data);
        let ghost views = entry_views(raw@);
        let mut list: Vec<MemTableEntry> = Vec::new();
        let mut i: usize = 0;
        while i < raw.len()
            invariant
                i <= raw@.len(),
                views == entry_views(raw@),
                is_range_of(views, self.contents(), None, None),
                self.well_formed(),
                list@.len() == i,
                forall|j: int| 0 <= j < i ==> (#[trigger] listed(list@)[j]) == views[j],
            decreases raw@.len() - i,
        {
            let kind = if raw[i].0.2 == 0 {
                ValueType::Value
            } else {
                ValueType::Deletion
            };
            let entry = MemTableEntry {
                key: InternalKey::new(copy_bytes(raw[i].0.0.as_slice()), u64::MAX - raw[i].0.1, kind),
                value: copy_bytes(raw[i].1.as_slice()),
            };
            proof {
                assert(views[i as int] == (entry_key_of(raw@[i as int].0), raw@[i as int].1@));
                assert(self.contents().dom().contains(views[i as int].0));
                assert(entry.spec_entry_key() == views[i as int].0);
            }
            let ghost before = list@;
            list.push(entry);
            proof {
                assert forall|j: int| 0 <= j < i + 1 implies (#[trigger] listed(list@)[j])
                    == views[j] by {
                    if j < i {
                        assert(listed(before)[j] == views[j]);
                        assert(list@[j] == before[j]);
                    }
                }
            }
            i += 1;
        }
        proof {
            assert(listed(list@) =~= views);
        }
        list
    }

    /// An iterator over the entries of the table as they are now, in the
    /// order of internal keys.
    pub fn iter(&self) -> (it: MemTableIterator)
        requires
            self.well_formed(),
        ensures
            is_range_of(listed(it.remaining()), self.contents(), None, None),
    {
        let entries = self.entries();
        proof {
            assert(entries@.skip(0) =~= entries@);
        }
        MemTableIterator { entries, position: 0 }
    }

    /// The sequence number at which the table starts.
    pub fn start_sequence(&self) -> (s: u64)
        ensures
            s == self.spec_start_sequence(),
    {
        self.start_sequence
    }
}

/// An iterator over the entries that a MemTable held when the iterator was
/// made.
pub struct MemTableIterator {
    entries: Vec<MemTableEntry>,
    position: usize,
}

impl MemTableIterator {
    /// The entries still to come.
    pub closed spec fn remaining(&self) -> Seq<MemTableEntry> {
        if self.position <= self.entries@.len() {
            self.entries@.skip(self.position as int)
        } else {
            Seq::<MemTableEntry>::empty()
        }
    }

    /// The next entry, without moving on.
    pub fn peek(&self) -> (e: Option<&MemTableEntry>)
        ensures
            match e {
                Some(entry) => self.remaining().len() > 0 && *entry == self.remaining()[0],
                None => self.remaining().len() == 0,
            },
    {
        if self.position < self.entries.len() {
            Some(&self.entries[self.position])
        } else {
            None
        }
    }

    /// The next entry; the iterator moves behind it.
    pub fn next(&mut self) -> (e: Option<MemTableEntry>)
        ensures
            match e {
                Some(entry) => old(self).remaining().len() > 0 && entry.spec_key() == old(self).remaining()[0].spec_key() && entry.spec_value() == old(self).remaining()[0].spec_value() && final(self).remaining() == old(self).remaining().skip(1),
                None => old(self).remaining().len() == 0 && final(self).remaining() == old(self).remaining(),
            },
    {
        if self.position < self.entries.len() {
            let entry = &self.entries[self.position];
            let copy = MemTableEntry {
                key: InternalKey::new(
                    copy_bytes(entry.key.user_key()),
                    entry.key.sequence(),
                    entry.key.value_type(),
                ),
                value: copy_bytes(entry.value.as_slice()),
            };
            self.position = self.position + 1;
            proof {
                assert(self.remaining() =~= old(self).remaining().skip(1));
            }
            Some(copy)
        } else {
            None
        }
    }
}

} // verus!
