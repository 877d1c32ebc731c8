//! The ordered map that holds the entries of a MemTable.
//!
//! The map is a concurrent skip list of an outside crate. Its keys are
//! tuples of a user key, the sequence number counted down from the largest
//! one, and the rank of the kind; tuples and byte vectors compare
//! lexicographically, so the map is in the order of internal keys.

use vstd::prelude::*;
use crossbeam_skiplist::SkipMap;
use crate::key_order::key_lt;

verus! {

/// The skip-list map of `crossbeam_skiplist`.
#[verifier::external_type_specification]
#[verifier::external_body]
#[verifier::reject_recursive_types(K)]
#[verifier::reject_recursive_types(V)]
pub struct ExSkipMap<K, V>(SkipMap<K, V>);

/// A key of the map as a mathematical value.
pub type EntryKey = (Seq<u8>, u64, u8);

/// A key of the map.
pub type KeyTuple = (Vec<u8>, u64, u8);

/// The map of a MemTable.
pub type EntryMap = SkipMap<KeyTuple, Vec<u8>>;

/// Entries copied out of the map.
pub type EntryList = Vec<(KeyTuple, Vec<u8>)>;

/// What the map holds.
pub uninterp spec fn skipmap_contents(list: EntryMap) -> Map<EntryKey, Seq<u8>>;

/// A map that holds nothing.
pub open spec fn empty_contents() -> Map<EntryKey, Seq<u8>> {
    Map::empty()
}

/// The key that a tuple of the map stands for.
pub open spec fn entry_key_of(key: KeyTuple) -> EntryKey {
    (key.0@, key.1, key.2)
}

/// The order of the keys of the map: by user key, then by the second and
/// the third part.
pub open spec fn entry_lt(a: EntryKey, b: EntryKey) -> bool {
    if a.0 != b.0 {
        key_lt(a.0, b.0)
    } else if a.1 != b.1 {
        a.1 < b.1
    } else {
        a.2 < b.2
    }
}

/// `a` is before `b` or equal to it.
pub open spec fn entry_le(a: EntryKey, b: EntryKey) -> bool {
    a == b || entry_lt(a, b)
}

/// The entries that a list copied out of the map stands for.
pub open spec fn entry_views(entries: Seq<(KeyTuple, Vec<u8>)>) -> Seq<(EntryKey, Seq<u8>)> {
    entries.map_values(|e: (KeyTuple, Vec<u8>)| (entry_key_of(e.0), e.1@))
}

/// Whether `k` lies between the bounds: not below `lower`, and below
/// `upper`.
pub open spec fn in_bounds(k: EntryKey, lower: Option<EntryKey>, upper: Option<EntryKey>) -> bool {
    &&& lower is Some ==> entry_le(lower->0, k)
    &&& upper is Some ==> entry_lt(k, upper->0)
}

/// The entries are those of the map with keys from `lower` up to, but not
/// including, `upper`, in ascending order, each once.
pub open spec fn is_range_of(
    entries: Seq<(EntryKey, Seq<u8>)>,
    contents: Map<EntryKey, Seq<u8>>,
    lower: Option<EntryKey>,
    upper: Option<EntryKey>,
) -> bool {
    &&& forall|i: int|
        0 <= i < entries.len() ==> {
            &&& contents.dom().contains((#[trigger] entries[i]).0)
            &&& contents[entries[i].0] == entries[i].1
            &&& in_bounds(entries[i].0, lower, upper)
        }
    &&& forall|i: int, j: int|
        0 <= i < j < entries.len() ==> entry_lt((#[trigger] entries[i]).0, (#[trigger] entries[j]).0)
    &&& forall|k: EntryKey|
        #[trigger] contents.dom().contains(k) && in_bounds(k, lower, upper) ==> exists|i: int|
            0 <= i < entries.len() && (#[trigger] entries[i]).0 == k
}

/// `SkipMap::new`: an empty map.
#[verifier::external_body]
pub(crate) fn skipmap_new() -> (created: EntryMap)
    ensures
        skipmap_contents(created) == empty_contents(),
{
    SkipMap::new()
}

/// `SkipMap::insert`: the map then holds `value` under `key`; an entry that
/// was there under the same key is replaced.
#[verifier::external_body]
pub(crate) fn skipmap_insert(
    list: &mut EntryMap,
    key: KeyTuple,
    value: Vec<u8>,
)
    ensures
        skipmap_contents(*final(list)) == skipmap_contents(*old(list)).insert(
            entry_key_of(key),
            value@,
        ),
{
    list.insert(key, value);
}

/// `SkipMap::len`: the number of entries of a map that nobody else is
/// changing.
#[verifier::external_body]
pub(crate) fn skipmap_len(list: &EntryMap) -> (n: usize)
    ensures
        n == skipmap_contents(*list).dom().len(),
{
    list.len()
}

/// `SkipMap::range` over `lower..upper`: copies of the entries with keys
/// from `lower` up to, but not including, `upper`, in ascending order.
#[verifier::external_body]
pub(crate) fn skipmap_range(
    list: &EntryMap,
    lower: KeyTuple,
    upper: KeyTuple,
) -> (entries: EntryList)
    ensures
        is_range_of(
            entry_views(entries@),
            skipmap_contents(*list),
            Some(entry_key_of(lower)),
            Some(entry_key_of(upper)),
        ),
{
    list.range(lower..upper).map(|e| (e.key().clone(), e.value().clone())).collect()
}

/// `SkipMap::iter`: copies of all entries, in ascending order of their
/// keys.
#[verifier::external_body]
pub(crate) fn skipmap_entries(list: &EntryMap) -> (entries: EntryList)
    ensures
        is_range_of(entry_views(entries@), skipmap_contents(*list), None, None),
{
    list.iter().map(|e| (e.key().clone(), e.value().clone())).collect()
}

} // verus!
