//! The index block of a table: for every data block its last key and where
//! the block lies.

use vstd::prelude::*;
use crate::codec::{copy_bytes};
use crate::error::Error;
use crate::key_order::{key_less, key_lt};
use crate::sstable::block::{block_size, encode_block, Block, BlockBuilder, BlockIterator, KeyValue};
use crate::sstable::footer::{decode_handle, encode_handle, BlockHandle};

verus! {

/// One entry of the index: a key that is not below any key of a data block,
/// and the handle of the block.
#[derive(Debug, Clone, PartialEq, Eq)]
pub struct IndexEntry {
    /// The largest key of the data block.
    pub key: Vec<u8>,
    /// Where the data block lies.
    pub handle: BlockHandle,
}

impl IndexEntry {
    /// An entry for the block at `handle` whose largest key is `key`.
    pub fn new(key: Vec<u8>, handle: BlockHandle) -> (e: Self)
        ensures
            e.key == key,
            e.handle == handle,
    {
        IndexEntry { key, handle }
    }

    /// The value stored for the entry: the sixteen bytes of the handle.
    pub fn encode_value(&self) -> (bytes: Vec<u8>)
        ensures
            bytes@ == encode_handle(self.handle),
            bytes@.len() == 16,
    {
        self.handle.encode()
    }

    /// The handle that a stored value stands for; a corruption error when
    /// the value is shorter than sixteen bytes.
    pub fn decode_value(data: &[u8]) -> (r: Result<BlockHandle, Error>)
        ensures
            match r {
                Ok(h) => decode_handle(data@) == Some(h),
                Err(e) => decode_handle(data@) is None && e is Corruption,
            },
    {
        BlockHandle::decode(data)
    }
}

/// The index of the first entry from `i` on whose key is not below `key`;
/// the number of entries when there is none.
pub open spec fn first_not_below(entries: Seq<KeyValue>, key: Seq<u8>, i: int) -> int
    decreases entries.len() - i,
{
    if i < 0 || i >= entries.len() {
        entries.len() as int
    } else if !key_lt(entries[i].key, key) {
        i
    } else {
        first_not_below(entries, key, i + 1)
    }
}

/// The entry that a lookup of `key` uses: the first whose key is not below
/// `key`, or the last entry when every key is below; none in an empty index.
pub open spec fn lookup_index(entries: Seq<KeyValue>, key: Seq<u8>) -> Option<int> {
    if entries.len() == 0 {
        None
    } else if first_not_below(entries, key, 0) < entries.len() {
        Some(first_not_below(entries, key, 0))
    } else {
        Some(entries.len() - 1)
    }
}

/// Entries that are all below `key` do not change where the search ends.
pub proof fn lemma_first_not_below_skip(entries: Seq<KeyValue>, key: Seq<u8>, i: int)
    requires
        0 <= i <= entries.len(),
        forall|k: int| 0 <= k < i ==> key_lt((#[trigger] entries[k]).key, key),
    ensures
        first_not_below(entries, key, 0) == first_not_below(entries, key, i),
    decreases i,
{
    if i > 0 {
        lemma_first_not_below_skip(entries, key, i - 1);
        assert(key_lt(entries[i - 1].key, key));
    }
}

/// The index block of a table, ready for lookups.
#[derive(Debug)]
pub struct IndexBlock {
    block: Block,
}

impl IndexBlock {
    /// The bytes of the index block.
    pub closed spec fn bytes(&self) -> Seq<u8> {
        self.block.bytes()
    }

    /// The block inside is well formed.
    pub closed spec fn well_formed(&self) -> bool {
        self.block.well_formed()
    }

    /// The entries of the index: keys with encoded handles.
    pub open spec fn entries(&self) -> Seq<KeyValue> {
        crate::sstable::block::block_entries(self.bytes())
    }

    /// An index over `data`; a corruption error when `data` is no block.
    pub fn new(data: Vec<u8>) -> (r: Result<Self, Error>)
        ensures
            match r {
                Ok(b) => b.well_formed() && b.bytes() == data@
                    && crate::sstable::block::restart_offset_of(data@) is Some,
                Err(e) => crate::sstable::block::restart_offset_of(data@) is None
                    && e is Corruption,
            },
    {
        match Block::new(data) {
            Ok(block) => Ok(IndexBlock { block }),
            Err(e) => Err(e),
        }
    }

    /// The handle of the data block that may hold `key`: that of the first
    /// entry whose key is not below `key`, or of the last entry when every
    /// key is below. `None` for an empty index; a corruption error when the
    /// value of the entry is no handle.
    pub fn find_block(&self, key: &[u8]) -> (r: Result<Option<BlockHandle>, Error>)
        requires
            self.well_formed(),
        ensures
            match lookup_index(self.entries(), key@) {
                None => r matches Ok(None),
                Some(i) => match decode_handle(self.entries()[i].value) {
                    Some(h) => r == Ok::<Option<BlockHandle>, Error>(Some(h)),
                    None => r matches Err(e) && e is Corruption,
                },
            },
    {
        let ghost entries = self.entries();
        let mut it = self.block.iter();
        it.seek_to_first();
        let mut last_value: Option<Vec<u8>> = None;
        let ghost mut i: int = 0;
        proof {
            assert(entries.skip(0) =~= entries);
        }
        loop
            invariant
                it.well_formed(),
                it.block() == self.block,
                entries == self.entries(),
                0 <= i <= entries.len(),
                it.remaining() == entries.skip(i),
                forall|k: int| 0 <= k < i ==> key_lt((#[trigger] entries[k]).key, key@),
                (last_value is Some) == (i > 0),
                i > 0 ==> last_value->0@ == entries[i - 1].value,
            ensures
                i == entries.len(),
            decreases entries.len() - i,
        {
            let ghost before = it.remaining();
            if !it.next() {
                proof {
                    assert(entries.skip(i).len() == 0);
                    assert(i == entries.len());
                    lemma_first_not_below_skip(entries, key@, i);
                }
                break ;
            }
            proof {
                let rest = it.remaining();
                let kv = KeyValue { key: it.current_key(), value: it.current_value() };
                assert(entries.skip(i) == seq![kv] + rest);
                assert(entries.skip(i).len() > 0);
                assert(entries.skip(i)[0] == kv);
                assert(entries[i] == kv);
                assert(rest =~= entries.skip(i + 1)) by {
                    assert(entries.skip(i).skip(1) =~= entries.skip(i + 1));
                    assert((seq![kv] + rest).skip(1) =~= rest);
                }
            }
            if !key_less(it.key(), key) {
                proof {
                    lemma_first_not_below_skip(entries, key@, i);
                }
                return match BlockHandle::decode(it.value()) {
                    Ok(h) => Ok(Some(h)),
                    Err(e) => Err(e),
                };
            }
            last_value = Some(copy_bytes(it.value()));
            proof {
                i = i + 1;
            }
        }
        proof {
            lemma_first_not_below_skip(entries, key@, i);
        }
        match last_value {
            None => Ok(None),
            Some(v) => match BlockHandle::decode(v.as_slice()) {
                Ok(h) => Ok(Some(h)),
                Err(e) => Err(e),
            },
        }
    }

    /// An iterator over the entries of the index.
    pub fn iter(&self) -> (it: IndexIterator<'_>)
        requires
            self.well_formed(),
        ensures
            it.well_formed(),
            it.bytes() == self.bytes(),
            !it.is_valid(),
    {
        IndexIterator { iter: self.block.iter() }
    }

    /// The number of entries.
    pub fn len(&self) -> (n: usize)
        requires
            self.well_formed(),
        ensures
            n == self.entries().len(),
    {
        let ghost entries = self.entries();
        let mut count: usize = 0;
        let mut it = self.block.iter();
        it.seek_to_first();
        proof {
            assert(entries.skip(0) =~= entries);
        }
        loop
            invariant
                it.well_formed(),
                it.block() == self.block,
                entries == self.entries(),
                0 <= count <= entries.len(),
                it.remaining() == entries.skip(count as int),
                it.is_valid() ==> count <= it.position() <= usize::MAX,
            ensures
                count == entries.len(),
            decreases entries.len() - count,
        {
            let ghost was_valid = it.is_valid();
            let ghost pos = it.position();
            if !it.next() {
                proof {
                    assert(entries.skip(count as int).len() == 0);
                }
                break ;
            }
            proof {
                let rest = it.remaining();
                let kv = KeyValue { key: it.current_key(), value: it.current_value() };
                assert(entries.skip(count as int) == seq![kv] + rest);
                assert(entries.skip(count as int).len() > 0);
                assert(rest =~= entries.skip(count + 1)) by {
                    assert(entries.skip(count as int).skip(1) =~= entries.skip(count + 1));
                    assert((seq![kv] + rest).skip(1) =~= rest);
                }
                assert(it.position() > pos);
            }
            count += 1;
        }
        count
    }

    /// Whether the index has no entry.
    pub fn is_empty(&self) -> (b: bool)
        requires
            self.well_formed(),
        ensures
            b == (self.entries().len() == 0),
    {
        self.len() == 0
    }
}

/// Builds the bytes of an index block.
pub struct IndexBlockBuilder {
    builder: BlockBuilder,
}

impl IndexBlockBuilder {
    /// The entries added so far: keys with encoded handles.
    pub closed spec fn entries(&self) -> Seq<KeyValue> {
        self.builder.entries()
    }

    /// The builder inside is well formed and restarts at every entry.
    pub closed spec fn well_formed(&self) -> bool {
        self.builder.well_formed() && self.builder.interval() == 1
    }

    /// An empty builder.
    pub fn new() -> (b: Self)
        ensures
            b.well_formed(),
            b.entries() == Seq::<KeyValue>::empty(),
    {
        IndexBlockBuilder { builder: BlockBuilder::new(1) }
    }

    /// What a well-formed builder holds can be encoded, and is in key order.
    pub proof fn lemma_well_formed(&self)
        requires
            self.well_formed(),
        ensures
            crate::sstable::block::encodable(self.entries(), 1),
            crate::sstable::block::sorted_entries(self.entries()),
    {
        self.builder.lemma_well_formed();
    }

    /// Adds an entry. Its key must not be empty and must come after the key
    /// added before it, and the index must stay below four gigabytes.
    pub fn add_entry(&mut self, entry: &IndexEntry)
        requires
            old(self).well_formed(),
            entry.key@.len() > 0,
            old(self).entries().len() > 0 ==> key_lt(old(self).entries().last().key, entry.key@),
            block_size(old(self).entries(), 1) + 32 + entry.key@.len() <= u32::MAX,
        ensures
            final(self).well_formed(),
            final(self).entries() == old(self).entries().push(
                KeyValue { key: entry.key@, value: encode_handle(entry.handle) },
            ),
    {
        let value = entry.encode_value();
        self.builder.add(entry.key.as_slice(), value.as_slice());
    }

    /// The bytes of the index block.
    pub fn finish(self) -> (bytes: Vec<u8>)
        requires
            self.well_formed(),
        ensures
            bytes@ == encode_block(self.entries(), 1),
            bytes@.len() == block_size(self.entries(), 1),
    {
        self.builder.finish()
    }

    /// The bytes that the index block would have if it were finished now.
    pub fn encoded(&self) -> (bytes: Vec<u8>)
        requires
            self.well_formed(),
        ensures
            bytes@ == encode_block(self.entries(), 1),
            bytes@.len() == block_size(self.entries(), 1),
    {
        self.builder.encoded()
    }

    /// Whether no entry has been added.
    pub fn is_empty(&self) -> (b: bool)
        requires
            self.well_formed(),
        ensures
            b == (self.entries().len() == 0),
    {
        self.builder.is_empty()
    }

    /// The size that the index block would have if it were finished now.
    pub fn current_size(&self) -> (n: usize)
        requires
            self.well_formed(),
        ensures
            n == block_size(self.entries(), 1),
    {
        self.builder.current_size()
    }
}

impl Default for IndexBlockBuilder {
    fn default() -> (b: Self)
        ensures
            b.well_formed(),
            b.entries() == Seq::<KeyValue>::empty(),
    {
        IndexBlockBuilder::new()
    }
}

/// An iterator over the entries of an index.
pub struct IndexIterator<'a> {
    iter: BlockIterator<'a>,
}

impl<'a> IndexIterator<'a> {
    /// The bytes of the index block that is read.
    pub closed spec fn bytes(&self) -> Seq<u8> {
        self.iter.block().bytes()
    }

    /// The iterator inside is well formed.
    pub closed spec fn well_formed(&self) -> bool {
        self.iter.well_formed()
    }

    /// Whether the iterator is positioned at an entry.
    pub closed spec fn is_valid(&self) -> bool {
        self.iter.is_valid()
    }

    /// The key of the current entry.
    pub closed spec fn current_key(&self) -> Seq<u8> {
        self.iter.current_key()
    }

    /// The stored value of the current entry.
    pub closed spec fn current_value(&self) -> Seq<u8> {
        self.iter.current_value()
    }

    /// The entries that are still to be read.
    pub closed spec fn remaining(&self) -> Seq<KeyValue> {
        self.iter.remaining()
    }

    /// Puts the iterator before the first entry: `advance` then reads it.
    pub fn seek_to_first(&mut self)
        requires
            old(self).well_formed(),
        ensures
            final(self).well_formed(),
            final(self).bytes() == old(self).bytes(),
            final(self).remaining() == crate::sstable::block::block_entries(old(self).bytes()),
    {
        self.iter.seek_to_first();
    }

    /// Reads the next entry and says whether there was one.
    pub fn advance(&mut self) -> (found: bool)
        requires
            old(self).well_formed(),
        ensures
            final(self).well_formed(),
            final(self).bytes() == old(self).bytes(),
            found == final(self).is_valid(),
            found ==> old(self).remaining() == seq![
                KeyValue { key: final(self).current_key(), value: final(self).current_value() },
            ] + final(self).remaining(),
            !found ==> old(self).remaining() == Seq::<KeyValue>::empty(),
    {
        self.iter.next()
    }

    /// Whether the iterator is positioned at an entry.
    pub fn valid(&self) -> (b: bool)
        ensures
            b == self.is_valid(),
    {
        self.iter.valid()
    }

    /// The current entry. An invalid-state error when the iterator is not
    /// positioned, a corruption error when the stored value is no handle.
    pub fn entry(&self) -> (r: Result<IndexEntry, Error>)
        ensures
            match r {
                Ok(e) => self.is_valid() && e.key@ == self.current_key() && decode_handle(
                    self.current_value(),
                ) == Some(e.handle),
                Err(e) => if self.is_valid() {
                    e is Corruption && decode_handle(self.current_value()) is None
                } else {
                    e is InvalidState
                },
            },
    {
        if !self.iter.valid() {
            return Err(Error::InvalidState(String::from_str("Iterator not valid")));
        }
        let key = copy_bytes(self.iter.key());
        match BlockHandle::decode(self.iter.value()) {
            Ok(handle) => Ok(IndexEntry::new(key, handle)),
            Err(e) => Err(e),
        }
    }
}

} // verus!
