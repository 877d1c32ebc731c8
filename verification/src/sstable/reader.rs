//! Reading a sorted table from the image of its file.

use vstd::prelude::*;
use vstd::bytes::*;
use crate::cache::lru::{after_get, after_insert, position_of, BlockCache, CacheKey, CachedBlock};
use crate::checksum::{crc32, crc32_of};
use crate::codec::{copy_bytes, copy_range, get_u32_le};
use crate::compress::{decompress_block, expanded};
use crate::config::CompressionType;
use crate::error::{Error, ErrorKind};
use crate::filter::bloom::{decode_filter, BloomFilter, BloomFilterView};
use crate::key_order::{key_less, key_lt};
use crate::lookup::{Lookup, LookupView};
use crate::sstable::block::{block_entries, restart_offset_of, Block, KeyValue};
use crate::sstable::footer::{decode_footer, decode_handle, BlockHandle, Footer};
use crate::sstable::index::{lookup_index, IndexBlock};
use crate::sstable::{BLOCK_TRAILER_SIZE, FOOTER_SIZE};

verus! {

/// The name under which the meta-index block lists the filter block.
pub open spec fn filter_name() -> Seq<u8> {
    seq![102u8, 105u8, 108u8, 116u8, 101u8, 114u8]
}

/// The block that a handle points at: the stored bytes without their
/// trailer, checked against the checksum and decompressed. A corruption
/// error when the handle is too small for a trailer or points outside the
/// file or names no compression, a checksum error when the stored checksum
/// is not that of the stored bytes, an internal error when the bytes do not
/// decompress.
pub open spec fn read_block(file: Seq<u8>, h: BlockHandle) -> Result<Seq<u8>, ErrorKind> {
    if h.size < BLOCK_TRAILER_SIZE || h.offset + h.size > file.len() {
        Err(ErrorKind::Corruption)
    } else {
        let start = h.offset as int;
        let end = start + h.size - BLOCK_TRAILER_SIZE;
        let stored = file.subrange(start, end);
        let sum = spec_u32_from_le_bytes(file.subrange(end + 1, end + 5));
        if crc32(stored) != sum {
            Err(ErrorKind::ChecksumMismatch { expected: sum, actual: crc32(stored) })
        } else {
            match CompressionType::spec_from_u8(file[end]) {
                None => Err(ErrorKind::Corruption),
                Some(c) => match expanded(c, stored) {
                    None => Err(ErrorKind::Internal),
                    Some(raw) => Ok(raw),
                },
            }
        }
    }
}

/// The footer of a table file: its last 48 bytes.
pub open spec fn table_footer(file: Seq<u8>) -> Result<Footer, ErrorKind> {
    if file.len() < FOOTER_SIZE {
        Err(ErrorKind::Corruption)
    } else {
        match decode_footer(file.subrange(file.len() - FOOTER_SIZE, file.len() as int)) {
            None => Err(ErrorKind::Corruption),
            Some(f) => Ok(f),
        }
    }
}

/// The bytes of the index block of a table file.
pub open spec fn table_index(file: Seq<u8>) -> Result<Seq<u8>, ErrorKind> {
    match table_footer(file) {
        Err(k) => Err(k),
        Ok(f) => match read_block(file, f.index_handle) {
            Err(k) => Err(k),
            Ok(raw) => if restart_offset_of(raw) is None {
                Err(ErrorKind::Corruption)
            } else {
                Ok(raw)
            },
        },
    }
}

/// The value stored for `key` in entries in key order, looked for from
/// entry `i` on: the search ends at the first entry whose key is `key` or
/// above it.
pub open spec fn scan_for(entries: Seq<KeyValue>, key: Seq<u8>, i: int) -> Option<Seq<u8>>
    decreases entries.len() - i,
{
    if i < 0 || i >= entries.len() {
        None
    } else if entries[i].key == key {
        Some(entries[i].value)
    } else if key_lt(key, entries[i].key) {
        None
    } else {
        scan_for(entries, key, i + 1)
    }
}

/// The filter of a table file, if it has one that can be read: the block
/// that the meta-index block lists under the name `filter`.
pub open spec fn table_filter(file: Seq<u8>) -> Option<BloomFilterView> {
    match table_footer(file) {
        Err(_) => None,
        Ok(f) => match read_block(file, f.meta_index_handle) {
            Err(_) => None,
            Ok(meta) => if restart_offset_of(meta) is None {
                None
            } else {
                match scan_for(block_entries(meta), filter_name(), 0) {
                    None => None,
                    Some(v) => match decode_handle(v) {
                        None => None,
                        Some(h) => match read_block(file, h) {
                            Err(_) => None,
                            Ok(raw) => decode_filter(raw),
                        },
                    },
                }
            },
        },
    }
}

/// What a table file stores for `key`: nothing when the filter excludes the
/// key or the index is empty; else what the data block holds that the index
/// names for the key.
pub open spec fn table_find(file: Seq<u8>, key: Seq<u8>) -> Result<Option<Seq<u8>>, ErrorKind> {
    if table_filter(file) is Some && !table_filter(file)->0.may_contain(key) {
        Ok(None)
    } else {
        let index = block_entries(table_index(file)->Ok_0);
        match lookup_index(index, key) {
            None => Ok(None),
            Some(i) => match decode_handle(index[i].value) {
                None => Err(ErrorKind::Corruption),
                Some(h) => match read_block(file, h) {
                    Err(k) => Err(k),
                    Ok(raw) => if restart_offset_of(raw) is None {
                        Err(ErrorKind::Corruption)
                    } else {
                        Ok(scan_for(block_entries(raw), key, 0))
                    },
                },
            },
        }
    }
}

/// The entries of the data blocks that the index entries from `i` on name,
/// in the order of the index.
pub open spec fn blocks_entries(file: Seq<u8>, index: Seq<KeyValue>, i: int) -> Result<
    Seq<KeyValue>,
    ErrorKind,
>
    decreases index.len() - i,
{
    if i < 0 || i >= index.len() {
        Ok(Seq::<KeyValue>::empty())
    } else {
        match decode_handle(index[i].value) {
            None => Err(ErrorKind::Corruption),
            Some(h) => match read_block(file, h) {
                Err(k) => Err(k),
                Ok(raw) => if restart_offset_of(raw) is None {
                    Err(ErrorKind::Corruption)
                } else {
                    match blocks_entries(file, index, i + 1) {
                        Err(k) => Err(k),
                        Ok(rest) => Ok(block_entries(raw) + rest),
                    }
                },
            },
        }
    }
}

/// Every entry of a table file, in the order of its blocks.
pub open spec fn table_entries(file: Seq<u8>) -> Result<Seq<KeyValue>, ErrorKind> {
    blocks_entries(file, block_entries(table_index(file)->Ok_0), 0)
}

/// An entry of a table.
#[derive(Debug, Clone, PartialEq, Eq)]
pub struct TableEntry {
    /// The key.
    pub key: Vec<u8>,
    /// The value; empty for a tombstone.
    pub value: Vec<u8>,
}

impl View for TableEntry {
    type V = KeyValue;

    open spec fn view(&self) -> KeyValue {
        KeyValue { key: self.key@, value: self.value@ }
    }
}

/// The key under which the block of a table at the offset of a handle is
/// cached.
pub open spec fn block_key(file_number: u64, h: BlockHandle) -> CacheKey {
    CacheKey { file_id: file_number, offset: h.offset }
}

/// The block under a handle as a read through a cache gets it: the block
/// that the cache holds under the key of the handle, else the block of the
/// file.
pub open spec fn cached_block(
    file: Seq<u8>,
    file_number: u64,
    h: BlockHandle,
    cached: Seq<CachedBlock>,
) -> Result<Seq<u8>, ErrorKind> {
    match position_of(cached, block_key(file_number, h)) {
        Some(i) => Ok(cached[i].value),
        None => read_block(file, h),
    }
}

/// The cache after a block was read through it: the block that was found
/// in it is the one used last; one that had to be read from the file has
/// been put into it.
pub open spec fn cache_after_read(
    file: Seq<u8>,
    file_number: u64,
    h: BlockHandle,
    cached: Seq<CachedBlock>,
    capacity: usize,
) -> Seq<CachedBlock> {
    let key = block_key(file_number, h);
    match position_of(cached, key) {
        Some(_) => after_get(cached, key),
        None => match read_block(file, h) {
            Ok(raw) => after_insert(cached, capacity, key, raw),
            Err(_) => cached,
        },
    }
}

/// The handle of the data block that a lookup of `key` reads, if it reads
/// one: none where the filter rules the key out, where the index is empty,
/// or where the entry of the index is no handle.
pub open spec fn block_read_for(file: Seq<u8>, key: Seq<u8>) -> Option<BlockHandle> {
    if table_filter(file) is Some && !table_filter(file)->0.may_contain(key) {
        None
    } else {
        let index = block_entries(table_index(file)->Ok_0);
        match lookup_index(index, key) {
            None => None,
            Some(i) => decode_handle(index[i].value),
        }
    }
}

/// The value stored for `key` as a lookup through a cache finds it: as
/// `table_find`, with the data block read through the cache.
pub open spec fn table_find_cached(
    file: Seq<u8>,
    file_number: u64,
    key: Seq<u8>,
    cached: Seq<CachedBlock>,
) -> Result<Option<Seq<u8>>, ErrorKind> {
    if table_filter(file) is Some && !table_filter(file)->0.may_contain(key) {
        Ok(None)
    } else {
        let index = block_entries(table_index(file)->Ok_0);
        match lookup_index(index, key) {
            None => Ok(None),
            Some(i) => match decode_handle(index[i].value) {
                None => Err(ErrorKind::Corruption),
                Some(h) => match cached_block(file, file_number, h, cached) {
                    Err(k) => Err(k),
                    Ok(raw) => if restart_offset_of(raw) is None {
                        Err(ErrorKind::Corruption)
                    } else {
                        Ok(scan_for(block_entries(raw), key, 0))
                    },
                },
            },
        }
    }
}

/// Whether the cache holds, under the key of the block that a lookup of
/// `key` reads, nothing or that block.
pub open spec fn cache_agrees(
    file: Seq<u8>,
    file_number: u64,
    key: Seq<u8>,
    cached: Seq<CachedBlock>,
) -> bool {
    block_read_for(file, key) matches Some(h) ==> (position_of(cached, block_key(file_number, h))
        matches Some(i) ==> read_block(file, h) == Ok::<Seq<u8>, ErrorKind>(cached[i].value))
}

/// A lookup through a cache that agrees with the file finds what a lookup
/// in the file finds.
pub proof fn lemma_cached_find(
    file: Seq<u8>,
    file_number: u64,
    key: Seq<u8>,
    cached: Seq<CachedBlock>,
)
    requires
        cache_agrees(file, file_number, key, cached),
    ensures
        table_find_cached(file, file_number, key, cached) == table_find(file, key),
{
}

/// A block that was read from the file through an empty place of the
/// cache is in the cache afterwards, where the cache has room for it, and
/// the cache agrees with the file about it.
pub proof fn lemma_read_fills_cache(
    file: Seq<u8>,
    file_number: u64,
    h: BlockHandle,
    cached: Seq<CachedBlock>,
    capacity: usize,
)
    requires
        position_of(cached, block_key(file_number, h)) is None,
        read_block(file, h) matches Ok(raw) && raw.len() <= capacity,
        capacity > 0,
    ensures
        cache_after_read(file, file_number, h, cached, capacity).len() > 0,
        cache_after_read(file, file_number, h, cached, capacity).last() == (CachedBlock {
            key: block_key(file_number, h),
            value: read_block(file, h)->Ok_0,
        }),
{
}

/// The entries that a list stands for.
pub open spec fn entry_list(entries: Seq<TableEntry>) -> Seq<KeyValue> {
    entries.map_values(|e: TableEntry| e@)
}

/// What stored bytes mean: an empty value is a tombstone.
pub open spec fn stored_meaning(stored: Option<Seq<u8>>) -> LookupView {
    match stored {
        None => LookupView::Missing,
        Some(v) => if v.len() == 0 {
            LookupView::Deleted
        } else {
            LookupView::Found(v)
        },
    }
}

/// Reads the block that `handle` points at in `file`.
pub fn read_block_data(file: &[u8], handle: &BlockHandle) -> (r: Result<Vec<u8>, Error>)
    ensures
        match read_block(file@, *handle) {
            Ok(raw) => r matches Ok(v) && v@ == raw,
            Err(k) => r matches Err(e) && e.kind() == k,
        },
{
    let len = file.len();
    if handle.size < BLOCK_TRAILER_SIZE as u64 {
        return Err(Error::corruption("Block size too small"));
    }
    if handle.offset > len as u64 || handle.size > len as u64 - handle.offset {
        return Err(Error::corruption("Block lies outside the file"));
    }
    let start = handle.offset as usize;
    let end = start + handle.size as usize - BLOCK_TRAILER_SIZE;
    let stored = vstd::slice::slice_subrange(file, start, end);
    let compression_type = file[end];
    let stored_checksum = get_u32_le(file, end + 1);
    let computed_checksum = crc32_of(stored);
    if computed_checksum != stored_checksum {
        return Err(Error::ChecksumMismatch { expected: stored_checksum, actual: computed_checksum });
    }
    let compression = match CompressionType::from_u8(compression_type) {
        Some(c) => c,
        None => {
            return Err(Error::corruption("Invalid compression type"));
        },
    };
    decompress_block(stored, compression)
}

/// Looks for `key` in a block of entries in key order.
pub fn scan_block(block: &Block, key: &[u8]) -> (found: Option<Vec<u8>>)
    requires
        block.well_formed(),
    ensures
        match scan_for(block.entries(), key@, 0) {
            Some(v) => found matches Some(f) && f@ == v,
            None => found is None,
        },
{
    let ghost entries = block.entries();
    let mut it = block.iter();
    it.seek_to_first();
    let ghost mut i: int = 0;
    proof {
        assert(entries.skip(0) =~= entries);
    }
    loop
        invariant
            it.well_formed(),
            it.block() == *block,
            entries == block.entries(),
            0 <= i <= entries.len(),
            it.remaining() == entries.skip(i),
            scan_for(entries, key@, 0) == scan_for(entries, key@, i),
        decreases entries.len() - i,
    {
        if !it.next() {
            proof {
                assert(entries.skip(i).len() == 0);
            }
            return None;
        }
        proof {
            let rest = it.remaining();
            let kv = KeyValue { key: it.current_key(), value: it.current_value() };
            assert(entries.skip(i) == seq![kv] + rest);
            assert(entries.skip(i).len() > 0);
            assert(entries.skip(i)[0] == kv);
            assert(entries[i] == kv);
            assert(rest =~= entries.skip(i + 1)) by {
                assert(entries.skip(i).skip(1) =~= entries.skip(i + 1));
                assert((seq![kv] + rest).skip(1) =~= rest);
            }
        }
        if crate::codec::bytes_equal(it.key(), key) {
            return Some(copy_bytes(it.value()));
        }
        if key_less(key, it.key()) {
            return None;
        }
        proof {
            i = i + 1;
        }
    }
}

/// Appends the entries of a block to a list.
pub fn collect_block(block: &Block, list: &mut Vec<TableEntry>)
    requires
        block.well_formed(),
    ensures
        entry_list(final(list)@) == entry_list(old(list)@) + block.entries(),
{
    let ghost entries = block.entries();
    let ghost start = entry_list(list@);
    let mut it = block.iter();
    it.seek_to_first();
    let ghost mut i: int = 0;
    proof {
        assert(entries.skip(0) =~= entries);
        assert(entries.subrange(0, 0) =~= Seq::<KeyValue>::empty());
        assert(start + Seq::<KeyValue>::empty() =~= start);
    }
    loop
        invariant
            it.well_formed(),
            it.block() == *block,
            entries == block.entries(),
            0 <= i <= entries.len(),
            it.remaining() == entries.skip(i),
            entry_list(list@) == start + entries.subrange(0, i),
        ensures
            i == entries.len(),
            entry_list(list@) == start + entries.subrange(0, i),
        decreases entries.len() - i,
    {
        if !it.next() {
            proof {
                assert(entries.skip(i).len() == 0);
            }
            break ;
        }
        proof {
            let rest = it.remaining();
            let kv = KeyValue { key: it.current_key(), value: it.current_value() };
            assert(entries.skip(i) == seq![kv] + rest);
            assert(entries.skip(i).len() > 0);
            assert(entries.skip(i)[0] == kv);
            assert(entries[i] == kv);
            assert(rest =~= entries.skip(i + 1)) by {
                assert(entries.skip(i).skip(1) =~= entries.skip(i + 1));
                assert((seq![kv] + rest).skip(1) =~= rest);
            }
        }
        let ghost before = entry_list(list@);
        let entry = TableEntry { key: copy_bytes(it.key()), value: copy_bytes(it.value()) };
        list.push(entry);
        proof {
            assert(entry_list(list@) =~= before.push(entries[i]));
            assert(entries.subrange(0, i + 1) =~= entries.subrange(0, i).push(entries[i]));
            i = i + 1;
        }
    }
    proof {
        assert(entries.subrange(0, entries.len() as int) =~= entries);
    }
}

/// A sorted table that is open for reading.
#[derive(Debug)]
pub struct SSTableReader {
    data: Vec<u8>,
    file_number: u64,
    index_block: IndexBlock,
    bloom_filter: Option<BloomFilter>,
    footer: Footer,
}

impl SSTableReader {
    /// The bytes of the table file.
    pub closed spec fn bytes(&self) -> Seq<u8> {
        self.data@
    }

    /// The number of the table file.
    pub closed spec fn number(&self) -> u64 {
        self.file_number
    }

    /// What was read at opening is what the file holds.
    pub closed spec fn well_formed(&self) -> bool {
        &&& table_footer(self.data@) == Ok::<Footer, ErrorKind>(self.footer)
        &&& self.index_block.well_formed()
        &&& table_index(self.data@) == Ok::<Seq<u8>, ErrorKind>(self.index_block.bytes())
        &&& match self.bloom_filter {
            Some(f) => table_filter(self.data@) == Some(f@) && f.well_formed(),
            None => table_filter(self.data@) is None,
        }
    }

    /// The index of an open table can be read.
    pub proof fn lemma_index(&self)
        requires
            self.well_formed(),
        ensures
            table_index(self.bytes()) is Ok,
    {
    }

    /// The entries of the index block.
    pub open spec fn index_entries(&self) -> Seq<KeyValue> {
        block_entries(table_index(self.bytes())->Ok_0)
    }

    /// Opens the table with the given number from the image of its file:
    /// reads the footer, the index block, and the filter block if there is
    /// one that can be read. Fails when the footer or the index block cannot
    /// be read.
    pub fn open(file_number: u64, data: Vec<u8>) -> (r: Result<Self, Error>)
        ensures
            match table_index(data@) {
                Ok(_) => r matches Ok(t) && t.well_formed() && t.bytes() == data@ && t.number()
                    == file_number,
                Err(k) => r matches Err(e) && e.kind() == k,
            },
    {
        let len = data.len();
        if len < FOOTER_SIZE {
            return Err(Error::corruption("File too small to be a valid SSTable"));
        }
        let footer = match Footer::decode(
            vstd::slice::slice_subrange(data.as_slice(), len - FOOTER_SIZE, len),
        ) {
            Ok(f) => f,
            Err(e) => {
                return Err(e);
            },
        };
        let index_data = match read_block_data(data.as_slice(), &footer.index_handle) {
            Ok(d) => d,
            Err(e) => {
                return Err(e);
            },
        };
        let index_block = match IndexBlock::new(index_data) {
            Ok(b) => b,
            Err(e) => {
                return Err(e);
            },
        };
        let bloom_filter = Self::try_read_bloom_filter(data.as_slice(), &footer);
        Ok(SSTableReader { data, file_number, index_block, bloom_filter, footer })
    }

    /// The filter of the table, if the meta-index block lists one and it
    /// can be read.
    fn try_read_bloom_filter(file: &[u8], footer: &Footer) -> (f: Option<BloomFilter>)
        requires
            table_footer(file@) == Ok::<Footer, ErrorKind>(*footer),
        ensures
            match f {
                Some(filter) => table_filter(file@) == Some(filter@) && filter.well_formed(),
                None => table_filter(file@) is None,
            },
    {
        let meta = match read_block_data(file, &footer.meta_index_handle) {
            Ok(d) => d,
            Err(_) => {
                return None;
            },
        };
        let block = match Block::new(meta) {
            Ok(b) => b,
            Err(_) => {
                return None;
            },
        };
        let mut name: Vec<u8> = Vec::new();
        name.push(102u8);
        name.push(105u8);
        name.push(108u8);
        name.push(116u8);
        name.push(101u8);
        name.push(114u8);
        assert(name@ =~= filter_name());
        let value = match scan_block(&block, name.as_slice()) {
            Some(v) => v,
            None => {
                return None;
            },
        };
        let handle = match BlockHandle::decode(value.as_slice()) {
            Ok(h) => h,
            Err(_) => {
                return None;
            },
        };
        let raw = match read_block_data(file, &handle) {
            Ok(d) => d,
            Err(_) => {
                return None;
            },
        };
        match BloomFilter::decode(raw.as_slice()) {
            Ok(f) => Some(f),
            Err(_) => None,
        }
    }

    /// What the table stores for `key`, without a meaning given to it.
    fn find_stored(&self, key: &[u8]) -> (r: Result<Option<Vec<u8>>, Error>)
        requires
            self.well_formed(),
        ensures
            match table_find(self.bytes(), key@) {
                Ok(Some(v)) => r matches Ok(Some(f)) && f@ == v,
                Ok(None) => r matches Ok(None),
                Err(k) => r matches Err(e) && e.kind() == k,
            },
    {
        match &self.bloom_filter {
            Some(filter) => {
                if !filter.may_contain(key) {
                    return Ok(None);
                }
            },
            None => {},
        }
        let handle = match self.index_block.find_block(key) {
            Ok(Some(h)) => h,
            Ok(None) => {
                return Ok(None);
            },
            Err(e) => {
                return Err(e);
            },
        };
        let block_data = match read_block_data(self.data.as_slice(), &handle) {
            Ok(d) => d,
            Err(e) => {
                return Err(e);
            },
        };
        let block = match Block::new(block_data) {
            Ok(b) => b,
            Err(e) => {
                return Err(e);
            },
        };
        Ok(scan_block(&block, key))
    }

    /// What the table knows of `key`: its value, a tombstone (an empty value
    /// stands for one), or nothing.
    pub fn find(&self, key: &[u8]) -> (r: Result<Lookup, Error>)
        requires
            self.well_formed(),
        ensures
            match table_find(self.bytes(), key@) {
                Ok(stored) => r matches Ok(l) && l@ == stored_meaning(stored),
                Err(k) => r matches Err(e) && e.kind() == k,
            },
    {
        match self.find_stored(key) {
            Ok(Some(v)) => {
                if v.len() == 0 {
                    Ok(Lookup::Deleted)
                } else {
                    Ok(Lookup::Found(v))
                }
            },
            Ok(None) => Ok(Lookup::Missing),
            Err(e) => Err(e),
        }
    }

    /// The value of `key`: `None` when the table holds nothing for the key
    /// or a tombstone.
    pub fn get(&self, key: &[u8]) -> (r: Result<Option<Vec<u8>>, Error>)
        requires
            self.well_formed(),
        ensures
            match table_find(self.bytes(), key@) {
                Ok(stored) => match stored_meaning(stored).value() {
                    Some(v) => r matches Ok(Some(f)) && f@ == v,
                    None => r matches Ok(None),
                },
                Err(k) => r matches Err(e) && e.kind() == k,
            },
    {
        match self.find(key) {
            Ok(l) => Ok(l.into_value()),
            Err(e) => Err(e),
        }
    }

    /// The block under a handle, read through a cache: the block that the
    /// cache holds under the number of the table and the offset of the
    /// handle, else the block of the file, which is then put into the
    /// cache.
    pub fn read_block_cached(&self, handle: &BlockHandle, cache: &mut BlockCache) -> (r: Result<
        Vec<u8>,
        Error,
    >)
        requires
            self.well_formed(),
            old(cache).well_formed(),
        ensures
            final(cache).well_formed(),
            final(cache).spec_capacity() == old(cache).spec_capacity(),
            final(cache).entries() == cache_after_read(
                self.bytes(),
                self.number(),
                *handle,
                old(cache).entries(),
                old(cache).spec_capacity(),
            ),
            match cached_block(self.bytes(), self.number(), *handle, old(cache).entries()) {
                Ok(raw) => r matches Ok(v) && v@ == raw,
                Err(k) => r matches Err(e) && e.kind() == k,
            },
    {
        let key = CacheKey::new(self.file_number, handle.offset);
        match cache.get(&key) {
            Some(block) => Ok(block),
            None => {
                match read_block_data(self.data.as_slice(), handle) {
                    Ok(block) => {
                        cache.insert(key, copy_bytes(block.as_slice()));
                        Ok(block)
                    },
                    Err(e) => Err(e),
                }
            },
        }
    }

    /// What the table knows of `key`, with the data block read through a
    /// cache: a value, a tombstone, or nothing. Where the cache agrees with
    /// the file this is what `find` gives.
    pub fn find_cached(&self, key: &[u8], cache: &mut BlockCache) -> (r: Result<Lookup, Error>)
        requires
            self.well_formed(),
            old(cache).well_formed(),
        ensures
            final(cache).well_formed(),
            final(cache).spec_capacity() == old(cache).spec_capacity(),
            final(cache).entries() == match block_read_for(self.bytes(), key@) {
                Some(h) => cache_after_read(
                    self.bytes(),
                    self.number(),
                    h,
                    old(cache).entries(),
                    old(cache).spec_capacity(),
                ),
                None => old(cache).entries(),
            },
            match table_find_cached(self.bytes(), self.number(), key@, old(cache).entries()) {
                Ok(stored) => r matches Ok(l) && l@ == stored_meaning(stored),
                Err(k) => r matches Err(e) && e.kind() == k,
            },
    {
        match &self.bloom_filter {
            Some(filter) => {
                if !filter.may_contain(key) {
                    return Ok(Lookup::Missing);
                }
            },
            None => {},
        }
        let handle = match self.index_block.find_block(key) {
            Ok(Some(h)) => h,
            Ok(None) => {
                return Ok(Lookup::Missing);
            },
            Err(e) => {
                return Err(e);
            },
        };
        let block_data = match self.read_block_cached(&handle, cache) {
            Ok(d) => d,
            Err(e) => {
                return Err(e);
            },
        };
        let block = match Block::new(block_data) {
            Ok(b) => b,
            Err(e) => {
                return Err(e);
            },
        };
        match scan_block(&block, key) {
            Some(v) => {
                if v.len() == 0 {
                    Ok(Lookup::Deleted)
                } else {
                    Ok(Lookup::Found(v))
                }
            },
            None => Ok(Lookup::Missing),
        }
    }

    /// The value of `key`, with the data block read through a cache:
    /// `None` when the table holds nothing for the key or a tombstone.
    /// Where the cache agrees with the file this is what `get` gives.
    pub fn get_cached(&self, key: &[u8], cache: &mut BlockCache) -> (r: Result<
        Option<Vec<u8>>,
        Error,
    >)
        requires
            self.well_formed(),
            old(cache).well_formed(),
        ensures
            final(cache).well_formed(),
            final(cache).spec_capacity() == old(cache).spec_capacity(),
            final(cache).entries() == match block_read_for(self.bytes(), key@) {
                Some(h) => cache_after_read(
                    self.bytes(),
                    self.number(),
                    h,
                    old(cache).entries(),
                    old(cache).spec_capacity(),
                ),
                None => old(cache).entries(),
            },
            match table_find_cached(self.bytes(), self.number(), key@, old(cache).entries()) {
                Ok(stored) => match stored_meaning(stored).value() {
                    Some(v) => r matches Ok(Some(f)) && f@ == v,
                    None => r matches Ok(None),
                },
                Err(k) => r matches Err(e) && e.kind() == k,
            },
    {
        match self.find_cached(key, cache) {
            Ok(l) => Ok(l.into_value()),
            Err(e) => Err(e),
        }
    }

    /// Every entry of the table, in key order.
    pub fn entries(&self) -> (r: Result<Vec<TableEntry>, Error>)
        requires
            self.well_formed(),
        ensures
            match table_entries(self.bytes()) {
                Ok(entries) => r matches Ok(list) && entry_list(list@) == entries,
                Err(k) => r matches Err(e) && e.kind() == k,
            },
    {
        let ghost file = self.data@;
        let ghost index = self.index_block.entries();
        let mut list: Vec<TableEntry> = Vec::new();
        let mut it = self.index_block.iter();
        it.seek_to_first();
        let ghost mut i: int = 0;
        proof {
            assert(index.skip(0) =~= index);
            assert(entry_list(list@) =~= Seq::<KeyValue>::empty());
            match blocks_entries(file, index, 0) {
                Ok(rest) => {
                    assert(Seq::<KeyValue>::empty() + rest =~= rest);
                },
                Err(_) => {},
            }
        }
        loop
            invariant
                self.well_formed(),
                file == self.data@,
                index == self.index_block.entries(),
                index == block_entries(table_index(file)->Ok_0),
                it.well_formed(),
                it.bytes() == self.index_block.bytes(),
                0 <= i <= index.len(),
                it.remaining() == index.skip(i),
                table_entries(file) == match blocks_entries(file, index, i) {
                    Ok(rest) => Ok::<Seq<KeyValue>, ErrorKind>(entry_list(list@) + rest),
                    Err(k) => Err::<Seq<KeyValue>, ErrorKind>(k),
                },
            decreases index.len() - i,
        {
            if !it.advance() {
                proof {
                    assert(index.skip(i).len() == 0);
                    assert(entry_list(list@) + Seq::<KeyValue>::empty() =~= entry_list(list@));
                }
                return Ok(list);
            }
            proof {
                let rest = it.remaining();
                let kv = KeyValue { key: it.current_key(), value: it.current_value() };
                assert(index.skip(i) == seq![kv] + rest);
                assert(index.skip(i).len() > 0);
                assert(index.skip(i)[0] == kv);
                assert(index[i] == kv);
                assert(rest =~= index.skip(i + 1)) by {
                    assert(index.skip(i).skip(1) =~= index.skip(i + 1));
                    assert((seq![kv] + rest).skip(1) =~= rest);
                }
            }
            let entry = match it.entry() {
                Ok(e) => e,
                Err(e) => {
                    return Err(e);
                },
            };
            let block_data = match read_block_data(self.data.as_slice(), &entry.handle) {
                Ok(d) => d,
                Err(e) => {
                    return Err(e);
                },
            };
            let block = match Block::new(block_data) {
                Ok(b) => b,
                Err(e) => {
                    return Err(e);
                },
            };
            let ghost before = entry_list(list@);
            collect_block(&block, &mut list);
            proof {
                match blocks_entries(file, index, i + 1) {
                    Ok(rest) => {
                        assert(before + (block.entries() + rest) =~= (before + block.entries())
                            + rest);
                    },
                    Err(_) => {},
                }
                i = i + 1;
            }
        }
    }

    /// Every key of the table, in key order.
    pub fn keys(&self) -> (r: Result<Vec<Vec<u8>>, Error>)
        requires
            self.well_formed(),
        ensures
            match table_entries(self.bytes()) {
                Ok(entries) => r matches Ok(list) && list@.len() == entries.len() && forall|i: int|
                    0 <= i < entries.len() ==> (#[trigger] list@[i])@ == entries[i].key,
                Err(k) => r matches Err(e) && e.kind() == k,
            },
    {
        let entries = match self.entries() {
            Ok(e) => e,
            Err(e) => {
                return Err(e);
            },
        };
        let mut keys: Vec<Vec<u8>> = Vec::new();
        let mut i: usize = 0;
        while i < entries.len()
            invariant
                i <= entries@.len(),
                keys@.len() == i,
                forall|j: int| 0 <= j < i ==> (#[trigger] keys@[j])@ == entries@[j].key@,
            decreases entries@.len() - i,
        {
            keys.push(copy_bytes(entries[i].key.as_slice()));
            i += 1;
        }
        proof {
            assert forall|j: int| 0 <= j < entries@.len() implies (#[trigger] keys@[j])@
                == entry_list(entries@)[j].key by {}
        }
        Ok(keys)
    }

    /// The smallest key of the table: `None` for a table without entries.
    pub fn smallest_key(&self) -> (r: Result<Option<Vec<u8>>, Error>)
        requires
            self.well_formed(),
        ensures
            match table_entries(self.bytes()) {
                Ok(entries) => if entries.len() == 0 {
                    r matches Ok(None)
                } else {
                    r matches Ok(Some(k)) && k@ == entries[0].key
                },
                Err(k) => r matches Err(e) && e.kind() == k,
            },
    {
        let entries = match self.entries() {
            Ok(e) => e,
            Err(e) => {
                return Err(e);
            },
        };
        if entries.len() == 0 {
            Ok(None)
        } else {
            proof {
                assert(entry_list(entries@)[0] == entries@[0]@);
            }
            Ok(Some(copy_bytes(entries[0].key.as_slice())))
        }
    }

    /// The largest key of the table: `None` for a table without entries.
    pub fn largest_key(&self) -> (r: Result<Option<Vec<u8>>, Error>)
        requires
            self.well_formed(),
        ensures
            match table_entries(self.bytes()) {
                Ok(entries) => if entries.len() == 0 {
                    r matches Ok(None)
                } else {
                    r matches Ok(Some(k)) && k@ == entries.last().key
                },
                Err(k) => r matches Err(e) && e.kind() == k,
            },
    {
        let entries = match self.entries() {
            Ok(e) => e,
            Err(e) => {
                return Err(e);
            },
        };
        if entries.len() == 0 {
            Ok(None)
        } else {
            proof {
                assert(entry_list(entries@)[entries@.len() - 1] == entries@[entries@.len() - 1]@);
            }
            Ok(Some(copy_bytes(entries[entries.len() - 1].key.as_slice())))
        }
    }

    /// An iterator over the entries of the table. It is not positioned:
    /// `seek_to_first` does that.
    pub fn iter(&self) -> (it: SSTableIterator<'_>)
        requires
            self.well_formed(),
        ensures
            it.table() == *self,
            !it.is_valid(),
            it.remaining() == Seq::<KeyValue>::empty(),
    {
        let it = SSTableIterator { reader: self, entries: Vec::new(), position: 0, positioned: false };
        proof {
            assert(it.remaining() =~= Seq::<KeyValue>::empty());
        }
        it
    }

    /// The number of data blocks.
    pub fn num_blocks(&self) -> (n: usize)
        requires
            self.well_formed(),
        ensures
            n == self.index_entries().len(),
    {
        self.index_block.len()
    }

    /// The size of the table file in bytes.
    pub fn file_size(&self) -> (n: u64)
        ensures
            n == self.bytes().len(),
    {
        self.data.len() as u64
    }

    /// The number of the table file.
    pub fn file_number(&self) -> (n: Option<u64>)
        ensures
            n == Some(self.number()),
    {
        Some(self.file_number)
    }

    /// The image of the table file.
    pub fn contents(&self) -> (b: &[u8])
        ensures
            b@ == self.bytes(),
    {
        self.data.as_slice()
    }

    /// Whether the table has a filter.
    pub fn has_bloom_filter(&self) -> (b: bool)
        requires
            self.well_formed(),
        ensures
            b == (table_filter(self.bytes()) is Some),
    {
        self.bloom_filter.is_some()
    }
}

/// An iterator over the entries of a table.
pub struct SSTableIterator<'a> {
    reader: &'a SSTableReader,
    entries: Vec<TableEntry>,
    position: usize,
    positioned: bool,
}

impl<'a> SSTableIterator<'a> {
    /// The table that is read.
    pub closed spec fn table(&self) -> SSTableReader {
        *self.reader
    }

    /// Whether the iterator stands at an entry.
    pub closed spec fn is_valid(&self) -> bool {
        self.positioned && 0 < self.position <= self.entries@.len()
    }

    /// The entry at which the iterator stands.
    pub closed spec fn current(&self) -> KeyValue {
        self.entries@[self.position - 1]@
    }

    /// The entries behind the one at which the iterator stands.
    pub closed spec fn remaining(&self) -> Seq<KeyValue> {
        if self.positioned && self.position <= self.entries@.len() {
            entry_list(self.entries@).skip(self.position as int)
        } else {
            Seq::<KeyValue>::empty()
        }
    }

    /// Reads the table and puts the iterator before its first entry:
    /// `advance` then moves to it.
    pub fn seek_to_first(&mut self) -> (r: Result<(), Error>)
        requires
            old(self).table().well_formed(),
        ensures
            final(self).table() == old(self).table(),
            match table_entries(old(self).table().bytes()) {
                Ok(entries) => r is Ok && final(self).remaining() == entries && !final(self).is_valid(),
                Err(k) => r matches Err(e) && e.kind() == k && !final(self).is_valid() && final(self).remaining() == Seq::<KeyValue>::empty(),
            },
    {
        match self.reader.entries() {
            Ok(list) => {
                self.entries = list;
                self.position = 0;
                self.positioned = true;
                proof {
                    assert(entry_list(self.entries@).skip(0) =~= entry_list(self.entries@));
                }
                Ok(())
            },
            Err(e) => {
                self.entries = Vec::new();
                self.position = 0;
                self.positioned = false;
                proof {
                    assert(self.remaining() =~= Seq::<KeyValue>::empty());
                }
                Err(e)
            },
        }
    }

    /// Moves to the next entry and says whether there is one.
    pub fn advance(&mut self) -> (r: Result<bool, Error>)
        ensures
            final(self).table() == old(self).table(),
            r matches Ok(found) && found == final(self).is_valid() && found == (old(self).remaining().len() > 0),
            final(self).is_valid() ==> final(self).current() == old(self).remaining()[0] && final(self).remaining() == old(self).remaining().skip(1),
            !final(self).is_valid() ==> final(self).remaining() == Seq::<KeyValue>::empty(),
    {
        if self.positioned && self.position < self.entries.len() {
            self.position = self.position + 1;
            proof {
                assert(self.remaining() =~= old(self).remaining().skip(1));
                assert(old(self).remaining()[0] == self.entries@[self.position - 1]@);
            }
            Ok(true)
        } else {
            proof {
                if self.positioned {
                    assert(old(self).remaining().len() == 0);
                } else {
                    assert(!old(self).is_valid());
                }
            }
            self.position = self.entries.len();
            self.positioned = false;
            proof {
                assert(self.remaining() =~= Seq::<KeyValue>::empty());
            }
            Ok(false)
        }
    }

    /// Whether the iterator stands at an entry.
    pub fn valid(&self) -> (b: bool)
        ensures
            b == self.is_valid(),
    {
        self.positioned && 0 < self.position && self.position <= self.entries.len()
    }

    /// The key of the entry at which the iterator stands.
    pub fn key(&self) -> (k: &[u8])
        requires
            self.is_valid(),
        ensures
            k@ == self.current().key,
    {
        self.entries[self.position - 1].key.as_slice()
    }

    /// The value of the entry at which the iterator stands.
    pub fn value(&self) -> (v: &[u8])
        requires
            self.is_valid(),
        ensures
            v@ == self.current().value,
    {
        self.entries[self.position - 1].value.as_slice()
    }
}

} // verus!
