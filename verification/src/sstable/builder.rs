//! Building a sorted table as the image of its file.
//!
//! Entries are added in key order. They are gathered into data blocks; a
//! block that has reached the block size is compressed and written with its
//! trailer, and its last key goes into the index. Finishing writes the last
//! data block, the filter block, the meta-index block, the index block and
//! the footer.

use vstd::prelude::*;
use vstd::bytes::*;
use crate::checksum::{crc32, crc32_of};
use crate::codec::{append_bytes, copy_bytes, lemma_u32_round_trip, put_u32_le};
use crate::compress::{codec_takes, compress_block, stored_as};
use crate::config::CompressionType;
use crate::error::{Error, ErrorKind};
use crate::filter::bloom::{BloomFilter, BloomFilterView};
use crate::key_order::{key_less, key_lt};
use crate::sstable::block::{block_size, encodable, encode_block, lemma_sorted_push, sorted_entries, BlockBuilder, KeyValue};
use crate::sstable::footer::{encode_footer, encode_handle, BlockHandle, Footer};
use crate::sstable::index::{IndexBlockBuilder, IndexEntry};
use crate::sstable::layout::{can_end, closed_keys, closes, index_of_keys, index_takes, indexed_keys, lemma_block_size_by_lengths, lemma_layout_step, open_after, takes_next};
use crate::sstable::block::{block_entries, restart_offset_of};
use crate::sstable::block_laws::lemma_block_round_trip;
use crate::sstable::footer::{lemma_footer_round_trip, lemma_handle_round_trip};
use crate::filter::bloom::{encode_filter, lemma_filter_round_trip};
use crate::compress::lemma_stored_expands;
use crate::sstable::reader::{filter_name, read_block, scan_for, table_filter, table_footer, table_index};
use crate::sstable::{BLOCK_TRAILER_SIZE, DEFAULT_BLOCK_SIZE, FOOTER_SIZE};

verus! {

/// After how many entries a data block starts a new restart point.
pub const DATA_RESTART_INTERVAL: usize = 16;

/// A data block that has been written: its entries, where it lies, and how
/// it is compressed.
pub struct BlockInfo {
    pub entries: Seq<KeyValue>,
    pub handle: BlockHandle,
    pub compression: CompressionType,
}

/// The file holds at `h` the block `raw`, stored under `compression` and
/// followed by the compression byte and the checksum of the stored bytes.
pub open spec fn holds_block(
    file: Seq<u8>,
    h: BlockHandle,
    compression: CompressionType,
    raw: Seq<u8>,
) -> bool {
    &&& h.size >= BLOCK_TRAILER_SIZE
    &&& h.offset + h.size <= file.len()
    &&& stored_as(compression, raw, file.subrange(h.offset as int, h.offset + h.size - 5))
    &&& file[h.offset + h.size - 5] == compression.spec_as_u8()
    &&& file.subrange(h.offset + h.size - 4, h.offset + h.size) == spec_u32_to_le_bytes(
        crc32(file.subrange(h.offset as int, h.offset + h.size - 5)),
    )
}

/// What a file holds it still holds when more is appended to it.
pub proof fn lemma_holds_block_extends(
    file: Seq<u8>,
    more: Seq<u8>,
    h: BlockHandle,
    compression: CompressionType,
    raw: Seq<u8>,
)
    requires
        holds_block(file, h, compression, raw),
    ensures
        holds_block(file + more, h, compression, raw),
{
    let longer = file + more;
    assert(longer.subrange(h.offset as int, h.offset + h.size - 5) =~= file.subrange(
        h.offset as int,
        h.offset + h.size - 5,
    ));
    assert(longer.subrange(h.offset + h.size - 4, h.offset + h.size) =~= file.subrange(
        h.offset + h.size - 4,
        h.offset + h.size,
    ));
}

/// The entries of all the blocks, in the order of the blocks.
pub open spec fn all_entries(blocks: Seq<BlockInfo>) -> Seq<KeyValue>
    decreases blocks.len(),
{
    if blocks.len() == 0 {
        Seq::<KeyValue>::empty()
    } else {
        all_entries(blocks.drop_last()) + blocks.last().entries
    }
}

/// The index entry of a block: its last key, and its handle as the value.
pub open spec fn index_entry_of(b: BlockInfo) -> KeyValue {
    KeyValue { key: b.entries.last().key, value: encode_handle(b.handle) }
}

/// The index entries of the first `count` blocks.
pub open spec fn index_entries_of(blocks: Seq<BlockInfo>, count: int) -> Seq<KeyValue> {
    Seq::new(count as nat, |j: int| index_entry_of(blocks[j]))
}

/// The last keys of the blocks.
pub open spec fn block_keys(blocks: Seq<BlockInfo>) -> Seq<Seq<u8>> {
    Seq::new(blocks.len(), |j: int| blocks[j].entries.last().key)
}

/// The index entries of blocks are of the size of index entries with the
/// last keys of the blocks.
pub proof fn lemma_index_size(blocks: Seq<BlockInfo>, count: int)
    requires
        0 <= count <= blocks.len(),
    ensures
        block_size(index_entries_of(blocks, count), 1) == block_size(
            index_of_keys(block_keys(blocks).subrange(0, count)),
            1,
        ),
{
    lemma_auto_spec_u64_to_from_le_bytes();
    let a = index_entries_of(blocks, count);
    let b = index_of_keys(block_keys(blocks).subrange(0, count));
    assert forall|i: int| 0 <= i < a.len() implies (#[trigger] a[i]).key == b[i].key
        && a[i].value.len() == b[i].value.len() by {
        assert(a[i].value == encode_handle(blocks[i].handle));
    }
    lemma_block_size_by_lengths(a, b, 1);
}

/// Every block lies in the file and holds at least one entry.
pub open spec fn blocks_written(file: Seq<u8>, blocks: Seq<BlockInfo>) -> bool {
    forall|j: int|
        0 <= j < blocks.len() ==> {
            &&& holds_block(
                file,
                (#[trigger] blocks[j]).handle,
                blocks[j].compression,
                encode_block(blocks[j].entries, DATA_RESTART_INTERVAL),
            )
            &&& blocks[j].entries.len() > 0
            &&& encodable(blocks[j].entries, DATA_RESTART_INTERVAL)
        }
}

/// The number of entries in the blocks before block `j`.
pub open spec fn block_start(blocks: Seq<BlockInfo>, j: int) -> int {
    all_entries(blocks.subrange(0, j)).len() as int
}

/// Adding a block adds its entries at the end.
pub proof fn lemma_all_entries_push(blocks: Seq<BlockInfo>, b: BlockInfo)
    ensures
        all_entries(blocks.push(b)) == all_entries(blocks) + b.entries,
{
    assert(blocks.push(b).drop_last() =~= blocks);
}

/// Entry `i` of block `j` is the entry at `block_start(j) + i` of all
/// entries, and the next block starts behind the last entry of this one.
pub proof fn lemma_block_position(blocks: Seq<BlockInfo>, j: int, i: int)
    requires
        0 <= j < blocks.len(),
        0 <= i < blocks[j].entries.len(),
    ensures
        0 <= block_start(blocks, j) + i < all_entries(blocks).len(),
        all_entries(blocks)[block_start(blocks, j) + i] == blocks[j].entries[i],
        block_start(blocks, j + 1) == block_start(blocks, j) + blocks[j].entries.len(),
    decreases blocks.len(),
{
    let front = blocks.drop_last();
    assert(blocks.subrange(0, j + 1).drop_last() =~= blocks.subrange(0, j));
    assert(blocks.subrange(0, j + 1).last() == blocks[j]);
    if j == blocks.len() - 1 {
        assert(blocks.subrange(0, j) =~= front);
    } else {
        lemma_block_position(front, j, i);
        assert(front.subrange(0, j) =~= blocks.subrange(0, j));
        assert(front[j] == blocks[j]);
    }
}

/// All blocks together hold as many entries as the blocks before the end.
pub proof fn lemma_block_start_end(blocks: Seq<BlockInfo>)
    ensures
        block_start(blocks, blocks.len() as int) == all_entries(blocks).len(),
{
    assert(blocks.subrange(0, blocks.len() as int) =~= blocks);
}

/// Later blocks start later.
pub proof fn lemma_block_starts_grow(blocks: Seq<BlockInfo>, j1: int, j2: int)
    requires
        0 <= j1 <= j2 <= blocks.len(),
    ensures
        block_start(blocks, j1) <= block_start(blocks, j2),
    decreases j2 - j1,
{
    if j1 < j2 {
        lemma_block_starts_grow(blocks, j1, j2 - 1);
        assert(blocks.subrange(0, j2).drop_last() =~= blocks.subrange(0, j2 - 1));
    }
}

/// In a table in key order, a key of an earlier block is below every key of
/// a later block.
pub proof fn lemma_blocks_in_order(blocks: Seq<BlockInfo>, j1: int, i1: int, j2: int, i2: int)
    requires
        sorted_entries(all_entries(blocks)),
        0 <= j1 < j2 < blocks.len(),
        0 <= i1 < blocks[j1].entries.len(),
        0 <= i2 < blocks[j2].entries.len(),
    ensures
        key_lt(blocks[j1].entries[i1].key, blocks[j2].entries[i2].key),
{
    lemma_block_position(blocks, j1, i1);
    lemma_block_position(blocks, j2, i2);
    lemma_block_starts_grow(blocks, j1 + 1, j2);
    let all = all_entries(blocks);
    let first = block_start(blocks, j1) + i1;
    let second = block_start(blocks, j2) + i2;
    assert(key_lt(all[first].key, all[second].key));
}

/// In a table in key order, the keys of one block are in key order.
pub proof fn lemma_block_sorted(blocks: Seq<BlockInfo>, j: int)
    requires
        sorted_entries(all_entries(blocks)),
        0 <= j < blocks.len(),
    ensures
        sorted_entries(blocks[j].entries),
{
    let all = all_entries(blocks);
    let e = blocks[j].entries;
    assert forall|i: int| 0 <= i < e.len() implies (#[trigger] e[i]).key.len() > 0 by {
        lemma_block_position(blocks, j, i);
        assert(all[block_start(blocks, j) + i].key.len() > 0);
    }
    assert forall|a: int, b: int| 0 <= a < b < e.len() implies key_lt(
        (#[trigger] e[a]).key,
        (#[trigger] e[b]).key,
    ) by {
        lemma_block_position(blocks, j, a);
        lemma_block_position(blocks, j, b);
        assert(key_lt(all[block_start(blocks, j) + a].key, all[block_start(blocks, j) + b].key));
    }
}

/// A block that a file holds is the block that reading at its handle gives.
pub proof fn lemma_read_held_block(
    file: Seq<u8>,
    h: BlockHandle,
    compression: CompressionType,
    raw: Seq<u8>,
)
    requires
        holds_block(file, h, compression, raw),
    ensures
        read_block(file, h) == Ok::<Seq<u8>, ErrorKind>(raw),
{
    let start = h.offset as int;
    let end = start + h.size - 5;
    let stored = file.subrange(start, end);
    lemma_u32_round_trip(crc32(stored));
    lemma_stored_expands(compression, raw, stored);
    assert(file.subrange(end + 1, end + 5) =~= file.subrange(
        h.offset + h.size - 4,
        h.offset + h.size,
    ));
}

/// The entries of the meta-index block: the filter block under its name, if
/// there is one.
pub open spec fn meta_entries(filter: Option<BlockHandle>) -> Seq<KeyValue> {
    match filter {
        Some(h) => seq![KeyValue { key: filter_name(), value: encode_handle(h) }],
        None => Seq::<KeyValue>::empty(),
    }
}

/// A file is a table built from the given data blocks: the blocks lie in
/// it, their entries are in key order, the index block lists the last key
/// and the handle of every block, and the filter, if there is one, may
/// contain every key.
pub open spec fn built_table(file: Seq<u8>, blocks: Seq<BlockInfo>) -> bool {
    &&& blocks_written(file, blocks)
    &&& sorted_entries(all_entries(blocks))
    &&& encodable(index_entries_of(blocks, blocks.len() as int), 1)
    &&& table_index(file) == Ok::<Seq<u8>, ErrorKind>(
        encode_block(index_entries_of(blocks, blocks.len() as int), 1),
    )
    &&& table_filter(file) is Some ==> forall|i: int|
        0 <= i < all_entries(blocks).len() ==> table_filter(file)->0.may_contain(
            (#[trigger] all_entries(blocks)[i]).key,
        )
}

/// A file is a table built from the given entries.
pub open spec fn is_table_of(file: Seq<u8>, entries: Seq<KeyValue>) -> bool {
    exists|blocks: Seq<BlockInfo>| #[trigger] built_table(file, blocks) && all_entries(blocks) == entries
}

/// The filter of a table whose meta-index block lists a filter block is the
/// filter in that block.
pub proof fn lemma_table_filter_present(
    file: Seq<u8>,
    footer: Footer,
    filter_handle: BlockHandle,
    filter: BloomFilterView,
)
    requires
        table_footer(file) == Ok::<Footer, ErrorKind>(footer),
        holds_block(
            file,
            footer.meta_index_handle,
            CompressionType::NoCompression,
            encode_block(meta_entries(Some(filter_handle)), 1),
        ),
        encodable(meta_entries(Some(filter_handle)), 1),
        holds_block(file, filter_handle, CompressionType::NoCompression, encode_filter(filter)),
        filter.well_formed(),
        filter.num_bits <= usize::MAX - 7,
    ensures
        table_filter(file) == Some(filter),
{
    let entries = meta_entries(Some(filter_handle));
    let meta = encode_block(entries, 1);
    lemma_read_held_block(file, footer.meta_index_handle, CompressionType::NoCompression, meta);
    lemma_block_round_trip(entries, 1);
    assert(entries[0].key == filter_name());
    assert(scan_for(entries, filter_name(), 0) == Some(encode_handle(filter_handle)));
    lemma_handle_round_trip(filter_handle);
    lemma_read_held_block(
        file,
        filter_handle,
        CompressionType::NoCompression,
        encode_filter(filter),
    );
    lemma_filter_round_trip(filter);
}

/// A table whose meta-index block is empty has no filter.
pub proof fn lemma_table_filter_absent(file: Seq<u8>, footer: Footer)
    requires
        table_footer(file) == Ok::<Footer, ErrorKind>(footer),
        holds_block(
            file,
            footer.meta_index_handle,
            CompressionType::NoCompression,
            encode_block(meta_entries(None), 1),
        ),
        encodable(meta_entries(None), 1),
    ensures
        table_filter(file) is None,
{
    let entries = meta_entries(None);
    let meta = encode_block(entries, 1);
    lemma_read_held_block(file, footer.meta_index_handle, CompressionType::NoCompression, meta);
    lemma_block_round_trip(entries, 1);
}

/// Appends a block with its trailer to `file`: the block as stored under
/// `compression`, the compression byte, and the checksum of the stored
/// bytes. Gives the handle of what was written. When the block is too long
/// for the compressor nothing is written.
pub fn write_block(file: &mut Vec<u8>, raw: &[u8], compression: CompressionType) -> (r: Result<
    BlockHandle,
    Error,
>)
    ensures
        match r {
            Ok(h) => {
                &&& h.offset == old(file)@.len()
                &&& final(file)@.len() == old(file)@.len() + h.size
                &&& final(file)@.subrange(0, old(file)@.len() as int) == old(file)@
                &&& holds_block(final(file)@, h, compression, raw@)
                &&& codec_takes(compression, raw@.len())
            },
            Err(e) => final(file)@ == old(file)@ && e is Internal && !codec_takes(
                compression,
                raw@.len(),
            ),
        },
{
    let stored = match compress_block(raw, compression) {
        Ok(s) => s,
        Err(e) => {
            return Err(e);
        },
    };
    let offset = file.len();
    let checksum = crc32_of(stored.as_slice());
    append_bytes(file, stored.as_slice());
    file.push(compression.as_u8());
    put_u32_le(file, checksum);
    let size = file.len() - offset;
    let handle = BlockHandle::new(offset as u64, size as u64);
    proof {
        lemma_u32_round_trip(checksum);
        let f = file@;
        assert(f.subrange(0, offset as int) =~= old(file)@);
        assert(f.subrange(offset as int, offset + size - 5) =~= stored@);
        assert(f.subrange(offset + size - 4, offset + size) =~= spec_u32_to_le_bytes(checksum));
    }
    Ok(handle)
}

/// `a` is the beginning of `b`.
pub open spec fn is_prefix(a: Seq<u8>, b: Seq<u8>) -> bool {
    a.len() <= b.len() && b.subrange(0, a.len() as int) == a
}

/// The beginning of a beginning is a beginning.
pub proof fn lemma_prefix_transitive(a: Seq<u8>, b: Seq<u8>, c: Seq<u8>)
    requires
        is_prefix(a, b),
        is_prefix(b, c),
    ensures
        is_prefix(a, c),
{
    assert(c.subrange(0, a.len() as int) =~= c.subrange(0, b.len() as int).subrange(
        0,
        a.len() as int,
    ));
}

/// What a file held when it was shorter it still holds.
pub proof fn lemma_holds_block_prefix(
    then: Seq<u8>,
    now: Seq<u8>,
    h: BlockHandle,
    compression: CompressionType,
    raw: Seq<u8>,
)
    requires
        holds_block(then, h, compression, raw),
        is_prefix(then, now),
    ensures
        holds_block(now, h, compression, raw),
{
    let more = now.subrange(then.len() as int, now.len() as int);
    assert(now =~= then + more);
    lemma_holds_block_extends(then, more, h, compression, raw);
}

/// A file that was written in the order of a table is a table: first the
/// data blocks (`f0`), then the filter block if there is one (`f1`), the
/// meta-index block (`f2`), the index block (`f3`) and the footer (`f`).
proof fn lemma_finished_table(
    f0: Seq<u8>,
    f1: Seq<u8>,
    f2: Seq<u8>,
    f3: Seq<u8>,
    f: Seq<u8>,
    blocks: Seq<BlockInfo>,
    footer: Footer,
    filter_handle: Option<BlockHandle>,
    filter_view: Option<BloomFilterView>,
    index_raw: Seq<u8>,
)
    requires
        is_prefix(f0, f1),
        is_prefix(f1, f2),
        is_prefix(f2, f3),
        is_prefix(f3, f),
        f.len() >= FOOTER_SIZE,
        f.subrange(f.len() - FOOTER_SIZE, f.len() as int) == encode_footer(footer),
        blocks_written(f0, blocks),
        sorted_entries(all_entries(blocks)),
        encodable(index_entries_of(blocks, blocks.len() as int), 1),
        index_raw == encode_block(index_entries_of(blocks, blocks.len() as int), 1),
        holds_block(f3, footer.index_handle, CompressionType::NoCompression, index_raw),
        holds_block(
            f2,
            footer.meta_index_handle,
            CompressionType::NoCompression,
            encode_block(meta_entries(filter_handle), 1),
        ),
        encodable(meta_entries(filter_handle), 1),
        filter_handle is Some <==> filter_view is Some,
        filter_handle is Some ==> {
            &&& holds_block(
                f1,
                filter_handle->0,
                CompressionType::NoCompression,
                encode_filter(filter_view->0),
            )
            &&& filter_view->0.well_formed()
            &&& filter_view->0.num_bits <= usize::MAX - 7
            &&& forall|i: int|
                0 <= i < all_entries(blocks).len() ==> filter_view->0.may_contain(
                    (#[trigger] all_entries(blocks)[i]).key,
                )
        },
    ensures
        built_table(f, blocks),
        table_filter(f) == filter_view,
{
    lemma_prefix_transitive(f2, f3, f);
    lemma_prefix_transitive(f1, f2, f);
    lemma_prefix_transitive(f0, f1, f);
    lemma_footer_round_trip(footer);
    assert(table_footer(f) == Ok::<Footer, ErrorKind>(footer));
    lemma_holds_block_prefix(
        f3,
        f,
        footer.index_handle,
        CompressionType::NoCompression,
        index_raw,
    );
    lemma_read_held_block(f, footer.index_handle, CompressionType::NoCompression, index_raw);
    lemma_block_round_trip(index_entries_of(blocks, blocks.len() as int), 1);
    assert(table_index(f) == Ok::<Seq<u8>, ErrorKind>(index_raw));
    assert forall|j: int| 0 <= j < blocks.len() implies holds_block(
        f,
        (#[trigger] blocks[j]).handle,
        blocks[j].compression,
        encode_block(blocks[j].entries, DATA_RESTART_INTERVAL),
    ) by {
        lemma_holds_block_prefix(
            f0,
            f,
            blocks[j].handle,
            blocks[j].compression,
            encode_block(blocks[j].entries, DATA_RESTART_INTERVAL),
        );
    }
    assert(blocks_written(f, blocks));
    lemma_holds_block_prefix(
        f2,
        f,
        footer.meta_index_handle,
        CompressionType::NoCompression,
        encode_block(meta_entries(filter_handle), 1),
    );
    match filter_handle {
        Some(fh) => {
            let fv = filter_view->0;
            lemma_holds_block_prefix(f1, f, fh, CompressionType::NoCompression, encode_filter(fv));
            lemma_table_filter_present(f, footer, fh, fv);
        },
        None => {
            lemma_table_filter_absent(f, footer);
        },
    }
}

/// Builds the filter over `keys` and appends its block to `file`.
fn write_filter_block(file: &mut Vec<u8>, keys: &Vec<Vec<u8>>, bits_per_key: usize) -> (r: Result<
    (BlockHandle, Ghost<BloomFilterView>),
    Error,
>)
    requires
        keys@.len() * bits_per_key <= usize::MAX - 7,
    ensures
        r is Ok,
        is_prefix(old(file)@, final(file)@),
        holds_block(
            final(file)@,
            r->Ok_0.0,
            CompressionType::NoCompression,
            encode_filter(r->Ok_0.1@),
        ),
        r->Ok_0.1@.well_formed(),
        r->Ok_0.1@.num_bits <= usize::MAX - 7,
        forall|i: int| 0 <= i < keys@.len() ==> r->Ok_0.1@.may_contain((#[trigger] keys@[i])@),
{
    let mut filter = BloomFilter::with_bits_per_key(keys.len(), bits_per_key);
    let ghost num_bits = filter@.num_bits;
    let mut i: usize = 0;
    while i < keys.len()
        invariant
            i <= keys@.len(),
            filter.well_formed(),
            filter@.num_bits == num_bits,
            num_bits >= 64,
            forall|j: int| 0 <= j < i ==> filter@.may_contain((#[trigger] keys@[j])@),
        decreases keys@.len() - i,
    {
        let ghost before = filter@;
        filter.add(keys[i].as_slice());
        proof {
            assert forall|j: int| 0 <= j < i + 1 implies filter@.may_contain(
                (#[trigger] keys@[j])@,
            ) by {
                if j < i {
                    assert(before.may_contain(keys@[j]@));
                }
            }
        }
        i += 1;
    }
    let bytes = filter.encode();
    match write_block(file, bytes.as_slice(), CompressionType::NoCompression) {
        Ok(h) => Ok((h, Ghost(filter@))),
        Err(e) => Err(e),
    }
}

/// Appends the meta-index block to `file`: it lists the filter block, if
/// there is one, under its name.
fn write_meta_index(file: &mut Vec<u8>, filter: Option<BlockHandle>) -> (r: Result<
    BlockHandle,
    Error,
>)
    ensures
        r is Ok,
        is_prefix(old(file)@, final(file)@),
        holds_block(
            final(file)@,
            r->Ok_0,
            CompressionType::NoCompression,
            encode_block(meta_entries(filter), 1),
        ),
        encodable(meta_entries(filter), 1),
{
    let mut builder = BlockBuilder::new(1);
    match filter {
        Some(h) => {
            let mut name: Vec<u8> = Vec::new();
            name.push(102u8);
            name.push(105u8);
            name.push(108u8);
            name.push(116u8);
            name.push(101u8);
            name.push(114u8);
            assert(name@ =~= filter_name());
            let value = h.encode();
            proof {
                let none = Seq::<KeyValue>::empty();
                assert(crate::sstable::block::encode_entries(none, 1) =~= Seq::<u8>::empty());
                assert(crate::sstable::block::restart_points(none, 1) =~= seq![0u32]);
            }
            builder.add(name.as_slice(), value.as_slice());
            proof {
                assert(builder.entries() =~= meta_entries(filter));
            }
        },
        None => {
            proof {
                assert(builder.entries() =~= meta_entries(filter));
            }
        },
    }
    proof {
        builder.lemma_well_formed();
    }
    let raw = builder.finish();
    write_block(file, raw.as_slice(), CompressionType::NoCompression)
}

/// Builds a sorted table from entries added in key order.
pub struct SSTableBuilder {
    file: Vec<u8>,
    data_block_builder: BlockBuilder,
    index_block_builder: IndexBlockBuilder,
    last_key: Vec<u8>,
    num_entries: u64,
    block_size: usize,
    compression: CompressionType,
    pending_handle: Option<BlockHandle>,
    filter_bits_per_key: Option<usize>,
    keys: Vec<Vec<u8>>,
    written: Ghost<Seq<BlockInfo>>,
}

impl SSTableBuilder {
    /// The data blocks written so far.
    pub closed spec fn blocks(&self) -> Seq<BlockInfo> {
        self.written@
    }

    /// The entries of the block that is being filled.
    pub closed spec fn open_entries(&self) -> Seq<KeyValue> {
        self.data_block_builder.entries()
    }

    /// Every entry added so far.
    pub open spec fn entries(&self) -> Seq<KeyValue> {
        all_entries(self.blocks()) + self.open_entries()
    }

    /// What has been written of the file.
    pub closed spec fn bytes(&self) -> Seq<u8> {
        self.file@
    }

    /// The compression of the blocks still to be written.
    pub closed spec fn spec_compression(&self) -> CompressionType {
        self.compression
    }

    /// The bits per key of the filter, if the table gets one.
    pub closed spec fn spec_filter_bits(&self) -> Option<usize> {
        self.filter_bits_per_key
    }

    /// The size at which a data block is written.
    pub closed spec fn spec_block_size(&self) -> usize {
        self.block_size
    }

    /// The number of index entries that have been added.
    pub closed spec fn indexed(&self) -> int {
        if self.pending_handle is Some {
            self.written@.len() - 1
        } else {
            self.written@.len() as int
        }
    }

    /// The parts of the builder agree with each other.
    pub closed spec fn well_formed(&self) -> bool {
        &&& self.data_block_builder.well_formed()
        &&& self.data_block_builder.interval() == DATA_RESTART_INTERVAL
        &&& self.index_block_builder.well_formed()
        &&& blocks_written(self.file@, self.written@)
        &&& self.pending_handle is Some ==> self.written@.len() > 0 && self.pending_handle
            == Some(self.written@.last().handle) && self.data_block_builder.entries().len() == 0
        &&& self.index_block_builder.entries() == index_entries_of(self.written@, self.indexed())
        &&& sorted_entries(self.entries())
        &&& self.last_key@ == if self.entries().len() == 0 {
            Seq::<u8>::empty()
        } else {
            self.entries().last().key
        }
        &&& self.num_entries == self.entries().len()
        &&& self.keys@.len() == self.entries().len()
        &&& forall|i: int|
            0 <= i < self.keys@.len() ==> (#[trigger] self.keys@[i])@ == self.entries()[i].key
    }

    /// Whether the blocks are those that the entries make at the block
    /// size of the builder. They are as long as the block size is set
    /// before the first entry is added.
    pub closed spec fn regular(&self) -> bool {
        &&& self.data_block_builder.entries() == open_after(self.entries(), self.block_size)
        &&& (self.pending_handle is Some) == closes(self.entries(), self.block_size)
        &&& block_keys(self.written@) == closed_keys(self.entries(), self.block_size)
    }

    /// A builder without entries is regular.
    pub proof fn lemma_empty_is_regular(&self)
        requires
            self.well_formed(),
            self.entries().len() == 0,
        ensures
            self.regular(),
    {
        if self.written@.len() > 0 {
            lemma_block_start_end(self.written@);
            lemma_block_position(self.written@, 0, 0);
        }
        assert(block_keys(self.written@) =~= Seq::<Seq<u8>>::empty());
    }

    /// What a regular builder accepts is told by its entries alone.
    pub proof fn lemma_regular(&self)
        requires
            self.well_formed(),
            self.regular(),
        ensures
            forall|key: Seq<u8>, value: Seq<u8>| #[trigger]
                self.accepts(key, value) == takes_next(
                    self.entries(),
                    KeyValue { key, value },
                    self.spec_block_size(),
                ),
            self.can_finish() == can_end(
                self.entries(),
                self.spec_block_size(),
                self.spec_filter_bits(),
            ),
            self.open_entries() == open_after(self.entries(), self.spec_block_size()),
    {
        let blocks = self.written@;
        let n = blocks.len() as int;
        let entries = self.entries();
        let size = self.block_size;
        let keys = block_keys(blocks);
        lemma_index_size(blocks, self.indexed());
        if self.pending_handle is Some {
            assert(keys.subrange(0, n - 1) =~= keys.drop_last());
        } else {
            assert(keys.subrange(0, n) =~= keys);
        }
        assert(block_size(self.index_block_builder.entries(), 1) == block_size(
            index_of_keys(indexed_keys(entries, size)),
            1,
        ));
        if entries.len() > 0 {
            assert(entries.drop_last().push(entries.last()) =~= entries);
            lemma_layout_step(entries.drop_last(), entries.last(), size);
        }
    }

    /// A builder for an empty table, with blocks of the default size, no
    /// compression and no filter.
    pub fn new() -> (r: Result<Self, Error>)
        ensures
            r matches Ok(b) && b.well_formed() && b.entries() == Seq::<KeyValue>::empty()
                && b.bytes() == Seq::<u8>::empty() && b.spec_compression()
                == CompressionType::NoCompression && b.spec_filter_bits() is None
                && b.spec_block_size() == DEFAULT_BLOCK_SIZE && b.regular(),
    {
        let b = SSTableBuilder {
            file: Vec::new(),
            data_block_builder: BlockBuilder::new(DATA_RESTART_INTERVAL),
            index_block_builder: IndexBlockBuilder::new(),
            last_key: Vec::new(),
            num_entries: 0,
            block_size: DEFAULT_BLOCK_SIZE,
            compression: CompressionType::NoCompression,
            pending_handle: None,
            filter_bits_per_key: None,
            keys: Vec::new(),
            written: Ghost(Seq::<BlockInfo>::empty()),
        };
        proof {
            assert(b.index_block_builder.entries() =~= index_entries_of(b.written@, 0));
            assert(b.entries() =~= Seq::<KeyValue>::empty());
            b.lemma_empty_is_regular();
        }
        Ok(b)
    }

    /// Sets the size at which a data block is written.
    pub fn set_block_size(&mut self, size: usize)
        requires
            old(self).well_formed(),
        ensures
            final(self).well_formed(),
            final(self).spec_block_size() == size,
            final(self).entries() == old(self).entries(),
            final(self).blocks() == old(self).blocks(),
            final(self).bytes() == old(self).bytes(),
            final(self).spec_compression() == old(self).spec_compression(),
            final(self).spec_filter_bits() == old(self).spec_filter_bits(),
            old(self).entries().len() == 0 ==> final(self).regular(),
    {
        self.block_size = size;
        proof {
            if self.entries().len() == 0 {
                self.lemma_empty_is_regular();
            }
        }
    }

    /// Sets the compression of the blocks still to be written.
    pub fn set_compression(&mut self, compression: CompressionType)
        requires
            old(self).well_formed(),
        ensures
            final(self).well_formed(),
            final(self).spec_compression() == compression,
            final(self).entries() == old(self).entries(),
            final(self).blocks() == old(self).blocks(),
            final(self).bytes() == old(self).bytes(),
            final(self).spec_block_size() == old(self).spec_block_size(),
            final(self).spec_filter_bits() == old(self).spec_filter_bits(),
            final(self).regular() == old(self).regular(),
    {
        self.compression = compression;
    }

    /// Gives the table a bloom filter with `bits_per_key` bits for every
    /// key, or none.
    pub fn set_bloom_filter(&mut self, bits_per_key: Option<usize>)
        requires
            old(self).well_formed(),
        ensures
            final(self).well_formed(),
            final(self).spec_filter_bits() == bits_per_key,
            final(self).entries() == old(self).entries(),
            final(self).blocks() == old(self).blocks(),
            final(self).bytes() == old(self).bytes(),
            final(self).spec_block_size() == old(self).spec_block_size(),
            final(self).spec_compression() == old(self).spec_compression(),
            final(self).regular() == old(self).regular(),
    {
        self.filter_bits_per_key = bits_per_key;
    }

    /// Whether the index block has room for the entry of the block written
    /// last.
    pub closed spec fn index_has_room(&self) -> bool {
        self.pending_handle is Some ==> block_size(self.index_block_builder.entries(), 1) + 32
            + self.last_key@.len() <= u32::MAX
    }

    /// Whether an entry can be added: its key is not empty and comes after
    /// the key added last, and the lengths of the block and of the index
    /// stay within the four bytes they are stored in.
    pub open spec fn accepts(&self, key: Seq<u8>, value: Seq<u8>) -> bool {
        &&& key.len() > 0
        &&& self.entries().len() > 0 ==> key_lt(self.entries().last().key, key)
        &&& block_size(self.open_entries(), DATA_RESTART_INTERVAL) + 16 + key.len() + value.len()
            <= u32::MAX
        &&& self.index_has_room()
        &&& self.entries().len() < u64::MAX
    }

    /// Whether the entry fills the block that is being filled up to the
    /// block size, so that the block is written.
    pub open spec fn fills(&self, key: Seq<u8>, value: Seq<u8>) -> bool {
        block_size(self.open_entries().push(KeyValue { key, value }), DATA_RESTART_INTERVAL)
            >= self.spec_block_size()
    }

    /// Adds an entry. An invalid-argument error, and no change, when the
    /// entry is not accepted. An internal error when the entry has filled
    /// a block that is too long for the compressor; the entry is then
    /// added, and the block not written.
    pub fn add(&mut self, key: &[u8], value: &[u8]) -> (r: Result<(), Error>)
        requires
            old(self).well_formed(),
        ensures
            final(self).well_formed(),
            final(self).spec_block_size() == old(self).spec_block_size(),
            final(self).spec_compression() == old(self).spec_compression(),
            final(self).spec_filter_bits() == old(self).spec_filter_bits(),
            r is Ok && old(self).regular() ==> final(self).regular(),
            match r {
                Ok(_) => old(self).accepts(key@, value@) && final(self).entries() == old(self).entries().push(KeyValue { key: key@, value: value@ })
                    && (old(self).fills(key@, value@) ==> codec_takes(
                    old(self).spec_compression(),
                    block_size(
                        old(self).open_entries().push(KeyValue { key: key@, value: value@ }),
                        DATA_RESTART_INTERVAL,
                    ),
                )),
                Err(e) => if old(self).accepts(key@, value@) {
                    e is Internal && old(self).fills(key@, value@) && !codec_takes(
                        old(self).spec_compression(),
                        block_size(
                            old(self).open_entries().push(KeyValue { key: key@, value: value@ }),
                            DATA_RESTART_INTERVAL,
                        ),
                    ) && final(self).entries() == old(self).entries().push(
                        KeyValue { key: key@, value: value@ },
                    )
                } else {
                    e is InvalidArgument && final(self).entries() == old(self).entries()
                        && final(self).bytes() == old(self).bytes()
                },
            },
    {
        let ghost kv = KeyValue { key: key@, value: value@ };
        let ghost before = self.entries();
        if key.len() == 0 {
            return Err(Error::invalid_argument("Key cannot be empty"));
        }
        proof {
            if before.len() > 0 {
                assert(before.last().key.len() > 0);
            }
        }
        if self.last_key.len() > 0 && !key_less(self.last_key.as_slice(), key) {
            return Err(Error::invalid_argument("Keys must be added in sorted order"));
        }
        proof {
            self.data_block_builder.lemma_well_formed();
            self.index_block_builder.lemma_well_formed();
        }
        let open_size = self.data_block_builder.current_size();
        let limit: usize = 0xffff_ffff;
        if open_size > limit - 16 || key.len() > limit - 16 - open_size || value.len() > limit - 16
            - open_size - key.len() {
            return Err(Error::invalid_argument("Entry too large for a block"));
        }
        match self.pending_handle {
            Some(_) => {
                let index_size = self.index_block_builder.current_size();
                if index_size > limit - 32 || self.last_key.len() > limit - 32 - index_size {
                    return Err(Error::invalid_argument("Index block too large"));
                }
            },
            None => {},
        }
        if self.num_entries == u64::MAX {
            return Err(Error::invalid_argument("Too many entries"));
        }
        assert(old(self).accepts(key@, value@));
        let ghost open_before = self.data_block_builder.entries();
        let ghost blocks_before = self.written@;
        self.add_pending_index_entry();
        self.data_block_builder.add(key, value);
        self.last_key.clear();
        append_bytes(&mut self.last_key, key);
        self.num_entries += 1;
        self.keys.push(copy_bytes(key));
        proof {
            assert(self.entries() =~= before.push(kv));
            lemma_sorted_push(before, kv);
        }
        proof {
            self.data_block_builder.lemma_well_formed();
        }
        if self.data_block_builder.current_size() >= self.block_size {
            let flushed = self.flush_data_block();
            proof {
                if flushed is Ok {
                    Self::lemma_add_keeps_regular(old(self), self, kv, true);
                }
            }
            return flushed;
        }
        proof {
            Self::lemma_add_keeps_regular(old(self), self, kv, false);
        }
        Ok(())
    }

    /// A regular builder is regular after one more entry: the entry has
    /// gone into the block that is being filled, and has closed it when it
    /// has filled it.
    proof fn lemma_add_keeps_regular(before: &Self, after: &Self, kv: KeyValue, closed: bool)
        requires
            after.block_size == before.block_size,
            after.entries() == before.entries().push(kv),
            closed == (block_size(
                before.data_block_builder.entries().push(kv),
                DATA_RESTART_INTERVAL,
            ) >= before.block_size),
            if closed {
                after.data_block_builder.entries().len() == 0 && after.pending_handle is Some
                    && after.written@.len() == before.written@.len() + 1
                    && after.written@.drop_last() == before.written@ && after.written@.last().entries
                    == before.data_block_builder.entries().push(kv)
            } else {
                after.data_block_builder.entries() == before.data_block_builder.entries().push(kv)
                    && after.pending_handle is None && after.written@ == before.written@
            },
        ensures
            before.regular() ==> after.regular(),
    {
        if before.regular() {
            lemma_layout_step(before.entries(), kv, before.block_size);
            if closed {
                assert(after.data_block_builder.entries() =~= Seq::<KeyValue>::empty());
                assert(block_keys(after.written@) =~= block_keys(before.written@).push(kv.key)) by {
                    assert forall|j: int| 0 <= j < before.written@.len() implies after.written@[j]
                        == before.written@[j] by {
                        assert(after.written@.drop_last()[j] == after.written@[j]);
                    }
                }
            }
        }
    }

    /// Adds the index entry of the block written last, if that is still to
    /// be done.
    fn add_pending_index_entry(&mut self)
        requires
            old(self).well_formed(),
            old(self).index_has_room(),
        ensures
            final(self).well_formed(),
            final(self).pending_handle is None,
            final(self).written@ == old(self).written@,
            final(self).file@ == old(self).file@,
            final(self).data_block_builder == old(self).data_block_builder,
            final(self).last_key == old(self).last_key,
            final(self).num_entries == old(self).num_entries,
            final(self).keys == old(self).keys,
            final(self).block_size == old(self).block_size,
            final(self).compression == old(self).compression,
            final(self).filter_bits_per_key == old(self).filter_bits_per_key,
    {
        match self.pending_handle {
            Some(handle) => {
                let ghost blocks = self.written@;
                let ghost n = blocks.len() as int;
                proof {
                    // the key added last is the last key of the block written last
                    assert(self.entries() =~= all_entries(blocks));
                    lemma_block_start_end(blocks);
                    lemma_block_position(blocks, n - 1, blocks[n - 1].entries.len() - 1);
                    assert(self.last_key@ == blocks[n - 1].entries.last().key);
                    if n >= 2 {
                        lemma_blocks_in_order(
                            blocks,
                            n - 2,
                            blocks[n - 2].entries.len() - 1,
                            n - 1,
                            blocks[n - 1].entries.len() - 1,
                        );
                        assert(index_entries_of(blocks, n - 1).last() == index_entry_of(
                            blocks[n - 2],
                        ));
                    }
                }
                let entry = IndexEntry::new(copy_bytes(self.last_key.as_slice()), handle);
                self.index_block_builder.add_entry(&entry);
                self.pending_handle = None;
                proof {
                    assert(self.index_block_builder.entries() =~= index_entries_of(blocks, n));
                }
            },
            None => {},
        }
    }

    /// Writes the block that is being filled, unless it is empty, and starts
    /// a new one. When the block cannot be compressed nothing changes.
    fn flush_data_block(&mut self) -> (r: Result<(), Error>)
        requires
            old(self).well_formed(),
        ensures
            final(self).well_formed(),
            final(self).entries() == old(self).entries(),
            final(self).block_size == old(self).block_size,
            final(self).compression == old(self).compression,
            final(self).filter_bits_per_key == old(self).filter_bits_per_key,
            final(self).last_key == old(self).last_key,
            final(self).keys == old(self).keys,
            final(self).index_block_builder == old(self).index_block_builder,
            final(self).pending_handle is Some ==> old(self).pending_handle is Some || old(self).open_entries().len() > 0,
            match r {
                Ok(_) => final(self).open_entries().len() == 0 && if old(self).open_entries().len()
                    == 0 {
                    final(self).written@ == old(self).written@ && final(self).pending_handle
                        == old(self).pending_handle
                } else {
                    final(self).pending_handle is Some && final(self).written@.len() == old(
                        self,
                    ).written@.len() + 1 && final(self).written@.drop_last() == old(self).written@
                        && final(self).written@.last().entries == old(self).open_entries()
                },
                Err(e) => e is Internal && !codec_takes(
                    old(self).compression,
                    block_size(old(self).open_entries(), DATA_RESTART_INTERVAL),
                ) && old(self).open_entries().len() > 0 && final(self).file@ == old(self).file@,
            },
            r is Ok && old(self).open_entries().len() > 0 ==> codec_takes(
                old(self).compression,
                block_size(old(self).open_entries(), DATA_RESTART_INTERVAL),
            ),
    {
        if self.data_block_builder.is_empty() {
            return Ok(());
        }
        let ghost blocks = self.written@;
        let ghost open = self.data_block_builder.entries();
        let ghost old_file = self.file@;
        proof {
            self.data_block_builder.lemma_well_formed();
        }
        let raw = self.data_block_builder.encoded();
        let handle = match write_block(&mut self.file, raw.as_slice(), self.compression) {
            Ok(h) => h,
            Err(e) => {
                return Err(e);
            },
        };
        self.data_block_builder = BlockBuilder::new(DATA_RESTART_INTERVAL);
        self.pending_handle = Some(handle);
        let ghost info = BlockInfo { entries: open, handle, compression: self.compression };
        self.written = Ghost(blocks.push(info));
        proof {
            let file = self.file@;
            let more = file.subrange(old_file.len() as int, file.len() as int);
            assert(file =~= old_file + more);
            assert forall|j: int| 0 <= j < blocks.len() implies holds_block(
                file,
                (#[trigger] blocks[j]).handle,
                blocks[j].compression,
                encode_block(blocks[j].entries, DATA_RESTART_INTERVAL),
            ) by {
                lemma_holds_block_extends(
                    old_file,
                    more,
                    blocks[j].handle,
                    blocks[j].compression,
                    encode_block(blocks[j].entries, DATA_RESTART_INTERVAL),
                );
            }
            assert(blocks_written(file, self.written@));
            lemma_all_entries_push(blocks, info);
            assert(self.entries() =~= old(self).entries());
            assert(self.index_block_builder.entries() =~= index_entries_of(
                self.written@,
                blocks.len() as int,
            ));
            assert(self.written@.drop_last() =~= blocks);
        }
        Ok(())
    }

    /// Whether the table can be finished: the index block has room for the
    /// entry of the last data block, and the filter for its keys.
    pub closed spec fn can_finish(&self) -> bool {
        &&& (self.pending_handle is Some || self.data_block_builder.entries().len() > 0)
            ==> block_size(self.index_block_builder.entries(), 1) + 32 + self.last_key@.len()
            <= u32::MAX
        &&& self.filter_bits_per_key matches Some(bits) ==> self.keys@.len() * bits <= usize::MAX
            - 7
    }

    /// Whether the compressor takes the block that is being filled.
    pub open spec fn last_block_compresses(&self) -> bool {
        self.open_entries().len() > 0 ==> codec_takes(
            self.spec_compression(),
            block_size(self.open_entries(), DATA_RESTART_INTERVAL),
        )
    }

    /// Finishes the table and gives the image of its file: the data blocks,
    /// the filter block if the table has a filter, the meta-index block, the
    /// index block and the footer. An invalid-argument error when the table
    /// cannot be finished, an internal error when the last data block is
    /// too long for the compressor.
    pub fn finish(self) -> (r: Result<Vec<u8>, Error>)
        requires
            self.well_formed(),
        ensures
            match r {
                Ok(bytes) => {
                    &&& self.can_finish()
                    &&& self.last_block_compresses()
                    &&& is_table_of(bytes@, self.entries())
                    &&& table_filter(bytes@) is Some <==> self.spec_filter_bits() is Some
                },
                Err(e) => if self.can_finish() {
                    e is Internal && !self.last_block_compresses()
                } else {
                    e is InvalidArgument
                },
            },
    {
        let mut this = self;
        let limit: usize = 0xffff_ffff;
        proof {
            this.index_block_builder.lemma_well_formed();
        }
        if this.pending_handle.is_some() || !this.data_block_builder.is_empty() {
            let index_size = this.index_block_builder.current_size();
            if index_size > limit - 32 || this.last_key.len() > limit - 32 - index_size {
                return Err(Error::invalid_argument("Index block too large"));
            }
        }
        match this.filter_bits_per_key {
            Some(bits) => {
                match this.keys.len().checked_mul(bits) {
                    Some(product) => {
                        if product > usize::MAX - 7 {
                            return Err(Error::invalid_argument("Too many keys for the filter"));
                        }
                    },
                    None => {
                        return Err(Error::invalid_argument("Too many keys for the filter"));
                    },
                }
            },
            None => {},
        }
        assert(self.can_finish());
        match this.flush_data_block() {
            Ok(_) => {},
            Err(e) => {
                return Err(e);
            },
        }
        this.add_pending_index_entry();
        let ghost blocks = this.written@;
        let ghost entries = self.entries();
        let ghost index_entries = index_entries_of(blocks, blocks.len() as int);
        let ghost f0 = this.file@;
        proof {
            assert(this.entries() =~= all_entries(blocks));
            this.index_block_builder.lemma_well_formed();
        }
        let mut file = copy_bytes(this.file.as_slice());
        let mut filter_handle: Option<BlockHandle> = None;
        let ghost mut filter_view: Option<BloomFilterView> = None;
        match this.filter_bits_per_key {
            Some(bits) => {
                match write_filter_block(&mut file, &this.keys, bits) {
                    Ok(pair) => {
                        filter_handle = Some(pair.0);
                        proof {
                            filter_view = Some(pair.1@);
                        }
                    },
                    Err(e) => {
                        return Err(e);
                    },
                }
            },
            None => {},
        }
        let ghost f1 = file@;
        let meta_handle = match write_meta_index(&mut file, filter_handle) {
            Ok(h) => h,
            Err(e) => {
                return Err(e);
            },
        };
        let ghost f2 = file@;
        let index_raw = this.index_block_builder.encoded();
        let index_handle = match write_block(
            &mut file,
            index_raw.as_slice(),
            CompressionType::NoCompression,
        ) {
            Ok(h) => h,
            Err(e) => {
                return Err(e);
            },
        };
        let ghost f3 = file@;
        let footer = Footer::new(meta_handle, index_handle);
        let encoded_footer = footer.encode();
        append_bytes(&mut file, encoded_footer.as_slice());
        proof {
            let f = file@;
            assert(f0.subrange(0, f0.len() as int) =~= f0);
            assert(is_prefix(f0, f1));
            assert(f.subrange(0, f3.len() as int) =~= f3);
            assert(f.subrange(f.len() - FOOTER_SIZE, f.len() as int) =~= encode_footer(footer));
            assert forall|i: int| 0 <= i < all_entries(blocks).len() implies this.keys@[i]@
                == (#[trigger] all_entries(blocks)[i]).key by {}
            lemma_finished_table(
                f0,
                f1,
                f2,
                f3,
                f,
                blocks,
                footer,
                filter_handle,
                filter_view,
                index_raw@,
            );
            assert(all_entries(blocks) == entries);
        }
        Ok(file)
    }

    /// The number of entries added.
    pub fn num_entries(&self) -> (n: u64)
        requires
            self.well_formed(),
        ensures
            n == self.entries().len(),
    {
        self.num_entries
    }

    /// The size of what has been written and of the block that is being
    /// filled.
    pub fn current_size(&self) -> (n: u64)
        requires
            self.well_formed(),
            self.bytes().len() + block_size(self.open_entries(), DATA_RESTART_INTERVAL)
                <= u64::MAX,
        ensures
            n == self.bytes().len() + block_size(self.open_entries(), DATA_RESTART_INTERVAL),
    {
        proof {
            self.data_block_builder.lemma_well_formed();
        }
        self.file.len() as u64 + self.data_block_builder.current_size() as u64
    }

    /// Gives the table up: nothing of it is kept.
    pub fn abandon(self) -> (r: Result<(), Error>)
        ensures
            r is Ok,
    {
        Ok(())
    }
}

} // verus!
