//! How the entries of a table fall into blocks, and which entries a table
//! can take.
//!
//! A data block is closed as soon as it has reached the block size; the
//! index gets the last key of a closed block when the next entry comes, or
//! when the table is finished. The lengths of a data block and of the index
//! block must fit into the four bytes they are stored in.

use vstd::prelude::*;
use vstd::bytes::*;
use crate::key_order::{key_lt, lemma_common_prefix_len};
use crate::compress::codec_takes;
use crate::config::CompressionType;
use crate::sstable::builder::DATA_RESTART_INTERVAL;
use crate::sstable::block::{block_size, encode_entries, encode_entry, restart_points, shared_len, KeyValue};

verus! {

/// The entries of the block that is being filled after `entries` have been
/// added to a table with blocks of `size` bytes.
pub open spec fn open_after(entries: Seq<KeyValue>, size: usize) -> Seq<KeyValue>
    decreases entries.len(),
{
    if entries.len() == 0 {
        Seq::<KeyValue>::empty()
    } else {
        let filled = open_after(entries.drop_last(), size).push(entries.last());
        if block_size(filled, DATA_RESTART_INTERVAL) >= size {
            Seq::<KeyValue>::empty()
        } else {
            filled
        }
    }
}

/// Whether the last of the entries has closed a block.
pub open spec fn closes(entries: Seq<KeyValue>, size: usize) -> bool {
    entries.len() > 0 && block_size(
        open_after(entries.drop_last(), size).push(entries.last()),
        DATA_RESTART_INTERVAL,
    ) >= size
}

/// The last keys of the blocks that have been closed.
pub open spec fn closed_keys(entries: Seq<KeyValue>, size: usize) -> Seq<Seq<u8>>
    decreases entries.len(),
{
    if entries.len() == 0 {
        Seq::<Seq<u8>>::empty()
    } else if closes(entries, size) {
        closed_keys(entries.drop_last(), size).push(entries.last().key)
    } else {
        closed_keys(entries.drop_last(), size)
    }
}

/// The keys that the index holds: the last keys of the closed blocks, but
/// for a block that the last entry has closed.
pub open spec fn indexed_keys(entries: Seq<KeyValue>, size: usize) -> Seq<Seq<u8>> {
    if closes(entries, size) {
        closed_keys(entries, size).drop_last()
    } else {
        closed_keys(entries, size)
    }
}

/// Index entries with the given keys; a handle takes sixteen bytes,
/// whatever it points at.
pub open spec fn index_of_keys(keys: Seq<Seq<u8>>) -> Seq<KeyValue> {
    Seq::new(keys.len(), |j: int| KeyValue { key: keys[j], value: Seq::new(16, |i: int| 0u8) })
}

/// Whether the index has room for one more entry, with the key `key`.
pub open spec fn index_takes(keys: Seq<Seq<u8>>, key: Seq<u8>) -> bool {
    block_size(index_of_keys(keys), 1) + 32 + key.len() <= u32::MAX
}

/// Whether a table that holds `before` takes `kv` as its next entry: the key
/// is not empty and comes after the last key, the block that is being filled
/// stays within its four bytes of length, the index has room for the block
/// that the last entry has closed, and the entries can still be counted.
pub open spec fn takes_next(before: Seq<KeyValue>, kv: KeyValue, size: usize) -> bool {
    &&& kv.key.len() > 0
    &&& before.len() > 0 ==> key_lt(before.last().key, kv.key)
    &&& block_size(open_after(before, size), DATA_RESTART_INTERVAL) + 16 + kv.key.len()
        + kv.value.len() <= u32::MAX
    &&& closes(before, size) ==> index_takes(indexed_keys(before, size), before.last().key)
    &&& before.len() < u64::MAX
}

/// Whether a table takes the entries one after the other.
pub open spec fn takes_all(entries: Seq<KeyValue>, size: usize) -> bool
    decreases entries.len(),
{
    entries.len() == 0 || (takes_all(entries.drop_last(), size) && takes_next(
        entries.drop_last(),
        entries.last(),
        size,
    ))
}

/// Whether a table that holds the entries can be finished: the index has
/// room for the last block, and a filter of `bits` bits for every key can
/// be made.
pub open spec fn can_end(entries: Seq<KeyValue>, size: usize, bits: Option<usize>) -> bool {
    &&& entries.len() > 0 ==> index_takes(indexed_keys(entries, size), entries.last().key)
    &&& bits matches Some(b) ==> entries.len() * b <= usize::MAX - 7
}

/// Whether the entries make a table with blocks of `block_size` bytes and a
/// filter of `bits` bits for every key, if it gets one: the table takes the
/// entries one after the other and can be finished, and the entries can be
/// counted.
pub open spec fn fits(
    entries: Seq<KeyValue>,
    block_size: usize,
    bits: Option<usize>,
    compression: CompressionType,
) -> bool {
    takes_all(entries, block_size) && can_end(entries, block_size, bits) && entries.len()
        <= usize::MAX && compresses(entries, block_size, compression)
}

/// Whether the compressor takes every block that the entries close.
pub open spec fn blocks_compress(
    entries: Seq<KeyValue>,
    size: usize,
    compression: CompressionType,
) -> bool
    decreases entries.len(),
{
    entries.len() == 0 || (blocks_compress(entries.drop_last(), size, compression) && (closes(
        entries,
        size,
    ) ==> codec_takes(
        compression,
        block_size(
            open_after(entries.drop_last(), size).push(entries.last()),
            DATA_RESTART_INTERVAL,
        ),
    )))
}

/// Whether the compressor takes every block of the table of the entries:
/// the blocks that the entries close, and the block that is left open
/// behind them.
pub open spec fn compresses(entries: Seq<KeyValue>, size: usize, compression: CompressionType)
    -> bool {
    blocks_compress(entries, size, compression) && (open_after(entries, size).len() > 0
        ==> codec_takes(
        compression,
        block_size(open_after(entries, size), DATA_RESTART_INTERVAL),
    ))
}

/// Where the compressor takes the blocks of entries it takes the blocks of
/// every beginning of them.
pub proof fn lemma_compress_beginning(
    entries: Seq<KeyValue>,
    part: Seq<KeyValue>,
    size: usize,
    compression: CompressionType,
)
    requires
        blocks_compress(entries, size, compression),
        begins(part, entries),
    ensures
        blocks_compress(part, size, compression),
    decreases entries.len(),
{
    if part.len() == entries.len() {
        assert(entries.subrange(0, entries.len() as int) =~= entries);
    } else {
        let front = entries.drop_last();
        assert(front.subrange(0, part.len() as int) =~= entries.subrange(0, part.len() as int));
        lemma_compress_beginning(front, part, size, compression);
    }
}

/// Whether `a` is the beginning of `b`.
pub open spec fn begins(a: Seq<KeyValue>, b: Seq<KeyValue>) -> bool {
    a.len() <= b.len() && b.subrange(0, a.len() as int) == a
}

/// What the blocks are after one more entry.
pub proof fn lemma_layout_step(before: Seq<KeyValue>, kv: KeyValue, size: usize)
    ensures
        closes(before.push(kv), size) == (block_size(
            open_after(before, size).push(kv),
            DATA_RESTART_INTERVAL,
        ) >= size),
        open_after(before.push(kv), size) == if closes(before.push(kv), size) {
            Seq::<KeyValue>::empty()
        } else {
            open_after(before, size).push(kv)
        },
        closed_keys(before.push(kv), size) == if closes(before.push(kv), size) {
            closed_keys(before, size).push(kv.key)
        } else {
            closed_keys(before, size)
        },
        takes_all(before.push(kv), size) == (takes_all(before, size) && takes_next(
            before,
            kv,
            size,
        )),
        forall|c: CompressionType| #[trigger]
            blocks_compress(before.push(kv), size, c) == (blocks_compress(before, size, c) && (
            closes(before.push(kv), size) ==> codec_takes(
                c,
                block_size(open_after(before, size).push(kv), DATA_RESTART_INTERVAL),
            ))),
{
    assert(before.push(kv).drop_last() =~= before);
}

/// A table that takes entries takes every beginning of them, and the entry
/// behind the beginning.
pub proof fn lemma_takes_beginning(entries: Seq<KeyValue>, part: Seq<KeyValue>, size: usize)
    requires
        takes_all(entries, size),
        begins(part, entries),
    ensures
        takes_all(part, size),
        part.len() < entries.len() ==> takes_next(part, entries[part.len() as int], size),
    decreases entries.len(),
{
    if part.len() == entries.len() {
        assert(entries.subrange(0, entries.len() as int) =~= entries);
    } else {
        let front = entries.drop_last();
        assert(front.subrange(0, part.len() as int) =~= entries.subrange(0, part.len() as int));
        lemma_takes_beginning(front, part, size);
        if part.len() == front.len() {
            assert(front.subrange(0, front.len() as int) =~= front);
        } else {
            assert(front[part.len() as int] == entries[part.len() as int]);
        }
    }
}

/// The size of a block depends on the keys of its entries and on the
/// lengths of their values alone.
pub proof fn lemma_block_size_by_lengths(a: Seq<KeyValue>, b: Seq<KeyValue>, interval: usize)
    requires
        a.len() == b.len(),
        forall|i: int|
            0 <= i < a.len() ==> (#[trigger] a[i]).key == b[i].key && a[i].value.len()
                == b[i].value.len(),
    ensures
        encode_entries(a, interval).len() == encode_entries(b, interval).len(),
        restart_points(a, interval).len() == restart_points(b, interval).len(),
        block_size(a, interval) == block_size(b, interval),
    decreases a.len(),
{
    if a.len() > 0 {
        let fa = a.drop_last();
        let fb = b.drop_last();
        assert forall|i: int| 0 <= i < fa.len() implies (#[trigger] fa[i]).key == fb[i].key
            && fa[i].value.len() == fb[i].value.len() by {
            assert(fa[i] == a[i]);
            assert(fb[i] == b[i]);
        }
        lemma_block_size_by_lengths(fa, fb, interval);
        let last = a.len() - 1;
        assert(a[last].key == b[last].key);
        if last > 0 {
            assert(a[last - 1].key == b[last - 1].key);
            lemma_common_prefix_len(a[last - 1].key, a[last].key);
        }
        assert(shared_len(a, last, interval) == shared_len(b, last, interval));
        lemma_auto_spec_u32_to_from_le_bytes();
        let shared = shared_len(a, last, interval);
        assert(encode_entry(shared, a[last]).len() == encode_entry(shared, b[last]).len());
    }
}

} // verus!
