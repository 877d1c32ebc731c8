//! What reading a table gives back of what was built into it.

use vstd::prelude::*;
use crate::config::CompressionType;
use crate::error::ErrorKind;
use crate::key_order::{key_lt, lemma_key_lt_asymmetric, lemma_key_lt_irreflexive};
use crate::sstable::block::{block_entries, encode_block, sorted_entries, KeyValue};
use crate::sstable::block_laws::lemma_block_round_trip;
use crate::sstable::builder::{all_entries, block_start, blocks_written, built_table, index_entries_of, index_entry_of, is_table_of, lemma_block_position, lemma_block_sorted, lemma_block_start_end, lemma_blocks_in_order, lemma_read_held_block, BlockInfo, DATA_RESTART_INTERVAL};
use crate::sstable::footer::{decode_handle, lemma_handle_round_trip};
use crate::sstable::index::{first_not_below, lemma_first_not_below_skip, lookup_index};
use crate::sstable::reader::{blocks_entries, read_block, scan_for, table_entries, table_filter, table_find, table_index};

verus! {

/// The search for the first key that is not below ends inside the entries
/// or right behind them.
pub proof fn lemma_first_not_below_bounds(entries: Seq<KeyValue>, key: Seq<u8>, i: int)
    requires
        0 <= i <= entries.len(),
    ensures
        i <= first_not_below(entries, key, i) <= entries.len(),
    decreases entries.len() - i,
{
    if i < entries.len() && key_lt(entries[i].key, key) {
        lemma_first_not_below_bounds(entries, key, i + 1);
    }
}

/// In entries in key order the scan finds the value of a key that is there.
pub proof fn lemma_scan_finds(entries: Seq<KeyValue>, i: int, from: int)
    requires
        sorted_entries(entries),
        0 <= from <= i < entries.len(),
    ensures
        scan_for(entries, entries[i].key, from) == Some(entries[i].value),
    decreases i - from,
{
    if from < i {
        assert(key_lt(entries[from].key, entries[i].key));
        lemma_key_lt_asymmetric(entries[from].key, entries[i].key);
        lemma_scan_finds(entries, i, from + 1);
    }
}

/// The scan finds nothing for a key that is not there.
pub proof fn lemma_scan_misses(entries: Seq<KeyValue>, key: Seq<u8>, from: int)
    requires
        0 <= from <= entries.len(),
        forall|i: int| 0 <= i < entries.len() ==> (#[trigger] entries[i]).key != key,
    ensures
        scan_for(entries, key, from) is None,
    decreases entries.len() - from,
{
    if from < entries.len() {
        lemma_scan_misses(entries, key, from + 1);
    }
}

/// The block and the place in it of the entry at `p` of all entries.
pub proof fn lemma_locate(blocks: Seq<BlockInfo>, p: int) -> (at: (int, int))
    requires
        0 <= p < all_entries(blocks).len(),
    ensures
        0 <= at.0 < blocks.len(),
        0 <= at.1 < blocks[at.0].entries.len(),
        block_start(blocks, at.0) + at.1 == p,
        all_entries(blocks)[p] == blocks[at.0].entries[at.1],
    decreases blocks.len(),
{
    let n = blocks.len() as int;
    let front = blocks.drop_last();
    lemma_block_start_end(front);
    assert(blocks.subrange(0, n - 1) =~= front);
    if p >= all_entries(front).len() {
        let at = (n - 1, p - all_entries(front).len());
        lemma_block_position(blocks, at.0, at.1);
        at
    } else {
        let at = lemma_locate(front, p);
        assert(front[at.0] == blocks[at.0]);
        assert(front.subrange(0, at.0) =~= blocks.subrange(0, at.0));
        lemma_block_position(blocks, at.0, at.1);
        at
    }
}

/// The index of a built table leads a lookup of a key that is in block `j`
/// to block `j`.
proof fn lemma_index_leads_to_block(blocks: Seq<BlockInfo>, j: int, i: int)
    requires
        sorted_entries(all_entries(blocks)),
        forall|t: int| 0 <= t < blocks.len() ==> (#[trigger] blocks[t]).entries.len() > 0,
        0 <= j < blocks.len(),
        0 <= i < blocks[j].entries.len(),
    ensures
        lookup_index(index_entries_of(blocks, blocks.len() as int), blocks[j].entries[i].key)
            == Some(j),
{
    let index = index_entries_of(blocks, blocks.len() as int);
    let key = blocks[j].entries[i].key;
    assert forall|t: int| 0 <= t < j implies key_lt((#[trigger] index[t]).key, key) by {
        assert(blocks[t].entries.len() > 0);
        lemma_blocks_in_order(blocks, t, blocks[t].entries.len() - 1, j, i);
    }
    lemma_first_not_below_skip(index, key, j);
    let last = blocks[j].entries.len() - 1;
    assert(index[j].key == blocks[j].entries[last].key);
    if i == last {
        lemma_key_lt_irreflexive(key);
    } else {
        lemma_block_sorted(blocks, j);
        assert(key_lt(blocks[j].entries[i].key, blocks[j].entries[last].key));
        lemma_key_lt_asymmetric(key, index[j].key);
    }
    assert(first_not_below(index, key, j) == j);
}

/// A built table holds for every key of every block the value that was
/// built in.
pub proof fn lemma_built_table_finds(file: Seq<u8>, blocks: Seq<BlockInfo>, j: int, i: int)
    requires
        built_table(file, blocks),
        0 <= j < blocks.len(),
        0 <= i < blocks[j].entries.len(),
    ensures
        table_find(file, blocks[j].entries[i].key) == Ok::<Option<Seq<u8>>, ErrorKind>(
            Some(blocks[j].entries[i].value),
        ),
{
    let n = blocks.len() as int;
    let index = index_entries_of(blocks, n);
    let key = blocks[j].entries[i].key;
    let entries = blocks[j].entries;
    lemma_block_round_trip(index, 1);
    assert(block_entries(table_index(file)->Ok_0) == index);
    lemma_block_position(blocks, j, i);
    assert(all_entries(blocks)[block_start(blocks, j) + i].key == key);
    assert forall|t: int| 0 <= t < blocks.len() implies (#[trigger] blocks[t]).entries.len()
        > 0 by {}
    lemma_index_leads_to_block(blocks, j, i);
    assert(index[j] == index_entry_of(blocks[j]));
    lemma_handle_round_trip(blocks[j].handle);
    lemma_read_held_block(
        file,
        blocks[j].handle,
        blocks[j].compression,
        encode_block(entries, DATA_RESTART_INTERVAL),
    );
    lemma_block_round_trip(entries, DATA_RESTART_INTERVAL);
    lemma_block_sorted(blocks, j);
    lemma_scan_finds(entries, i, 0);
}

/// A built table holds nothing for a key that was not built in.
pub proof fn lemma_built_table_misses(file: Seq<u8>, blocks: Seq<BlockInfo>, key: Seq<u8>)
    requires
        built_table(file, blocks),
        forall|p: int| 0 <= p < all_entries(blocks).len() ==> (#[trigger] all_entries(blocks)[p]).key
            != key,
    ensures
        table_find(file, key) == Ok::<Option<Seq<u8>>, ErrorKind>(None),
{
    let n = blocks.len() as int;
    let index = index_entries_of(blocks, n);
    lemma_block_round_trip(index, 1);
    assert(block_entries(table_index(file)->Ok_0) == index);
    if table_filter(file) is Some && !table_filter(file)->0.may_contain(key) {
    } else {
        match lookup_index(index, key) {
            None => {},
            Some(t) => {
                lemma_first_not_below_bounds(index, key, 0);
                assert(0 <= t < n);
                let entries = blocks[t].entries;
                assert(index[t] == index_entry_of(blocks[t]));
                lemma_handle_round_trip(blocks[t].handle);
                lemma_read_held_block(
                    file,
                    blocks[t].handle,
                    blocks[t].compression,
                    encode_block(entries, DATA_RESTART_INTERVAL),
                );
                lemma_block_round_trip(entries, DATA_RESTART_INTERVAL);
                assert forall|i: int| 0 <= i < entries.len() implies (#[trigger] entries[i]).key
                    != key by {
                    lemma_block_position(blocks, t, i);
                    assert(all_entries(blocks)[block_start(blocks, t) + i].key != key);
                }
                lemma_scan_misses(entries, key, 0);
            },
        }
    }
}

/// A table that was built can be opened.
pub proof fn lemma_table_opens(file: Seq<u8>, entries: Seq<KeyValue>)
    requires
        is_table_of(file, entries),
    ensures
        table_index(file) is Ok,
{
}

/// A table holds for every key that was added the value added with it.
pub proof fn lemma_table_finds_added(file: Seq<u8>, entries: Seq<KeyValue>, p: int)
    requires
        is_table_of(file, entries),
        0 <= p < entries.len(),
    ensures
        table_find(file, entries[p].key) == Ok::<Option<Seq<u8>>, ErrorKind>(
            Some(entries[p].value),
        ),
{
    let blocks = choose|blocks: Seq<BlockInfo>| #[trigger]
        built_table(file, blocks) && all_entries(blocks) == entries;
    let at = lemma_locate(blocks, p);
    lemma_built_table_finds(file, blocks, at.0, at.1);
}

/// A table holds nothing for a key that was not added.
pub proof fn lemma_table_misses_others(file: Seq<u8>, entries: Seq<KeyValue>, key: Seq<u8>)
    requires
        is_table_of(file, entries),
        forall|p: int| 0 <= p < entries.len() ==> (#[trigger] entries[p]).key != key,
    ensures
        table_find(file, key) == Ok::<Option<Seq<u8>>, ErrorKind>(None),
{
    let blocks = choose|blocks: Seq<BlockInfo>| #[trigger]
        built_table(file, blocks) && all_entries(blocks) == entries;
    lemma_built_table_misses(file, blocks, key);
}

/// The entries of a table that was built are in key order.
pub proof fn lemma_table_sorted(file: Seq<u8>, entries: Seq<KeyValue>)
    requires
        is_table_of(file, entries),
    ensures
        sorted_entries(entries),
{
}

/// The entries of the blocks from block `i` on.
pub open spec fn entries_from(blocks: Seq<BlockInfo>, i: int) -> Seq<KeyValue>
    decreases blocks.len() - i,
{
    if i < 0 || i >= blocks.len() {
        Seq::<KeyValue>::empty()
    } else {
        blocks[i].entries + entries_from(blocks, i + 1)
    }
}

/// The entries of the first blocks and of the blocks behind them are all
/// entries.
pub proof fn lemma_entries_split(blocks: Seq<BlockInfo>, i: int)
    requires
        0 <= i <= blocks.len(),
    ensures
        all_entries(blocks.subrange(0, i)) + entries_from(blocks, i) == all_entries(blocks),
    decreases blocks.len() - i,
{
    if i == blocks.len() {
        assert(blocks.subrange(0, i) =~= blocks);
        assert(all_entries(blocks) + Seq::<KeyValue>::empty() =~= all_entries(blocks));
    } else {
        lemma_entries_split(blocks, i + 1);
        let upto = blocks.subrange(0, i + 1);
        assert(upto.drop_last() =~= blocks.subrange(0, i));
        assert(upto.last() == blocks[i]);
        assert(all_entries(blocks.subrange(0, i)) + (blocks[i].entries + entries_from(
            blocks,
            i + 1,
        )) =~= all_entries(upto) + entries_from(blocks, i + 1));
    }
}

/// Reading the blocks of a built table from block `i` on gives their
/// entries.
proof fn lemma_built_blocks_entries(file: Seq<u8>, blocks: Seq<BlockInfo>, i: int)
    requires
        blocks_written(file, blocks),
        0 <= i <= blocks.len(),
    ensures
        blocks_entries(file, index_entries_of(blocks, blocks.len() as int), i) == Ok::<
            Seq<KeyValue>,
            ErrorKind,
        >(entries_from(blocks, i)),
    decreases blocks.len() - i,
{
    let index = index_entries_of(blocks, blocks.len() as int);
    if i < blocks.len() {
        lemma_built_blocks_entries(file, blocks, i + 1);
        assert(index[i] == index_entry_of(blocks[i]));
        lemma_handle_round_trip(blocks[i].handle);
        lemma_read_held_block(
            file,
            blocks[i].handle,
            blocks[i].compression,
            encode_block(blocks[i].entries, DATA_RESTART_INTERVAL),
        );
        lemma_block_round_trip(blocks[i].entries, DATA_RESTART_INTERVAL);
    }
}

/// Reading all entries of a table that was built gives the entries that
/// were added, in the order in which they were added.
pub proof fn lemma_table_entries(file: Seq<u8>, entries: Seq<KeyValue>)
    requires
        is_table_of(file, entries),
    ensures
        table_entries(file) == Ok::<Seq<KeyValue>, ErrorKind>(entries),
{
    let blocks = choose|blocks: Seq<BlockInfo>| #[trigger]
        built_table(file, blocks) && all_entries(blocks) == entries;
    let index = index_entries_of(blocks, blocks.len() as int);
    lemma_block_round_trip(index, 1);
    assert(block_entries(table_index(file)->Ok_0) == index);
    lemma_built_blocks_entries(file, blocks, 0);
    lemma_entries_split(blocks, 0);
    assert(blocks.subrange(0, 0) =~= Seq::<BlockInfo>::empty());
    assert(Seq::<KeyValue>::empty() + entries_from(blocks, 0) =~= entries_from(blocks, 0));
}

} // verus!
