//! What the files of a directory say of a database: the tables that the
//! manifest names and that are there, and the memory that replaying the
//! newest log gives.

use vstd::prelude::*;
use crate::compaction::manifest::{initial_state, manifest_state, VersionState};
use crate::compaction::version::FileMetaView;
use crate::db::{apply_ops, keys_not_empty, ops_weight, spec_manifest_id, TableView};
use crate::error::ErrorKind;
use crate::memtable::skiplist::{empty_contents, EntryKey};
use crate::sstable::reader::table_index;
use crate::storage::{FileId, FileKind};
use crate::wal::reader::recover_from;
use crate::wal::recovery::{ends_cleanly, lemma_empty_log, lemma_recover_append};
use crate::wal::writer::frame_entry;
use crate::write_batch::{encode_batch, lemma_batch_round_trip};
use crate::write_batch::{decode_batch, WriteOpView};

verus! {

/// The memory of an engine: the versions in its MemTables and the last
/// sequence number that it has handed out.
pub struct MemoryView {
    /// The versions in the active MemTable.
    pub active: Map<EntryKey, Seq<u8>>,
    /// The size of the active MemTable.
    pub active_size: usize,
    /// The versions in the frozen MemTables, the oldest MemTable first.
    pub frozen: Seq<Map<EntryKey, Seq<u8>>>,
    /// The last sequence number handed out.
    pub sequence: u64,
}

/// A memory without versions.
pub open spec fn empty_memory(sequence: u64) -> MemoryView {
    MemoryView {
        active: empty_contents(),
        active_size: 0,
        frozen: Seq::empty(),
        sequence,
    }
}

/// Whether a memory whose MemTable is frozen at `limit` bytes can take
/// writes: no key is empty, there are sequence numbers left for them, and
/// the size of a MemTable that holds them stays countable.
pub open spec fn takes(m: MemoryView, ops: Seq<WriteOpView>, limit: usize) -> bool {
    &&& keys_not_empty(ops)
    &&& m.sequence + ops.len() <= u64::MAX
    &&& limit + ops_weight(ops) <= usize::MAX
}

/// The memory after writes that it could take: each write has got the
/// next sequence number, and the active MemTable holds the writes, or,
/// when they have filled it up to `limit`, is frozen with them. No writes
/// at all change nothing.
pub open spec fn memory_after(m: MemoryView, ops: Seq<WriteOpView>, limit: usize) -> MemoryView {
    let applied = apply_ops(m.active, ops, m.sequence);
    if ops.len() == 0 {
        m
    } else if m.active_size + ops_weight(ops) >= limit {
        MemoryView {
            active: empty_contents(),
            active_size: 0,
            frozen: m.frozen.push(applied),
            sequence: (m.sequence + ops.len()) as u64,
        }
    } else {
        MemoryView {
            active: applied,
            active_size: (m.active_size + ops_weight(ops)) as usize,
            frozen: m.frozen,
            sequence: (m.sequence + ops.len()) as u64,
        }
    }
}

/// The memory after the batches of a log, the first batch first.
pub open spec fn replayed(m: MemoryView, batches: Seq<Seq<WriteOpView>>, limit: usize) -> MemoryView
    decreases batches.len(),
{
    if batches.len() == 0 {
        m
    } else {
        memory_after(replayed(m, batches.drop_last(), limit), batches.last(), limit)
    }
}

/// Whether the memory can take every batch of a log in its turn.
pub open spec fn replay_fits(m: MemoryView, batches: Seq<Seq<WriteOpView>>, limit: usize) -> bool
    decreases batches.len(),
{
    batches.len() == 0 || (replay_fits(m, batches.drop_last(), limit) && takes(
        replayed(m, batches.drop_last(), limit),
        batches.last(),
        limit,
    ))
}

/// Batches that can be replayed can be replayed up to any one of them.
pub proof fn lemma_replay_prefix(
    m: MemoryView,
    batches: Seq<Seq<WriteOpView>>,
    limit: usize,
    i: int,
)
    requires
        replay_fits(m, batches, limit),
        0 <= i < batches.len(),
    ensures
        replay_fits(m, batches.subrange(0, i), limit),
        takes(replayed(m, batches.subrange(0, i), limit), batches[i], limit),
    decreases batches.len(),
{
    if i == batches.len() - 1 {
        assert(batches.subrange(0, i) =~= batches.drop_last());
    } else {
        lemma_replay_prefix(m, batches.drop_last(), limit, i);
        assert(batches.drop_last().subrange(0, i) =~= batches.subrange(0, i));
    }
}

/// Whether every entry of a log is a batch.
pub open spec fn all_decode(entries: Seq<Seq<u8>>) -> bool {
    forall|i: int| 0 <= i < entries.len() ==> decode_batch(#[trigger] entries[i]) is Some
}

/// The batches that the entries of a log stand for.
pub open spec fn decoded(entries: Seq<Seq<u8>>) -> Seq<Seq<WriteOpView>> {
    Seq::new(entries.len(), |i: int| decode_batch(entries[i]).unwrap())
}

/// The file of the table with the given number.
pub open spec fn table_id(number: u64) -> FileId {
    FileId { kind: FileKind::Table, number }
}

/// The file of the log with the given number.
pub open spec fn log_id(number: u64) -> FileId {
    FileId { kind: FileKind::Log, number }
}

/// A table that the manifest names, with the file that was found for it;
/// its size is that of the file.
pub open spec fn found_table(meta: FileMetaView, file: Seq<u8>) -> TableView {
    TableView {
        meta: FileMetaView {
            file_number: meta.file_number,
            file_size: file.len() as u64,
            smallest_key: meta.smallest_key,
            largest_key: meta.largest_key,
        },
        file,
    }
}

/// The tables of a level of the manifest whose files are there, in the
/// order of the level.
pub open spec fn present_tables(metas: Seq<FileMetaView>, dir: Map<FileId, Seq<u8>>) -> Seq<
    TableView,
>
    decreases metas.len(),
{
    if metas.len() == 0 {
        Seq::empty()
    } else {
        let rest = present_tables(metas.drop_last(), dir);
        let id = table_id(metas.last().file_number);
        if dir.dom().contains(id) {
            rest.push(found_table(metas.last(), dir[id]))
        } else {
            rest
        }
    }
}

/// The numbers of the tables of a level of the manifest whose files are
/// not there, in the order of the level.
pub open spec fn absent_tables(metas: Seq<FileMetaView>, dir: Map<FileId, Seq<u8>>) -> Seq<u64>
    decreases metas.len(),
{
    if metas.len() == 0 {
        Seq::empty()
    } else {
        let rest = absent_tables(metas.drop_last(), dir);
        if dir.dom().contains(table_id(metas.last().file_number)) {
            rest
        } else {
            rest.push(metas.last().file_number)
        }
    }
}

/// The numbers of the tables of the first `upto` levels whose files are
/// not there, level by level.
pub open spec fn absent_below(
    levels: Seq<Seq<FileMetaView>>,
    dir: Map<FileId, Seq<u8>>,
    upto: int,
) -> Seq<u64>
    decreases upto,
{
    if upto <= 0 || upto > levels.len() {
        Seq::empty()
    } else {
        absent_below(levels, dir, upto - 1) + absent_tables(levels[upto - 1], dir)
    }
}

/// Whether every file that is there for a table of the level can be
/// opened as a table.
pub open spec fn tables_readable(metas: Seq<FileMetaView>, dir: Map<FileId, Seq<u8>>) -> bool {
    forall|j: int|
        0 <= j < metas.len() && dir.dom().contains(table_id((#[trigger] metas[j]).file_number))
            ==> table_index(dir[table_id(metas[j].file_number)]) is Ok
}

/// Whether `number` is the number of the log to replay: the highest
/// number of a log in the directory, and 1 where there is no log above 0.
pub open spec fn is_newest_log(dir: Map<FileId, Seq<u8>>, number: u64) -> bool {
    &&& number >= 1
    &&& forall|m: u64| #[trigger] dir.dom().contains(log_id(m)) ==> m <= number
    &&& number == 1 || dir.dom().contains(log_id(number))
}

/// The number of the log to replay.
pub open spec fn newest_log(dir: Map<FileId, Seq<u8>>) -> u64 {
    choose|n: u64| is_newest_log(dir, n)
}

/// There is one log to replay.
pub proof fn lemma_newest_log(dir: Map<FileId, Seq<u8>>, number: u64)
    requires
        is_newest_log(dir, number),
    ensures
        newest_log(dir) == number,
{
    let other = newest_log(dir);
    assert(is_newest_log(dir, other));
    if other < number {
        assert(dir.dom().contains(log_id(number)));
    } else if other > number {
        assert(dir.dom().contains(log_id(other)));
    }
}

/// The bytes of the log to replay; none where the file is not there.
pub open spec fn log_to_replay(dir: Map<FileId, Seq<u8>>) -> Seq<u8> {
    let id = log_id(newest_log(dir));
    if dir.dom().contains(id) {
        dir[id]
    } else {
        Seq::empty()
    }
}

/// The state that the manifest of the directory records; that of a new
/// database where there is no manifest.
pub open spec fn recorded(dir: Map<FileId, Seq<u8>>, max_levels: usize) -> Result<
    VersionState,
    ErrorKind,
> {
    if dir.dom().contains(spec_manifest_id()) {
        manifest_state(dir[spec_manifest_id()], max_levels)
    } else {
        Ok(initial_state(max_levels))
    }
}

/// The batches of the log to replay.
pub open spec fn logged(dir: Map<FileId, Seq<u8>>) -> Seq<Seq<WriteOpView>> {
    decoded(recover_from(log_to_replay(dir), 0))
}

/// Whether table `j` of level `l` of the manifest is taken over: the level
/// is one of the first `max_levels`, and the file of the table is there.
pub open spec fn present(
    levels: Seq<Seq<FileMetaView>>,
    dir: Map<FileId, Seq<u8>>,
    max_levels: usize,
    l: int,
    j: int,
) -> bool {
    0 <= l < levels.len() && l < max_levels && 0 <= j < levels[l].len() && dir.dom().contains(
        table_id(levels[l][j].file_number),
    )
}

/// Whether the file numbers of the tables that are taken over are sound:
/// none is the largest number there is, which is never handed out, and no
/// two tables have the same.
pub open spec fn numbers_sound(
    levels: Seq<Seq<FileMetaView>>,
    dir: Map<FileId, Seq<u8>>,
    max_levels: usize,
) -> bool {
    &&& forall|l: int, j: int| #[trigger]
        present(levels, dir, max_levels, l, j) ==> levels[l][j].file_number < u64::MAX
    &&& forall|a: int, b: int, c: int, d: int|
        #![trigger present(levels, dir, max_levels, a, b), present(levels, dir, max_levels, c, d)]
        present(levels, dir, max_levels, a, b) && present(levels, dir, max_levels, c, d) && (a
            != c || b != d) ==> levels[a][b].file_number != levels[c][d].file_number
}

/// Where a table that was found stands in its level of the manifest.
pub proof fn lemma_present_origin(metas: Seq<FileMetaView>, dir: Map<FileId, Seq<u8>>, t: int) -> (j:
    int)
    requires
        0 <= t < present_tables(metas, dir).len(),
    ensures
        0 <= j < metas.len(),
        dir.dom().contains(table_id(metas[j].file_number)),
        present_tables(metas, dir)[t] == found_table(metas[j], dir[table_id(metas[j].file_number)]),
    decreases metas.len(),
{
    let rest = present_tables(metas.drop_last(), dir);
    if dir.dom().contains(table_id(metas.last().file_number)) && t == rest.len() {
        metas.len() - 1
    } else {
        let j = lemma_present_origin(metas.drop_last(), dir, t);
        assert(metas.drop_last()[j] == metas[j]);
        j
    }
}

/// Where a table of the manifest whose file is there stands among the
/// tables that were found.
pub proof fn lemma_present_index(metas: Seq<FileMetaView>, dir: Map<FileId, Seq<u8>>, j: int) -> (t:
    int)
    requires
        0 <= j < metas.len(),
        dir.dom().contains(table_id(metas[j].file_number)),
    ensures
        0 <= t < present_tables(metas, dir).len(),
        present_tables(metas, dir)[t] == found_table(metas[j], dir[table_id(metas[j].file_number)]),
    decreases metas.len(),
{
    let rest = present_tables(metas.drop_last(), dir);
    if j == metas.len() - 1 {
        rest.len() as int
    } else {
        assert(metas.drop_last()[j] == metas[j]);
        lemma_present_index(metas.drop_last(), dir, j)
    }
}

/// Two tables of the manifest whose files are there stand among the
/// tables that were found in the order of the manifest.
pub proof fn lemma_present_pair(
    metas: Seq<FileMetaView>,
    dir: Map<FileId, Seq<u8>>,
    a: int,
    b: int,
) -> (at: (int, int))
    requires
        0 <= a < b < metas.len(),
        dir.dom().contains(table_id(metas[a].file_number)),
        dir.dom().contains(table_id(metas[b].file_number)),
    ensures
        0 <= at.0 < at.1 < present_tables(metas, dir).len(),
        present_tables(metas, dir)[at.0] == found_table(
            metas[a],
            dir[table_id(metas[a].file_number)],
        ),
        present_tables(metas, dir)[at.1] == found_table(
            metas[b],
            dir[table_id(metas[b].file_number)],
        ),
    decreases metas.len(),
{
    let rest = present_tables(metas.drop_last(), dir);
    if b == metas.len() - 1 {
        assert(metas.drop_last()[a] == metas[a]);
        let t = lemma_present_index(metas.drop_last(), dir, a);
        (t, rest.len() as int)
    } else {
        assert(metas.drop_last()[a] == metas[a]);
        assert(metas.drop_last()[b] == metas[b]);
        lemma_present_pair(metas.drop_last(), dir, a, b)
    }
}

/// Tables that were found with distinct file numbers below a bound were
/// found of a manifest whose file numbers are sound.
pub proof fn lemma_numbers_sound(
    tables: Seq<Seq<TableView>>,
    levels: Seq<Seq<FileMetaView>>,
    dir: Map<FileId, Seq<u8>>,
    max_levels: usize,
    bound: u64,
)
    requires
        tables.len() == max_levels,
        levels.len() == max_levels,
        forall|l: int| 0 <= l < max_levels ==> #[trigger] tables[l] == present_tables(levels[l], dir),
        crate::table_numbers::distinct_numbers(tables),
        crate::table_numbers::numbers_below(tables, bound),
    ensures
        numbers_sound(levels, dir, max_levels),
{
    assert forall|l: int, j: int| #[trigger] present(levels, dir, max_levels, l, j) implies levels[l][j].file_number
        < u64::MAX by {
        let t = lemma_present_index(levels[l], dir, j);
        assert(tables[l][t].meta.file_number == levels[l][j].file_number);
    }
    assert forall|a: int, b: int, c: int, d: int|
        #![trigger present(levels, dir, max_levels, a, b), present(levels, dir, max_levels, c, d)]
        present(levels, dir, max_levels, a, b) && present(levels, dir, max_levels, c, d) && (a != c
            || b != d) implies levels[a][b].file_number != levels[c][d].file_number by {
        if a != c {
            let s = lemma_present_index(levels[a], dir, b);
            let t = lemma_present_index(levels[c], dir, d);
            assert(tables[a][s].meta.file_number != tables[c][t].meta.file_number);
        } else if b < d {
            let at = lemma_present_pair(levels[a], dir, b, d);
            assert(tables[a][at.0].meta.file_number != tables[a][at.1].meta.file_number);
        } else {
            let at = lemma_present_pair(levels[a], dir, d, b);
            assert(tables[a][at.0].meta.file_number != tables[a][at.1].meta.file_number);
        }
    }
}

/// Whether the files make up a database: the manifest can be replayed,
/// every table file that it names and that is there can be opened, no two
/// of these tables have the same file number, and the log to replay holds
/// batches that can be written again.
pub open spec fn restorable(dir: Map<FileId, Seq<u8>>, max_levels: usize, limit: usize) -> bool {
    &&& recorded(dir, max_levels) matches Ok(state) && {
        &&& forall|l: int|
            0 <= l < state.levels.len() && l < max_levels ==> tables_readable(
                #[trigger] state.levels[l],
                dir,
            )
        &&& numbers_sound(state.levels, dir, max_levels)
        &&& replay_fits(empty_memory(state.sequence), logged(dir), limit)
    }
    &&& all_decode(recover_from(log_to_replay(dir), 0))
}

/// Whether a batch can be written whatever the memory holds: no key is
/// empty, and the size of a MemTable that holds it stays countable.
pub open spec fn batch_ok(ops: Seq<WriteOpView>, limit: usize) -> bool {
    keys_not_empty(ops) && limit + ops_weight(ops) <= usize::MAX
}

/// The number of writes of the batches.
pub open spec fn total_ops(batches: Seq<Seq<WriteOpView>>) -> nat
    decreases batches.len(),
{
    if batches.len() == 0 {
        0
    } else {
        total_ops(batches.drop_last()) + batches.last().len()
    }
}

/// Whether the batches can be written again from sequence number `first`
/// on without going over `last`.
pub open spec fn batches_sound(
    batches: Seq<Seq<WriteOpView>>,
    limit: usize,
    first: u64,
    last: u64,
) -> bool {
    &&& forall|i: int| 0 <= i < batches.len() ==> batch_ok(#[trigger] batches[i], limit)
    &&& first + total_ops(batches) <= last
}

/// Whether a log is one of batches that can be written again: it ends
/// cleanly, every entry is a batch, and the batches can be written again
/// from `first` on without going over `last`.
pub closed spec fn log_sound(log: Seq<u8>, limit: usize, first: u64, last: u64) -> bool {
    &&& ends_cleanly(log, 0)
    &&& all_decode(recover_from(log, 0))
    &&& batches_sound(decoded(recover_from(log, 0)), limit, first, last)
}

/// Batches that can be written again are replayed, and the replay ends at
/// the sequence number that counts them.
pub proof fn lemma_sound_replays(batches: Seq<Seq<WriteOpView>>, limit: usize, first: u64, last: u64)
    requires
        batches_sound(batches, limit, first, last),
    ensures
        replay_fits(empty_memory(first), batches, limit),
        replayed(empty_memory(first), batches, limit).sequence == first + total_ops(batches),
    decreases batches.len(),
{
    if batches.len() > 0 {
        let front = batches.drop_last();
        assert forall|i: int| 0 <= i < front.len() implies batch_ok(#[trigger] front[i], limit) by {
            assert(front[i] == batches[i]);
        }
        lemma_sound_replays(front, limit, first, last);
        assert(batch_ok(batches[batches.len() - 1], limit));
    }
}

/// An empty log is a log of batches that can be written again.
pub proof fn lemma_empty_log_sound(limit: usize, first: u64, last: u64)
    requires
        first <= last,
    ensures
        log_sound(Seq::<u8>::empty(), limit, first, last),
{
    lemma_empty_log();
    assert(decoded(recover_from(Seq::<u8>::empty(), 0)) =~= Seq::<Seq<WriteOpView>>::empty());
}

/// A log of batches that can be written again stays one when a batch that
/// can be written is logged behind them.
pub proof fn lemma_log_sound_append(
    log: Seq<u8>,
    ops: Seq<WriteOpView>,
    limit: usize,
    first: u64,
    last: u64,
)
    requires
        log_sound(log, limit, first, last),
        batch_ok(ops, limit),
        last + ops.len() <= u64::MAX,
    ensures
        log_sound(log + frame_entry(encode_batch(ops)), limit, first, (last + ops.len()) as u64),
        recover_from(log + frame_entry(encode_batch(ops)), 0) == recover_from(log, 0).push(
            encode_batch(ops),
        ),
        decoded(recover_from(log + frame_entry(encode_batch(ops)), 0)) == decoded(
            recover_from(log, 0),
        ).push(ops),
{
    crate::db_laws::lemma_counted_writes_fit(ops);
    lemma_batch_round_trip(ops);
    lemma_recover_append(log, encode_batch(ops), 0);
    let before = recover_from(log, 0);
    let after = recover_from(log + frame_entry(encode_batch(ops)), 0);
    assert(after == before.push(encode_batch(ops)));
    assert(decoded(after) =~= decoded(before).push(ops));
    assert(decoded(after).drop_last() =~= decoded(before));
    assert forall|i: int| 0 <= i < after.len() implies decode_batch(#[trigger] after[i]) is Some by {
        if i < before.len() {
            assert(after[i] == before[i]);
        }
    }
    assert forall|i: int| 0 <= i < decoded(after).len() implies batch_ok(
        #[trigger] decoded(after)[i],
        limit,
    ) by {
        if i < before.len() {
            assert(decoded(after)[i] == decoded(before)[i]);
        }
    }
}

/// A log of batches that can be written again without going over a
/// sequence number can be so without going over a later one.
pub proof fn lemma_log_sound_later(log: Seq<u8>, limit: usize, first: u64, last: u64, later: u64)
    requires
        log_sound(log, limit, first, last),
        last <= later,
    ensures
        log_sound(log, limit, first, later),
{
}

/// What a log of batches that can be written again gives: it ends
/// cleanly, every entry of it is a batch, and the batches are replayed.
pub proof fn lemma_log_sound(log: Seq<u8>, limit: usize, first: u64, last: u64)
    requires
        log_sound(log, limit, first, last),
    ensures
        ends_cleanly(log, 0),
        all_decode(recover_from(log, 0)),
        batches_sound(decoded(recover_from(log, 0)), limit, first, last),
        replay_fits(empty_memory(first), decoded(recover_from(log, 0)), limit),
{
    lemma_sound_replays(decoded(recover_from(log, 0)), limit, first, last);
}

} // verus!
