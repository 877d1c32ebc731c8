//! What the operations of the engine do to what readers see.

use vstd::prelude::*;
use crate::db::{apply_ops, database_lookup, frozen_lookup, level_lookup, levels_lookup, op_key, sequences_within, written_key, written_value, TableView, DB};
use crate::error::ErrorKind;
use crate::flush::{flattened, is_flush_of, lemma_flush_answers};
use crate::lookup::LookupView;
use crate::memtable::skiplist::{empty_contents, entry_le, EntryKey};
use crate::memtable::{entry_key, is_newest_visible, lemma_later_write_is_invisible, lemma_lookup_of_newest, lemma_newest_write_is_found, lookup_in, sequence_of, tidy, visible, ValueType};
use crate::sstable::reader::{stored_meaning, table_find};
use crate::compaction::job::compact;
use crate::compaction::job_laws::{all_sorted, first_stored, kept_value, lemma_compaction_answers, lemma_scan_found};
use crate::compaction::merge::merge_output;
use crate::compaction::merge_laws::ascending;
use crate::compaction::picker::TaskView;
use crate::compaction::version::FileMetaView;
use crate::config::Options;
use crate::db::{all_readable, covers, has_version, list_is_table, lists_table, lists_versions, meta_levels, names_key, table_is_listed, tables_without, tables_without_all, task_sources, written_by_engine};
use crate::key_order::key_le;
use crate::sstable::block::{sorted_entries, KeyValue};
use crate::sstable::builder::is_table_of;
use crate::sstable::reader::{scan_for, table_entries};
use crate::sstable::table_laws::{lemma_scan_finds, lemma_scan_misses, lemma_table_entries, lemma_table_finds_added, lemma_table_misses_others, lemma_table_sorted};
use crate::db::{ops_weight, op_weight, lemma_ops_weight_grows};
use crate::replay::{decoded, empty_memory, is_newest_log, lemma_newest_log, log_id, log_to_replay, logged, memory_after, replay_fits, replayed, takes, MemoryView};
use crate::storage::FileId;
use crate::wal::reader::recover_from;
use crate::wal::recovery::lemma_recover_append;
use crate::wal::writer::frame_entry;
use crate::write_batch::{decode_batch, encode_batch, lemma_batch_round_trip, op_fits, WriteOpView};

verus! {

/// What a reader finds for the key of a write once the write is the newest
/// version of the key.
pub open spec fn op_meaning(op: WriteOpView) -> LookupView {
    match op {
        WriteOpView::Put { value, .. } => LookupView::Found(value),
        WriteOpView::Delete { .. } => LookupView::Deleted,
    }
}

/// A reader at or above every sequence number of a MemTable sees what a
/// reader of all versions sees.
pub proof fn lemma_lookup_above(
    contents: Map<EntryKey, Seq<u8>>,
    key: Seq<u8>,
    bound: u64,
    snapshot: u64,
)
    requires
        sequences_within(contents, bound),
        snapshot >= bound,
    ensures
        lookup_in(contents, key, snapshot) == lookup_in(contents, key, u64::MAX),
{
    assert forall|k: EntryKey| is_newest_visible(contents, key, snapshot, k) implies is_newest_visible(
        contents,
        key,
        u64::MAX,
        k,
    ) by {
        assert forall|o: EntryKey| #[trigger]
            contents.dom().contains(o) && visible(o, key, u64::MAX) implies entry_le(k, o) by {
            assert(visible(o, key, snapshot));
        }
    }
    assert forall|k: EntryKey| is_newest_visible(contents, key, u64::MAX, k) implies is_newest_visible(
        contents,
        key,
        snapshot,
        k,
    ) by {}
    if exists|k: EntryKey| is_newest_visible(contents, key, snapshot, k) {
        let k = choose|k: EntryKey| is_newest_visible(contents, key, snapshot, k);
        lemma_lookup_of_newest(contents, key, snapshot, k);
        lemma_lookup_of_newest(contents, key, u64::MAX, k);
    } else if exists|k: EntryKey| is_newest_visible(contents, key, u64::MAX, k) {
        let k = choose|k: EntryKey| is_newest_visible(contents, key, u64::MAX, k);
        assert(is_newest_visible(contents, key, snapshot, k));
    }
}

/// A version of another key changes nothing for a reader of a key.
pub proof fn lemma_other_key_is_invisible(
    contents: Map<EntryKey, Seq<u8>>,
    written: EntryKey,
    value: Seq<u8>,
    key: Seq<u8>,
    snapshot: u64,
)
    requires
        written.0 != key,
    ensures
        lookup_in(contents.insert(written, value), key, snapshot) == lookup_in(
            contents,
            key,
            snapshot,
        ),
{
    let after = contents.insert(written, value);
    assert forall|k: EntryKey| is_newest_visible(after, key, snapshot, k) implies is_newest_visible(
        contents,
        key,
        snapshot,
        k,
    ) by {
        assert(k != written);
        assert forall|o: EntryKey| #[trigger]
            contents.dom().contains(o) && visible(o, key, snapshot) implies entry_le(k, o) by {
            assert(after.dom().contains(o));
        }
    }
    assert forall|k: EntryKey| is_newest_visible(contents, key, snapshot, k) implies is_newest_visible(
        after,
        key,
        snapshot,
        k,
    ) by {
        assert forall|o: EntryKey| #[trigger]
            after.dom().contains(o) && visible(o, key, snapshot) implies entry_le(k, o) by {
            assert(o != written);
            assert(contents.dom().contains(o));
        }
    }
    if exists|k: EntryKey| is_newest_visible(contents, key, snapshot, k) {
        let k = choose|k: EntryKey| is_newest_visible(contents, key, snapshot, k);
        assert(is_newest_visible(after, key, snapshot, k));
        lemma_lookup_of_newest(after, key, snapshot, k);
        lemma_lookup_of_newest(contents, key, snapshot, k);
        assert(k != written);
    } else if exists|k: EntryKey| is_newest_visible(after, key, snapshot, k) {
        let k = choose|k: EntryKey| is_newest_visible(after, key, snapshot, k);
        assert(is_newest_visible(contents, key, snapshot, k));
    }
}

/// Writes at sequence numbers above a snapshot change nothing for a reader
/// at the snapshot.
pub proof fn lemma_writes_are_invisible(
    contents: Map<EntryKey, Seq<u8>>,
    ops: Seq<WriteOpView>,
    base: u64,
    key: Seq<u8>,
    snapshot: u64,
)
    requires
        snapshot <= base,
        base + ops.len() <= u64::MAX,
    ensures
        lookup_in(apply_ops(contents, ops, base), key, snapshot) == lookup_in(
            contents,
            key,
            snapshot,
        ),
    decreases ops.len(),
{
    if ops.len() > 0 {
        lemma_writes_are_invisible(contents, ops.drop_last(), base, key, snapshot);
        let written = written_key(ops.last(), (base + ops.len()) as u64);
        assert(sequence_of(written) == base + ops.len());
        lemma_later_write_is_invisible(
            apply_ops(contents, ops.drop_last(), base),
            written,
            written_value(ops.last()),
            key,
            snapshot,
        );
    }
}

/// After writes no version is newer than the last sequence number that
/// was handed out.
pub proof fn lemma_writes_stay_within(contents: Map<EntryKey, Seq<u8>>, ops: Seq<WriteOpView>, base: u64)
    requires
        sequences_within(contents, base),
        base + ops.len() <= u64::MAX,
    ensures
        sequences_within(apply_ops(contents, ops, base), (base + ops.len()) as u64),
    decreases ops.len(),
{
    if ops.len() > 0 {
        lemma_writes_stay_within(contents, ops.drop_last(), base);
        let written = written_key(ops.last(), (base + ops.len()) as u64);
        assert(sequence_of(written) == base + ops.len());
    }
}

/// After writes the last write to a key is what a reader of the MemTable
/// finds for the key.
pub proof fn lemma_last_write_is_found(
    contents: Map<EntryKey, Seq<u8>>,
    ops: Seq<WriteOpView>,
    base: u64,
    i: int,
    snapshot: u64,
)
    requires
        sequences_within(contents, base),
        base + ops.len() <= u64::MAX,
        0 <= i < ops.len(),
        forall|j: int| i < j < ops.len() ==> op_key(#[trigger] ops[j]) != op_key(ops[i]),
        snapshot >= base + ops.len(),
    ensures
        lookup_in(apply_ops(contents, ops, base), op_key(ops[i]), snapshot) == op_meaning(ops[i]),
    decreases ops.len(),
{
    let front = ops.drop_last();
    let before = apply_ops(contents, front, base);
    let sequence = (base + ops.len()) as u64;
    let written = written_key(ops.last(), sequence);
    if i == ops.len() - 1 {
        lemma_writes_stay_within(contents, front, base);
        assert forall|o: EntryKey| #[trigger]
            before.dom().contains(o) && o.0 == op_key(ops[i]) implies sequence_of(o)
            < sequence by {}
        match ops[i] {
            WriteOpView::Put { key, value } => {
                lemma_newest_write_is_found(
                    before,
                    key,
                    sequence,
                    ValueType::Value,
                    value,
                    snapshot,
                );
            },
            WriteOpView::Delete { key } => {
                lemma_newest_write_is_found(
                    before,
                    key,
                    sequence,
                    ValueType::Deletion,
                    Seq::<u8>::empty(),
                    snapshot,
                );
            },
        }
    } else {
        assert(front[i] == ops[i]);
        assert forall|j: int| i < j < front.len() implies op_key(#[trigger] front[j]) != op_key(
            front[i],
        ) by {
            assert(front[j] == ops[j]);
        }
        lemma_last_write_is_found(contents, front, base, i, snapshot);
        assert(op_key(ops[ops.len() - 1]) != op_key(ops[i]));
        assert(written.0 == op_key(ops.last()));
        lemma_other_key_is_invisible(
            before,
            written,
            written_value(ops.last()),
            op_key(ops[i]),
            snapshot,
        );
    }
}

/// A snapshot outlives writes: what a reader at a sequence number finds
/// is what it found before writes that came after that sequence number.
pub proof fn lemma_snapshot_outlives_writes(
    before: &DB,
    after: &DB,
    ops: Seq<WriteOpView>,
    recovering: bool,
    key: Seq<u8>,
    snapshot: u64,
)
    requires
        before.accepts(ops),
        after.wrote(before, ops, recovering),
        snapshot <= before.spec_sequence(),
    ensures
        after.lookup(key, snapshot) == before.lookup(key, snapshot),
{
    let applied = apply_ops(before.active(), ops, before.spec_sequence());
    lemma_writes_are_invisible(before.active(), ops, before.spec_sequence(), key, snapshot);
    if before.fills(ops) {
        let frozen = before.frozen().push(applied);
        assert(frozen.drop_last() =~= before.frozen());
        assert(frozen.last() == applied);
        lemma_empty_knows_nothing(key, snapshot);
    }
}

/// A batch is visible as a whole: once it is written, a reader finds for
/// every key of the batch what the last write of the batch to that key
/// says, a value or a deletion.
pub proof fn lemma_batch_is_visible(
    before: &DB,
    after: &DB,
    ops: Seq<WriteOpView>,
    recovering: bool,
    i: int,
    snapshot: u64,
)
    requires
        before.well_formed(),
        before.accepts(ops),
        after.wrote(before, ops, recovering),
        0 <= i < ops.len(),
        forall|j: int| i < j < ops.len() ==> op_key(#[trigger] ops[j]) != op_key(ops[i]),
        snapshot >= after.spec_sequence(),
    ensures
        after.lookup(op_key(ops[i]), snapshot) == Ok::<LookupView, ErrorKind>(op_meaning(ops[i])),
{
    before.lemma_well_formed();
    let key = op_key(ops[i]);
    let applied = apply_ops(before.active(), ops, before.spec_sequence());
    lemma_last_write_is_found(before.active(), ops, before.spec_sequence(), i, snapshot);
    if before.fills(ops) {
        let frozen = before.frozen().push(applied);
        assert(frozen.drop_last() =~= before.frozen());
        assert(frozen.last() == applied);
        lemma_empty_knows_nothing(key, snapshot);
    }
}

/// A reader at or above every sequence number of the frozen MemTables
/// sees what a reader of all their versions sees.
pub proof fn lemma_frozen_lookup_above(
    frozen: Seq<Map<EntryKey, Seq<u8>>>,
    key: Seq<u8>,
    bound: u64,
    snapshot: u64,
)
    requires
        forall|i: int| 0 <= i < frozen.len() ==> sequences_within(#[trigger] frozen[i], bound),
        snapshot >= bound,
    ensures
        frozen_lookup(frozen, key, snapshot) == frozen_lookup(frozen, key, u64::MAX),
    decreases frozen.len(),
{
    if frozen.len() > 0 {
        let front = frozen.drop_last();
        assert forall|i: int| 0 <= i < front.len() implies sequences_within(
            #[trigger] front[i],
            bound,
        ) by {
            assert(front[i] == frozen[i]);
        }
        lemma_frozen_lookup_above(front, key, bound, snapshot);
        assert(sequences_within(frozen[frozen.len() - 1], bound));
        lemma_lookup_above(frozen.last(), key, bound, snapshot);
    }
}

/// A table never answers with a value without bytes.
pub proof fn lemma_tables_answer_flat(tables: Seq<TableView>, level: int, key: Seq<u8>)
    ensures
        level_lookup(tables, level, key) matches Ok(found) ==> flattened(found) == found,
    decreases tables.len(),
{
    if tables.len() > 0 {
        lemma_tables_answer_flat(tables.drop_last(), level, key);
    }
}

/// The tables that a flush has added to level 0 answer as the MemTables
/// did that they were written of, and where those knew nothing, the
/// tables that were there before answer.
pub proof fn lemma_flushed_tables_answer(
    old_level: Seq<TableView>,
    added: Seq<TableView>,
    waiting: Seq<Map<EntryKey, Seq<u8>>>,
    key: Seq<u8>,
)
    requires
        added.len() == waiting.len(),
        forall|j: int| 0 <= j < waiting.len() ==> tidy(#[trigger] waiting[j]),
        forall|j: int| 0 <= j < waiting.len() ==> is_flush_of((#[trigger] added[j]).file, waiting[j]),
    ensures
        level_lookup(old_level + added, 0, key) == if flattened(
            frozen_lookup(waiting, key, u64::MAX),
        ) is Missing {
            level_lookup(old_level, 0, key)
        } else {
            Ok::<LookupView, ErrorKind>(flattened(frozen_lookup(waiting, key, u64::MAX)))
        },
    decreases added.len(),
{
    if added.len() == 0 {
        assert(old_level + added =~= old_level);
    } else {
        let front = added.drop_last();
        let waiting_front = waiting.drop_last();
        assert forall|j: int| 0 <= j < waiting_front.len() implies tidy(
            #[trigger] waiting_front[j],
        ) by {
            assert(waiting_front[j] == waiting[j]);
        }
        assert forall|j: int| 0 <= j < waiting_front.len() implies is_flush_of(
            (#[trigger] front[j]).file,
            waiting_front[j],
        ) by {
            assert(front[j] == added[j]);
            assert(waiting_front[j] == waiting[j]);
        }
        lemma_flushed_tables_answer(old_level, front, waiting_front, key);
        let all = old_level + added;
        assert(all.drop_last() =~= old_level + front);
        assert(all.last() == added.last());
        let last = added.len() - 1;
        assert(tidy(waiting[last]));
        assert(is_flush_of(added[last].file, waiting[last]));
        lemma_flush_answers(added.last().file, waiting.last(), key);
    }
}

/// A flush keeps what readers see: after the MemTables have been written
/// out, a reader at any sequence number finds for every key what a
/// reader at or above the sequence number of the engine found before;
/// only a value without bytes reads as a deletion from then on.
pub proof fn lemma_flush_keeps_answers(before: &DB, after: &DB, key: Seq<u8>, was: u64, now: u64)
    requires
        before.well_formed(),
        after.flushed(before),
        was >= before.spec_sequence(),
    ensures
        after.lookup(key, now) == match before.lookup(key, was) {
            Ok(found) => Ok::<LookupView, ErrorKind>(flattened(found)),
            Err(k) => Err::<LookupView, ErrorKind>(k),
        },
{
    before.lemma_well_formed();
    let active = before.active();
    let frozen = before.frozen();
    let waiting = if active == empty_contents() {
        frozen
    } else {
        frozen.push(active)
    };
    let old_level = before.tables()[0];
    let new_level = after.tables()[0];
    let added = new_level.subrange(old_level.len() as int, new_level.len() as int);
    assert(new_level =~= old_level + added);
    assert forall|j: int| 0 <= j < waiting.len() implies tidy(#[trigger] waiting[j])
        && sequences_within(waiting[j], before.spec_sequence()) by {
        if j < frozen.len() {
            assert(waiting[j] == frozen[j]);
        }
    }
    assert forall|j: int| 0 <= j < waiting.len() implies is_flush_of(
        (#[trigger] added[j]).file,
        waiting[j],
    ) by {
        assert(added[j] == new_level[old_level.len() + j]);
    }
    lemma_flushed_tables_answer(old_level, added, waiting, key);
    // what memory knew before, at the snapshot and for a reader of all versions
    lemma_lookup_above(active, key, before.spec_sequence(), was);
    lemma_frozen_lookup_above(frozen, key, before.spec_sequence(), was);
    lemma_frozen_lookup_above(waiting, key, before.spec_sequence(), was);
    let missing = LookupView::Missing;
    lemma_empty_knows_nothing(key, now);
    lemma_empty_knows_nothing(key, u64::MAX);
    let memory = lookup_in(active, key, u64::MAX).or(frozen_lookup(frozen, key, u64::MAX));
    assert(frozen_lookup(waiting, key, u64::MAX) == memory) by {
        if active != empty_contents() {
            assert(waiting.drop_last() =~= frozen);
            assert(waiting.last() == active);
        }
    }
    assert(frozen_lookup(after.frozen(), key, now) == missing);
    // the levels below level 0 are as they were
    assert(levels_lookup(after.tables(), 1, key) == levels_lookup(before.tables(), 1, key)) by {
        lemma_levels_lookup_same(after.tables(), before.tables(), 1, key);
    }
    lemma_tables_answer_flat(old_level, 0, key);
    lemma_levels_answer_flat(before.tables(), 0, key);
}

/// Levels that hold the same tables answer the same.
pub proof fn lemma_levels_lookup_same(
    a: Seq<Seq<TableView>>,
    b: Seq<Seq<TableView>>,
    from: int,
    key: Seq<u8>,
)
    requires
        a.len() == b.len(),
        0 <= from,
        forall|l: int| from <= l < a.len() ==> a[l] == b[l],
    ensures
        levels_lookup(a, from, key) == levels_lookup(b, from, key),
    decreases a.len() - from,
{
    if from < a.len() {
        lemma_levels_lookup_same(a, b, from + 1, key);
    }
}

/// The levels never answer with a value without bytes.
pub proof fn lemma_levels_answer_flat(levels: Seq<Seq<TableView>>, from: int, key: Seq<u8>)
    requires
        0 <= from,
    ensures
        levels_lookup(levels, from, key) matches Ok(found) ==> flattened(found) == found,
    decreases levels.len() - from,
{
    if from < levels.len() {
        lemma_tables_answer_flat(levels[from], from, key);
        lemma_levels_answer_flat(levels, from + 1, key);
    }
}

/// What the MemTables of a memory know of a key, the active one first.
pub open spec fn memory_lookup(m: MemoryView, key: Seq<u8>, snapshot: u64) -> LookupView {
    lookup_in(m.active, key, snapshot).or(frozen_lookup(m.frozen, key, snapshot))
}

/// An empty MemTable knows nothing.
pub proof fn lemma_empty_knows_nothing(key: Seq<u8>, snapshot: u64)
    ensures
        lookup_in(empty_contents(), key, snapshot) == LookupView::Missing,
{
    if exists|k: EntryKey| is_newest_visible(empty_contents(), key, snapshot, k) {
        let k = choose|k: EntryKey| is_newest_visible(empty_contents(), key, snapshot, k);
        assert(empty_contents().dom().contains(k));
    }
}

/// After writes the memory knows of a key what the last write to the key
/// says.
pub proof fn lemma_memory_knows_last_write(
    m: MemoryView,
    ops: Seq<WriteOpView>,
    limit: usize,
    i: int,
    snapshot: u64,
)
    requires
        sequences_within(m.active, m.sequence),
        takes(m, ops, limit),
        0 <= i < ops.len(),
        forall|j: int| i < j < ops.len() ==> op_key(#[trigger] ops[j]) != op_key(ops[i]),
        snapshot >= m.sequence + ops.len(),
    ensures
        memory_lookup(memory_after(m, ops, limit), op_key(ops[i]), snapshot) == op_meaning(ops[i]),
{
    let after = memory_after(m, ops, limit);
    let applied = apply_ops(m.active, ops, m.sequence);
    lemma_last_write_is_found(m.active, ops, m.sequence, i, snapshot);
    if m.active_size + ops_weight(ops) >= limit {
        assert(after.frozen.drop_last() =~= m.frozen);
        assert(after.frozen.last() == applied);
        lemma_empty_knows_nothing(op_key(ops[i]), snapshot);
    }
}

/// While batches are replayed, no version in the active MemTable is newer
/// than the last sequence number handed out.
pub proof fn lemma_replay_stays_within(m: MemoryView, batches: Seq<Seq<WriteOpView>>, limit: usize)
    requires
        sequences_within(m.active, m.sequence),
        replay_fits(m, batches, limit),
    ensures
        sequences_within(
            replayed(m, batches, limit).active,
            replayed(m, batches, limit).sequence,
        ),
    decreases batches.len(),
{
    if batches.len() > 0 {
        lemma_replay_stays_within(m, batches.drop_last(), limit);
        let before = replayed(m, batches.drop_last(), limit);
        lemma_writes_stay_within(before.active, batches.last(), before.sequence);
    }
}

/// Writes whose sizes can be counted fit into a log entry.
pub proof fn lemma_counted_writes_fit(ops: Seq<WriteOpView>)
    requires
        ops_weight(ops) <= usize::MAX,
    ensures
        forall|j: int| 0 <= j < ops.len() ==> op_fits(#[trigger] ops[j]),
{
    assert forall|j: int| 0 <= j < ops.len() implies op_fits(#[trigger] ops[j]) by {
        lemma_ops_weight_grows(ops, j + 1);
        let upto = ops.subrange(0, j + 1);
        assert(upto.last() == ops[j]);
        assert(ops_weight(upto) >= op_weight(ops[j]));
    }
}

/// A durable write outlives a crash: when writes were taken by an engine
/// that logs and makes its log durable with every write, the files as
/// they stood right after can be opened, and a reader of the opened
/// database finds for every key of the writes what the last of them to
/// that key says.
pub proof fn lemma_durable_write_survives(
    before: &DB,
    after: &DB,
    ops: Seq<WriteOpView>,
    dir: Map<FileId, Seq<u8>>,
    options: Options,
    reopened: &DB,
    i: int,
    snapshot: u64,
)
    requires
        before.well_formed(),
        before.spec_options().use_wal,
        before.spec_options().sync_wal,
        before.accepts(ops),
        after.wrote(before, ops, false),
        after.well_formed(),
        after.stored_in(dir),
        crate::reopen_laws::reopens(options, after),
        reopened.opened_from(dir, options),
        0 <= i < ops.len(),
        forall|j: int| i < j < ops.len() ==> op_key(#[trigger] ops[j]) != op_key(ops[i]),
        snapshot >= reopened.spec_sequence(),
    ensures
        DB::opens(dir, options),
        reopened.lookup(op_key(ops[i]), snapshot) == Ok::<LookupView, ErrorKind>(
            op_meaning(ops[i]),
        ),
{
    crate::reopen_laws::lemma_files_open(after, dir, options);
    before.lemma_well_formed();
    lemma_counted_writes_fit(ops);
    lemma_batch_round_trip(ops);
    let entry = encode_batch(ops);
    let log = after.log_bytes();
    assert(log.subrange(0, log.len() as int) =~= log);
    lemma_newest_log(dir, after.spec_wal_file_number());
    assert(log_to_replay(dir) == log);
    lemma_recover_append(before.log_bytes(), entry, 0);
    let entries = recover_from(log, 0);
    assert(entries.last() == entry);
    let batches = logged(dir);
    assert(batches.last() == ops);
    let state = crate::replay::recorded(dir, options.max_levels)->Ok_0;
    let start = empty_memory(state.sequence);
    let earlier = replayed(start, batches.drop_last(), options.memtable_size);
    lemma_replay_stays_within(start, batches.drop_last(), options.memtable_size);
    lemma_memory_knows_last_write(earlier, ops, options.memtable_size, i, snapshot);
}

/// Writes to other keys change nothing for a reader of a key.
pub proof fn lemma_other_writes_are_invisible(
    contents: Map<EntryKey, Seq<u8>>,
    ops: Seq<WriteOpView>,
    base: u64,
    key: Seq<u8>,
    snapshot: u64,
)
    requires
        forall|j: int| 0 <= j < ops.len() ==> op_key(#[trigger] ops[j]) != key,
    ensures
        lookup_in(apply_ops(contents, ops, base), key, snapshot) == lookup_in(
            contents,
            key,
            snapshot,
        ),
    decreases ops.len(),
{
    if ops.len() > 0 {
        let front = ops.drop_last();
        assert forall|j: int| 0 <= j < front.len() implies op_key(#[trigger] front[j]) != key by {
            assert(front[j] == ops[j]);
        }
        lemma_other_writes_are_invisible(contents, front, base, key, snapshot);
        assert(op_key(ops[ops.len() - 1]) != key);
        lemma_other_key_is_invisible(
            apply_ops(contents, front, base),
            written_key(ops.last(), (base + ops.len()) as u64),
            written_value(ops.last()),
            key,
            snapshot,
        );
    }
}

/// Writes leave the other keys alone: a reader finds for a key that none
/// of the writes names what it found before.
pub proof fn lemma_write_keeps_other_keys(
    before: &DB,
    after: &DB,
    ops: Seq<WriteOpView>,
    recovering: bool,
    key: Seq<u8>,
    snapshot: u64,
)
    requires
        after.wrote(before, ops, recovering),
        forall|j: int| 0 <= j < ops.len() ==> op_key(#[trigger] ops[j]) != key,
    ensures
        after.lookup(key, snapshot) == before.lookup(key, snapshot),
{
    let applied = apply_ops(before.active(), ops, before.spec_sequence());
    lemma_other_writes_are_invisible(before.active(), ops, before.spec_sequence(), key, snapshot);
    if before.fills(ops) {
        let frozen = before.frozen().push(applied);
        assert(frozen.drop_last() =~= before.frozen());
        assert(frozen.last() == applied);
        lemma_empty_knows_nothing(key, snapshot);
    }
}

/// Writes outlive a flush: after writes and a flush, a reader finds for
/// every key of the writes what the last of them to that key says, a
/// value or a deletion; a value without bytes reads as a deletion.
pub proof fn lemma_flush_keeps_writes(
    before: &DB,
    written: &DB,
    flushed: &DB,
    ops: Seq<WriteOpView>,
    recovering: bool,
    i: int,
    snapshot: u64,
)
    requires
        before.well_formed(),
        before.accepts(ops),
        written.well_formed(),
        written.wrote(before, ops, recovering),
        flushed.flushed(written),
        0 <= i < ops.len(),
        forall|j: int| i < j < ops.len() ==> op_key(#[trigger] ops[j]) != op_key(ops[i]),
    ensures
        flushed.lookup(op_key(ops[i]), snapshot) == Ok::<LookupView, ErrorKind>(
            flattened(op_meaning(ops[i])),
        ),
{
    lemma_batch_is_visible(before, written, ops, recovering, i, written.spec_sequence());
    lemma_flush_keeps_answers(
        written,
        flushed,
        op_key(ops[i]),
        written.spec_sequence(),
        snapshot,
    );
}

/// A table that was written finds what a scan of its entries finds.
pub proof fn lemma_table_find_is_scan(file: Seq<u8>, entries: Seq<KeyValue>, key: Seq<u8>)
    requires
        is_table_of(file, entries),
    ensures
        table_find(file, key) == Ok::<Option<Seq<u8>>, ErrorKind>(scan_for(entries, key, 0)),
{
    lemma_table_sorted(file, entries);
    if exists|p: int| 0 <= p < entries.len() && (#[trigger] entries[p]).key == key {
        let p = choose|p: int| 0 <= p < entries.len() && (#[trigger] entries[p]).key == key;
        lemma_table_finds_added(file, entries, p);
        lemma_scan_finds(entries, p, 0);
    } else {
        lemma_table_misses_others(file, entries, key);
        lemma_scan_misses(entries, key, 0);
    }
}

/// The tables of level 0 answer as the newest of them that holds the key.
pub proof fn lemma_level_0_answers(tables: Seq<TableView>, key: Seq<u8>, n: int)
    requires
        0 <= n <= tables.len(),
        forall|j: int| 0 <= j < tables.len() ==> written_by_engine(#[trigger] tables[j]),
    ensures
        level_lookup(tables.subrange(0, n), 0, key) == Ok::<LookupView, ErrorKind>(
            stored_meaning(first_stored(task_sources(tables, 0), key, tables.len() - n)),
        ),
    decreases n,
{
    let sources = task_sources(tables, 0);
    let upto = tables.subrange(0, n);
    if n > 0 {
        let from = tables.len() - n;
        assert(upto.last() == tables[n - 1]);
        assert(upto.drop_last() =~= tables.subrange(0, n - 1));
        assert(written_by_engine(tables[n - 1]));
        assert(sources[from] == table_entries(tables[n - 1].file)->Ok_0);
        lemma_table_find_is_scan(tables[n - 1].file, sources[from], key);
        lemma_level_0_answers(tables, key, n - 1);
    }
}

/// What is left of a level without the tables of a number is of the
/// level and has another number.
pub proof fn lemma_tables_without(tables: Seq<TableView>, number: u64, t: int) -> (j: int)
    requires
        0 <= t < tables_without(tables, number).len(),
    ensures
        0 <= j < tables.len(),
        tables[j] == tables_without(tables, number)[t],
        tables[j].meta.file_number != number,
    decreases tables.len(),
{
    let front = tables.drop_last();
    if tables.last().meta.file_number != number && t == tables_without(front, number).len() {
        tables.len() - 1
    } else {
        let j = lemma_tables_without(front, number, t);
        assert(front[j] == tables[j]);
        j
    }
}

/// What is left of a level without the tables of the given files is of
/// the level and has the number of none of the files.
pub proof fn lemma_tables_without_all(
    tables: Seq<TableView>,
    files: Seq<FileMetaView>,
    t: int,
) -> (j: int)
    requires
        0 <= t < tables_without_all(tables, files).len(),
    ensures
        0 <= j < tables.len(),
        tables[j] == tables_without_all(tables, files)[t],
        forall|f: int|
            0 <= f < files.len() ==> tables[j].meta.file_number != (#[trigger] files[f]).file_number,
    decreases files.len(),
{
    if files.len() == 0 {
        t
    } else {
        let front = files.drop_last();
        let rest = tables_without_all(tables, front);
        let r = lemma_tables_without(rest, files.last().file_number, t);
        let j = lemma_tables_without_all(tables, front, r);
        assert forall|f: int| 0 <= f < files.len() implies tables[j].meta.file_number != (
        #[trigger] files[f]).file_number by {
            if f < front.len() {
                assert(front[f] == files[f]);
            }
        }
        j
    }
}

/// Nothing is left of a level without the tables of all its files.
pub proof fn lemma_level_emptied(tables: Seq<TableView>)
    ensures
        tables_without_all(tables, tables.map_values(|t: TableView| t.meta)).len() == 0,
{
    let files = tables.map_values(|t: TableView| t.meta);
    if tables_without_all(tables, files).len() > 0 {
        let j = lemma_tables_without_all(tables, files, 0);
        assert(files[j].file_number == tables[j].meta.file_number);
    }
}

/// A level from level 1 on that has got a table of entries in key order
/// as its newest, with the first and the last key of the entries as its
/// range, answers with what the table holds for the key, and as before
/// where the table does not hold the key.
pub proof fn lemma_new_table_answers(
    tables: Seq<TableView>,
    made: TableView,
    entries: Seq<KeyValue>,
    level: int,
    key: Seq<u8>,
)
    requires
        level >= 1,
        entries.len() > 0,
        is_table_of(made.file, entries),
        made.meta.smallest_key == entries.first().key,
        made.meta.largest_key == entries.last().key,
    ensures
        level_lookup(tables.push(made), level, key) == if stored_meaning(
            scan_for(entries, key, 0),
        ) is Missing {
            level_lookup(tables, level, key)
        } else {
            Ok::<LookupView, ErrorKind>(stored_meaning(scan_for(entries, key, 0)))
        },
{
    let now = tables.push(made);
    assert(now.last() == made);
    assert(now.drop_last() =~= tables);
    lemma_table_find_is_scan(made.file, entries, key);
    lemma_table_sorted(made.file, entries);
    if scan_for(entries, key, 0) is Some {
        let t = lemma_scan_found(entries, key, 0);
        assert(covers(made.meta, key)) by {
            if t > 0 {
                assert(crate::key_order::key_lt(entries[0].key, entries[t].key));
            }
            if t < entries.len() - 1 {
                assert(crate::key_order::key_lt(entries[t].key, entries[entries.len() - 1].key));
            }
        }
    }
}

/// What the levels know of a key after a compaction of level 0 that has
/// written a table: what the table holds for the key, else what the
/// levels below level 0 knew.
pub proof fn lemma_compacted_levels_answer(
    before: Seq<Seq<TableView>>,
    after: Seq<Seq<TableView>>,
    entries: Seq<KeyValue>,
    key: Seq<u8>,
)
    requires
        before.len() == after.len(),
        before.len() > 1,
        after[0].len() == 0,
        after[1].len() == before[1].len() + 1,
        after[1].drop_last() == before[1],
        entries.len() > 0,
        is_table_of(after[1].last().file, entries),
        after[1].last().meta.smallest_key == entries.first().key,
        after[1].last().meta.largest_key == entries.last().key,
        forall|l: int| 2 <= l < before.len() ==> after[l] == before[l],
    ensures
        levels_lookup(after, 0, key) == if stored_meaning(scan_for(entries, key, 0)) is Missing {
            levels_lookup(before, 1, key)
        } else {
            Ok::<LookupView, ErrorKind>(stored_meaning(scan_for(entries, key, 0)))
        },
{
    reveal_with_fuel(levels_lookup, 3);
    assert(after[1] =~= before[1].push(after[1].last()));
    lemma_new_table_answers(before[1], after[1].last(), entries, 1, key);
    lemma_levels_lookup_same(after, before, 2, key);
    assert(level_lookup(after[0], 0, key) == Ok::<LookupView, ErrorKind>(LookupView::Missing));
}

/// The entries of tables that the engine has written are in key order.
pub proof fn lemma_sources_sorted(tables: Seq<TableView>)
    requires
        forall|j: int| 0 <= j < tables.len() ==> written_by_engine(#[trigger] tables[j]),
    ensures
        all_sorted(task_sources(tables, 0)),
{
    let sources = task_sources(tables, 0);
    assert forall|i: int| 0 <= i < sources.len() implies sorted_entries(#[trigger] sources[i]) by {
        let t = tables[tables.len() - 1 - i];
        assert(written_by_engine(t));
        lemma_table_sorted(t.file, sources[i]);
    }
}

/// A compaction of level 0 keeps what readers see: after it a reader
/// finds for every key what it found before. The one exception: where
/// the newest version of the key in level 0 was a deletion and the
/// compaction has written a table, the deletion is gone, and the reader
/// finds what the levels below level 0 held for the key.
pub proof fn lemma_compaction_keeps_answers(
    before: &DB,
    after: &DB,
    task: TaskView,
    key: Seq<u8>,
    snapshot: u64,
)
    requires
        before.picked() == Some(task),
        task.level == 0,
        task.output_level < before.tables().len(),
        after.compacted(before, task),
        after.same_memory(before),
        forall|j: int|
            0 <= j < before.tables()[0].len() ==> written_by_engine(#[trigger] before.tables()[0][j]),
    ensures
        after.lookup(key, snapshot) == if after.tables() != before.tables() && level_lookup(
            before.tables()[0],
            0,
            key,
        ) == Ok::<LookupView, ErrorKind>(LookupView::Deleted) && memory_lookup(
            before.memory(),
            key,
            snapshot,
        ) is Missing {
            levels_lookup(before.tables(), 1, key)
        } else {
            before.lookup(key, snapshot)
        },
{
    let levels = before.tables();
    let level0 = levels[0];
    let sources = task_sources(level0, 0);
    let out = compact(merge_output(sources), task.output_level);
    crate::compaction::picker::lemma_pick(meta_levels(levels), before.spec_options().max_levels);
    assert(task.inputs == level0.map_values(|t: TableView| t.meta));
    if after.tables() != levels {
        lemma_sources_sorted(level0);
        lemma_compaction_answers(sources, key, task.output_level);
        lemma_level_0_answers(level0, key, level0.len() as int);
        assert(level0.subrange(0, level0.len() as int) =~= level0);
        lemma_level_emptied(level0);
        lemma_compacted_levels_answer(levels, after.tables(), out, key);
    }
}

/// Whether one of the sources names the key.
pub open spec fn sources_name(sources: Seq<Seq<KeyValue>>, key: Seq<u8>) -> bool {
    exists|i: int| 0 <= i < sources.len() && names_key(#[trigger] sources[i], key)
}

/// Whether the sources are the keys of a database: every version in a
/// MemTable and every entry of a table is named, and each source is in
/// the key order of a MemTable or holds the entries of a table.
pub open spec fn sources_of(db: &DB, sources: Seq<Seq<KeyValue>>) -> bool {
    &&& forall|key: Seq<u8>| #[trigger] has_version(db.active(), key) ==> sources_name(sources, key)
    &&& forall|f: int, key: Seq<u8>|
        0 <= f < db.frozen().len() && #[trigger] has_version(db.frozen()[f], key) ==> sources_name(
            sources,
            key,
        )
    &&& forall|l: int, j: int|
        0 <= l < db.tables().len() && 0 <= j < db.tables()[l].len() ==> table_is_listed(
            sources,
            #[trigger] db.tables()[l][j],
        )
    &&& forall|i: int|
        0 <= i < sources.len() ==> ascending(#[trigger] sources[i]) || list_is_table(
            db.tables(),
            sources[i],
        )
}

/// Whether every table of the database is one that the engine has
/// written.
pub open spec fn tables_written(db: &DB) -> bool {
    forall|l: int, j: int|
        0 <= l < db.tables().len() && 0 <= j < db.tables()[l].len() ==> written_by_engine(
            #[trigger] db.tables()[l][j],
        )
}

/// A MemTable that knows of a key holds a version of it.
pub proof fn lemma_known_has_version(contents: Map<EntryKey, Seq<u8>>, key: Seq<u8>, snapshot: u64)
    requires
        !(lookup_in(contents, key, snapshot) is Missing),
    ensures
        has_version(contents, key),
{
    let k = choose|k: EntryKey| is_newest_visible(contents, key, snapshot, k);
    assert(contents.dom().contains(k) && k.0 == key);
}

/// Frozen MemTables that know of a key: one of them knows of it.
pub proof fn lemma_frozen_known(
    frozen: Seq<Map<EntryKey, Seq<u8>>>,
    key: Seq<u8>,
    snapshot: u64,
) -> (f: int)
    requires
        !(frozen_lookup(frozen, key, snapshot) is Missing),
    ensures
        0 <= f < frozen.len(),
        !(lookup_in(frozen[f], key, snapshot) is Missing),
    decreases frozen.len(),
{
    if lookup_in(frozen.last(), key, snapshot) is Missing {
        let f = lemma_frozen_known(frozen.drop_last(), key, snapshot);
        assert(frozen.drop_last()[f] == frozen[f]);
        f
    } else {
        frozen.len() - 1
    }
}

/// A level that knows of a key: one of its tables holds the key.
pub proof fn lemma_level_known(tables: Seq<TableView>, level: int, key: Seq<u8>) -> (j: int)
    requires
        level_lookup(tables, level, key) matches Ok(found) && !(found is Missing),
    ensures
        0 <= j < tables.len(),
        table_find(tables[j].file, key) matches Ok(stored) && stored is Some,
    decreases tables.len(),
{
    let last = tables.len() - 1;
    if level >= 1 && !covers(tables.last().meta, key) {
        let j = lemma_level_known(tables.drop_last(), level, key);
        assert(tables.drop_last()[j] == tables[j]);
        j
    } else {
        match table_find(tables.last().file, key) {
            Err(_) => last,
            Ok(stored) => if stored_meaning(stored) is Missing {
                let j = lemma_level_known(tables.drop_last(), level, key);
                assert(tables.drop_last()[j] == tables[j]);
                j
            } else {
                last
            },
        }
    }
}

/// Levels that know of a key: a table of one of them holds the key.
pub proof fn lemma_levels_known(levels: Seq<Seq<TableView>>, from: int, key: Seq<u8>) -> (at: (
    int,
    int,
))
    requires
        0 <= from,
        levels_lookup(levels, from, key) matches Ok(found) && !(found is Missing),
    ensures
        from <= at.0 < levels.len(),
        0 <= at.1 < levels[at.0].len(),
        table_find(levels[at.0][at.1].file, key) matches Ok(stored) && stored is Some,
    decreases levels.len() - from,
{
    match level_lookup(levels[from], from, key) {
        Err(_) => (from, 0),
        Ok(found) => if found is Missing {
            lemma_levels_known(levels, from + 1, key)
        } else {
            (from, lemma_level_known(levels[from], from, key))
        },
    }
}

/// The keys of a database name every key that a reader finds something
/// for, where the tables are tables that the engine has written.
pub proof fn lemma_known_is_named(
    db: &DB,
    sources: Seq<Seq<KeyValue>>,
    key: Seq<u8>,
    snapshot: u64,
)
    requires
        sources_of(db, sources),
        tables_written(db),
        db.lookup(key, snapshot) matches Ok(found) && !(found is Missing),
    ensures
        sources_name(sources, key),
{
    let memory = lookup_in(db.active(), key, snapshot).or(
        frozen_lookup(db.frozen(), key, snapshot),
    );
    if !(lookup_in(db.active(), key, snapshot) is Missing) {
        lemma_known_has_version(db.active(), key, snapshot);
    } else if !(memory is Missing) {
        let f = lemma_frozen_known(db.frozen(), key, snapshot);
        lemma_known_has_version(db.frozen()[f], key, snapshot);
    } else {
        let at = lemma_levels_known(db.tables(), 0, key);
        let t = db.tables()[at.0][at.1];
        assert(written_by_engine(t));
        let entries = table_entries(t.file)->Ok_0;
        lemma_table_find_is_scan(t.file, entries, key);
        lemma_table_entries(t.file, entries);
        let q = lemma_scan_found(entries, key, 0);
        assert(table_is_listed(sources, t));
        let i = choose|i: int| 0 <= i < sources.len() && lists_table(#[trigger] sources[i], t);
        assert(sources[i][q].key == key);
        assert(names_key(sources[i], key));
    }
}

/// The keys of a database whose tables the engine has written are
/// sources whose keys do not go down.
pub proof fn lemma_sources_ascend(db: &DB, sources: Seq<Seq<KeyValue>>)
    requires
        sources_of(db, sources),
        tables_written(db),
    ensures
        crate::compaction::merge_laws::all_ascending(sources),
{
    assert forall|i: int| 0 <= i < sources.len() implies ascending(#[trigger] sources[i]) by {
        if !ascending(sources[i]) {
            assert(list_is_table(db.tables(), sources[i]));
            let (l, j) = choose|l: int, j: int|
                0 <= l < db.tables().len() && 0 <= j < db.tables()[l].len() && lists_table(
                    sources[i],
                    #[trigger] db.tables()[l][j],
                );
            let t = db.tables()[l][j];
            assert(written_by_engine(t));
            lemma_table_sorted(t.file, sources[i]);
        }
    }
}

/// A flush writes tables of the engine: where every table was one
/// before, every table is one after.
pub proof fn lemma_flush_keeps_tables_written(before: &DB, after: &DB)
    requires
        before.well_formed(),
        after.flushed(before),
        tables_written(before),
    ensures
        tables_written(after),
{
    before.lemma_well_formed();
    let old_level = before.tables()[0];
    let waiting = if before.active() == empty_contents() {
        before.frozen()
    } else {
        before.frozen().push(before.active())
    };
    assert forall|l: int, j: int|
        0 <= l < after.tables().len() && 0 <= j < after.tables()[l].len() implies written_by_engine(
        #[trigger] after.tables()[l][j],
    ) by {
        let t = after.tables()[l][j];
        if l >= 1 {
            assert(t == before.tables()[l][j]);
        } else if j < old_level.len() {
            assert(after.tables()[0].subrange(0, old_level.len() as int)[j] == t);
            assert(t == before.tables()[0][j]);
        } else {
            let w = j - old_level.len();
            assert(is_flush_of(after.tables()[0][old_level.len() + w].file, waiting[w]));
            let listing = choose|listing: Seq<(EntryKey, Seq<u8>)>| #[trigger]
                crate::memtable::skiplist::is_range_of(
                    listing,
                    waiting[w],
                    None::<EntryKey>,
                    None::<EntryKey>,
                ) && is_table_of(t.file, crate::flush::flushed_entries(listing));
            lemma_table_entries(t.file, crate::flush::flushed_entries(listing));
        }
    }
}

/// A compaction writes a table of the engine: where every table was one
/// before, every table is one after.
pub proof fn lemma_compaction_keeps_tables_written(before: &DB, after: &DB, task: TaskView)
    requires
        before.picked() == Some(task),
        task.level < before.tables().len(),
        task.output_level < before.tables().len(),
        after.compacted(before, task),
        tables_written(before),
    ensures
        tables_written(after),
{
    let from = task.level as int;
    let to = task.output_level as int;
    crate::compaction::picker::lemma_pick(
        meta_levels(before.tables()),
        before.spec_options().max_levels,
    );
    if after.tables() != before.tables() {
        let output = compact(
            merge_output(task_sources(before.tables()[from], task.level)),
            task.output_level,
        );
        assert forall|l: int, j: int|
            0 <= l < after.tables().len() && 0 <= j < after.tables()[l].len() implies written_by_engine(
            #[trigger] after.tables()[l][j],
        ) by {
            let t = after.tables()[l][j];
            if l == from {
                let at = lemma_tables_without_all(before.tables()[from], task.inputs, j);
                assert(written_by_engine(before.tables()[from][at]));
            } else if l == to {
                if j < before.tables()[to].len() {
                    assert(after.tables()[to].drop_last()[j] == t);
                    assert(written_by_engine(before.tables()[to][j]));
                } else {
                    assert(t == after.tables()[to].last());
                    lemma_table_entries(t.file, output);
                }
            } else {
                assert(t == before.tables()[l][j]);
            }
        }
    }
}

/// Writes leave the tables alone: where every table was one of the
/// engine before, every table is one after.
pub proof fn lemma_write_keeps_tables_written(
    before: &DB,
    after: &DB,
    ops: Seq<WriteOpView>,
    recovering: bool,
)
    requires
        after.wrote(before, ops, recovering),
        tables_written(before),
    ensures
        tables_written(after),
{
}

/// A database that was opened where no table file was found has no table
/// that the engine has not written.
pub proof fn lemma_new_database_has_no_tables(db: &DB, dir: Map<FileId, Seq<u8>>, options: Options)
    requires
        DB::opens(dir, options),
        db.opened_from(dir, options),
        forall|number: u64| !dir.dom().contains(#[trigger] crate::replay::table_id(number)),
    ensures
        tables_written(db),
{
    let state = crate::replay::recorded(dir, options.max_levels)->Ok_0;
    assert forall|l: int, j: int|
        0 <= l < db.tables().len() && 0 <= j < db.tables()[l].len() implies written_by_engine(
        #[trigger] db.tables()[l][j],
    ) by {
        lemma_no_tables_present(state.levels[l], dir);
    }
}

/// Where no table file is found, no table of a level is there.
pub proof fn lemma_no_tables_present(metas: Seq<FileMetaView>, dir: Map<FileId, Seq<u8>>)
    requires
        forall|number: u64| !dir.dom().contains(#[trigger] crate::replay::table_id(number)),
    ensures
        crate::replay::present_tables(metas, dir).len() == 0,
    decreases metas.len(),
{
    if metas.len() > 0 {
        lemma_no_tables_present(metas.drop_last(), dir);
        assert(!dir.dom().contains(crate::replay::table_id(metas.last().file_number)));
    }
}

/// What the levels from `from` up to, but not including, `upto` know of
/// a key, the shallowest first.
pub open spec fn levels_above(levels: Seq<Seq<TableView>>, from: int, upto: int, key: Seq<u8>)
    -> Result<LookupView, ErrorKind>
    decreases upto - from,
{
    if from < 0 || from >= upto || from >= levels.len() {
        Ok(LookupView::Missing)
    } else {
        match level_lookup(levels[from], from, key) {
            Err(k) => Err(k),
            Ok(found) => if found is Missing {
                levels_above(levels, from + 1, upto, key)
            } else {
                Ok(found)
            },
        }
    }
}

/// The levels answer as their upper part, and as their lower part where
/// the upper part knows nothing.
pub proof fn lemma_levels_split(levels: Seq<Seq<TableView>>, from: int, upto: int, key: Seq<u8>)
    requires
        0 <= from <= upto,
    ensures
        levels_lookup(levels, from, key) == match levels_above(levels, from, upto, key) {
            Err(k) => Err::<LookupView, ErrorKind>(k),
            Ok(found) => if found is Missing {
                levels_lookup(levels, upto, key)
            } else {
                Ok::<LookupView, ErrorKind>(found)
            },
        },
    decreases upto - from,
{
    if from < upto {
        if from >= levels.len() {
            lemma_levels_lookup_past(levels, upto, key);
        } else {
            lemma_levels_split(levels, from + 1, upto, key);
        }
    }
}

/// Below the last level nothing is known.
pub proof fn lemma_levels_lookup_past(levels: Seq<Seq<TableView>>, from: int, key: Seq<u8>)
    requires
        from >= levels.len(),
    ensures
        levels_lookup(levels, from, key) == Ok::<LookupView, ErrorKind>(LookupView::Missing),
{
}

/// Levels that hold the same tables in their upper part answer the same
/// there.
pub proof fn lemma_levels_above_same(
    a: Seq<Seq<TableView>>,
    b: Seq<Seq<TableView>>,
    from: int,
    upto: int,
    key: Seq<u8>,
)
    requires
        a.len() == b.len(),
        0 <= from,
        forall|l: int| from <= l < upto && l < a.len() ==> a[l] == b[l],
    ensures
        levels_above(a, from, upto, key) == levels_above(b, from, upto, key),
    decreases upto - from,
{
    if from < upto && from < a.len() {
        lemma_levels_above_same(a, b, from + 1, upto, key);
    }
}

/// A level answers as its tables but the oldest, and as the oldest where
/// they know nothing.
pub proof fn lemma_level_split_oldest(tables: Seq<TableView>, level: int, key: Seq<u8>)
    requires
        tables.len() > 0,
    ensures
        level_lookup(tables, level, key) == match level_lookup(tables.skip(1), level, key) {
            Err(k) => Err::<LookupView, ErrorKind>(k),
            Ok(found) => if found is Missing {
                level_lookup(seq![tables[0]], level, key)
            } else {
                Ok::<LookupView, ErrorKind>(found)
            },
        },
    decreases tables.len(),
{
    let one = seq![tables[0]];
    if tables.len() == 1 {
        assert(tables =~= one);
        assert(tables.skip(1) =~= Seq::<TableView>::empty());
    } else {
        let front = tables.drop_last();
        lemma_level_split_oldest(front, level, key);
        assert(front.skip(1) =~= tables.skip(1).drop_last());
        assert(tables.skip(1).last() == tables.last());
        assert(front[0] == tables[0]);
    }
}

/// A level whose oldest table shares its number with no other table of
/// the level is, without the tables of that number, the level without
/// its oldest table.
pub proof fn lemma_without_oldest(tables: Seq<TableView>)
    requires
        tables.len() > 0,
        forall|j: int|
            1 <= j < tables.len() ==> (#[trigger] tables[j]).meta.file_number
                != tables[0].meta.file_number,
    ensures
        tables_without(tables, tables[0].meta.file_number) == tables.skip(1),
    decreases tables.len(),
{
    let number = tables[0].meta.file_number;
    reveal_with_fuel(tables_without, 2);
    if tables.len() == 1 {
        assert(tables.drop_last() =~= Seq::<TableView>::empty());
        assert(tables_without(tables, number) =~= tables.skip(1));
    } else {
        let front = tables.drop_last();
        assert forall|j: int| 1 <= j < front.len() implies (#[trigger] front[j]).meta.file_number
            != front[0].meta.file_number by {
            assert(front[j] == tables[j]);
        }
        lemma_without_oldest(front);
        assert(tables.last() == tables[tables.len() - 1]);
        assert(front.skip(1).push(tables.last()) =~= tables.skip(1));
    }
}

/// Whether the key range of a table is that of its entries.
pub open spec fn range_of_entries(t: TableView) -> bool {
    let entries = table_entries(t.file)->Ok_0;
    entries.len() > 0 && t.meta.smallest_key == entries.first().key && t.meta.largest_key
        == entries.last().key
}

/// A table of the engine whose key range is that of its entries answers,
/// as the one table of a level, with what it holds for the key.
pub proof fn lemma_one_table_answers(t: TableView, level: int, key: Seq<u8>)
    requires
        written_by_engine(t),
        range_of_entries(t),
    ensures
        level_lookup(seq![t], level, key) == Ok::<LookupView, ErrorKind>(
            stored_meaning(scan_for(table_entries(t.file)->Ok_0, key, 0)),
        ),
{
    let entries = table_entries(t.file)->Ok_0;
    let one = seq![t];
    reveal_with_fuel(level_lookup, 2);
    assert(one.last() == t);
    assert(one.drop_last() =~= Seq::<TableView>::empty());
    lemma_table_find_is_scan(t.file, entries, key);
    lemma_table_sorted(t.file, entries);
    if scan_for(entries, key, 0) is Some {
        let q = lemma_scan_found(entries, key, 0);
        assert(covers(t.meta, key)) by {
            if q > 0 {
                assert(crate::key_order::key_lt(entries[0].key, entries[q].key));
            }
            if q < entries.len() - 1 {
                assert(crate::key_order::key_lt(entries[q].key, entries[entries.len() - 1].key));
            }
        }
    }
}

/// What the newest of one source holds is what the source holds.
pub proof fn lemma_first_stored_of_one(source: Seq<KeyValue>, key: Seq<u8>)
    ensures
        first_stored(seq![source], key, 0) == scan_for(source, key, 0),
{
    reveal_with_fuel(first_stored, 2);
}

/// A compaction of a level below level 0 keeps what readers see: the
/// oldest table of the level goes down one level, where it is the newest,
/// so that the tables are asked in the order in which they were asked
/// before. The one exception: where the table held a deletion of the key
/// and nothing above it knew of the key, the deletion is gone, and the
/// reader finds what the levels below held for the key.
pub proof fn lemma_deep_compaction_keeps_answers(
    before: &DB,
    after: &DB,
    task: TaskView,
    key: Seq<u8>,
    snapshot: u64,
)
    requires
        before.picked() == Some(task),
        1 <= task.level < before.tables().len(),
        task.output_level < before.tables().len(),
        before.tables()[task.level as int].len() > 0,
        after.compacted(before, task),
        after.same_memory(before),
        written_by_engine(before.tables()[task.level as int][0]),
        range_of_entries(before.tables()[task.level as int][0]),
        forall|j: int|
            1 <= j < before.tables()[task.level as int].len() ==> (
            #[trigger] before.tables()[task.level as int][j]).meta.file_number
                != before.tables()[task.level as int][0].meta.file_number,
    ensures
        after.lookup(key, snapshot) == if after.tables() != before.tables() && memory_lookup(
            before.memory(),
            key,
            snapshot,
        ) is Missing && levels_above(before.tables(), 0, task.level as int, key) == Ok::<
            LookupView,
            ErrorKind,
        >(LookupView::Missing) && level_lookup(before.tables()[task.level as int], task.level as int, key)
            == Ok::<LookupView, ErrorKind>(LookupView::Deleted) && level_lookup(
            before.tables()[task.level as int].skip(1),
            task.level as int,
            key,
        ) == Ok::<LookupView, ErrorKind>(LookupView::Missing) {
            levels_lookup(before.tables(), task.output_level as int, key)
        } else {
            before.lookup(key, snapshot)
        },
{
    let levels = before.tables();
    let now = after.tables();
    let from = task.level as int;
    let to = task.output_level as int;
    crate::compaction::picker::lemma_pick(meta_levels(levels), before.spec_options().max_levels);
    if now != levels {
        let level = levels[from];
        let oldest = level[0];
        let source = table_entries(oldest.file)->Ok_0;
        let sources = task_sources(level, task.level);
        assert(sources =~= seq![source]);
        let out = compact(merge_output(sources), task.output_level);
        assert(task.inputs =~= seq![oldest.meta]) by {
            assert(meta_levels(levels)[from] == levels[from].map_values(|t: TableView| t.meta));
            assert(meta_levels(levels)[from][0] == oldest.meta);
        }
        // the level without its oldest table
        assert(now[from] == level.skip(1)) by {
            assert(task.inputs.drop_last() =~= Seq::<FileMetaView>::empty());
            reveal_with_fuel(tables_without_all, 2);
            lemma_without_oldest(level);
        }
        // what the table held, and what the new table holds
        assert(all_sorted(sources)) by {
            lemma_table_sorted(oldest.file, source);
        }
        lemma_compaction_answers(sources, key, task.output_level);
        lemma_first_stored_of_one(source, key);
        lemma_level_split_oldest(level, from, key);
        lemma_one_table_answers(oldest, from, key);
        assert(now[to] =~= levels[to].push(now[to].last()));
        lemma_new_table_answers(levels[to], now[to].last(), out, to, key);
        // the levels above, the two levels, and the levels below
        lemma_levels_split(levels, 0, from, key);
        lemma_levels_split(now, 0, from, key);
        lemma_levels_above_same(now, levels, 0, from, key);
        lemma_levels_lookup_same(now, levels, to + 1, key);
        reveal_with_fuel(levels_lookup, 3);
    }
}

} // verus!
