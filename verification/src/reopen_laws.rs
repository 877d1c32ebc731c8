//! What opening the files of a database again gives: the files can be
//! opened, and the opened database knows what was durable.

use vstd::prelude::*;
use crate::config::Options;
use crate::db::{levels_lookup, meta_levels, op_key, TableView, DB};
use crate::db_laws::{lemma_empty_knows_nothing, lemma_memory_knows_last_write, lemma_other_writes_are_invisible, lemma_replay_stays_within, memory_lookup, op_meaning};
use crate::compaction::version::FileMetaView;
use crate::db::{apply_ops, frozen_lookup};
use crate::error::ErrorKind;
use crate::lookup::LookupView;
use crate::memtable::lookup_in;
use crate::replay::{batch_ok, decoded, empty_memory, found_table, lemma_log_sound, lemma_log_sound_append, lemma_newest_log, log_to_replay, logged, memory_after, present_tables, recorded, replay_fits, replayed, table_id, tables_readable, MemoryView};
use crate::storage::FileId;
use crate::wal::reader::recover_from;
use crate::table_numbers::distinct_numbers;
use crate::write_batch::WriteOpView;

verus! {

/// The last write of a batch to a key, if the batch has one.
pub open spec fn last_in(ops: Seq<WriteOpView>, key: Seq<u8>) -> Option<WriteOpView>
    decreases ops.len(),
{
    if ops.len() == 0 {
        None
    } else if op_key(ops.last()) == key {
        Some(ops.last())
    } else {
        last_in(ops.drop_last(), key)
    }
}

/// The last write of the batches to a key, if they have one.
pub open spec fn last_write(batches: Seq<Seq<WriteOpView>>, key: Seq<u8>) -> Option<WriteOpView>
    decreases batches.len(),
{
    if batches.len() == 0 {
        None
    } else {
        match last_in(batches.last(), key) {
            Some(op) => Some(op),
            None => last_write(batches.drop_last(), key),
        }
    }
}

/// Where the last write of a batch to a key stands.
pub proof fn lemma_last_in(ops: Seq<WriteOpView>, key: Seq<u8>) -> (at: Option<int>)
    ensures
        match at {
            Some(i) => 0 <= i < ops.len() && last_in(ops, key) == Some(ops[i]) && op_key(ops[i])
                == key && forall|j: int| i < j < ops.len() ==> op_key(#[trigger] ops[j]) != key,
            None => last_in(ops, key) is None && forall|j: int|
                0 <= j < ops.len() ==> op_key(#[trigger] ops[j]) != key,
        },
    decreases ops.len(),
{
    if ops.len() == 0 {
        None
    } else if op_key(ops.last()) == key {
        Some(ops.len() - 1)
    } else {
        let at = lemma_last_in(ops.drop_last(), key);
        assert forall|j: int| 0 <= j < ops.len() - 1 implies ops.drop_last()[j] == ops[j] by {}
        match at {
            Some(i) => {
                assert(ops.drop_last()[i] == ops[i]);
                assert forall|j: int| i < j < ops.len() implies op_key(#[trigger] ops[j]) != key by {
                    if j < ops.len() - 1 {
                        assert(ops.drop_last()[j] == ops[j]);
                    }
                }
            },
            None => {
                assert forall|j: int| 0 <= j < ops.len() implies op_key(#[trigger] ops[j]) != key by {
                    if j < ops.len() - 1 {
                        assert(ops.drop_last()[j] == ops[j]);
                    }
                }
            },
        }
        at
    }
}

/// Writes to other keys change nothing of what the memory knows of a key.
pub proof fn lemma_memory_keeps_other_keys(
    m: MemoryView,
    ops: Seq<WriteOpView>,
    limit: usize,
    key: Seq<u8>,
    snapshot: u64,
)
    requires
        forall|j: int| 0 <= j < ops.len() ==> op_key(#[trigger] ops[j]) != key,
    ensures
        memory_lookup(memory_after(m, ops, limit), key, snapshot) == memory_lookup(
            m,
            key,
            snapshot,
        ),
{
    if ops.len() > 0 {
        let after = memory_after(m, ops, limit);
        let applied = apply_ops(m.active, ops, m.sequence);
        lemma_other_writes_are_invisible(m.active, ops, m.sequence, key, snapshot);
        if after.frozen != m.frozen {
            assert(after.frozen.drop_last() =~= m.frozen);
            assert(after.frozen.last() == applied);
            lemma_empty_knows_nothing(key, snapshot);
        }
    }
}

/// The memory that the replay of batches gives knows of every key what
/// the last write of the batches to the key says, and nothing of a key
/// that no batch writes.
pub proof fn lemma_replay_knows(
    first: u64,
    batches: Seq<Seq<WriteOpView>>,
    limit: usize,
    key: Seq<u8>,
    snapshot: u64,
)
    requires
        replay_fits(empty_memory(first), batches, limit),
        snapshot >= replayed(empty_memory(first), batches, limit).sequence,
    ensures
        memory_lookup(replayed(empty_memory(first), batches, limit), key, snapshot)
            == match last_write(batches, key) {
            Some(op) => op_meaning(op),
            None => LookupView::Missing,
        },
    decreases batches.len(),
{
    let start = empty_memory(first);
    if batches.len() == 0 {
        lemma_empty_knows_nothing(key, snapshot);
    } else {
        let front = batches.drop_last();
        let ops = batches.last();
        let m = replayed(start, front, limit);
        lemma_replay_stays_within(start, front, limit);
        match lemma_last_in(ops, key) {
            Some(i) => {
                lemma_memory_knows_last_write(m, ops, limit, i, snapshot);
            },
            None => {
                lemma_memory_keeps_other_keys(m, ops, limit, key, snapshot);
                lemma_replay_knows(first, front, limit, key, snapshot);
            },
        }
    }
}

/// Whether options open a database as the options of `db` do, where it is
/// there already: they are valid, do not ask for a new database, and have
/// the number of levels and the size of the MemTable of `db`.
pub open spec fn reopens(options: Options, db: &DB) -> bool {
    &&& options.valid()
    &&& !options.error_if_exists
    &&& options.max_levels == db.spec_options().max_levels
    &&& options.memtable_size == db.spec_options().memtable_size
}

/// The log that is replayed of the files of a database is the durable
/// part of its log.
pub proof fn lemma_stored_log(db: &DB, dir: Map<FileId, Seq<u8>>)
    requires
        db.well_formed(),
        db.stored_in(dir),
    ensures
        log_to_replay(dir) == db.log_bytes().subrange(0, db.log_synced() as int),
        logged(dir) == db.durable_batches(),
{
    lemma_newest_log(dir, db.spec_wal_file_number());
}

/// The files of a database can be opened again: whatever a database has
/// stored makes up a database.
pub proof fn lemma_files_open(db: &DB, dir: Map<FileId, Seq<u8>>, options: Options)
    requires
        db.well_formed(),
        db.stored_in(dir),
        reopens(options, db),
    ensures
        DB::opens(dir, options),
{
    db.lemma_stored();
    db.lemma_well_formed();
    lemma_stored_log(db, dir);
    let state = recorded(dir, options.max_levels)->Ok_0;
    lemma_log_sound(
        log_to_replay(dir),
        options.memtable_size,
        state.sequence,
        db.spec_sequence(),
    );
    assert(crate::replay::numbers_sound(state.levels, dir, options.max_levels)) by {
        let levels = state.levels;
        assert forall|l: int, j: int| #[trigger]
            crate::replay::present(levels, dir, options.max_levels, l, j) implies levels[l][j].file_number
            < u64::MAX by {
            assert(levels[l] == db.tables()[l].map_values(|t: TableView| t.meta));
            assert(db.tables()[l][j].meta.file_number < db.next_file_number());
        }
        assert forall|a: int, b: int, c: int, d: int|
            #![trigger crate::replay::present(levels, dir, options.max_levels, a, b), crate::replay::present(levels, dir, options.max_levels, c, d)]
            crate::replay::present(levels, dir, options.max_levels, a, b) && crate::replay::present(
                levels,
                dir,
                options.max_levels,
                c,
                d,
            ) && (a != c || b != d) implies levels[a][b].file_number != levels[c][d].file_number by {
            assert(levels[a] == db.tables()[a].map_values(|t: TableView| t.meta));
            assert(levels[c] == db.tables()[c].map_values(|t: TableView| t.meta));
            assert(db.tables()[a][b].meta.file_number != db.tables()[c][d].meta.file_number);
        }
    }
    assert forall|l: int| 0 <= l < state.levels.len() && l < options.max_levels implies tables_readable(
        #[trigger] state.levels[l],
        dir,
    ) by {
        let metas = state.levels[l];
        assert forall|j: int|
            0 <= j < metas.len() && dir.dom().contains(
                table_id((#[trigger] metas[j]).file_number),
            ) implies crate::sstable::reader::table_index(dir[table_id(metas[j].file_number)]) is Ok by {
            let number = metas[j].file_number;
            let (a, b) = choose|a: int, b: int|
                0 <= a < db.tables().len() && 0 <= b < db.tables()[a].len() && (
                #[trigger] db.tables()[a][b]).meta.file_number == number && dir[table_id(number)]
                    == db.tables()[a][b].file;
            assert(crate::sstable::reader::table_index(db.tables()[a][b].file) is Ok);
        }
    }
}

/// The tables of a level that are found among the files of a database
/// are the tables of the level.
pub proof fn lemma_tables_found(db: &DB, dir: Map<FileId, Seq<u8>>, l: int, n: int)
    requires
        db.well_formed(),
        db.stored_in(dir),
        0 <= l < db.tables().len(),
        0 <= n <= db.tables()[l].len(),
    ensures
        present_tables(meta_levels(db.tables())[l].subrange(0, n), dir) == db.tables()[l].subrange(
            0,
            n,
        ),
    decreases n,
{
    let metas = meta_levels(db.tables())[l];
    let tables = db.tables()[l];
    assert(metas == tables.map_values(|t: TableView| t.meta));
    if n == 0 {
        assert(tables.subrange(0, 0) =~= Seq::<TableView>::empty());
        assert(metas.subrange(0, 0) =~= Seq::<FileMetaView>::empty());
    } else {
        lemma_tables_found(db, dir, l, n - 1);
        db.lemma_stored();
        let upto = metas.subrange(0, n);
        assert(upto.drop_last() =~= metas.subrange(0, n - 1));
        assert(upto.last() == tables[n - 1].meta);
        let t = tables[n - 1];
        let number = t.meta.file_number;
        assert(dir.dom().contains(table_id(number)));
        let (a, b) = choose|a: int, b: int|
            0 <= a < db.tables().len() && 0 <= b < db.tables()[a].len() && (
            #[trigger] db.tables()[a][b]).meta.file_number == number && dir[table_id(number)]
                == db.tables()[a][b].file;
        assert(a == l && b == n - 1);
        assert(found_table(t.meta, dir[table_id(number)]) == t);
        assert(tables.subrange(0, n) =~= tables.subrange(0, n - 1).push(t));
    }
}

/// A database that is opened of the files of a database knows what was
/// durable: of every key that the durable part of the log writes, what
/// the last write to it says; of every other key, what the tables know.
/// This holds for readers at or above the sequence number of the opened
/// database.
pub proof fn lemma_reopened_answers(
    db: &DB,
    dir: Map<FileId, Seq<u8>>,
    options: Options,
    reopened: &DB,
    key: Seq<u8>,
    snapshot: u64,
)
    requires
        db.well_formed(),
        db.stored_in(dir),
        reopens(options, db),
        reopened.opened_from(dir, options),
        snapshot >= reopened.spec_sequence(),
    ensures
        reopened.tables() == db.tables(),
        reopened.lookup(key, snapshot) == match last_write(db.durable_batches(), key) {
            Some(op) => Ok::<LookupView, ErrorKind>(op_meaning(op)),
            None => levels_lookup(db.tables(), 0, key),
        },
{
    lemma_files_open(db, dir, options);
    lemma_stored_log(db, dir);
    db.lemma_stored();
    db.lemma_well_formed();
    let state = recorded(dir, options.max_levels)->Ok_0;
    assert forall|l: int| 0 <= l < db.tables().len() implies reopened.tables()[l]
        == db.tables()[l] by {
        lemma_tables_found(db, dir, l, db.tables()[l].len() as int);
        let metas = meta_levels(db.tables())[l];
        assert(metas.subrange(0, metas.len() as int) =~= metas);
        assert(db.tables()[l].subrange(0, db.tables()[l].len() as int) =~= db.tables()[l]);
    }
    assert(reopened.tables() =~= db.tables());
    lemma_replay_knows(state.sequence, logged(dir), options.memtable_size, key, snapshot);
}

/// A write that is logged and made durable is the last batch of the
/// durable part of the log, behind the batches that were durable before.
pub proof fn lemma_write_is_durable(before: &DB, after: &DB, ops: Seq<WriteOpView>)
    requires
        before.well_formed(),
        before.spec_options().use_wal,
        before.spec_options().sync_wal,
        before.log_synced() == before.log_bytes().len(),
        before.accepts(ops),
        ops.len() > 0,
        after.wrote(before, ops, false),
    ensures
        after.log_synced() == after.log_bytes().len(),
        after.durable_batches() == before.durable_batches().push(ops),
{
    before.lemma_stored();
    let log = before.log_bytes();
    assert(log.subrange(0, log.len() as int) =~= log);
    let state = crate::compaction::manifest::manifest_state(
        before.manifest_bytes(),
        before.spec_options().max_levels,
    )->Ok_0;
    lemma_log_sound_append(
        log,
        ops,
        before.spec_options().memtable_size,
        state.sequence,
        before.spec_sequence(),
    );
    let now = after.log_bytes();
    assert(now.subrange(0, now.len() as int) =~= now);
}

/// A database that is flushed and closed is found again as it was: where
/// no MemTable holds a version and the log holds nothing, the files can
/// be opened, and the opened database knows of every key what the
/// database knew.
pub proof fn lemma_closed_database_reopens(
    db: &DB,
    dir: Map<FileId, Seq<u8>>,
    options: Options,
    reopened: &DB,
    key: Seq<u8>,
    was: u64,
    now: u64,
)
    requires
        db.well_formed(),
        db.settled(),
        db.log_bytes() == Seq::<u8>::empty(),
        db.stored_in(dir),
        reopens(options, db),
        reopened.opened_from(dir, options),
        now >= reopened.spec_sequence(),
    ensures
        DB::opens(dir, options),
        reopened.lookup(key, now) == db.lookup(key, was),
{
    lemma_files_open(db, dir, options);
    lemma_reopened_answers(db, dir, options, reopened, key, now);
    db.lemma_well_formed();
    crate::wal::recovery::lemma_empty_log();
    let durable = db.log_bytes().subrange(0, db.log_synced() as int);
    assert(durable =~= Seq::<u8>::empty());
    assert(db.durable_batches() =~= Seq::<Seq<WriteOpView>>::empty());
    lemma_empty_knows_nothing(key, was);
    assert(db.frozen() =~= Seq::<Map<crate::memtable::skiplist::EntryKey, Seq<u8>>>::empty());
}

/// A flush that sets off no compaction keeps what readers see: after it
/// a reader at any sequence number finds for every key what a reader at
/// or above the sequence number of the engine found before; only a value
/// without bytes reads as a deletion from then on.
pub proof fn lemma_whole_flush_keeps_answers(
    before: &DB,
    after: &DB,
    mid: &DB,
    key: Seq<u8>,
    was: u64,
    now: u64,
)
    requires
        before.well_formed(),
        after.flushed_through(before, mid),
        crate::compaction::picker::pick(
            meta_levels(mid.tables()),
            before.spec_options().max_levels,
        ) is None,
        was >= before.spec_sequence(),
    ensures
        after.lookup(key, now) == match before.lookup(key, was) {
            Ok(found) => Ok::<LookupView, ErrorKind>(crate::flush::flattened(found)),
            Err(k) => Err::<LookupView, ErrorKind>(k),
        },
{
    crate::db_laws::lemma_flush_keeps_answers(before, mid, key, was, now);
}

} // verus!
