//! The engine: writes, reads, flushes, compactions and recovery.
//!
//! A write gets the next sequence number, goes to the log and then into
//! the active MemTable. A MemTable that has reached its size is frozen; a
//! flush writes the frozen MemTables out as tables of level 0. A read looks
//! into the active MemTable, the frozen ones from the newest to the oldest,
//! and the tables level by level, in each level from the newest to the
//! oldest; the first store that knows the key answers.

use vstd::prelude::*;
use crate::codec::copy_bytes;
use crate::compaction::version::{FileMetaData, FileMetaView, VersionEdit};
use crate::flush::{build_table, is_flush_of, FlushedTable};
use crate::sstable::builder::is_table_of;
use crate::sstable::layout::fits;
use crate::config::CompressionType;
use crate::compaction::job::{compact, job_sources};
use crate::compaction::merge::{merge_output, source_views};
use crate::compaction::merge_laws::ascending;
use crate::sstable::reader::{entry_list, table_entries};
use crate::compaction::picker::pick;
use crate::compaction::version::without_file;
use crate::compaction::{CompactionJob, CompactionPicker, VersionSet};
use crate::config::Options;
use crate::error::{Error, ErrorKind};
use crate::filter::BloomFilter;
use crate::key_order::{key_le, key_less_or_equal};
use crate::lookup::{Lookup, LookupView};
use crate::memtable::skiplist::{empty_contents, EntryKey};
use crate::memtable::{entry_key, lemma_later_write_is_invisible, lemma_newest_write_is_found, lookup_in, sequence_of, MemTable, ValueType, ENTRY_OVERHEAD};
use crate::sstable::block::KeyValue;
use crate::sstable::reader::{stored_meaning, table_find, SSTableReader};
use crate::wal::writer::frame_entry;
use crate::replay::{lemma_numbers_sound, lemma_present_origin, numbers_sound, batch_ok, lemma_log_sound_later, lemma_empty_log_sound, lemma_log_sound_append, log_sound, absent_below, absent_tables, all_decode, decoded, empty_memory, found_table, is_newest_log, lemma_newest_log, lemma_replay_prefix, log_id, log_to_replay, logged, memory_after, newest_log, present_tables, recorded, replay_fits, replayed, restorable, table_id, tables_readable, takes, MemoryView};
use crate::cache::lru::BlockCache;
use crate::cached_read::{database_lookup_cached, level_lookup_cached, levels_lookup_cached, table_lookup_cached, CachedAnswer};
use crate::storage::{Directory, FileId, FileKind};
use crate::table_numbers::{distinct_numbers, lemma_push_keeps_numbers, lemma_without_keeps_numbers, number_used, numbers_below};
use crate::wal::reader::recover_from;
use crate::wal::recovery::{ends_cleanly, lemma_empty_log, lemma_recover_append};
use crate::wal::WAL;
use crate::write_batch::{decode_batch, decode_ops};
use crate::compaction::manifest::{manifest_state, VersionState};
use crate::sstable::reader::table_index;
use crate::write_batch::{encode_batch, encode_ops, op_views, WriteBatch, WriteOp, WriteOpView};

verus! {

/// A table of the database: what the version knows of it, and its reader.
pub struct TableHandle {
    /// What the version knows of the table.
    pub meta: FileMetaData,
    /// The open table.
    pub reader: SSTableReader,
}

/// A table of the database, as a mathematical value.
pub struct TableView {
    pub meta: FileMetaView,
    pub file: Seq<u8>,
}

impl TableHandle {
    /// Whether the size and the number that the version knows are those of
    /// the file.
    pub open spec fn sized(&self) -> bool {
        self.meta.file_size == self.reader.bytes().len() && self.meta.file_number
            == self.reader.number()
    }
}

impl View for TableHandle {
    type V = TableView;

    open spec fn view(&self) -> TableView {
        TableView { meta: self.meta@, file: self.reader.bytes() }
    }
}

/// The tables of the levels, as mathematical values.
pub open spec fn table_views(levels: Seq<Vec<TableHandle>>) -> Seq<Seq<TableView>> {
    levels.map_values(|tables: Vec<TableHandle>| tables@.map_values(|t: TableHandle| t@))
}

/// What the frozen MemTables know of a key, the newest first; the newest
/// is the last of the list.
pub open spec fn frozen_lookup(frozen: Seq<Map<EntryKey, Seq<u8>>>, key: Seq<u8>, snapshot: u64)
    -> LookupView
    decreases frozen.len(),
{
    if frozen.len() == 0 {
        LookupView::Missing
    } else {
        lookup_in(frozen.last(), key, snapshot).or(
            frozen_lookup(frozen.drop_last(), key, snapshot),
        )
    }
}

/// Whether the key range of a table reaches over `key`.
pub open spec fn covers(meta: FileMetaView, key: Seq<u8>) -> bool {
    key_le(meta.smallest_key, key) && key_le(key, meta.largest_key)
}

/// What the tables of one level know of a key, the newest first; the
/// newest is the last of the list. From level 1 on only tables whose key
/// range reaches over the key are asked.
pub open spec fn level_lookup(tables: Seq<TableView>, level: int, key: Seq<u8>) -> Result<
    LookupView,
    ErrorKind,
>
    decreases tables.len(),
{
    if tables.len() == 0 {
        Ok(LookupView::Missing)
    } else if level >= 1 && !covers(tables.last().meta, key) {
        level_lookup(tables.drop_last(), level, key)
    } else {
        match table_find(tables.last().file, key) {
            Err(k) => Err(k),
            Ok(stored) => if stored_meaning(stored) is Missing {
                level_lookup(tables.drop_last(), level, key)
            } else {
                Ok(stored_meaning(stored))
            },
        }
    }
}

/// What the levels from `from` on know of a key, the shallowest first.
pub open spec fn levels_lookup(levels: Seq<Seq<TableView>>, from: int, key: Seq<u8>) -> Result<
    LookupView,
    ErrorKind,
>
    decreases levels.len() - from,
{
    if from < 0 || from >= levels.len() {
        Ok(LookupView::Missing)
    } else {
        match level_lookup(levels[from], from, key) {
            Err(k) => Err(k),
            Ok(found) => if found is Missing {
                levels_lookup(levels, from + 1, key)
            } else {
                Ok(found)
            },
        }
    }
}

/// What a database knows of a key at a snapshot: what its active MemTable
/// knows, else what its frozen MemTables know, else what its tables know.
pub open spec fn database_lookup(
    active: Map<EntryKey, Seq<u8>>,
    frozen: Seq<Map<EntryKey, Seq<u8>>>,
    levels: Seq<Seq<TableView>>,
    key: Seq<u8>,
    snapshot: u64,
) -> Result<LookupView, ErrorKind> {
    let memory = lookup_in(active, key, snapshot).or(frozen_lookup(frozen, key, snapshot));
    if memory is Missing {
        levels_lookup(levels, 0, key)
    } else {
        Ok(memory)
    }
}

/// The key and the value under which a write is stored at `sequence`.
pub open spec fn written_key(op: WriteOpView, sequence: u64) -> EntryKey {
    match op {
        WriteOpView::Put { key, .. } => entry_key(key, sequence, ValueType::Value),
        WriteOpView::Delete { key } => entry_key(key, sequence, ValueType::Deletion),
    }
}

/// The value that a write stores: nothing for a deletion.
pub open spec fn written_value(op: WriteOpView) -> Seq<u8> {
    match op {
        WriteOpView::Put { value, .. } => value,
        WriteOpView::Delete { .. } => Seq::<u8>::empty(),
    }
}

/// The user key of a write.
pub open spec fn op_key(op: WriteOpView) -> Seq<u8> {
    match op {
        WriteOpView::Put { key, .. } => key,
        WriteOpView::Delete { key } => key,
    }
}

/// The bytes that a write adds to the size of a MemTable.
pub open spec fn op_weight(op: WriteOpView) -> nat {
    op_key(op).len() + written_value(op).len() + ENTRY_OVERHEAD as nat
}

/// The bytes that writes add to the size of a MemTable.
pub open spec fn ops_weight(ops: Seq<WriteOpView>) -> nat
    decreases ops.len(),
{
    if ops.len() == 0 {
        0
    } else {
        ops_weight(ops.drop_last()) + op_weight(ops.last())
    }
}

/// A MemTable after writes at the sequence numbers behind `base`, one for
/// each write.
pub open spec fn apply_ops(contents: Map<EntryKey, Seq<u8>>, ops: Seq<WriteOpView>, base: u64)
    -> Map<EntryKey, Seq<u8>>
    decreases ops.len(),
{
    if ops.len() == 0 {
        contents
    } else {
        apply_ops(contents, ops.drop_last(), base).insert(
            written_key(ops.last(), (base + ops.len()) as u64),
            written_value(ops.last()),
        )
    }
}

/// Whether every version in a MemTable has a sequence number of at most
/// `bound`.
pub open spec fn sequences_within(contents: Map<EntryKey, Seq<u8>>, bound: u64) -> bool {
    forall|k: EntryKey| #[trigger] contents.dom().contains(k) ==> sequence_of(k) <= bound
}

/// Whether a batch can be written: no key is empty.
pub open spec fn keys_not_empty(ops: Seq<WriteOpView>) -> bool {
    forall|i: int| 0 <= i < ops.len() ==> op_key(#[trigger] ops[i]).len() > 0
}

/// The contents of the MemTables of a list.
pub open spec fn memtable_contents(tables: Seq<MemTable>) -> Seq<Map<EntryKey, Seq<u8>>> {
    tables.map_values(|t: MemTable| t.contents())
}

/// The storage engine.
pub struct DB {
    options: Options,
    memtable: MemTable,
    immutable_memtables: Vec<MemTable>,
    wal: WAL,
    sstables: Vec<Vec<TableHandle>>,
    sequence: u64,
    wal_file_number: u64,
    version_set: VersionSet,
    compaction_picker: CompactionPicker,
    missing_files: Vec<u64>,
}

impl DB {
    /// The highest sequence number handed out.
    pub closed spec fn spec_sequence(&self) -> u64 {
        self.sequence
    }

    /// The versions in the active MemTable.
    pub closed spec fn active(&self) -> Map<EntryKey, Seq<u8>> {
        self.memtable.contents()
    }

    /// The versions in the frozen MemTables, the oldest MemTable first.
    pub closed spec fn frozen(&self) -> Seq<Map<EntryKey, Seq<u8>>> {
        memtable_contents(self.immutable_memtables@)
    }

    /// The tables of the levels; in each level the oldest table first.
    pub closed spec fn tables(&self) -> Seq<Seq<TableView>> {
        table_views(self.sstables@)
    }

    /// The options with which the database was opened.
    pub closed spec fn spec_options(&self) -> Options {
        self.options
    }

    /// The bytes of the log.
    pub closed spec fn log_bytes(&self) -> Seq<u8> {
        self.wal.bytes()
    }

    /// The number of leading bytes of the log that are durable.
    pub closed spec fn log_synced(&self) -> nat {
        self.wal.synced_len()
    }

    /// The number of the log file.
    pub closed spec fn spec_wal_file_number(&self) -> u64 {
        self.wal_file_number
    }

    /// The size of the active MemTable.
    pub closed spec fn active_size(&self) -> usize {
        self.memtable.spec_size()
    }

    /// The bytes of the manifest.
    pub closed spec fn manifest_bytes(&self) -> Seq<u8> {
        self.version_set.log()
    }

    /// The number that the next table file gets.
    pub closed spec fn next_file_number(&self) -> u64 {
        self.version_set.spec_next_file_number()
    }

    /// The numbers of the table files that were not there at opening.
    pub closed spec fn missing(&self) -> Seq<u64> {
        self.missing_files@
    }

    /// The memory of the engine.
    pub open spec fn memory(&self) -> MemoryView {
        MemoryView {
            active: self.active(),
            active_size: self.active_size(),
            frozen: self.frozen(),
            sequence: self.spec_sequence(),
        }
    }

    /// The parts of the engine agree with each other, and the active
    /// MemTable is below the size at which it is frozen.
    pub closed spec fn well_formed(&self) -> bool {
        self.sound() && self.memtable.spec_size() < self.options.memtable_size
    }

    /// The parts of the engine agree with each other.
    pub closed spec fn sound(&self) -> bool {
        &&& self.options.valid()
        &&& self.memtable.well_formed()
        &&& sequences_within(self.memtable.contents(), self.sequence)
        &&& forall|i: int|
            0 <= i < self.immutable_memtables@.len() ==> (
            #[trigger] self.immutable_memtables@[i]).well_formed() && sequences_within(
                self.immutable_memtables@[i].contents(),
                self.sequence,
            ) && self.immutable_memtables@[i].contents() != empty_contents()
        &&& log_sound(
            self.wal.bytes(),
            self.options.memtable_size,
            self.version_set.spec_sequence(),
            self.sequence,
        )
        &&& log_sound(
            self.wal.bytes().subrange(0, self.wal.synced_len() as int),
            self.options.memtable_size,
            self.version_set.spec_sequence(),
            self.sequence,
        )
        &&& self.wal.well_formed()
        &&& self.wal_file_number >= 1
        &&& ends_cleanly(self.wal.bytes(), 0)
        &&& self.version_set.well_formed()
        &&& self.version_set.spec_max_levels() == self.options.max_levels
        &&& self.sstables@.len() == self.options.max_levels
        &&& forall|l: int, i: int|
            0 <= l < self.sstables@.len() && 0 <= i < self.sstables@[l]@.len() ==> (
            #[trigger] self.sstables@[l]@[i]).reader.well_formed()
        &&& forall|l: int, i: int|
            0 <= l < self.sstables@.len() && 0 <= i < self.sstables@[l]@.len() ==> (
            #[trigger] self.sstables@[l]@[i]).sized()
        &&& distinct_numbers(table_views(self.sstables@))
        &&& numbers_below(table_views(self.sstables@), self.version_set.spec_next_file_number())
        &&& meta_views(self.sstables@) == self.version_set.levels()
        &&& self.compaction_picker.spec_max_levels() == self.options.max_levels
    }

    /// What a well-formed engine promises of its MemTables and levels:
    /// the MemTables are tidy, no version is newer than the sequence
    /// number of the engine, and there is a level 0.
    pub proof fn lemma_well_formed(&self)
        requires
            self.well_formed(),
        ensures
            self.spec_options().valid(),
            self.tables().len() == self.spec_options().max_levels,
            crate::memtable::tidy(self.active()),
            sequences_within(self.active(), self.spec_sequence()),
            forall|i: int|
                0 <= i < self.frozen().len() ==> crate::memtable::tidy(#[trigger] self.frozen()[i])
                    && sequences_within(self.frozen()[i], self.spec_sequence())
                    && self.frozen()[i] != empty_contents(),
            ends_cleanly(self.log_bytes(), 0),
            self.log_synced() <= self.log_bytes().len(),
            self.spec_wal_file_number() >= 1,
    {
        self.wal.lemma_synced_within();
        assert forall|i: int| 0 <= i < self.frozen().len() implies crate::memtable::tidy(
            #[trigger] self.frozen()[i],
        ) && sequences_within(self.frozen()[i], self.spec_sequence()) && self.frozen()[i]
            != empty_contents() by {
            assert(self.immutable_memtables@[i].well_formed());
            assert(self.frozen()[i] == self.immutable_memtables@[i].contents());
        }
    }

    /// The batches of the durable part of the log.
    pub open spec fn durable_batches(&self) -> Seq<Seq<WriteOpView>> {
        decoded(recover_from(self.log_bytes().subrange(0, self.log_synced() as int), 0))
    }

    /// What a well-formed engine promises of what it has stored: the
    /// manifest records its levels; the durable part of its log is a log
    /// of batches that can be written again, from the sequence number of
    /// the manifest on; the file of every table can be opened and has the
    /// size that the version knows; and no two tables have the same file
    /// number.
    pub proof fn lemma_stored(&self)
        requires
            self.well_formed(),
        ensures
            manifest_state(self.manifest_bytes(), self.spec_options().max_levels) matches Ok(state)
                && state.levels == meta_levels(self.tables()) && log_sound(
                self.log_bytes().subrange(0, self.log_synced() as int),
                self.spec_options().memtable_size,
                state.sequence,
                self.spec_sequence(),
            ),
            forall|l: int, j: int|
                0 <= l < self.tables().len() && 0 <= j < self.tables()[l].len() ==> table_index(
                    (#[trigger] self.tables()[l][j]).file,
                ) is Ok && self.tables()[l][j].meta.file_size == self.tables()[l][j].file.len(),
            self.active_size() < self.spec_options().memtable_size,
            distinct_numbers(self.tables()),
            numbers_below(self.tables(), self.next_file_number()),
    {
        self.version_set.lemma_well_formed();
        lemma_meta_levels(self.sstables@);
        assert forall|l: int, j: int|
            0 <= l < self.tables().len() && 0 <= j < self.tables()[l].len() implies table_index(
            (#[trigger] self.tables()[l][j]).file,
        ) is Ok && self.tables()[l][j].meta.file_size == self.tables()[l][j].file.len() by {
            let handle = self.sstables@[l]@[j];
            assert(handle.reader.well_formed());
            assert(handle.sized());
            handle.reader.lemma_index();
            assert(self.tables()[l][j] == handle@);
        }
    }

    /// What the database knows of a key at a snapshot.
    pub open spec fn lookup(&self, key: Seq<u8>, snapshot: u64) -> Result<LookupView, ErrorKind> {
        database_lookup(self.active(), self.frozen(), self.tables(), key, snapshot)
    }

    /// What the frozen MemTables know of a key.
    fn find_in_frozen(&self, key: &[u8], snapshot: u64) -> (found: Lookup)
        requires
            self.well_formed(),
        ensures
            found@ == frozen_lookup(self.frozen(), key@, snapshot),
    {
        let ghost frozen = self.frozen();
        let mut i: usize = self.immutable_memtables.len();
        proof {
            assert(frozen.subrange(0, i as int) =~= frozen);
        }
        while i > 0
            invariant
                self.well_formed(),
                frozen == self.frozen(),
                i <= self.immutable_memtables@.len(),
                frozen_lookup(frozen, key@, snapshot) == frozen_lookup(
                    frozen.subrange(0, i as int),
                    key@,
                    snapshot,
                ),
            decreases i,
        {
            i -= 1;
            let found = self.immutable_memtables[i].find(key, snapshot);
            proof {
                let upto = frozen.subrange(0, i + 1);
                assert(upto.drop_last() =~= frozen.subrange(0, i as int));
                assert(upto.last() == self.immutable_memtables@[i as int].contents());
            }
            if !found.is_missing() {
                return found;
            }
        }
        proof {
            assert(frozen.subrange(0, 0) =~= Seq::<Map<EntryKey, Seq<u8>>>::empty());
        }
        Lookup::Missing
    }

    /// What the tables of one level know of a key.
    fn find_in_level(&self, level: usize, key: &[u8]) -> (r: Result<Lookup, Error>)
        requires
            self.well_formed(),
            level < self.tables().len(),
        ensures
            match level_lookup(self.tables()[level as int], level as int, key@) {
                Ok(found) => r matches Ok(l) && l@ == found,
                Err(k) => r matches Err(e) && e.kind() == k,
            },
    {
        let tables = &self.sstables[level];
        let ghost views = self.tables()[level as int];
        let mut i: usize = tables.len();
        proof {
            assert(views == tables@.map_values(|t: TableHandle| t@));
            assert(views.subrange(0, i as int) =~= views);
        }
        while i > 0
            invariant
                self.well_formed(),
                level < self.sstables@.len(),
                tables == self.sstables@[level as int],
                views == tables@.map_values(|t: TableHandle| t@),
                i <= tables@.len(),
                level_lookup(views, level as int, key@) == level_lookup(
                    views.subrange(0, i as int),
                    level as int,
                    key@,
                ),
            decreases i,
        {
            i -= 1;
            let table = &tables[i];
            proof {
                let upto = views.subrange(0, i + 1);
                assert(upto.drop_last() =~= views.subrange(0, i as int));
                assert(upto.last() == table@);
                assert(self.sstables@[level as int]@[i as int].reader.well_formed());
            }
            let asked = level == 0 || (key_less_or_equal(table.meta.smallest_key.as_slice(), key)
                && key_less_or_equal(key, table.meta.largest_key.as_slice()));
            if asked {
                match table.reader.find(key) {
                    Ok(found) => {
                        if !found.is_missing() {
                            return Ok(found);
                        }
                    },
                    Err(e) => {
                        return Err(e);
                    },
                }
            }
        }
        proof {
            assert(views.subrange(0, 0) =~= Seq::<TableView>::empty());
        }
        Ok(Lookup::Missing)
    }

    /// What the database knows of `key` at the sequence number `sequence`:
    /// the answer of the first store, from the newest to the oldest, that
    /// holds a version of the key.
    pub fn find_at_sequence(&self, key: &[u8], sequence: u64) -> (r: Result<Lookup, Error>)
        requires
            self.well_formed(),
        ensures
            match self.lookup(key@, sequence) {
                Ok(found) => r matches Ok(l) && l@ == found,
                Err(k) => r matches Err(e) && e.kind() == k,
            },
    {
        let found = self.memtable.find(key, sequence);
        if !found.is_missing() {
            return Ok(found);
        }
        let found = self.find_in_frozen(key, sequence);
        if !found.is_missing() {
            return Ok(found);
        }
        let ghost levels = self.tables();
        let mut level: usize = 0;
        while level < self.sstables.len()
            invariant
                self.well_formed(),
                levels == self.tables(),
                level <= self.sstables@.len(),
                levels.len() == self.sstables@.len(),
                lookup_in(self.active(), key@, sequence) is Missing,
                frozen_lookup(self.frozen(), key@, sequence) is Missing,
                levels_lookup(levels, 0, key@) == levels_lookup(levels, level as int, key@),
            decreases self.sstables@.len() - level,
        {
            match self.find_in_level(level, key) {
                Ok(found) => {
                    if !found.is_missing() {
                        return Ok(found);
                    }
                },
                Err(e) => {
                    return Err(e);
                },
            }
            level += 1;
        }
        Ok(Lookup::Missing)
    }

    /// What the tables of a level know of a key, read through a cache.
    fn find_in_level_cached(&self, level: usize, key: &[u8], cache: &mut BlockCache) -> (r: Result<
        Lookup,
        Error,
    >)
        requires
            self.well_formed(),
            level < self.tables().len(),
            old(cache).well_formed(),
        ensures
            final(cache).well_formed(),
            final(cache).spec_capacity() == old(cache).spec_capacity(),
            final(cache).entries() == level_lookup_cached(
                self.tables()[level as int],
                level as int,
                key@,
                old(cache).entries(),
                old(cache).spec_capacity(),
            ).cached,
            match level_lookup_cached(
                self.tables()[level as int],
                level as int,
                key@,
                old(cache).entries(),
                old(cache).spec_capacity(),
            ).found {
                Ok(found) => r matches Ok(l) && l@ == found,
                Err(k) => r matches Err(e) && e.kind() == k,
            },
    {
        let tables = &self.sstables[level];
        let ghost views = self.tables()[level as int];
        let ghost start = cache.entries();
        let ghost capacity = cache.spec_capacity();
        let mut i: usize = tables.len();
        proof {
            assert(views == tables@.map_values(|t: TableHandle| t@));
            assert(views.subrange(0, i as int) =~= views);
        }
        while i > 0
            invariant
                self.well_formed(),
                cache.well_formed(),
                cache.spec_capacity() == capacity,
                start == old(cache).entries(),
                capacity == old(cache).spec_capacity(),
                level < self.sstables@.len(),
                tables == self.sstables@[level as int],
                views == tables@.map_values(|t: TableHandle| t@),
                i <= tables@.len(),
                level_lookup_cached(views, level as int, key@, start, capacity)
                    == level_lookup_cached(
                    views.subrange(0, i as int),
                    level as int,
                    key@,
                    cache.entries(),
                    capacity,
                ),
            decreases i,
        {
            i -= 1;
            let table = &tables[i];
            proof {
                let upto = views.subrange(0, i + 1);
                assert(upto.drop_last() =~= views.subrange(0, i as int));
                assert(upto.last() == table@);
                assert(self.sstables@[level as int]@[i as int].reader.well_formed());
                assert(self.sstables@[level as int]@[i as int].sized());
            }
            let asked = level == 0 || (key_less_or_equal(table.meta.smallest_key.as_slice(), key)
                && key_less_or_equal(key, table.meta.largest_key.as_slice()));
            if asked {
                match table.reader.find_cached(key, cache) {
                    Ok(found) => {
                        if !found.is_missing() {
                            return Ok(found);
                        }
                    },
                    Err(e) => {
                        return Err(e);
                    },
                }
            }
        }
        proof {
            assert(views.subrange(0, 0) =~= Seq::<TableView>::empty());
        }
        Ok(Lookup::Missing)
    }

    /// A block cache of the size that the options ask for.
    pub fn new_cache(&self) -> (cache: BlockCache)
        ensures
            cache.well_formed(),
            cache.entries() == Seq::<crate::cache::lru::CachedBlock>::empty(),
            cache.spec_capacity() == self.spec_options().block_cache_size,
    {
        BlockCache::new(self.options.block_cache_size)
    }

    /// What the database knows of a key at a snapshot, its tables read
    /// through a cache.
    pub open spec fn lookup_cached(
        &self,
        key: Seq<u8>,
        snapshot: u64,
        cached: Seq<crate::cache::lru::CachedBlock>,
        capacity: usize,
    ) -> CachedAnswer {
        database_lookup_cached(
            self.active(),
            self.frozen(),
            self.tables(),
            key,
            snapshot,
            cached,
            capacity,
        )
    }

    /// What the database knows of `key` as of the sequence number
    /// `sequence`, the data blocks of its tables read through a cache: the
    /// MemTables are asked first, then the levels, each table through the
    /// cache. A block that is read from a file is put into the cache.
    pub fn find_cached_at_sequence(&self, key: &[u8], sequence: u64, cache: &mut BlockCache) -> (r:
        Result<Lookup, Error>)
        requires
            self.well_formed(),
            old(cache).well_formed(),
        ensures
            final(cache).well_formed(),
            final(cache).spec_capacity() == old(cache).spec_capacity(),
            final(cache).entries() == self.lookup_cached(
                key@,
                sequence,
                old(cache).entries(),
                old(cache).spec_capacity(),
            ).cached,
            match self.lookup_cached(
                key@,
                sequence,
                old(cache).entries(),
                old(cache).spec_capacity(),
            ).found {
                Ok(found) => r matches Ok(l) && l@ == found,
                Err(k) => r matches Err(e) && e.kind() == k,
            },
    {
        let found = self.memtable.find(key, sequence);
        if !found.is_missing() {
            return Ok(found);
        }
        let found = self.find_in_frozen(key, sequence);
        if !found.is_missing() {
            return Ok(found);
        }
        let ghost levels = self.tables();
        let ghost start = cache.entries();
        let ghost capacity = cache.spec_capacity();
        let mut level: usize = 0;
        while level < self.sstables.len()
            invariant
                self.well_formed(),
                cache.well_formed(),
                cache.spec_capacity() == capacity,
                start == old(cache).entries(),
                capacity == old(cache).spec_capacity(),
                levels == self.tables(),
                level <= self.sstables@.len(),
                levels.len() == self.sstables@.len(),
                lookup_in(self.active(), key@, sequence) is Missing,
                frozen_lookup(self.frozen(), key@, sequence) is Missing,
                levels_lookup_cached(levels, 0, key@, start, capacity) == levels_lookup_cached(
                    levels,
                    level as int,
                    key@,
                    cache.entries(),
                    capacity,
                ),
            decreases self.sstables@.len() - level,
        {
            match self.find_in_level_cached(level, key, cache) {
                Ok(found) => {
                    if !found.is_missing() {
                        return Ok(found);
                    }
                },
                Err(e) => {
                    return Err(e);
                },
            }
            level += 1;
        }
        Ok(Lookup::Missing)
    }

    /// The value of `key`, the data blocks of the tables read through a
    /// cache: `None` when the key has no value or is deleted.
    pub fn get_cached(&self, key: &[u8], cache: &mut BlockCache) -> (r: Result<
        Option<Vec<u8>>,
        Error,
    >)
        requires
            self.well_formed(),
            old(cache).well_formed(),
        ensures
            final(cache).well_formed(),
            final(cache).spec_capacity() == old(cache).spec_capacity(),
            final(cache).entries() == self.lookup_cached(
                key@,
                self.spec_sequence(),
                old(cache).entries(),
                old(cache).spec_capacity(),
            ).cached,
            match self.lookup_cached(
                key@,
                self.spec_sequence(),
                old(cache).entries(),
                old(cache).spec_capacity(),
            ).found {
                Ok(found) => match found.value() {
                    Some(v) => r matches Ok(Some(bytes)) && bytes@ == v,
                    None => r matches Ok(None),
                },
                Err(k) => r matches Err(e) && e.kind() == k,
            },
    {
        match self.find_cached_at_sequence(key, self.sequence, cache) {
            Ok(l) => Ok(l.into_value()),
            Err(e) => Err(e),
        }
    }

    /// The value of `key` as a reader at the sequence number `sequence`
    /// sees it: `None` when the key is not there or is deleted.
    pub fn get_at_sequence(&self, key: &[u8], sequence: u64) -> (r: Result<Option<Vec<u8>>, Error>)
        requires
            self.well_formed(),
        ensures
            match self.lookup(key@, sequence) {
                Ok(found) => match found.value() {
                    Some(v) => r matches Ok(Some(bytes)) && bytes@ == v,
                    None => r matches Ok(None),
                },
                Err(k) => r matches Err(e) && e.kind() == k,
            },
    {
        match self.find_at_sequence(key, sequence) {
            Ok(found) => Ok(found.into_value()),
            Err(e) => Err(e),
        }
    }

    /// The value of `key` as it is now: `None` when the key is not there or
    /// is deleted.
    pub fn get(&self, key: &[u8]) -> (r: Result<Option<Vec<u8>>, Error>)
        requires
            self.well_formed(),
        ensures
            match self.lookup(key@, self.spec_sequence()) {
                Ok(found) => match found.value() {
                    Some(v) => r matches Ok(Some(bytes)) && bytes@ == v,
                    None => r matches Ok(None),
                },
                Err(k) => r matches Err(e) && e.kind() == k,
            },
    {
        self.get_at_sequence(key, self.sequence)
    }

    /// Whether writes can be taken: no key is empty, there are sequence
    /// numbers left for them, and the size of a MemTable that holds them,
    /// which is frozen at the size of the options, stays countable.
    pub open spec fn accepts(&self, ops: Seq<WriteOpView>) -> bool {
        &&& keys_not_empty(ops)
        &&& self.spec_sequence() + ops.len() <= u64::MAX
        &&& self.spec_options().memtable_size + ops_weight(ops) <= usize::MAX
    }

    /// Whether the writes fill the active MemTable up to its size.
    pub open spec fn fills(&self, ops: Seq<WriteOpView>) -> bool {
        self.active_size() + ops_weight(ops) >= self.spec_options().memtable_size
    }

    /// What writes that were taken have done to the engine: each write has
    /// got the next sequence number, the log holds the batch as one entry,
    /// and the active MemTable holds the writes, or, when they have filled
    /// it, is frozen with them.
    pub open spec fn wrote(&self, before: &DB, ops: Seq<WriteOpView>, recovering: bool) -> bool {
        let applied = apply_ops(before.active(), ops, before.spec_sequence());
        &&& self.spec_sequence() == before.spec_sequence() + ops.len()
        &&& self.missing() == before.missing()
        &&& self.tables() == before.tables()
        &&& self.manifest_bytes() == before.manifest_bytes()
        &&& self.spec_wal_file_number() == before.spec_wal_file_number()
        &&& if before.fills(ops) {
            self.active() == empty_contents() && self.frozen() == before.frozen().push(applied)
                && self.active_size() == 0
        } else {
            self.active() == applied && self.frozen() == before.frozen() && self.active_size()
                == before.active_size() + ops_weight(ops)
        }
        &&& if before.spec_options().use_wal || recovering {
            self.log_bytes() == before.log_bytes() + frame_entry(encode_batch(ops))
                && self.log_synced() == if before.spec_options().sync_wal || recovering {
                self.log_bytes().len()
            } else {
                before.log_synced()
            }
        } else {
            self.log_bytes() == before.log_bytes() && self.log_synced() == before.log_synced()
        }
    }

    /// Nothing of the engine has changed.
    pub open spec fn unchanged(&self, before: &DB) -> bool {
        &&& self.spec_sequence() == before.spec_sequence()
        &&& self.missing() == before.missing()
        &&& self.tables() == before.tables()
        &&& self.manifest_bytes() == before.manifest_bytes()
        &&& self.spec_wal_file_number() == before.spec_wal_file_number()
        &&& self.active() == before.active()
        &&& self.frozen() == before.frozen()
        &&& self.active_size() == before.active_size()
        &&& self.log_bytes() == before.log_bytes()
        &&& self.log_synced() == before.log_synced()
    }

    /// Whether no key of the writes is empty.
    fn check_keys(ops: &Vec<WriteOp>) -> (ok: bool)
        ensures
            ok == keys_not_empty(op_views(ops@)),
    {
        let mut i: usize = 0;
        while i < ops.len()
            invariant
                i <= ops@.len(),
                forall|j: int| 0 <= j < i ==> op_key(#[trigger] op_views(ops@)[j]).len() > 0,
            decreases ops@.len() - i,
        {
            let empty = match &ops[i] {
                WriteOp::Put { key, .. } => key.len() == 0,
                WriteOp::Delete { key } => key.len() == 0,
            };
            proof {
                assert(op_views(ops@)[i as int] == ops@[i as int]@);
            }
            if empty {
                return false;
            }
            i += 1;
        }
        true
    }

    /// The bytes that the writes add to the size of a MemTable, if they can
    /// be counted on top of `start`.
    fn weigh(ops: &Vec<WriteOp>, start: usize) -> (total: Option<usize>)
        ensures
            match total {
                Some(t) => t == start + ops_weight(op_views(ops@)),
                None => start + ops_weight(op_views(ops@)) > usize::MAX,
            },
    {
        let ghost views = op_views(ops@);
        let mut total: usize = start;
        let mut i: usize = 0;
        proof {
            assert(views.subrange(0, 0) =~= Seq::<WriteOpView>::empty());
        }
        while i < ops.len()
            invariant
                i <= ops@.len(),
                views == op_views(ops@),
                total == start + ops_weight(views.subrange(0, i as int)),
            decreases ops@.len() - i,
        {
            let (key_len, value_len) = match &ops[i] {
                WriteOp::Put { key, value } => (key.len(), value.len()),
                WriteOp::Delete { key } => (key.len(), 0usize),
            };
            proof {
                assert(views[i as int] == ops@[i as int]@);
                let upto = views.subrange(0, i + 1);
                assert(upto.drop_last() =~= views.subrange(0, i as int));
                assert(upto.last() == views[i as int]);
                lemma_ops_weight_grows(views, i + 1);
            }
            let weight = match key_len.checked_add(value_len) {
                Some(w) => match w.checked_add(ENTRY_OVERHEAD) {
                    Some(w) => w,
                    None => {
                        return None;
                    },
                },
                None => {
                    return None;
                },
            };
            total = match total.checked_add(weight) {
                Some(t) => t,
                None => {
                    return None;
                },
            };
            i += 1;
        }
        proof {
            assert(views.subrange(0, ops@.len() as int) =~= views);
        }
        Some(total)
    }

    /// Takes writes: gives each the next sequence number, logs them as one
    /// entry, applies them to the active MemTable, and freezes the MemTable
    /// when they have filled it. An invalid-argument error, and no change,
    /// when the writes are not accepted. No writes at all change nothing.
    #[verifier::rlimit(80)]
    fn write_ops(&mut self, ops: &Vec<WriteOp>, recovering: bool) -> (r: Result<(), Error>)
        requires
            old(self).well_formed(),
        ensures
            final(self).well_formed(),
            final(self).spec_options() == old(self).spec_options(),
            final(self).missing() == old(self).missing(),
            match r {
                Ok(_) => old(self).accepts(op_views(ops@)) && if ops@.len() == 0 {
                    final(self).unchanged(old(self))
                } else {
                    final(self).wrote(old(self), op_views(ops@), recovering)
                },
                Err(e) => e is InvalidArgument && !old(self).accepts(op_views(ops@)) && final(self).unchanged(old(self)),
            },
    {
        let ghost views = op_views(ops@);
        if !Self::check_keys(ops) {
            return Err(Error::invalid_argument("Key cannot be empty"));
        }
        let n = ops.len();
        if n as u64 > u64::MAX - self.sequence {
            return Err(Error::invalid_argument("Out of sequence numbers"));
        }
        let new_size = match Self::weigh(ops, self.options.memtable_size) {
            Some(t) => t,
            None => {
                return Err(Error::invalid_argument("Writes too large"));
            },
        };
        if n == 0 {
            proof {
                assert(views =~= Seq::<WriteOpView>::empty());
            }
            return Ok(());
        }
        if self.options.use_wal || recovering {
            let entry = encode_ops(ops);
            let _ = self.wal.append(entry.as_slice());
            if self.options.sync_wal || recovering {
                let _ = self.wal.sync();
            }
            proof {
                lemma_recover_append(old(self).wal.bytes(), encode_batch(views), 0);
                lemma_log_sound_append(
                    old(self).wal.bytes(),
                    views,
                    self.options.memtable_size,
                    self.version_set.spec_sequence(),
                    self.sequence,
                );
                old(self).wal.lemma_synced_within();
                let log = self.wal.bytes();
                if self.options.sync_wal || recovering {
                    assert(log.subrange(0, log.len() as int) =~= log);
                } else {
                    assert(log.subrange(0, self.wal.synced_len() as int) =~= old(self).wal.bytes().subrange(0, self.wal.synced_len() as int));
                }
            }
        }
        let base = self.sequence;
        proof {
            if !(self.options.use_wal || recovering) {
                lemma_log_sound_later(
                    self.wal.bytes(),
                    self.options.memtable_size,
                    self.version_set.spec_sequence(),
                    base,
                    (base + n) as u64,
                );
            }
            if !(self.options.use_wal || recovering) || !(self.options.sync_wal || recovering) {
                lemma_log_sound_later(
                    old(self).wal.bytes().subrange(0, old(self).wal.synced_len() as int),
                    self.options.memtable_size,
                    self.version_set.spec_sequence(),
                    base,
                    (base + n) as u64,
                );
            }
        }
        let mut i: usize = 0;
        proof {
            assert(views.subrange(0, 0) =~= Seq::<WriteOpView>::empty());
        }
        while i < n
            invariant
                i <= n,
                n == ops@.len(),
                views == op_views(ops@),
                base + n <= u64::MAX,
                self.memtable.well_formed(),
                self.memtable.contents() == apply_ops(
                    old(self).memtable.contents(),
                    views.subrange(0, i as int),
                    base,
                ),
                self.memtable.spec_size() == old(self).memtable.spec_size() + ops_weight(
                    views.subrange(0, i as int),
                ),
                old(self).memtable.spec_size() + ops_weight(views) <= usize::MAX,
                sequences_within(self.memtable.contents(), (base + i) as u64),
                self.immutable_memtables == old(self).immutable_memtables,
                self.sstables == old(self).sstables,
                self.version_set == old(self).version_set,
                self.options == old(self).options,
                self.compaction_picker == old(self).compaction_picker,
                self.wal_file_number == old(self).wal_file_number,
                self.missing_files == old(self).missing_files,
                self.sequence == base,
                self.wal.well_formed(),
                ends_cleanly(self.wal.bytes(), 0),
                old(self).memtable.spec_size() < self.options.memtable_size,
                self.options.memtable_size + ops_weight(views) <= usize::MAX,
                log_sound(
                    self.wal.bytes(),
                    self.options.memtable_size,
                    self.version_set.spec_sequence(),
                    (base + n) as u64,
                ),
                log_sound(
                    self.wal.bytes().subrange(0, self.wal.synced_len() as int),
                    self.options.memtable_size,
                    self.version_set.spec_sequence(),
                    (base + n) as u64,
                ),
                self.wal.bytes() == if self.options.use_wal || recovering {
                    old(self).wal.bytes() + frame_entry(encode_batch(views))
                } else {
                    old(self).wal.bytes()
                },
                self.wal.synced_len() == if (self.options.use_wal && self.options.sync_wal)
                    || recovering {
                    self.wal.bytes().len()
                } else {
                    old(self).wal.synced_len()
                },
            decreases n - i,
        {
            let sequence = base + (i as u64) + 1;
            proof {
                assert(views[i as int] == ops@[i as int]@);
                let upto = views.subrange(0, i + 1);
                assert(upto.drop_last() =~= views.subrange(0, i as int));
                assert(upto.last() == views[i as int]);
                lemma_ops_weight_grows(views, i + 1);
            }
            match &ops[i] {
                WriteOp::Put { key, value } => {
                    self.memtable.put(key.as_slice(), value.as_slice(), sequence);
                },
                WriteOp::Delete { key } => {
                    self.memtable.delete(key.as_slice(), sequence);
                },
            }
            i += 1;
        }
        proof {
            assert(views.subrange(0, n as int) =~= views);
        }
        self.sequence = base + n as u64;
        if self.memtable.approximate_size() >= self.options.memtable_size {
            proof {
                // the last write is in the MemTable
                assert(views.drop_last().push(views.last()) =~= views);
                let written = written_key(views.last(), (base + n) as u64);
                assert(self.memtable.contents().dom().contains(written));
                assert(!empty_contents().dom().contains(written));
            }
            self.freeze_memtable();
        }
        Ok(())
    }

    /// Freezes the active MemTable and starts an empty one.
    fn freeze_memtable(&mut self)
        requires
            old(self).sound(),
            old(self).active() != empty_contents(),
        ensures
            final(self).next_file_number() == old(self).next_file_number(),
            final(self).missing() == old(self).missing(),
            final(self).well_formed(),
            final(self).spec_options() == old(self).spec_options(),
            final(self).active() == empty_contents(),
            final(self).active_size() == 0,
            final(self).frozen() == old(self).frozen().push(old(self).active()),
            final(self).spec_sequence() == old(self).spec_sequence(),
            final(self).tables() == old(self).tables(),
            final(self).manifest_bytes() == old(self).manifest_bytes(),
            final(self).spec_wal_file_number() == old(self).spec_wal_file_number(),
            final(self).log_bytes() == old(self).log_bytes(),
            final(self).log_synced() == old(self).log_synced(),
    {
        let start = if self.sequence < u64::MAX {
            self.sequence + 1
        } else {
            self.sequence
        };
        let mut fresh = MemTable::new(start);
        std::mem::swap(&mut self.memtable, &mut fresh);
        let ghost before = self.immutable_memtables@;
        self.immutable_memtables.push(fresh);
        proof {
            assert(self.frozen() =~= old(self).frozen().push(old(self).active()));
            assert forall|i: int| 0 <= i < self.immutable_memtables@.len() implies (
            #[trigger] self.immutable_memtables@[i]).well_formed() && sequences_within(
                self.immutable_memtables@[i].contents(),
                self.sequence,
            ) && self.immutable_memtables@[i].contents() != empty_contents() by {
                if i < before.len() {
                    assert(self.immutable_memtables@[i] == before[i]);
                }
            }
        }
    }

    /// Stores `value` under `key`.
    pub fn put(&mut self, key: &[u8], value: &[u8]) -> (r: Result<(), Error>)
        requires
            old(self).well_formed(),
        ensures
            final(self).well_formed(),
            final(self).spec_options() == old(self).spec_options(),
            match r {
                Ok(_) => old(self).accepts(seq![WriteOpView::Put { key: key@, value: value@ }])
                    && final(self).wrote(
                    old(self),
                    seq![WriteOpView::Put { key: key@, value: value@ }],
                    false,
                ),
                Err(e) => e is InvalidArgument && !old(self).accepts(
                    seq![WriteOpView::Put { key: key@, value: value@ }],
                ) && final(self).unchanged(old(self)),
            },
    {
        let mut ops: Vec<WriteOp> = Vec::new();
        ops.push(WriteOp::Put { key: copy_bytes(key), value: copy_bytes(value) });
        proof {
            assert(op_views(ops@) =~= seq![WriteOpView::Put { key: key@, value: value@ }]);
        }
        self.write_ops(&ops, false)
    }

    /// Deletes `key`: stores a tombstone for it.
    pub fn delete(&mut self, key: &[u8]) -> (r: Result<(), Error>)
        requires
            old(self).well_formed(),
        ensures
            final(self).well_formed(),
            final(self).spec_options() == old(self).spec_options(),
            match r {
                Ok(_) => old(self).accepts(seq![WriteOpView::Delete { key: key@ }]) && final(self).wrote(old(self), seq![WriteOpView::Delete { key: key@ }], false),
                Err(e) => e is InvalidArgument && !old(self).accepts(
                    seq![WriteOpView::Delete { key: key@ }],
                ) && final(self).unchanged(old(self)),
            },
    {
        let mut ops: Vec<WriteOp> = Vec::new();
        ops.push(WriteOp::Delete { key: copy_bytes(key) });
        proof {
            assert(op_views(ops@) =~= seq![WriteOpView::Delete { key: key@ }]);
        }
        self.write_ops(&ops, false)
    }

    /// Applies the writes of a batch together: they get consecutive
    /// sequence numbers and stand in the log as one entry. An empty batch
    /// changes nothing.
    pub fn write(&mut self, batch: WriteBatch) -> (r: Result<(), Error>)
        requires
            old(self).well_formed(),
        ensures
            final(self).well_formed(),
            final(self).spec_options() == old(self).spec_options(),
            match r {
                Ok(_) => old(self).accepts(batch@) && if batch@.len() == 0 {
                    final(self).unchanged(old(self))
                } else {
                    final(self).wrote(old(self), batch@, false)
                },
                Err(e) => e is InvalidArgument && !old(self).accepts(batch@) && final(self).unchanged(old(self)),
            },
    {
        let ops = batch.iter();
        proof {
            assert(op_views(ops@) =~= batch@);
        }
        self.write_ops(ops, false)
    }

    /// Opens a table that was built and adds it to a level: the table gets
    /// the next file number, and the manifest an edit that adds the file.
    fn install_table(&mut self, level: usize, table: FlushedTable) -> (r: Result<(), Error>)
        requires
            old(self).well_formed(),
            level < old(self).tables().len(),
            crate::sstable::reader::table_index(table.bytes@) is Ok,
        ensures
            final(self).missing() == old(self).missing(),
            final(self).well_formed(),
            final(self).spec_options() == old(self).spec_options(),
            final(self).spec_sequence() == old(self).spec_sequence(),
            final(self).active() == old(self).active(),
            final(self).active_size() == old(self).active_size(),
            final(self).frozen() == old(self).frozen(),
            final(self).immutable_memtables == old(self).immutable_memtables,
            final(self).log_bytes() == old(self).log_bytes(),
            final(self).log_synced() == old(self).log_synced(),
            final(self).spec_wal_file_number() == old(self).spec_wal_file_number(),
            r is Ok ==> final(self).next_file_number() == old(self).next_file_number() + 1,
            match r {
                Ok(_) => final(self).tables().len() == old(self).tables().len() && final(self).tables()[level as int].len() == old(self).tables()[level as int].len() + 1
                    && final(self).tables()[level as int].drop_last() == old(self).tables()[level as int] && final(self).tables()[level as int].last().file
                    == table.bytes@ && final(self).tables()[level as int].last().meta.smallest_key
                    == table.smallest_key@ && final(self).tables()[level as int].last().meta.largest_key == table.largest_key@
                    && forall|l: int|
                    0 <= l < old(self).tables().len() && l != level ==> final(self).tables()[l]
                        == old(self).tables()[l],
                Err(e) => e is Internal && final(self).tables() == old(self).tables() && old(self).next_file_number() == u64::MAX && final(self).next_file_number() == old(self).next_file_number(),
            },
    {
        if self.version_set.next_file_number() == u64::MAX {
            return Err(Error::internal("Out of file numbers"));
        }
        let number = self.version_set.allocate_file_number();
        proof {
            assert forall|l: int, j: int|
                0 <= l < self.tables().len() && 0 <= j < self.tables()[l].len() implies (
            #[trigger] self.tables()[l][j]).meta.file_number != number by {}
        }
        self.add_table(level, number, table)
    }

    /// Whether a table has the file number.
    fn holds_number(&self, number: u64) -> (used: bool)
        requires
            self.well_formed(),
        ensures
            used == number_used(self.tables(), number),
    {
        let ghost levels = self.tables();
        let mut level: usize = 0;
        while level < self.sstables.len()
            invariant
                levels == self.tables(),
                levels.len() == self.sstables@.len(),
                level <= self.sstables@.len(),
                forall|l: int, j: int|
                    0 <= l < level && 0 <= j < levels[l].len() ==> (
                    #[trigger] levels[l][j]).meta.file_number != number,
            decreases self.sstables@.len() - level,
        {
            let tables = &self.sstables[level];
            let mut i: usize = 0;
            while i < tables.len()
                invariant
                    levels == self.tables(),
                    levels.len() == self.sstables@.len(),
                    level < self.sstables@.len(),
                    tables == self.sstables@[level as int],
                    i <= tables@.len(),
                    forall|l: int, j: int|
                        0 <= l < level && 0 <= j < levels[l].len() ==> (
                        #[trigger] levels[l][j]).meta.file_number != number,
                    forall|j: int|
                        0 <= j < i ==> (#[trigger] levels[level as int][j]).meta.file_number
                            != number,
                decreases tables@.len() - i,
            {
                proof {
                    assert(levels[level as int][i as int] == tables@[i as int]@);
                }
                if tables[i].meta.file_number == number {
                    return true;
                }
                i += 1;
            }
            level += 1;
        }
        false
    }

    /// Opens a table and adds it to a level under the given file number;
    /// the manifest gets an edit that adds the file.
    fn add_table(&mut self, level: usize, number: u64, table: FlushedTable) -> (r: Result<
        (),
        Error,
    >)
        requires
            old(self).well_formed(),
            level < old(self).tables().len(),
            number < u64::MAX,
            !number_used(old(self).tables(), number),
        ensures
            final(self).well_formed(),
            final(self).spec_options() == old(self).spec_options(),
            final(self).spec_sequence() == old(self).spec_sequence(),
            final(self).active() == old(self).active(),
            final(self).active_size() == old(self).active_size(),
            final(self).frozen() == old(self).frozen(),
            final(self).immutable_memtables == old(self).immutable_memtables,
            final(self).log_bytes() == old(self).log_bytes(),
            final(self).log_synced() == old(self).log_synced(),
            final(self).spec_wal_file_number() == old(self).spec_wal_file_number(),
            final(self).missing() == old(self).missing(),
            final(self).next_file_number() == if r is Ok && number >= old(self).next_file_number()
                && number < u64::MAX {
                (number + 1) as u64
            } else {
                old(self).next_file_number()
            },
            match r {
                Ok(_) => crate::sstable::reader::table_index(table.bytes@) is Ok && final(self).tables().len() == old(self).tables().len() && final(self).tables()[level as int].len() == old(self).tables()[level as int].len() + 1
                    && final(self).tables()[level as int].drop_last() == old(self).tables()[level as int] && final(self).tables()[level as int].last().file
                    == table.bytes@ && final(self).tables()[level as int].last().meta.smallest_key
                    == table.smallest_key@ && final(self).tables()[level as int].last().meta.largest_key == table.largest_key@ && final(self).tables()[level as int].last().meta.file_number == number && final(self).tables()[level as int].last().meta.file_size == table.bytes@.len() as u64 && forall|l: int|
                    0 <= l < old(self).tables().len() && l != level ==> final(self).tables()[l]
                        == old(self).tables()[l],
                Err(e) => e is Internal && final(self).tables() == old(self).tables()
                    && crate::sstable::reader::table_index(table.bytes@) is Err,
            },
    {
        let size = table.bytes.len() as u64;
        let edit = VersionEdit::AddFile {
            level,
            file_number: number,
            file_size: size,
            smallest_key: copy_bytes(table.smallest_key.as_slice()),
            largest_key: copy_bytes(table.largest_key.as_slice()),
        };
        let reader = match SSTableReader::open(number, table.bytes) {
            Ok(r) => r,
            Err(_) => {
                return Err(Error::internal("A table that was just built cannot be read"));
            },
        };
        let ghost before_levels = self.version_set.levels();
        let ghost before_next = self.version_set.spec_next_file_number();
        let _ = self.version_set.log_edit(&edit);
        let handle = TableHandle {
            meta: FileMetaData {
                file_number: number,
                file_size: size,
                smallest_key: table.smallest_key,
                largest_key: table.largest_key,
            },
            reader,
        };
        let ghost old_tables = self.sstables@;
        let mut tables = self.sstables.remove(level);
        let ghost old_level = tables@;
        tables.push(handle);
        self.sstables.insert(level, tables);
        proof {
            let now = self.sstables@;
            assert(now.len() == old_tables.len());
            assert forall|l: int| 0 <= l < now.len() && l != level implies now[l]
                == old_tables[l] by {}
            assert(now[level as int]@ == old_level.push(handle));
            assert(old_tables[level as int]@ == old_level);
            let ov = table_views(old_tables);
            let nv = table_views(now);
            assert forall|l: int| 0 <= l < ov.len() && l != level implies nv[l] == ov[l] by {
                assert(now[l] == old_tables[l]);
            }
            assert(nv[level as int] =~= ov[level as int].push(handle@));
            assert(nv[level as int].drop_last() =~= ov[level as int]);
            let om = meta_views(old_tables);
            let nm = meta_views(now);
            assert(nm[level as int] =~= om[level as int].push(handle.meta@));
            assert(nm =~= om.update(level as int, om[level as int].push(handle.meta@))) by {
                assert forall|l: int| 0 <= l < nm.len() implies nm[l] == om.update(
                    level as int,
                    om[level as int].push(handle.meta@),
                )[l] by {
                    if l != level {
                        assert(now[l] == old_tables[l]);
                    }
                }
            }
            assert forall|l: int, i: int|
                0 <= l < now.len() && 0 <= i < now[l]@.len() implies (#[trigger] now[l]@[i]).reader.well_formed() by {
                if l != level {
                    assert(now[l] == old_tables[l]);
                    assert(old_tables[l]@[i].reader.well_formed());
                } else if i < old_level.len() {
                    assert(now[l]@[i] == old_tables[l]@[i]);
                    assert(old_tables[l]@[i].reader.well_formed());
                }
            }
            assert forall|l: int, i: int|
                0 <= l < now.len() && 0 <= i < now[l]@.len() implies (#[trigger] now[l]@[i]).sized() by {
                if l != level {
                    assert(now[l] == old_tables[l]);
                    assert(old_tables[l]@[i].sized());
                } else if i < old_level.len() {
                    assert(now[l]@[i] == old_tables[l]@[i]);
                    assert(old_tables[l]@[i].sized());
                }
            }
            lemma_push_keeps_numbers(
                ov,
                nv,
                level as int,
                handle@,
                before_next,
                self.version_set.spec_next_file_number(),
            );
        }
        Ok(())
    }

    /// The bits per key of the filters of new tables, if they get one.
    fn filter_bits(&self) -> (bits: Option<usize>)
        ensures
            bits == table_filter_bits(self.options),
    {
        if self.options.use_bloom_filter {
            Some(BloomFilter::bits_per_key_for_rate(self.options.bloom_filter_fp_rate_ppm))
        } else {
            None
        }
    }

    /// What has been flushed: every MemTable that was waiting, the active
    /// one included, has become a table of level 0, the oldest first, and
    /// nothing else has changed.
    pub open spec fn flushed(&self, before: &DB) -> bool {
        let waiting = if before.active() == empty_contents() {
            before.frozen()
        } else {
            before.frozen().push(before.active())
        };
        let old_level = before.tables()[0];
        &&& self.active() == empty_contents()
        &&& self.active_size() == if before.active() == empty_contents() {
            before.active_size()
        } else {
            0
        }
        &&& self.frozen() == Seq::<Map<EntryKey, Seq<u8>>>::empty()
        &&& self.spec_sequence() == before.spec_sequence()
        &&& self.log_bytes() == before.log_bytes()
        &&& self.log_synced() == before.log_synced()
        &&& self.spec_wal_file_number() == before.spec_wal_file_number()
        &&& self.tables().len() == before.tables().len()
        &&& forall|l: int| 1 <= l < before.tables().len() ==> self.tables()[l] == before.tables()[l]
        &&& self.tables()[0].len() == old_level.len() + waiting.len()
        &&& self.tables()[0].subrange(0, old_level.len() as int) == old_level
        &&& forall|j: int|
            0 <= j < waiting.len() ==> is_flush_of(
                (#[trigger] self.tables()[0][old_level.len() + j]).file,
                waiting[j],
            )
    }

    /// What has been flushed when the first `done` of the waiting
    /// MemTables have been written out, the oldest first, each as the
    /// newest table of level 0; the others are frozen.
    pub open spec fn flushed_upto(&self, before: &DB, done: int) -> bool {
        let waiting = before.waiting();
        let old_level = before.tables()[0];
        &&& 0 <= done <= waiting.len()
        &&& self.active() == empty_contents()
        &&& self.frozen() == waiting.skip(done)
        &&& self.spec_sequence() == before.spec_sequence()
        &&& self.log_bytes() == before.log_bytes()
        &&& self.log_synced() == before.log_synced()
        &&& self.spec_wal_file_number() == before.spec_wal_file_number()
        &&& self.next_file_number() == before.next_file_number() + done
        &&& self.tables().len() == before.tables().len()
        &&& forall|l: int| 1 <= l < before.tables().len() ==> self.tables()[l] == before.tables()[l]
        &&& self.tables()[0].len() == old_level.len() + done
        &&& self.tables()[0].subrange(0, old_level.len() as int) == old_level
        &&& forall|j: int|
            0 <= j < done ==> is_flush_of(
                (#[trigger] self.tables()[0][old_level.len() + j]).file,
                waiting[j],
            )
    }

    /// What a flush of the MemTables that failed has left: the first of
    /// the waiting MemTables are written out, up to one whose versions
    /// make no table, or for which no file number is left.
    pub open spec fn flush_stopped(&self, before: &DB) -> bool {
        exists|done: int| #[trigger]
            self.flushed_upto(before, done) && done < before.waiting().len() && (!table_fits(
                before.waiting()[done],
                before.spec_options(),
            ) || before.next_file_number() + done >= u64::MAX)
    }

    /// The MemTables that wait to be written out: the frozen ones, and
    /// the active one behind them where it holds a version.
    pub open spec fn waiting(&self) -> Seq<Map<EntryKey, Seq<u8>>> {
        if self.active() == empty_contents() {
            self.frozen()
        } else {
            self.frozen().push(self.active())
        }
    }

    /// Whether the MemTables can be written out: there is a file number
    /// for every table, and the versions of every MemTable make a table.
    pub open spec fn can_flush(&self) -> bool {
        &&& self.next_file_number() + self.waiting().len() <= u64::MAX
        &&& forall|j: int|
            0 <= j < self.waiting().len() ==> table_fits(
                #[trigger] self.waiting()[j],
                self.spec_options(),
            )
    }

    /// Writes every MemTable that holds versions out as a table of level 0,
    /// the oldest first. When a table cannot be written the MemTables that
    /// are left stay frozen. The MemTables are written out whenever
    /// `can_flush` holds.
    #[verifier::rlimit(60)]
    pub fn flush_memtables(&mut self) -> (r: Result<(), Error>)
        requires
            old(self).well_formed(),
        ensures
            final(self).missing() == old(self).missing(),
            final(self).well_formed(),
            final(self).spec_options() == old(self).spec_options(),
            final(self).spec_sequence() == old(self).spec_sequence(),
            r is Ok ==> final(self).flushed(old(self)) && final(self).next_file_number() == old(self).next_file_number() + old(self).waiting().len(),
            old(self).can_flush() ==> r is Ok,
            r matches Err(e) ==> (e is Internal || e is InvalidArgument) && final(self).flush_stopped(old(self)),
    {
        if !self.memtable.is_empty() {
            self.freeze_memtable();
        }
        let ghost waiting = self.frozen();
        let ghost old_level = old(self).tables()[0];
        let ghost start = *self;
        let ghost able = old(self).can_flush();
        let ghost first_number = old(self).next_file_number();
        let ghost mut done: int = 0;
        proof {
            assert(self.tables()[0].subrange(0, old_level.len() as int) =~= old_level);
            assert(waiting == old(self).waiting());
        }
        while self.immutable_memtables.len() > 0
            invariant
                able ==> first_number + waiting.len() <= u64::MAX && forall|j: int|
                    0 <= j < waiting.len() ==> table_fits(
                        #[trigger] waiting[j],
                        self.spec_options(),
                    ),
                able == old(self).can_flush(),
                waiting == old(self).waiting(),
                first_number == old(self).next_file_number(),
                self.next_file_number() == first_number + done,
                self.well_formed(),
                self.missing() == old(self).missing(),
                self.spec_options() == old(self).spec_options(),
                self.spec_sequence() == old(self).spec_sequence(),
                self.active() == empty_contents(),
                self.active_size() == start.active_size(),
                self.log_bytes() == old(self).log_bytes(),
                self.log_synced() == old(self).log_synced(),
                self.spec_wal_file_number() == old(self).spec_wal_file_number(),
                self.tables().len() == old(self).tables().len(),
                old(self).tables().len() > 0,
                old_level == old(self).tables()[0],
                forall|l: int|
                    1 <= l < old(self).tables().len() ==> self.tables()[l] == old(self).tables()[l],
                0 <= done <= waiting.len(),
                self.frozen() == waiting.skip(done),
                self.tables()[0].len() == old_level.len() + done,
                self.tables()[0].subrange(0, old_level.len() as int) == old_level,
                forall|j: int|
                    0 <= j < done ==> is_flush_of(
                        (#[trigger] self.tables()[0][old_level.len() + j]).file,
                        waiting[j],
                    ),
            decreases self.immutable_memtables@.len(),
        {
            let bits = self.filter_bits();
            let ghost contents = self.immutable_memtables@[0].contents();
            proof {
                assert(self.frozen().len() == self.immutable_memtables@.len());
                assert(self.frozen()[0] == contents);
                assert(waiting.skip(done).len() > 0);
                assert(waiting.skip(done)[0] == waiting[done]);
                assert(waiting[done] == contents);
            }
            let built = build_table(
                &self.immutable_memtables[0],
                self.options.block_size,
                self.options.compression,
                bits,
            );
            proof {
                assert(self.immutable_memtables@[0].contents() != empty_contents());
                crate::flush::lemma_built(
                    built,
                    contents,
                    self.options.block_size,
                    self.options.compression,
                    bits,
                );
                if able {
                    assert(table_fits(waiting[done], self.spec_options()));
                }
                if built is Err {
                    assert(self.flushed_upto(old(self), done));
                }
            }
            let table = match built {
                Ok(Some(t)) => t,
                Ok(None) => {
                    return Err(Error::internal("A frozen MemTable holds nothing"));
                },
                Err(e) => {
                    return Err(e);
                },
            };
            let ghost file = table.bytes@;
            proof {
                assert(is_flush_of(file, contents));
                let listing = choose|listing: Seq<(EntryKey, Seq<u8>)>| #[trigger]
                    crate::memtable::skiplist::is_range_of(listing, contents, None, None)
                        && is_table_of(file, crate::flush::flushed_entries(listing));
                crate::sstable::table_laws::lemma_table_opens(
                    file,
                    crate::flush::flushed_entries(listing),
                );
            }
            let ghost before_tables = self.tables();
            proof {
                assert(self.flushed_upto(old(self), done));
            }
            match self.install_table(0, table) {
                Ok(_) => {},
                Err(e) => {
                    proof {
                        assert(self.flushed_upto(old(self), done));
                    }
                    return Err(e);
                },
            }
            let ghost frozen_before = self.frozen();
            self.immutable_memtables.remove(0);
            proof {
                assert(self.frozen() =~= frozen_before.skip(1));
                assert(waiting.skip(done).skip(1) =~= waiting.skip(done + 1));
                let level = self.tables()[0];
                assert(level.drop_last() == before_tables[0]);
                assert forall|j: int| 0 <= j < done + 1 implies is_flush_of(
                    (#[trigger] level[old_level.len() + j]).file,
                    waiting[j],
                ) by {
                    if j < done {
                        assert(level[old_level.len() + j] == before_tables[0][old_level.len() + j]);
                    }
                }
                assert(level.subrange(0, old_level.len() as int) =~= before_tables[0].subrange(
                    0,
                    old_level.len() as int,
                ));
                done = done + 1;
            }
        }
        proof {
            assert(self.frozen() =~= Seq::<Map<EntryKey, Seq<u8>>>::empty());
        }
        Ok(())
    }

    /// Takes the tables of the given file number out of a level, and logs
    /// the edit that deletes the file.
    fn remove_table(&mut self, level: usize, file_number: u64) -> (r: Result<(), Error>)
        requires
            old(self).well_formed(),
            level < old(self).tables().len(),
        ensures
            final(self).missing() == old(self).missing(),
            final(self).well_formed(),
            final(self).spec_options() == old(self).spec_options(),
            final(self).spec_sequence() == old(self).spec_sequence(),
            final(self).active() == old(self).active(),
            final(self).active_size() == old(self).active_size(),
            final(self).frozen() == old(self).frozen(),
            final(self).log_bytes() == old(self).log_bytes(),
            final(self).log_synced() == old(self).log_synced(),
            final(self).spec_wal_file_number() == old(self).spec_wal_file_number(),
            final(self).tables().len() == old(self).tables().len(),
            forall|l: int|
                0 <= l < old(self).tables().len() && l != level ==> final(self).tables()[l] == old(self).tables()[l],
            r is Ok,
            final(self).tables()[level as int] == tables_without(
                old(self).tables()[level as int],
                file_number,
            ),
    {
        let edit = VersionEdit::DeleteFile { level, file_number };
        let _ = self.version_set.log_edit(&edit);
        let ghost old_tables = self.sstables@;
        let tables = self.sstables.remove(level);
        let ghost old_level = tables@;
        let ghost views = old_level.map_values(|t: TableHandle| t@);
        let ghost metas = old_level.map_values(|t: TableHandle| t.meta@);
        let mut kept: Vec<TableHandle> = Vec::new();
        let mut rest = tables;
        let ghost mut i: int = 0;
        proof {
            assert(views.subrange(0, 0) =~= Seq::<TableView>::empty());
            assert(metas.subrange(0, 0) =~= Seq::<FileMetaView>::empty());
            assert(rest@.skip(0) =~= rest@);
            assert(kept@.map_values(|t: TableHandle| t@) =~= Seq::<TableView>::empty());
            assert(kept@.map_values(|t: TableHandle| t.meta@) =~= Seq::<FileMetaView>::empty());
        }
        while rest.len() > 0
            invariant
                0 <= i <= old_level.len(),
                views == old_level.map_values(|t: TableHandle| t@),
                metas == old_level.map_values(|t: TableHandle| t.meta@),
                rest@ == old_level.skip(i),
                kept@.map_values(|t: TableHandle| t@) == tables_without(
                    views.subrange(0, i),
                    file_number,
                ),
                kept@.map_values(|t: TableHandle| t.meta@) == without_file(
                    metas.subrange(0, i),
                    file_number,
                ),
                forall|j: int| 0 <= j < old_level.len() ==> (#[trigger] old_level[j]).reader.well_formed(),
                forall|j: int| 0 <= j < kept@.len() ==> (#[trigger] kept@[j]).reader.well_formed(),
                forall|j: int| 0 <= j < old_level.len() ==> (#[trigger] old_level[j]).sized(),
                forall|j: int| 0 <= j < kept@.len() ==> (#[trigger] kept@[j]).sized(),
            decreases rest@.len(),
        {
            let handle = rest.remove(0);
            proof {
                assert(handle == old_level[i]);
                assert(rest@ =~= old_level.skip(i + 1));
                let upto = views.subrange(0, i + 1);
                assert(upto.drop_last() =~= views.subrange(0, i));
                assert(upto.last() == handle@);
                let mupto = metas.subrange(0, i + 1);
                assert(mupto.drop_last() =~= metas.subrange(0, i));
                assert(mupto.last() == handle.meta@);
            }
            if handle.meta.file_number != file_number {
                let ghost before_views = kept@.map_values(|t: TableHandle| t@);
                let ghost before_metas = kept@.map_values(|t: TableHandle| t.meta@);
                kept.push(handle);
                proof {
                    assert(kept@.map_values(|t: TableHandle| t@) =~= before_views.push(handle@));
                    assert(kept@.map_values(|t: TableHandle| t.meta@) =~= before_metas.push(
                        handle.meta@,
                    ));
                }
            }
            proof {
                i = i + 1;
            }
        }
        proof {
            assert(views.subrange(0, old_level.len() as int) =~= views);
            assert(metas.subrange(0, old_level.len() as int) =~= metas);
        }
        let ghost kept_seq = kept@;
        self.sstables.insert(level, kept);
        proof {
            let now = self.sstables@;
            assert forall|l: int| 0 <= l < now.len() && l != level implies now[l]
                == old_tables[l] by {}
            assert(now[level as int]@ == kept_seq);
            let ov = table_views(old_tables);
            let nv = table_views(now);
            assert forall|l: int| 0 <= l < ov.len() && l != level implies nv[l] == ov[l] by {
                assert(now[l] == old_tables[l]);
            }
            assert(ov[level as int] == views);
            let om = meta_views(old_tables);
            let nm = meta_views(now);
            assert(om[level as int] == metas);
            assert(nm =~= om.update(level as int, without_file(metas, file_number))) by {
                assert forall|l: int| 0 <= l < nm.len() implies nm[l] == om.update(
                    level as int,
                    without_file(metas, file_number),
                )[l] by {
                    if l != level {
                        assert(now[l] == old_tables[l]);
                    }
                }
            }
            assert forall|l: int, j: int|
                0 <= l < now.len() && 0 <= j < now[l]@.len() implies (#[trigger] now[l]@[j]).reader.well_formed() by {
                if l != level {
                    assert(now[l] == old_tables[l]);
                    assert(old_tables[l]@[j].reader.well_formed());
                }
            }
            assert forall|l: int, j: int|
                0 <= l < now.len() && 0 <= j < now[l]@.len() implies (#[trigger] now[l]@[j]).sized() by {
                if l != level {
                    assert(now[l] == old_tables[l]);
                    assert(old_tables[l]@[j].sized());
                }
            }
            assert(nv[level as int] == tables_without(views, file_number));
            lemma_without_keeps_numbers(
                ov,
                nv,
                level as int,
                file_number,
                self.version_set.spec_next_file_number(),
            );
        }
        Ok(())
    }

    /// What the picker would compact now, if anything.
    pub open spec fn picked(&self) -> Option<crate::compaction::picker::TaskView> {
        pick(meta_levels(self.tables()), self.spec_options().max_levels)
    }

    /// The memory of the engine and its log are as they were.
    pub open spec fn same_memory(&self, before: &DB) -> bool {
        &&& self.spec_sequence() == before.spec_sequence()
        &&& self.active() == before.active()
        &&& self.active_size() == before.active_size()
        &&& self.frozen() == before.frozen()
        &&& self.log_bytes() == before.log_bytes()
        &&& self.log_synced() == before.log_synced()
        &&& self.spec_wal_file_number() == before.spec_wal_file_number()
    }

    /// What a compaction has done to the levels: the tables of the task
    /// have left their level, and the next level has got, as its newest,
    /// one table of what the merge of the tables has left, with the first
    /// and the last key of that as its range. When the merge has left
    /// nothing, the levels are as they were.
    pub open spec fn compacted(&self, before: &DB, task: crate::compaction::picker::TaskView) -> bool {
        let from = task.level as int;
        let to = task.output_level as int;
        let output = compact(
            merge_output(task_sources(before.tables()[from], task.level)),
            task.output_level,
        );
        if output.len() == 0 {
            self.tables() == before.tables()
        } else {
            &&& self.tables().len() == before.tables().len()
            &&& forall|l: int|
                0 <= l < before.tables().len() && l != from && l != to ==> self.tables()[l]
                    == before.tables()[l]
            &&& self.tables()[from] == tables_without_all(before.tables()[from], task.inputs)
            &&& self.tables()[to].len() == before.tables()[to].len() + 1
            &&& self.tables()[to].drop_last() == before.tables()[to]
            &&& is_table_of(self.tables()[to].last().file, output)
            &&& self.tables()[to].last().meta.smallest_key == output.first().key
            &&& self.tables()[to].last().meta.largest_key == output.last().key
        }
    }

    /// Whether the compaction that is due, if one is, can be carried out:
    /// the tables of the task can be read, what the merge leaves of them
    /// makes a table, and there is a file number for it.
    pub open spec fn can_compact(&self) -> bool {
        match self.picked() {
            None => true,
            Some(task) => task.level < self.tables().len() && task.output_level
                < self.tables().len() ==> {
                let tables = self.tables()[task.level as int];
                let output = compact(
                    merge_output(task_sources(tables, task.level)),
                    task.output_level,
                );
                &&& forall|j: int|
                    0 <= j < tables.len() && (task.level == 0 || j == 0) ==> table_entries(
                        (#[trigger] tables[j]).file,
                    ) is Ok
                &&& fits(
                    output,
                    self.spec_options().block_size,
                    table_filter_bits(self.spec_options()),
                    self.spec_options().compression,
                )
                &&& output.len() > 0 ==> self.next_file_number() < u64::MAX
            },
        }
    }

    /// Asks the picker and runs the compaction it picks: the tables of the
    /// task are merged into one table of the next level, the table is
    /// added to that level, and the tables of the task leave theirs. When
    /// the merge leaves nothing, no table is written and the tables of the
    /// task stay. Nothing is done where the picker picks nothing, or where
    /// there is no next level. The compaction is carried out whenever
    /// `can_compact` holds.
    #[verifier::rlimit(60)]
    pub fn maybe_trigger_compaction(&mut self) -> (r: Result<(), Error>)
        requires
            old(self).well_formed(),
        ensures
            final(self).missing() == old(self).missing(),
            final(self).well_formed(),
            final(self).spec_options() == old(self).spec_options(),
            final(self).same_memory(old(self)),
            final(self).tables().len() == old(self).tables().len(),
            old(self).picked() is None ==> r is Ok && final(self).tables() == old(self).tables(),
            old(self).can_compact() ==> r is Ok,
            r is Err ==> final(self).tables() == old(self).tables(),
            r is Ok ==> match old(self).picked() {
                None => true,
                Some(task) => if task.level < old(self).tables().len() && task.output_level < old(self).tables().len() {
                    final(self).compacted(old(self), task)
                } else {
                    final(self).tables() == old(self).tables()
                },
            },
    {
        proof {
            assert(meta_levels(self.tables()) =~= self.version_set.levels()) by {
                lemma_meta_levels(self.sstables@);
            }
        }
        let task = match self.compaction_picker.pick_compaction(&self.version_set.current().levels) {
            Some(t) => t,
            None => {
                return Ok(());
            },
        };
        let level = task.level;
        let output_level = task.output_level;
        if level >= self.sstables.len() || output_level >= self.sstables.len() {
            return Ok(());
        }
        proof {
            crate::compaction::picker::lemma_pick(
                meta_levels(self.tables()),
                self.spec_options().max_levels,
            );
        }
        let bits = self.filter_bits();
        let ghost sources = task_sources(self.tables()[level as int], level);
        let ghost old_views = self.tables();
        let result = {
            let tables = &self.sstables[level];
            let ghost views = self.tables()[level as int];
            let mut inputs: Vec<&SSTableReader> = Vec::new();
            if level == 0 {
                let mut i: usize = tables.len();
                while i > 0
                    invariant
                        i <= tables@.len(),
                        inputs@.len() == tables@.len() - i,
                        forall|j: int|
                            0 <= j < inputs@.len() ==> *(#[trigger] inputs@[j]) == tables@[tables@.len()
                                - 1 - j].reader,
                    decreases i,
                {
                    i -= 1;
                    inputs.push(&tables[i].reader);
                }
            } else if tables.len() > 0 {
                inputs.push(&tables[0].reader);
            }
            proof {
                assert(views == tables@.map_values(|t: TableHandle| t@));
                assert forall|j: int| 0 <= j < inputs@.len() implies (#[trigger] inputs@[j]).well_formed() by {
                    if level == 0 {
                        assert(self.sstables@[level as int]@[tables@.len() - 1 - j].reader.well_formed());
                    } else {
                        assert(self.sstables@[level as int]@[0].reader.well_formed());
                    }
                }
                if old(self).can_compact() {
                    assert forall|j: int| 0 <= j < inputs@.len() implies table_entries(
                        (#[trigger] inputs@[j]).bytes(),
                    ) is Ok by {
                        if level == 0 {
                            assert(views[tables@.len() - 1 - j] == tables@[tables@.len() - 1 - j]@);
                        } else {
                            assert(views[0] == tables@[0]@);
                        }
                    }
                }
                assert(job_sources(inputs@) =~= sources) by {
                    assert forall|j: int| 0 <= j < inputs@.len() implies job_sources(inputs@)[j]
                        == sources[j] by {
                        if level == 0 {
                            assert(views[tables@.len() - 1 - j] == tables@[tables@.len() - 1 - j]@);
                        } else {
                            assert(views[0] == tables@[0]@);
                        }
                    }
                }
            }
            let mut job = CompactionJob::new(inputs, output_level, self.options.block_size);
            job.compression = self.options.compression;
            job.filter_bits_per_key = bits;
            match job.run(1) {
                Ok(r) => r,
                Err(e) => {
                    return Err(e);
                },
            }
        };
        let bytes = match result.output {
            Some(b) => b,
            None => {
                return Ok(());
            },
        };
        let ghost output = compact(merge_output(sources), output_level);
        proof {
            crate::sstable::table_laws::lemma_table_opens(bytes@, output);
            crate::sstable::table_laws::lemma_table_entries(bytes@, output);
        }
        let probe = match SSTableReader::open(0, copy_bytes(bytes.as_slice())) {
            Ok(r) => r,
            Err(_) => {
                return Err(Error::internal("A table that was just built cannot be read"));
            },
        };
        let smallest_key = match probe.smallest_key() {
            Ok(Some(k)) => k,
            _ => {
                return Err(Error::internal("New SSTable has no keys"));
            },
        };
        let largest_key = match probe.largest_key() {
            Ok(Some(k)) => k,
            _ => {
                return Err(Error::internal("New SSTable has no keys"));
            },
        };
        let entry_count = result.entry_count;
        match self.install_table(
            output_level,
            FlushedTable { bytes, smallest_key, largest_key, entry_count },
        ) {
            Ok(_) => {},
            Err(e) => {
                return Err(e);
            },
        }
        let ghost installed = self.tables();
        proof {
            assert(task@.inputs.subrange(0, 0) =~= Seq::<FileMetaView>::empty());
        }
        let mut i: usize = 0;
        while i < task.inputs.len()
            invariant
                self.missing() == old(self).missing(),
                self.tables()[level as int] == tables_without_all(
                    old(self).tables()[level as int],
                    task@.inputs.subrange(0, i as int),
                ),
                self.well_formed(),
                self.spec_options() == old(self).spec_options(),
                self.same_memory(old(self)),
                self.tables().len() == old(self).tables().len(),
                level < self.tables().len(),
                output_level < self.tables().len(),
                level != output_level,
                self.tables()[output_level as int] == installed[output_level as int],
                forall|l: int|
                    0 <= l < old(self).tables().len() && l != level && l != output_level
                        ==> self.tables()[l] == old(self).tables()[l],
                i <= task.inputs@.len(),
            decreases task.inputs@.len() - i,
        {
            let number = task.inputs[i].file_number;
            proof {
                let upto = task@.inputs.subrange(0, i + 1);
                assert(upto.drop_last() =~= task@.inputs.subrange(0, i as int));
                assert(upto.last().file_number == number);
            }
            let _ = self.remove_table(level, number);
            i += 1;
        }
        proof {
            assert(task@.inputs.subrange(0, task.inputs@.len() as int) =~= task@.inputs);
        }
        Ok(())
    }

    /// Starts a new, empty log under the next log number. The sequence
    /// number goes into the manifest first, so that it outlives the log.
    fn rotate_wal(&mut self) -> (r: Result<(), Error>)
        requires
            old(self).well_formed(),
        ensures
            final(self).missing() == old(self).missing(),
            final(self).well_formed(),
            final(self).spec_options() == old(self).spec_options(),
            final(self).spec_sequence() == old(self).spec_sequence(),
            final(self).active() == old(self).active(),
            final(self).active_size() == old(self).active_size(),
            final(self).frozen() == old(self).frozen(),
            final(self).tables() == old(self).tables(),
            final(self).next_file_number() == old(self).next_file_number(),
            match r {
                Ok(_) => final(self).log_bytes() == Seq::<u8>::empty() && final(self).log_synced()
                    == 0 && final(self).spec_wal_file_number() == old(self).spec_wal_file_number()
                    + 1,
                Err(e) => e is Internal && old(self).spec_wal_file_number() == u64::MAX
                    && final(self).log_bytes() == old(self).log_bytes()
                    && final(self).log_synced() == old(self).log_synced() && final(self).spec_wal_file_number() == old(self).spec_wal_file_number(),
            },
    {
        if self.wal_file_number == u64::MAX {
            return Err(Error::internal("Out of log numbers"));
        }
        let edit = VersionEdit::SetSequenceNumber(self.sequence);
        let _ = self.version_set.log_edit(&edit);
        self.wal_file_number = self.wal_file_number + 1;
        self.wal = match WAL::open(Vec::new()) {
            Ok(w) => w,
            Err(e) => {
                return Err(Error::internal("cannot start a log"));
            },
        };
        proof {
            lemma_empty_log_sound(self.options.memtable_size, self.sequence, self.sequence);
            assert(self.wal.bytes().subrange(0, 0) =~= Seq::<u8>::empty());
        }
        Ok(())
    }

    /// Whether no MemTable holds a version: there is nothing to flush.
    pub open spec fn settled(&self) -> bool {
        self.active() == empty_contents() && self.frozen().len() == 0
    }

    /// What a flush has done to a database that had something to flush,
    /// by way of the database `mid` that it was in between: every MemTable
    /// has been written out as a table of level 0, a new and empty log
    /// has been started under the next number, and the compaction that
    /// was due then, if one was, has been run.
    pub open spec fn flushed_through(&self, before: &DB, mid: &DB) -> bool {
        &&& mid.flushed(before)
        &&& self.same_memory_but_log(mid)
        &&& self.log_bytes() == Seq::<u8>::empty()
        &&& self.log_synced() == 0
        &&& self.spec_wal_file_number() == before.spec_wal_file_number() + 1
        &&& self.tables().len() == mid.tables().len()
        &&& match pick(meta_levels(mid.tables()), before.spec_options().max_levels) {
            None => self.tables() == mid.tables(),
            Some(task) => if task.level < mid.tables().len() && task.output_level
                < mid.tables().len() {
                self.compacted(mid, task)
            } else {
                self.tables() == mid.tables()
            },
        }
    }

    /// Whether `self` is `mid` with a new, empty log under the next
    /// number.
    pub open spec fn rotated(&self, mid: &DB) -> bool {
        &&& self.same_memory_but_log(mid)
        &&& self.tables() == mid.tables()
        &&& self.log_bytes() == Seq::<u8>::empty()
        &&& self.log_synced() == 0
        &&& self.spec_wal_file_number() == mid.spec_wal_file_number() + 1
    }

    /// Whether the database is one that a flush of the MemTables of
    /// `before` can give.
    pub open spec fn flush_of(&self, before: &DB) -> bool {
        &&& self.flushed(before)
        &&& self.spec_options() == before.spec_options()
        &&& self.next_file_number() == before.next_file_number() + before.waiting().len()
    }

    /// Whether a flush succeeds: the MemTables can be written out, there
    /// is a number for the new log, and the compaction that is due then,
    /// if one is, can be carried out.
    pub open spec fn can_flush_through(&self) -> bool {
        &&& self.can_flush()
        &&& self.spec_wal_file_number() < u64::MAX
        &&& forall|mid: DB| #[trigger] mid.flush_of(self) ==> mid.can_compact()
    }

    /// What a flush that failed has left. Either the MemTables are written
    /// out up to one that makes no table or has no file number. Or they
    /// are all written out, and there was no number for the new log. Or
    /// they are all written out and the new log is started, and the
    /// compaction that was due could not be carried out: the levels are as
    /// the flush of the MemTables has left them.
    pub open spec fn flush_failed(&self, before: &DB) -> bool {
        ||| self.flush_stopped(before)
        ||| self.flush_of(before) && before.spec_wal_file_number() == u64::MAX
        ||| exists|mid: DB| #[trigger] mid.flush_of(before) && self.rotated(&mid) && !mid.can_compact()
    }

    /// The MemTables and the sequence number are as they were.
    pub open spec fn same_memory_but_log(&self, before: &DB) -> bool {
        &&& self.spec_sequence() == before.spec_sequence()
        &&& self.active() == before.active()
        &&& self.active_size() == before.active_size()
        &&& self.frozen() == before.frozen()
    }

    /// Writes every MemTable out as a table of level 0, starts a new log,
    /// and runs the compaction that is due then, if one is. Nothing
    /// happens when there is nothing to flush. An internal error when the
    /// compaction fails; the MemTables are written out then all the same.
    pub fn flush(&mut self) -> (r: Result<(), Error>)
        requires
            old(self).well_formed(),
        ensures
            final(self).missing() == old(self).missing(),
            final(self).well_formed(),
            final(self).spec_options() == old(self).spec_options(),
            final(self).spec_sequence() == old(self).spec_sequence(),
            old(self).settled() ==> r is Ok && final(self).unchanged(old(self)),
            old(self).can_flush_through() ==> r is Ok,
            r is Ok ==> final(self).settled(),
            r is Ok && !old(self).settled() ==> exists|mid: DB| #[trigger]
                final(self).flushed_through(old(self), &mid),
            r matches Err(e) ==> (e is Internal || e is InvalidArgument) && !old(self).settled()
                && final(self).flush_failed(old(self)),
    {
        if self.memtable.is_empty() && self.immutable_memtables.len() == 0 {
            proof {
                assert(self.frozen().len() == self.immutable_memtables@.len());
            }
            return Ok(());
        }
        proof {
            assert(self.frozen().len() == self.immutable_memtables@.len());
        }
        match self.flush_memtables() {
            Ok(_) => {},
            Err(e) => {
                return Err(e);
            },
        }
        let ghost mid = *self;
        proof {
            assert(mid.flush_of(old(self)));
        }
        match self.rotate_wal() {
            Ok(_) => {},
            Err(e) => {
                return Err(e);
            },
        }
        let ghost turned = *self;
        proof {
            assert(turned.can_compact() == mid.can_compact());
        }
        match self.maybe_trigger_compaction() {
            Ok(_) => {
                proof {
                    assert(self.flushed_through(old(self), &mid));
                }
                Ok(())
            },
            Err(e) => {
                proof {
                    assert(self.rotated(&mid));
                    assert(!mid.can_compact());
                }
                Err(Error::internal("Compaction failed"))
            },
        }
    }

    /// Flushes and makes the log durable. A database in which nothing
    /// waits to be flushed stays as it is, but for the log being durable.
    pub fn close(&mut self) -> (r: Result<(), Error>)
        requires
            old(self).well_formed(),
        ensures
            final(self).missing() == old(self).missing(),
            final(self).well_formed(),
            final(self).spec_options() == old(self).spec_options(),
            final(self).spec_sequence() == old(self).spec_sequence(),
            r is Ok ==> final(self).settled() && final(self).log_synced() == final(self).log_bytes().len(),
            r is Ok && !old(self).settled() ==> exists|mid: DB| #[trigger]
                final(self).flushed_through(old(self), &mid),
            old(self).can_flush_through() ==> r is Ok,
            r matches Err(e) ==> (e is Internal || e is InvalidArgument) && !old(self).settled()
                && final(self).flush_failed(old(self)),
            old(self).settled() ==> r is Ok && final(self).tables() == old(self).tables()
                && final(self).active() == old(self).active() && final(self).frozen() == old(self).frozen() && final(self).log_bytes() == old(self).log_bytes() && final(self).manifest_bytes() == old(self).manifest_bytes() && final(self).spec_wal_file_number() == old(self).spec_wal_file_number(),
    {
        match self.flush() {
            Ok(_) => {},
            Err(e) => {
                return Err(e);
            },
        }
        let ghost flushed = *self;
        let _ = self.wal.sync();
        proof {
            let log = self.wal.bytes();
            assert(log.subrange(0, log.len() as int) =~= log);
            if !old(self).settled() {
                let mid = choose|mid: DB| #[trigger] flushed.flushed_through(old(self), &mid);
                assert(self.flushed_through(old(self), &mid));
            }
        }
        Ok(())
    }

    /// A database without data.
    fn blank(options: Options) -> (db: Self)
        requires
            options.valid(),
        ensures
            db.well_formed(),
            db.spec_options() == options,
            db.settled(),
            db.spec_sequence() == 0,
            db.active_size() == 0,
            db.log_bytes() == Seq::<u8>::empty(),
            db.log_synced() == 0,
            db.missing() == Seq::<u64>::empty(),
            db.tables().len() == options.max_levels,
            forall|l: int| 0 <= l < options.max_levels ==> (#[trigger] db.tables()[l]).len() == 0,
    {
        let max_levels = options.max_levels;
        let mut sstables: Vec<Vec<TableHandle>> = Vec::new();
        let mut i: usize = 0;
        while i < max_levels
            invariant
                i <= max_levels,
                sstables@.len() == i,
                forall|l: int| 0 <= l < i ==> (#[trigger] sstables@[l])@.len() == 0,
            decreases max_levels - i,
        {
            sstables.push(Vec::new());
            i += 1;
        }
        let version_set = match VersionSet::new(None, max_levels) {
            Ok(v) => v,
            Err(_) => {
                loop
                    invariant
                        false,
                    decreases 0int,
                {
                }
            },
        };
        let wal = match WAL::open(Vec::new()) {
            Ok(w) => w,
            Err(_) => {
                loop
                    invariant
                        false,
                    decreases 0int,
                {
                }
            },
        };
        let db = DB {
            options,
            memtable: MemTable::new(1),
            immutable_memtables: Vec::new(),
            wal,
            sstables,
            sequence: 0,
            wal_file_number: 1,
            version_set,
            compaction_picker: CompactionPicker::new(max_levels),
            missing_files: Vec::new(),
        };
        proof {
            db.wal.lemma_synced_within();
            lemma_empty_log_sound(db.options.memtable_size, 0, 0);
            assert(db.wal.bytes().subrange(0, db.wal.synced_len() as int) =~= Seq::<u8>::empty());
            assert(db.frozen() =~= Seq::<Map<EntryKey, Seq<u8>>>::empty());
            assert forall|l: int| 0 <= l < max_levels implies #[trigger] meta_views(db.sstables@)[l]
                == db.version_set.levels()[l] by {
                assert(db.sstables@[l]@.len() == 0);
                assert(meta_views(db.sstables@)[l] =~= Seq::<FileMetaView>::empty());
                assert(db.version_set.levels()[l] =~= Seq::<FileMetaView>::empty());
            }
            assert(meta_views(db.sstables@) =~= db.version_set.levels());
            assert forall|l: int| 0 <= l < max_levels implies (#[trigger] db.tables()[l]).len()
                == 0 by {
                assert(db.sstables@[l]@.len() == 0);
            }
        }
        db
    }

    /// Sets the sequence number of a database whose MemTables hold
    /// nothing.
    fn restore_sequence(&mut self, sequence: u64)
        requires
            old(self).well_formed(),
            old(self).settled(),
            old(self).log_bytes() == Seq::<u8>::empty(),
        ensures
            final(self).well_formed(),
            final(self).settled(),
            final(self).spec_options() == old(self).spec_options(),
            final(self).spec_sequence() == sequence,
            final(self).tables() == old(self).tables(),
            final(self).log_bytes() == old(self).log_bytes(),
            final(self).log_synced() == old(self).log_synced(),
            final(self).active_size() == old(self).active_size(),
            final(self).missing() == old(self).missing(),
    {
        proof {
            assert(self.frozen().len() == self.immutable_memtables@.len());
        }
        let edit = VersionEdit::SetSequenceNumber(sequence);
        let _ = self.version_set.log_edit(&edit);
        self.sequence = sequence;
        proof {
            lemma_empty_log_sound(self.options.memtable_size, sequence, sequence);
            self.wal.lemma_synced_within();
            assert(self.wal.bytes().subrange(0, self.wal.synced_len() as int) =~= Seq::<
                u8,
            >::empty());
        }
    }

    /// Whether a directory can be opened with the options: the options are
    /// valid, a database is there or may be made, is not there or may be
    /// there, and its files make up a database.
    pub open spec fn opens(dir: Map<FileId, Seq<u8>>, options: Options) -> bool {
        &&& options.valid()
        &&& dir.dom().contains(spec_manifest_id()) || options.create_if_missing
        &&& !(dir.dom().contains(spec_manifest_id()) && options.error_if_exists)
        &&& restorable(dir, options.max_levels, options.memtable_size)
    }

    /// What a database holds that was opened from the files of a
    /// directory: in each level the tables that the manifest names and
    /// that are there; in memory what writing the batches of the newest log
    /// again has given, starting at the sequence number of the manifest;
    /// and a new log of those batches, all of it durable.
    pub open spec fn opened_from(&self, dir: Map<FileId, Seq<u8>>, options: Options) -> bool {
        let state = recorded(dir, options.max_levels)->Ok_0;
        &&& self.spec_options() == options
        &&& self.spec_wal_file_number() == newest_log(dir)
        &&& self.memory() == replayed(
            empty_memory(state.sequence),
            logged(dir),
            options.memtable_size,
        )
        &&& self.tables().len() == options.max_levels
        &&& state.levels.len() == options.max_levels
        &&& forall|l: int|
            0 <= l < options.max_levels ==> #[trigger] self.tables()[l] == present_tables(
                state.levels[l],
                dir,
            )
        &&& self.missing() == absent_below(state.levels, dir, options.max_levels as int)
        &&& self.log_synced() == self.log_bytes().len()
    }

    /// Opens the database that the files of a directory make up, or a new
    /// one when the directory holds no manifest. The manifest is replayed
    /// and written anew; table files that it names and that are not there
    /// are left out, and their numbers kept for `missing_files`; the log
    /// with the highest number is replayed into the MemTable, up to its
    /// first damaged record. Files that the manifest does not name are
    /// not taken over. A manifest that names a table file that is there
    /// twice, or under the largest number there is, is refused as
    /// corrupt.
    pub fn open(dir: &Directory, options: Options) -> (r: Result<Self, Error>)
        requires
            dir.well_formed(),
        ensures
            match r {
                Ok(db) => db.well_formed() && Self::opens(dir@, options) && db.opened_from(
                    dir@,
                    options,
                ),
                Err(e) => !Self::opens(dir@, options) && if !options.valid() {
                    e is InvalidArgument
                } else if !dir@.dom().contains(manifest_id()) && !options.create_if_missing {
                    e is NotFound
                } else if dir@.dom().contains(manifest_id()) && options.error_if_exists {
                    e is AlreadyExists
                } else {
                    e is Corruption
                },
            },
    {
        match options.validate() {
            Ok(_) => {},
            Err(e) => {
                return Err(e);
            },
        }
        let manifest = dir.read(manifest_id());
        let present = manifest.is_some();
        if !present && !options.create_if_missing {
            return Err(Error::not_found("Database does not exist"));
        }
        if present && options.error_if_exists {
            return Err(Error::AlreadyExists(String::from_str("Database already exists")));
        }
        let max_levels = options.max_levels;
        let limit = options.memtable_size;
        let recovered = match VersionSet::new(manifest, max_levels) {
            Ok(v) => v,
            Err(e) => {
                return Err(Error::corruption("The manifest cannot be replayed"));
            },
        };
        let ghost state = recorded(dir@, max_levels)->Ok_0;
        proof {
            recovered.lemma_well_formed();
        }
        let mut db = Self::blank(options);
        let next = recovered.next_file_number();
        let edit = VersionEdit::SetNextFileNumber(next);
        let _ = db.version_set.log_edit(&edit);
        db.restore_sequence(recovered.sequence());
        // the tables that the manifest names
        let version = recovered.current();
        proof {
            assert(version@ == state.levels);
            assert(version.levels@.len() == max_levels);
        }
        proof {
            assert(db.frozen() =~= Seq::<Map<EntryKey, Seq<u8>>>::empty());
        }
        let mut level: usize = 0;
        while level < version.levels.len() && level < max_levels
            invariant
                forall|l: int| 0 <= l < level ==> tables_readable(#[trigger] state.levels[l], dir@),
                db.well_formed(),
                db.spec_options() == options,
                db.settled(),
                db.memory() == empty_memory(state.sequence),
                db.log_bytes() == Seq::<u8>::empty(),
                db.log_synced() == 0,
                options.valid(),
                present == dir@.dom().contains(manifest_id()),
                present || options.create_if_missing,
                !(present && options.error_if_exists),
                max_levels == options.max_levels,
                limit == options.memtable_size,
                recorded(dir@, max_levels) == Ok::<VersionState, ErrorKind>(state),
                version@ == state.levels,
                version.levels@.len() == max_levels,
                db.tables().len() == max_levels,
                dir.well_formed(),
                level <= version.levels@.len(),
                forall|l: int|
                    0 <= l < level ==> #[trigger] db.tables()[l] == present_tables(
                        state.levels[l],
                        dir@,
                    ),
                forall|l: int| level <= l < max_levels ==> (#[trigger] db.tables()[l]).len() == 0,
                db.missing() == absent_below(state.levels, dir@, level as int),
            decreases version.levels@.len() - level,
        {
            let files = &version.levels[level];
            let ghost metas = state.levels[level as int];
            proof {
                assert(metas == files@.map_values(|f: FileMetaData| f@));
                assert(metas.subrange(0, 0) =~= Seq::<FileMetaView>::empty());
                assert(db.tables()[level as int] =~= Seq::<TableView>::empty());
            }
            let ghost missing_before = db.missing();
            let mut i: usize = 0;
            while i < files.len()
                invariant
                    forall|l: int|
                        0 <= l < level ==> tables_readable(#[trigger] state.levels[l], dir@),
                    forall|j: int|
                        0 <= j < i && dir@.dom().contains(
                            table_id((#[trigger] metas[j]).file_number),
                        ) ==> crate::sstable::reader::table_index(
                            dir@[table_id(metas[j].file_number)],
                        ) is Ok,
                    db.well_formed(),
                    db.spec_options() == options,
                    db.settled(),
                    db.memory() == empty_memory(state.sequence),
                    db.log_bytes() == Seq::<u8>::empty(),
                    db.log_synced() == 0,
                    options.valid(),
                    present == dir@.dom().contains(manifest_id()),
                    present || options.create_if_missing,
                    !(present && options.error_if_exists),
                    max_levels == options.max_levels,
                    limit == options.memtable_size,
                    recorded(dir@, max_levels) == Ok::<VersionState, ErrorKind>(state),
                    version@ == state.levels,
                    version.levels@.len() == max_levels,
                    db.tables().len() == max_levels,
                    level < max_levels,
                    dir.well_formed(),
                    i <= files@.len(),
                    metas == state.levels[level as int],
                    metas == files@.map_values(|f: FileMetaData| f@),
                    forall|l: int|
                        0 <= l < level ==> #[trigger] db.tables()[l] == present_tables(
                            state.levels[l],
                            dir@,
                        ),
                    forall|l: int|
                        level < l < max_levels ==> (#[trigger] db.tables()[l]).len() == 0,
                    db.tables()[level as int] == present_tables(metas.subrange(0, i as int), dir@),
                    db.missing() == missing_before + absent_tables(
                        metas.subrange(0, i as int),
                        dir@,
                    ),
                decreases files@.len() - i,
            {
                let meta = &files[i];
                let id = FileId { kind: FileKind::Table, number: meta.file_number };
                let ghost upto = metas.subrange(0, i + 1);
                let ghost tables_before = db.tables();
                proof {
                    assert(upto.drop_last() =~= metas.subrange(0, i as int));
                    assert(upto.last() == meta@);
                    assert(metas[i as int] == meta@);
                    assert(id == table_id(meta@.file_number));
                }
                match dir.read(id) {
                    Some(data) => {
                        let taken = meta.file_number == u64::MAX || db.holds_number(
                            meta.file_number,
                        );
                        if taken {
                            proof {
                                let levels = state.levels;
                                assert(crate::replay::present(levels, dir@, max_levels, level as int, i as int));
                                if meta.file_number != u64::MAX {
                                    let (a, t) = choose|a: int, t: int|
                                        0 <= a < db.tables().len() && 0 <= t < db.tables()[a].len()
                                            && (#[trigger] db.tables()[a][t]).meta.file_number
                                            == meta.file_number;
                                    if a < level {
                                        let j = lemma_present_origin(levels[a], dir@, t);
                                        assert(crate::replay::present(levels, dir@, max_levels, a, j));
                                    } else {
                                        let part = metas.subrange(0, i as int);
                                        let j = lemma_present_origin(part, dir@, t);
                                        assert(part[j] == metas[j]);
                                        assert(crate::replay::present(levels, dir@, max_levels, level as int, j));
                                    }
                                    assert(!numbers_sound(levels, dir@, max_levels));
                                }
                            }
                            return Err(Error::corruption("The manifest names a table file twice"));
                        }
                        let table = FlushedTable {
                            bytes: data,
                            smallest_key: copy_bytes(meta.smallest_key.as_slice()),
                            largest_key: copy_bytes(meta.largest_key.as_slice()),
                            entry_count: 0,
                        };
                        match db.add_table(level, meta.file_number, table) {
                            Ok(_) => {
                                proof {
                                    let now = db.tables()[level as int];
                                    assert(now.last() == found_table(meta@, dir@[id]));
                                    assert(now =~= now.drop_last().push(now.last()));
                                }
                            },
                            Err(_) => {
                                proof {
                                    assert(!tables_readable(state.levels[level as int], dir@));
                                }
                                return Err(Error::corruption("A table file cannot be read"));
                            },
                        }
                    },
                    None => {
                        db.missing_files.push(meta.file_number);
                        proof {
                            assert(db.missing() =~= missing_before + absent_tables(upto, dir@));
                        }
                    },
                }
                i += 1;
            }
            proof {
                assert(metas.subrange(0, files@.len() as int) =~= metas);
            }
            level += 1;
        }
        proof {
            lemma_numbers_sound(
                db.tables(),
                state.levels,
                dir@,
                max_levels,
                db.next_file_number(),
            );
        }
        // the log
        let numbers = dir.numbers(FileKind::Log);
        let mut wal_number: u64 = 1;
        let mut i: usize = 0;
        while i < numbers.len()
            invariant
                i <= numbers@.len(),
                wal_number >= 1,
                forall|j: int| 0 <= j < i ==> #[trigger] numbers@[j] <= wal_number,
                wal_number == 1 || numbers@.contains(wal_number),
            decreases numbers@.len() - i,
        {
            if numbers[i] >= wal_number {
                wal_number = numbers[i];
            }
            i += 1;
        }
        proof {
            assert forall|m: u64| #[trigger] dir@.dom().contains(log_id(m)) implies m
                <= wal_number by {
                assert(numbers@.contains(m));
            }
            assert(is_newest_log(dir@, wal_number));
            lemma_newest_log(dir@, wal_number);
        }
        db.wal_file_number = wal_number;
        let log = match dir.read(FileId { kind: FileKind::Log, number: wal_number }) {
            Some(data) => data,
            None => Vec::new(),
        };
        proof {
            assert(log@ =~= log_to_replay(dir@));
        }
        let entries = match WAL::recover(log) {
            Ok(e) => e,
            Err(e) => {
                loop
                    invariant
                        false,
                    decreases 0int,
                {
                }
            },
        };
        let ghost found = recover_from(log_to_replay(dir@), 0);
        let ghost batches = logged(dir@);
        let ghost start = empty_memory(state.sequence);
        proof {
            assert(crate::codec::byte_views(entries@) == found);
            assert(batches.subrange(0, 0) =~= Seq::<Seq<WriteOpView>>::empty());
        }
        let mut i: usize = 0;
        while i < entries.len()
            invariant
                db.well_formed(),
                db.spec_options() == options,
                options.valid(),
                present == dir@.dom().contains(manifest_id()),
                present || options.create_if_missing,
                !(present && options.error_if_exists),
                max_levels == options.max_levels,
                limit == options.memtable_size,
                recorded(dir@, max_levels) == Ok::<VersionState, ErrorKind>(state),
                state.levels.len() == max_levels,
                db.tables().len() == max_levels,
                forall|l: int|
                    0 <= l < max_levels ==> #[trigger] db.tables()[l] == present_tables(
                        state.levels[l],
                        dir@,
                    ),
                forall|l: int|
                    0 <= l < max_levels ==> tables_readable(#[trigger] state.levels[l], dir@),
                numbers_sound(state.levels, dir@, max_levels),
                db.missing() == absent_below(state.levels, dir@, max_levels as int),
                db.spec_wal_file_number() == newest_log(dir@),
                db.log_synced() == db.log_bytes().len(),
                crate::codec::byte_views(entries@) == found,
                found == recover_from(log_to_replay(dir@), 0),
                batches == logged(dir@),
                start == empty_memory(state.sequence),
                i <= entries@.len(),
                forall|j: int| 0 <= j < i ==> decode_batch(#[trigger] found[j]) is Some,
                replay_fits(start, batches.subrange(0, i as int), limit),
                db.memory() == replayed(start, batches.subrange(0, i as int), limit),
            decreases entries@.len() - i,
        {
            let ghost upto = batches.subrange(0, i + 1);
            proof {
                assert(found[i as int] == entries@[i as int]@);
                assert(upto.drop_last() =~= batches.subrange(0, i as int));
                assert(upto.last() == batches[i as int]);
            }
            let ops = match decode_ops(entries[i].as_slice()) {
                Ok(ops) => ops,
                Err(e) => {
                    proof {
                        assert(!all_decode(found));
                    }
                    return Err(e);
                },
            };
            proof {
                assert(op_views(ops@) == batches[i as int]);
            }
            match db.write_ops(&ops, true) {
                Ok(_) => {},
                Err(_) => {
                    proof {
                        if replay_fits(start, batches, limit) {
                            lemma_replay_prefix(start, batches, limit, i as int);
                        }
                    }
                    return Err(Error::corruption("A logged batch cannot be replayed"));
                },
            }
            i += 1;
        }
        proof {
            assert(batches.subrange(0, entries@.len() as int) =~= batches);
            assert(all_decode(found));
        }
        Ok(db)
    }

    /// Whether the files are those that make up the database as it
    /// would be found after a crash: the manifest, the durable part of the
    /// log, and a file for each table.
    pub open spec fn stored_in(&self, dir: Map<FileId, Seq<u8>>) -> bool {
        &&& dir.dom().contains(spec_manifest_id())
        &&& dir[spec_manifest_id()] == self.manifest_bytes()
        &&& is_newest_log(dir, self.spec_wal_file_number())
        &&& dir.dom().contains(log_id(self.spec_wal_file_number()))
        &&& dir[log_id(self.spec_wal_file_number())] == self.log_bytes().subrange(
            0,
            self.log_synced() as int,
        )
        &&& forall|l: int, j: int|
            0 <= l < self.tables().len() && 0 <= j < self.tables()[l].len() ==> dir.dom().contains(
                table_id((#[trigger] self.tables()[l][j]).meta.file_number),
            )
        &&& forall|number: u64| #[trigger]
            dir.dom().contains(table_id(number)) ==> exists|l: int, j: int|
                0 <= l < self.tables().len() && 0 <= j < self.tables()[l].len() && (
                #[trigger] self.tables()[l][j]).meta.file_number == number && dir[table_id(number)]
                    == self.tables()[l][j].file
    }

    /// The files that make up the database as it would be found after a
    /// crash: the manifest, the durable part of the log, and the tables.
    pub fn files(&self) -> (dir: Directory)
        requires
            self.well_formed(),
        ensures
            dir.well_formed(),
            self.stored_in(dir@),
    {
        let mut dir = Directory::new();
        let ghost views = self.tables();
        let mut level: usize = 0;
        while level < self.sstables.len()
            invariant
                dir.well_formed(),
                level <= self.sstables@.len(),
                views == self.tables(),
                views.len() == self.sstables@.len(),
                forall|id: FileId| #[trigger] dir@.dom().contains(id) ==> id.kind == FileKind::Table,
                forall|l: int, j: int|
                    0 <= l < level && 0 <= j < views[l].len() ==> dir@.dom().contains(
                        table_id((#[trigger] views[l][j]).meta.file_number),
                    ),
                forall|number: u64| #[trigger]
                    dir@.dom().contains(table_id(number)) ==> exists|l: int, j: int|
                        0 <= l < views.len() && 0 <= j < views[l].len() && (
                        #[trigger] views[l][j]).meta.file_number == number && dir@[table_id(number)]
                            == views[l][j].file,
            decreases self.sstables@.len() - level,
        {
            let tables = &self.sstables[level];
            let mut i: usize = 0;
            while i < tables.len()
                invariant
                    dir.well_formed(),
                    i <= tables@.len(),
                    level < self.sstables@.len(),
                    tables == &self.sstables@[level as int],
                    views == self.tables(),
                    views.len() == self.sstables@.len(),
                    forall|id: FileId| #[trigger]
                        dir@.dom().contains(id) ==> id.kind == FileKind::Table,
                    forall|l: int, j: int|
                        0 <= l < level && 0 <= j < views[l].len() ==> dir@.dom().contains(
                            table_id((#[trigger] views[l][j]).meta.file_number),
                        ),
                    forall|j: int|
                        0 <= j < i ==> dir@.dom().contains(
                            table_id((#[trigger] views[level as int][j]).meta.file_number),
                        ),
                    forall|number: u64| #[trigger]
                        dir@.dom().contains(table_id(number)) ==> exists|l: int, j: int|
                            0 <= l < views.len() && 0 <= j < views[l].len() && (
                            #[trigger] views[l][j]).meta.file_number == number && dir@[table_id(
                                number,
                            )] == views[l][j].file,
                decreases tables@.len() - i,
            {
                let table = &tables[i];
                let ghost before = dir@;
                dir.write(
                    FileId { kind: FileKind::Table, number: table.meta.file_number },
                    copy_bytes(table.reader.contents()),
                );
                proof {
                    let written = views[level as int][i as int];
                    assert(written == table@);
                    assert forall|number: u64| #[trigger]
                        dir@.dom().contains(table_id(number)) implies exists|l: int, j: int|
                        0 <= l < views.len() && 0 <= j < views[l].len() && (
                        #[trigger] views[l][j]).meta.file_number == number && dir@[table_id(number)]
                            == views[l][j].file by {
                        if number == table.meta.file_number {
                            assert(views[level as int][i as int].meta.file_number == number);
                        } else {
                            assert(before.dom().contains(table_id(number)));
                        }
                    }
                }
                i += 1;
            }
            level += 1;
        }
        let synced = self.wal.synced_size();
        let log = crate::codec::copy_range(self.wal.contents(), 0, synced);
        dir.write(FileId { kind: FileKind::Log, number: self.wal_file_number }, log);
        dir.write(manifest_id(), copy_bytes(self.version_set.manifest()));
        proof {
            assert forall|m: u64| #[trigger] dir@.dom().contains(log_id(m)) implies m
                <= self.wal_file_number by {}
            assert forall|number: u64| #[trigger]
                dir@.dom().contains(table_id(number)) implies exists|l: int, j: int|
                0 <= l < views.len() && 0 <= j < views[l].len() && (
                #[trigger] views[l][j]).meta.file_number == number && dir@[table_id(number)]
                    == views[l][j].file by {}
        }
        dir
    }

    /// The user keys of the versions in the active MemTable, in key
    /// order; a key stands once for each of its versions.
    pub(crate) fn active_keys(&self) -> (list: Vec<crate::sstable::reader::TableEntry>)
        requires
            self.well_formed(),
        ensures
            lists_versions(entry_list(list@), self.active()),
    {
        Self::keys_of(&self.memtable)
    }

    /// The user keys of the versions in a MemTable, in key order.
    fn keys_of(memtable: &MemTable) -> (list: Vec<crate::sstable::reader::TableEntry>)
        requires
            memtable.well_formed(),
        ensures
            lists_versions(entry_list(list@), memtable.contents()),
    {
        let entries = memtable.entries();
        let ghost found = crate::memtable::listed(entries@);
        let mut list: Vec<crate::sstable::reader::TableEntry> = Vec::new();
        let mut i: usize = 0;
        while i < entries.len()
            invariant
                i <= entries@.len(),
                list@.len() == i,
                found == crate::memtable::listed(entries@),
                forall|j: int| 0 <= j < i ==> (#[trigger] list@[j])@.key == found[j].0.0,
            decreases entries@.len() - i,
        {
            proof {
                assert(found[i as int].0 == entries@[i as int].spec_entry_key());
            }
            list.push(
                crate::sstable::reader::TableEntry {
                    key: copy_bytes(entries[i].user_key()),
                    value: Vec::new(),
                },
            );
            i += 1;
        }
        proof {
            let keys = entry_list(list@);
            assert forall|a: int, b: int| 0 <= a < b < keys.len() implies crate::key_order::key_le(
                (#[trigger] keys[a]).key,
                (#[trigger] keys[b]).key,
            ) by {
                assert(keys[a] == list@[a]@);
                assert(keys[b] == list@[b]@);
                assert(crate::memtable::skiplist::entry_lt(found[a].0, found[b].0));
            }
            assert forall|key: Seq<u8>| #[trigger]
                has_version(memtable.contents(), key) implies names_key(keys, key) by {
                let k = choose|k: EntryKey| #[trigger]
                    memtable.contents().dom().contains(k) && k.0 == key;
                assert(crate::memtable::skiplist::in_bounds(
                    k,
                    None::<EntryKey>,
                    None::<EntryKey>,
                ));
                let at = choose|at: int| 0 <= at < found.len() && (#[trigger] found[at]).0 == k;
                assert(keys[at] == list@[at]@);
            }
        }
        list
    }

    /// The user keys of the versions in the frozen MemTables, one list
    /// for each.
    pub(crate) fn frozen_keys(&self) -> (lists: Vec<Vec<crate::sstable::reader::TableEntry>>)
        requires
            self.well_formed(),
        ensures
            lists@.len() == self.frozen().len(),
            forall|f: int|
                0 <= f < lists@.len() ==> lists_versions(
                    entry_list((#[trigger] lists@[f])@),
                    self.frozen()[f],
                ),
    {
        let mut lists: Vec<Vec<crate::sstable::reader::TableEntry>> = Vec::new();
        let mut i: usize = 0;
        while i < self.immutable_memtables.len()
            invariant
                self.well_formed(),
                i <= self.immutable_memtables@.len(),
                lists@.len() == i,
                self.frozen().len() == self.immutable_memtables@.len(),
                forall|f: int|
                    0 <= f < i ==> lists_versions(
                        entry_list((#[trigger] lists@[f])@),
                        self.frozen()[f],
                    ),
            decreases self.immutable_memtables@.len() - i,
        {
            proof {
                assert(self.immutable_memtables@[i as int].well_formed());
                assert(self.frozen()[i as int] == self.immutable_memtables@[i as int].contents());
            }
            lists.push(Self::keys_of(&self.immutable_memtables[i]));
            i += 1;
        }
        lists
    }

    /// The entries of the tables, one list for each table; the error of
    /// the first table that cannot be read.
    pub(crate) fn table_keys(&self) -> (r: Result<Vec<Vec<crate::sstable::reader::TableEntry>>, Error>)
        requires
            self.well_formed(),
        ensures
            match r {
                Ok(lists) => {
                    &&& all_readable(self.tables())
                    &&& forall|l: int, j: int|
                        0 <= l < self.tables().len() && 0 <= j < self.tables()[l].len()
                            ==> table_is_listed(
                            source_views(lists@),
                            #[trigger] self.tables()[l][j],
                        )
                    &&& forall|i: int|
                        0 <= i < lists@.len() ==> list_is_table(
                            self.tables(),
                            #[trigger] source_views(lists@)[i],
                        )
                },
                Err(e) => !all_readable(self.tables()),
            },
    {
        let ghost levels = self.tables();
        let mut lists: Vec<Vec<crate::sstable::reader::TableEntry>> = Vec::new();
        let mut level: usize = 0;
        while level < self.sstables.len()
            invariant
                self.well_formed(),
                levels == self.tables(),
                levels.len() == self.sstables@.len(),
                level <= self.sstables@.len(),
                forall|l: int, j: int|
                    0 <= l < level && 0 <= j < levels[l].len() ==> table_entries(
                        (#[trigger] levels[l][j]).file,
                    ) is Ok && table_is_listed(source_views(lists@), levels[l][j]),
                forall|i: int|
                    0 <= i < lists@.len() ==> list_is_table(
                        levels,
                        #[trigger] source_views(lists@)[i],
                    ),
            decreases self.sstables@.len() - level,
        {
            let tables = &self.sstables[level];
            let mut i: usize = 0;
            while i < tables.len()
                invariant
                    self.well_formed(),
                    levels == self.tables(),
                    levels.len() == self.sstables@.len(),
                    level < self.sstables@.len(),
                    tables == self.sstables@[level as int],
                    i <= tables@.len(),
                    forall|l: int, j: int|
                        0 <= l < level && 0 <= j < levels[l].len() ==> table_entries(
                            (#[trigger] levels[l][j]).file,
                        ) is Ok && table_is_listed(source_views(lists@), levels[l][j]),
                    forall|j: int|
                        0 <= j < i ==> table_entries((#[trigger] levels[level as int][j]).file) is Ok
                            && table_is_listed(source_views(lists@), levels[level as int][j]),
                    forall|i: int|
                        0 <= i < lists@.len() ==> list_is_table(
                            levels,
                            #[trigger] source_views(lists@)[i],
                        ),
                decreases tables@.len() - i,
            {
                proof {
                    assert(self.sstables@[level as int]@[i as int].reader.well_formed());
                    assert(levels[level as int][i as int] == tables@[i as int]@);
                }
                let ghost before = source_views(lists@);
                match tables[i].reader.entries() {
                    Ok(list) => {
                        lists.push(list);
                        proof {
                            let now = source_views(lists@);
                            let t = levels[level as int][i as int];
                            assert(now =~= before.push(entry_list(list@)));
                            assert(lists_table(now[now.len() - 1], t));
                            assert forall|l: int, j: int|
                                0 <= l < level && 0 <= j < levels[l].len() implies table_is_listed(
                                now,
                                #[trigger] levels[l][j],
                            ) by {
                                let at = choose|at: int|
                                    0 <= at < before.len() && lists_table(
                                        #[trigger] before[at],
                                        levels[l][j],
                                    );
                                assert(now[at] == before[at]);
                            }
                            assert forall|j: int| 0 <= j < i + 1 implies table_is_listed(
                                now,
                                #[trigger] levels[level as int][j],
                            ) by {
                                if j < i {
                                    let at = choose|at: int|
                                        0 <= at < before.len() && lists_table(
                                            #[trigger] before[at],
                                            levels[level as int][j],
                                        );
                                    assert(now[at] == before[at]);
                                }
                            }
                            assert forall|a: int| 0 <= a < now.len() implies list_is_table(
                                levels,
                                #[trigger] now[a],
                            ) by {
                                if a < before.len() {
                                    assert(now[a] == before[a]);
                                    assert(list_is_table(levels, before[a]));
                                }
                            }
                        }
                    },
                    Err(e) => {
                        return Err(e);
                    },
                }
                i += 1;
            }
            level += 1;
        }
        Ok(lists)
    }

    /// The number of tables at a level; 0 for a level that is not there.
    pub fn num_level_files(&self, level: usize) -> (n: usize)
        ensures
            n == if level < self.tables().len() {
                self.tables()[level as int].len()
            } else {
                0
            },
    {
        if level < self.sstables.len() {
            proof {
                assert(self.tables()[level as int].len() == self.sstables@[level as int]@.len());
            }
            self.sstables[level].len()
        } else {
            0
        }
    }

    /// The number of frozen MemTables that wait to be flushed.
    pub fn num_immutable_memtables(&self) -> (n: usize)
        ensures
            n == self.frozen().len(),
    {
        self.immutable_memtables.len()
    }

    /// The options with which the database was opened.
    pub fn options(&self) -> (o: &Options)
        ensures
            *o == self.spec_options(),
    {
        &self.options
    }

    /// The numbers of the table files that the manifest named at opening
    /// and that were not there.
    pub fn missing_files(&self) -> (list: &Vec<u64>)
        ensures
            list@ == self.missing(),
    {
        &self.missing_files
    }

    /// The highest sequence number handed out.
    pub fn sequence(&self) -> (s: u64)
        ensures
            s == self.spec_sequence(),
    {
        self.sequence
    }
}

/// The first writes weigh no more than all writes.
pub proof fn lemma_ops_weight_grows(ops: Seq<WriteOpView>, i: int)
    requires
        0 <= i <= ops.len(),
    ensures
        ops_weight(ops.subrange(0, i)) <= ops_weight(ops),
    decreases ops.len() - i,
{
    if i < ops.len() {
        lemma_ops_weight_grows(ops, i + 1);
        let upto = ops.subrange(0, i + 1);
        assert(upto.drop_last() =~= ops.subrange(0, i));
    } else {
        assert(ops.subrange(0, i) =~= ops);
    }
}

/// The bits per key of the filter that new tables get, if they get one.
pub open spec fn table_filter_bits(options: Options) -> Option<usize> {
    if options.use_bloom_filter {
        Some(crate::filter::bloom::bits_for_rate(options.bloom_filter_fp_rate_ppm, 1) as usize)
    } else {
        None
    }
}

/// Whether the versions of a MemTable make a table under the options.
pub open spec fn table_fits(contents: Map<EntryKey, Seq<u8>>, options: Options) -> bool {
    crate::flush::makes_table(
        contents,
        options.block_size,
        table_filter_bits(options),
        options.compression,
    )
}

/// Whether a list of entries names the key.
pub open spec fn names_key(list: Seq<KeyValue>, key: Seq<u8>) -> bool {
    exists|q: int| 0 <= q < list.len() && (#[trigger] list[q]).key == key
}

/// Whether a MemTable holds a version of the key.
pub open spec fn has_version(contents: Map<EntryKey, Seq<u8>>, key: Seq<u8>) -> bool {
    exists|k: EntryKey| #[trigger] contents.dom().contains(k) && k.0 == key
}

/// Whether a list names the keys of the versions of a MemTable, without
/// going down.
pub open spec fn lists_versions(list: Seq<KeyValue>, contents: Map<EntryKey, Seq<u8>>) -> bool {
    &&& ascending(list)
    &&& forall|key: Seq<u8>| #[trigger] has_version(contents, key) ==> names_key(list, key)
}

/// Whether a table is one that the engine has written: its file is the
/// table of its entries.
pub open spec fn written_by_engine(t: TableView) -> bool {
    is_table_of(t.file, table_entries(t.file)->Ok_0)
}

/// Whether the list holds the entries of the table.
pub open spec fn lists_table(list: Seq<KeyValue>, t: TableView) -> bool {
    table_entries(t.file) == Ok::<Seq<KeyValue>, ErrorKind>(list)
}

/// Whether one of the lists holds the entries of the table.
pub open spec fn table_is_listed(lists: Seq<Seq<KeyValue>>, t: TableView) -> bool {
    exists|i: int| 0 <= i < lists.len() && lists_table(#[trigger] lists[i], t)
}

/// Whether the list holds the entries of one of the tables.
pub open spec fn list_is_table(levels: Seq<Seq<TableView>>, list: Seq<KeyValue>) -> bool {
    exists|l: int, j: int|
        0 <= l < levels.len() && 0 <= j < levels[l].len() && lists_table(
            list,
            #[trigger] levels[l][j],
        )
}

/// Whether every table can be read from its first entry to its last.
pub open spec fn all_readable(levels: Seq<Seq<TableView>>) -> bool {
    forall|l: int, j: int|
        0 <= l < levels.len() && 0 <= j < levels[l].len() ==> table_entries(
            (#[trigger] levels[l][j]).file,
        ) is Ok
}

/// The name of the manifest.
pub open spec fn spec_manifest_id() -> FileId {
    FileId { kind: FileKind::Manifest, number: 0 }
}

/// The name of the manifest.
#[verifier::when_used_as_spec(spec_manifest_id)]
pub fn manifest_id() -> (id: FileId)
    ensures
        id == spec_manifest_id(),
{
    FileId { kind: FileKind::Manifest, number: 0 }
}

/// What the version knows of tables.
pub open spec fn meta_levels(levels: Seq<Seq<TableView>>) -> Seq<Seq<FileMetaView>> {
    levels.map_values(|tables: Seq<TableView>| tables.map_values(|t: TableView| t.meta))
}

/// The two ways of looking at what the version knows agree.
pub proof fn lemma_meta_levels(levels: Seq<Vec<TableHandle>>)
    ensures
        meta_levels(table_views(levels)) == meta_views(levels),
{
    assert forall|l: int| 0 <= l < levels.len() implies meta_levels(table_views(levels))[l]
        == meta_views(levels)[l] by {
        assert(meta_levels(table_views(levels))[l] =~= meta_views(levels)[l]);
    }
    assert(meta_levels(table_views(levels)) =~= meta_views(levels));
}

/// The entries of the tables that a compaction of a level merges, the
/// newest table first: all tables of level 0, and the oldest table of a
/// level from the first on.
pub open spec fn task_sources(tables: Seq<TableView>, level: usize) -> Seq<Seq<KeyValue>> {
    if level == 0 {
        Seq::new(
            tables.len(),
            |j: int| crate::sstable::reader::table_entries(tables[tables.len() - 1 - j].file)->Ok_0,
        )
    } else if tables.len() > 0 {
        seq![crate::sstable::reader::table_entries(tables[0].file)->Ok_0]
    } else {
        Seq::<Seq<KeyValue>>::empty()
    }
}

/// The tables of a level without the tables of the given file number.
pub open spec fn tables_without(tables: Seq<TableView>, file_number: u64) -> Seq<TableView>
    decreases tables.len(),
{
    if tables.len() == 0 {
        Seq::<TableView>::empty()
    } else if tables.last().meta.file_number != file_number {
        tables_without(tables.drop_last(), file_number).push(tables.last())
    } else {
        tables_without(tables.drop_last(), file_number)
    }
}

/// The tables of a level without the tables that have the number of one of
/// the given files.
pub open spec fn tables_without_all(tables: Seq<TableView>, files: Seq<FileMetaView>) -> Seq<
    TableView,
>
    decreases files.len(),
{
    if files.len() == 0 {
        tables
    } else {
        tables_without(tables_without_all(tables, files.drop_last()), files.last().file_number)
    }
}

/// What the version knows of the tables of the levels.
pub open spec fn meta_views(levels: Seq<Vec<TableHandle>>) -> Seq<Seq<FileMetaView>> {
    levels.map_values(|tables: Vec<TableHandle>| tables@.map_values(|t: TableHandle| t.meta@))
}

} // verus!
