//! Iterating over the keys of a database in key order.
//!
//! An iterator gathers the keys of the MemTables and of the tables when it
//! is made, and reads the database at the sequence number of that moment.
//! Keys without a value at that sequence number, deleted ones among them,
//! are passed over.

use vstd::prelude::*;
use crate::codec::{bytes_equal, copy_bytes};
use crate::compaction::merge::{merge_output, source_views, MergeIterator};
use crate::codec::byte_views;
use crate::compaction::merge_laws::{all_ascending, ascending, lemma_merge_complete, lemma_prefix_ascends};
use crate::db::{all_readable, has_version, list_is_table, lists_table, lists_versions, names_key, table_is_listed, DB};
use crate::db_laws::{lemma_known_is_named, lemma_sources_ascend, sources_name, sources_of, tables_written};
use crate::sstable::reader::entry_list;
use crate::error::{Error, ErrorKind};
use crate::key_order::{key_less, key_lt};
use crate::sstable::block::KeyValue;
use crate::sstable::reader::TableEntry;

verus! {

/// Whether a key lies between the bounds: not below `start`, and below
/// `end`.
pub open spec fn in_range(key: Seq<u8>, start: Option<Seq<u8>>, end: Option<Seq<u8>>) -> bool {
    &&& start is Some ==> !key_lt(key, start->0)
    &&& end is Some ==> key_lt(key, end->0)
}

/// Where an iterator comes to rest when it looks for a value from `from`
/// on: at the first key that has a value, or whose lookup fails, or behind
/// the last key.
pub open spec fn rest_position(db: &DB, keys: Seq<Seq<u8>>, sequence: u64, from: int) -> int
    decreases keys.len() - from,
{
    if from < 0 || from >= keys.len() {
        keys.len() as int
    } else {
        match db.lookup(keys[from], sequence) {
            Err(_) => from,
            Ok(found) => if found.value() is Some {
                from
            } else {
                rest_position(db, keys, sequence, from + 1)
            },
        }
    }
}

/// The value at which an iterator comes to rest, if it rests at one.
pub open spec fn rest_value(db: &DB, keys: Seq<Seq<u8>>, sequence: u64, from: int) -> Option<
    Seq<u8>,
> {
    let at = rest_position(db, keys, sequence, from);
    if at < keys.len() {
        match db.lookup(keys[at], sequence) {
            Ok(found) => found.value(),
            Err(_) => None,
        }
    } else {
        None
    }
}

/// An iterator without its database: what it takes to go on iterating
/// later, when the database can be borrowed again.
pub struct IteratorState {
    /// The sequence number at which the iterator reads.
    pub sequence: u64,
    /// The keys that the iterator goes over.
    pub keys: Vec<Vec<u8>>,
    /// The index of the key at which the iterator stands.
    pub position: usize,
    /// The key and value at which the iterator stands.
    pub current: Option<(Vec<u8>, Vec<u8>)>,
}

/// An iterator over the keys and values of a database.
pub struct DBIterator<'a> {
    db: &'a DB,
    current: Option<(Vec<u8>, Vec<u8>)>,
    sequence: u64,
    keys: Vec<Vec<u8>>,
    position: usize,
}

impl<'a> DBIterator<'a> {
    /// The database that is read.
    pub closed spec fn database(&self) -> &DB {
        self.db
    }

    /// The keys that the iterator goes over.
    pub closed spec fn spec_keys(&self) -> Seq<Seq<u8>> {
        crate::codec::byte_views(self.keys@)
    }

    /// The sequence number at which the iterator reads.
    pub closed spec fn spec_sequence(&self) -> u64 {
        self.sequence
    }

    /// The index of the key at which the iterator stands.
    pub closed spec fn spec_position(&self) -> int {
        self.position as int
    }

    /// The key and value at which the iterator stands.
    pub closed spec fn spec_current(&self) -> Option<(Seq<u8>, Seq<u8>)> {
        match self.current {
            Some(pair) => Some((pair.0@, pair.1@)),
            None => None,
        }
    }

    /// The key at which the iterator stands.
    pub open spec fn current_key(&self) -> Option<Seq<u8>> {
        match self.spec_current() {
            Some(pair) => Some(pair.0),
            None => None,
        }
    }

    /// The value at which the iterator stands.
    pub open spec fn current_value(&self) -> Option<Seq<u8>> {
        match self.spec_current() {
            Some(pair) => Some(pair.1),
            None => None,
        }
    }

    /// The iterator stands at a key of its list, or behind the last.
    pub closed spec fn well_formed(&self) -> bool {
        self.db.well_formed() && self.position <= self.keys@.len()
    }

    /// Whether the iterator has come to rest from `from`: it stands where
    /// the search from `from` ends, at the key and value found there.
    pub open spec fn rests_from(&self, from: int) -> bool {
        let at = rest_position(self.database(), self.spec_keys(), self.spec_sequence(), from);
        &&& self.spec_position() == at
        &&& self.spec_current() == match rest_value(
            self.database(),
            self.spec_keys(),
            self.spec_sequence(),
            from,
        ) {
            Some(v) => Some((self.spec_keys()[at], v)),
            None => None,
        }
    }

    /// An iterator over the keys in `keys`, reading at `sequence`, at rest
    /// from the first key.
    pub fn over(db: &'a DB, sequence: u64, keys: Vec<Vec<u8>>) -> (it: Self)
        requires
            db.well_formed(),
        ensures
            it.well_formed(),
            it.database() == db,
            it.spec_keys() == crate::codec::byte_views(keys@),
            it.spec_sequence() == sequence,
            it.rests_from(0),
    {
        let mut it = DBIterator { db, current: None, sequence, keys, position: 0 };
        it.load_current();
        it
    }

    /// Lets go of the database: the state can be attached to it again
    /// later.
    pub fn detach(self) -> (state: IteratorState)
        ensures
            state.sequence == self.spec_sequence(),
            crate::codec::byte_views(state.keys@) == self.spec_keys(),
            state.position == self.spec_position(),
            match state.current {
                Some(pair) => self.spec_current() == Some((pair.0@, pair.1@)),
                None => self.spec_current() is None,
            },
    {
        IteratorState {
            sequence: self.sequence,
            keys: self.keys,
            position: self.position,
            current: self.current,
        }
    }

    /// An iterator over `db` in the given state. A position behind the
    /// keys is taken as the place behind the last key.
    pub fn attach(db: &'a DB, state: IteratorState) -> (it: Self)
        requires
            db.well_formed(),
        ensures
            it.well_formed(),
            it.database() == db,
            it.spec_sequence() == state.sequence,
            it.spec_keys() == crate::codec::byte_views(state.keys@),
            it.spec_position() == if state.position <= state.keys@.len() {
                state.position as int
            } else {
                state.keys@.len() as int
            },
            match state.current {
                Some(pair) => it.spec_current() == Some((pair.0@, pair.1@)),
                None => it.spec_current() is None,
            },
    {
        let position = if state.position <= state.keys.len() {
            state.position
        } else {
            state.keys.len()
        };
        DBIterator {
            db,
            current: state.current,
            sequence: state.sequence,
            keys: state.keys,
            position,
        }
    }

    /// Comes to rest from the current position.
    fn load_current(&mut self)
        requires
            old(self).db.well_formed(),
        ensures
            final(self).well_formed(),
            final(self).database() == old(self).database(),
            final(self).spec_keys() == old(self).spec_keys(),
            final(self).spec_sequence() == old(self).spec_sequence(),
            final(self).rests_from(old(self).spec_position()),
    {
        let ghost from = self.position as int;
        let ghost keys = self.spec_keys();
        self.current = None;
        if self.position > self.keys.len() {
            self.position = self.keys.len();
            return ;
        }
        while self.position < self.keys.len()
            invariant
                self.db.well_formed(),
                self.db == old(self).db,
                self.keys == old(self).keys,
                self.sequence == old(self).sequence,
                keys == self.spec_keys(),
                self.position <= self.keys@.len(),
                self.current is None,
                from == old(self).position,
                from <= self.keys@.len(),
                rest_position(self.db, keys, self.sequence, from) == rest_position(
                    self.db,
                    keys,
                    self.sequence,
                    self.position as int,
                ),
            decreases self.keys@.len() - self.position,
        {
            proof {
                assert(keys[self.position as int] == self.keys@[self.position as int]@);
            }
            match self.db.get_at_sequence(self.keys[self.position].as_slice(), self.sequence) {
                Ok(Some(value)) => {
                    self.current = Some((copy_bytes(self.keys[self.position].as_slice()), value));
                    proof {
                        let at = self.position as int;
                        assert(rest_position(self.db, keys, self.sequence, at) == at);
                        assert(rest_value(self.db, keys, self.sequence, from) == Some(value@));
                    }
                    return ;
                },
                Ok(None) => {
                    self.position = self.position + 1;
                },
                Err(_) => {
                    proof {
                        let at = self.position as int;
                        assert(rest_position(self.db, keys, self.sequence, at) == at);
                        assert(rest_value(self.db, keys, self.sequence, from) is None);
                    }
                    return ;
                },
            }
        }
    }

    /// Whether the iterator stands at a key with a value.
    pub fn valid(&self) -> (b: bool)
        ensures
            b == self.spec_current() is Some,
    {
        self.current.is_some()
    }

    /// The key at which the iterator stands.
    pub fn key(&self) -> (k: &[u8])
        requires
            self.spec_current() is Some,
        ensures
            Some(k@) == self.current_key(),
    {
        match &self.current {
            Some(pair) => pair.0.as_slice(),
            None => {
                proof {
                    assert(false);
                }
                self.keys[0].as_slice()
            },
        }
    }

    /// The value at which the iterator stands.
    pub fn value(&self) -> (v: &[u8])
        requires
            self.spec_current() is Some,
        ensures
            Some(v@) == self.current_value(),
    {
        match &self.current {
            Some(pair) => pair.1.as_slice(),
            None => {
                proof {
                    assert(false);
                }
                self.keys[0].as_slice()
            },
        }
    }

    /// Moves to the next key that has a value.
    pub fn next(&mut self)
        requires
            old(self).well_formed(),
        ensures
            final(self).well_formed(),
            final(self).database() == old(self).database(),
            final(self).spec_keys() == old(self).spec_keys(),
            final(self).spec_sequence() == old(self).spec_sequence(),
            final(self).rests_from(
                if old(self).spec_position() < old(self).spec_keys().len() {
                    old(self).spec_position() + 1
                } else {
                    old(self).spec_position()
                },
            ),
    {
        if self.position < self.keys.len() {
            self.position = self.position + 1;
        }
        self.load_current();
    }

    /// Steps one key back and comes to rest from there; an iterator at the
    /// first key becomes invalid.
    pub fn prev(&mut self)
        requires
            old(self).well_formed(),
        ensures
            final(self).well_formed(),
            final(self).database() == old(self).database(),
            final(self).spec_keys() == old(self).spec_keys(),
            final(self).spec_sequence() == old(self).spec_sequence(),
            if old(self).spec_position() > 0 {
                final(self).rests_from(old(self).spec_position() - 1)
            } else {
                final(self).spec_current() is None && final(self).spec_position() == 0
            },
    {
        if self.position > 0 {
            self.position = self.position - 1;
            self.load_current();
        } else {
            self.current = None;
        }
    }

    /// The index of the first key that is not below `target`.
    pub open spec fn lower_bound(keys: Seq<Seq<u8>>, target: Seq<u8>, from: int) -> int
        decreases keys.len() - from,
    {
        if from < 0 || from >= keys.len() {
            keys.len() as int
        } else if !key_lt(keys[from], target) {
            from
        } else {
            Self::lower_bound(keys, target, from + 1)
        }
    }

    /// Moves to the first key that is not below `target` and has a value.
    pub fn seek(&mut self, target: &[u8])
        requires
            old(self).well_formed(),
        ensures
            final(self).well_formed(),
            final(self).database() == old(self).database(),
            final(self).spec_keys() == old(self).spec_keys(),
            final(self).spec_sequence() == old(self).spec_sequence(),
            final(self).rests_from(Self::lower_bound(old(self).spec_keys(), target@, 0)),
    {
        let ghost keys = self.spec_keys();
        let mut i: usize = 0;
        while i < self.keys.len()
            invariant
                i <= self.keys@.len(),
                self.db == old(self).db,
                self.keys == old(self).keys,
                self.sequence == old(self).sequence,
                self.db.well_formed(),
                keys == self.spec_keys(),
                Self::lower_bound(keys, target@, 0) == Self::lower_bound(keys, target@, i as int),
            ensures
                i <= self.keys@.len(),
                self.db == old(self).db,
                self.keys == old(self).keys,
                self.sequence == old(self).sequence,
                self.db.well_formed(),
                Self::lower_bound(keys, target@, 0) == i,
            decreases self.keys@.len() - i,
        {
            proof {
                assert(keys[i as int] == self.keys@[i as int]@);
            }
            if !key_less(self.keys[i].as_slice(), target) {
                break ;
            }
            i += 1;
        }
        self.position = i;
        self.load_current();
    }

    /// Moves to the first key that has a value.
    pub fn seek_to_first(&mut self)
        requires
            old(self).well_formed(),
        ensures
            final(self).well_formed(),
            final(self).database() == old(self).database(),
            final(self).spec_keys() == old(self).spec_keys(),
            final(self).spec_sequence() == old(self).spec_sequence(),
            final(self).rests_from(0),
    {
        self.position = 0;
        self.load_current();
    }

    /// Moves to the last key, if it has a value; the iterator is invalid
    /// when it has none or when there is no key.
    pub fn seek_to_last(&mut self)
        requires
            old(self).well_formed(),
        ensures
            final(self).well_formed(),
            final(self).database() == old(self).database(),
            final(self).spec_keys() == old(self).spec_keys(),
            final(self).spec_sequence() == old(self).spec_sequence(),
            if old(self).spec_keys().len() > 0 {
                final(self).rests_from(old(self).spec_keys().len() - 1)
            } else {
                final(self).spec_current() is None
            },
    {
        if self.keys.len() > 0 {
            self.position = self.keys.len() - 1;
            self.load_current();
        } else {
            self.current = None;
        }
    }
}

/// Whether the keys go up, each above the one before it.
pub open spec fn keys_ascend(keys: Seq<Seq<u8>>) -> bool {
    forall|i: int, j: int| 0 <= i < j < keys.len() ==> key_lt(#[trigger] keys[i], #[trigger] keys[j])
}

/// Whether the keys hold every key between the bounds for which a reader
/// of the database at the sequence number finds a value.
pub open spec fn keys_complete(
    db: &DB,
    keys: Seq<Seq<u8>>,
    sequence: u64,
    start: Option<Seq<u8>>,
    end: Option<Seq<u8>>,
) -> bool {
    forall|key: Seq<u8>|
        in_range(key, start, end) && (#[trigger] db.lookup(key, sequence) matches Ok(found)
            && found.value() is Some) ==> keys.contains(key)
}

impl DB {
    /// The keys of the MemTables and the tables, as sources of a merge.
    /// Fails when a table cannot be read.
    fn key_sources(&self) -> (r: Result<Vec<Vec<TableEntry>>, Error>)
        requires
            self.well_formed(),
        ensures
            match r {
                Ok(sources) => all_readable(self.tables()) && sources_of(
                    self,
                    source_views(sources@),
                ),
                Err(_) => !all_readable(self.tables()),
            },
    {
        let mut sources: Vec<Vec<TableEntry>> = Vec::new();
        sources.push(self.active_keys());
        let frozen = self.frozen_keys();
        let ghost frozen_lists = frozen@;
        let mut frozen = frozen;
        let ghost mut taken: int = 0;
        while frozen.len() > 0
            invariant
                0 <= taken <= frozen_lists.len(),
                frozen@ == frozen_lists.subrange(taken, frozen_lists.len() as int),
                sources@.len() == 1 + taken,
                lists_versions(entry_list(sources@[0]@), self.active()),
                forall|f: int| 0 <= f < taken ==> #[trigger] sources@[1 + f] == frozen_lists[f],
            decreases frozen@.len(),
        {
            let list = frozen.remove(0);
            sources.push(list);
            proof {
                taken = taken + 1;
                assert(frozen@ =~= frozen_lists.subrange(taken, frozen_lists.len() as int));
            }
        }
        let ghost memory = sources@;
        match self.table_keys() {
            Ok(lists) => {
                let ghost table_lists = lists@;
                let mut lists = lists;
                let ghost mut moved: int = 0;
                while lists.len() > 0
                    invariant
                        0 <= moved <= table_lists.len(),
                        lists@ == table_lists.subrange(moved, table_lists.len() as int),
                        sources@.len() == memory.len() + moved,
                        forall|i: int| 0 <= i < memory.len() ==> #[trigger] sources@[i] == memory[i],
                        forall|i: int|
                            0 <= i < moved ==> #[trigger] sources@[memory.len() + i]
                                == table_lists[i],
                    decreases lists@.len(),
                {
                    let list = lists.remove(0);
                    sources.push(list);
                    proof {
                        moved = moved + 1;
                        assert(lists@ =~= table_lists.subrange(moved, table_lists.len() as int));
                    }
                }
                proof {
                    let views = source_views(sources@);
                    let tables = source_views(table_lists);
                    assert(views[0] == entry_list(sources@[0]@));
                    assert forall|key: Seq<u8>| #[trigger]
                        has_version(self.active(), key) implies sources_name(views, key) by {
                        assert(names_key(views[0], key));
                    }
                    assert forall|f: int, key: Seq<u8>|
                        0 <= f < self.frozen().len() && #[trigger] has_version(
                            self.frozen()[f],
                            key,
                        ) implies sources_name(views, key) by {
                        assert(sources@[1 + f] == frozen_lists[f]);
                        assert(views[1 + f] == entry_list(frozen_lists[f]@));
                        assert(names_key(views[1 + f], key));
                    }
                    assert forall|l: int, j: int|
                        0 <= l < self.tables().len() && 0 <= j < self.tables()[l].len() implies table_is_listed(
                        views,
                        #[trigger] self.tables()[l][j],
                    ) by {
                        let t = self.tables()[l][j];
                        assert(table_is_listed(tables, t));
                        let at = choose|at: int|
                            0 <= at < tables.len() && lists_table(#[trigger] tables[at], t);
                        assert(sources@[memory.len() + at] == table_lists[at]);
                        assert(views[memory.len() + at] == tables[at]);
                    }
                    assert forall|i: int| 0 <= i < views.len() implies ascending(#[trigger] views[i])
                        || list_is_table(self.tables(), views[i]) by {
                        if i == 0 {
                        } else if i < memory.len() {
                            assert(sources@[1 + (i - 1)] == frozen_lists[i - 1]);
                            assert(views[i] == entry_list(frozen_lists[i - 1]@));
                        } else {
                            let at = i - memory.len();
                            assert(sources@[memory.len() + at] == table_lists[at]);
                            assert(views[i] == tables[at]);
                            assert(list_is_table(self.tables(), tables[at]));
                        }
                    }
                }
            },
            Err(e) => {
                return Err(e);
            },
        }
        Ok(sources)
    }

    /// An iterator over the keys from `start` up to, but not including,
    /// `end`, that have a value now. It reads the database as it is now,
    /// and stands at the first such key. Its keys lie between the bounds,
    /// and no key stands twice in a row; where the tables are tables that
    /// the engine has written, the keys go up and none that has a value
    /// is left out. Fails when a table cannot be read.
    pub fn scan(&self, start: Option<&[u8]>, end: Option<&[u8]>) -> (r: Result<
        DBIterator<'_>,
        Error,
    >)
        requires
            self.well_formed(),
        ensures
            r is Ok <==> all_readable(self.tables()),
            r matches Ok(it) ==> {
                &&& it.well_formed()
                &&& it.database() == self
                &&& it.spec_sequence() == self.spec_sequence()
                &&& it.rests_from(0)
                &&& forall|i: int|
                    0 <= i < it.spec_keys().len() ==> in_range(
                        #[trigger] it.spec_keys()[i],
                        match start {
                            Some(s) => Some(s@),
                            None => None,
                        },
                        match end {
                            Some(e) => Some(e@),
                            None => None,
                        },
                    )
                &&& forall|i: int|
                    0 < i < it.spec_keys().len() ==> #[trigger] it.spec_keys()[i]
                        != it.spec_keys()[i - 1]
                &&& tables_written(self) ==> keys_ascend(it.spec_keys()) && keys_complete(
                    self,
                    it.spec_keys(),
                    self.spec_sequence(),
                    match start {
                        Some(s) => Some(s@),
                        None => None,
                    },
                    match end {
                        Some(e) => Some(e@),
                        None => None,
                    },
                )
            },
    {
        let ghost lower = match start {
            Some(s) => Some(s@),
            None => None,
        };
        let ghost upper = match end {
            Some(e) => Some(e@),
            None => None,
        };
        let sources = match self.key_sources() {
            Ok(s) => s,
            Err(e) => {
                return Err(e);
            },
        };
        let ghost inputs = source_views(sources@);
        let ghost ordered = tables_written(self);
        proof {
            if ordered {
                lemma_sources_ascend(self, inputs);
            }
        }
        let mut merge = MergeIterator::from_sources(sources);
        let mut keys: Vec<Vec<u8>> = Vec::new();
        let ghost total = crate::compaction::merge::total_len(merge.inputs());
        loop
            invariant
                merge.well_formed(),
                merge.inputs() == inputs,
                total == crate::compaction::merge::total_len(merge.inputs()),
                ordered ==> all_ascending(inputs),
                lower == match start {
                    Some(s) => Some(s@),
                    None => None,
                },
                upper == match end {
                    Some(e) => Some(e@),
                    None => None,
                },
                forall|i: int|
                    0 <= i < keys@.len() ==> in_range((#[trigger] keys@[i])@, lower, upper),
                forall|i: int| 0 < i < keys@.len() ==> (#[trigger] keys@[i])@ != keys@[i - 1]@,
                forall|m: int|
                    0 <= m < merge.merged().len() && in_range(
                        (#[trigger] merge.merged()[m]).key,
                        lower,
                        upper,
                    ) ==> byte_views(keys@).contains(merge.merged()[m].key),
                keys@.len() > 0 ==> exists|m: int|
                    0 <= m < merge.merged().len() && (#[trigger] merge.merged()[m]).key
                        == keys@[keys@.len() - 1]@,
                ordered ==> keys_ascend(byte_views(keys@)),
            ensures
                merge.well_formed(),
                merge.inputs() == inputs,
                merge.exhausted(),
                forall|i: int|
                    0 <= i < keys@.len() ==> in_range((#[trigger] keys@[i])@, lower, upper),
                forall|i: int| 0 < i < keys@.len() ==> (#[trigger] keys@[i])@ != keys@[i - 1]@,
                forall|m: int|
                    0 <= m < merge.merged().len() && in_range(
                        (#[trigger] merge.merged()[m]).key,
                        lower,
                        upper,
                    ) ==> byte_views(keys@).contains(merge.merged()[m].key),
                ordered ==> keys_ascend(byte_views(keys@)),
            decreases total - merge.handed_out(),
        {
            let ghost before = merge.merged();
            let ghost keys_before = byte_views(keys@);
            proof {
                merge.lemma_steps_bounded();
            }
            let entry = match merge.next() {
                Some(e) => e,
                None => {
                    proof {
                        assert(merge.merged() == before);
                    }
                    break ;
                },
            };
            let ghost now = merge.merged();
            proof {
                assert(now == before.push(entry@));
                if ordered {
                    lemma_prefix_ascends(inputs, merge.handed_out());
                }
            }
            let after_start = match start {
                Some(s) => !key_less(entry.key.as_slice(), s),
                None => true,
            };
            let before_end = match end {
                Some(e) => key_less(entry.key.as_slice(), e),
                None => true,
            };
            let repeated = keys.len() > 0 && bytes_equal(
                keys[keys.len() - 1].as_slice(),
                entry.key.as_slice(),
            );
            let ghost added = entry.key@;
            let ghost last_before = if keys@.len() > 0 {
                choose|m: int|
                    0 <= m < before.len() && (#[trigger] before[m]).key == keys@[keys@.len() - 1]@
            } else {
                0
            };
            if after_start && before_end && !repeated {
                keys.push(entry.key);
                proof {
                    let views = byte_views(keys@);
                    assert(views =~= keys_before.push(added));
                    assert(views[views.len() - 1] == added);
                    assert(now[now.len() - 1].key == added);
                    assert forall|m: int|
                        0 <= m < now.len() && in_range((#[trigger] now[m]).key, lower, upper) implies views.contains(
                        now[m].key,
                    ) by {
                        if m < before.len() {
                            assert(now[m] == before[m]);
                            let at = choose|at: int|
                                0 <= at < keys_before.len() && keys_before[at] == before[m].key;
                            assert(views[at] == keys_before[at]);
                        }
                    }
                    if ordered {
                        assert forall|i: int, j: int| 0 <= i < j < views.len() implies key_lt(
                            #[trigger] views[i],
                            #[trigger] views[j],
                        ) by {
                            if j < keys_before.len() {
                                assert(views[i] == keys_before[i]);
                                assert(views[j] == keys_before[j]);
                            } else {
                                let tail = keys_before.len() - 1;
                                assert(now[last_before] == before[last_before]);
                                assert(crate::key_order::key_le(
                                    now[last_before].key,
                                    now[now.len() - 1].key,
                                ));
                                assert(keys_before[tail] == keys@[tail]@);
                                assert(key_lt(keys_before[tail], added));
                                if i < tail {
                                    assert(views[i] == keys_before[i]);
                                    crate::key_order::lemma_key_lt_transitive(
                                        keys_before[i],
                                        keys_before[tail],
                                        added,
                                    );
                                } else {
                                    assert(views[i] == keys_before[tail]);
                                }
                            }
                        }
                    }
                }
            } else {
                proof {
                    assert forall|m: int|
                        0 <= m < now.len() && in_range((#[trigger] now[m]).key, lower, upper) implies keys_before.contains(
                        now[m].key,
                    ) by {
                        if m < before.len() {
                            assert(now[m] == before[m]);
                        } else {
                            assert(repeated);
                            assert(keys_before[keys_before.len() - 1] == added);
                        }
                    }
                    if keys@.len() > 0 {
                        assert(now[last_before] == before[last_before]);
                    }
                }
            }
        }
        let ghost gathered = byte_views(keys@);
        let it = DBIterator::over(self, self.sequence(), keys);
        proof {
            assert(it.spec_keys() == gathered);
            assert forall|i: int| 0 <= i < it.spec_keys().len() implies in_range(
                #[trigger] it.spec_keys()[i],
                lower,
                upper,
            ) by {
                assert(it.spec_keys()[i] == keys@[i]@);
            }
            assert forall|i: int| 0 < i < it.spec_keys().len() implies #[trigger] it.spec_keys()[i]
                != it.spec_keys()[i - 1] by {
                assert(it.spec_keys()[i] == keys@[i]@);
                assert(it.spec_keys()[i - 1] == keys@[i - 1]@);
            }
            if ordered {
                merge.lemma_exhausted();
                let merged = merge_output(inputs);
                assert forall|key: Seq<u8>|
                    in_range(key, lower, upper) && (#[trigger] self.lookup(
                        key,
                        self.spec_sequence(),
                    ) matches Ok(found) && found.value() is Some) implies gathered.contains(key) by {
                    lemma_known_is_named(self, inputs, key, self.spec_sequence());
                    let i = choose|i: int| 0 <= i < inputs.len() && names_key(#[trigger] inputs[i], key);
                    let q = choose|q: int| 0 <= q < inputs[i].len() && (#[trigger] inputs[i][q]).key == key;
                    let m = lemma_merge_complete(inputs, i, q);
                    lemma_prefix_ascends(inputs, crate::compaction::merge::total_len(inputs));
                    assert(merge.merged() == merged);
                    assert(merge.merged()[m as int].key == key);
                }
            }
        }
        Ok(it)
    }

    /// An iterator over all keys that have a value now: a scan without
    /// bounds.
    pub fn iter(&self) -> (r: Result<DBIterator<'_>, Error>)
        requires
            self.well_formed(),
        ensures
            r is Ok <==> all_readable(self.tables()),
            r matches Ok(it) ==> {
                &&& it.well_formed()
                &&& it.database() == self
                &&& it.spec_sequence() == self.spec_sequence()
                &&& it.rests_from(0)
                &&& forall|i: int|
                    0 < i < it.spec_keys().len() ==> #[trigger] it.spec_keys()[i]
                        != it.spec_keys()[i - 1]
                &&& tables_written(self) ==> keys_ascend(it.spec_keys()) && keys_complete(
                    self,
                    it.spec_keys(),
                    self.spec_sequence(),
                    None,
                    None,
                )
            },
    {
        self.scan(None, None)
    }
}

} // verus!
