//! Reading a database through a block cache: the tables are asked as
//! without a cache, and every data block that is read goes through the
//! cache.

use vstd::prelude::*;
use crate::cache::lru::{after_get, after_insert, evicted_count, lemma_position_of, position_of, without, CachedBlock};
use crate::db::{covers, frozen_lookup, level_lookup, levels_lookup, TableView, DB};
use crate::sstable::footer::BlockHandle;
use crate::sstable::reader::{block_key, read_block, table_find};
use crate::table_numbers::distinct_numbers;
use crate::error::ErrorKind;
use crate::lookup::LookupView;
use crate::memtable::lookup_in;
use crate::memtable::skiplist::EntryKey;
use crate::sstable::reader::{block_read_for, cache_after_read, stored_meaning, table_find_cached};

verus! {

/// What a read through a cache gives: what was found, and what the cache
/// holds afterwards.
pub struct CachedAnswer {
    pub found: Result<LookupView, ErrorKind>,
    pub cached: Seq<CachedBlock>,
}

/// What a table knows of a key, read through a cache.
pub open spec fn table_lookup_cached(
    t: TableView,
    key: Seq<u8>,
    cached: Seq<CachedBlock>,
    capacity: usize,
) -> CachedAnswer {
    CachedAnswer {
        found: match table_find_cached(t.file, t.meta.file_number, key, cached) {
            Ok(stored) => Ok(stored_meaning(stored)),
            Err(k) => Err(k),
        },
        cached: match block_read_for(t.file, key) {
            Some(h) => cache_after_read(t.file, t.meta.file_number, h, cached, capacity),
            None => cached,
        },
    }
}

/// What the tables of one level know of a key, read through a cache, the
/// newest first; the newest is the last of the list. From level 1 on only
/// tables whose key range reaches over the key are asked.
pub open spec fn level_lookup_cached(
    tables: Seq<TableView>,
    level: int,
    key: Seq<u8>,
    cached: Seq<CachedBlock>,
    capacity: usize,
) -> CachedAnswer
    decreases tables.len(),
{
    if tables.len() == 0 {
        CachedAnswer { found: Ok(LookupView::Missing), cached }
    } else if level >= 1 && !covers(tables.last().meta, key) {
        level_lookup_cached(tables.drop_last(), level, key, cached, capacity)
    } else {
        let answer = table_lookup_cached(tables.last(), key, cached, capacity);
        if answer.found == Ok::<LookupView, ErrorKind>(LookupView::Missing) {
            level_lookup_cached(tables.drop_last(), level, key, answer.cached, capacity)
        } else {
            answer
        }
    }
}

/// What the levels from `from` on know of a key, read through a cache,
/// the shallowest first.
pub open spec fn levels_lookup_cached(
    levels: Seq<Seq<TableView>>,
    from: int,
    key: Seq<u8>,
    cached: Seq<CachedBlock>,
    capacity: usize,
) -> CachedAnswer
    decreases levels.len() - from,
{
    if from < 0 || from >= levels.len() {
        CachedAnswer { found: Ok(LookupView::Missing), cached }
    } else {
        let answer = level_lookup_cached(levels[from], from, key, cached, capacity);
        if answer.found == Ok::<LookupView, ErrorKind>(LookupView::Missing) {
            levels_lookup_cached(levels, from + 1, key, answer.cached, capacity)
        } else {
            answer
        }
    }
}

/// What a database knows of a key at a snapshot, its tables read through
/// a cache: what its MemTables know, else what its tables know.
pub open spec fn database_lookup_cached(
    active: Map<EntryKey, Seq<u8>>,
    frozen: Seq<Map<EntryKey, Seq<u8>>>,
    levels: Seq<Seq<TableView>>,
    key: Seq<u8>,
    snapshot: u64,
    cached: Seq<CachedBlock>,
    capacity: usize,
) -> CachedAnswer {
    let memory = lookup_in(active, key, snapshot).or(frozen_lookup(frozen, key, snapshot));
    if memory is Missing {
        levels_lookup_cached(levels, 0, key, cached, capacity)
    } else {
        CachedAnswer { found: Ok(memory), cached }
    }
}

/// Whether the cache holds a block of the file with the number.
pub open spec fn holds_of(cached: Seq<CachedBlock>, number: u64) -> bool {
    exists|i: int| 0 <= i < cached.len() && (#[trigger] cached[i]).key.file_id == number
}

/// Whether no table has the file number.
pub open spec fn unused(tables: Seq<TableView>, number: u64) -> bool {
    forall|j: int| 0 <= j < tables.len() ==> (#[trigger] tables[j]).meta.file_number != number
}

/// No more blocks are dropped than there are.
pub proof fn lemma_evicted_bound(entries: Seq<CachedBlock>, budget: int)
    ensures
        evicted_count(entries, budget) <= entries.len(),
    decreases entries.len(),
{
    if !(entries.len() == 0 || crate::cache::lru::total_size(entries) <= budget) {
        lemma_evicted_bound(entries.skip(1), budget);
    }
}

/// A read of a block of one file puts no block of another file into the
/// cache.
pub proof fn lemma_read_keeps_others(
    file: Seq<u8>,
    number: u64,
    h: BlockHandle,
    cached: Seq<CachedBlock>,
    capacity: usize,
    other: u64,
)
    requires
        other != number,
        !holds_of(cached, other),
    ensures
        !holds_of(cache_after_read(file, number, h, cached, capacity), other),
{
    let key = block_key(number, h);
    let after = cache_after_read(file, number, h, cached, capacity);
    lemma_position_of(cached, key);
    assert forall|i: int| 0 <= i < after.len() implies (#[trigger] after[i]).key.file_id
        != other by {
        match position_of(cached, key) {
            Some(p) => {
                if i < p {
                    assert(after[i] == cached[i]);
                } else if i < after.len() - 1 {
                    assert(after[i] == cached[i + 1]);
                } else {
                    assert(after[i] == cached[p]);
                }
            },
            None => {
                if read_block(file, h) is Ok && !(capacity == 0 || read_block(file, h)->Ok_0.len()
                    > capacity) {
                    let raw = read_block(file, h)->Ok_0;
                    let dropped = evicted_count(cached, capacity - raw.len()) as int;
                    lemma_evicted_bound(cached, capacity - raw.len());
                    let kept = cached.skip(dropped);
                    lemma_position_of(kept, key);
                    let rest = without(kept, key);
                    if i < rest.len() {
                        match position_of(kept, key) {
                            Some(q) => {
                                if i < q {
                                    assert(rest[i] == cached[i + dropped]);
                                } else {
                                    assert(rest[i] == cached[i + 1 + dropped]);
                                }
                            },
                            None => {
                                assert(rest[i] == cached[i + dropped]);
                            },
                        }
                        assert(after[i] == rest[i]);
                    }
                } else {
                    assert(after[i] == cached[i]);
                }
            },
        }
    }
}

/// A cache that holds no block of a table changes nothing of what is
/// found in the table.
pub proof fn lemma_unheld_find(file: Seq<u8>, number: u64, key: Seq<u8>, cached: Seq<CachedBlock>)
    requires
        !holds_of(cached, number),
    ensures
        table_find_cached(file, number, key, cached) == table_find(file, key),
{
    assert forall|h: BlockHandle| position_of(cached, #[trigger] block_key(number, h)) is None by {
        lemma_position_of(cached, block_key(number, h));
    }
}

/// A cache that holds no block of the tables of a level changes nothing
/// of what the level knows, and the read puts blocks of these tables into
/// the cache only.
pub proof fn lemma_level_unheld(
    tables: Seq<TableView>,
    level: int,
    key: Seq<u8>,
    cached: Seq<CachedBlock>,
    capacity: usize,
)
    requires
        forall|j: int| 0 <= j < tables.len() ==> !holds_of(cached, (#[trigger] tables[j]).meta.file_number),
        forall|i: int, j: int|
            0 <= i < j < tables.len() ==> (#[trigger] tables[i]).meta.file_number != (
            #[trigger] tables[j]).meta.file_number,
    ensures
        level_lookup_cached(tables, level, key, cached, capacity).found == level_lookup(
            tables,
            level,
            key,
        ),
        forall|m: u64|
            !holds_of(cached, m) && unused(tables, m) ==> !#[trigger] holds_of(
                level_lookup_cached(tables, level, key, cached, capacity).cached,
                m,
            ),
    decreases tables.len(),
{
    if tables.len() > 0 {
        let front = tables.drop_last();
        let t = tables.last();
        let number = t.meta.file_number;
        assert forall|i: int, j: int| 0 <= i < j < front.len() implies (#[trigger] front[i]).meta.file_number
            != (#[trigger] front[j]).meta.file_number by {
            assert(front[i] == tables[i] && front[j] == tables[j]);
        }
        if level >= 1 && !covers(t.meta, key) {
            assert forall|j: int| 0 <= j < front.len() implies !holds_of(
                cached,
                (#[trigger] front[j]).meta.file_number,
            ) by {
                assert(front[j] == tables[j]);
            }
            lemma_level_unheld(front, level, key, cached, capacity);
            assert forall|m: u64| !holds_of(cached, m) && unused(tables, m) implies !#[trigger] holds_of(
                level_lookup_cached(tables, level, key, cached, capacity).cached,
                m,
            ) by {
                assert forall|j: int| 0 <= j < front.len() implies (#[trigger] front[j]).meta.file_number
                    != m by {
                    assert(front[j] == tables[j]);
                }
            }
        } else {
            assert(!holds_of(cached, tables[tables.len() - 1].meta.file_number));
            lemma_unheld_find(t.file, number, key, cached);
            let answer = table_lookup_cached(t, key, cached, capacity);
            assert forall|m: u64| m != number && !holds_of(cached, m) implies !holds_of(
                answer.cached,
                m,
            ) by {
                if block_read_for(t.file, key) is Some {
                    lemma_read_keeps_others(
                        t.file,
                        number,
                        block_read_for(t.file, key)->0,
                        cached,
                        capacity,
                        m,
                    );
                }
            }
            assert forall|j: int| 0 <= j < front.len() implies !holds_of(
                answer.cached,
                (#[trigger] front[j]).meta.file_number,
            ) by {
                assert(front[j] == tables[j]);
                assert(tables[j].meta.file_number != tables[tables.len() - 1].meta.file_number);
                assert(!holds_of(cached, tables[j].meta.file_number));
            }
            lemma_level_unheld(front, level, key, answer.cached, capacity);
            assert forall|m: u64| !holds_of(cached, m) && unused(tables, m) implies !#[trigger] holds_of(
                level_lookup_cached(tables, level, key, cached, capacity).cached,
                m,
            ) by {
                assert(tables[tables.len() - 1].meta.file_number != m);
                assert forall|j: int| 0 <= j < front.len() implies (#[trigger] front[j]).meta.file_number
                    != m by {
                    assert(front[j] == tables[j]);
                }
            }
        }
    }
}

/// A cache that holds no block of the tables of the levels from `from` on
/// changes nothing of what these levels know.
pub proof fn lemma_levels_unheld(
    levels: Seq<Seq<TableView>>,
    from: int,
    key: Seq<u8>,
    cached: Seq<CachedBlock>,
    capacity: usize,
)
    requires
        0 <= from,
        distinct_numbers(levels),
        forall|l: int, j: int|
            from <= l < levels.len() && 0 <= j < levels[l].len() ==> !holds_of(
                cached,
                (#[trigger] levels[l][j]).meta.file_number,
            ),
    ensures
        levels_lookup_cached(levels, from, key, cached, capacity).found == levels_lookup(
            levels,
            from,
            key,
        ),
    decreases levels.len() - from,
{
    if from < levels.len() {
        let tables = levels[from];
        assert forall|i: int, j: int| 0 <= i < j < tables.len() implies (#[trigger] tables[i]).meta.file_number
            != (#[trigger] tables[j]).meta.file_number by {
            assert(levels[from][i].meta.file_number != levels[from][j].meta.file_number);
        }
        lemma_level_unheld(tables, from, key, cached, capacity);
        let answer = level_lookup_cached(tables, from, key, cached, capacity);
        assert forall|l: int, j: int|
            from + 1 <= l < levels.len() && 0 <= j < levels[l].len() implies !holds_of(
            answer.cached,
            (#[trigger] levels[l][j]).meta.file_number,
        ) by {
            let m = levels[l][j].meta.file_number;
            assert forall|i: int| 0 <= i < tables.len() implies (#[trigger] tables[i]).meta.file_number
                != m by {
                assert(levels[from][i].meta.file_number != levels[l][j].meta.file_number);
            }
            assert(!holds_of(cached, m));
            assert(unused(tables, m));
        }
        lemma_levels_unheld(levels, from + 1, key, answer.cached, capacity);
    }
}

/// A read through a cache that holds no block of the tables of the
/// database, as a new cache does, finds what a read without a cache
/// finds.
pub proof fn lemma_cached_lookup(
    db: &DB,
    key: Seq<u8>,
    snapshot: u64,
    cached: Seq<CachedBlock>,
    capacity: usize,
)
    requires
        db.well_formed(),
        forall|l: int, j: int|
            0 <= l < db.tables().len() && 0 <= j < db.tables()[l].len() ==> !holds_of(
                cached,
                (#[trigger] db.tables()[l][j]).meta.file_number,
            ),
    ensures
        db.lookup_cached(key, snapshot, cached, capacity).found == db.lookup(key, snapshot),
{
    db.lemma_stored();
    lemma_levels_unheld(db.tables(), 0, key, cached, capacity);
}

} // verus!
