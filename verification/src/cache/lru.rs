//! A cache of blocks that drops the least recently used ones first.
//!
//! The cache holds its entries in the order of their last use, the least
//! recently used first. The lengths of the cached blocks never add up to
//! more than the capacity.

use vstd::prelude::*;
use crate::codec::copy_bytes;

verus! {

/// What identifies a cached block: the number of its file and its offset
/// in the file.
#[derive(Debug, Clone, Copy, PartialEq, Eq, Structural, Hash)]
pub struct CacheKey {
    /// Number of the table file.
    pub file_id: u64,
    /// Offset of the block in the file.
    pub offset: u64,
}

impl CacheKey {
    /// The key of the block at `offset` of file `file_id`.
    pub fn new(file_id: u64, offset: u64) -> (k: Self)
        ensures
            k == (CacheKey { file_id, offset }),
    {
        CacheKey { file_id, offset }
    }
}

/// Counters of what the cache was asked and did. A counter that has reached
/// the largest number stays there.
#[derive(Debug, Clone, Copy, PartialEq, Eq, Structural)]
pub struct CacheStats {
    /// Number of lookups.
    pub lookups: u64,
    /// Number of lookups that found their block.
    pub hits: u64,
    /// Number of lookups that did not.
    pub misses: u64,
    /// Number of blocks put into the cache.
    pub insertions: u64,
    /// Number of blocks dropped to make room.
    pub evictions: u64,
}

impl Default for CacheStats {
    fn default() -> (s: Self)
        ensures
            s == (CacheStats { lookups: 0, hits: 0, misses: 0, insertions: 0, evictions: 0 }),
    {
        CacheStats { lookups: 0, hits: 0, misses: 0, insertions: 0, evictions: 0 }
    }
}

impl CacheStats {
    /// Sets every counter to zero.
    pub fn reset(&mut self)
        ensures
            *final(self) == (CacheStats {
                lookups: 0,
                hits: 0,
                misses: 0,
                insertions: 0,
                evictions: 0,
            }),
    {
        self.lookups = 0;
        self.hits = 0;
        self.misses = 0;
        self.insertions = 0;
        self.evictions = 0;
    }
}

/// One more, but never more than the largest number.
pub open spec fn bump(n: u64) -> u64 {
    if n < u64::MAX {
        (n + 1) as u64
    } else {
        n
    }
}

/// `count` more, but never more than the largest number.
pub open spec fn bump_by(n: u64, count: nat) -> u64 {
    if n + count <= u64::MAX {
        (n + count) as u64
    } else {
        u64::MAX
    }
}

fn bumped(n: u64) -> (m: u64)
    ensures
        m == bump(n),
{
    if n < u64::MAX {
        n + 1
    } else {
        n
    }
}

/// A cached block as a mathematical value.
pub struct CachedBlock {
    pub key: CacheKey,
    pub value: Seq<u8>,
}

/// The lengths of the blocks, added up.
pub open spec fn total_size(entries: Seq<CachedBlock>) -> nat
    decreases entries.len(),
{
    if entries.len() == 0 {
        0
    } else {
        total_size(entries.drop_last()) + entries.last().value.len()
    }
}

/// The place of the block with the given key, if it is cached.
pub open spec fn position_of(entries: Seq<CachedBlock>, key: CacheKey) -> Option<int>
    decreases entries.len(),
{
    if entries.len() == 0 {
        None
    } else if position_of(entries.drop_last(), key) is Some {
        position_of(entries.drop_last(), key)
    } else if entries.last().key == key {
        Some(entries.len() - 1)
    } else {
        None
    }
}

/// No key is cached twice.
pub open spec fn distinct_keys(entries: Seq<CachedBlock>) -> bool {
    forall|i: int, j: int|
        0 <= i < j < entries.len() ==> (#[trigger] entries[i]).key != (#[trigger] entries[j]).key
}

/// How many of the least recently used blocks have to go until the rest
/// fits into `budget` bytes.
pub open spec fn evicted_count(entries: Seq<CachedBlock>, budget: int) -> nat
    decreases entries.len(),
{
    if entries.len() == 0 || total_size(entries) <= budget {
        0
    } else {
        1 + evicted_count(entries.skip(1), budget)
    }
}

/// The entries without the block of the given key.
pub open spec fn without(entries: Seq<CachedBlock>, key: CacheKey) -> Seq<CachedBlock> {
    match position_of(entries, key) {
        Some(i) => entries.remove(i),
        None => entries,
    }
}

/// The cache after a block has been put into it: the least recently used
/// blocks are dropped until the new block fits, a block with the same key
/// is replaced, and the new block is the most recently used one. A cache
/// without capacity, and a block larger than the capacity, change nothing.
pub open spec fn after_insert(
    entries: Seq<CachedBlock>,
    capacity: usize,
    key: CacheKey,
    value: Seq<u8>,
) -> Seq<CachedBlock> {
    if capacity == 0 || value.len() > capacity {
        entries
    } else {
        let kept = entries.skip(evicted_count(entries, capacity - value.len()) as int);
        without(kept, key).push(CachedBlock { key, value })
    }
}

/// The cache after a lookup: a block that was found becomes the most
/// recently used one.
pub open spec fn after_get(entries: Seq<CachedBlock>, key: CacheKey) -> Seq<CachedBlock> {
    match position_of(entries, key) {
        Some(i) => entries.remove(i).push(entries[i]),
        None => entries,
    }
}

/// The size of two lists of blocks is the sum of their sizes.
pub proof fn lemma_total_size_concat(a: Seq<CachedBlock>, b: Seq<CachedBlock>)
    ensures
        total_size(a + b) == total_size(a) + total_size(b),
    decreases b.len(),
{
    if b.len() == 0 {
        assert(a + b =~= a);
    } else {
        lemma_total_size_concat(a, b.drop_last());
        assert((a + b).drop_last() =~= a + b.drop_last());
        assert((a + b).last() == b.last());
    }
}

/// The size of one block is its length.
pub proof fn lemma_total_size_one(x: CachedBlock)
    ensures
        total_size(seq![x]) == x.value.len(),
{
    let one = seq![x];
    assert(one.drop_last() =~= Seq::<CachedBlock>::empty());
    assert(one.last() == x);
    assert(total_size(one.drop_last()) == 0);
    assert(total_size(one) == total_size(one.drop_last()) + one.last().value.len());
}

/// Taking a block out takes its length off the size.
pub proof fn lemma_total_size_remove(entries: Seq<CachedBlock>, i: int)
    requires
        0 <= i < entries.len(),
    ensures
        total_size(entries.remove(i)) == total_size(entries) - entries[i].value.len(),
{
    let front = entries.subrange(0, i);
    let back = entries.subrange(i + 1, entries.len() as int);
    assert(entries =~= front + seq![entries[i]] + back);
    assert(entries.remove(i) =~= front + back);
    lemma_total_size_concat(front, seq![entries[i]]);
    lemma_total_size_concat(front + seq![entries[i]], back);
    lemma_total_size_concat(front, back);
    lemma_total_size_one(entries[i]);
}

/// Where a key is found, there it is, and nowhere before.
pub proof fn lemma_position_of(entries: Seq<CachedBlock>, key: CacheKey)
    ensures
        match position_of(entries, key) {
            Some(i) => 0 <= i < entries.len() && entries[i].key == key && forall|j: int|
                0 <= j < i ==> (#[trigger] entries[j]).key != key,
            None => forall|j: int| 0 <= j < entries.len() ==> (#[trigger] entries[j]).key != key,
        },
    decreases entries.len(),
{
    if entries.len() > 0 {
        lemma_position_of(entries.drop_last(), key);
        let front = entries.drop_last();
        match position_of(front, key) {
            Some(i) => {
                assert(front[i] == entries[i]);
                assert forall|j: int| 0 <= j < i implies (#[trigger] entries[j]).key != key by {
                    assert(front[j] == entries[j]);
                }
            },
            None => {
                assert forall|j: int| 0 <= j < entries.len() - 1 implies (#[trigger] entries[j]).key
                    != key by {
                    assert(front[j] == entries[j]);
                }
            },
        }
    }
}

/// A key found at a place is at the place that `position_of` gives.
pub proof fn lemma_position_found(entries: Seq<CachedBlock>, key: CacheKey, i: int)
    requires
        0 <= i < entries.len(),
        entries[i].key == key,
        forall|j: int| 0 <= j < i ==> (#[trigger] entries[j]).key != key,
    ensures
        position_of(entries, key) == Some(i),
{
    lemma_position_of(entries, key);
}

/// A cache of blocks with a byte budget.
#[derive(Debug)]
pub struct BlockCache {
    capacity: usize,
    current_size: usize,
    keys: Vec<CacheKey>,
    values: Vec<Vec<u8>>,
    stats: CacheStats,
}

impl BlockCache {
    /// The cached blocks, the least recently used first.
    pub closed spec fn entries(&self) -> Seq<CachedBlock> {
        Seq::new(
            self.keys@.len(),
            |i: int| CachedBlock { key: self.keys@[i], value: self.values@[i]@ },
        )
    }

    /// The byte budget.
    pub closed spec fn spec_capacity(&self) -> usize {
        self.capacity
    }

    /// The counters.
    pub closed spec fn spec_stats(&self) -> CacheStats {
        self.stats
    }

    /// The cache keeps within its budget and holds no key twice.
    pub closed spec fn well_formed(&self) -> bool {
        &&& self.keys@.len() == self.values@.len()
        &&& self.current_size == total_size(self.entries())
        &&& self.current_size <= self.capacity
        &&& distinct_keys(self.entries())
        &&& self.capacity == 0 ==> self.keys@.len() == 0
    }

    /// What a well-formed cache promises.
    pub proof fn lemma_well_formed(&self)
        requires
            self.well_formed(),
        ensures
            total_size(self.entries()) <= self.spec_capacity(),
            distinct_keys(self.entries()),
    {
    }

    /// An empty cache with the given byte budget; a budget of 0 switches
    /// the cache off.
    pub fn new(capacity: usize) -> (c: Self)
        ensures
            c.well_formed(),
            c.entries() == Seq::<CachedBlock>::empty(),
            c.spec_capacity() == capacity,
            c.spec_stats() == (CacheStats {
                lookups: 0,
                hits: 0,
                misses: 0,
                insertions: 0,
                evictions: 0,
            }),
    {
        let c = BlockCache {
            capacity,
            current_size: 0,
            keys: Vec::new(),
            values: Vec::new(),
            stats: CacheStats::default(),
        };
        assert(c.entries() =~= Seq::<CachedBlock>::empty());
        c
    }

    /// The place of `key` in the cache.
    fn find(&self, key: &CacheKey) -> (at: Option<usize>)
        requires
            self.well_formed(),
        ensures
            match at {
                Some(i) => position_of(self.entries(), *key) == Some(i as int) && i
                    < self.keys@.len(),
                None => position_of(self.entries(), *key) is None,
            },
    {
        let mut i: usize = 0;
        while i < self.keys.len()
            invariant
                i <= self.keys@.len(),
                self.keys@.len() == self.values@.len(),
                forall|j: int| 0 <= j < i ==> (#[trigger] self.entries()[j]).key != *key,
            decreases self.keys@.len() - i,
        {
            if self.keys[i] == *key {
                proof {
                    lemma_position_found(self.entries(), *key, i as int);
                }
                return Some(i);
            }
            i += 1;
        }
        proof {
            lemma_position_of(self.entries(), *key);
        }
        None
    }

    /// Looks a block up. A block that is found becomes the most recently
    /// used one. Every lookup is counted, and counted as a hit or a miss
    /// unless the cache is switched off.
    pub fn get(&mut self, key: &CacheKey) -> (value: Option<Vec<u8>>)
        requires
            old(self).well_formed(),
        ensures
            final(self).well_formed(),
            final(self).spec_capacity() == old(self).spec_capacity(),
            final(self).entries() == after_get(old(self).entries(), *key),
            match position_of(old(self).entries(), *key) {
                Some(i) => value matches Some(v) && v@ == old(self).entries()[i].value,
                None => value is None,
            },
            final(self).spec_stats() == (CacheStats {
                lookups: bump(old(self).spec_stats().lookups),
                hits: if value is Some {
                    bump(old(self).spec_stats().hits)
                } else {
                    old(self).spec_stats().hits
                },
                misses: if value is None && old(self).spec_capacity() > 0 {
                    bump(old(self).spec_stats().misses)
                } else {
                    old(self).spec_stats().misses
                },
                ..old(self).spec_stats()
            }),
    {
        self.stats.lookups = bumped(self.stats.lookups);
        proof {
            lemma_position_of(self.entries(), *key);
        }
        if self.capacity == 0 {
            proof {
                assert(self.entries() =~= Seq::<CachedBlock>::empty());
            }
            return None;
        }
        match self.find(key) {
            Some(i) => {
                let ghost before = self.entries();
                let k = self.keys.remove(i);
                let v = self.values.remove(i);
                let result = copy_bytes(v.as_slice());
                self.keys.push(k);
                self.values.push(v);
                self.stats.hits = bumped(self.stats.hits);
                proof {
                    let after = self.entries();
                    assert(after =~= before.remove(i as int).push(before[i as int]));
                    lemma_total_size_remove(before, i as int);
                    assert(after.drop_last() =~= before.remove(i as int));
                    assert(distinct_keys(after)) by {
                        assert forall|a: int, b: int| 0 <= a < b < after.len() implies (
                        #[trigger] after[a]).key != (#[trigger] after[b]).key by {
                            let ia = if a < i { a } else { a + 1 };
                            let ib = if b == after.len() - 1 {
                                i as int
                            } else if b < i {
                                b
                            } else {
                                b + 1
                            };
                            assert(after[a] == before[ia]);
                            assert(after[b] == before[ib]);
                        }
                    }
                }
                Some(result)
            },
            None => {
                self.stats.misses = bumped(self.stats.misses);
                None
            },
        }
    }

    /// Puts a block into the cache. The least recently used blocks are
    /// dropped until the new block fits; a block under the same key is
    /// replaced; the new block is the most recently used one. Nothing
    /// happens when the cache is switched off or the block is larger than
    /// the capacity.
    pub fn insert(&mut self, key: CacheKey, value: Vec<u8>)
        requires
            old(self).well_formed(),
        ensures
            final(self).well_formed(),
            final(self).spec_capacity() == old(self).spec_capacity(),
            final(self).entries() == after_insert(
                old(self).entries(),
                old(self).spec_capacity(),
                key,
                value@,
            ),
            final(self).spec_stats() == if old(self).spec_capacity() == 0 || value@.len() > old(self).spec_capacity() {
                old(self).spec_stats()
            } else {
                CacheStats {
                    insertions: bump(old(self).spec_stats().insertions),
                    evictions: bump_by(
                        old(self).spec_stats().evictions,
                        evicted_count(
                            old(self).entries(),
                            old(self).spec_capacity() - value@.len(),
                        ),
                    ),
                    ..old(self).spec_stats()
                }
            },
    {
        if self.capacity == 0 {
            return ;
        }
        let value_size = value.len();
        if value_size > self.capacity {
            return ;
        }
        let budget = self.capacity - value_size;
        let ghost start = self.entries();
        let ghost mut n: nat = 0;
        proof {
            assert(start.skip(0) =~= start);
        }
        while self.current_size > budget
            invariant
                self.capacity == old(self).capacity,
                self.capacity > 0,
                budget == self.capacity - value_size,
                self.keys@.len() == self.values@.len(),
                self.current_size == total_size(self.entries()),
                self.current_size <= self.capacity,
                distinct_keys(self.entries()),
                n <= start.len(),
                self.entries() == start.skip(n as int),
                n + evicted_count(self.entries(), budget as int) == evicted_count(
                    start,
                    budget as int,
                ),
                self.stats == (CacheStats {
                    evictions: bump_by(old(self).stats.evictions, n),
                    ..old(self).stats
                }),
            decreases self.keys@.len(),
        {
            let ghost before = self.entries();
            let k = self.keys.remove(0);
            let v = self.values.remove(0);
            proof {
                let after = self.entries();
                assert(after =~= before.skip(1));
                assert(before.remove(0) =~= before.skip(1));
                lemma_total_size_remove(before, 0);
                assert(start.skip(n as int).skip(1) =~= start.skip(n as int + 1));
                assert forall|a: int, b: int| 0 <= a < b < after.len() implies (#[trigger] after[a]).key
                    != (#[trigger] after[b]).key by {
                    assert(after[a] == before[a + 1]);
                    assert(after[b] == before[b + 1]);
                }
                n = n + 1;
            }
            self.current_size = self.current_size - v.len();
            self.stats.evictions = bumped(self.stats.evictions);
        }
        let ghost kept = self.entries();
        match self.find(&key) {
            Some(i) => {
                let k = self.keys.remove(i);
                let v = self.values.remove(i);
                proof {
                    let after = self.entries();
                    assert(after =~= kept.remove(i as int));
                    lemma_total_size_remove(kept, i as int);
                    lemma_position_of(kept, key);
                    assert forall|a: int| 0 <= a < after.len() implies (#[trigger] after[a]).key
                        != key by {
                        let ia = if a < i { a } else { a + 1 };
                        assert(after[a] == kept[ia]);
                        if ia < i {
                            assert(kept[ia].key != kept[i as int].key);
                        } else {
                            assert(kept[i as int].key != kept[ia].key);
                        }
                    }
                    assert forall|a: int, b: int| 0 <= a < b < after.len() implies (
                    #[trigger] after[a]).key != (#[trigger] after[b]).key by {
                        let ia = if a < i { a } else { a + 1 };
                        let ib = if b < i { b } else { b + 1 };
                        assert(after[a] == kept[ia]);
                        assert(after[b] == kept[ib]);
                    }
                }
                self.current_size = self.current_size - v.len();
            },
            None => {
                proof {
                    lemma_position_of(kept, key);
                }
            },
        }
        let ghost cleaned = self.entries();
        proof {
            assert(cleaned == without(kept, key));
        }
        self.keys.push(key);
        self.values.push(value);
        self.current_size = self.current_size + value_size;
        self.stats.insertions = bumped(self.stats.insertions);
        proof {
            let after = self.entries();
            let block = CachedBlock { key, value: value@ };
            assert(after =~= cleaned.push(block));
            assert(after.drop_last() =~= cleaned);
            assert forall|a: int, b: int| 0 <= a < b < after.len() implies (#[trigger] after[a]).key
                != (#[trigger] after[b]).key by {
                assert(after[a] == cleaned[a]);
                if b < after.len() - 1 {
                    assert(after[b] == cleaned[b]);
                }
            }
        }
    }

    /// The counters.
    pub fn stats(&self) -> (s: CacheStats)
        ensures
            s == self.spec_stats(),
    {
        self.stats
    }

    /// Sets every counter to zero.
    pub fn reset_stats(&mut self)
        requires
            old(self).well_formed(),
        ensures
            final(self).well_formed(),
            final(self).entries() == old(self).entries(),
            final(self).spec_capacity() == old(self).spec_capacity(),
            final(self).spec_stats() == (CacheStats {
                lookups: 0,
                hits: 0,
                misses: 0,
                insertions: 0,
                evictions: 0,
            }),
    {
        self.stats.reset();
    }

    /// Drops every block. The counters stay.
    pub fn clear(&mut self)
        ensures
            final(self).well_formed(),
            final(self).entries() == Seq::<CachedBlock>::empty(),
            final(self).spec_capacity() == old(self).spec_capacity(),
            final(self).spec_stats() == old(self).spec_stats(),
    {
        self.keys.clear();
        self.values.clear();
        self.current_size = 0;
        assert(self.entries() =~= Seq::<CachedBlock>::empty());
    }

    /// The lengths of the cached blocks, added up.
    pub fn size(&self) -> (n: usize)
        requires
            self.well_formed(),
        ensures
            n == total_size(self.entries()),
    {
        self.current_size
    }

    /// The byte budget.
    pub fn capacity(&self) -> (n: usize)
        ensures
            n == self.spec_capacity(),
    {
        self.capacity
    }

    /// The number of cached blocks.
    pub fn len(&self) -> (n: usize)
        ensures
            n == self.entries().len(),
    {
        self.keys.len()
    }

    /// Whether no block is cached.
    pub fn is_empty(&self) -> (b: bool)
        ensures
            b == (self.entries().len() == 0),
    {
        self.keys.len() == 0
    }
}

} // verus!
