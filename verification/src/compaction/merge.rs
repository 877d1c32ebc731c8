//! Merging sorted tables into one sorted stream.
//!
//! The merge hands out, again and again, the smallest of the entries at the
//! heads of its sources. Of equal keys the one from the source with the
//! smaller index comes first: sources are given newest first.

use vstd::prelude::*;
use crate::codec::copy_bytes;
use crate::error::{Error, ErrorKind};
use crate::key_order::{key_less, key_lt};
use crate::sstable::block::KeyValue;
use crate::sstable::layout::begins;
use crate::sstable::reader::{entry_list, table_entries, SSTableReader, TableEntry};

verus! {

/// The entries of the sources, as mathematical values.
pub open spec fn source_views(sources: Seq<Vec<TableEntry>>) -> Seq<Seq<KeyValue>> {
    sources.map_values(|s: Vec<TableEntry>| entry_list(s@))
}

/// Whether source `i` has an entry left.
pub open spec fn has_head(sources: Seq<Seq<KeyValue>>, positions: Seq<int>, i: int) -> bool {
    0 <= i < sources.len() && i < positions.len() && 0 <= positions[i] < sources[i].len()
}

/// The next entry of source `i`.
pub open spec fn head(sources: Seq<Seq<KeyValue>>, positions: Seq<int>, i: int) -> KeyValue {
    sources[i][positions[i]]
}

/// The source, among the first `upto`, whose next entry has the smallest
/// key; of equal keys the source with the smaller index.
pub open spec fn min_source(sources: Seq<Seq<KeyValue>>, positions: Seq<int>, upto: int) -> Option<
    int,
>
    decreases upto,
{
    if upto <= 0 {
        None
    } else {
        let best = min_source(sources, positions, upto - 1);
        if !has_head(sources, positions, upto - 1) {
            best
        } else if best is None {
            Some(upto - 1)
        } else if key_lt(head(sources, positions, upto - 1).key, head(sources, positions, best->0).key) {
            Some(upto - 1)
        } else {
            best
        }
    }
}

/// Where the sources stand after `n` entries have been handed out.
pub open spec fn positions_after(sources: Seq<Seq<KeyValue>>, n: nat) -> Seq<int>
    decreases n,
{
    if n == 0 {
        Seq::new(sources.len(), |i: int| 0)
    } else {
        let p = positions_after(sources, (n - 1) as nat);
        match min_source(sources, p, sources.len() as int) {
            Some(i) => p.update(i, p[i] + 1),
            None => p,
        }
    }
}

/// The first `n` entries that the merge hands out; fewer when the sources
/// hold fewer.
pub open spec fn merged_prefix(sources: Seq<Seq<KeyValue>>, n: nat) -> Seq<KeyValue>
    decreases n,
{
    if n == 0 {
        Seq::<KeyValue>::empty()
    } else {
        let p = positions_after(sources, (n - 1) as nat);
        match min_source(sources, p, sources.len() as int) {
            Some(i) => merged_prefix(sources, (n - 1) as nat).push(head(sources, p, i)),
            None => merged_prefix(sources, (n - 1) as nat),
        }
    }
}

/// The number of entries of all sources.
pub open spec fn total_len(sources: Seq<Seq<KeyValue>>) -> nat
    decreases sources.len(),
{
    if sources.len() == 0 {
        0
    } else {
        total_len(sources.drop_last()) + sources.last().len()
    }
}

/// Everything that the merge hands out.
pub open spec fn merge_output(sources: Seq<Seq<KeyValue>>) -> Seq<KeyValue> {
    merged_prefix(sources, total_len(sources))
}

/// The number of entries that the first `upto` sources still hold.
pub open spec fn left_over(sources: Seq<Seq<KeyValue>>, positions: Seq<int>, upto: int) -> int
    decreases upto,
{
    if upto <= 0 {
        0
    } else {
        left_over(sources, positions, upto - 1) + sources[upto - 1].len() - positions[upto - 1]
    }
}

/// The source that the merge picks has an entry left.
pub proof fn lemma_min_source(sources: Seq<Seq<KeyValue>>, positions: Seq<int>, upto: int)
    requires
        0 <= upto <= sources.len(),
    ensures
        match min_source(sources, positions, upto) {
            Some(i) => 0 <= i < upto && has_head(sources, positions, i),
            None => forall|j: int| 0 <= j < upto ==> !has_head(sources, positions, j),
        },
    decreases upto,
{
    if upto > 0 {
        lemma_min_source(sources, positions, upto - 1);
    }
}

/// Moving one source on by one entry leaves one entry less.
pub proof fn lemma_left_over_step(
    sources: Seq<Seq<KeyValue>>,
    positions: Seq<int>,
    i: int,
    upto: int,
)
    requires
        0 <= upto <= sources.len(),
        positions.len() == sources.len(),
        0 <= i < sources.len(),
    ensures
        left_over(sources, positions.update(i, positions[i] + 1), upto) == left_over(
            sources,
            positions,
            upto,
        ) - if i < upto {
            1int
        } else {
            0int
        },
    decreases upto,
{
    if upto > 0 {
        lemma_left_over_step(sources, positions, i, upto - 1);
    }
}

/// Sources that stand within their entries hold no negative number of
/// entries.
pub proof fn lemma_left_over_bounds(sources: Seq<Seq<KeyValue>>, positions: Seq<int>, upto: int)
    requires
        0 <= upto <= sources.len(),
        positions.len() == sources.len(),
        forall|j: int| 0 <= j < sources.len() ==> 0 <= #[trigger] positions[j] <= sources[j].len(),
    ensures
        left_over(sources, positions, upto) >= 0,
    decreases upto,
{
    if upto > 0 {
        lemma_left_over_bounds(sources, positions, upto - 1);
    }
}

/// At the start the sources hold all their entries.
pub proof fn lemma_left_over_start(sources: Seq<Seq<KeyValue>>, upto: int)
    requires
        0 <= upto <= sources.len(),
    ensures
        left_over(sources, positions_after(sources, 0), upto) == total_len(
            sources.subrange(0, upto),
        ),
    decreases upto,
{
    if upto > 0 {
        lemma_left_over_start(sources, upto - 1);
        assert(sources.subrange(0, upto).drop_last() =~= sources.subrange(0, upto - 1));
    } else {
        assert(sources.subrange(0, 0) =~= Seq::<Seq<KeyValue>>::empty());
    }
}

/// Once the sources are used up the merge hands out nothing more.
pub proof fn lemma_merge_ends(sources: Seq<Seq<KeyValue>>, n: nat, m: nat)
    requires
        n <= m,
        min_source(sources, positions_after(sources, n), sources.len() as int) is None,
    ensures
        positions_after(sources, m) == positions_after(sources, n),
        merged_prefix(sources, m) == merged_prefix(sources, n),
    decreases m - n,
{
    if n < m {
        lemma_merge_ends(sources, n, (m - 1) as nat);
    }
}

/// What the merge has handed out is the beginning of what it hands out
/// later.
pub proof fn lemma_merged_prefix_grows(sources: Seq<Seq<KeyValue>>, n: nat, m: nat)
    requires
        n <= m,
    ensures
        begins(merged_prefix(sources, n), merged_prefix(sources, m)),
    decreases m - n,
{
    let part = merged_prefix(sources, n);
    if n == m {
        assert(part.subrange(0, part.len() as int) =~= part);
    } else {
        lemma_merged_prefix_grows(sources, n, (m - 1) as nat);
        let shorter = merged_prefix(sources, (m - 1) as nat);
        let longer = merged_prefix(sources, m);
        assert(longer.subrange(0, part.len() as int) =~= shorter.subrange(0, part.len() as int));
    }
}

/// A merge of sorted tables.
pub struct MergeIterator {
    sources: Vec<Vec<TableEntry>>,
    positions: Vec<usize>,
    steps: Ghost<nat>,
}

impl MergeIterator {
    /// The entries of the sources.
    pub closed spec fn inputs(&self) -> Seq<Seq<KeyValue>> {
        source_views(self.sources@)
    }

    /// The number of entries handed out.
    pub closed spec fn handed_out(&self) -> nat {
        self.steps@
    }

    /// Where the sources stand.
    pub closed spec fn spec_positions(&self) -> Seq<int> {
        Seq::new(self.positions@.len(), |i: int| self.positions@[i] as int)
    }

    /// The positions are those after the entries handed out.
    pub closed spec fn well_formed(&self) -> bool {
        &&& self.positions@.len() == self.sources@.len()
        &&& self.spec_positions() == positions_after(self.inputs(), self.steps@)
        &&& forall|j: int|
            0 <= j < self.sources@.len() ==> #[trigger] self.positions@[j] <= self.sources@[j]@.len()
        &&& left_over(self.inputs(), self.spec_positions(), self.sources@.len() as int)
            + self.steps@ == total_len(self.inputs())
    }

    /// The entries handed out so far.
    pub open spec fn merged(&self) -> Seq<KeyValue> {
        merged_prefix(self.inputs(), self.handed_out())
    }

    /// Whether the sources are used up.
    pub open spec fn exhausted(&self) -> bool {
        min_source(
            self.inputs(),
            positions_after(self.inputs(), self.handed_out()),
            self.inputs().len() as int,
        ) is None
    }

    /// What has been handed out when the sources are used up is everything
    /// that the merge hands out.
    pub proof fn lemma_exhausted(&self)
        requires
            self.well_formed(),
            self.exhausted(),
        ensures
            self.merged() == merge_output(self.inputs()),
    {
        assert forall|j: int| 0 <= j < self.inputs().len() implies 0
            <= #[trigger] self.spec_positions()[j] <= self.inputs()[j].len() by {
            assert(self.positions@[j] <= self.sources@[j]@.len());
        }
        lemma_left_over_bounds(
            self.inputs(),
            self.spec_positions(),
            self.sources@.len() as int,
        );
        lemma_merge_ends(self.inputs(), self.steps@, total_len(self.inputs()));
    }

    /// No more entries are handed out than the sources hold.
    pub proof fn lemma_steps_bounded(&self)
        requires
            self.well_formed(),
        ensures
            self.handed_out() <= total_len(self.inputs()),
            !self.exhausted() ==> self.handed_out() < total_len(self.inputs()),
    {
        assert forall|j: int| 0 <= j < self.inputs().len() implies 0
            <= #[trigger] self.spec_positions()[j] <= self.inputs()[j].len() by {
            assert(self.positions@[j] <= self.sources@[j]@.len());
        }
        let n = self.sources@.len() as int;
        lemma_left_over_bounds(self.inputs(), self.spec_positions(), n);
        if !self.exhausted() {
            lemma_min_source(self.inputs(), self.spec_positions(), n);
            let i = min_source(self.inputs(), self.spec_positions(), n)->0;
            let p = self.spec_positions();
            let q = p.update(i, p[i] + 1);
            lemma_left_over_step(self.inputs(), p, i, n);
            assert forall|j: int| 0 <= j < self.inputs().len() implies 0 <= #[trigger] q[j]
                <= self.inputs()[j].len() by {
                assert(0 <= p[j] <= self.inputs()[j].len());
            }
            lemma_left_over_bounds(self.inputs(), q, n);
        }
    }

    /// A merge of the given tables, the newest first. Fails when a table
    /// cannot be read.
    pub fn new(readers: &Vec<&SSTableReader>) -> (r: Result<Self, Error>)
        requires
            forall|i: int| 0 <= i < readers@.len() ==> (#[trigger] readers@[i]).well_formed(),
        ensures
            match r {
                Ok(m) => m.well_formed() && m.handed_out() == 0 && m.inputs().len()
                    == readers@.len() && forall|i: int|
                    0 <= i < readers@.len() ==> table_entries((#[trigger] readers@[i]).bytes())
                        == Ok::<Seq<KeyValue>, ErrorKind>(m.inputs()[i]),
                Err(e) => exists|i: int|
                    0 <= i < readers@.len() && table_entries((#[trigger] readers@[i]).bytes())
                        == Err::<Seq<KeyValue>, ErrorKind>(e.kind()),
            },
    {
        let mut sources: Vec<Vec<TableEntry>> = Vec::new();
        let mut i: usize = 0;
        while i < readers.len()
            invariant
                i <= readers@.len(),
                sources@.len() == i,
                forall|j: int| 0 <= j < readers@.len() ==> (#[trigger] readers@[j]).well_formed(),
                forall|j: int|
                    0 <= j < i ==> table_entries((#[trigger] readers@[j]).bytes()) == Ok::<
                        Seq<KeyValue>,
                        ErrorKind,
                    >(entry_list(sources@[j]@)),
            decreases readers@.len() - i,
        {
            match readers[i].entries() {
                Ok(list) => {
                    sources.push(list);
                },
                Err(e) => {
                    return Err(e);
                },
            }
            i += 1;
        }
        Ok(Self::from_sources(sources))
    }

    /// A merge of the given lists of entries, the newest first.
    pub fn from_sources(sources: Vec<Vec<TableEntry>>) -> (m: Self)
        ensures
            m.well_formed(),
            m.handed_out() == 0,
            m.inputs() == source_views(sources@),
    {
        let mut positions: Vec<usize> = Vec::new();
        let mut i: usize = 0;
        while i < sources.len()
            invariant
                i <= sources@.len(),
                positions@.len() == i,
                forall|j: int| 0 <= j < i ==> positions@[j] == 0,
            decreases sources@.len() - i,
        {
            positions.push(0);
            i += 1;
        }
        let m = MergeIterator { sources, positions, steps: Ghost(0) };
        proof {
            assert(m.spec_positions() =~= positions_after(m.inputs(), 0));
            lemma_left_over_start(m.inputs(), m.inputs().len() as int);
            assert(m.inputs().subrange(0, m.inputs().len() as int) =~= m.inputs());
        }
        m
    }

    /// The next entry of the merge: the smallest of the next entries of the
    /// sources, and of equal ones that of the source with the smaller index.
    /// `None` when the sources are used up.
    pub fn next(&mut self) -> (e: Option<TableEntry>)
        requires
            old(self).well_formed(),
        ensures
            final(self).well_formed(),
            final(self).inputs() == old(self).inputs(),
            match e {
                Some(entry) => !old(self).exhausted() && final(self).handed_out() == old(self).handed_out() + 1 && final(self).merged() == old(self).merged().push(entry@),
                None => old(self).exhausted() && final(self).handed_out() == old(self).handed_out(),
            },
    {
        let ghost views = self.inputs();
        let ghost p = self.spec_positions();
        let n = self.sources.len();
        let mut best: Option<usize> = None;
        let mut i: usize = 0;
        while i < n
            invariant
                i <= n,
                n == self.sources@.len(),
                self.positions@.len() == n,
                views == source_views(self.sources@),
                p == self.spec_positions(),
                forall|j: int|
                    0 <= j < n ==> #[trigger] self.positions@[j] <= self.sources@[j]@.len(),
                match best {
                    Some(b) => min_source(views, p, i as int) == Some(b as int) && b < i
                        && self.positions@[b as int] < self.sources@[b as int]@.len(),
                    None => min_source(views, p, i as int) is None,
                },
            decreases n - i,
        {
            proof {
                assert(views[i as int] == entry_list(self.sources@[i as int]@));
                assert(p[i as int] == self.positions@[i as int]);
            }
            if self.positions[i] < self.sources[i].len() {
                match best {
                    None => {
                        best = Some(i);
                    },
                    Some(b) => {
                        proof {
                            assert(views[b as int] == entry_list(self.sources@[b as int]@));
                            assert(p[b as int] == self.positions@[b as int]);
                            assert(head(views, p, i as int) == self.sources@[i as int]@[self.positions@[i as int] as int]@);
                            assert(head(views, p, b as int) == self.sources@[b as int]@[self.positions@[b as int] as int]@);
                        }
                        if key_less(
                            self.sources[i][self.positions[i]].key.as_slice(),
                            self.sources[b][self.positions[b]].key.as_slice(),
                        ) {
                            best = Some(i);
                        }
                    },
                }
            }
            i += 1;
        }
        match best {
            None => None,
            Some(b) => {
                let entry = &self.sources[b][self.positions[b]];
                let copy = TableEntry {
                    key: copy_bytes(entry.key.as_slice()),
                    value: copy_bytes(entry.value.as_slice()),
                };
                proof {
                    assert(views[b as int] == entry_list(self.sources@[b as int]@));
                    assert(p[b as int] == self.positions@[b as int]);
                    assert(head(views, p, b as int) == copy@);
                    lemma_left_over_step(views, p, b as int, n as int);
                }
                let source_len = self.sources[b].len();
                let next = self.positions[b] + 1;
                self.positions.set(b, next);
                self.steps = Ghost((self.steps@ + 1) as nat);
                proof {
                    assert(self.spec_positions() =~= p.update(b as int, p[b as int] + 1));
                }
                Some(copy)
            },
        }
    }
}

} // verus!
