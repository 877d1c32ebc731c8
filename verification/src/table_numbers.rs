//! The file numbers of the tables of a database: no two tables have the
//! same number, and every number is below the next number to hand out.

use vstd::prelude::*;
use crate::db::{tables_without, TableView};
use crate::db_laws::lemma_tables_without;

verus! {

/// Whether a table of the levels has the file number.
pub open spec fn number_used(levels: Seq<Seq<TableView>>, number: u64) -> bool {
    exists|l: int, j: int|
        0 <= l < levels.len() && 0 <= j < levels[l].len() && (#[trigger] levels[l][j]).meta.file_number
            == number
}

/// Whether no two tables have the same file number.
pub open spec fn distinct_numbers(levels: Seq<Seq<TableView>>) -> bool {
    forall|a: int, b: int, c: int, d: int|
        0 <= a < levels.len() && 0 <= b < levels[a].len() && 0 <= c < levels.len() && 0 <= d
            < levels[c].len() && (a != c || b != d) ==> (#[trigger] levels[a][b]).meta.file_number
            != (#[trigger] levels[c][d]).meta.file_number
}

/// Whether every file number is below `bound`.
pub open spec fn numbers_below(levels: Seq<Seq<TableView>>, bound: u64) -> bool {
    forall|l: int, j: int|
        0 <= l < levels.len() && 0 <= j < levels[l].len() ==> (#[trigger] levels[l][j]).meta.file_number
            < bound
}

/// A table with a number that no table has keeps the numbers distinct.
pub proof fn lemma_push_keeps_numbers(
    before: Seq<Seq<TableView>>,
    after: Seq<Seq<TableView>>,
    level: int,
    t: TableView,
    bound: u64,
    later: u64,
)
    requires
        0 <= level < before.len(),
        after.len() == before.len(),
        after[level] == before[level].push(t),
        forall|l: int| 0 <= l < before.len() && l != level ==> after[l] == before[l],
        distinct_numbers(before),
        numbers_below(before, bound),
        !number_used(before, t.meta.file_number),
        bound <= later,
        t.meta.file_number < later,
    ensures
        distinct_numbers(after),
        numbers_below(after, later),
{
    let old_len = before[level].len();
    assert forall|l: int, j: int| 0 <= l < after.len() && 0 <= j < after[l].len() implies (
    #[trigger] after[l][j]).meta.file_number < later by {
        if l != level || j < old_len {
            assert(after[l][j] == before[l][j]);
        }
    }
    assert forall|a: int, b: int, c: int, d: int|
        0 <= a < after.len() && 0 <= b < after[a].len() && 0 <= c < after.len() && 0 <= d
            < after[c].len() && (a != c || b != d) implies (#[trigger] after[a][b]).meta.file_number
        != (#[trigger] after[c][d]).meta.file_number by {
        let first_new = a == level && b == old_len;
        let second_new = c == level && d == old_len;
        if !first_new {
            assert(after[a][b] == before[a][b]);
        }
        if !second_new {
            assert(after[c][d] == before[c][d]);
        }
    }
}

/// Two tables that are left of a level stand in the level in the same
/// order.
pub proof fn lemma_without_pair(tables: Seq<TableView>, number: u64, a: int, b: int) -> (at: (
    int,
    int,
))
    requires
        0 <= a < b < tables_without(tables, number).len(),
    ensures
        0 <= at.0 < at.1 < tables.len(),
        tables[at.0] == tables_without(tables, number)[a],
        tables[at.1] == tables_without(tables, number)[b],
    decreases tables.len(),
{
    let front = tables.drop_last();
    let part = tables_without(front, number);
    if tables.last().meta.file_number != number && b == part.len() {
        let j = lemma_tables_without(front, number, a);
        assert(front[j] == tables[j]);
        (j, tables.len() - 1)
    } else {
        let at = lemma_without_pair(front, number, a, b);
        assert(front[at.0] == tables[at.0]);
        assert(front[at.1] == tables[at.1]);
        at
    }
}

/// A level without the tables of a number keeps the numbers distinct.
pub proof fn lemma_without_keeps_numbers(
    before: Seq<Seq<TableView>>,
    after: Seq<Seq<TableView>>,
    level: int,
    number: u64,
    bound: u64,
)
    requires
        0 <= level < before.len(),
        after.len() == before.len(),
        after[level] == tables_without(before[level], number),
        forall|l: int| 0 <= l < before.len() && l != level ==> after[l] == before[l],
        distinct_numbers(before),
        numbers_below(before, bound),
    ensures
        distinct_numbers(after),
        numbers_below(after, bound),
{
    assert forall|l: int, j: int| 0 <= l < after.len() && 0 <= j < after[l].len() implies (
    #[trigger] after[l][j]).meta.file_number < bound by {
        if l == level {
            let at = lemma_tables_without(before[level], number, j);
            assert(before[level][at] == after[l][j]);
        } else {
            assert(after[l][j] == before[l][j]);
        }
    }
    assert forall|a: int, b: int, c: int, d: int|
        0 <= a < after.len() && 0 <= b < after[a].len() && 0 <= c < after.len() && 0 <= d
            < after[c].len() && (a != c || b != d) implies (#[trigger] after[a][b]).meta.file_number
        != (#[trigger] after[c][d]).meta.file_number by {
        if a == level && c == level {
            if b < d {
                let at = lemma_without_pair(before[level], number, b, d);
                assert(before[level][at.0].meta.file_number != before[level][at.1].meta.file_number);
            } else {
                let at = lemma_without_pair(before[level], number, d, b);
                assert(before[level][at.0].meta.file_number != before[level][at.1].meta.file_number);
            }
        } else if a == level {
            let at = lemma_tables_without(before[level], number, b);
            assert(after[c][d] == before[c][d]);
            assert(before[level][at].meta.file_number != before[c][d].meta.file_number);
        } else if c == level {
            let at = lemma_tables_without(before[level], number, d);
            assert(after[a][b] == before[a][b]);
            assert(before[a][b].meta.file_number != before[level][at].meta.file_number);
        } else {
            assert(after[a][b] == before[a][b]);
            assert(after[c][d] == before[c][d]);
        }
    }
}

} // verus!
