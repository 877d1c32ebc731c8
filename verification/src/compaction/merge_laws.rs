//! What a merge hands out: every entry of its sources, in the order of
//! the keys, and of equal keys the one of the source with the smaller
//! index first.

use vstd::prelude::*;
use crate::compaction::merge::{has_head, head, left_over, lemma_left_over_start, lemma_left_over_step, lemma_min_source, merge_output, merged_prefix, min_source, positions_after, total_len};
use crate::key_order::{key_le, key_lt, lemma_key_lt_irreflexive, lemma_key_lt_le, lemma_key_not_lt};
use crate::sstable::block::KeyValue;

verus! {

/// The keys of a source do not go down.
pub open spec fn ascending(source: Seq<KeyValue>) -> bool {
    forall|i: int, j: int|
        0 <= i < j < source.len() ==> key_le((#[trigger] source[i]).key, (#[trigger] source[j]).key)
}

/// The keys of no source go down.
pub open spec fn all_ascending(sources: Seq<Seq<KeyValue>>) -> bool {
    forall|i: int| 0 <= i < sources.len() ==> ascending(#[trigger] sources[i])
}

/// Whether the merge has an entry number `m` (counted from 0).
pub open spec fn has_giver(sources: Seq<Seq<KeyValue>>, m: nat) -> bool {
    min_source(sources, positions_after(sources, m), sources.len() as int) is Some
}

/// The source that gives entry `m` of the merge.
pub open spec fn giver(sources: Seq<Seq<KeyValue>>, m: nat) -> int {
    min_source(sources, positions_after(sources, m), sources.len() as int)->0
}

/// Where entry `m` of the merge stands in its source.
pub open spec fn place(sources: Seq<Seq<KeyValue>>, m: nat) -> int {
    positions_after(sources, m)[giver(sources, m)]
}

/// Entry `m` of the merge.
pub open spec fn given(sources: Seq<Seq<KeyValue>>, m: nat) -> KeyValue {
    sources[giver(sources, m)][place(sources, m)]
}

/// The order in which the merge hands out: by key, of equal keys by
/// source, and within a source by place.
pub open spec fn comes_before(ka: Seq<u8>, ia: int, qa: int, kb: Seq<u8>, ib: int, qb: int) -> bool {
    key_lt(ka, kb) || (ka == kb && (ia < ib || (ia == ib && qa < qb)))
}

/// Whether entry `q` of source `i` is among the first `n` entries of the
/// merge.
pub open spec fn handed_out(sources: Seq<Seq<KeyValue>>, n: nat, i: int, q: int) -> bool {
    exists|m: nat| m < n && giver(sources, m) == i && #[trigger] place(sources, m) == q
}

/// The source that the merge picks has the least next entry.
pub proof fn lemma_min_is_least(sources: Seq<Seq<KeyValue>>, positions: Seq<int>, upto: int)
    requires
        0 <= upto <= sources.len(),
    ensures
        match min_source(sources, positions, upto) {
            Some(b) => 0 <= b < upto && has_head(sources, positions, b) && forall|j: int|
                0 <= j < upto && j != b && #[trigger] has_head(sources, positions, j)
                    ==> comes_before(
                    head(sources, positions, b).key,
                    b,
                    0,
                    head(sources, positions, j).key,
                    j,
                    0,
                ),
            None => forall|j: int| 0 <= j < upto ==> !has_head(sources, positions, j),
        },
    decreases upto,
{
    if upto > 0 {
        lemma_min_is_least(sources, positions, upto - 1);
        let last = upto - 1;
        let best = min_source(sources, positions, upto - 1);
        if has_head(sources, positions, last) && best is Some {
            let b = best->0;
            let hb = head(sources, positions, b).key;
            let hl = head(sources, positions, last).key;
            if key_lt(hl, hb) {
                assert forall|j: int|
                    0 <= j < upto && j != last && #[trigger] has_head(
                        sources,
                        positions,
                        j,
                    ) implies comes_before(hl, last, 0, head(sources, positions, j).key, j, 0) by {
                    if j != b {
                        lemma_key_lt_le(hl, hb, head(sources, positions, j).key);
                    }
                }
            } else {
                lemma_key_not_lt(hl, hb);
            }
        }
    }
}

/// Sources that hold entries have a source with a next entry.
pub proof fn lemma_some_head(sources: Seq<Seq<KeyValue>>, positions: Seq<int>, upto: int)
    requires
        0 <= upto <= sources.len(),
        positions.len() == sources.len(),
        forall|j: int| 0 <= j < sources.len() ==> 0 <= #[trigger] positions[j] <= sources[j].len(),
        left_over(sources, positions, upto) > 0,
    ensures
        exists|j: int| 0 <= j < upto && has_head(sources, positions, j),
    decreases upto,
{
    if upto > 0 {
        if positions[upto - 1] < sources[upto - 1].len() {
            assert(has_head(sources, positions, upto - 1));
        } else {
            lemma_some_head(sources, positions, upto - 1);
        }
    }
}

/// Sources that hold no entries any more stand at their ends.
pub proof fn lemma_no_head(sources: Seq<Seq<KeyValue>>, positions: Seq<int>, upto: int)
    requires
        0 <= upto <= sources.len(),
        positions.len() == sources.len(),
        forall|j: int| 0 <= j < sources.len() ==> 0 <= #[trigger] positions[j] <= sources[j].len(),
        left_over(sources, positions, upto) <= 0,
    ensures
        forall|j: int| 0 <= j < upto ==> #[trigger] positions[j] == sources[j].len(),
    decreases upto,
{
    if upto > 0 {
        crate::compaction::merge::lemma_left_over_bounds(sources, positions, upto - 1);
        lemma_no_head(sources, positions, upto - 1);
    }
}

/// What holds after `n` entries have been handed out.
pub open spec fn merge_state(sources: Seq<Seq<KeyValue>>, n: nat) -> bool {
    let p = positions_after(sources, n);
    &&& p.len() == sources.len()
    &&& forall|j: int| 0 <= j < sources.len() ==> 0 <= #[trigger] p[j] <= sources[j].len()
    &&& left_over(sources, p, sources.len() as int) + n == total_len(sources)
    &&& merged_prefix(sources, n).len() == n
    &&& forall|m: nat|
        m < n ==> #[trigger] has_giver(sources, m) && merged_prefix(sources, n)[m as int] == given(
            sources,
            m,
        ) && 0 <= giver(sources, m) < sources.len() && 0 <= place(sources, m)
            < sources[giver(sources, m)].len()
    &&& forall|m: nat, j: int|
        #![trigger given(sources, m), has_head(sources, p, j)]
        m < n && has_head(sources, p, j) ==> comes_before(
            given(sources, m).key,
            giver(sources, m),
            place(sources, m),
            head(sources, p, j).key,
            j,
            p[j],
        )
    &&& forall|i: int, q: int|
        0 <= i < sources.len() && 0 <= q < p[i] ==> #[trigger] handed_out(sources, n, i, q)
}

/// The merge keeps its order and loses nothing.
pub proof fn lemma_merge_state(sources: Seq<Seq<KeyValue>>, n: nat)
    requires
        all_ascending(sources),
        n <= total_len(sources),
    ensures
        merge_state(sources, n),
    decreases n,
{
    let len = sources.len() as int;
    if n == 0 {
        lemma_left_over_start(sources, len);
        assert(sources.subrange(0, len) =~= sources);
    } else {
        let before = (n - 1) as nat;
        lemma_merge_state(sources, before);
        let held = positions_after(sources, before);
        lemma_some_head(sources, held, len);
        lemma_min_source(sources, held, len);
        lemma_min_is_least(sources, held, len);
        let i = giver(sources, before);
        let p = positions_after(sources, n);
        assert(p == held.update(i, held[i] + 1));
        lemma_left_over_step(sources, held, i, len);
        let taken = head(sources, held, i);
        assert(taken == given(sources, before));
        assert(merged_prefix(sources, n) == merged_prefix(sources, before).push(taken));
        assert forall|m: nat| m < n implies #[trigger] has_giver(sources, m) && merged_prefix(
            sources,
            n,
        )[m as int] == given(sources, m) && 0 <= giver(sources, m) < sources.len() && 0 <= place(
            sources,
            m,
        ) < sources[giver(sources, m)].len() by {
            if m < before {
                assert(has_giver(sources, m));
            }
        }
        assert forall|m: nat, j: int|
            #![trigger given(sources, m), has_head(sources, p, j)]
            m < n && has_head(sources, p, j) implies comes_before(
            given(sources, m).key,
            giver(sources, m),
            place(sources, m),
            head(sources, p, j).key,
            j,
            p[j],
        ) by {
            let next = head(sources, p, j).key;
            if j != i {
                assert(has_head(sources, held, j));
                assert(head(sources, held, j) == head(sources, p, j));
                if m < before {
                    assert(has_giver(sources, m));
                }
            } else {
                assert(ascending(sources[i]));
                assert(key_le(sources[i][held[i]].key, sources[i][held[i] + 1].key));
                if m < before {
                    assert(has_giver(sources, m));
                    assert(has_head(sources, held, i));
                    let earlier = given(sources, m).key;
                    if key_lt(earlier, taken.key) {
                        lemma_key_lt_le(earlier, taken.key, next);
                    }
                }
            }
        }
        assert forall|s: int, q: int| 0 <= s < sources.len() && 0 <= q < p[s] implies #[trigger] handed_out(
            sources,
            n,
            s,
            q,
        ) by {
            if s == i && q == held[i] {
                assert(giver(sources, before) == s && place(sources, before) == q);
            } else {
                assert(handed_out(sources, before, s, q));
                let m = choose|m: nat|
                    m < before && giver(sources, m) == s && #[trigger] place(sources, m) == q;
                assert(m < n && giver(sources, m) == s && place(sources, m) == q);
            }
        }
    }
}

/// The merge hands out as many entries as its sources hold, and each of
/// them is an entry of a source.
pub proof fn lemma_merge_gives(sources: Seq<Seq<KeyValue>>, m: nat)
    requires
        all_ascending(sources),
        m < total_len(sources),
    ensures
        merge_output(sources).len() == total_len(sources),
        merge_output(sources)[m as int] == given(sources, m),
        0 <= giver(sources, m) < sources.len(),
        0 <= place(sources, m) < sources[giver(sources, m)].len(),
{
    lemma_merge_state(sources, total_len(sources));
    assert(has_giver(sources, m));
}

/// The merge hands out in order: by key, of equal keys by source, and
/// within a source by place.
pub proof fn lemma_merge_in_order(sources: Seq<Seq<KeyValue>>, a: nat, b: nat)
    requires
        all_ascending(sources),
        a < b < total_len(sources),
    ensures
        comes_before(
            given(sources, a).key,
            giver(sources, a),
            place(sources, a),
            given(sources, b).key,
            giver(sources, b),
            place(sources, b),
        ),
{
    lemma_merge_state(sources, b);
    lemma_merge_state(sources, (b + 1) as nat);
    assert(has_giver(sources, b));
    assert(has_giver(sources, a));
    let p = positions_after(sources, b);
    lemma_min_source(sources, p, sources.len() as int);
    assert(has_head(sources, p, giver(sources, b)));
}

/// The merge loses nothing: every entry of a source is handed out.
pub proof fn lemma_merge_complete(sources: Seq<Seq<KeyValue>>, i: int, q: int) -> (m: nat)
    requires
        all_ascending(sources),
        0 <= i < sources.len(),
        0 <= q < sources[i].len(),
    ensures
        m < total_len(sources),
        giver(sources, m) == i,
        place(sources, m) == q,
        merge_output(sources)[m as int] == sources[i][q],
{
    let n = total_len(sources);
    lemma_merge_state(sources, n);
    let p = positions_after(sources, n);
    lemma_no_head(sources, p, sources.len() as int);
    assert(p[i] == sources[i].len());
    assert(handed_out(sources, n, i, q));
    let m = choose|m: nat| m < n && giver(sources, m) == i && #[trigger] place(sources, m) == q;
    assert(has_giver(sources, m));
    m
}

/// What the merge has handed out so far is the beginning of all that it
/// hands out, and its keys do not go down.
pub proof fn lemma_prefix_ascends(sources: Seq<Seq<KeyValue>>, n: nat)
    requires
        all_ascending(sources),
        n <= total_len(sources),
    ensures
        merged_prefix(sources, n).len() == n,
        ascending(merged_prefix(sources, n)),
        forall|m: int|
            0 <= m < n ==> #[trigger] merged_prefix(sources, n)[m] == merge_output(sources)[m],
{
    let part = merged_prefix(sources, n);
    lemma_merge_state(sources, n);
    lemma_merge_state(sources, total_len(sources));
    assert forall|m: int| 0 <= m < n implies #[trigger] part[m] == merge_output(sources)[m] by {
        assert(has_giver(sources, m as nat));
    }
    assert forall|i: int, j: int| 0 <= i < j < part.len() implies key_le(
        (#[trigger] part[i]).key,
        (#[trigger] part[j]).key,
    ) by {
        assert(has_giver(sources, i as nat));
        assert(has_giver(sources, j as nat));
        lemma_merge_in_order(sources, i as nat, j as nat);
    }
}

} // verus!
