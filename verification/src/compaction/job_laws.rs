//! What a compaction keeps: for every key the value of the newest table
//! that holds the key, unless that value is a tombstone that is dropped.

use vstd::prelude::*;
use crate::compaction::job::{compact, kept};
use crate::compaction::merge::{merge_output, total_len};
use crate::compaction::merge_laws::{all_ascending, ascending, comes_before, giver, lemma_merge_complete, lemma_merge_gives, lemma_merge_in_order, lemma_merge_state, place};
use crate::key_order::{key_le, key_lt, lemma_key_le_lt, lemma_key_lt_asymmetric, lemma_key_lt_irreflexive};
use crate::sstable::block::{lemma_sorted_push, sorted_entries, KeyValue};
use crate::sstable::reader::scan_for;
use crate::sstable::table_laws::{lemma_scan_finds, lemma_scan_misses};

verus! {

/// Every source is in key order.
pub open spec fn all_sorted(sources: Seq<Seq<KeyValue>>) -> bool {
    forall|i: int| 0 <= i < sources.len() ==> sorted_entries(#[trigger] sources[i])
}

/// The value that the first of the sources from `from` on that hold the
/// key holds for it; the sources stand newest first.
pub open spec fn first_stored(sources: Seq<Seq<KeyValue>>, key: Seq<u8>, from: int) -> Option<
    Seq<u8>,
>
    decreases sources.len() - from,
{
    if from < 0 || from >= sources.len() {
        None
    } else {
        match scan_for(sources[from], key, 0) {
            Some(v) => Some(v),
            None => first_stored(sources, key, from + 1),
        }
    }
}

/// What a compaction into `output_level` keeps of a stored value: from
/// level 1 on a tombstone is dropped.
pub open spec fn kept_value(stored: Option<Seq<u8>>, output_level: usize) -> Option<Seq<u8>> {
    match stored {
        Some(v) => if output_level > 0 && v.len() == 0 {
            None
        } else {
            Some(v)
        },
        None => None,
    }
}

/// Whether `e` is an entry of the merged stream that the compaction
/// keeps.
pub open spec fn is_kept(merged: Seq<KeyValue>, output_level: usize, e: KeyValue) -> bool {
    exists|i: int| 0 <= i < merged.len() && kept(merged, i, output_level) && #[trigger] merged[i] == e
}

/// Whether `e` is among the entries.
pub open spec fn holds(entries: Seq<KeyValue>, e: KeyValue) -> bool {
    exists|t: int| 0 <= t < entries.len() && #[trigger] entries[t] == e
}

/// What a scan has found is an entry.
pub proof fn lemma_scan_found(entries: Seq<KeyValue>, key: Seq<u8>, from: int) -> (q: int)
    requires
        0 <= from,
        scan_for(entries, key, from) is Some,
    ensures
        from <= q < entries.len(),
        entries[q].key == key,
        scan_for(entries, key, from) == Some(entries[q].value),
    decreases entries.len() - from,
{
    if entries[from].key == key {
        from
    } else {
        lemma_scan_found(entries, key, from + 1)
    }
}

/// Where the key is first held: the first source from `from` on that
/// holds it, and the place of the key there.
pub proof fn lemma_first_stored(sources: Seq<Seq<KeyValue>>, key: Seq<u8>, from: int) -> (at: Option<
    (int, int),
>)
    requires
        all_sorted(sources),
        0 <= from <= sources.len(),
    ensures
        match at {
            Some((j, q)) => from <= j < sources.len() && 0 <= q < sources[j].len()
                && sources[j][q].key == key && first_stored(sources, key, from) == Some(
                sources[j][q].value,
            ) && forall|j2: int, q2: int|
                from <= j2 < j && 0 <= q2 < sources[j2].len() ==> (#[trigger] sources[j2][q2]).key
                    != key,
            None => first_stored(sources, key, from) is None && forall|j2: int, q2: int|
                from <= j2 < sources.len() && 0 <= q2 < sources[j2].len() ==> (
                #[trigger] sources[j2][q2]).key != key,
        },
    decreases sources.len() - from,
{
    if from >= sources.len() {
        None
    } else if scan_for(sources[from], key, 0) is Some {
        let q = lemma_scan_found(sources[from], key, 0);
        Some((from, q))
    } else {
        assert(sorted_entries(sources[from]));
        assert forall|q2: int| 0 <= q2 < sources[from].len() implies (#[trigger] sources[from][q2]).key
            != key by {
            if sources[from][q2].key == key {
                lemma_scan_finds(sources[from], q2, 0);
            }
        }
        lemma_first_stored(sources, key, from + 1)
    }
}

/// What a compaction writes is in key order, and it is what the
/// compaction keeps of the merged stream.
pub proof fn lemma_compact(merged: Seq<KeyValue>, output_level: usize)
    requires
        ascending(merged),
        forall|i: int| 0 <= i < merged.len() ==> (#[trigger] merged[i]).key.len() > 0,
    ensures
        sorted_entries(compact(merged, output_level)),
        compact(merged, output_level).len() > 0 ==> key_le(
            compact(merged, output_level).last().key,
            merged.last().key,
        ),
        forall|t: int|
            0 <= t < compact(merged, output_level).len() ==> is_kept(
                merged,
                output_level,
                #[trigger] compact(merged, output_level)[t],
            ),
        forall|i: int|
            0 <= i < merged.len() && kept(merged, i, output_level) ==> holds(
                compact(merged, output_level),
                #[trigger] merged[i],
            ),
    decreases merged.len(),
{
    let out = compact(merged, output_level);
    if merged.len() > 0 {
        let front = merged.drop_last();
        let last = merged.len() - 1;
        let before = compact(front, output_level);
        assert(ascending(front)) by {
            assert forall|i: int, j: int| 0 <= i < j < front.len() implies key_le(
                (#[trigger] front[i]).key,
                (#[trigger] front[j]).key,
            ) by {
                assert(key_le(merged[i].key, merged[j].key));
            }
        }
        assert forall|i: int| 0 <= i < front.len() implies (#[trigger] front[i]).key.len() > 0 by {
            assert(merged[i].key.len() > 0);
        }
        lemma_compact(front, output_level);
        assert forall|i: int| 0 <= i < front.len() implies kept(front, i, output_level) == kept(
            merged,
            i,
            output_level,
        ) by {
            assert(front[i] == merged[i]);
            if i > 0 {
                assert(front[i - 1] == merged[i - 1]);
            }
        }
        if before.len() > 0 {
            assert(front.len() > 0) by {
                assert(is_kept(front, output_level, before[0]));
            }
            assert(front.last() == merged[last - 1]);
            assert(key_le(merged[last - 1].key, merged[last].key));
        }
        if kept(merged, last, output_level) {
            assert(merged[last].key.len() > 0);
            if before.len() > 0 {
                assert(merged[last].key != merged[last - 1].key);
                lemma_key_le_lt(before.last().key, merged[last - 1].key, merged[last].key);
            }
            lemma_sorted_push(before, merged.last());
            assert(out == before.push(merged.last()));
            assert forall|t: int| 0 <= t < out.len() implies is_kept(
                merged,
                output_level,
                #[trigger] out[t],
            ) by {
                if t < before.len() {
                    assert(is_kept(front, output_level, before[t]));
                    let i = choose|i: int|
                        0 <= i < front.len() && kept(front, i, output_level) && #[trigger] front[i]
                            == before[t];
                    assert(merged[i] == out[t]);
                } else {
                    assert(merged[last] == out[t]);
                }
            }
            assert forall|i: int| 0 <= i < merged.len() && kept(merged, i, output_level) implies holds(
                out,
                #[trigger] merged[i],
            ) by {
                if i < last {
                    assert(holds(before, front[i]));
                    let t = choose|t: int| 0 <= t < before.len() && #[trigger] before[t] == front[i];
                    assert(out[t] == merged[i]);
                } else {
                    assert(out[out.len() - 1] == merged[i]);
                }
            }
        } else {
            assert(out == before);
            if before.len() > 0 {
                if before.last().key != merged[last - 1].key {
                    crate::key_order::lemma_key_lt_le(
                        before.last().key,
                        merged[last - 1].key,
                        merged[last].key,
                    );
                }
            }
            assert forall|t: int| 0 <= t < out.len() implies is_kept(
                merged,
                output_level,
                #[trigger] out[t],
            ) by {
                assert(is_kept(front, output_level, before[t]));
                let i = choose|i: int|
                    0 <= i < front.len() && kept(front, i, output_level) && #[trigger] front[i]
                        == before[t];
                assert(merged[i] == out[t]);
            }
            assert forall|i: int| 0 <= i < merged.len() && kept(merged, i, output_level) implies holds(
                out,
                #[trigger] merged[i],
            ) by {
                assert(holds(before, front[i]));
                let t = choose|t: int| 0 <= t < before.len() && #[trigger] before[t] == front[i];
                assert(out[t] == merged[i]);
            }
        }
    }
}

/// Sources in key order are sources whose keys do not go down.
pub proof fn lemma_sorted_sources_ascend(sources: Seq<Seq<KeyValue>>)
    requires
        all_sorted(sources),
    ensures
        all_ascending(sources),
{
    assert forall|i: int| 0 <= i < sources.len() implies ascending(#[trigger] sources[i]) by {
        assert(sorted_entries(sources[i]));
    }
}

/// The merge of sources in key order: no key goes down, and no key is
/// empty.
pub proof fn lemma_merged_ascends(sources: Seq<Seq<KeyValue>>)
    requires
        all_sorted(sources),
    ensures
        merge_output(sources).len() == total_len(sources),
        ascending(merge_output(sources)),
        forall|i: int|
            0 <= i < merge_output(sources).len() ==> (#[trigger] merge_output(sources)[i]).key.len()
                > 0,
{
    lemma_sorted_sources_ascend(sources);
    let merged = merge_output(sources);
    lemma_merge_state(sources, total_len(sources));
    assert forall|i: int, j: int| 0 <= i < j < merged.len() implies key_le(
        (#[trigger] merged[i]).key,
        (#[trigger] merged[j]).key,
    ) by {
        lemma_merge_gives(sources, i as nat);
        lemma_merge_gives(sources, j as nat);
        lemma_merge_in_order(sources, i as nat, j as nat);
    }
    assert forall|i: int| 0 <= i < merged.len() implies (#[trigger] merged[i]).key.len() > 0 by {
        lemma_merge_gives(sources, i as nat);
        assert(sorted_entries(sources[giver(sources, i as nat)]));
    }
}

/// What a compaction writes holds for every key what the newest of its
/// tables that holds the key holds for it, but for a tombstone that is
/// dropped; and it is in key order.
pub proof fn lemma_compaction_answers(sources: Seq<Seq<KeyValue>>, key: Seq<u8>, output_level: usize)
    requires
        all_sorted(sources),
    ensures
        sorted_entries(compact(merge_output(sources), output_level)),
        scan_for(compact(merge_output(sources), output_level), key, 0) == kept_value(
            first_stored(sources, key, 0),
            output_level,
        ),
{
    let merged = merge_output(sources);
    let out = compact(merged, output_level);
    lemma_sorted_sources_ascend(sources);
    lemma_merged_ascends(sources);
    lemma_compact(merged, output_level);
    lemma_key_lt_irreflexive(key);
    match lemma_first_stored(sources, key, 0) {
        Some((j, q)) => {
            let m = lemma_merge_complete(sources, j, q) as int;
            assert(sorted_entries(sources[j]));
            if m > 0 && merged[m - 1].key == key {
                lemma_merge_gives(sources, (m - 1) as nat);
                lemma_merge_in_order(sources, (m - 1) as nat, m as nat);
                let g = giver(sources, (m - 1) as nat);
                let pl = place(sources, (m - 1) as nat);
                if g < j {
                    assert(sources[g][pl].key == key);
                } else {
                    assert(key_lt(sources[j][pl].key, sources[j][q].key));
                }
                assert(false);
            }
            let v = sources[j][q].value;
            if output_level > 0 && v.len() == 0 {
                assert forall|t: int| 0 <= t < out.len() implies (#[trigger] out[t]).key != key by {
                    assert(is_kept(merged, output_level, out[t]));
                    let i = choose|i: int|
                        0 <= i < merged.len() && kept(merged, i, output_level) && #[trigger] merged[i]
                            == out[t];
                    if merged[i].key == key {
                        lemma_merge_gives(sources, i as nat);
                        let g = giver(sources, i as nat);
                        let pl = place(sources, i as nat);
                        assert(sources[g][pl].key == key);
                        if i < m {
                            lemma_merge_in_order(sources, i as nat, m as nat);
                            if g == j {
                                assert(key_lt(sources[j][pl].key, sources[j][q].key));
                            }
                            assert(false);
                        } else if i > m {
                            if i - 1 > m {
                                assert(key_le(merged[m].key, merged[i - 1].key));
                            }
                            assert(key_le(merged[i - 1].key, merged[i].key));
                            if merged[i - 1].key != key {
                                lemma_key_lt_asymmetric(key, merged[i - 1].key);
                            }
                            assert(false);
                        } else {
                            assert(false);
                        }
                    }
                }
                lemma_scan_misses(out, key, 0);
            } else {
                assert(kept(merged, m, output_level));
                assert(holds(out, merged[m]));
                let t = choose|t: int| 0 <= t < out.len() && #[trigger] out[t] == merged[m];
                lemma_scan_finds(out, t, 0);
            }
        },
        None => {
            assert forall|t: int| 0 <= t < out.len() implies (#[trigger] out[t]).key != key by {
                assert(is_kept(merged, output_level, out[t]));
                let i = choose|i: int|
                    0 <= i < merged.len() && kept(merged, i, output_level) && #[trigger] merged[i]
                        == out[t];
                lemma_merge_gives(sources, i as nat);
                let g = giver(sources, i as nat);
                let pl = place(sources, i as nat);
                assert(sources[g][pl].key != key);
            }
            lemma_scan_misses(out, key, 0);
        },
    }
}

} // verus!
