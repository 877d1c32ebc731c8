//! What reading a block gives back of what was built into it.

use vstd::prelude::*;
use vstd::bytes::*;
use crate::codec::lemma_u32_round_trip;
use crate::key_order::{agree_below, common_prefix_len, lemma_common_prefix_len};
use crate::sstable::block::{block_entries, block_size, encodable, encode_block, encode_entries, encode_entry, encode_restarts, first_restart_of, parse_entries, parse_entry, restart_offset_of, restart_points, shared_len, starts_restart, KeyValue};

verus! {

/// The offset at which entry `i` starts.
pub open spec fn entry_offset(entries: Seq<KeyValue>, interval: usize, i: int) -> int {
    encode_entries(entries.subrange(0, i), interval).len() as int
}

/// The key that comes before entry `i`: none before the first.
pub open spec fn key_before(entries: Seq<KeyValue>, i: int) -> Seq<u8> {
    if i <= 0 {
        Seq::<u8>::empty()
    } else {
        entries[i - 1].key
    }
}

/// The restart points take four bytes each.
pub proof fn lemma_encode_restarts_len(points: Seq<u32>)
    ensures
        encode_restarts(points).len() == 4 * points.len(),
    decreases points.len(),
{
    if points.len() > 0 {
        lemma_encode_restarts_len(points.drop_last());
        lemma_u32_round_trip(points.last());
    }
}

/// The restart points begin with the four bytes of the first one.
pub proof fn lemma_encode_restarts_first(points: Seq<u32>)
    requires
        points.len() >= 1,
    ensures
        encode_restarts(points).len() >= 4,
        encode_restarts(points).subrange(0, 4) == spec_u32_to_le_bytes(points[0]),
    decreases points.len(),
{
    lemma_u32_round_trip(points.last());
    lemma_encode_restarts_len(points.drop_last());
    if points.len() == 1 {
        assert(encode_restarts(points.drop_last()) =~= Seq::<u8>::empty());
        assert(encode_restarts(points).subrange(0, 4) =~= spec_u32_to_le_bytes(points[0]));
    } else {
        lemma_encode_restarts_first(points.drop_last());
        assert(encode_restarts(points).subrange(0, 4) =~= encode_restarts(
            points.drop_last(),
        ).subrange(0, 4));
    }
}

/// There is always a restart point at offset 0, and never more restart
/// points than entries and one.
pub proof fn lemma_restart_points(entries: Seq<KeyValue>, interval: usize)
    ensures
        restart_points(entries, interval).len() >= 1,
        restart_points(entries, interval).len() <= entries.len() + 1,
        restart_points(entries, interval)[0] == 0,
    decreases entries.len(),
{
    if entries.len() > 0 {
        lemma_restart_points(entries.drop_last(), interval);
    }
}

/// The bytes of the first `i + 1` entries are the bytes of the first `i`
/// and the bytes of entry `i`.
pub proof fn lemma_entries_step(entries: Seq<KeyValue>, interval: usize, i: int)
    requires
        0 <= i < entries.len(),
    ensures
        encode_entries(entries.subrange(0, i + 1), interval) == encode_entries(
            entries.subrange(0, i),
            interval,
        ) + encode_entry(shared_len(entries, i, interval), entries[i]),
{
    let upto = entries.subrange(0, i + 1);
    assert(upto.drop_last() =~= entries.subrange(0, i));
    assert(upto.last() == entries[i]);
    if i > 0 {
        assert(upto[i - 1] == entries[i - 1]);
    }
    assert(shared_len(upto, i, interval) == shared_len(entries, i, interval));
}

/// The bytes of one entry: twelve bytes of lengths, then key suffix and
/// value.
pub proof fn lemma_entry_len(shared: nat, kv: KeyValue)
    requires
        shared <= kv.key.len(),
    ensures
        encode_entry(shared, kv).len() == 12 + (kv.key.len() - shared) + kv.value.len(),
{
    lemma_u32_round_trip(shared as u32);
    lemma_u32_round_trip((kv.key.len() - shared) as u32);
    lemma_u32_round_trip(kv.value.len() as u32);
}

/// An entry never shares more bytes than its key or the key before it has.
pub proof fn lemma_shared_len_bound(entries: Seq<KeyValue>, interval: usize, i: int)
    requires
        0 <= i < entries.len(),
    ensures
        shared_len(entries, i, interval) <= entries[i].key.len(),
        shared_len(entries, i, interval) <= key_before(entries, i).len(),
        agree_below(key_before(entries, i), entries[i].key, shared_len(entries, i, interval) as int),
{
    if i > 0 && !starts_restart(i as nat, interval) {
        lemma_common_prefix_len(entries[i - 1].key, entries[i].key);
    }
}

/// The offsets of the entries grow, and each lies inside the whole.
pub proof fn lemma_entry_offsets(entries: Seq<KeyValue>, interval: usize, i: int, j: int)
    requires
        0 <= i <= j <= entries.len(),
    ensures
        entry_offset(entries, interval, i) <= entry_offset(entries, interval, j),
        encode_entries(entries.subrange(0, j), interval).subrange(
            0,
            entry_offset(entries, interval, i),
        ) == encode_entries(entries.subrange(0, i), interval),
    decreases j - i,
{
    if i == j {
        let b = encode_entries(entries.subrange(0, j), interval);
        assert(b.subrange(0, b.len() as int) =~= b);
    } else {
        lemma_entry_offsets(entries, interval, i, j - 1);
        lemma_entries_step(entries, interval, j - 1);
        let shorter = encode_entries(entries.subrange(0, j - 1), interval);
        let longer = encode_entries(entries.subrange(0, j), interval);
        assert(longer.subrange(0, entry_offset(entries, interval, i)) =~= shorter.subrange(
            0,
            entry_offset(entries, interval, i),
        ));
    }
}

/// Reading from the offset of entry `i` on gives the entries from `i` on.
proof fn lemma_parse_from(entries: Seq<KeyValue>, interval: usize, tail: Seq<u8>, i: int)
    requires
        0 <= i <= entries.len(),
        encodable(entries, interval),
    ensures
        parse_entries(
            encode_entries(entries, interval) + tail,
            encode_entries(entries, interval).len() as int,
            entry_offset(entries, interval, i),
            key_before(entries, i),
        ) == entries.skip(i),
    decreases entries.len() - i,
{
    let body = encode_entries(entries, interval);
    let data = body + tail;
    let limit = body.len() as int;
    let pos = entry_offset(entries, interval, i);
    let prev = key_before(entries, i);
    assert(entries.subrange(0, entries.len() as int) =~= entries);
    if i == entries.len() {
        assert(pos == limit);
        assert(entries.skip(i) =~= Seq::<KeyValue>::empty());
    } else {
        let kv = entries[i];
        let s = shared_len(entries, i, interval);
        let ee = encode_entry(s, kv);
        lemma_shared_len_bound(entries, interval, i);
        lemma_entry_len(s, kv);
        lemma_entries_step(entries, interval, i);
        lemma_entry_offsets(entries, interval, i + 1, entries.len() as int);
        let next = entry_offset(entries, interval, i + 1);
        let unshared = kv.key.len() - s;
        let vlen = kv.value.len() as int;
        assert(next == pos + 12 + unshared + vlen);
        assert(next <= limit);
        assert(data.subrange(pos, next) =~= ee) by {
            let upto = encode_entries(entries.subrange(0, i + 1), interval);
            assert(body.subrange(0, next) == upto);
            assert(data.subrange(pos, next) =~= body.subrange(0, next).subrange(pos, next));
            assert(upto.subrange(pos, next) =~= ee);
        }
        lemma_u32_round_trip(s as u32);
        lemma_u32_round_trip(unshared as u32);
        lemma_u32_round_trip(vlen as u32);
        assert(data.subrange(pos, pos + 4) =~= spec_u32_to_le_bytes(s as u32)) by {
            assert(data.subrange(pos, pos + 4) =~= data.subrange(pos, next).subrange(0, 4));
            assert(ee.subrange(0, 4) =~= spec_u32_to_le_bytes(s as u32));
        }
        assert(data.subrange(pos + 4, pos + 8) =~= spec_u32_to_le_bytes(unshared as u32)) by {
            assert(data.subrange(pos + 4, pos + 8) =~= data.subrange(pos, next).subrange(4, 8));
            assert(ee.subrange(4, 8) =~= spec_u32_to_le_bytes(unshared as u32));
        }
        assert(data.subrange(pos + 8, pos + 12) =~= spec_u32_to_le_bytes(vlen as u32)) by {
            assert(data.subrange(pos + 8, pos + 12) =~= data.subrange(pos, next).subrange(8, 12));
            assert(ee.subrange(8, 12) =~= spec_u32_to_le_bytes(vlen as u32));
        }
        assert(data.subrange(pos + 12, pos + 12 + unshared) =~= kv.key.skip(s as int)) by {
            assert(data.subrange(pos + 12, pos + 12 + unshared) =~= data.subrange(
                pos,
                next,
            ).subrange(12, 12 + unshared));
            assert(ee.subrange(12, 12 + unshared) =~= kv.key.skip(s as int));
        }
        assert(data.subrange(pos + 12 + unshared, pos + 12 + unshared + vlen) =~= kv.value) by {
            assert(data.subrange(pos + 12 + unshared, pos + 12 + unshared + vlen)
                =~= data.subrange(pos, next).subrange(12 + unshared, 12 + unshared + vlen));
            assert(ee.subrange(12 + unshared, 12 + unshared + vlen) =~= kv.value);
        }
        assert(prev.subrange(0, s as int) + kv.key.skip(s as int) =~= kv.key);
        let parsed = parse_entry(data, limit, pos, prev);
        assert(parsed is Some);
        assert(parsed->0.key == kv.key);
        assert(parsed->0.value == kv.value);
        assert(parsed->0.next == next);
        lemma_parse_from(entries, interval, tail, i + 1);
        assert(key_before(entries, i + 1) == kv.key);
        assert(entries.skip(i) =~= seq![kv] + entries.skip(i + 1));
    }
}

/// Reading a block that was built from entries gives the entries back: the
/// entries end where the restart points begin, the first restart point is
/// at offset 0, and the entries read are the entries built in.
pub proof fn lemma_block_round_trip(entries: Seq<KeyValue>, interval: usize)
    requires
        encodable(entries, interval),
    ensures
        encode_block(entries, interval).len() == block_size(entries, interval),
        restart_offset_of(encode_block(entries, interval)) == Some(
            encode_entries(entries, interval).len() as int,
        ),
        first_restart_of(encode_block(entries, interval)) == 0,
        block_entries(encode_block(entries, interval)) == entries,
{
    let body = encode_entries(entries, interval);
    let points = restart_points(entries, interval);
    let restarts = encode_restarts(points);
    let count = spec_u32_to_le_bytes(points.len() as u32);
    let data = encode_block(entries, interval);
    lemma_restart_points(entries, interval);
    lemma_encode_restarts_len(points);
    lemma_encode_restarts_first(points);
    lemma_u32_round_trip(points.len() as u32);
    lemma_u32_round_trip(0u32);
    assert(data.len() == body.len() + 4 * points.len() + 4);
    assert(data.subrange(data.len() - 4, data.len() as int) =~= count);
    assert(restart_offset_of(data) == Some(body.len() as int));
    assert(data.subrange(body.len() as int, body.len() as int + 4) =~= restarts.subrange(0, 4));
    assert(first_restart_of(data) == 0);
    assert(data =~= body + (restarts + count));
    lemma_parse_from(entries, interval, restarts + count, 0);
    assert(entries.subrange(0, 0) =~= Seq::<KeyValue>::empty());
    assert(entries.skip(0) =~= entries);
}

} // verus!
