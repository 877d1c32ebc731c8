//! What recovery gives back of what was appended.

use vstd::prelude::*;
use vstd::bytes::*;
use crate::codec::lemma_u16_round_trip;
use crate::wal::reader::{announced_len, read_entry, read_entry_from, recover_from, ReadOutcome};
use crate::wal::record::{decode_record, encode_record, lemma_record_round_trip, RecordType, RecordView, HEADER_SIZE, MAX_RECORD_SIZE};
use crate::wal::writer::{chunk_len, chunk_type, frame_entries, frame_entry, frame_from};

verus! {

/// The frames of the entries from index `i` on, one after the other.
pub open spec fn frame_suffix(entries: Seq<Seq<u8>>, i: int) -> Seq<u8>
    decreases entries.len() - i,
{
    if i < 0 || i >= entries.len() {
        Seq::<u8>::empty()
    } else {
        frame_entry(entries[i]) + frame_suffix(entries, i + 1)
    }
}

/// Reading the records of an entry from its fragment at `offset` on, with
/// the fragments before it pending, gives the whole entry.
proof fn lemma_read_fragments(log: Seq<u8>, pos: int, data: Seq<u8>, offset: int)
    requires
        0 <= pos,
        0 <= offset < data.len(),
        offset > 0 ==> data.len() > MAX_RECORD_SIZE,
        offset > 0 ==> offset + chunk_len(data.len() as int, offset) <= data.len(),
        pos + frame_from(data, offset).len() <= log.len(),
        log.subrange(pos, pos + frame_from(data, offset).len()) == frame_from(data, offset),
    ensures
        read_entry_from(log, pos, data.subrange(0, offset), offset > 0) == (ReadOutcome::Entry {
            data,
            next: pos + frame_from(data, offset).len(),
        }),
    decreases data.len() - offset,
{
    let total_len = data.len() as int;
    let n = chunk_len(total_len, offset);
    let t = chunk_type(total_len, offset);
    let chunk = data.subrange(offset, offset + n);
    let rec = RecordView { record_type: t, data: chunk };
    let e = encode_record(rec);
    let rest = frame_from(data, offset + n);
    let frame = frame_from(data, offset);
    assert(frame == e + rest);
    lemma_record_round_trip(rec, Seq::<u8>::empty());
    lemma_u16_round_trip(n as u16);
    assert(e.len() == HEADER_SIZE + n);
    assert(e + Seq::<u8>::empty() =~= e);
    assert(log.subrange(pos, pos + HEADER_SIZE + n) =~= e) by {
        assert(log.subrange(pos, pos + frame.len()).subrange(0, HEADER_SIZE + n) =~= log.subrange(
            pos,
            pos + HEADER_SIZE + n,
        ));
        assert(frame.subrange(0, HEADER_SIZE + n) =~= e);
    }
    assert(log.subrange(pos + 4, pos + 6) =~= spec_u16_to_le_bytes(n as u16)) by {
        assert(log.subrange(pos + 4, pos + 6) =~= log.subrange(
            pos,
            pos + HEADER_SIZE + n,
        ).subrange(4, 6));
        assert(e.subrange(4, 6) =~= spec_u16_to_le_bytes(n as u16));
    }
    assert(announced_len(log, pos) == n);
    let pending = data.subrange(0, offset);
    if offset + n >= total_len {
        assert(pending + chunk =~= data);
        assert(rest =~= Seq::<u8>::empty());
        if offset == 0 {
            assert(chunk =~= data);
        }
    } else {
        assert(pending + chunk =~= data.subrange(0, offset + n));
        assert(log.subrange(pos + HEADER_SIZE + n, pos + HEADER_SIZE + n + rest.len()) =~= rest)
            by {
            assert(log.subrange(pos, pos + frame.len()).subrange(
                HEADER_SIZE + n,
                frame.len() as int,
            ) =~= log.subrange(pos + HEADER_SIZE + n, pos + frame.len()));
            assert(frame.subrange(HEADER_SIZE + n, frame.len() as int) =~= rest);
        }
        if offset == 0 {
            assert(chunk =~= data.subrange(0, n));
        }
        lemma_read_fragments(log, pos + HEADER_SIZE + n, data, offset + n);
    }
}

/// The frame of an entry that is not empty takes up at least a header.
pub proof fn lemma_frame_not_empty(data: Seq<u8>)
    requires
        data.len() > 0,
    ensures
        frame_entry(data).len() >= HEADER_SIZE,
{
    let n = chunk_len(data.len() as int, 0);
    let rec = RecordView {
        record_type: chunk_type(data.len() as int, 0),
        data: data.subrange(0, n),
    };
    lemma_record_round_trip(rec, Seq::<u8>::empty());
}

/// An entry that was appended is read back whole, wherever in the log it
/// stands and whatever follows it.
pub proof fn lemma_read_appended_entry(head: Seq<u8>, data: Seq<u8>, tail: Seq<u8>)
    requires
        data.len() > 0,
    ensures
        read_entry(head + frame_entry(data) + tail, head.len() as int) == (ReadOutcome::Entry {
            data,
            next: (head.len() + frame_entry(data).len()) as int,
        }),
{
    let log = head + frame_entry(data) + tail;
    let pos = head.len() as int;
    assert(log.subrange(pos, pos + frame_entry(data).len()) =~= frame_entry(data));
    assert(data.subrange(0, 0) =~= Seq::<u8>::empty());
    lemma_read_fragments(log, pos, data, 0);
}

/// Recovery of a log that holds the frames of entries behind `head` gives
/// the entries, in order.
proof fn lemma_recover_suffix(head: Seq<u8>, entries: Seq<Seq<u8>>, i: int)
    requires
        0 <= i <= entries.len(),
        forall|k: int| 0 <= k < entries.len() ==> (#[trigger] entries[k]).len() > 0,
    ensures
        recover_from(head + frame_suffix(entries, i), head.len() as int) == entries.skip(i),
    decreases entries.len() - i,
{
    let log = head + frame_suffix(entries, i);
    let pos = head.len() as int;
    if i == entries.len() {
        assert(frame_suffix(entries, i) =~= Seq::<u8>::empty());
        assert(log =~= head);
        assert(entries.skip(i) =~= Seq::<Seq<u8>>::empty());
    } else {
        let data = entries[i];
        let rest = frame_suffix(entries, i + 1);
        assert(log =~= head + frame_entry(data) + rest);
        lemma_read_appended_entry(head, data, rest);
        lemma_frame_not_empty(data);
        let head2 = head + frame_entry(data);
        lemma_recover_suffix(head2, entries, i + 1);
        assert(head2 + rest =~= log);
        assert(entries.skip(i) =~= seq![data] + entries.skip(i + 1));
    }
}

/// Writing the entries one after the other gives the frames one after the
/// other.
proof fn lemma_frame_entries_is_suffix(entries: Seq<Seq<u8>>, i: int)
    requires
        0 <= i <= entries.len(),
    ensures
        frame_entries(entries.subrange(0, i)) + frame_suffix(entries, i) == frame_entries(entries),
    decreases entries.len() - i,
{
    if i == entries.len() {
        assert(entries.subrange(0, i) =~= entries);
        assert(frame_suffix(entries, i) =~= Seq::<u8>::empty());
        assert(frame_entries(entries) + Seq::<u8>::empty() =~= frame_entries(entries));
    } else {
        lemma_frame_entries_is_suffix(entries, i + 1);
        let next = entries.subrange(0, i + 1);
        assert(next.drop_last() =~= entries.subrange(0, i));
        assert(next.last() == entries[i]);
        assert(frame_entries(entries.subrange(0, i)) + (frame_entry(entries[i]) + frame_suffix(
            entries,
            i + 1,
        )) =~= frame_entries(next) + frame_suffix(entries, i + 1));
    }
}

/// Recovery gives back every entry that was appended to an empty log, in the
/// order of the appends.
pub proof fn lemma_recover_appended(entries: Seq<Seq<u8>>)
    requires
        forall|k: int| 0 <= k < entries.len() ==> (#[trigger] entries[k]).len() > 0,
    ensures
        recover_from(frame_entries(entries), 0) == entries,
{
    lemma_frame_entries_is_suffix(entries, 0);
    assert(entries.subrange(0, 0) =~= Seq::<Seq<u8>>::empty());
    assert(frame_entries(entries.subrange(0, 0)) =~= Seq::<u8>::empty());
    assert(Seq::<u8>::empty() + frame_suffix(entries, 0) =~= frame_suffix(entries, 0));
    lemma_recover_suffix(Seq::<u8>::empty(), entries, 0);
    assert(entries.skip(0) =~= entries);
}

} // verus!

verus! {

/// Whether reading from `pos` on gives whole entries up to the very end of
/// the log.
pub open spec fn ends_cleanly(log: Seq<u8>, pos: int) -> bool
    decreases log.len() - pos,
{
    match read_entry(log, pos) {
        ReadOutcome::Entry { data, next } => pos < next <= log.len() && ends_cleanly(log, next),
        ReadOutcome::Eof => pos == log.len(),
        ReadOutcome::Corrupt => false,
    }
}

/// An entry that is read from a log is read in the same way when more has
/// been appended to the log.
pub proof fn lemma_read_entry_stable(
    log: Seq<u8>,
    more: Seq<u8>,
    pos: int,
    pending: Seq<u8>,
    expecting: bool,
)
    requires
        0 <= pos,
        read_entry_from(log, pos, pending, expecting) is Entry,
    ensures
        read_entry_from(log + more, pos, pending, expecting) == read_entry_from(
            log,
            pos,
            pending,
            expecting,
        ),
    decreases log.len() - pos,
{
    let longer = log + more;
    let total = HEADER_SIZE + announced_len(log, pos);
    assert(log.len() - pos >= HEADER_SIZE);
    assert(longer.subrange(pos + 4, pos + 6) =~= log.subrange(pos + 4, pos + 6));
    assert(log.len() - pos >= total);
    assert(longer.subrange(pos, pos + total) =~= log.subrange(pos, pos + total));
    match decode_record(log.subrange(pos, pos + total)) {
        None => {},
        Some(r) => match r.record_type {
            RecordType::First => {
                lemma_read_entry_stable(log, more, pos + total, r.data, true);
            },
            RecordType::Middle => {
                lemma_read_entry_stable(log, more, pos + total, pending + r.data, true);
            },
            _ => {},
        },
    }
}

/// Appending an entry to a log that ends cleanly adds the entry to what
/// recovery gives, and the log still ends cleanly.
pub proof fn lemma_recover_append(log: Seq<u8>, data: Seq<u8>, pos: int)
    requires
        0 <= pos <= log.len(),
        ends_cleanly(log, pos),
        data.len() > 0,
    ensures
        recover_from(log + frame_entry(data), pos) == recover_from(log, pos).push(data),
        ends_cleanly(log + frame_entry(data), pos),
    decreases log.len() - pos,
{
    let frame = frame_entry(data);
    let longer = log + frame;
    lemma_frame_not_empty(data);
    match read_entry(log, pos) {
        ReadOutcome::Entry { data: d, next } => {
            lemma_read_entry_stable(log, frame, pos, Seq::<u8>::empty(), false);
            lemma_recover_append(log, data, next);
            assert(recover_from(longer, pos) =~= seq![d] + recover_from(longer, next));
            assert(recover_from(log, pos) =~= seq![d] + recover_from(log, next));
            assert(recover_from(longer, pos) =~= recover_from(log, pos).push(data));
        },
        ReadOutcome::Eof => {
            assert(pos == log.len());
            lemma_read_appended_entry(log, data, Seq::<u8>::empty());
            assert(log + frame + Seq::<u8>::empty() =~= longer);
            let end = longer.len() as int;
            assert(read_entry(longer, end) is Eof);
            assert(ends_cleanly(longer, end));
            assert(recover_from(longer, end) =~= Seq::<Seq<u8>>::empty());
            assert(recover_from(log, pos) =~= Seq::<Seq<u8>>::empty());
            assert(recover_from(longer, pos) =~= seq![data] + recover_from(longer, end));
            assert(recover_from(longer, pos) =~= recover_from(log, pos).push(data));
        },
        ReadOutcome::Corrupt => {},
    }
}

/// An empty log ends cleanly and holds no entry.
pub proof fn lemma_empty_log()
    ensures
        ends_cleanly(Seq::<u8>::empty(), 0),
        recover_from(Seq::<u8>::empty(), 0) == Seq::<Seq<u8>>::empty(),
{
}

} // verus!
