//! Appending entries to a log.
//!
//! An entry is written as one record when it fits, and is otherwise cut into
//! fragments: a first record, any number of middle records and a last one.

use vstd::prelude::*;
use crate::codec::{append_bytes, copy_range};
use crate::error::Error;
use crate::wal::record::{encode_record, Record, RecordType, RecordView, HEADER_SIZE, MAX_RECORD_SIZE};

verus! {

/// The number of payload bytes of the fragment that starts at `offset`.
pub open spec fn chunk_len(total: int, offset: int) -> int {
    if total - offset <= MAX_RECORD_SIZE {
        total - offset
    } else {
        MAX_RECORD_SIZE as int
    }
}

/// The type of the fragment that starts at `offset` in an entry of `total`
/// bytes.
pub open spec fn chunk_type(total: int, offset: int) -> RecordType {
    if total <= MAX_RECORD_SIZE {
        RecordType::Full
    } else if offset == 0 {
        RecordType::First
    } else if offset + chunk_len(total, offset) >= total {
        RecordType::Last
    } else {
        RecordType::Middle
    }
}

/// The records that carry `data[offset..]`, one after the other.
pub open spec fn frame_from(data: Seq<u8>, offset: int) -> Seq<u8>
    decreases data.len() - offset,
{
    if offset < 0 || offset >= data.len() {
        Seq::<u8>::empty()
    } else {
        let n = chunk_len(data.len() as int, offset);
        encode_record(
            RecordView {
                record_type: chunk_type(data.len() as int, offset),
                data: data.subrange(offset, offset + n),
            },
        ) + frame_from(data, offset + n)
    }
}

/// The bytes that one logical entry is written as. An empty entry is not
/// written at all.
pub open spec fn frame_entry(data: Seq<u8>) -> Seq<u8> {
    frame_from(data, 0)
}

/// The bytes of a log that holds the given entries.
pub open spec fn frame_entries(entries: Seq<Seq<u8>>) -> Seq<u8>
    decreases entries.len(),
{
    if entries.len() == 0 {
        Seq::<u8>::empty()
    } else {
        frame_entries(entries.drop_last()) + frame_entry(entries.last())
    }
}

/// Writes entries to the image of a log file.
pub struct WALWriter {
    /// Everything appended to the log.
    buffer: Vec<u8>,
    /// How many of the bytes have been made durable.
    synced: usize,
}

impl WALWriter {
    /// The synced part is a prefix of the log.
    pub closed spec fn well_formed(&self) -> bool {
        self.synced <= self.buffer@.len()
    }

    /// The durable part of the log is a part of the log.
    pub proof fn lemma_synced_within(&self)
        requires
            self.well_formed(),
        ensures
            self.synced_len() <= self.bytes().len(),
    {
    }

    /// Every byte appended to the log, durable or not.
    pub closed spec fn bytes(&self) -> Seq<u8> {
        self.buffer@
    }

    /// The number of leading bytes that have been made durable.
    pub closed spec fn synced_len(&self) -> nat {
        self.synced as nat
    }

    /// A writer that appends behind the `existing` content of a log, all of
    /// which is durable.
    pub fn new(existing: Vec<u8>) -> (w: Self)
        ensures
            w.well_formed(),
            w.bytes() == existing@,
            w.synced_len() == existing@.len(),
    {
        let synced = existing.len();
        WALWriter { buffer: existing, synced }
    }

    /// Appends one entry, cut into records of at most `MAX_RECORD_SIZE`
    /// payload bytes. An empty entry writes nothing.
    pub fn append(&mut self, data: &[u8]) -> (r: Result<(), Error>)
        requires
            old(self).well_formed(),
        ensures
            r is Ok,
            final(self).well_formed(),
            final(self).bytes() == old(self).bytes() + frame_entry(data@),
            final(self).synced_len() == old(self).synced_len(),
    {
        let data_len = data.len();
        let mut offset: usize = 0;
        proof {
            assert(self.buffer@ + frame_from(data@, 0) =~= old(self).buffer@ + frame_from(data@, 0));
        }
        while offset < data_len
            invariant
                data_len == data@.len(),
                offset <= data_len,
                self.synced == old(self).synced,
                self.synced <= self.buffer@.len(),
                self.buffer@ + frame_from(data@, offset as int) == old(self).buffer@ + frame_from(
                    data@,
                    0,
                ),
            decreases data_len - offset,
        {
            let remaining = data_len - offset;
            let chunk_size = if remaining < MAX_RECORD_SIZE {
                remaining
            } else {
                MAX_RECORD_SIZE
            };
            let record_type = if data_len <= MAX_RECORD_SIZE {
                RecordType::Full
            } else if offset == 0 {
                RecordType::First
            } else if offset + chunk_size >= data_len {
                RecordType::Last
            } else {
                RecordType::Middle
            };
            let record = Record::new(record_type, copy_range(data, offset, offset + chunk_size));
            let encoded = record.encode();
            let ghost before = self.buffer@;
            append_bytes(&mut self.buffer, encoded.as_slice());
            proof {
                assert(chunk_size == chunk_len(data_len as int, offset as int));
                assert(record_type == chunk_type(data_len as int, offset as int));
                assert(frame_from(data@, offset as int) == encode_record(record@) + frame_from(
                    data@,
                    offset + chunk_size,
                ));
                assert(self.buffer@ + frame_from(data@, offset + chunk_size) =~= before
                    + frame_from(data@, offset as int));
            }
            offset += chunk_size;
        }
        proof {
            assert(frame_from(data@, offset as int) =~= Seq::<u8>::empty());
            assert(self.buffer@ =~= old(self).buffer@ + frame_from(data@, 0));
        }
        Ok(())
    }

    /// Makes everything appended so far durable.
    pub fn sync(&mut self) -> (r: Result<(), Error>)
        requires
            old(self).well_formed(),
        ensures
            r is Ok,
            final(self).well_formed(),
            final(self).bytes() == old(self).bytes(),
            final(self).synced_len() == old(self).bytes().len(),
    {
        self.synced = self.buffer.len();
        Ok(())
    }

    /// The size of the log in bytes.
    pub fn file_size(&self) -> (n: u64)
        ensures
            n == self.bytes().len(),
    {
        self.buffer.len() as u64
    }

    /// The content of the log.
    pub fn contents(&self) -> (b: &[u8])
        ensures
            b@ == self.bytes(),
    {
        self.buffer.as_slice()
    }

    /// The number of leading bytes that are durable.
    pub fn synced_size(&self) -> (n: usize)
        requires
            self.well_formed(),
        ensures
            n == self.synced_len(),
            n <= self.bytes().len(),
    {
        self.synced
    }

    /// Makes everything durable and gives the content of the log back.
    pub fn close(self) -> (r: Result<Vec<u8>, Error>)
        ensures
            r matches Ok(b) && b@ == self.bytes(),
    {
        Ok(self.buffer)
    }
}

/// The frame of an entry that fits into one record is that record.
pub proof fn lemma_frame_small_entry(data: Seq<u8>)
    requires
        0 < data.len() <= MAX_RECORD_SIZE,
    ensures
        frame_entry(data) == encode_record(RecordView { record_type: RecordType::Full, data }),
{
    let n = data.len() as int;
    assert(data.subrange(0, n) =~= data);
    assert(frame_from(data, n) =~= Seq::<u8>::empty());
    assert(frame_from(data, 0) =~= encode_record(
        RecordView { record_type: RecordType::Full, data },
    ));
}

/// An empty entry leaves no trace in the log.
pub proof fn lemma_frame_empty_entry()
    ensures
        frame_entry(Seq::<u8>::empty()) == Seq::<u8>::empty(),
{
}

} // verus!
