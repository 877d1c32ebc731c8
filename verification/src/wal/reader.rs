//! Reading the entries of a log back.

use vstd::prelude::*;
use vstd::bytes::*;
use crate::codec::{append_bytes, byte_views, get_u16_le};
use crate::error::Error;
use crate::wal::record::{decode_record, Record, RecordType, RecordView, HEADER_SIZE};

verus! {

/// What reading at some place of a log gives.
pub enum ReadOutcome {
    /// A whole entry, and the place behind its last record.
    Entry { data: Seq<u8>, next: int },
    /// The log ends here.
    Eof,
    /// The record at this place is damaged, or its type does not fit the
    /// records before it.
    Corrupt,
}

/// The payload length that the header at `pos` announces.
pub open spec fn announced_len(log: Seq<u8>, pos: int) -> int {
    spec_u16_from_le_bytes(log.subrange(pos + 4, pos + 6)) as int
}

/// Reads records from `pos` on until an entry is complete. `pending` holds
/// the fragments read so far and `expecting` says whether a first fragment
/// has been seen.
pub open spec fn read_entry_from(log: Seq<u8>, pos: int, pending: Seq<u8>, expecting: bool)
    -> ReadOutcome
    decreases log.len() - pos,
{
    if pos < 0 || log.len() - pos < HEADER_SIZE {
        if expecting {
            ReadOutcome::Corrupt
        } else {
            ReadOutcome::Eof
        }
    } else {
        let total = HEADER_SIZE + announced_len(log, pos);
        if log.len() - pos < total {
            ReadOutcome::Corrupt
        } else {
            match decode_record(log.subrange(pos, pos + total)) {
                None => ReadOutcome::Corrupt,
                Some(r) => match r.record_type {
                    RecordType::Full => if expecting {
                        ReadOutcome::Corrupt
                    } else {
                        ReadOutcome::Entry { data: r.data, next: pos + total }
                    },
                    RecordType::First => if expecting {
                        ReadOutcome::Corrupt
                    } else {
                        read_entry_from(log, pos + total, r.data, true)
                    },
                    RecordType::Middle => if !expecting {
                        ReadOutcome::Corrupt
                    } else {
                        read_entry_from(log, pos + total, pending + r.data, true)
                    },
                    RecordType::Last => if !expecting {
                        ReadOutcome::Corrupt
                    } else {
                        ReadOutcome::Entry { data: pending + r.data, next: pos + total }
                    },
                },
            }
        }
    }
}

/// The entry that starts at `pos`.
pub open spec fn read_entry(log: Seq<u8>, pos: int) -> ReadOutcome {
    read_entry_from(log, pos, Seq::<u8>::empty(), false)
}

/// Every entry from `pos` up to the end of the log or the first damaged
/// record.
pub open spec fn recover_from(log: Seq<u8>, pos: int) -> Seq<Seq<u8>>
    decreases log.len() - pos,
{
    match read_entry(log, pos) {
        ReadOutcome::Entry { data, next } => if pos < next <= log.len() {
            seq![data] + recover_from(log, next)
        } else {
            Seq::<Seq<u8>>::empty()
        },
        _ => Seq::<Seq<u8>>::empty(),
    }
}

/// An entry that is read ends behind the place where reading began, and
/// inside the log.
pub proof fn lemma_read_entry_advances(log: Seq<u8>, pos: int, pending: Seq<u8>, expecting: bool)
    requires
        0 <= pos,
    ensures
        read_entry_from(log, pos, pending, expecting) matches ReadOutcome::Entry { next, .. }
            ==> pos < next <= log.len(),
    decreases log.len() - pos,
{
    if log.len() - pos < HEADER_SIZE {
    } else {
        let total = HEADER_SIZE + announced_len(log, pos);
        if log.len() - pos < total {
        } else {
            match decode_record(log.subrange(pos, pos + total)) {
                None => {},
                Some(r) => match r.record_type {
                    RecordType::First => {
                        if !expecting {
                            lemma_read_entry_advances(log, pos + total, r.data, true);
                        }
                    },
                    RecordType::Middle => {
                        if expecting {
                            lemma_read_entry_advances(log, pos + total, pending + r.data, true);
                        }
                    },
                    _ => {},
                },
            }
        }
    }
}

/// Reads entries back from the image of a log file.
pub struct WALReader {
    /// The content of the log.
    data: Vec<u8>,
    /// The place of the next record.
    position: usize,
}

impl WALReader {
    /// The position lies inside the log.
    pub closed spec fn well_formed(&self) -> bool {
        self.position <= self.data@.len()
    }

    /// The content of the log.
    pub closed spec fn log(&self) -> Seq<u8> {
        self.data@
    }

    /// The place of the next record.
    pub closed spec fn spec_position(&self) -> int {
        self.position as int
    }

    /// A reader at the start of the given log.
    pub fn new(data: Vec<u8>) -> (r: Self)
        ensures
            r.well_formed(),
            r.log() == data@,
            r.spec_position() == 0,
    {
        WALReader { data, position: 0 }
    }

    /// The next entry of the log, its fragments put together. `Ok(None)` at
    /// the end of the log; a corruption error for a damaged record, a record
    /// cut short, or a fragment that does not fit the ones before it. After
    /// an entry the reader stands behind it; otherwise it stands where the
    /// reading stopped.
    pub fn read_next(&mut self) -> (r: Result<Option<Vec<u8>>, Error>)
        requires
            old(self).well_formed(),
        ensures
            final(self).well_formed(),
            final(self).log() == old(self).log(),
            match read_entry(old(self).log(), old(self).spec_position()) {
                ReadOutcome::Entry { data, next } => r matches Ok(Some(d)) && d@ == data && final(self).spec_position() == next,
                ReadOutcome::Eof => r matches Ok(None) && final(self).spec_position() == old(self).spec_position(),
                ReadOutcome::Corrupt => r matches Err(e) && e is Corruption,
            },
    {
        let mut assembled: Vec<u8> = Vec::new();
        let mut expecting: bool = false;
        loop
            invariant
                self.position <= self.data@.len(),
                self.data@ == old(self).data@,
                !expecting ==> self.position == old(self).position,
                read_entry_from(self.data@, self.position as int, assembled@, expecting)
                    == read_entry(old(self).data@, old(self).position as int),
            decreases self.data@.len() - self.position,
        {
            let record = match self.read_record() {
                Ok(Some(r)) => r,
                Ok(None) => {
                    if expecting {
                        return Err(
                            Error::corruption("EOF while expecting continuation record"),
                        );
                    }
                    return Ok(None);
                },
                Err(e) => {
                    return Err(e);
                },
            };
            match record.record_type {
                RecordType::Full => {
                    if expecting {
                        return Err(
                            Error::corruption(
                                "Unexpected Full record while expecting continuation",
                            ),
                        );
                    }
                    return Ok(Some(record.data));
                },
                RecordType::First => {
                    if expecting {
                        return Err(
                            Error::corruption(
                                "Unexpected First record while expecting continuation",
                            ),
                        );
                    }
                    assembled = record.data;
                    expecting = true;
                },
                RecordType::Middle => {
                    if !expecting {
                        return Err(Error::corruption("Unexpected Middle record without First"));
                    }
                    append_bytes(&mut assembled, record.data.as_slice());
                },
                RecordType::Last => {
                    if !expecting {
                        return Err(Error::corruption("Unexpected Last record without First"));
                    }
                    append_bytes(&mut assembled, record.data.as_slice());
                    return Ok(Some(assembled));
                },
            }
        }
    }

    /// The record at the current position. `Ok(None)` when fewer bytes than a
    /// header remain; a corruption error when the payload is cut short or the
    /// record is damaged. The position moves behind a record that was read.
    fn read_record(&mut self) -> (r: Result<Option<Record>, Error>)
        requires
            old(self).position <= old(self).data@.len(),
        ensures
            final(self).data@ == old(self).data@,
            final(self).position <= final(self).data@.len(),
            match r {
                Ok(None) => old(self).data@.len() - old(self).position < HEADER_SIZE && final(self).position == old(self).position,
                Ok(Some(rec)) => {
                    let total = HEADER_SIZE + announced_len(
                        old(self).data@,
                        old(self).position as int,
                    );
                    &&& old(self).data@.len() - old(self).position >= HEADER_SIZE
                    &&& old(self).data@.len() - old(self).position >= total
                    &&& final(self).position == old(self).position + total
                    &&& decode_record(
                        old(self).data@.subrange(
                            old(self).position as int,
                            old(self).position + total,
                        ),
                    ) == Some(rec@)
                },
                Err(e) => {
                    let total = HEADER_SIZE + announced_len(
                        old(self).data@,
                        old(self).position as int,
                    );
                    &&& e is Corruption
                    &&& old(self).data@.len() - old(self).position >= HEADER_SIZE
                    &&& (old(self).data@.len() - old(self).position < total || decode_record(
                        old(self).data@.subrange(
                            old(self).position as int,
                            old(self).position + total,
                        ),
                    ) is None)
                },
            },
    {
        let len = self.data.len();
        let pos = self.position;
        if len - pos < HEADER_SIZE {
            return Ok(None);
        }
        let length = get_u16_le(self.data.as_slice(), pos + 4) as usize;
        let total_size = HEADER_SIZE + length;
        if len - pos < total_size {
            return Err(Error::corruption("Record cut short"));
        }
        let record = Record::decode(vstd::slice::slice_subrange(
            self.data.as_slice(),
            pos,
            pos + total_size,
        ));
        self.position = pos + total_size;
        match record {
            Ok(r) => Ok(Some(r)),
            Err(e) => Err(e),
        }
    }

    /// The place of the next record.
    pub fn position(&self) -> (p: u64)
        ensures
            p == self.spec_position(),
    {
        self.position as u64
    }

    /// Moves the reader to `pos`. An invalid-argument error, and no move,
    /// when `pos` lies behind the end of the log.
    pub fn seek(&mut self, pos: u64) -> (r: Result<(), Error>)
        requires
            old(self).well_formed(),
        ensures
            final(self).well_formed(),
            final(self).log() == old(self).log(),
            pos <= old(self).log().len() ==> r is Ok && final(self).spec_position() == pos,
            pos > old(self).log().len() ==> r is Err && final(self).spec_position() == old(self).spec_position(),
    {
        if pos > self.data.len() as u64 {
            return Err(Error::invalid_argument("seek behind the end of the log"));
        }
        self.position = pos as usize;
        Ok(())
    }

    /// Every entry from the current position up to the end of the log or the
    /// first damaged record.
    pub fn recover_all(&mut self) -> (r: Result<Vec<Vec<u8>>, Error>)
        requires
            old(self).well_formed(),
        ensures
            final(self).well_formed(),
            final(self).log() == old(self).log(),
            r matches Ok(entries) && byte_views(entries@) == recover_from(
                old(self).log(),
                old(self).spec_position(),
            ),
    {
        let mut entries: Vec<Vec<u8>> = Vec::new();
        proof {
            assert(byte_views(entries@) =~= Seq::<Seq<u8>>::empty());
        }
        loop
            invariant
                self.position <= self.data@.len(),
                self.data@ == old(self).data@,
                byte_views(entries@) + recover_from(self.data@, self.position as int)
                    == recover_from(old(self).data@, old(self).position as int),
            decreases self.data@.len() - self.position,
        {
            let ghost before = byte_views(entries@);
            let ghost pos = self.position as int;
            proof {
                lemma_read_entry_advances(self.data@, pos, Seq::<u8>::empty(), false);
            }
            match self.read_next() {
                Ok(Some(data)) => {
                    entries.push(data);
                    proof {
                        assert(byte_views(entries@) =~= before.push(data@));
                        assert(before.push(data@) + recover_from(self.data@, self.position as int)
                            =~= before + (seq![data@] + recover_from(
                            self.data@,
                            self.position as int,
                        )));
                    }
                },
                Ok(None) => {
                    proof {
                        assert(before + Seq::<Seq<u8>>::empty() =~= before);
                    }
                    return Ok(entries);
                },
                Err(_) => {
                    proof {
                        assert(before + Seq::<Seq<u8>>::empty() =~= before);
                    }
                    return Ok(entries);
                },
            }
        }
    }
}

} // verus!
