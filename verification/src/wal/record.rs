//! The framing of log records.
//!
//! A record is a checksum (four bytes, little-endian), the length of the
//! payload (two bytes, little-endian), one byte for the record type, and the
//! payload. The checksum covers the type byte and the payload.

use vstd::prelude::*;
use vstd::bytes::*;
use crate::checksum::{crc32, crc32_of};
use crate::codec::{append_bytes, copy_range, get_u16_le, get_u32_le, lemma_u16_round_trip, lemma_u32_round_trip, put_u16_le, put_u32_le};
use crate::error::Error;

verus! {

/// Largest payload of one record.
pub const MAX_RECORD_SIZE: usize = 32768;

/// Size of the record header: checksum, length and type.
pub const HEADER_SIZE: usize = 7;

/// How a record relates to the logical entry it carries.
#[derive(Debug, Clone, Copy, PartialEq, Eq, Structural)]
pub enum RecordType {
    /// The record holds a whole entry.
    Full,
    /// The record holds the first fragment of an entry.
    First,
    /// The record holds a fragment that is neither first nor last.
    Middle,
    /// The record holds the last fragment of an entry.
    Last,
}

impl RecordType {
    /// The byte that stands for this record type.
    pub open spec fn spec_as_u8(self) -> u8 {
        match self {
            RecordType::Full => 1,
            RecordType::First => 2,
            RecordType::Middle => 3,
            RecordType::Last => 4,
        }
    }

    /// The record type a byte stands for, if any.
    pub open spec fn spec_from_u8(value: u8) -> Option<Self> {
        if value == 1 {
            Some(RecordType::Full)
        } else if value == 2 {
            Some(RecordType::First)
        } else if value == 3 {
            Some(RecordType::Middle)
        } else if value == 4 {
            Some(RecordType::Last)
        } else {
            None
        }
    }

    /// The byte that stands for this record type.
    pub fn as_u8(self) -> (b: u8)
        ensures
            b == self.spec_as_u8(),
            Self::spec_from_u8(b) == Some(self),
    {
        match self {
            RecordType::Full => 1,
            RecordType::First => 2,
            RecordType::Middle => 3,
            RecordType::Last => 4,
        }
    }

    /// The record type a byte stands for; a corruption error for any byte
    /// outside 1 to 4.
    pub fn from_u8(value: u8) -> (r: Result<Self, Error>)
        ensures
            match r {
                Ok(t) => Self::spec_from_u8(value) == Some(t),
                Err(e) => Self::spec_from_u8(value) is None && e is Corruption,
            },
    {
        match value {
            1 => Ok(RecordType::Full),
            2 => Ok(RecordType::First),
            3 => Ok(RecordType::Middle),
            4 => Ok(RecordType::Last),
            _ => Err(Error::corruption("Invalid record type")),
        }
    }
}

/// One record of the log.
#[derive(Debug, Clone)]
pub struct Record {
    /// Type of the record.
    pub record_type: RecordType,
    /// Payload.
    pub data: Vec<u8>,
}

/// A record as a mathematical value.
pub struct RecordView {
    pub record_type: RecordType,
    pub data: Seq<u8>,
}

impl View for Record {
    type V = RecordView;

    open spec fn view(&self) -> RecordView {
        RecordView { record_type: self.record_type, data: self.data@ }
    }
}

/// The checksum of a record: the CRC-32 of its type byte followed by its
/// payload.
pub open spec fn record_checksum(t: RecordType, data: Seq<u8>) -> u32 {
    crc32(seq![t.spec_as_u8()] + data)
}

/// The bytes of a record.
pub open spec fn encode_record(r: RecordView) -> Seq<u8> {
    spec_u32_to_le_bytes(record_checksum(r.record_type, r.data)) + spec_u16_to_le_bytes(
        r.data.len() as u16,
    ) + seq![r.record_type.spec_as_u8()] + r.data
}

/// The record at the front of `bytes`: `None` when the header is incomplete,
/// the type byte unknown, the payload cut short or the checksum wrong.
pub open spec fn decode_record(bytes: Seq<u8>) -> Option<RecordView> {
    if bytes.len() < HEADER_SIZE {
        None
    } else {
        let checksum = spec_u32_from_le_bytes(bytes.subrange(0, 4));
        let length = spec_u16_from_le_bytes(bytes.subrange(4, 6)) as int;
        match RecordType::spec_from_u8(bytes[6]) {
            None => None,
            Some(t) => {
                if bytes.len() - HEADER_SIZE < length {
                    None
                } else {
                    let data = bytes.subrange(7, 7 + length);
                    if checksum != record_checksum(t, data) {
                        None
                    } else {
                        Some(RecordView { record_type: t, data })
                    }
                }
            },
        }
    }
}

/// Decoding an encoded record gives the record back, whatever follows it.
pub proof fn lemma_record_round_trip(r: RecordView, rest: Seq<u8>)
    requires
        r.data.len() <= u16::MAX,
    ensures
        encode_record(r).len() == HEADER_SIZE + r.data.len(),
        decode_record(encode_record(r) + rest) == Some(r),
{
    lemma_u32_round_trip(record_checksum(r.record_type, r.data));
    lemma_u16_round_trip(r.data.len() as u16);
    let e = encode_record(r);
    let b = e + rest;
    assert(e.len() == 7 + r.data.len());
    assert(b.subrange(0, 4) =~= spec_u32_to_le_bytes(record_checksum(r.record_type, r.data)));
    assert(b.subrange(4, 6) =~= spec_u16_to_le_bytes(r.data.len() as u16));
    assert(b[6] == r.record_type.spec_as_u8());
    assert(b.subrange(7, 7 + r.data.len() as int) =~= r.data);
}

impl Record {
    /// A record of the given type and payload.
    pub fn new(record_type: RecordType, data: Vec<u8>) -> (r: Self)
        ensures
            r@ == (RecordView { record_type, data: data@ }),
    {
        Record { record_type, data }
    }

    /// The record as bytes: checksum, length, type, payload.
    pub fn encode(&self) -> (bytes: Vec<u8>)
        requires
            self@.data.len() <= MAX_RECORD_SIZE,
        ensures
            bytes@ == encode_record(self@),
            bytes@.len() == HEADER_SIZE + self@.data.len(),
    {
        let checksum = Self::calculate_checksum(self.record_type, self.data.as_slice());
        let mut buf: Vec<u8> = Vec::new();
        put_u32_le(&mut buf, checksum);
        put_u16_le(&mut buf, self.data.len() as u16);
        buf.push(self.record_type.as_u8());
        append_bytes(&mut buf, self.data.as_slice());
        proof {
            lemma_record_round_trip(self@, Seq::<u8>::empty());
            assert(buf@ =~= encode_record(self@));
        }
        buf
    }

    /// The record at the front of `data`. A corruption error when the header
    /// is incomplete, the type byte is unknown, the payload is cut short or
    /// the checksum does not match.
    pub fn decode(data: &[u8]) -> (r: Result<Self, Error>)
        ensures
            match r {
                Ok(rec) => decode_record(data@) == Some(rec@),
                Err(e) => decode_record(data@) is None && e is Corruption,
            },
    {
        if data.len() < HEADER_SIZE {
            return Err(Error::corruption("Record too short"));
        }
        let checksum = get_u32_le(data, 0);
        let length = get_u16_le(data, 4) as usize;
        let record_type = match RecordType::from_u8(data[6]) {
            Ok(t) => t,
            Err(e) => {
                return Err(e);
            },
        };
        if data.len() - HEADER_SIZE < length {
            return Err(Error::corruption("Incomplete record"));
        }
        let record_data = copy_range(data, HEADER_SIZE, HEADER_SIZE + length);
        let expected = Self::calculate_checksum(record_type, record_data.as_slice());
        if checksum != expected {
            return Err(Error::corruption("Checksum mismatch"));
        }
        Ok(Record { record_type, data: record_data })
    }

    /// The checksum over the type byte and the payload.
    fn calculate_checksum(record_type: RecordType, data: &[u8]) -> (sum: u32)
        ensures
            sum == record_checksum(record_type, data@),
    {
        let mut covered: Vec<u8> = Vec::new();
        covered.push(record_type.as_u8());
        append_bytes(&mut covered, data);
        assert(covered@ =~= seq![record_type.spec_as_u8()] + data@);
        crc32_of(covered.as_slice())
    }

    /// The number of bytes `encode` produces.
    pub fn encoded_size(&self) -> (n: usize)
        requires
            self@.data.len() + HEADER_SIZE <= usize::MAX,
        ensures
            n == HEADER_SIZE + self@.data.len(),
    {
        HEADER_SIZE + self.data.len()
    }
}

} // verus!
