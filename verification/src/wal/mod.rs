//! The write-ahead log: framed, checksummed records of every write.
//!
//! The log is kept as the image of its file. Entries are appended through a
//! [`WALWriter`] and read back through a [`WALReader`]; what is appended is
//! recovered in order, up to the first damaged record.

use vstd::prelude::*;
use vstd::string::*;

pub mod reader;
pub mod record;
pub mod recovery;
pub mod writer;

pub use reader::WALReader;
pub use record::{Record, RecordType};
pub use writer::WALWriter;

use crate::error::Error;
use crate::wal::reader::recover_from;
use crate::wal::writer::frame_entry;

verus! {

/// A log that is open for appending.
pub struct WAL {
    writer: WALWriter,
}

impl WAL {
    /// The log is in a consistent state.
    pub closed spec fn well_formed(&self) -> bool {
        self.writer.well_formed()
    }

    /// The durable part of the log is a part of the log.
    pub proof fn lemma_synced_within(&self)
        requires
            self.well_formed(),
        ensures
            self.synced_len() <= self.bytes().len(),
    {
        self.writer.lemma_synced_within();
    }

    /// Every byte of the log.
    pub closed spec fn bytes(&self) -> Seq<u8> {
        self.writer.bytes()
    }

    /// The number of leading bytes that are durable.
    pub closed spec fn synced_len(&self) -> nat {
        self.writer.synced_len()
    }

    /// Opens a log for appending behind its `existing` content.
    pub fn open(existing: Vec<u8>) -> (r: Result<Self, Error>)
        ensures
            r matches Ok(w) && w.well_formed() && w.bytes() == existing@ && w.synced_len()
                == existing@.len(),
    {
        Ok(WAL { writer: WALWriter::new(existing) })
    }

    /// Appends one entry.
    pub fn append(&mut self, data: &[u8]) -> (r: Result<(), Error>)
        requires
            old(self).well_formed(),
        ensures
            r is Ok,
            final(self).well_formed(),
            final(self).bytes() == old(self).bytes() + frame_entry(data@),
            final(self).synced_len() == old(self).synced_len(),
    {
        self.writer.append(data)
    }

    /// Makes everything appended so far durable.
    pub fn sync(&mut self) -> (r: Result<(), Error>)
        requires
            old(self).well_formed(),
        ensures
            r is Ok,
            final(self).well_formed(),
            final(self).bytes() == old(self).bytes(),
            final(self).synced_len() == old(self).bytes().len(),
    {
        self.writer.sync()
    }

    /// The size of the log in bytes.
    pub fn size(&self) -> (n: u64)
        ensures
            n == self.bytes().len(),
    {
        self.writer.file_size()
    }

    /// The content of the log.
    pub fn contents(&self) -> (b: &[u8])
        ensures
            b@ == self.bytes(),
    {
        self.writer.contents()
    }

    /// The number of leading bytes that are durable.
    pub fn synced_size(&self) -> (n: usize)
        requires
            self.well_formed(),
        ensures
            n == self.synced_len(),
            n <= self.bytes().len(),
    {
        self.writer.synced_size()
    }

    /// Closes the log and gives its content back.
    pub fn close(self) -> (r: Result<Vec<u8>, Error>)
        ensures
            r matches Ok(b) && b@ == self.bytes(),
    {
        self.writer.close()
    }

    /// Every entry of the log `data`, up to its end or its first damaged
    /// record.
    pub fn recover(data: Vec<u8>) -> (r: Result<Vec<Vec<u8>>, Error>)
        ensures
            r matches Ok(entries) && crate::codec::byte_views(entries@) == recover_from(data@, 0),
    {
        let mut reader = WALReader::new(data);
        reader.recover_all()
    }
}

/// The decimal digits of `n`, most significant first, without leading zeros
/// (a single `0` for zero).
pub open spec fn decimal_text(n: nat) -> Seq<char>
    decreases n,
{
    if n < 10 {
        seq![((48 + n) as u8) as char]
    } else {
        decimal_text(n / 10).push(((48 + n % 10) as u8) as char)
    }
}

/// `count` zeros.
pub open spec fn zeros(count: nat) -> Seq<char> {
    Seq::new(count, |i: int| '0')
}

/// The decimal digits of `n`, filled up with zeros on the left to six
/// characters.
pub open spec fn six_digits(n: nat) -> Seq<char> {
    let digits = decimal_text(n);
    if digits.len() >= 6 {
        digits
    } else {
        zeros((6 - digits.len()) as nat) + digits
    }
}

/// `format!` with `{:06}`: std prints the number in decimal and fills it up
/// with zeros on the left to a width of six.
#[verifier::external_body]
pub(crate) fn format_six_digits(n: u64) -> (text: String)
    ensures
        text@ == six_digits(n as nat),
{
    format!("{:06}", n)
}

/// The name of the log file with the given number: six digits and `.log`.
pub fn wal_filename(seq: u64) -> (name: String)
    ensures
        name@ == six_digits(seq as nat) + ".log"@,
{
    format_six_digits(seq).concat(".log")
}

/// Whether a name, as bytes, ends in `.log`.
pub open spec fn ends_with_log(name: Seq<u8>) -> bool {
    &&& name.len() >= 4
    &&& name[name.len() - 4] == 46
    &&& name[name.len() - 3] == 108
    &&& name[name.len() - 2] == 111
    &&& name[name.len() - 1] == 103
}

/// A name without any `.log` at its end.
pub open spec fn strip_log_suffixes(name: Seq<u8>) -> Seq<u8>
    decreases name.len(),
{
    if ends_with_log(name) {
        strip_log_suffixes(name.subrange(0, name.len() - 4))
    } else {
        name
    }
}

/// Whether every byte is an ASCII digit.
pub open spec fn all_digits(text: Seq<u8>) -> bool {
    forall|i: int| 0 <= i < text.len() ==> 48 <= #[trigger] text[i] <= 57
}

/// The number that decimal digits stand for.
pub open spec fn decimal_value(digits: Seq<u8>) -> nat
    decreases digits.len(),
{
    if digits.len() == 0 {
        0
    } else {
        decimal_value(digits.drop_last()) * 10 + (digits.last() - 48) as nat
    }
}

/// The number that digits stand for: `None` unless there is at least one
/// digit, nothing but digits, and the value fits into 64 bits.
pub open spec fn parse_digits(digits: Seq<u8>) -> Option<u64> {
    if digits.len() == 0 || !all_digits(digits) || decimal_value(digits) > u64::MAX {
        None
    } else {
        Some(decimal_value(digits) as u64)
    }
}

/// The number a text stands for: an optional `+`, then digits.
pub open spec fn parse_decimal(text: Seq<u8>) -> Option<u64> {
    if text.len() > 0 && text[0] == 43 {
        parse_digits(text.skip(1))
    } else {
        parse_digits(text)
    }
}

/// The number of the log file with the given name, as bytes: `None` unless
/// the name ends in `.log` and is a number before that.
pub open spec fn parse_wal_name(name: Seq<u8>) -> Option<u64> {
    if !ends_with_log(name) {
        None
    } else {
        parse_decimal(strip_log_suffixes(name))
    }
}

/// A longer run of digits stands for a number that is at least as large.
proof fn lemma_decimal_value_grows(digits: Seq<u8>, i: int, j: int)
    requires
        0 <= i <= j <= digits.len(),
        all_digits(digits),
    ensures
        decimal_value(digits.subrange(0, i)) <= decimal_value(digits.subrange(0, j)),
    decreases j - i,
{
    if i < j {
        lemma_decimal_value_grows(digits, i, j - 1);
        let longer = digits.subrange(0, j);
        assert(longer.drop_last() =~= digits.subrange(0, j - 1));
        assert(longer.last() == digits[j - 1]);
    }
}

/// The number of the log file with the given name: `None` unless the name
/// ends in `.log` and is a number before that.
pub fn parse_wal_filename(filename: &str) -> (number: Option<u64>)
    ensures
        number == parse_wal_name(filename.spec_bytes()),
{
    let name = filename.as_bytes();
    let mut end: usize = name.len();
    if !(end >= 4 && name[end - 4] == 46 && name[end - 3] == 108 && name[end - 2] == 111
        && name[end - 1] == 103) {
        return None;
    }
    proof {
        assert(name@.subrange(0, end as int) =~= name@);
    }
    while end >= 4 && name[end - 4] == 46 && name[end - 3] == 108 && name[end - 2] == 111
        && name[end - 1] == 103
        invariant
            end <= name@.len(),
            strip_log_suffixes(name@.subrange(0, end as int)) == strip_log_suffixes(name@),
        decreases end,
    {
        proof {
            let cur = name@.subrange(0, end as int);
            assert(ends_with_log(cur));
            assert(cur.subrange(0, cur.len() - 4) =~= name@.subrange(0, end - 4));
        }
        end -= 4;
    }
    let ghost stem = name@.subrange(0, end as int);
    proof {
        assert(!ends_with_log(stem));
        assert(strip_log_suffixes(name@) == stem);
    }
    let start: usize = if end > 0 && name[0] == 43 {
        1
    } else {
        0
    };
    let ghost digits = name@.subrange(start as int, end as int);
    proof {
        if start == 1 {
            assert(stem.skip(1) =~= digits);
        } else {
            assert(stem =~= digits);
        }
    }
    proof {
        assert(parse_wal_name(name@) == parse_digits(digits));
    }
    if start == end {
        return None;
    }
    let mut value: u64 = 0;
    let mut i: usize = start;
    proof {
        assert(digits.subrange(0, 0) =~= Seq::<u8>::empty());
    }
    while i < end
        invariant
            start <= i <= end <= name@.len(),
            digits == name@.subrange(start as int, end as int),
            parse_wal_name(filename.spec_bytes()) == parse_digits(digits),
            all_digits(digits.subrange(0, i - start)),
            value == decimal_value(digits.subrange(0, i - start)),
        decreases end - i,
    {
        let c = name[i];
        if c < 48 || c > 57 {
            proof {
                assert(digits[i - start] == c);
            }
            return None;
        }
        let d = (c - 48) as u64;
        proof {
            let next = digits.subrange(0, i + 1 - start);
            assert(next.drop_last() =~= digits.subrange(0, i - start));
            assert(next.last() == c);
            assert forall|k: int| 0 <= k < next.len() implies 48 <= #[trigger] next[k] <= 57 by {
                if k < next.len() - 1 {
                    assert(digits.subrange(0, i - start)[k] == next[k]);
                }
            }
        }
        if value > (u64::MAX - d) / 10 {
            proof {
                // the digits read so far already exceed 64 bits
                if all_digits(digits) {
                    lemma_decimal_value_grows(digits, i + 1 - start, digits.len() as int);
                    assert(digits.subrange(0, digits.len() as int) =~= digits);
                }
            }
            return None;
        }
        value = value * 10 + d;
        i += 1;
    }
    proof {
        assert(digits.subrange(0, end - start) =~= digits);
    }
    Some(value)
}

} // verus!
