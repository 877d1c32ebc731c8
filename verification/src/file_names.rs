//! The names of the files of a database: `MANIFEST`, the log files
//! `NNNNNN.log`, and the table files `NNNNNN.sst`.

use vstd::prelude::*;
use vstd::string::*;
use crate::storage::{FileId, FileKind};
use crate::wal::{all_digits, decimal_value, format_six_digits, parse_digits, parse_wal_filename, parse_wal_name, six_digits, wal_filename};

verus! {

/// The name of a file of a database.
pub open spec fn spec_file_name(id: FileId) -> Seq<char> {
    match id.kind {
        FileKind::Manifest => "MANIFEST"@,
        FileKind::Log => six_digits(id.number as nat) + ".log"@,
        FileKind::Table => six_digits(id.number as nat) + ".sst"@,
    }
}

/// Whether a name, as bytes, is `MANIFEST`.
pub open spec fn is_manifest_name(name: Seq<u8>) -> bool {
    name == seq![77u8, 65u8, 78u8, 73u8, 70u8, 69u8, 83u8, 84u8]
}

/// Whether a name, as bytes, ends in `.sst`.
pub open spec fn ends_with_sst(name: Seq<u8>) -> bool {
    &&& name.len() >= 4
    &&& name[name.len() - 4] == 46
    &&& name[name.len() - 3] == 115
    &&& name[name.len() - 2] == 115
    &&& name[name.len() - 1] == 116
}

/// The number of the table file with the given name, as bytes: `None`
/// unless the name is a number of decimal digits and `.sst` behind it.
pub open spec fn parse_table_name(name: Seq<u8>) -> Option<u64> {
    if !ends_with_sst(name) {
        None
    } else {
        parse_digits(name.subrange(0, name.len() - 4))
    }
}

/// The file that a name, as bytes, stands for: the manifest, a log or a
/// table; `None` for any other name.
pub open spec fn parse_name(name: Seq<u8>) -> Option<FileId> {
    if is_manifest_name(name) {
        Some(FileId { kind: FileKind::Manifest, number: 0 })
    } else if parse_wal_name(name) is Some {
        Some(FileId { kind: FileKind::Log, number: parse_wal_name(name)->0 })
    } else if parse_table_name(name) is Some {
        Some(FileId { kind: FileKind::Table, number: parse_table_name(name)->0 })
    } else {
        None
    }
}

/// A longer run of digits stands for a number that is at least as large.
proof fn lemma_value_grows(digits: Seq<u8>, i: int, j: int)
    requires
        0 <= i <= j <= digits.len(),
        all_digits(digits),
    ensures
        decimal_value(digits.subrange(0, i)) <= decimal_value(digits.subrange(0, j)),
    decreases j - i,
{
    if i < j {
        lemma_value_grows(digits, i, j - 1);
        let longer = digits.subrange(0, j);
        assert(longer.drop_last() =~= digits.subrange(0, j - 1));
        assert(longer.last() == digits[j - 1]);
    }
}

/// The number that the bytes from `start` up to `end` stand for as decimal
/// digits: `None` unless there is at least one digit, nothing but digits,
/// and the value fits into 64 bits.
pub fn parse_number(name: &[u8], start: usize, end: usize) -> (number: Option<u64>)
    requires
        start <= end <= name@.len(),
    ensures
        number == parse_digits(name@.subrange(start as int, end as int)),
{
    let ghost digits = name@.subrange(start as int, end as int);
    if start == end {
        return None;
    }
    let mut value: u64 = 0;
    let mut i: usize = start;
    proof {
        assert(digits.subrange(0, 0) =~= Seq::<u8>::empty());
    }
    while i < end
        invariant
            start <= i <= end <= name@.len(),
            digits == name@.subrange(start as int, end as int),
            all_digits(digits.subrange(0, i - start)),
            value == decimal_value(digits.subrange(0, i - start)),
        decreases end - i,
    {
        let c = name[i];
        if c < 48 || c > 57 {
            proof {
                assert(digits[i - start] == c);
            }
            return None;
        }
        let d = (c - 48) as u64;
        proof {
            let next = digits.subrange(0, i + 1 - start);
            assert(next.drop_last() =~= digits.subrange(0, i - start));
            assert(next.last() == c);
            assert forall|k: int| 0 <= k < next.len() implies 48 <= #[trigger] next[k] <= 57 by {
                if k < next.len() - 1 {
                    assert(digits.subrange(0, i - start)[k] == next[k]);
                }
            }
        }
        if value > (u64::MAX - d) / 10 {
            proof {
                if all_digits(digits) {
                    lemma_value_grows(digits, i + 1 - start, digits.len() as int);
                    assert(digits.subrange(0, digits.len() as int) =~= digits);
                }
            }
            return None;
        }
        value = value * 10 + d;
        i += 1;
    }
    proof {
        assert(digits.subrange(0, end - start) =~= digits);
    }
    Some(value)
}

/// The name of the table file with the given number: six digits and
/// `.sst`.
pub fn table_filename(number: u64) -> (name: String)
    ensures
        name@ == six_digits(number as nat) + ".sst"@,
{
    format_six_digits(number).concat(".sst")
}

/// The number of the table file with the given name: `None` unless the
/// name is a number of decimal digits and `.sst` behind it.
pub fn parse_table_filename(filename: &str) -> (number: Option<u64>)
    ensures
        number == parse_table_name(filename.spec_bytes()),
{
    let name = filename.as_bytes();
    let end: usize = name.len();
    if !(end >= 4 && name[end - 4] == 46 && name[end - 3] == 115 && name[end - 2] == 115
        && name[end - 1] == 116) {
        return None;
    }
    parse_number(name, 0, end - 4)
}

/// The name of a file of a database.
pub fn file_name(id: FileId) -> (name: String)
    ensures
        name@ == spec_file_name(id),
{
    match id.kind {
        FileKind::Manifest => String::from_str("MANIFEST"),
        FileKind::Log => wal_filename(id.number),
        FileKind::Table => table_filename(id.number),
    }
}

/// The file that a name stands for: the manifest, a log or a table;
/// `None` for any other name.
pub fn parse_file_name(filename: &str) -> (id: Option<FileId>)
    ensures
        id == parse_name(filename.spec_bytes()),
{
    let name = filename.as_bytes();
    if name.len() == 8 && name[0] == 77 && name[1] == 65 && name[2] == 78 && name[3] == 73
        && name[4] == 70 && name[5] == 69 && name[6] == 83 && name[7] == 84 {
        proof {
            assert(name@ =~= seq![77u8, 65u8, 78u8, 73u8, 70u8, 69u8, 83u8, 84u8]);
        }
        return Some(FileId { kind: FileKind::Manifest, number: 0 });
    }
    match parse_wal_filename(filename) {
        Some(number) => {
            return Some(FileId { kind: FileKind::Log, number });
        },
        None => {},
    }
    match parse_table_filename(filename) {
        Some(number) => Some(FileId { kind: FileKind::Table, number }),
        None => None,
    }
}

} // verus!
