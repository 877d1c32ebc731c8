//! Error type shared by every component of the engine.

use vstd::prelude::*;
use vstd::string::*;

verus! {

/// An error reported by the operating system while reading or writing.
#[verifier::external_type_specification]
#[verifier::external_body]
pub struct ExIoError(std::io::Error);

/// Everything that can go wrong inside the engine.
#[derive(Debug)]
pub enum Error {
    /// Reading or writing storage failed.
    Io(std::io::Error),
    /// Stored bytes do not have the shape the format requires.
    Corruption(String),
    /// Something that had to exist does not.
    NotFound(String),
    /// A caller passed a value outside the accepted range.
    InvalidArgument(String),
    /// The operation is not available in this build.
    NotImplemented(String),
    /// The engine is in a state in which the operation makes no sense.
    InvalidState(String),
    /// A value could not be turned into bytes or back.
    Serialization(String),
    /// A stored checksum differs from the one computed over the stored bytes.
    ChecksumMismatch { expected: u32, actual: u32 },
    /// Something that had to be absent is present.
    AlreadyExists(String),
    /// An invariant of the engine itself was violated.
    Internal(String),
}

/// The kind of an error, without its message.
pub enum ErrorKind {
    Io,
    Corruption,
    NotFound,
    InvalidArgument,
    NotImplemented,
    InvalidState,
    Serialization,
    ChecksumMismatch { expected: u32, actual: u32 },
    AlreadyExists,
    Internal,
}

/// Result type used throughout the engine.
pub type Result<T> = std::result::Result<T, Error>;

/// The character that stands for the hexadecimal digit `d`.
pub open spec fn hex_digit(d: nat) -> char {
    if d < 10 {
        ((48 + d) as u8) as char
    } else {
        ((87 + d) as u8) as char
    }
}

/// The lower-case hexadecimal digits of `n`, most significant first, without
/// leading zeros (a single `0` for zero).
pub open spec fn hex_digits(n: nat) -> Seq<char>
    decreases n,
{
    if n < 16 {
        seq![hex_digit(n)]
    } else {
        hex_digits(n / 16).push(hex_digit(n % 16))
    }
}

/// The text of a number in the form `0x1f`.
pub open spec fn hex_text(n: u32) -> Seq<char> {
    "0x"@ + hex_digits(n as nat)
}

/// `format!` with `{:#x}`: std prints the number in lower-case hexadecimal,
/// most significant digit first and without padding, behind the prefix `0x`.
#[verifier::external_body]
fn format_hex(n: u32) -> (text: String)
    ensures
        text@ == hex_text(n),
{
    format!("{:#x}", n)
}

/// `to_string` of `std::io::Error`: the text the operating system or the
/// creator of the error attached to it. Nothing is claimed of it.
#[verifier::external_body]
fn io_error_text(e: &std::io::Error) -> (text: String) {
    e.to_string()
}

impl Error {
    /// A corruption error with the given message.
    pub fn corruption(msg: &str) -> (e: Self)
        ensures
            e matches Error::Corruption(m) && m@ == msg@,
    {
        Error::Corruption(String::from_str(msg))
    }

    /// A not-found error with the given message.
    pub fn not_found(msg: &str) -> (e: Self)
        ensures
            e matches Error::NotFound(m) && m@ == msg@,
    {
        Error::NotFound(String::from_str(msg))
    }

    /// An invalid-argument error with the given message.
    pub fn invalid_argument(msg: &str) -> (e: Self)
        ensures
            e matches Error::InvalidArgument(m) && m@ == msg@,
    {
        Error::InvalidArgument(String::from_str(msg))
    }

    /// An internal error with the given message.
    pub fn internal(msg: &str) -> (e: Self)
        ensures
            e matches Error::Internal(m) && m@ == msg@,
    {
        Error::Internal(String::from_str(msg))
    }

    /// The kind of the error.
    pub open spec fn kind(self) -> ErrorKind {
        match self {
            Error::Io(_) => ErrorKind::Io,
            Error::Corruption(_) => ErrorKind::Corruption,
            Error::NotFound(_) => ErrorKind::NotFound,
            Error::InvalidArgument(_) => ErrorKind::InvalidArgument,
            Error::NotImplemented(_) => ErrorKind::NotImplemented,
            Error::InvalidState(_) => ErrorKind::InvalidState,
            Error::Serialization(_) => ErrorKind::Serialization,
            Error::ChecksumMismatch { expected, actual } => ErrorKind::ChecksumMismatch {
                expected,
                actual,
            },
            Error::AlreadyExists(_) => ErrorKind::AlreadyExists,
            Error::Internal(_) => ErrorKind::Internal,
        }
    }

    /// The text shown for every variant but `Io`, whose text comes from the
    /// operating system.
    pub open spec fn text(self) -> Seq<char> {
        match self {
            Error::Io(_) => "IO error: "@,
            Error::Corruption(m) => "Data corruption: "@ + m@,
            Error::NotFound(m) => "Not found: "@ + m@,
            Error::InvalidArgument(m) => "Invalid argument: "@ + m@,
            Error::NotImplemented(m) => "Not implemented: "@ + m@,
            Error::InvalidState(m) => "Invalid state: "@ + m@,
            Error::Serialization(m) => "Serialization error: "@ + m@,
            Error::ChecksumMismatch { expected, actual } => "Checksum mismatch: expected "@
                + hex_text(expected) + ", got "@ + hex_text(actual),
            Error::AlreadyExists(m) => "Already exists: "@ + m@,
            Error::Internal(m) => "Internal error: "@ + m@,
        }
    }

    /// The error as a line of text: the kind, a colon, and the message. For
    /// `Io` the message is whatever the operating system reported.
    pub fn to_string(&self) -> (s: String)
        ensures
            !(self is Io) ==> s@ == self.text(),
            self is Io ==> s@.len() >= self.text().len() && s@.subrange(
                0,
                self.text().len() as int,
            ) == self.text(),
    {
        match self {
            Error::Io(e) => {
                let t = io_error_text(e);
                let s = String::from_str("IO error: ").concat(t.as_str());
                assert(s@.subrange(0, "IO error: "@.len() as int) =~= "IO error: "@);
                s
            },
            Error::Corruption(m) => String::from_str("Data corruption: ").concat(m.as_str()),
            Error::NotFound(m) => String::from_str("Not found: ").concat(m.as_str()),
            Error::InvalidArgument(m) => String::from_str("Invalid argument: ").concat(m.as_str()),
            Error::NotImplemented(m) => String::from_str("Not implemented: ").concat(m.as_str()),
            Error::InvalidState(m) => String::from_str("Invalid state: ").concat(m.as_str()),
            Error::Serialization(m) => String::from_str("Serialization error: ").concat(
                m.as_str(),
            ),
            Error::ChecksumMismatch { expected, actual } => {
                let e = format_hex(*expected);
                let a = format_hex(*actual);
                String::from_str("Checksum mismatch: expected ").concat(e.as_str()).concat(
                    ", got ",
                ).concat(a.as_str())
            },
            Error::AlreadyExists(m) => String::from_str("Already exists: ").concat(m.as_str()),
            Error::Internal(m) => String::from_str("Internal error: ").concat(m.as_str()),
        }
    }
}

impl From<std::io::Error> for Error {
    fn from(err: std::io::Error) -> (e: Self) {
        Error::Io(err)
    }
}

impl vstd::std_specs::convert::FromSpecImpl<std::io::Error> for Error {
    open spec fn obeys_from_spec() -> bool {
        true
    }

    open spec fn from_spec(v: std::io::Error) -> Self {
        Error::Io(v)
    }
}

} // verus!
