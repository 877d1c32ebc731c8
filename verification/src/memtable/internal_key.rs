//! The key under which a version of a user key is stored.
//!
//! An internal key is a user key together with the sequence number of the
//! write and its kind. Internal keys are ordered by user key ascending, then
//! by sequence number descending (newer first), then by kind descending
//! (a value before a tombstone).

use vstd::prelude::*;
use vstd::bytes::*;
use crate::codec::{append_bytes, bytes_equal, copy_range, get_u64_le, lemma_u64_round_trip, put_u64_le};
use crate::key_order::{key_less, key_lt, lemma_key_lt_asymmetric, lemma_key_lt_irreflexive, lemma_key_lt_total, lemma_key_lt_transitive};

verus! {

/// The kind of an entry: a value, or a tombstone that marks a deletion.
#[derive(Debug, Clone, Copy, PartialEq, Eq, Structural, PartialOrd, Ord)]
pub enum ValueType {
    /// A tombstone: the key was deleted at this sequence number.
    Deletion,
    /// An ordinary value.
    Value,
}

impl ValueType {
    /// The kind a byte stands for, if any.
    pub open spec fn spec_from_u8(value: u8) -> Option<Self> {
        if value == 0 {
            Some(ValueType::Deletion)
        } else if value == 1 {
            Some(ValueType::Value)
        } else {
            None
        }
    }

    /// The byte that stands for this kind.
    pub open spec fn spec_as_u8(self) -> u8 {
        match self {
            ValueType::Deletion => 0,
            ValueType::Value => 1,
        }
    }

    /// The kind a byte stands for, if any.
    pub fn from_u8(value: u8) -> (t: Option<Self>)
        ensures
            t == Self::spec_from_u8(value),
    {
        match value {
            0 => Some(ValueType::Deletion),
            1 => Some(ValueType::Value),
            _ => None,
        }
    }

    /// The byte that stands for this kind.
    pub fn as_u8(self) -> (b: u8)
        ensures
            b == self.spec_as_u8(),
            Self::spec_from_u8(b) == Some(self),
    {
        match self {
            ValueType::Deletion => 0,
            ValueType::Value => 1,
        }
    }
}

/// An internal key as a mathematical value.
pub struct InternalKeyView {
    pub user_key: Seq<u8>,
    pub sequence: u64,
    pub value_type: ValueType,
}

/// Whether `a` comes strictly before `b` in the order of internal keys.
pub open spec fn internal_key_lt(a: InternalKeyView, b: InternalKeyView) -> bool {
    if a.user_key != b.user_key {
        key_lt(a.user_key, b.user_key)
    } else if a.sequence != b.sequence {
        a.sequence > b.sequence
    } else {
        a.value_type == ValueType::Value && b.value_type == ValueType::Deletion
    }
}

/// The bytes an internal key is stored as: the user key, the sequence number
/// in eight little-endian bytes, and the kind in one byte.
pub open spec fn encode_internal_key(k: InternalKeyView) -> Seq<u8> {
    k.user_key + spec_u64_to_le_bytes(k.sequence) + seq![k.value_type.spec_as_u8()]
}

/// The internal key that bytes stand for, if they are long enough and end in
/// a known kind.
pub open spec fn decode_internal_key(data: Seq<u8>) -> Option<InternalKeyView> {
    if data.len() < 9 {
        None
    } else {
        let n = data.len() - 9;
        match ValueType::spec_from_u8(data[n + 8]) {
            None => None,
            Some(t) => Some(
                InternalKeyView {
                    user_key: data.subrange(0, n),
                    sequence: spec_u64_from_le_bytes(data.subrange(n, n + 8)),
                    value_type: t,
                },
            ),
        }
    }
}

/// The rank that orders the kinds at equal sequence numbers: a value first.
pub open spec fn rank_of(t: ValueType) -> u8 {
    match t {
        ValueType::Value => 0,
        ValueType::Deletion => 1,
    }
}

/// A user key with the sequence number and kind of one write to it.
///
/// The fields are held in the form in which they compare: the sequence number
/// as its distance from the largest one, the kind as its rank. The derived
/// order over the fields is then the order of internal keys.
#[derive(Debug, Clone, PartialEq, Eq, PartialOrd, Ord)]
pub struct InternalKey {
    user_key: Vec<u8>,
    inverted_sequence: u64,
    rank: u8,
}

impl View for InternalKey {
    type V = InternalKeyView;

    closed spec fn view(&self) -> InternalKeyView {
        InternalKeyView {
            user_key: self.user_key@,
            sequence: (u64::MAX - self.inverted_sequence) as u64,
            value_type: if self.rank == 0 {
                ValueType::Value
            } else {
                ValueType::Deletion
            },
        }
    }
}

impl InternalKey {
    /// An internal key made of its three parts.
    pub fn new(user_key: Vec<u8>, sequence: u64, value_type: ValueType) -> (k: Self)
        ensures
            k@ == (InternalKeyView { user_key: user_key@, sequence, value_type }),
    {
        let rank: u8 = match value_type {
            ValueType::Value => 0,
            ValueType::Deletion => 1,
        };
        InternalKey { user_key, inverted_sequence: u64::MAX - sequence, rank }
    }

    /// The user key.
    pub fn user_key(&self) -> (k: &[u8])
        ensures
            k@ == self@.user_key,
    {
        self.user_key.as_slice()
    }

    /// The sequence number.
    pub fn sequence(&self) -> (s: u64)
        ensures
            s == self@.sequence,
    {
        u64::MAX - self.inverted_sequence
    }

    /// The kind.
    pub fn value_type(&self) -> (t: ValueType)
        ensures
            t == self@.value_type,
    {
        if self.rank == 0 {
            ValueType::Value
        } else {
            ValueType::Deletion
        }
    }

    /// The key as bytes.
    pub fn encode(&self) -> (bytes: Vec<u8>)
        ensures
            bytes@ == encode_internal_key(self@),
    {
        let mut buf: Vec<u8> = Vec::new();
        append_bytes(&mut buf, self.user_key.as_slice());
        put_u64_le(&mut buf, self.sequence());
        buf.push(self.value_type().as_u8());
        assert(buf@ =~= encode_internal_key(self@));
        buf
    }

    /// The key that bytes stand for; `None` when they are shorter than nine
    /// bytes or end in an unknown kind.
    pub fn decode(data: &[u8]) -> (k: Option<Self>)
        ensures
            match k {
                Some(key) => decode_internal_key(data@) == Some(key@),
                None => decode_internal_key(data@) is None,
            },
    {
        if data.len() < 9 {
            return None;
        }
        let n = data.len() - 9;
        let user_key = copy_range(data, 0, n);
        let sequence = get_u64_le(data, n);
        match ValueType::from_u8(data[n + 8]) {
            None => None,
            Some(t) => Some(InternalKey::new(user_key, sequence, t)),
        }
    }

    /// The number of bytes `encode` produces.
    pub fn encoded_size(&self) -> (n: usize)
        requires
            self@.user_key.len() + 9 <= usize::MAX,
        ensures
            n == self@.user_key.len() + 9,
            n == encode_internal_key(self@).len(),
    {
        proof {
            lemma_u64_round_trip(self@.sequence);
        }
        self.user_key.len() + 9
    }

    /// Whether this key comes strictly before `other` in the order of
    /// internal keys.
    pub fn precedes(&self, other: &InternalKey) -> (b: bool)
        ensures
            b == internal_key_lt(self@, other@),
    {
        if !bytes_equal(self.user_key.as_slice(), other.user_key.as_slice()) {
            key_less(self.user_key.as_slice(), other.user_key.as_slice())
        } else if self.inverted_sequence != other.inverted_sequence {
            self.inverted_sequence < other.inverted_sequence
        } else {
            self.rank == 0 && other.rank != 0
        }
    }
}

/// Decoding an encoded internal key gives the key back.
pub proof fn lemma_internal_key_round_trip(k: InternalKeyView)
    ensures
        decode_internal_key(encode_internal_key(k)) == Some(k),
{
    lemma_u64_round_trip(k.sequence);
    let e = encode_internal_key(k);
    let n = k.user_key.len() as int;
    assert(e.len() == n + 9);
    assert(e.subrange(0, n) =~= k.user_key);
    assert(e.subrange(n, n + 8) =~= spec_u64_to_le_bytes(k.sequence));
    assert(e[n + 8] == k.value_type.spec_as_u8());
}

/// The order of internal keys is irreflexive and transitive.
pub proof fn lemma_internal_key_order(a: InternalKeyView, b: InternalKeyView, c: InternalKeyView)
    ensures
        !internal_key_lt(a, a),
        internal_key_lt(a, b) && internal_key_lt(b, c) ==> internal_key_lt(a, c),
        a == b || internal_key_lt(a, b) || internal_key_lt(b, a),
{
    lemma_key_lt_irreflexive(a.user_key);
    lemma_key_lt_total(a.user_key, b.user_key);
    if internal_key_lt(a, b) && internal_key_lt(b, c) {
        if a.user_key != b.user_key && b.user_key != c.user_key {
            lemma_key_lt_transitive(a.user_key, b.user_key, c.user_key);
            lemma_key_lt_asymmetric(a.user_key, c.user_key);
        } else if a.user_key != b.user_key {
        } else if b.user_key != c.user_key {
        } else {
        }
    }
}

} // verus!
