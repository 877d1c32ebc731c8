//! Batches of writes that are applied together.

use vstd::prelude::*;
use vstd::bytes::*;
use crate::codec::{append_bytes, copy_bytes, copy_range, get_u64_le, lemma_u64_round_trip, put_u64_le};
use crate::error::Error;

verus! {

/// One write of a batch.
#[derive(Debug, Clone, PartialEq, Eq)]
pub enum WriteOp {
    /// Store `value` under `key`.
    Put { key: Vec<u8>, value: Vec<u8> },
    /// Delete `key`.
    Delete { key: Vec<u8> },
}

/// One write of a batch as a mathematical value.
pub enum WriteOpView {
    Put { key: Seq<u8>, value: Seq<u8> },
    Delete { key: Seq<u8> },
}

impl View for WriteOp {
    type V = WriteOpView;

    open spec fn view(&self) -> WriteOpView {
        match self {
            WriteOp::Put { key, value } => WriteOpView::Put { key: key@, value: value@ },
            WriteOp::Delete { key } => WriteOpView::Delete { key: key@ },
        }
    }
}

/// The bytes a write is counted as in a batch's approximate size.
pub open spec fn op_size(op: WriteOpView) -> nat {
    match op {
        WriteOpView::Put { key, value } => key.len() + value.len() + 8,
        WriteOpView::Delete { key } => key.len() + 4,
    }
}

/// The sum of the sizes of all writes of a batch.
pub open spec fn ops_size(ops: Seq<WriteOpView>) -> nat
    decreases ops.len(),
{
    if ops.len() == 0 {
        0
    } else {
        ops_size(ops.drop_last()) + op_size(ops.last())
    }
}

/// An ordered list of writes that the engine applies atomically.
#[derive(Debug)]
pub struct WriteBatch {
    operations: Vec<WriteOp>,
    approximate_size: usize,
}

impl View for WriteBatch {
    type V = Seq<WriteOpView>;

    closed spec fn view(&self) -> Seq<WriteOpView> {
        self.operations@.map_values(|op: WriteOp| op@)
    }
}

impl Default for WriteBatch {
    fn default() -> (b: Self)
        ensures
            b@ == Seq::<WriteOpView>::empty(),
            b.well_formed(),
    {
        WriteBatch::new()
    }
}

impl WriteBatch {
    /// The recorded size is the sum of the sizes of the writes.
    pub closed spec fn well_formed(&self) -> bool {
        self.approximate_size == ops_size(self@)
    }

    /// An empty batch.
    pub fn new() -> (b: Self)
        ensures
            b@ == Seq::<WriteOpView>::empty(),
            b.well_formed(),
    {
        let b = WriteBatch { operations: Vec::new(), approximate_size: 0 };
        assert(b@ =~= Seq::<WriteOpView>::empty());
        b
    }

    /// Adds a put of `value` under `key` at the end of the batch.
    pub fn put(&mut self, key: &[u8], value: &[u8])
        requires
            old(self).well_formed(),
            ops_size(old(self)@) + key@.len() + value@.len() + 8 <= usize::MAX,
        ensures
            final(self)@ == old(self)@.push(WriteOpView::Put { key: key@, value: value@ }),
            final(self).well_formed(),
    {
        let op_size = key.len() + value.len() + 8;
        self.approximate_size += op_size;
        self.operations.push(WriteOp::Put { key: copy_bytes(key), value: copy_bytes(value) });
        proof {
            let op = WriteOpView::Put { key: key@, value: value@ };
            assert(self@ =~= old(self)@.push(op));
            assert(self@.drop_last() =~= old(self)@);
        }
    }

    /// Adds a deletion of `key` at the end of the batch.
    pub fn delete(&mut self, key: &[u8])
        requires
            old(self).well_formed(),
            ops_size(old(self)@) + key@.len() + 4 <= usize::MAX,
        ensures
            final(self)@ == old(self)@.push(WriteOpView::Delete { key: key@ }),
            final(self).well_formed(),
    {
        let op_size = key.len() + 4;
        self.approximate_size += op_size;
        self.operations.push(WriteOp::Delete { key: copy_bytes(key) });
        proof {
            let op = WriteOpView::Delete { key: key@ };
            assert(self@ =~= old(self)@.push(op));
            assert(self@.drop_last() =~= old(self)@);
        }
    }

    /// Removes every write from the batch.
    pub fn clear(&mut self)
        ensures
            final(self)@ == Seq::<WriteOpView>::empty(),
            final(self).well_formed(),
    {
        self.operations.clear();
        self.approximate_size = 0;
        assert(self@ =~= Seq::<WriteOpView>::empty());
    }

    /// The number of writes in the batch.
    pub fn len(&self) -> (n: usize)
        ensures
            n == self@.len(),
    {
        self.operations.len()
    }

    /// Whether the batch holds no write.
    pub fn is_empty(&self) -> (b: bool)
        ensures
            b == (self@.len() == 0),
    {
        self.operations.len() == 0
    }

    /// The approximate size of the batch in bytes: for each put the lengths
    /// of key and value plus 8, for each deletion the length of the key
    /// plus 4.
    pub fn approximate_size(&self) -> (n: usize)
        requires
            self.well_formed(),
        ensures
            n == ops_size(self@),
    {
        self.approximate_size
    }

    /// The writes of the batch in the order in which they were added.
    pub fn iter(&self) -> (ops: &Vec<WriteOp>)
        ensures
            ops@.len() == self@.len(),
            forall|i: int| 0 <= i < ops@.len() ==> (#[trigger] ops@[i])@ == self@[i],
    {
        &self.operations
    }
}

/// The byte that starts a batch in the log.
pub const BATCH_TAG: u8 = 1;

/// The bytes of one write: a byte for its kind (1 for a put, 0 for a
/// deletion), the key with its length in front, and for a put the value
/// with its length in front. Lengths are eight little-endian bytes.
pub open spec fn encode_op(op: WriteOpView) -> Seq<u8> {
    match op {
        WriteOpView::Put { key, value } => seq![1u8] + spec_u64_to_le_bytes(key.len() as u64) + key
            + spec_u64_to_le_bytes(value.len() as u64) + value,
        WriteOpView::Delete { key } => seq![0u8] + spec_u64_to_le_bytes(key.len() as u64) + key,
    }
}

/// The bytes of the writes from index `i` on.
pub open spec fn encode_ops_from(ops: Seq<WriteOpView>, i: int) -> Seq<u8>
    decreases ops.len() - i,
{
    if i < 0 || i >= ops.len() {
        Seq::<u8>::empty()
    } else {
        encode_op(ops[i]) + encode_ops_from(ops, i + 1)
    }
}

/// The log entry of a batch: the batch tag, the number of writes as eight
/// little-endian bytes, and the writes.
pub open spec fn encode_batch(ops: Seq<WriteOpView>) -> Seq<u8> {
    seq![BATCH_TAG] + spec_u64_to_le_bytes(ops.len() as u64) + encode_ops_from(ops, 0)
}

/// A write read from a log entry, and where the next one starts.
pub struct ParsedOp {
    pub op: WriteOpView,
    pub next: int,
}

/// The write at `pos` of a log entry.
pub open spec fn parse_op(data: Seq<u8>, pos: int) -> Option<ParsedOp> {
    if pos < 0 || data.len() - pos < 9 || data[pos] > 1 {
        None
    } else {
        let key_len = spec_u64_from_le_bytes(data.subrange(pos + 1, pos + 9)) as int;
        if data.len() - pos - 9 < key_len {
            None
        } else {
            let key = data.subrange(pos + 9, pos + 9 + key_len);
            if data[pos] == 0 {
                Some(ParsedOp { op: WriteOpView::Delete { key }, next: pos + 9 + key_len })
            } else if data.len() - pos - 9 - key_len < 8 {
                None
            } else {
                let at = pos + 9 + key_len;
                let value_len = spec_u64_from_le_bytes(data.subrange(at, at + 8)) as int;
                if data.len() - at - 8 < value_len {
                    None
                } else {
                    Some(
                        ParsedOp {
                            op: WriteOpView::Put {
                                key,
                                value: data.subrange(at + 8, at + 8 + value_len),
                            },
                            next: at + 8 + value_len,
                        },
                    )
                }
            }
        }
    }
}

/// `count` writes from `pos` on, which must end where the entry ends.
pub open spec fn parse_ops(data: Seq<u8>, pos: int, count: nat) -> Option<Seq<WriteOpView>>
    decreases count,
{
    if count == 0 {
        if pos == data.len() {
            Some(Seq::<WriteOpView>::empty())
        } else {
            None
        }
    } else {
        match parse_op(data, pos) {
            None => None,
            Some(p) => match parse_ops(data, p.next, (count - 1) as nat) {
                None => None,
                Some(rest) => Some(seq![p.op] + rest),
            },
        }
    }
}

/// The batch that a log entry stands for: `None` unless the entry is
/// exactly the bytes of a batch.
pub open spec fn decode_batch(data: Seq<u8>) -> Option<Seq<WriteOpView>> {
    if data.len() < 9 || data[0] != BATCH_TAG {
        None
    } else {
        parse_ops(data, 9, spec_u64_from_le_bytes(data.subrange(1, 9)) as nat)
    }
}

/// Whether the lengths of a write fit into the eight bytes they are stored
/// in.
pub open spec fn op_fits(op: WriteOpView) -> bool {
    match op {
        WriteOpView::Put { key, value } => key.len() <= u64::MAX && value.len() <= u64::MAX,
        WriteOpView::Delete { key } => key.len() <= u64::MAX,
    }
}

/// The writes of an encoded batch are read back from where they stand.
proof fn lemma_parse_encoded(data: Seq<u8>, pos: int, ops: Seq<WriteOpView>, i: int)
    requires
        0 <= i <= ops.len(),
        0 <= pos <= data.len(),
        data.subrange(pos, data.len() as int) == encode_ops_from(ops, i),
        forall|j: int| 0 <= j < ops.len() ==> op_fits(#[trigger] ops[j]),
    ensures
        parse_ops(data, pos, (ops.len() - i) as nat) == Some(ops.skip(i)),
    decreases ops.len() - i,
{
    let tail = data.subrange(pos, data.len() as int);
    if i == ops.len() {
        assert(tail.len() == 0);
        assert(ops.skip(i) =~= Seq::<WriteOpView>::empty());
    } else {
        let op = ops[i];
        let e = encode_op(op);
        let rest = encode_ops_from(ops, i + 1);
        assert(tail == e + rest);
        assert(op_fits(op));
        match op {
            WriteOpView::Put { key, value } => {
                let kl = key.len() as int;
                let vl = value.len() as int;
                lemma_u64_round_trip(kl as u64);
                lemma_u64_round_trip(vl as u64);
                assert(e.len() == 17 + kl + vl);
                assert(data[pos] == tail[0]);
                assert(data.subrange(pos + 1, pos + 9) =~= tail.subrange(1, 9));
                assert(tail.subrange(1, 9) =~= spec_u64_to_le_bytes(kl as u64));
                assert(data.subrange(pos + 9, pos + 9 + kl) =~= tail.subrange(9, 9 + kl));
                assert(tail.subrange(9, 9 + kl) =~= key);
                assert(data.subrange(pos + 9 + kl, pos + 17 + kl) =~= tail.subrange(
                    9 + kl,
                    17 + kl,
                ));
                assert(tail.subrange(9 + kl, 17 + kl) =~= spec_u64_to_le_bytes(vl as u64));
                assert(data.subrange(pos + 17 + kl, pos + 17 + kl + vl) =~= tail.subrange(
                    17 + kl,
                    17 + kl + vl,
                ));
                assert(tail.subrange(17 + kl, 17 + kl + vl) =~= value);
                let next = pos + 17 + kl + vl;
                assert(data.subrange(next, data.len() as int) =~= rest) by {
                    assert(data.subrange(next, data.len() as int) =~= tail.subrange(
                        e.len() as int,
                        tail.len() as int,
                    ));
                }
                lemma_parse_encoded(data, next, ops, i + 1);
            },
            WriteOpView::Delete { key } => {
                let kl = key.len() as int;
                lemma_u64_round_trip(kl as u64);
                assert(e.len() == 9 + kl);
                assert(data[pos] == tail[0]);
                assert(data.subrange(pos + 1, pos + 9) =~= tail.subrange(1, 9));
                assert(tail.subrange(1, 9) =~= spec_u64_to_le_bytes(kl as u64));
                assert(data.subrange(pos + 9, pos + 9 + kl) =~= tail.subrange(9, 9 + kl));
                assert(tail.subrange(9, 9 + kl) =~= key);
                let next = pos + 9 + kl;
                assert(data.subrange(next, data.len() as int) =~= rest) by {
                    assert(data.subrange(next, data.len() as int) =~= tail.subrange(
                        e.len() as int,
                        tail.len() as int,
                    ));
                }
                lemma_parse_encoded(data, next, ops, i + 1);
            },
        }
        assert(ops.skip(i) =~= seq![op] + ops.skip(i + 1));
    }
}

/// Decoding the log entry of a batch gives the batch back.
pub proof fn lemma_batch_round_trip(ops: Seq<WriteOpView>)
    requires
        ops.len() <= u64::MAX,
        forall|j: int| 0 <= j < ops.len() ==> op_fits(#[trigger] ops[j]),
    ensures
        encode_batch(ops).len() >= 9,
        decode_batch(encode_batch(ops)) == Some(ops),
{
    let data = encode_batch(ops);
    lemma_u64_round_trip(ops.len() as u64);
    assert(data.subrange(1, 9) =~= spec_u64_to_le_bytes(ops.len() as u64));
    assert(data.subrange(9, data.len() as int) =~= encode_ops_from(ops, 0));
    lemma_parse_encoded(data, 9, ops, 0);
    assert(ops.skip(0) =~= ops);
}

/// The writes that a list stands for.
pub open spec fn op_views(ops: Seq<WriteOp>) -> Seq<WriteOpView> {
    ops.map_values(|op: WriteOp| op@)
}

/// Appends the bytes of one write.
fn put_op(buf: &mut Vec<u8>, op: &WriteOp)
    ensures
        final(buf)@ == old(buf)@ + encode_op(op@),
{
    match op {
        WriteOp::Put { key, value } => {
            buf.push(1u8);
            put_u64_le(buf, key.len() as u64);
            append_bytes(buf, key.as_slice());
            put_u64_le(buf, value.len() as u64);
            append_bytes(buf, value.as_slice());
            assert(buf@ =~= old(buf)@ + encode_op(op@));
        },
        WriteOp::Delete { key } => {
            buf.push(0u8);
            put_u64_le(buf, key.len() as u64);
            append_bytes(buf, key.as_slice());
            assert(buf@ =~= old(buf)@ + encode_op(op@));
        },
    }
}

/// The log entry of a list of writes.
pub fn encode_ops(ops: &Vec<WriteOp>) -> (bytes: Vec<u8>)
    ensures
        bytes@ == encode_batch(op_views(ops@)),
{
    let ghost views = op_views(ops@);
    let mut buf: Vec<u8> = Vec::new();
    buf.push(BATCH_TAG);
    put_u64_le(&mut buf, ops.len() as u64);
    let ghost header = buf@;
    let mut i: usize = 0;
    proof {
        assert(buf@ + encode_ops_from(views, 0) =~= header + encode_ops_from(views, 0));
    }
    while i < ops.len()
        invariant
            i <= ops@.len(),
            views == op_views(ops@),
            buf@ + encode_ops_from(views, i as int) == header + encode_ops_from(views, 0),
        decreases ops@.len() - i,
    {
        let ghost before = buf@;
        put_op(&mut buf, &ops[i]);
        proof {
            assert(views[i as int] == ops@[i as int]@);
            assert(buf@ + encode_ops_from(views, i + 1) =~= before + encode_ops_from(
                views,
                i as int,
            ));
        }
        i += 1;
    }
    proof {
        assert(encode_ops_from(views, ops@.len() as int) =~= Seq::<u8>::empty());
        assert(buf@ =~= header + encode_ops_from(views, 0));
    }
    buf
}

/// The writes that a log entry stands for; a corruption error unless the
/// entry is exactly the bytes of a batch.
pub fn decode_ops(data: &[u8]) -> (r: Result<Vec<WriteOp>, Error>)
    ensures
        match r {
            Ok(ops) => decode_batch(data@) == Some(op_views(ops@)),
            Err(e) => decode_batch(data@) is None && e is Corruption,
        },
{
    let len = data.len();
    if len < 9 || data[0] != BATCH_TAG {
        return Err(Error::corruption("Log entry is no batch"));
    }
    let count = get_u64_le(data, 1);
    let mut ops: Vec<WriteOp> = Vec::new();
    let mut pos: usize = 9;
    let mut done: u64 = 0;
    proof {
        assert(op_views(ops@) =~= Seq::<WriteOpView>::empty());
        match parse_ops(data@, 9, count as nat) {
            Some(rest) => {
                assert(Seq::<WriteOpView>::empty() + rest =~= rest);
            },
            None => {},
        }
    }
    while done < count
        invariant
            len == data@.len(),
            9 <= pos <= len,
            done <= count,
            decode_batch(data@) == parse_ops(data@, 9, count as nat),
            parse_ops(data@, 9, count as nat) == match parse_ops(
                data@,
                pos as int,
                (count - done) as nat,
            ) {
                Some(rest) => Some(op_views(ops@) + rest),
                None => None,
            },
        decreases count - done,
    {
        if len - pos < 9 || data[pos] > 1 {
            return Err(Error::corruption("Malformed write in log entry"));
        }
        let kind = data[pos];
        let key_len = get_u64_le(data, pos + 1);
        if key_len > (len - pos - 9) as u64 {
            return Err(Error::corruption("Malformed write in log entry"));
        }
        let key_len = key_len as usize;
        let key = copy_range(data, pos + 9, pos + 9 + key_len);
        let ghost before = op_views(ops@);
        if kind == 0 {
            ops.push(WriteOp::Delete { key });
            pos = pos + 9 + key_len;
        } else {
            let at = pos + 9 + key_len;
            if len - at < 8 {
                return Err(Error::corruption("Malformed write in log entry"));
            }
            let value_len = get_u64_le(data, at);
            if value_len > (len - at - 8) as u64 {
                return Err(Error::corruption("Malformed write in log entry"));
            }
            let value_len = value_len as usize;
            let value = copy_range(data, at + 8, at + 8 + value_len);
            ops.push(WriteOp::Put { key, value });
            pos = at + 8 + value_len;
        }
        proof {
            let op = ops@[ops@.len() - 1]@;
            assert(op_views(ops@) =~= before.push(op));
            match parse_ops(data@, pos as int, (count - done - 1) as nat) {
                Some(rest) => {
                    assert(before + (seq![op] + rest) =~= before.push(op) + rest);
                },
                None => {},
            }
        }
        done += 1;
    }
    if pos != len {
        return Err(Error::corruption("Log entry longer than its batch"));
    }
    proof {
        assert(op_views(ops@) + Seq::<WriteOpView>::empty() =~= op_views(ops@));
    }
    Ok(ops)
}

impl WriteBatch {
    /// The log entry of the batch.
    pub fn encode(&self) -> (bytes: Vec<u8>)
        ensures
            bytes@ == encode_batch(self@),
    {
        encode_ops(&self.operations)
    }
}

} // verus!
