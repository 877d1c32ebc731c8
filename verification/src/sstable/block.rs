//! Blocks of key-value entries with prefix compression.
//!
//! An entry is three lengths of four bytes each (how many bytes of the key
//! it shares with the key before it, how many it does not share, and the
//! length of the value), the unshared end of the key, and the value. Every
//! few entries a restart point stores the whole key. The entries are followed
//! by the offsets of the restart points and by their number.

use vstd::prelude::*;
use vstd::bytes::*;
use crate::codec::{append_bytes, get_u32_le, lemma_u32_round_trip, put_u32_le};
use crate::error::Error;
use crate::key_order::{agree_below, common_prefix_len, key_less, key_lt, lemma_common_prefix_len, shared_prefix_len};

verus! {

/// A key with its value, as mathematical values.
pub struct KeyValue {
    pub key: Seq<u8>,
    pub value: Seq<u8>,
}

/// The bytes of one entry that shares `shared` bytes with the key before it.
pub open spec fn encode_entry(shared: nat, kv: KeyValue) -> Seq<u8> {
    spec_u32_to_le_bytes(shared as u32) + spec_u32_to_le_bytes((kv.key.len() - shared) as u32)
        + spec_u32_to_le_bytes(kv.value.len() as u32) + kv.key.skip(shared as int) + kv.value
}

/// How many entries have been added since the last restart point, after `n`
/// entries in all.
pub open spec fn counter_after(n: nat, interval: usize) -> nat
    decreases n,
{
    if n == 0 {
        0
    } else {
        let c = counter_after((n - 1) as nat, interval);
        if c >= interval {
            1
        } else {
            c + 1
        }
    }
}

/// Whether entry `i` opens a new restart point.
pub open spec fn starts_restart(i: nat, interval: usize) -> bool {
    counter_after(i, interval) >= interval
}

/// The number of bytes that entry `i` shares with the entry before it: none
/// for the first entry and at a restart point.
pub open spec fn shared_len(entries: Seq<KeyValue>, i: int, interval: usize) -> nat {
    if i <= 0 || starts_restart(i as nat, interval) {
        0
    } else {
        common_prefix_len(entries[i - 1].key, entries[i].key)
    }
}

/// The bytes of the entries, one after the other.
pub open spec fn encode_entries(entries: Seq<KeyValue>, interval: usize) -> Seq<u8>
    decreases entries.len(),
{
    if entries.len() == 0 {
        Seq::<u8>::empty()
    } else {
        encode_entries(entries.drop_last(), interval) + encode_entry(
            shared_len(entries, entries.len() - 1, interval),
            entries.last(),
        )
    }
}

/// The offsets of the restart points: offset 0, and the offset of every
/// entry that opens a new restart point.
pub open spec fn restart_points(entries: Seq<KeyValue>, interval: usize) -> Seq<u32>
    decreases entries.len(),
{
    if entries.len() == 0 {
        seq![0u32]
    } else {
        let before = restart_points(entries.drop_last(), interval);
        if starts_restart((entries.len() - 1) as nat, interval) {
            before.push(encode_entries(entries.drop_last(), interval).len() as u32)
        } else {
            before
        }
    }
}

/// The offsets as bytes, four for each.
pub open spec fn encode_restarts(points: Seq<u32>) -> Seq<u8>
    decreases points.len(),
{
    if points.len() == 0 {
        Seq::<u8>::empty()
    } else {
        encode_restarts(points.drop_last()) + spec_u32_to_le_bytes(points.last())
    }
}

/// The bytes of a block: the entries, the restart points, and the number of
/// restart points.
pub open spec fn encode_block(entries: Seq<KeyValue>, interval: usize) -> Seq<u8> {
    encode_entries(entries, interval) + encode_restarts(restart_points(entries, interval))
        + spec_u32_to_le_bytes(restart_points(entries, interval).len() as u32)
}

/// The size of a block with these entries.
pub open spec fn block_size(entries: Seq<KeyValue>, interval: usize) -> nat {
    encode_entries(entries, interval).len() + 4 * restart_points(entries, interval).len() + 4
}

/// Every length of the block fits into the four bytes it is stored in.
pub open spec fn encodable(entries: Seq<KeyValue>, interval: usize) -> bool {
    &&& block_size(entries, interval) <= u32::MAX
    &&& forall|i: int|
        0 <= i < entries.len() ==> (#[trigger] entries[i]).key.len() <= u32::MAX
            && entries[i].value.len() <= u32::MAX
}

/// Keys are not empty and strictly ascending.
pub open spec fn sorted_entries(entries: Seq<KeyValue>) -> bool {
    &&& forall|i: int| 0 <= i < entries.len() ==> (#[trigger] entries[i]).key.len() > 0
    &&& forall|i: int, j: int|
        0 <= i < j < entries.len() ==> key_lt((#[trigger] entries[i]).key, (#[trigger] entries[j]).key)
}

/// Entries in key order stay in key order when a larger key is added.
pub proof fn lemma_sorted_push(entries: Seq<KeyValue>, kv: KeyValue)
    requires
        sorted_entries(entries),
        kv.key.len() > 0,
        entries.len() > 0 ==> key_lt(entries.last().key, kv.key),
    ensures
        sorted_entries(entries.push(kv)),
{
    let after = entries.push(kv);
    assert forall|i: int, j: int| 0 <= i < j < after.len() implies key_lt(
        (#[trigger] after[i]).key,
        (#[trigger] after[j]).key,
    ) by {
        if j == after.len() - 1 {
            if i < entries.len() - 1 {
                assert(key_lt(entries[i].key, entries[entries.len() - 1].key));
                crate::key_order::lemma_key_lt_transitive(
                    entries[i].key,
                    entries.last().key,
                    kv.key,
                );
            }
        } else {
            assert(key_lt(entries[i].key, entries[j].key));
        }
    }
}

/// An entry read from a block, and where the next one starts.
pub struct ParsedEntry {
    pub key: Seq<u8>,
    pub value: Seq<u8>,
    pub next: int,
}

/// The entry at `pos`, given the key of the entry before it. `None` when
/// `pos` is not below `limit`, where the entries end, or when the block is
/// too short for what the entry announces.
pub open spec fn parse_entry(data: Seq<u8>, limit: int, pos: int, prev_key: Seq<u8>) -> Option<
    ParsedEntry,
> {
    if pos < 0 || pos >= limit || data.len() - pos < 12 {
        None
    } else {
        let shared = spec_u32_from_le_bytes(data.subrange(pos, pos + 4)) as int;
        let unshared = spec_u32_from_le_bytes(data.subrange(pos + 4, pos + 8)) as int;
        let value_len = spec_u32_from_le_bytes(data.subrange(pos + 8, pos + 12)) as int;
        if data.len() - pos < 12 + unshared + value_len {
            None
        } else {
            let kept = if shared <= prev_key.len() {
                prev_key.subrange(0, shared)
            } else {
                prev_key
            };
            Some(
                ParsedEntry {
                    key: kept + data.subrange(pos + 12, pos + 12 + unshared),
                    value: data.subrange(pos + 12 + unshared, pos + 12 + unshared + value_len),
                    next: pos + 12 + unshared + value_len,
                },
            )
        }
    }
}

/// Every entry from `pos` on, up to `limit` or the first entry that cannot
/// be read.
pub open spec fn parse_entries(data: Seq<u8>, limit: int, pos: int, prev_key: Seq<u8>) -> Seq<
    KeyValue,
>
    decreases (if pos < limit {
        limit - pos
    } else {
        0
    }),
{
    let parsed = parse_entry(data, limit, pos, prev_key);
    if parsed is None || parsed->0.next <= pos || limit <= pos {
        Seq::<KeyValue>::empty()
    } else {
        seq![KeyValue { key: parsed->0.key, value: parsed->0.value }] + parse_entries(
            data,
            limit,
            parsed->0.next,
            parsed->0.key,
        )
    }
}

/// Where the entries of a block end: `None` when the block is too short for
/// the restart points that its last four bytes announce.
pub open spec fn restart_offset_of(data: Seq<u8>) -> Option<int> {
    if data.len() < 4 {
        None
    } else {
        let n = spec_u32_from_le_bytes(data.subrange(data.len() - 4, data.len() as int)) as int;
        if 4 + 4 * n > data.len() {
            None
        } else {
            Some(data.len() - 4 - 4 * n)
        }
    }
}

/// The offset of the first restart point of a block: the four bytes where
/// the entries end.
pub open spec fn first_restart_of(data: Seq<u8>) -> int {
    let at = restart_offset_of(data)->0;
    spec_u32_from_le_bytes(data.subrange(at, at + 4)) as int
}

/// The entries of a block, read from its first restart point on.
pub open spec fn block_entries(data: Seq<u8>) -> Seq<KeyValue> {
    match restart_offset_of(data) {
        None => Seq::<KeyValue>::empty(),
        Some(limit) => parse_entries(data, limit, first_restart_of(data), Seq::<u8>::empty()),
    }
}

/// A block of entries, ready to be read.
#[derive(Debug, Clone)]
pub struct Block {
    data: Vec<u8>,
    restart_offset: usize,
    num_restarts: u32,
}

impl Block {
    /// The bytes of the block.
    pub closed spec fn bytes(&self) -> Seq<u8> {
        self.data@
    }

    /// The fields agree with the bytes.
    pub closed spec fn well_formed(&self) -> bool {
        &&& restart_offset_of(self.data@) == Some(self.restart_offset as int)
        &&& self.restart_offset + 4 * self.num_restarts + 4 == self.data@.len()
    }

    /// The entries of the block.
    pub open spec fn entries(&self) -> Seq<KeyValue> {
        block_entries(self.bytes())
    }

    /// A block over `data`. A corruption error when `data` is shorter than
    /// four bytes or too short for the restart points it announces.
    pub fn new(data: Vec<u8>) -> (r: Result<Self, Error>)
        ensures
            match r {
                Ok(b) => b.well_formed() && b.bytes() == data@ && restart_offset_of(data@) is Some,
                Err(e) => restart_offset_of(data@) is None && e is Corruption,
            },
    {
        let len = data.len();
        if len < 4 {
            return Err(Error::corruption("Block too small"));
        }
        let num_restarts = get_u32_le(data.as_slice(), len - 4);
        if (len - 4) / 4 < num_restarts as usize {
            return Err(Error::corruption("Invalid restart offset"));
        }
        let restart_offset = len - 4 - (num_restarts as usize) * 4;
        Ok(Block { data, restart_offset, num_restarts })
    }

    /// The number of restart points.
    pub fn num_restarts(&self) -> (n: u32)
        requires
            self.well_formed(),
        ensures
            n == spec_u32_from_le_bytes(
                self.bytes().subrange(self.bytes().len() - 4, self.bytes().len() as int),
            ),
    {
        let n = get_u32_le(self.data.as_slice(), self.data.len() - 4);
        n
    }

    /// The offset of the first restart point.
    fn first_restart_point(&self) -> (offset: u32)
        requires
            self.well_formed(),
        ensures
            offset == first_restart_of(self.data@),
    {
        get_u32_le(self.data.as_slice(), self.restart_offset)
    }

    /// An iterator over the entries of the block. It is not positioned:
    /// `seek_to_first` does that.
    pub fn iter(&self) -> (it: BlockIterator<'_>)
        requires
            self.well_formed(),
        ensures
            it.well_formed(),
            it.block() == *self,
            !it.is_valid(),
            it.position() == 0,
            it.current_key() == Seq::<u8>::empty(),
    {
        BlockIterator { block: self, current: 0, key: Vec::new(), value: Vec::new(), valid: false }
    }

    /// The bytes of the block.
    pub fn data(&self) -> (d: &[u8])
        ensures
            d@ == self.bytes(),
    {
        self.data.as_slice()
    }
}

/// Builds the bytes of a block from entries added in key order.
pub struct BlockBuilder {
    buffer: Vec<u8>,
    restarts: Vec<u32>,
    counter: usize,
    last_key: Vec<u8>,
    block_restart_interval: usize,
    added: Ghost<Seq<KeyValue>>,
}

impl BlockBuilder {
    /// The entries added so far.
    pub closed spec fn entries(&self) -> Seq<KeyValue> {
        self.added@
    }

    /// After how many entries a new restart point starts.
    pub closed spec fn interval(&self) -> usize {
        self.block_restart_interval
    }

    /// The buffers hold the encoding of the entries added so far.
    pub closed spec fn well_formed(&self) -> bool {
        &&& self.buffer@ == encode_entries(self.added@, self.block_restart_interval)
        &&& self.restarts@ == restart_points(self.added@, self.block_restart_interval)
        &&& self.counter == counter_after(self.added@.len(), self.block_restart_interval)
        &&& self.last_key@ == if self.added@.len() == 0 {
            Seq::<u8>::empty()
        } else {
            self.added@.last().key
        }
        &&& sorted_entries(self.added@)
        &&& encodable(self.added@, self.block_restart_interval)
        &&& self.restarts@.len() >= 1
        &&& self.restarts@[0] == 0
    }

    /// What a well-formed builder holds can be encoded, and is in key order.
    pub proof fn lemma_well_formed(&self)
        requires
            self.well_formed(),
        ensures
            encodable(self.entries(), self.interval()),
            sorted_entries(self.entries()),
    {
    }

    /// An empty builder that starts a restart point every
    /// `block_restart_interval` entries.
    pub fn new(block_restart_interval: usize) -> (b: Self)
        ensures
            b.well_formed(),
            b.entries() == Seq::<KeyValue>::empty(),
            b.interval() == block_restart_interval,
    {
        let mut restarts: Vec<u32> = Vec::new();
        restarts.push(0);
        BlockBuilder {
            buffer: Vec::new(),
            restarts,
            counter: 0,
            last_key: Vec::new(),
            block_restart_interval,
            added: Ghost(Seq::<KeyValue>::empty()),
        }
    }

    /// Adds an entry. The key must not be empty and must come after the key
    /// added before it, and the block must stay below four gigabytes.
    pub fn add(&mut self, key: &[u8], value: &[u8])
        requires
            old(self).well_formed(),
            key@.len() > 0,
            old(self).entries().len() > 0 ==> key_lt(old(self).entries().last().key, key@),
            block_size(old(self).entries(), old(self).interval()) + 16 + key@.len() + value@.len()
                <= u32::MAX,
        ensures
            final(self).well_formed(),
            final(self).interval() == old(self).interval(),
            final(self).entries() == old(self).entries().push(
                KeyValue { key: key@, value: value@ },
            ),
    {
        let ghost before = self.added@;
        let ghost kv = KeyValue { key: key@, value: value@ };
        let ghost after = before.push(kv);
        let ghost interval = self.block_restart_interval;
        let mut shared: usize = 0;
        proof {
            assert(after.drop_last() =~= before);
            assert(after.last() == kv);
            lemma_counter_bound(before.len(), interval);
        }
        if self.counter >= self.block_restart_interval {
            self.restarts.push(self.buffer.len() as u32);
            self.counter = 0;
            self.last_key.clear();
        } else if self.last_key.len() > 0 {
            shared = shared_prefix_len(self.last_key.as_slice(), key);
            proof {
                lemma_common_prefix_len(self.last_key@, key@);
            }
        }
        proof {
            assert(shared == shared_len(after, after.len() - 1, interval)) by {
                if before.len() > 0 && !starts_restart(before.len(), interval) {
                    assert(after[before.len() - 1] == before.last());
                }
            }
        }
        let unshared = key.len() - shared;
        put_u32_le(&mut self.buffer, shared as u32);
        put_u32_le(&mut self.buffer, unshared as u32);
        put_u32_le(&mut self.buffer, value.len() as u32);
        append_bytes(&mut self.buffer, vstd::slice::slice_subrange(key, shared, key.len()));
        append_bytes(&mut self.buffer, value);
        self.last_key.clear();
        append_bytes(&mut self.last_key, key);
        self.counter += 1;
        self.added = Ghost(after);
        proof {
            lemma_u32_round_trip(shared as u32);
            lemma_u32_round_trip(unshared as u32);
            lemma_u32_round_trip(value.len() as u32);
            assert(key@.subrange(shared as int, key@.len() as int) =~= key@.skip(shared as int));
            assert(self.buffer@ =~= encode_entries(before, interval) + encode_entry(
                shared as nat,
                kv,
            ));
            assert(self.last_key@ =~= key@);
            assert(sorted_entries(after)) by {
                assert forall|i: int, j: int| 0 <= i < j < after.len() implies key_lt(
                    (#[trigger] after[i]).key,
                    (#[trigger] after[j]).key,
                ) by {
                    if j == after.len() - 1 {
                        if i < before.len() - 1 {
                            assert(key_lt(before[i].key, before[before.len() - 1].key));
                            crate::key_order::lemma_key_lt_transitive(
                                before[i].key,
                                before.last().key,
                                key@,
                            );
                        }
                    } else {
                        assert(key_lt(before[i].key, before[j].key));
                    }
                }
            }
        }
    }

    /// The bytes of the block: the entries, the restart points and their
    /// number.
    pub fn finish(self) -> (bytes: Vec<u8>)
        requires
            self.well_formed(),
        ensures
            bytes@ == encode_block(self.entries(), self.interval()),
            bytes@.len() == block_size(self.entries(), self.interval()),
    {
        self.encoded()
    }

    /// The bytes that the block would have if it were finished now.
    pub fn encoded(&self) -> (bytes: Vec<u8>)
        requires
            self.well_formed(),
        ensures
            bytes@ == encode_block(self.entries(), self.interval()),
            bytes@.len() == block_size(self.entries(), self.interval()),
    {
        let mut buffer = crate::codec::copy_bytes(self.buffer.as_slice());
        let n = self.restarts.len();
        let mut i: usize = 0;
        proof {
            assert(self.restarts@.subrange(0, 0) =~= Seq::<u32>::empty());
            assert(buffer@ + Seq::<u8>::empty() =~= buffer@);
        }
        while i < n
            invariant
                n == self.restarts@.len(),
                i <= n,
                buffer@ == self.buffer@ + encode_restarts(self.restarts@.subrange(0, i as int)),
                encode_restarts(self.restarts@.subrange(0, i as int)).len() == 4 * i,
            decreases n - i,
        {
            put_u32_le(&mut buffer, self.restarts[i]);
            proof {
                let next = self.restarts@.subrange(0, i + 1);
                assert(next.drop_last() =~= self.restarts@.subrange(0, i as int));
                assert(next.last() == self.restarts@[i as int]);
                lemma_u32_round_trip(self.restarts@[i as int]);
                assert(buffer@ =~= self.buffer@ + encode_restarts(next));
            }
            i += 1;
        }
        proof {
            assert(self.restarts@.subrange(0, n as int) =~= self.restarts@);
            lemma_u32_round_trip(n as u32);
        }
        put_u32_le(&mut buffer, n as u32);
        buffer
    }

    /// The size that the block would have if it were finished now.
    pub fn current_size(&self) -> (n: usize)
        requires
            self.well_formed(),
        ensures
            n == block_size(self.entries(), self.interval()),
    {
        self.buffer.len() + self.restarts.len() * 4 + 4
    }

    /// Whether no entry has been added.
    pub fn is_empty(&self) -> (b: bool)
        requires
            self.well_formed(),
        ensures
            b == (self.entries().len() == 0),
    {
        proof {
            if self.added@.len() > 0 {
                lemma_u32_round_trip(
                    shared_len(self.added@, self.added@.len() - 1, self.block_restart_interval) as u32,
                );
            }
        }
        self.buffer.len() == 0
    }
}

/// The counter never passes the interval, or one.
pub proof fn lemma_counter_bound(n: nat, interval: usize)
    ensures
        counter_after(n, interval) <= interval || counter_after(n, interval) <= 1,
    decreases n,
{
    if n > 0 {
        lemma_counter_bound((n - 1) as nat, interval);
    }
}

/// Reads the entry at `pos` of a block whose entries end at `limit`. `key`
/// holds the key of the entry before it and receives the key of the entry;
/// `value` receives its value. Gives the offset behind the entry, or `None`,
/// with key and value untouched, when there is no entry to read.
pub fn read_entry_at(
    data: &[u8],
    limit: usize,
    pos: usize,
    key: &mut Vec<u8>,
    value: &mut Vec<u8>,
) -> (next: Option<usize>)
    ensures
        match parse_entry(data@, limit as int, pos as int, old(key)@) {
            Some(e) => next == Some(e.next as usize) && e.next <= usize::MAX && final(key)@
                == e.key && final(value)@ == e.value,
            None => next is None && final(key)@ == old(key)@ && final(value)@ == old(value)@,
        },
{
    let len = data.len();
    if pos >= limit {
        return None;
    }
    if pos > len || len - pos < 12 {
        return None;
    }
    let shared = get_u32_le(data, pos) as usize;
    let unshared = get_u32_le(data, pos + 4) as usize;
    let value_len = get_u32_le(data, pos + 8) as usize;
    let room = len - pos - 12;
    if unshared > room || value_len > room - unshared {
        return None;
    }
    let offset = pos + 12;
    key.truncate(shared);
    append_bytes(key, vstd::slice::slice_subrange(data, offset, offset + unshared));
    value.clear();
    append_bytes(
        value,
        vstd::slice::slice_subrange(data, offset + unshared, offset + unshared + value_len),
    );
    proof {
        assert(value@ =~= data@.subrange(offset + unshared, offset + unshared + value_len));
    }
    Some(offset + unshared + value_len)
}

/// An iterator over the entries of a block.
pub struct BlockIterator<'a> {
    block: &'a Block,
    current: usize,
    key: Vec<u8>,
    value: Vec<u8>,
    valid: bool,
}

impl<'a> BlockIterator<'a> {
    /// The block that is read.
    pub closed spec fn block(&self) -> Block {
        *self.block
    }

    /// The offset of the entry that `next` will read.
    pub closed spec fn position(&self) -> int {
        self.current as int
    }

    /// The key of the entry read last.
    pub closed spec fn current_key(&self) -> Seq<u8> {
        self.key@
    }

    /// The value of the entry read last.
    pub closed spec fn current_value(&self) -> Seq<u8> {
        self.value@
    }

    /// Whether the iterator is positioned.
    pub closed spec fn is_valid(&self) -> bool {
        self.valid
    }

    /// The block is well formed.
    pub closed spec fn well_formed(&self) -> bool {
        self.block.well_formed()
    }

    /// Where the entries of the block end.
    pub open spec fn limit(&self) -> int {
        restart_offset_of(self.block().bytes())->0
    }

    /// The entries that are still to be read.
    pub open spec fn remaining(&self) -> Seq<KeyValue> {
        if self.is_valid() {
            parse_entries(self.block().bytes(), self.limit(), self.position(), self.current_key())
        } else {
            Seq::<KeyValue>::empty()
        }
    }

    /// Puts the iterator before the first entry: `next` then reads it.
    pub fn seek_to_first(&mut self)
        requires
            old(self).well_formed(),
        ensures
            final(self).well_formed(),
            final(self).block() == old(self).block(),
            final(self).position() == first_restart_of(old(self).block().bytes()),
            final(self).current_key() == Seq::<u8>::empty(),
            final(self).current_value() == old(self).current_value(),
            final(self).is_valid() == (final(self).position() < final(self).limit()),
            final(self).remaining() == old(self).block().entries(),
    {
        self.key.clear();
        self.current = self.block.first_restart_point() as usize;
        self.valid = self.current < self.block.restart_offset;
    }

    /// Reads the next entry and says whether there was one. When there is
    /// none the iterator stops being valid and keeps key and value.
    pub fn next(&mut self) -> (found: bool)
        requires
            old(self).well_formed(),
        ensures
            final(self).well_formed(),
            final(self).block() == old(self).block(),
            final(self).position() <= usize::MAX,
            found == final(self).is_valid(),
            match (if old(self).is_valid() {
                parse_entry(
                    old(self).block().bytes(),
                    old(self).limit(),
                    old(self).position(),
                    old(self).current_key(),
                )
            } else {
                None
            }) {
                Some(e) => {
                    &&& found
                    &&& final(self).current_key() == e.key
                    &&& final(self).current_value() == e.value
                    &&& final(self).position() == e.next
                    &&& old(self).remaining() == seq![KeyValue { key: e.key, value: e.value }]
                        + final(self).remaining()
                },
                None => {
                    &&& !found
                    &&& final(self).current_key() == old(self).current_key()
                    &&& final(self).current_value() == old(self).current_value()
                    &&& final(self).position() == old(self).position()
                    &&& old(self).remaining() == Seq::<KeyValue>::empty()
                },
            },
    {
        if !self.valid {
            return false;
        }
        self.parse_next_entry();
        self.valid
    }

    /// Reads the entry at the current position.
    fn parse_next_entry(&mut self)
        requires
            old(self).well_formed(),
        ensures
            final(self).well_formed(),
            final(self).block() == old(self).block(),
            match parse_entry(
                old(self).block().bytes(),
                old(self).limit(),
                old(self).position(),
                old(self).current_key(),
            ) {
                Some(e) => {
                    &&& final(self).is_valid()
                    &&& final(self).current_key() == e.key
                    &&& final(self).current_value() == e.value
                    &&& final(self).position() == e.next
                },
                None => {
                    &&& !final(self).is_valid()
                    &&& final(self).current_key() == old(self).current_key()
                    &&& final(self).current_value() == old(self).current_value()
                    &&& final(self).position() == old(self).position()
                },
            },
    {
        match read_entry_at(
            self.block.data.as_slice(),
            self.block.restart_offset,
            self.current,
            &mut self.key,
            &mut self.value,
        ) {
            Some(next) => {
                self.current = next;
                self.valid = true;
            },
            None => {
                self.valid = false;
            },
        }
    }

    /// Whether the iterator is positioned at an entry.
    pub fn valid(&self) -> (b: bool)
        ensures
            b == self.is_valid(),
    {
        self.valid
    }

    /// The key of the current entry.
    pub fn key(&self) -> (k: &[u8])
        requires
            self.is_valid(),
        ensures
            k@ == self.current_key(),
    {
        self.key.as_slice()
    }

    /// The value of the current entry.
    pub fn value(&self) -> (v: &[u8])
        requires
            self.is_valid(),
        ensures
            v@ == self.current_value(),
    {
        self.value.as_slice()
    }
}

} // verus!
