//! Bloom filters with double hashing.
//!
//! A key is hashed twice with a seeded FNV-1a hash; the `i`-th probe is the
//! bit `h1 + i * h2` modulo the number of bits. A key may be in the set only
//! if every probed bit is set.

use vstd::prelude::*;
use vstd::bytes::*;
use crate::codec::{append_bytes, copy_range, get_u32_le, get_u64_le, lemma_u32_round_trip, lemma_u64_round_trip, put_u32_le, put_u64_le};
use crate::error::Error;
use crate::filter::Filter;

verus! {

/// Bits per key when nothing else is asked for.
pub const DEFAULT_BITS_PER_KEY: usize = 10;

/// Seed of the first hash.
pub const FIRST_SEED: u32 = 0xbc9f1d34;

/// Seed of the second hash.
pub const SECOND_SEED: u32 = 0xd0e89c7b;

/// Start value of the FNV-1a hash.
pub const FNV_OFFSET_BASIS: u64 = 0xcbf29ce484222325;

/// Multiplier of the FNV-1a hash.
pub const FNV_PRIME: u64 = 0x100000001b3;

/// One step of FNV-1a: mix the byte in, then multiply, keeping 64 bits.
pub open spec fn fnv_step(state: u64, byte: u8) -> u64 {
    (((state ^ (byte as u64)) * FNV_PRIME) % 0x1_0000_0000_0000_0000) as u64
}

/// FNV-1a over a byte string, from the given state on.
pub open spec fn fnv_fold(state: u64, bytes: Seq<u8>) -> u64
    decreases bytes.len(),
{
    if bytes.len() == 0 {
        state
    } else {
        fnv_step(fnv_fold(state, bytes.drop_last()), bytes.last())
    }
}

/// The seeded hash of a key: FNV-1a over the length of the key, as eight
/// little-endian bytes, and then the key, cut to 32 bits.
pub open spec fn seeded_hash(key: Seq<u8>, seed: u32) -> u32 {
    (fnv_fold(
        fnv_fold(FNV_OFFSET_BASIS ^ (seed as u64), spec_u64_to_le_bytes(key.len() as u64)),
        key,
    ) % 0x1_0000_0000) as u32
}

/// The bit that the `i`-th probe of a key looks at, in a filter of
/// `num_bits` bits.
pub open spec fn probe(key: Seq<u8>, i: u32, num_bits: usize) -> usize {
    let h1 = seeded_hash(key, FIRST_SEED) as int;
    let h2 = seeded_hash(key, SECOND_SEED) as int;
    let h = (h1 + ((i * h2) % 0x1_0000_0000)) % 0x1_0000_0000;
    if num_bits == 0 {
        0
    } else {
        (h % (num_bits as int)) as usize
    }
}

/// Whether one of the first `count` probes of a key looks at bit `pos`.
pub open spec fn probed(key: Seq<u8>, count: u32, num_bits: usize, pos: usize) -> bool {
    exists|j: u32| j < count && #[trigger] probe(key, j, num_bits) == pos
}

/// Whether bit `pos` is set in the bit array.
pub open spec fn bit_is_set(bits: Seq<u8>, num_bits: usize, pos: usize) -> bool {
    pos < num_bits && pos / 8 < bits.len() && bits[pos as int / 8] & (1u8 << ((pos % 8) as u8)) != 0
}

/// A bloom filter as a mathematical value.
pub struct BloomFilterView {
    pub bits: Seq<u8>,
    pub num_hashes: u32,
    pub num_bits: usize,
}

impl BloomFilterView {
    /// Whether every bit that `key` probes is set.
    pub open spec fn may_contain(self, key: Seq<u8>) -> bool {
        forall|i: u32|
            0 <= i < self.num_hashes ==> bit_is_set(
                self.bits,
                self.num_bits,
                #[trigger] probe(key, i, self.num_bits),
            )
    }

    /// The bit array has one byte for every eight bits, and the number of
    /// its bytes can be counted.
    pub open spec fn well_formed(self) -> bool {
        self.bits.len() == (self.num_bits + 7) / 8 && self.num_bits <= usize::MAX - 7
    }
}

/// The bytes of a filter: the number of hashes (four bytes), the number of
/// bits (eight bytes), and the bit array.
pub open spec fn encode_filter(f: BloomFilterView) -> Seq<u8> {
    spec_u32_to_le_bytes(f.num_hashes) + spec_u64_to_le_bytes(f.num_bits as u64) + f.bits
}

/// The filter that bytes stand for: `None` when the header is incomplete or
/// the bit array does not have the length that the number of bits asks for.
pub open spec fn decode_filter(data: Seq<u8>) -> Option<BloomFilterView> {
    if data.len() < 12 {
        None
    } else {
        let num_hashes = spec_u32_from_le_bytes(data.subrange(0, 4));
        let num_bits = spec_u64_from_le_bytes(data.subrange(4, 12));
        if num_bits > usize::MAX - 7 || data.len() != 12 + (num_bits + 7) / 8 {
            None
        } else {
            Some(
                BloomFilterView {
                    bits: data.subrange(12, data.len() as int),
                    num_hashes,
                    num_bits: num_bits as usize,
                },
            )
        }
    }
}

/// Decoding an encoded filter gives the filter back: the same number of
/// hashes, the same number of bits and the same bit array, so that it
/// answers for every key as the filter did.
pub proof fn lemma_filter_round_trip(f: BloomFilterView)
    requires
        f.well_formed(),
    ensures
        decode_filter(encode_filter(f)) == Some(f),
{
    lemma_u32_round_trip(f.num_hashes);
    lemma_u64_round_trip(f.num_bits as u64);
    let e = encode_filter(f);
    assert(e.subrange(0, 4) =~= spec_u32_to_le_bytes(f.num_hashes));
    assert(e.subrange(4, 12) =~= spec_u64_to_le_bytes(f.num_bits as u64));
    assert(e.subrange(12, e.len() as int) =~= f.bits);
}

/// The number of hashes for a given number of bits per key: 0.69 times the
/// bits per key, rounded to the nearest whole number, and kept between 1
/// and 30.
pub open spec fn hashes_for_bits_per_key(bits_per_key: usize) -> u32 {
    if bits_per_key >= 45 {
        30
    } else if (bits_per_key * 69 + 50) / 100 < 1 {
        1
    } else {
        ((bits_per_key * 69 + 50) / 100) as u32
    }
}

/// The false-positive rate that `bits` bits per key give with the best
/// number of hashes, in millionths of a millionth: the rate falls by the
/// factor 0.6185 with every bit.
pub open spec fn rate_after(bits: nat) -> nat
    decreases bits,
{
    if bits == 0 {
        1000000000000
    } else {
        rate_after((bits - 1) as nat) * 6185 / 10000
    }
}

/// The smallest number of bits per key, from `bits` on and at most 64,
/// whose false-positive rate is not above `ppm` parts per million.
pub open spec fn bits_for_rate(ppm: u32, bits: nat) -> nat
    decreases 64 - bits,
{
    if bits >= 64 || rate_after(bits) <= ppm * 1000000 {
        bits
    } else {
        bits_for_rate(ppm, bits + 1)
    }
}

/// The rate never rises above one.
pub proof fn lemma_rate_bound(bits: nat)
    ensures
        rate_after(bits) <= 1000000000000,
    decreases bits,
{
    if bits > 0 {
        lemma_rate_bound((bits - 1) as nat);
    }
}

/// A bloom filter.
#[derive(Debug, Clone)]
pub struct BloomFilter {
    /// The bit array.
    bits: Vec<u8>,
    /// Number of probes per key.
    num_hashes: u32,
    /// Number of bits.
    num_bits: usize,
}

impl View for BloomFilter {
    type V = BloomFilterView;

    closed spec fn view(&self) -> BloomFilterView {
        BloomFilterView { bits: self.bits@, num_hashes: self.num_hashes, num_bits: self.num_bits }
    }
}

/// Setting one bit of a byte sets that bit, clears none and sets no other.
proof fn lemma_set_bit(b: u8, s: u8, t: u8)
    requires
        s < 8,
        t < 8,
    ensures
        (b | (1u8 << s)) & (1u8 << s) != 0,
        b & (1u8 << t) != 0 ==> (b | (1u8 << s)) & (1u8 << t) != 0,
        (b | (1u8 << s)) & (1u8 << t) != 0 && t != s ==> b & (1u8 << t) != 0,
{
    assert((b | (1u8 << s)) & (1u8 << t) != 0 && t != s ==> b & (1u8 << t) != 0) by (bit_vector)
        requires
            s < 8,
            t < 8,
    ;
    assert((b | (1u8 << s)) & (1u8 << s) != 0) by (bit_vector)
        requires
            s < 8,
    ;
    assert(b & (1u8 << t) != 0 ==> (b | (1u8 << s)) & (1u8 << t) != 0) by (bit_vector)
        requires
            s < 8,
            t < 8,
    ;
}

impl BloomFilter {
    /// The bit array has one byte for every eight bits.
    pub open spec fn well_formed(&self) -> bool {
        self@.well_formed()
    }

    /// A filter for `num_keys` keys with `bits_per_key` bits for each, and at
    /// least 64 bits in all.
    pub fn with_bits_per_key(num_keys: usize, bits_per_key: usize) -> (f: Self)
        requires
            num_keys * bits_per_key <= usize::MAX - 7,
        ensures
            f.well_formed(),
            f@.num_bits == if num_keys * bits_per_key < 64 {
                64
            } else {
                num_keys * bits_per_key
            },
            f@.num_hashes == hashes_for_bits_per_key(bits_per_key),
            forall|i: int| 0 <= i < f@.bits.len() ==> f@.bits[i] == 0,
    {
        let product = num_keys * bits_per_key;
        let num_bits = if product < 64 {
            64
        } else {
            product
        };
        let num_hashes: u32 = if bits_per_key >= 45 {
            30
        } else {
            let rounded = (bits_per_key * 69 + 50) / 100;
            if rounded < 1 {
                1
            } else {
                rounded as u32
            }
        };
        Self::with_bits_and_hashes(num_bits, num_hashes)
    }

    /// The bits per key that a target false-positive rate asks for, the
    /// rate given in parts per million: the smallest number of bits, at
    /// least 1 and at most 64, whose rate is not above the target.
    pub fn bits_per_key_for_rate(ppm: u32) -> (bits: usize)
        ensures
            bits == bits_for_rate(ppm, 1),
            1 <= bits <= 64,
    {
        let target: u64 = ppm as u64 * 1000000;
        let mut rate: u64 = 618500000000;
        let mut bits: usize = 1;
        proof {
            assert(rate_after(1) == 618500000000) by {
                reveal_with_fuel(rate_after, 2);
            }
        }
        while bits < 64 && rate > target
            invariant
                1 <= bits <= 64,
                rate == rate_after(bits as nat),
                target == ppm * 1000000,
                bits_for_rate(ppm, 1) == bits_for_rate(ppm, bits as nat),
            decreases 64 - bits,
        {
            proof {
                lemma_rate_bound(bits as nat);
            }
            rate = rate * 6185 / 10000;
            bits += 1;
        }
        bits
    }

    /// A filter for `num_keys` keys with ten bits for each.
    pub fn default_with_keys(num_keys: usize) -> (f: Self)
        requires
            num_keys * DEFAULT_BITS_PER_KEY <= usize::MAX - 7,
        ensures
            f.well_formed(),
            f@.num_bits == if num_keys * DEFAULT_BITS_PER_KEY < 64 {
                64
            } else {
                num_keys * DEFAULT_BITS_PER_KEY
            },
            f@.num_hashes == 7,
            forall|i: int| 0 <= i < f@.bits.len() ==> f@.bits[i] == 0,
    {
        Self::with_bits_per_key(num_keys, DEFAULT_BITS_PER_KEY)
    }

    /// An empty filter of `num_bits` bits that probes `num_hashes` bits for
    /// each key.
    pub fn with_bits_and_hashes(num_bits: usize, num_hashes: u32) -> (f: Self)
        requires
            num_bits <= usize::MAX - 7,
        ensures
            f.well_formed(),
            f@.num_bits == num_bits,
            f@.num_hashes == num_hashes,
            forall|i: int| 0 <= i < f@.bits.len() ==> f@.bits[i] == 0,
    {
        let num_bytes = (num_bits + 7) / 8;
        let mut bits: Vec<u8> = Vec::new();
        let mut i: usize = 0;
        while i < num_bytes
            invariant
                i <= num_bytes,
                bits@.len() == i,
                forall|k: int| 0 <= k < bits@.len() ==> bits@[k] == 0,
            decreases num_bytes - i,
        {
            bits.push(0u8);
            i += 1;
        }
        BloomFilter { bits, num_hashes, num_bits }
    }

    /// The bits that a key probes, in the order of the probes.
    pub fn hash_values(&self, key: &[u8]) -> (positions: Vec<usize>)
        ensures
            positions@.len() == self@.num_hashes,
            forall|i: u32|
                0 <= i < self@.num_hashes ==> positions@[i as int] == #[trigger] probe(
                    key@,
                    i,
                    self@.num_bits,
                ),
    {
        let h1 = self.hash_with_seed(key, FIRST_SEED);
        let h2 = self.hash_with_seed(key, SECOND_SEED);
        let mut hashes: Vec<usize> = Vec::new();
        let mut i: u32 = 0;
        while i < self.num_hashes
            invariant
                i <= self.num_hashes,
                h1 == seeded_hash(key@, FIRST_SEED),
                h2 == seeded_hash(key@, SECOND_SEED),
                hashes@.len() == i,
                forall|j: u32|
                    0 <= j < i ==> hashes@[j as int] == #[trigger] probe(key@, j, self.num_bits),
            decreases self.num_hashes - i,
        {
            let hash: u32 = h1.wrapping_add(i.wrapping_mul(h2));
            let pos: usize = if self.num_bits == 0 {
                0
            } else {
                (hash as usize) % self.num_bits
            };
            proof {
                assert(pos == probe(key@, i, self.num_bits));
            }
            hashes.push(pos);
            i += 1;
        }
        hashes
    }

    /// The seeded hash of a key.
    pub fn hash_with_seed(&self, key: &[u8], seed: u32) -> (h: u32)
        ensures
            h == seeded_hash(key@, seed),
    {
        let mut hasher = FnvHasher::new_with_seed(seed);
        let len_bytes = u64_to_le_bytes(key.len() as u64);
        hasher.write(len_bytes.as_slice());
        hasher.write(key);
        (hasher.finish() % 0x1_0000_0000) as u32
    }

    /// Sets bit `pos`; does nothing when there is no such bit.
    fn set_bit(&mut self, pos: usize)
        requires
            old(self).well_formed(),
        ensures
            final(self).well_formed(),
            final(self)@.num_bits == old(self)@.num_bits,
            final(self)@.num_hashes == old(self)@.num_hashes,
            pos < old(self)@.num_bits ==> bit_is_set(final(self)@.bits, final(self)@.num_bits, pos),
            forall|p: usize|
                bit_is_set(old(self)@.bits, old(self)@.num_bits, p) ==> bit_is_set(
                    final(self)@.bits,
                    final(self)@.num_bits,
                    p,
                ),
            forall|p: usize| #[trigger]
                bit_is_set(final(self)@.bits, final(self)@.num_bits, p) ==> p == pos || bit_is_set(
                    old(self)@.bits,
                    old(self)@.num_bits,
                    p,
                ),
    {
        if pos < self.num_bits {
            let index = pos / 8;
            let shift = (pos % 8) as u8;
            let byte = self.bits[index];
            self.bits.set(index, byte | (1u8 << shift));
            proof {
                lemma_set_bit(byte, shift, shift);
                assert forall|p: usize|
                    bit_is_set(old(self)@.bits, old(self)@.num_bits, p) implies bit_is_set(
                    self@.bits,
                    self@.num_bits,
                    p,
                ) by {
                    if p / 8 == index {
                        lemma_set_bit(byte, shift, (p % 8) as u8);
                    }
                }
                assert forall|p: usize| #[trigger]
                    bit_is_set(self@.bits, self@.num_bits, p) implies p == pos || bit_is_set(
                    old(self)@.bits,
                    old(self)@.num_bits,
                    p,
                ) by {
                    if p / 8 == index && p != pos {
                        lemma_set_bit(byte, shift, (p % 8) as u8);
                    }
                }
            }
        }
    }

    /// Whether bit `pos` is set; `false` when there is no such bit.
    fn is_bit_set(&self, pos: usize) -> (set: bool)
        requires
            self.well_formed(),
        ensures
            set == bit_is_set(self@.bits, self@.num_bits, pos),
    {
        if pos < self.num_bits {
            (self.bits[pos / 8] & (1u8 << ((pos % 8) as u8))) != 0
        } else {
            false
        }
    }

    /// Whether the bit array has one byte for every eight bits, and the
    /// number of its bytes can be counted.
    fn has_whole_bit_array(&self) -> (b: bool)
        ensures
            b == self.well_formed(),
    {
        if self.num_bits > usize::MAX - 7 {
            return false;
        }
        let whole = self.num_bits / 8;
        if self.num_bits % 8 == 0 {
            self.bits.len() == whole
        } else {
            self.bits.len() > 0 && self.bits.len() - 1 == whole
        }
    }

    /// The size of the bit array in bytes.
    pub fn size(&self) -> (n: usize)
        ensures
            n == self@.bits.len(),
    {
        self.bits.len()
    }

    /// The number of probes per key.
    pub fn num_hashes(&self) -> (n: u32)
        ensures
            n == self@.num_hashes,
    {
        self.num_hashes
    }

    /// The number of bits.
    pub fn num_bits(&self) -> (n: usize)
        ensures
            n == self@.num_bits,
    {
        self.num_bits
    }

    /// Whether `key` may have been added: `false` as soon as one probed bit
    /// is not set.
    pub fn may_contain(&self, key: &[u8]) -> (b: bool)
        requires
            self.well_formed(),
        ensures
            b == self@.may_contain(key@),
    {
        let hashes = self.hash_values(key);
        let mut i: usize = 0;
        while i < hashes.len()
            invariant
                self.well_formed(),
                i <= hashes@.len(),
                hashes@.len() == self@.num_hashes,
                forall|j: u32|
                    0 <= j < self@.num_hashes ==> hashes@[j as int] == #[trigger] probe(
                        key@,
                        j,
                        self@.num_bits,
                    ),
                forall|j: u32|
                    0 <= j < i ==> bit_is_set(
                        self@.bits,
                        self@.num_bits,
                        #[trigger] probe(key@, j, self@.num_bits),
                    ),
            decreases hashes@.len() - i,
        {
            if !self.is_bit_set(hashes[i]) {
                proof {
                    assert(hashes@[i as int] == probe(key@, i as u32, self@.num_bits));
                }
                return false;
            }
            proof {
                assert(hashes@[i as int] == probe(key@, i as u32, self@.num_bits));
            }
            i += 1;
        }
        true
    }

    /// Adds `key`: sets the bits that it probes, and no others. Keys that
    /// the filter may have contained it may still contain.
    pub fn add(&mut self, key: &[u8])
        requires
            old(self).well_formed(),
        ensures
            final(self).well_formed(),
            final(self)@.num_bits == old(self)@.num_bits,
            final(self)@.num_hashes == old(self)@.num_hashes,
            final(self)@.num_bits > 0 ==> final(self)@.may_contain(key@),
            forall|k: Seq<u8>| old(self)@.may_contain(k) ==> final(self)@.may_contain(k),
            forall|p: usize|
                bit_is_set(old(self)@.bits, old(self)@.num_bits, p) ==> bit_is_set(
                    final(self)@.bits,
                    final(self)@.num_bits,
                    p,
                ),
            forall|p: usize| #[trigger]
                bit_is_set(final(self)@.bits, final(self)@.num_bits, p) <==> bit_is_set(
                    old(self)@.bits,
                    old(self)@.num_bits,
                    p,
                ) || (p < old(self)@.num_bits && probed(key@, old(self)@.num_hashes, old(self)@.num_bits, p)),
    {
        let hashes = self.hash_values(key);
        let mut i: usize = 0;
        while i < hashes.len()
            invariant
                self.well_formed(),
                self@.num_bits == old(self)@.num_bits,
                self@.num_hashes == old(self)@.num_hashes,
                i <= hashes@.len(),
                hashes@.len() == self@.num_hashes,
                forall|j: u32|
                    0 <= j < self@.num_hashes ==> hashes@[j as int] == #[trigger] probe(
                        key@,
                        j,
                        self@.num_bits,
                    ),
                self@.num_bits > 0 ==> forall|j: u32|
                    0 <= j < i ==> bit_is_set(
                        self@.bits,
                        self@.num_bits,
                        #[trigger] probe(key@, j, self@.num_bits),
                    ),
                forall|p: usize|
                    bit_is_set(old(self)@.bits, old(self)@.num_bits, p) ==> bit_is_set(
                        self@.bits,
                        self@.num_bits,
                        p,
                    ),
                forall|p: usize| #[trigger]
                    bit_is_set(self@.bits, self@.num_bits, p) ==> bit_is_set(
                        old(self)@.bits,
                        old(self)@.num_bits,
                        p,
                    ) || probed(key@, i as u32, self@.num_bits, p),
                self@.num_bits > 0 ==> forall|p: usize|
                    p < self@.num_bits && #[trigger] probed(key@, i as u32, self@.num_bits, p)
                        ==> bit_is_set(self@.bits, self@.num_bits, p),
            decreases hashes@.len() - i,
        {
            let ghost before = self@;
            proof {
                assert(hashes@[i as int] == probe(key@, i as u32, self@.num_bits));
            }
            self.set_bit(hashes[i]);
            proof {
                let target = probe(key@, i as u32, before.num_bits);
                assert forall|p: usize| #[trigger]
                    bit_is_set(self@.bits, self@.num_bits, p) implies bit_is_set(
                    old(self)@.bits,
                    old(self)@.num_bits,
                    p,
                ) || probed(key@, (i + 1) as u32, self@.num_bits, p) by {
                    if p == target {
                        assert(probe(key@, i as u32, self@.num_bits) == p);
                    } else {
                        assert(bit_is_set(before.bits, before.num_bits, p));
                        if probed(key@, i as u32, self@.num_bits, p) {
                            let j = choose|j: u32|
                                j < i as u32 && probe(key@, j, self@.num_bits) == p;
                            assert(j < (i + 1) as u32 && probe(key@, j, self@.num_bits) == p);
                        }
                    }
                }
                if self@.num_bits > 0 {
                    assert forall|p: usize|
                        p < self@.num_bits && #[trigger] probed(
                            key@,
                            (i + 1) as u32,
                            self@.num_bits,
                            p,
                        ) implies bit_is_set(self@.bits, self@.num_bits, p) by {
                        let j = choose|j: u32|
                            j < (i + 1) as u32 && probe(key@, j, self@.num_bits) == p;
                        if j < i as u32 {
                            assert(probed(key@, i as u32, self@.num_bits, p));
                            assert(bit_is_set(before.bits, before.num_bits, p));
                        }
                    }
                }
            }
            i += 1;
        }
        proof {
            if self@.num_bits == 0 {
                assert forall|p: usize| !bit_is_set(self@.bits, self@.num_bits, p) by {}
            }
        }
    }

    /// The filter as bytes.
    pub fn encode(&self) -> (bytes: Vec<u8>)
        ensures
            bytes@ == encode_filter(self@),
    {
        let mut encoded: Vec<u8> = Vec::new();
        put_u32_le(&mut encoded, self.num_hashes);
        put_u64_le(&mut encoded, self.num_bits as u64);
        append_bytes(&mut encoded, self.bits.as_slice());
        encoded
    }

    /// The filter that bytes stand for. A corruption error when the header
    /// is incomplete or the bit array does not have the length that the
    /// number of bits asks for.
    pub fn decode(data: &[u8]) -> (r: Result<Self, Error>)
        ensures
            match r {
                Ok(f) => decode_filter(data@) == Some(f@) && f.well_formed(),
                Err(e) => decode_filter(data@) is None && e is Corruption,
            },
    {
        if data.len() < 12 {
            return Err(Error::corruption("Bloom filter data too short"));
        }
        let num_hashes = get_u32_le(data, 0);
        let num_bits = get_u64_le(data, 4);
        if num_bits > (usize::MAX - 7) as u64 {
            return Err(Error::corruption("Bloom filter size mismatch"));
        }
        let expected_bytes = (num_bits as usize + 7) / 8;
        if data.len() - 12 != expected_bytes {
            return Err(Error::corruption("Bloom filter size mismatch"));
        }
        let bits = copy_range(data, 12, data.len());
        Ok(BloomFilter { bits, num_hashes, num_bits: num_bits as usize })
    }
}

impl Filter for BloomFilter {
    fn may_contain(&self, key: &[u8]) -> (b: bool)
        ensures
            self.well_formed() ==> b == self@.may_contain(key@),
    {
        if self.has_whole_bit_array() {
            BloomFilter::may_contain(self, key)
        } else {
            false
        }
    }

    fn add(&mut self, key: &[u8])
        ensures
            old(self).well_formed() ==> final(self).well_formed() && (final(self)@.may_contain(
                key@,
            ) || final(self)@.num_bits == 0),
    {
        if self.has_whole_bit_array() {
            BloomFilter::add(self, key)
        }
    }

    fn encode(&self) -> (bytes: Vec<u8>)
        ensures
            bytes@ == encode_filter(self@),
    {
        BloomFilter::encode(self)
    }

    fn decode(data: &[u8]) -> (r: Result<Self, Error>)
        ensures
            match r {
                Ok(f) => decode_filter(data@) == Some(f@) && f.well_formed(),
                Err(e) => decode_filter(data@) is None && e is Corruption,
            },
    {
        BloomFilter::decode(data)
    }
}

/// The FNV-1a hash, started from a seeded state.
pub struct FnvHasher {
    state: u64,
}

impl FnvHasher {
    /// The state of the hash.
    pub closed spec fn spec_state(&self) -> u64 {
        self.state
    }

    /// A hasher whose start value is mixed with `seed`.
    pub fn new_with_seed(seed: u32) -> (h: Self)
        ensures
            h.spec_state() == FNV_OFFSET_BASIS ^ (seed as u64),
    {
        FnvHasher { state: FNV_OFFSET_BASIS ^ (seed as u64) }
    }

    /// The hash of everything written so far.
    pub fn finish(&self) -> (h: u64)
        ensures
            h == self.spec_state(),
    {
        self.state
    }

    /// Mixes `bytes` into the hash, one after the other.
    pub fn write(&mut self, bytes: &[u8])
        ensures
            final(self).spec_state() == fnv_fold(old(self).spec_state(), bytes@),
    {
        let n = bytes.len();
        let mut i: usize = 0;
        proof {
            assert(bytes@.subrange(0, 0) =~= Seq::<u8>::empty());
        }
        while i < n
            invariant
                n == bytes@.len(),
                i <= n,
                self.state == fnv_fold(old(self).state, bytes@.subrange(0, i as int)),
            decreases n - i,
        {
            let ghost before = self.state;
            self.state = self.state ^ (bytes[i] as u64);
            self.state = self.state.wrapping_mul(FNV_PRIME);
            proof {
                let next = bytes@.subrange(0, i + 1);
                assert(next.drop_last() =~= bytes@.subrange(0, i as int));
                assert(next.last() == bytes@[i as int]);
                assert(self.state == fnv_step(before, bytes@[i as int]));
            }
            i += 1;
        }
        proof {
            assert(bytes@.subrange(0, n as int) =~= bytes@);
        }
    }
}

} // verus!
