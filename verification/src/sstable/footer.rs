//! Block handles and the footer of a table file.

use vstd::prelude::*;
use vstd::bytes::*;
use crate::codec::{append_bytes, get_u64_le, lemma_u64_round_trip, put_u64_le};
use crate::error::Error;
use crate::sstable::MAGIC_NUMBER;

verus! {

/// Where a block lies in a table file: its offset and the number of bytes
/// stored for it.
#[derive(Debug, Clone, Copy, PartialEq, Eq, Structural)]
pub struct BlockHandle {
    /// Offset of the block in the file.
    pub offset: u64,
    /// Number of bytes stored for the block.
    pub size: u64,
}

/// The sixteen bytes of a handle: offset and size, little-endian.
pub open spec fn encode_handle(h: BlockHandle) -> Seq<u8> {
    spec_u64_to_le_bytes(h.offset) + spec_u64_to_le_bytes(h.size)
}

/// The handle that the first sixteen bytes of `data` stand for.
pub open spec fn decode_handle(data: Seq<u8>) -> Option<BlockHandle> {
    if data.len() < 16 {
        None
    } else {
        Some(
            BlockHandle {
                offset: spec_u64_from_le_bytes(data.subrange(0, 8)),
                size: spec_u64_from_le_bytes(data.subrange(8, 16)),
            },
        )
    }
}

/// Decoding an encoded handle gives the handle back.
pub proof fn lemma_handle_round_trip(h: BlockHandle)
    ensures
        encode_handle(h).len() == 16,
        decode_handle(encode_handle(h)) == Some(h),
{
    lemma_u64_round_trip(h.offset);
    lemma_u64_round_trip(h.size);
    let e = encode_handle(h);
    assert(e.subrange(0, 8) =~= spec_u64_to_le_bytes(h.offset));
    assert(e.subrange(8, 16) =~= spec_u64_to_le_bytes(h.size));
}

impl BlockHandle {
    /// A handle for the block of `size` bytes at `offset`.
    pub fn new(offset: u64, size: u64) -> (h: Self)
        ensures
            h == (BlockHandle { offset, size }),
    {
        BlockHandle { offset, size }
    }

    /// The handle as sixteen bytes.
    pub fn encode(&self) -> (bytes: Vec<u8>)
        ensures
            bytes@ == encode_handle(*self),
            bytes@.len() == 16,
    {
        let mut buf: Vec<u8> = Vec::new();
        put_u64_le(&mut buf, self.offset);
        put_u64_le(&mut buf, self.size);
        proof {
            lemma_handle_round_trip(*self);
        }
        buf
    }

    /// The handle in the first sixteen bytes of `data`; a corruption error
    /// when there are fewer.
    pub fn decode(data: &[u8]) -> (r: Result<Self, Error>)
        ensures
            match r {
                Ok(h) => decode_handle(data@) == Some(h),
                Err(e) => decode_handle(data@) is None && e is Corruption,
            },
    {
        if data.len() < 16 {
            return Err(Error::corruption("BlockHandle too short"));
        }
        let offset = get_u64_le(data, 0);
        let size = get_u64_le(data, 8);
        Ok(BlockHandle { offset, size })
    }

    /// The offset of the first byte behind the block.
    pub fn end_offset(&self) -> (end: u64)
        requires
            self.offset + self.size <= u64::MAX,
        ensures
            end == self.offset + self.size,
    {
        self.offset + self.size
    }
}

/// The last 48 bytes of a table file: where the meta-index block and the
/// index block lie, eight bytes of padding, and the magic number.
#[derive(Debug, Clone, PartialEq, Eq, Structural)]
pub struct Footer {
    /// Handle of the meta-index block.
    pub meta_index_handle: BlockHandle,
    /// Handle of the index block.
    pub index_handle: BlockHandle,
}

/// Eight zero bytes.
pub open spec fn padding() -> Seq<u8> {
    seq![0u8, 0u8, 0u8, 0u8, 0u8, 0u8, 0u8, 0u8]
}

/// The 48 bytes of a footer.
pub open spec fn encode_footer(f: Footer) -> Seq<u8> {
    encode_handle(f.meta_index_handle) + encode_handle(f.index_handle) + padding()
        + spec_u64_to_le_bytes(MAGIC_NUMBER)
}

/// The footer that 48 bytes stand for, if they end in the magic number.
pub open spec fn decode_footer(data: Seq<u8>) -> Option<Footer> {
    if data.len() != 48 {
        None
    } else if spec_u64_from_le_bytes(data.subrange(40, 48)) != MAGIC_NUMBER {
        None
    } else {
        Some(
            Footer {
                meta_index_handle: decode_handle(data.subrange(0, 16))->0,
                index_handle: decode_handle(data.subrange(16, 32))->0,
            },
        )
    }
}

/// Decoding an encoded footer gives the footer back.
pub proof fn lemma_footer_round_trip(f: Footer)
    ensures
        encode_footer(f).len() == 48,
        decode_footer(encode_footer(f)) == Some(f),
{
    lemma_handle_round_trip(f.meta_index_handle);
    lemma_handle_round_trip(f.index_handle);
    lemma_u64_round_trip(MAGIC_NUMBER);
    let e = encode_footer(f);
    assert(e.len() == 48);
    assert(e.subrange(0, 16) =~= encode_handle(f.meta_index_handle));
    assert(e.subrange(16, 32) =~= encode_handle(f.index_handle));
    assert(e.subrange(40, 48) =~= spec_u64_to_le_bytes(MAGIC_NUMBER));
}

/// `std::io::Error::from` on `ErrorKind::UnexpectedEof`: the error a reader
/// reports when its source ends too early.
#[verifier::external_body]
fn unexpected_eof() -> (e: std::io::Error) {
    std::io::Error::from(std::io::ErrorKind::UnexpectedEof)
}

impl Footer {
    /// A footer with the two handles.
    pub fn new(meta_index_handle: BlockHandle, index_handle: BlockHandle) -> (f: Self)
        ensures
            f == (Footer { meta_index_handle, index_handle }),
    {
        Footer { meta_index_handle, index_handle }
    }

    /// The footer as 48 bytes.
    pub fn encode(&self) -> (bytes: Vec<u8>)
        ensures
            bytes@ == encode_footer(*self),
            bytes@.len() == 48,
    {
        let mut buf: Vec<u8> = Vec::new();
        let meta = self.meta_index_handle.encode();
        append_bytes(&mut buf, meta.as_slice());
        let index = self.index_handle.encode();
        append_bytes(&mut buf, index.as_slice());
        let mut i: usize = 0;
        while i < 8
            invariant
                i <= 8,
                buf@ == encode_handle(self.meta_index_handle) + encode_handle(self.index_handle)
                    + padding().subrange(0, i as int),
            decreases 8 - i,
        {
            buf.push(0u8);
            i += 1;
            assert(buf@ =~= encode_handle(self.meta_index_handle) + encode_handle(
                self.index_handle,
            ) + padding().subrange(0, i as int));
        }
        assert(padding().subrange(0, 8) =~= padding());
        put_u64_le(&mut buf, MAGIC_NUMBER);
        proof {
            lemma_footer_round_trip(*self);
        }
        buf
    }

    /// The footer that `data` stands for. A corruption error when `data` is
    /// not 48 bytes long or does not end in the magic number.
    pub fn decode(data: &[u8]) -> (r: Result<Self, Error>)
        ensures
            match r {
                Ok(f) => decode_footer(data@) == Some(f),
                Err(e) => decode_footer(data@) is None && e is Corruption,
            },
    {
        if data.len() != 48 {
            return Err(Error::corruption("Footer size mismatch"));
        }
        let magic = get_u64_le(data, 40);
        if magic != MAGIC_NUMBER {
            return Err(Error::corruption("Invalid SSTable magic number"));
        }
        let meta_index_handle = BlockHandle {
            offset: get_u64_le(data, 0),
            size: get_u64_le(data, 8),
        };
        let index_handle = BlockHandle { offset: get_u64_le(data, 16), size: get_u64_le(data, 24) };
        proof {
            let a = data@.subrange(0, 16);
            let b = data@.subrange(16, 32);
            assert(a.subrange(0, 8) =~= data@.subrange(0, 8));
            assert(a.subrange(8, 16) =~= data@.subrange(8, 16));
            assert(b.subrange(0, 8) =~= data@.subrange(16, 24));
            assert(b.subrange(8, 16) =~= data@.subrange(24, 32));
        }
        Ok(Footer { meta_index_handle, index_handle })
    }

    /// Appends the 48 bytes of the footer to `writer`.
    pub fn write_to(&self, writer: &mut Vec<u8>) -> (r: Result<(), Error>)
        ensures
            r is Ok,
            final(writer)@ == old(writer)@ + encode_footer(*self),
    {
        let encoded = self.encode();
        append_bytes(writer, encoded.as_slice());
        Ok(())
    }

    /// Reads a footer from the first 48 bytes of `reader`. An I/O error when
    /// there are fewer bytes, a corruption error when the magic number is
    /// wrong.
    pub fn read_from(reader: &[u8]) -> (r: Result<Self, Error>)
        ensures
            match r {
                Ok(f) => reader@.len() >= 48 && decode_footer(reader@.subrange(0, 48)) == Some(f),
                Err(e) => if reader@.len() < 48 {
                    e is Io
                } else {
                    e is Corruption && decode_footer(reader@.subrange(0, 48)) is None
                },
            },
    {
        if reader.len() < 48 {
            return Err(Error::Io(unexpected_eof()));
        }
        let buf = vstd::slice::slice_subrange(reader, 0, 48);
        Footer::decode(buf)
    }
}

} // verus!
