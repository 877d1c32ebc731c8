//! Compression of table blocks.
//!
//! The compressors are outside code. What they return is given a name here;
//! the one thing relied upon is that what a compressor returns decompresses
//! to what it was given.

use vstd::prelude::*;
use vstd::string::*;
use crate::codec::copy_bytes;
use crate::error::Error;
use crate::config::CompressionType;

verus! {

/// What the Snappy encoder returns for an input it accepts.
pub uninterp spec fn snappy_compressed(input: Seq<u8>) -> Seq<u8>;

/// What the Snappy decoder returns: the decompressed bytes, or `None` where
/// it reports an error.
pub uninterp spec fn snappy_decompressed(input: Seq<u8>) -> Option<Seq<u8>>;

/// What the LZ4 block encoder returns, with the input length in front, for
/// an input it accepts.
pub uninterp spec fn lz4_compressed(input: Seq<u8>) -> Seq<u8>;

/// What the LZ4 block decoder returns for an input with its length in
/// front: the decompressed bytes, or `None` where it reports an error.
pub uninterp spec fn lz4_decompressed(input: Seq<u8>) -> Option<Seq<u8>>;

/// `snap::raw::Encoder::compress_vec` on a fresh encoder: the input as one
/// Snappy block. The encoder refuses an input only when it is too long:
/// when 32 bytes, the input and a sixth of it come to more than `u32::MAX`.
/// The result depends on the input alone, and the decoder turns it back
/// into the input.
#[verifier::external_body]
fn snappy_compress(input: &[u8]) -> (r: Option<Vec<u8>>)
    ensures
        r is Some <==> 32 + input@.len() + input@.len() / 6 <= u32::MAX,
        r matches Some(v) ==> v@ == snappy_compressed(input@) && snappy_decompressed(v@) == Some(
            input@,
        ),
{
    snap::raw::Encoder::new().compress_vec(input).ok()
}

/// `snap::raw::Decoder::decompress_vec` on a fresh decoder: the bytes that
/// a Snappy block stands for, or nothing for bytes that are no such block.
/// The result depends on the input alone.
#[verifier::external_body]
fn snappy_decompress(input: &[u8]) -> (r: Option<Vec<u8>>)
    ensures
        match r {
            Some(v) => snappy_decompressed(input@) == Some(v@),
            None => snappy_decompressed(input@) is None,
        },
{
    snap::raw::Decoder::new().decompress_vec(input).ok()
}

/// `lz4::block::compress` in the default mode, with the length of the input
/// in front of the result. It refuses an input only when it is longer than
/// the longest input of LZ4, `0x7E000000` bytes; into a buffer of the size
/// that LZ4 asks for, which the function makes, the compression is
/// guaranteed to succeed. The result depends on the input alone, and
/// `lz4::block::decompress` turns it back into the input.
#[verifier::external_body]
fn lz4_compress(input: &[u8]) -> (r: Option<Vec<u8>>)
    ensures
        r is Some <==> input@.len() <= 0x7E00_0000,
        r matches Some(v) ==> v@ == lz4_compressed(input@) && lz4_decompressed(v@) == Some(input@),
{
    lz4::block::compress(input, None, true).ok()
}

/// `lz4::block::decompress` of a block with its length in front: the bytes
/// that the block stands for, or nothing for bytes that are no such block.
/// The result depends on the input alone.
#[verifier::external_body]
fn lz4_decompress(input: &[u8]) -> (r: Option<Vec<u8>>)
    ensures
        match r {
            Some(v) => lz4_decompressed(input@) == Some(v@),
            None => lz4_decompressed(input@) is None,
        },
{
    lz4::block::decompress(input, None).ok()
}

/// Whether `stored` is what a block `raw` is stored as under `compression`.
pub open spec fn stored_as(compression: CompressionType, raw: Seq<u8>, stored: Seq<u8>) -> bool {
    match compression {
        CompressionType::NoCompression => stored == raw,
        CompressionType::Snappy => stored == snappy_compressed(raw) && snappy_decompressed(stored)
            == Some(raw),
        CompressionType::Lz4 => stored == lz4_compressed(raw) && lz4_decompressed(stored) == Some(
            raw,
        ),
    }
}

/// The block that stored bytes stand for under `compression`; `None` where
/// the decompressor rejects them.
pub open spec fn expanded(compression: CompressionType, stored: Seq<u8>) -> Option<Seq<u8>> {
    match compression {
        CompressionType::NoCompression => Some(stored),
        CompressionType::Snappy => snappy_decompressed(stored),
        CompressionType::Lz4 => lz4_decompressed(stored),
    }
}

/// What was stored expands to what it was made from.
pub proof fn lemma_stored_expands(compression: CompressionType, raw: Seq<u8>, stored: Seq<u8>)
    requires
        stored_as(compression, raw, stored),
    ensures
        expanded(compression, stored) == Some(raw),
{
}

/// Whether the compressor of `compression` takes a block of `len` bytes:
/// Snappy as long as 32 bytes, the block and a sixth of it come to no more
/// than `u32::MAX`, LZ4 up to `0x7E000000` bytes.
pub open spec fn codec_takes(compression: CompressionType, len: nat) -> bool {
    match compression {
        CompressionType::NoCompression => true,
        CompressionType::Snappy => 32 + len + len / 6 <= u32::MAX,
        CompressionType::Lz4 => len <= 0x7E00_0000,
    }
}

/// The bytes that `raw` is stored as under `compression`; an internal
/// error exactly when the block is too long for the compressor.
pub fn compress_block(raw: &[u8], compression: CompressionType) -> (r: Result<Vec<u8>, Error>)
    ensures
        match r {
            Ok(stored) => stored_as(compression, raw@, stored@) && codec_takes(
                compression,
                raw@.len(),
            ),
            Err(e) => e is Internal && !codec_takes(compression, raw@.len()),
        },
{
    match compression {
        CompressionType::NoCompression => Ok(copy_bytes(raw)),
        CompressionType::Snappy => match snappy_compress(raw) {
            Some(v) => Ok(v),
            None => Err(Error::internal("Compression failed")),
        },
        CompressionType::Lz4 => match lz4_compress(raw) {
            Some(v) => Ok(v),
            None => Err(Error::internal("LZ4 compression failed")),
        },
    }
}

/// The block that `stored` stands for under `compression`; an internal
/// error when the decompressor rejects the bytes.
pub fn decompress_block(stored: &[u8], compression: CompressionType) -> (r: Result<
    Vec<u8>,
    Error,
>)
    ensures
        match r {
            Ok(raw) => expanded(compression, stored@) == Some(raw@),
            Err(e) => e is Internal && expanded(compression, stored@) is None,
        },
{
    match compression {
        CompressionType::NoCompression => Ok(copy_bytes(stored)),
        CompressionType::Snappy => match snappy_decompress(stored) {
            Some(v) => Ok(v),
            None => Err(Error::internal("Decompression failed")),
        },
        CompressionType::Lz4 => match lz4_decompress(stored) {
            Some(v) => Ok(v),
            None => Err(Error::internal("LZ4 decompression failed")),
        },
    }
}

} // verus!
