//! CRC-32 checksums.

use vstd::prelude::*;

verus! {

/// The CRC-32 checksum (IEEE polynomial) of a byte string.
pub uninterp spec fn crc32(data: Seq<u8>) -> u32;

/// `crc32fast::hash`: the CRC-32 checksum of the whole slice. The result
/// depends on the bytes alone, whichever implementation the crate picks for
/// the processor.
#[verifier::external_body]
pub(crate) fn crc32_of(data: &[u8]) -> (sum: u32)
    ensures
        sum == crc32(data@),
{
    crc32fast::hash(data)
}

} // verus!
