//! CRC-32 checksums, computed by the `crc32fast` crate.
use vstd::prelude::*;

verus! {

/// The CRC-32 (IEEE) checksum of `data`, as `crc32fast::hash` computes it.
pub uninterp spec fn crc32_of(data: Seq<u8>) -> u32;

/// Calls `crc32fast::hash`; the result is named `crc32_of`, a function of
/// the bytes alone.
#[verifier::external_body]
pub(crate) fn crc32(data: &[u8]) -> (c: u32)
    ensures
        c == crc32_of(data@),
{
    crc32fast::hash(data)
}

} // verus!
