//! The CRC-32 checksum over raw bytes.

use vstd::prelude::*;

verus! {

/// The CRC-32 (IEEE) checksum of a byte sequence: a function of the bytes
/// alone, computed by the `crc32fast` crate.
pub uninterp spec fn crc32_of(data: Seq<u8>) -> u32;

/// Relies on crc32fast::hash: the CRC-32 (IEEE) checksum of the slice,
/// depending on the bytes alone.
#[verifier::external_body]
pub fn compute_crc32(data: &[u8]) -> (r: u32)
    ensures
        r == crc32_of(data@),
{
    crc32fast::hash(data)
}

} // verus!
