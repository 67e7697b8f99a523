use vstd::prelude::*;

verus! {

/// The CRC-32C (Castagnoli) checksum of a byte sequence.
pub uninterp spec fn crc32c_of(b: Seq<u8>) -> u32;

/// Relies on `crc32c::crc32c`: the CRC-32C of the bytes, a function of the bytes alone.
#[verifier::external_body]
pub(crate) fn checksum(b: &[u8]) -> (r: u32)
    ensures
        r == crc32c_of(b@),
{
    crc32c::crc32c(b)
}

} // verus!
