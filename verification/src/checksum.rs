use vstd::prelude::*;

verus! {

/// The CRC-32 checksum (IEEE polynomial, as zlib computes it) of a byte string.
pub uninterp spec fn crc32_ieee(bytes: Seq<u8>) -> u32;

/// `crc::crc32::checksum_ieee`: the checksum of `bytes`. The value is taken on trust
/// from the outside crate; the contract gives it its name, and says of it the one
/// thing that the outside source shows without its table: over no bytes the
/// checksum is 0.
#[verifier::external_body]
pub(crate) fn checksum(bytes: &[u8]) -> (sum: u32)
    ensures
        sum == crc32_ieee(bytes@),
        bytes@.len() == 0 ==> sum == 0,
{
    crc::crc32::checksum_ieee(bytes)
}

} // verus!
