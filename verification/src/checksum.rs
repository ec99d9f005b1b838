use vstd::prelude::*;

verus! {

/// The CRC-32 (IEEE) checksum of `bytes`.
pub uninterp spec fn spec_crc32(bytes: Seq<u8>) -> u32;

/// Computes the CRC-32 (IEEE) checksum of `bytes` by `crc32fast::hash`.
///
/// Trusted: that the function returns the checksum of exactly the bytes it
/// is given, the same for the same bytes on every run and every machine,
/// is taken from the documentation of `crc32fast`. Nothing is claimed of
/// the value itself.
#[verifier::external_body]
pub(crate) fn crc32(bytes: &[u8]) -> (sum: u32)
    ensures
        sum == spec_crc32(bytes@),
{
    crc32fast::hash(bytes)
}

} // verus!
