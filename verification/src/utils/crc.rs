use vstd::prelude::*;

verus! {

/// The CRC-32 (IEEE) checksum of a byte sequence, as `crc32fast` computes it.
pub uninterp spec fn crc32_checksum(data: Seq<u8>) -> u32;

/// Calls `crc32fast::hash`. Trusted: the result is the CRC-32 of exactly the
/// bytes given, and depends on nothing else.
#[verifier::external_body]
fn crc32fast_hash(data: &[u8]) -> (sum: u32)
    ensures
        sum == crc32_checksum(data@),
{
    crc32fast::hash(data)
}

/// CRC-32 checksum of `data`.
pub fn crc32(data: &[u8]) -> (sum: u32)
    ensures
        sum == crc32_checksum(data@),
{
    crc32fast_hash(data)
}

/// Whether `expected` is the CRC-32 checksum of `data`.
pub fn verify_crc32(data: &[u8], expected: u32) -> (ok: bool)
    ensures
        ok == (crc32_checksum(data@) == expected),
{
    crc32(data) == expected
}

} // verus!
