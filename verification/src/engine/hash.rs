use vstd::prelude::*;
use crate::utils::text::hex_string;

verus! {

/// The SHA-256 digest of a byte sequence: 32 bytes.
pub uninterp spec fn sha256_digest(data: Seq<u8>) -> Seq<u8>;

/// The short identity of a content: hexadecimal text of the first sixteen
/// bytes of its SHA-256 digest.
pub open spec fn content_id(data: Seq<u8>) -> Seq<char> {
    hex_string(sha256_digest(data).subrange(0, 16))
}

/// Calls `sha2::Sha256::digest`. Trusted: the 32 bytes returned are the
/// SHA-256 digest of exactly the bytes given.
#[verifier::external_body]
fn sha2_digest(data: &[u8]) -> (h: [u8; 32])
    ensures
        h@ == sha256_digest(data@),
{
    <sha2::Sha256 as sha2::Digest>::digest(data).into()
}

/// Calls `hex::encode`. Trusted: the text holds two lower-case hexadecimal
/// digits for each byte, in order, the high half of a byte first.
#[verifier::external_body]
fn hex_encode(bytes: &[u8]) -> (s: String)
    ensures
        s@ == hex_string(bytes@),
{
    hex::encode(bytes)
}

/// SHA-256 digest of `data`.
pub fn sha256(data: &[u8]) -> (h: [u8; 32])
    ensures
        h@ == sha256_digest(data@),
{
    sha2_digest(data)
}

/// Lower-case hexadecimal text of `bytes`.
pub fn to_hex(bytes: &[u8]) -> (s: String)
    ensures
        s@ == hex_string(bytes@),
{
    hex_encode(bytes)
}

/// The short identity of `data`, as text.
pub fn content_hash_hex(data: &[u8]) -> (s: String)
    ensures
        s@ == content_id(data@),
{
    let digest: [u8; 32] = sha256(data);
    let mut head: Vec<u8> = Vec::new();
    let mut i: usize = 0;
    while i < 16
        invariant
            i <= 16,
            head@ == digest@.subrange(0, i as int),
        decreases 16 - i,
    {
        head.push(digest[i]);
        i += 1;
        assert(head@ =~= digest@.subrange(0, i as int));
    }
    to_hex(head.as_slice())
}

/// Whether two digests are the same 32 bytes.
pub fn digest_eq(a: &[u8; 32], b: &[u8; 32]) -> (same: bool)
    ensures
        same == (a@ == b@),
{
    let mut i: usize = 0;
    while i < 32
        invariant
            i <= 32,
            forall|k: int| 0 <= k < i ==> a@[k] == b@[k],
        decreases 32 - i,
    {
        if a[i] != b[i] {
            return false;
        }
        i += 1;
    }
    assert(a@ =~= b@);
    true
}

} // verus!
