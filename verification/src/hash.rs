//! The two hash functions that the wire protocol and onion addresses are built on.
use vstd::prelude::*;

verus! {

/// The SHA-256 digest of `data`.
pub uninterp spec fn sha256(data: Seq<u8>) -> Seq<u8>;

/// The SHA3-256 digest of `data`.
pub uninterp spec fn sha3_256(data: Seq<u8>) -> Seq<u8>;

/// Calls `sha2::Sha256::digest`, whose 32 bytes depend on `data` alone.
#[verifier::external_body]
fn sha256_digest(data: &[u8]) -> (r: [u8; 32])
    ensures
        r@ == sha256(data@),
{
    <sha2::Sha256 as sha2::Digest>::digest(data).into()
}

/// Calls `sha3::Sha3_256::digest`, whose 32 bytes depend on `data` alone. Feeding a hasher
/// piece by piece and then finalising it digests the pieces joined.
#[verifier::external_body]
pub(crate) fn sha3_256_digest(data: &[u8]) -> (r: [u8; 32])
    ensures
        r@ == sha3_256(data@),
{
    <sha3::Sha3_256 as sha3::Digest>::digest(data).into()
}

/// The SHA-256 digest of the SHA-256 digest of `data`.
pub open spec fn double_sha256(data: Seq<u8>) -> Seq<u8> {
    sha256(sha256(data))
}

/// The SHA-256 digest of the SHA-256 digest of `data`.
pub fn double_sha256_of(data: &[u8]) -> (r: [u8; 32])
    ensures
        r@ == double_sha256(data@),
{
    let first = sha256_digest(data);
    sha256_digest(&first)
}

} // verus!
