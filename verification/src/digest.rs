//! The two content hashes: SHA-1, by which git names objects, and BLAKE3, by which
//! the store addresses them.

use vstd::prelude::*;

verus! {

/// The SHA-1 of some bytes.
pub uninterp spec fn sha1_sum(bytes: Seq<u8>) -> Seq<u8>;

/// The BLAKE3 hash of some bytes.
pub uninterp spec fn blake3_sum(bytes: Seq<u8>) -> Seq<u8>;

/// `sha1::Sha1::digest`: the SHA-1 of the bytes. The contract only names the
/// result, which depends on the bytes alone.
#[verifier::external_body]
pub(crate) fn sha1_of_bytes(bytes: &[u8]) -> (r: [u8; 20])
    ensures
        r@ == sha1_sum(bytes@),
{
    <sha1::Sha1 as sha1::Digest>::digest(bytes).into()
}

/// `blake3::hash`: the BLAKE3 hash of the bytes. The contract only names the
/// result, which depends on the bytes alone.
#[verifier::external_body]
pub(crate) fn blake3_of_bytes(bytes: &[u8]) -> (r: [u8; 32])
    ensures
        r@ == blake3_sum(bytes@),
{
    *blake3::hash(bytes).as_bytes()
}

} // verus!
