//! Compression of object bodies.

use std::io::{Read, Write};
use vstd::prelude::*;

verus! {

/// The zlib stream of some bytes, at the default level.
pub uninterp spec fn deflated(bytes: Seq<u8>) -> Seq<u8>;

/// What the zlib stream at the start of some bytes expands to, read up to `limit`
/// bytes; nothing where what was read is malformed.
pub uninterp spec fn inflated(stream: Seq<u8>, limit: u64) -> Option<Seq<u8>>;

/// The CRC-32 of some bytes as the index of a pack records it.
pub uninterp spec fn crc_sum(bytes: Seq<u8>) -> u32;

/// The first `limit` bytes.
pub open spec fn cut(bytes: Seq<u8>, limit: u64) -> Seq<u8> {
    if bytes.len() <= limit {
        bytes
    } else {
        bytes.subrange(0, limit as int)
    }
}

/// The zlib stream of `bytes` expands to `bytes`, whatever follows it.
pub open spec fn restorable(bytes: Seq<u8>) -> bool {
    forall|rest: Seq<u8>, limit: u64| #[trigger]
        inflated(deflated(bytes) + rest, limit) == Some(cut(bytes, limit))
}

/// `flate2::write::ZlibEncoder` at the default level, over a vector, which cannot
/// fail: the zlib stream of the bytes. The contract names the result, and claims
/// that `flate2::read::ZlibDecoder` reads the bytes back from it, whatever stands
/// behind the stream and wherever reading stops.
#[verifier::external_body]
pub(crate) fn compress(bytes: &[u8]) -> (r: Vec<u8>)
    ensures
        r@ == deflated(bytes@),
        forall|rest: Seq<u8>, limit: u64| #[trigger]
            inflated(r@ + rest, limit) == Some(cut(bytes@, limit)),
{
    let mut e = flate2::write::ZlibEncoder::new(Vec::new(), flate2::Compression::default());
    e.write_all(bytes).expect("writing to a vector cannot fail");
    e.finish().expect("writing to a vector cannot fail")
}

/// `flate2::read::ZlibDecoder`, read to the end or to `limit` bytes: what the zlib
/// stream at the start of `stream` expands to. The contract only names the result,
/// which depends on the arguments alone, and says that no more than `limit` bytes
/// come out.
#[verifier::external_body]
pub(crate) fn expand(stream: &[u8], limit: u64) -> (r: Option<Vec<u8>>)
    ensures
        match r {
            Some(v) => inflated(stream@, limit) == Some(v@) && v@.len() <= limit,
            None => inflated(stream@, limit) is None,
        },
{
    let mut out = Vec::new();
    match flate2::read::ZlibDecoder::new(stream).take(limit).read_to_end(&mut out) {
        Ok(_) => Some(out),
        Err(_) => None,
    }
}

/// `flate2::Crc`: the CRC-32 of the bytes. The contract only names the result,
/// which depends on the bytes alone.
#[verifier::external_body]
pub(crate) fn crc_of_bytes(bytes: &[u8]) -> (r: u32)
    ensures
        r == crc_sum(bytes@),
{
    let mut crc = flate2::Crc::new();
    crc.update(bytes);
    crc.sum()
}

} // verus!
