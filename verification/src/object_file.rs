//! The file format of a loose object: a header of 24 bytes and the body.
//!
//! ```text
//! bytes  0..20  SHA-1 of "<type> <length>\0<content>", git's name for the object
//! byte     20   git object type (1 commit, 2 tree, 3 blob, 4 tag)
//! byte     21   encoding of the body (0 raw, 1 zlib, 2 delta)
//! bytes 22..24  zero
//! bytes 24..    the body
//! ```
//!
//! The body of a delta is the address of the base, 32 bytes, and the compressed
//! delta. Objects are addressed by the BLAKE3 hash of their content, however the
//! body is encoded.

use vstd::prelude::*;
use crate::codec::push_all;
use crate::decimal;
use crate::decimal::to_decimal;
use crate::digest;
use crate::digest::{blake3_of_bytes, sha1_of_bytes};
use crate::graph::{sha1_at, Sha1};
use crate::types::{Corruption, LedgeError, ObjectId};
use crate::zlib;
use crate::zlib::{compress, expand};

verus! {

/// The body is the content.
pub const ENC_RAW: u8 = 0;

/// The body is the compressed content.
pub const ENC_ZLIB: u8 = 1;

/// The body is a delta against another object.
pub const ENC_DELTA: u8 = 2;

/// The length of the header.
pub const HEADER_LEN: usize = 24;

/// The length of the header and the address of a base.
pub const DELTA_HEADER_LEN: usize = 56;

/// The longest content that a compressed body may expand to.
pub const MAX_DECOMPRESSED: u64 = 0x8000_0000;

/// What git calls a type.
pub open spec fn kind_name(git_type: u8) -> Option<Seq<u8>> {
    if git_type == 1 {
        Some(seq![99u8, 111, 109, 109, 105, 116])
    } else if git_type == 2 {
        Some(seq![116u8, 114, 101, 101])
    } else if git_type == 3 {
        Some(seq![98u8, 108, 111, 98])
    } else if git_type == 4 {
        Some(seq![116u8, 97, 103])
    } else {
        None
    }
}

/// A type that git has.
pub open spec fn known_type(git_type: u8) -> bool {
    1 <= git_type <= 4
}

/// What git hashes to name an object: type, length and content.
pub open spec fn git_image(git_type: u8, content: Seq<u8>) -> Seq<u8> {
    kind_name(git_type)->0 + seq![32u8] + decimal::digits(content.len()) + seq![0u8] + content
}

/// Git's name for an object.
pub open spec fn git_name(git_type: u8, content: Seq<u8>) -> Seq<u8> {
    digest::sha1_sum(git_image(git_type, content))
}

/// The file with the given parts.
pub open spec fn file_image(name: Seq<u8>, git_type: u8, encoding: u8, body: Seq<u8>) -> Seq<u8> {
    name + seq![git_type, encoding, 0u8, 0u8] + body
}

/// The file of an object: compressed where that makes it shorter, else raw.
pub open spec fn object_image(git_type: u8, content: Seq<u8>) -> Seq<u8> {
    if zlib::deflated(content).len() < content.len() {
        file_image(git_name(git_type, content), git_type, ENC_ZLIB, zlib::deflated(content))
    } else {
        file_image(git_name(git_type, content), git_type, ENC_RAW, content)
    }
}

/// The file of an object that is stored as a delta.
pub open spec fn delta_image(
    name: Seq<u8>,
    git_type: u8,
    base: Seq<u8>,
    delta: Seq<u8>,
) -> Seq<u8> {
    file_image(name, git_type, ENC_DELTA, base + zlib::deflated(delta))
}

/// What a compressed body expands to, within the limit.
pub open spec fn expanded(stream: Seq<u8>) -> Result<Seq<u8>, Corruption> {
    match zlib::inflated(stream, (MAX_DECOMPRESSED + 1) as u64) {
        Some(out) => if out.len() > MAX_DECOMPRESSED {
            Err(Corruption::TooLarge)
        } else {
            Ok(out)
        },
        None => Err(Corruption::Inflate),
    }
}

/// The address of the base of a file that holds a delta.
pub open spec fn file_base(raw: Seq<u8>) -> Option<Seq<u8>> {
    if raw.len() < DELTA_HEADER_LEN || raw[21] != ENC_DELTA {
        None
    } else {
        Some(raw.subrange(24, 56))
    }
}

fn push_kind(out: &mut Vec<u8>, git_type: u8)
    requires
        known_type(git_type),
    ensures
        final(out)@ == old(out)@ + kind_name(git_type)->0,
{
    let ghost before = out@;
    if git_type == 1 {
        out.push(99);
        out.push(111);
        out.push(109);
        out.push(109);
        out.push(105);
        out.push(116);
    } else if git_type == 2 {
        out.push(116);
        out.push(114);
        out.push(101);
        out.push(101);
    } else if git_type == 3 {
        out.push(98);
        out.push(108);
        out.push(111);
        out.push(98);
    } else {
        out.push(116);
        out.push(97);
        out.push(103);
    }
    assert(out@ =~= before + kind_name(git_type)->0);
}

/// Git's name for an object.
pub fn git_sha1(git_type: u8, content: &[u8]) -> (r: Sha1)
    requires
        known_type(git_type),
    ensures
        r@ == git_name(git_type, content@),
        git_type == 1 ==> r@ == digest::sha1_sum(
            seq![99u8, 111, 109, 109, 105, 116] + seq![32u8] + decimal::digits(content@.len())
                + seq![0u8] + content@,
        ),
        git_type == 2 ==> r@ == digest::sha1_sum(
            seq![116u8, 114, 101, 101] + seq![32u8] + decimal::digits(content@.len()) + seq![0u8]
                + content@,
        ),
        git_type == 3 ==> r@ == digest::sha1_sum(
            seq![98u8, 108, 111, 98] + seq![32u8] + decimal::digits(content@.len()) + seq![0u8]
                + content@,
        ),
        git_type == 4 ==> r@ == digest::sha1_sum(
            seq![116u8, 97, 103] + seq![32u8] + decimal::digits(content@.len()) + seq![0u8]
                + content@,
        ),
{
    let mut image: Vec<u8> = Vec::new();
    push_kind(&mut image, git_type);
    image.push(32);
    push_all(&mut image, to_decimal(content.len() as u64).as_slice());
    image.push(0);
    push_all(&mut image, content);
    assert(image@ =~= git_image(git_type, content@));
    sha1_of_bytes(image.as_slice())
}

/// The address of a content.
pub fn content_id(content: &[u8]) -> (r: ObjectId)
    ensures
        r.bytes@ == digest::blake3_sum(content@),
{
    ObjectId::from_bytes(blake3_of_bytes(content))
}

fn build_file(name: &Sha1, git_type: u8, encoding: u8, body: &[u8]) -> (r: Vec<u8>)
    ensures
        r@ == file_image(name@, git_type, encoding, body@),
{
    let mut file: Vec<u8> = Vec::new();
    push_all(&mut file, name.as_slice());
    file.push(git_type);
    file.push(encoding);
    file.push(0);
    file.push(0);
    push_all(&mut file, body);
    assert(file@ =~= file_image(name@, git_type, encoding, body@));
    file
}

/// The address and the file of an object.
pub fn encode_object(git_type: u8, content: &[u8]) -> (r: Result<(ObjectId, Vec<u8>), LedgeError>)
    ensures
        match r {
            Ok((id, file)) => {
                &&& known_type(git_type)
                &&& id.bytes@ == digest::blake3_sum(content@)
                &&& file@ == object_image(git_type, content@)
                &&& zlib::restorable(content@)
                &&& git_name(git_type, content@).len() == 20
            },
            Err(e) => !known_type(git_type) && e == LedgeError::Corruption(Corruption::ObjectType),
        },
{
    if git_type < 1 || git_type > 4 {
        return Err(LedgeError::Corruption(Corruption::ObjectType));
    }
    let id = content_id(content);
    let name = git_sha1(git_type, content);
    let packed = compress(content);
    let file = if packed.len() < content.len() {
        build_file(&name, git_type, ENC_ZLIB, packed.as_slice())
    } else {
        build_file(&name, git_type, ENC_RAW, content)
    };
    Ok((id, file))
}

/// The file of an object stored as a delta.
pub fn encode_delta_object(name: &Sha1, git_type: u8, base: ObjectId, delta: &[u8]) -> (r: Vec<u8>)
    ensures
        r@ == delta_image(name@, git_type, base.bytes@, delta@),
        zlib::restorable(delta@),
{
    let mut body: Vec<u8> = Vec::new();
    push_all(&mut body, base.bytes.as_slice());
    push_all(&mut body, compress(delta).as_slice());
    assert(body@ =~= base.bytes@ + zlib::deflated(delta@));
    build_file(name, git_type, ENC_DELTA, body.as_slice())
}

/// Git's name for the object of a file.
pub fn file_sha1(raw: &[u8]) -> (r: Result<Sha1, LedgeError>)
    ensures
        match r {
            Ok(name) => raw.len() >= 20 && name@ == raw@.subrange(0, 20),
            Err(e) => raw.len() < 20 && e == LedgeError::Corruption(Corruption::ObjectHeader),
        },
{
    if raw.len() < 20 {
        return Err(LedgeError::Corruption(Corruption::ObjectHeader));
    }
    Ok(sha1_at(raw, 0))
}

/// The type of the object of a file.
pub fn file_type(raw: &[u8]) -> (r: Result<u8, LedgeError>)
    ensures
        match r {
            Ok(t) => raw.len() >= HEADER_LEN && t == raw@[20],
            Err(e) => raw.len() < HEADER_LEN && e == LedgeError::Corruption(
                Corruption::ObjectHeader,
            ),
        },
{
    if raw.len() < HEADER_LEN {
        return Err(LedgeError::Corruption(Corruption::ObjectHeader));
    }
    Ok(raw[20])
}

/// The address at a position.
pub(crate) fn id_at(s: &[u8], pos: usize) -> (r: ObjectId)
    requires
        pos + 32 <= s.len(),
    ensures
        r.bytes@ == s@.subrange(pos as int, pos + 32),
{
    let mut bytes: [u8; 32] = [0u8; 32];
    let mut i: usize = 0;
    while i < 32
        invariant
            i <= 32,
            pos + 32 <= s.len(),
            forall|j: int| 0 <= j < i ==> bytes@[j] == s@[pos + j],
        decreases 32 - i,
    {
        bytes[i] = s[pos + i];
        i += 1;
    }
    assert(bytes@ =~= s@.subrange(pos as int, pos + 32));
    ObjectId::from_bytes(bytes)
}

/// The base of the object of a file, where it is stored as a delta.
pub fn file_delta_base(raw: &[u8]) -> (r: Option<ObjectId>)
    ensures
        match r {
            Some(id) => file_base(raw@) == Some(id.bytes@),
            None => file_base(raw@) is None,
        },
{
    if raw.len() < DELTA_HEADER_LEN || raw[21] != ENC_DELTA {
        None
    } else {
        Some(id_at(raw, 24))
    }
}

/// What a compressed body expands to, within the limit.
pub fn expand_body(stream: &[u8]) -> (r: Result<Vec<u8>, LedgeError>)
    ensures
        match r {
            Ok(out) => expanded(stream@) == Ok::<Seq<u8>, Corruption>(out@),
            Err(e) => expanded(stream@) matches Err(c) && e == LedgeError::Corruption(c),
        },
{
    match expand(stream, MAX_DECOMPRESSED + 1) {
        Some(out) => {
            if out.len() as u64 > MAX_DECOMPRESSED {
                Err(LedgeError::Corruption(Corruption::TooLarge))
            } else {
                Ok(out)
            }
        },
        None => Err(LedgeError::Corruption(Corruption::Inflate)),
    }
}

/// Where a content is kept in the file of an object: how long the file is, and
/// that the header gives back name and type.
pub proof fn header_reads_back(name: Seq<u8>, git_type: u8, encoding: u8, body: Seq<u8>)
    requires
        name.len() == 20,
    ensures
        ({
            let raw = file_image(name, git_type, encoding, body);
            &&& raw.len() == HEADER_LEN + body.len()
            &&& raw.subrange(0, 20) == name
            &&& raw[20] == git_type
            &&& raw[21] == encoding
            &&& raw.subrange(24, raw.len() as int) == body
        }),
{
    let raw = file_image(name, git_type, encoding, body);
    assert(raw.subrange(0, 20) =~= name);
    assert(raw.subrange(24, raw.len() as int) =~= body);
}

/// A compressed body within the limit expands to what was compressed.
pub proof fn expanded_restores(content: Seq<u8>)
    requires
        zlib::restorable(content),
    ensures
        expanded(zlib::deflated(content)) == if content.len() <= MAX_DECOMPRESSED {
            Ok::<Seq<u8>, Corruption>(content)
        } else {
            Err(Corruption::TooLarge)
        },
{
    let none = Seq::<u8>::empty();
    let z = zlib::deflated(content);
    assert(z + none =~= z);
    assert(zlib::inflated(z + none, (MAX_DECOMPRESSED + 1) as u64) == Some(
        zlib::cut(content, (MAX_DECOMPRESSED + 1) as u64),
    ));
}

} // verus!
