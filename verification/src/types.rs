//! Identifiers, reference entries and errors shared by every module.

use vstd::prelude::*;
use crate::codec::bytes_equal;

verus! {

/// The content address of an object: the BLAKE3 hash of its bytes.
#[derive(Clone, Copy, Debug, Hash)]
pub struct ObjectId {
    pub bytes: [u8; 32],
}

impl ObjectId {
    pub fn from_bytes(bytes: [u8; 32]) -> (r: Self)
        ensures
            r.bytes == bytes,
    {
        ObjectId { bytes }
    }

    pub fn as_bytes(&self) -> (r: &[u8; 32])
        ensures
            *r == self.bytes,
    {
        &self.bytes
    }
}

impl PartialEq for ObjectId {
    fn eq(&self, other: &Self) -> (r: bool) {
        let r = bytes_equal(self.bytes.as_slice(), other.bytes.as_slice());
        assert(r ==> self.bytes =~= other.bytes);
        r
    }
}

impl vstd::std_specs::cmp::PartialEqSpecImpl for ObjectId {
    open spec fn obeys_eq_spec() -> bool {
        true
    }

    open spec fn eq_spec(&self, other: &Self) -> bool {
        *self == *other
    }
}

impl Eq for ObjectId {

}

/// The identifier of a cross-shard transaction.
#[derive(Clone, Copy, Debug, Hash)]
pub struct TxnId {
    pub bytes: [u8; 16],
}

impl TxnId {
    pub fn from_bytes(bytes: [u8; 16]) -> (r: Self)
        ensures
            r.bytes == bytes,
    {
        TxnId { bytes }
    }
}

impl PartialEq for TxnId {
    fn eq(&self, other: &Self) -> (r: bool) {
        let r = bytes_equal(self.bytes.as_slice(), other.bytes.as_slice());
        assert(r ==> self.bytes =~= other.bytes);
        r
    }
}

impl vstd::std_specs::cmp::PartialEqSpecImpl for TxnId {
    open spec fn obeys_eq_spec() -> bool {
        true
    }

    open spec fn eq_spec(&self, other: &Self) -> bool {
        *self == *other
    }
}

impl Eq for TxnId {

}

/// What a reference points to: the target, the logical time of the write and
/// the number of writes so far.
#[derive(Clone, Copy, Debug, Hash)]
pub struct RefEntry {
    pub target: ObjectId,
    pub hlc: u64,
    pub version: u64,
}

impl PartialEq for RefEntry {
    fn eq(&self, other: &Self) -> (r: bool) {
        self.target == other.target && self.hlc == other.hlc && self.version == other.version
    }
}

impl vstd::std_specs::cmp::PartialEqSpecImpl for RefEntry {
    open spec fn obeys_eq_spec() -> bool {
        true
    }

    open spec fn eq_spec(&self, other: &Self) -> bool {
        *self == *other
    }
}

impl Eq for RefEntry {

}

/// A string without the byte 0x00.
pub open spec fn nul_free(s: Seq<u8>) -> bool {
    forall|i: int| 0 <= i < s.len() ==> s[i] != 0
}

/// What a reference may be called, in bytes.
pub open spec fn name_bytes_ok(s: Seq<u8>) -> bool {
    vstd::utf8::valid_utf8(s) && nul_free(s)
}

/// The name of a reference: a string without the byte 0x00. Its view is the
/// UTF-8 bytes of the string.
#[derive(Debug)]
pub struct RefName {
    name: String,
}

impl View for RefName {
    type V = Seq<u8>;

    closed spec fn view(&self) -> Seq<u8> {
        vstd::utf8::encode_utf8(self.name@)
    }
}

fn has_nul(s: &[u8]) -> (r: bool)
    ensures
        r == !nul_free(s@),
{
    let mut i: usize = 0;
    while i < s.len()
        invariant
            i <= s.len(),
            forall|j: int| 0 <= j < i ==> s@[j] != 0,
        decreases s.len() - i,
    {
        if s[i] == 0 {
            assert(s@[i as int] == 0);
            return true;
        }
        i += 1;
    }
    false
}

/// Calls `String::from_utf8` of the standard library, which is taken to succeed
/// on exactly the valid UTF-8 byte strings and to return the string with these
/// bytes.
#[verifier::external_body]
pub(crate) fn string_from_utf8(v: Vec<u8>) -> (r: Option<String>)
    ensures
        r is Some == vstd::utf8::valid_utf8(v@),
        r matches Some(s) ==> vstd::utf8::encode_utf8(s@) == v@,
{
    String::from_utf8(v).ok()
}

/// ASCII bytes are valid UTF-8.
pub proof fn lemma_ascii_is_utf8(s: Seq<u8>)
    requires
        forall|i: int| 0 <= i < s.len() ==> #[trigger] s[i] < 128,
    ensures
        vstd::utf8::valid_utf8(s),
    decreases s.len(),
{
    if s.len() > 0 {
        assert(s[0] < 128);
        lemma_ascii_is_utf8(vstd::utf8::pop_first_scalar(s));
    }
}

impl RefName {
    #[verifier::type_invariant]
    closed spec fn inv(self) -> bool {
        nul_free(vstd::utf8::encode_utf8(self.name@))
    }

    /// A name with the given spelling; refused where it holds the byte 0x00.
    pub fn new(s: &str) -> (r: Result<Self, LedgeError>)
        ensures
            match r {
                Ok(n) => n@ == vstd::utf8::encode_utf8(s@) && name_bytes_ok(n@),
                Err(e) => e == LedgeError::InvalidName && !nul_free(vstd::utf8::encode_utf8(s@)),
            },
            r is Err <==> vstd::utf8::encode_utf8(s@).contains(0u8),
            r matches Ok(n) ==> n@ == vstd::utf8::encode_utf8(s@),
    {
        if has_nul(s.as_bytes()) {
            return Err(LedgeError::InvalidName);
        }
        proof {
            vstd::utf8::encode_utf8_valid_utf8(s@);
        }
        Ok(RefName { name: s.to_owned() })
    }

    /// The name with the given bytes, where they may be one.
    pub fn from_utf8(bytes: Vec<u8>) -> (r: Option<Self>)
        ensures
            match r {
                Some(n) => n@ == bytes@ && name_bytes_ok(bytes@),
                None => !name_bytes_ok(bytes@),
            },
    {
        if has_nul(bytes.as_slice()) {
            return None;
        }
        match string_from_utf8(bytes) {
            Some(name) => Some(RefName { name }),
            None => None,
        }
    }

    /// The spelling of the name.
    pub fn as_str(&self) -> (r: &str)
        ensures
            vstd::utf8::encode_utf8(r@) == self@,
    {
        self.name.as_str()
    }

    /// The bytes of the name.
    pub fn as_bytes(&self) -> (r: &[u8])
        ensures
            r@ == self@,
            name_bytes_ok(r@),
    {
        proof {
            use_type_invariant(self);
            vstd::utf8::encode_utf8_valid_utf8(self.name@);
        }
        self.name.as_str().as_bytes()
    }
}

impl Clone for RefName {
    fn clone(&self) -> (r: Self)
        ensures
            r == *self,
    {
        proof {
            use_type_invariant(self);
        }
        RefName { name: self.name.clone() }
    }
}

impl PartialEq for RefName {
    fn eq(&self, other: &Self) -> (r: bool) {
        bytes_equal(self.as_bytes(), other.as_bytes())
    }
}

impl vstd::std_specs::cmp::PartialEqSpecImpl for RefName {
    open spec fn obeys_eq_spec() -> bool {
        true
    }

    open spec fn eq_spec(&self, other: &Self) -> bool {
        self@ == other@
    }
}

impl Eq for RefName {

}

/// Why stored bytes were refused.
#[derive(Clone, Copy, Debug, PartialEq, Eq, Structural)]
pub enum Corruption {
    /// A frame is complete but its checksum does not match.
    FrameChecksum,
    /// The payload of a frame does not decode.
    FramePayload,
    /// An encoded part of a record does not decode.
    RecordPart,
    /// A delta is malformed or does not belong to its base.
    Delta,
    /// A git object type is none of commit, tree, blob and tag.
    ObjectType,
    /// An object file is too short for its header.
    ObjectHeader,
    /// An object file names an unknown encoding.
    ObjectEncoding,
    /// A compressed body does not inflate.
    Inflate,
    /// A compressed body inflates to more than the limit.
    TooLarge,
    /// A chain of deltas is too long.
    ChainTooDeep,
    /// A delta does not give back the object it was made for.
    DeltaMismatch,
    /// A pack does not begin as a pack does, or is too short.
    PackMagic,
    /// A pack does not end with its checksum.
    PackTrailer,
    /// A pack is not the one its name stands for.
    PackName,
    /// A pack would need offsets of more than 31 bits.
    PackTooLarge,
    /// An index is truncated or malformed.
    PackIndex,
    /// An offset lies outside its pack.
    PackOffset,
    /// The header of a packed object is malformed.
    PackObjectHeader,
    /// A packed object is truncated.
    PackObjectBody,
    /// The base of a packed delta is not in the pack.
    PackBase,
    /// A packed object has an unsupported type.
    PackObjectType,
    /// An index is stored without the pack it belongs to.
    MissingBody,
    /// A text of a request is not UTF-8.
    RequestText,
    /// An address in a request has the wrong length.
    RequestAddress,
}

/// An error of the store.
#[derive(Clone, Copy, Debug, PartialEq, Eq)]
pub enum LedgeError {
    /// The object or reference does not exist.
    NotFound(ObjectId),
    /// A compare-and-swap precondition does not hold; carries what is there.
    Conflict { current: RefEntry },
    /// Stored bytes are damaged.
    Corruption(Corruption),
    /// A service that the operation needs is not configured or not reachable.
    Unavailable,
    /// Not a valid reference name.
    InvalidName,
    /// Not a valid identifier.
    InvalidId,
}

} // verus!
