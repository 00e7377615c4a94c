//! Reading objects of a git pack by their address. A git pack knows SHA-1 names
//! only; a second index, the `.lidx`, gives for each address the name, the type and
//! the offset in the pack.

use vstd::prelude::*;
use crate::codec;
use crate::codec::{push_all, push_le32, push_le64, read_le32, read_le64};
use crate::delta;
use crate::delta::apply_delta;
use crate::git_pack;
use crate::git_pack::{PackObject, MAX_DELTA_DEPTH, REF_DELTA};
use crate::graph::{sha1_at, Sha1};
use crate::keytable;
use crate::keytable::KeyTable;
use crate::object_file;
use crate::object_file::id_at;
use crate::sorting;
use crate::types::{Corruption, LedgeError, ObjectId};
use crate::varint;
use crate::varint::read_varint;
use crate::zlib;
use crate::zlib::expand;

verus! {

/// The width of a row: address, name, type and offset.
pub const LIDX_ROW: usize = 61;

/// A row of the `.lidx`.
#[derive(Clone, Copy, Debug)]
pub struct LidxEntry {
    pub oid: ObjectId,
    pub sha1: Sha1,
    pub git_type: u8,
    pub offset: u64,
}

// ---------------------------------------------------------------------------
// The index by address
// ---------------------------------------------------------------------------

/// The bytes of a row.
pub open spec fn lidx_row(e: LidxEntry) -> Seq<u8> {
    e.oid.bytes@ + e.sha1@ + seq![e.git_type] + codec::le64(e.offset)
}

/// The rows, each by its bytes.
pub open spec fn lidx_rows(entries: Seq<LidxEntry>) -> Seq<Seq<u8>> {
    Seq::new(entries.len(), |i: int| lidx_row(entries[i]))
}

/// The file: the number of rows, and the rows.
pub open spec fn lidx_image(entries: Seq<LidxEntry>) -> Seq<u8> {
    codec::le32(entries.len() as u32) + codec::join(lidx_rows(entries))
}

/// How many rows a file announces.
pub open spec fn lidx_count(data: Seq<u8>) -> int {
    codec::from_le32(data.subrange(0, 4))
}

/// The file holds the rows that it announces.
pub open spec fn lidx_ok(data: Seq<u8>) -> bool {
    data.len() >= 4 && data.len() >= 4 + LIDX_ROW * lidx_count(data)
}

/// `e` is the row at position `i`.
pub open spec fn lidx_row_is(data: Seq<u8>, i: int, e: LidxEntry) -> bool {
    let p = 4 + LIDX_ROW * i;
    &&& e.oid.bytes@ == data.subrange(p, p + 32)
    &&& e.sha1@ == data.subrange(p + 32, p + 52)
    &&& e.git_type == data[p + 52]
    &&& e.offset == codec::from_le64(data.subrange(p + 53, p + 61))
}

/// `v` are the rows of the file.
pub open spec fn lidx_holds(data: Seq<u8>, v: Seq<LidxEntry>) -> bool {
    &&& v.len() == lidx_count(data)
    &&& forall|i: int| 0 <= i < v.len() ==> lidx_row_is(data, i, #[trigger] v[i])
}

/// Writes the file.
pub fn write_lidx(entries: &Vec<LidxEntry>) -> (r: Vec<u8>)
    ensures
        r@ == lidx_image(entries@),
{
    let mut out: Vec<u8> = Vec::new();
    push_le32(&mut out, entries.len() as u32);
    let ghost head = out@;
    let mut i: usize = 0;
    proof {
        assert(head =~= codec::le32(entries.len() as u32));
        assert(lidx_rows(entries@).subrange(0, 0) =~= Seq::<Seq<u8>>::empty());
        assert(head + codec::join(lidx_rows(entries@).subrange(0, 0)) =~= head);
    }
    while i < entries.len()
        invariant
            i <= entries.len(),
            out@ == head + codec::join(lidx_rows(entries@).subrange(0, i as int)),
        decreases entries.len() - i,
    {
        let e = &entries[i];
        push_all(&mut out, e.oid.bytes.as_slice());
        push_all(&mut out, e.sha1.as_slice());
        out.push(e.git_type);
        push_le64(&mut out, e.offset);
        proof {
            codec::lemma_join_step(lidx_rows(entries@), i as int);
            assert(out@ =~= head + codec::join(lidx_rows(entries@).subrange(0, i + 1)));
        }
        i += 1;
    }
    assert(lidx_rows(entries@).subrange(0, i as int) =~= lidx_rows(entries@));
    out
}

/// Reads the file. What stands behind the rows does not matter.
pub fn read_lidx(data: &[u8]) -> (r: Result<Vec<LidxEntry>, LedgeError>)
    ensures
        match r {
            Ok(v) => lidx_ok(data@) && lidx_holds(data@, v@),
            Err(e) => !lidx_ok(data@) && e == LedgeError::Corruption(Corruption::PackIndex),
        },
{
    if data.len() < 4 {
        return Err(LedgeError::Corruption(Corruption::PackIndex));
    }
    let count: u32 = read_le32(data, 0);
    if (data.len() - 4) as u64 / 61 < count as u64 {
        return Err(LedgeError::Corruption(Corruption::PackIndex));
    }
    let mut out: Vec<LidxEntry> = Vec::new();
    let mut i: u32 = 0;
    let mut p: usize = 4;
    while i < count
        invariant
            i <= count,
            count == lidx_count(data@),
            lidx_ok(data@),
            p == 4 + 61 * i,
            out.len() == i,
            forall|j: int| 0 <= j < i ==> lidx_row_is(data@, j, #[trigger] out@[j]),
        decreases count - i,
    {
        let e = LidxEntry {
            oid: id_at(data, p),
            sha1: sha1_at(data, p + 32),
            git_type: data[p + 52],
            offset: read_le64(data, p + 53),
        };
        assert(lidx_row_is(data@, i as int, e));
        out.push(e);
        i += 1;
        p += 61;
    }
    Ok(out)
}

/// Reading gives back what was written, whatever stands behind it.
pub proof fn lidx_roundtrip(entries: Seq<LidxEntry>, rest: Seq<u8>)
    requires
        entries.len() <= u32::MAX,
    ensures
        lidx_ok(lidx_image(entries) + rest),
        lidx_holds(lidx_image(entries) + rest, entries),
{
    let data = lidx_image(entries) + rest;
    let rows = lidx_rows(entries);
    assert(data.subrange(0, 4) =~= codec::le32(entries.len() as u32));
    codec::le32_roundtrip(entries.len() as u32);
    assert forall|i: int| 0 <= i < rows.len() implies (#[trigger] rows[i]).len() == 61 by {}
    codec::lemma_join_width(rows, 61);
    assert forall|i: int| 0 <= i < entries.len() implies lidx_row_is(
        data,
        i,
        #[trigger] entries[i],
    ) by {
        let e = entries[i];
        let p = 4 + 61 * i;
        codec::lemma_join_split(rows, i);
        let front = rows.subrange(0, i);
        assert forall|j: int| 0 <= j < front.len() implies (#[trigger] front[j]).len() == 61 by {
            assert(front[j] == rows[j]);
        }
        codec::lemma_join_width(front, 61);
        let head = codec::le32(entries.len() as u32) + codec::join(front);
        let tail = codec::join(rows.subrange(i + 1, rows.len() as int)) + rest;
        assert(data =~= head + lidx_row(e) + tail);
        assert(head.len() == p);
        assert(data.subrange(p, p + 32) =~= e.oid.bytes@);
        assert(data.subrange(p + 32, p + 52) =~= e.sha1@);
        assert(data.subrange(p + 53, p + 61) =~= codec::le64(e.offset));
        codec::le64_roundtrip(e.offset);
    }
}

// ---------------------------------------------------------------------------
// Packed objects
// ---------------------------------------------------------------------------

/// The type and the length that the header at `p` gives, and the position behind
/// it; nothing where the header ends early or the length is wider than 64 bits.
pub open spec fn header_at(pack: Seq<u8>, p: int) -> Option<(u8, int, int)> {
    if p < 0 || p >= pack.len() {
        None
    } else {
        let git_type = pack[p] / 16 % 8;
        let low = pack[p] % 16;
        if pack[p] < 128 {
            Some((git_type, low as int, p + 1))
        } else {
            match varint::varint_at(pack, p + 1, 9) {
                Some((high, next)) => if low + 16 * high > u64::MAX {
                    None
                } else {
                    Some((git_type, low + 16 * high, next))
                },
                None => None,
            }
        }
    }
}

/// The content of the object at `offset`, where `depth` deltas have been met on the
/// way to it. `bases` says where in the pack a name is found.
#[verifier::opaque]
pub open spec fn packed_at(
    pack: Seq<u8>,
    bases: Map<Seq<u8>, u64>,
    offset: u64,
    depth: nat,
) -> Result<Seq<u8>, Corruption>
    decreases MAX_DELTA_DEPTH + 1 - depth,
{
    if depth > MAX_DELTA_DEPTH {
        Err(Corruption::ChainTooDeep)
    } else if offset > pack.len() {
        Err(Corruption::PackOffset)
    } else {
        match header_at(pack, offset as int) {
            None => Err(Corruption::PackObjectHeader),
            Some((git_type, _, next)) => if 1 <= git_type <= 4 {
                match zlib::inflated(pack.subrange(next, pack.len() as int), u64::MAX) {
                    Some(content) => Ok(content),
                    None => Err(Corruption::Inflate),
                }
            } else if git_type != REF_DELTA {
                Err(Corruption::PackObjectType)
            } else if next + 20 > pack.len() {
                Err(Corruption::PackObjectBody)
            } else {
                match zlib::inflated(pack.subrange(next + 20, pack.len() as int), u64::MAX) {
                    None => Err(Corruption::Inflate),
                    Some(d) => if !bases.contains_key(pack.subrange(next, next + 20)) {
                        Err(Corruption::PackBase)
                    } else {
                        match packed_at(
                            pack,
                            bases,
                            bases[pack.subrange(next, next + 20)],
                            depth + 1,
                        ) {
                            Err(e) => Err(e),
                            Ok(base) => match delta::applied(base, d) {
                                Some(content) => Ok(content),
                                None => Err(Corruption::Delta),
                            },
                        }
                    },
                }
            },
        }
    }
}

/// The name of the base of the object at `offset`, where it is stored as a delta.
pub open spec fn packed_base(pack: Seq<u8>, offset: u64) -> Result<Option<Seq<u8>>, Corruption> {
    if offset > pack.len() {
        Err(Corruption::PackOffset)
    } else {
        match header_at(pack, offset as int) {
            None => Err(Corruption::PackObjectHeader),
            Some((git_type, _, next)) => if git_type != REF_DELTA {
                Ok(None)
            } else if next + 20 > pack.len() {
                Err(Corruption::PackObjectBody)
            } else {
                Ok(Some(pack.subrange(next, next + 20)))
            },
        }
    }
}

/// Reads the header of a packed object.
pub fn parse_pack_obj_header(pack: &[u8], p: usize) -> (r: Result<(u8, u64, usize), LedgeError>)
    ensures
        match r {
            Ok((t, size, next)) => header_at(pack@, p as int) == Some(
                (t, size as int, next as int),
            ) && p < next <= pack.len(),
            Err(e) => header_at(pack@, p as int) is None && e == LedgeError::Corruption(
                Corruption::PackObjectHeader,
            ),
        },
{
    if p >= pack.len() {
        return Err(LedgeError::Corruption(Corruption::PackObjectHeader));
    }
    let first: u8 = pack[p];
    let git_type: u8 = first / 16 % 8;
    let low: u8 = first % 16;
    if first < 128 {
        return Ok((git_type, low as u64, p + 1));
    }
    proof {
        varint::lemma_varint_at(pack@, p + 1, 9);
        varint::lemma_group_bounds(9);
    }
    match read_varint(pack, p + 1, 9) {
        Some((high, next)) => {
            let size: u128 = low as u128 + 16 * high;
            if size > u64::MAX as u128 {
                return Err(LedgeError::Corruption(Corruption::PackObjectHeader));
            }
            Ok((git_type, size as u64, next))
        },
        None => Err(LedgeError::Corruption(Corruption::PackObjectHeader)),
    }
}

/// What an index by address holds.
pub struct PackView {
    pub by_oid: Map<Seq<u8>, (u8, u64)>,
    pub sha1_to_offset: Map<Seq<u8>, u64>,
    pub sha1_to_oid: Map<Seq<u8>, ObjectId>,
    pub oid_to_sha1: Map<Seq<u8>, Sha1>,
}

/// What the rows say, later rows over earlier ones.
pub open spec fn view_of(entries: Seq<LidxEntry>) -> PackView
    decreases entries.len(),
{
    if entries.len() == 0 {
        PackView {
            by_oid: Map::empty(),
            sha1_to_offset: Map::empty(),
            sha1_to_oid: Map::empty(),
            oid_to_sha1: Map::empty(),
        }
    } else {
        let v = view_of(entries.drop_last());
        let e = entries.last();
        PackView {
            by_oid: v.by_oid.insert(e.oid.bytes@, (e.git_type, e.offset)),
            sha1_to_offset: v.sha1_to_offset.insert(e.sha1@, e.offset),
            sha1_to_oid: v.sha1_to_oid.insert(e.sha1@, e.oid),
            oid_to_sha1: v.oid_to_sha1.insert(e.oid.bytes@, e.sha1),
        }
    }
}

/// The content of an object of a pack, where the pack has it.
pub open spec fn pack_read(v: PackView, pack: Seq<u8>, id: Seq<u8>) -> Result<
    Option<Seq<u8>>,
    Corruption,
> {
    if v.by_oid.contains_key(id) {
        match packed_at(pack, v.sha1_to_offset, v.by_oid[id].1, 0) {
            Ok(content) => Ok(Some(content)),
            Err(e) => Err(e),
        }
    } else {
        Ok(None)
    }
}

/// The base of an object of a pack, where it is stored as a delta against an object
/// that the index knows.
pub open spec fn pack_base(v: PackView, pack: Seq<u8>, id: Seq<u8>) -> Result<
    Option<ObjectId>,
    Corruption,
> {
    if v.by_oid.contains_key(id) {
        match packed_base(pack, v.by_oid[id].1) {
            Ok(Some(name)) => Ok(
                if v.sha1_to_oid.contains_key(name) {
                    Some(v.sha1_to_oid[name])
                } else {
                    None
                },
            ),
            Ok(None) => Ok(None),
            Err(e) => Err(e),
        }
    } else {
        Ok(None)
    }
}

/// What an optional byte string holds.
pub open spec fn option_view(v: Option<Vec<u8>>) -> Option<Seq<u8>> {
    match v {
        Some(x) => Some(x@),
        None => None,
    }
}

/// The body begins as a pack does.
pub open spec fn has_pack_magic(body: Seq<u8>) -> bool {
    body.len() >= 12 && body.subrange(0, 4) == seq![80u8, 65, 67, 75]
}

/// The index by address of a pack.
pub struct GitPackFile {
    by_oid: KeyTable<32, (u8, u64)>,
    sha1_to_offset: KeyTable<20, u64>,
    sha1_to_oid: KeyTable<20, ObjectId>,
    oid_to_sha1: KeyTable<32, Sha1>,
}

impl View for GitPackFile {
    type V = PackView;

    closed spec fn view(&self) -> PackView {
        PackView {
            by_oid: self.by_oid@,
            sha1_to_offset: self.sha1_to_offset@,
            sha1_to_oid: self.sha1_to_oid@,
            oid_to_sha1: self.oid_to_sha1@,
        }
    }
}

/// Whether the body begins as a pack does.
pub fn check_pack_magic(body: &[u8]) -> (r: bool)
    ensures
        r == has_pack_magic(body@),
        r <==> body@.len() >= 12 && body@[0] == 80 && body@[1] == 65 && body@[2] == 67 && body@[3] == 75,
{
    proof {
        crate::pack_laws::packs_begin_with_magic(body@);
    }
    if body.len() < 12 {
        return false;
    }
    let r: bool = body[0] == 80 && body[1] == 65 && body[2] == 67 && body[3] == 75;
    proof {
        let m = seq![80u8, 65, 67, 75];
        if r {
            assert(body@.subrange(0, 4) =~= m);
        } else if body@.subrange(0, 4) == m {
            assert(body@.subrange(0, 4)[0] == m[0] && body@.subrange(0, 4)[1] == m[1]
                && body@.subrange(0, 4)[2] == m[2] && body@.subrange(0, 4)[3] == m[3]);
        }
    }
    r
}

impl GitPackFile {
    #[verifier::type_invariant]
    closed spec fn names_lead_back(self) -> bool {
        forall|id: Seq<u8>| #[trigger]
            self.oid_to_sha1@.contains_key(id) ==> self.sha1_to_oid@.contains_key(
                self.oid_to_sha1@[id]@,
            )
    }

    /// Opens a pack by its index. The body is looked at where it is at hand; a pack
    /// whose body was moved away opens from the index alone.
    pub fn open(body: Option<&[u8]>, lidx: &[u8]) -> (r: Result<Self, LedgeError>)
        ensures
            match r {
                Ok(p) => {
                    &&& body matches Some(b) ==> has_pack_magic(b@)
                    &&& lidx_ok(lidx@)
                    &&& exists|v: Seq<LidxEntry>|
                        #[trigger] lidx_holds(lidx@, v) && p@ == view_of(v)
                },
                Err(LedgeError::Corruption(Corruption::PackMagic)) => body matches Some(b)
                    && !has_pack_magic(b@),
                Err(e) => {
                    &&& e == LedgeError::Corruption(Corruption::PackIndex)
                    &&& body matches Some(b) ==> has_pack_magic(b@)
                    &&& !lidx_ok(lidx@)
                },
            },
    {
        if let Some(b) = body {
            if !check_pack_magic(b) {
                return Err(LedgeError::Corruption(Corruption::PackMagic));
            }
        }
        match read_lidx(lidx) {
            Ok(entries) => {
                let p = Self::from_entries(&entries);
                assert(lidx_holds(lidx@, entries@) && p@ == view_of(entries@));
                Ok(p)
            },
            Err(e) => Err(e),
        }
    }

    /// The index with the given rows.
    pub fn from_entries(entries: &Vec<LidxEntry>) -> (r: Self)
        ensures
            r@ == view_of(entries@),
    {
        let mut by_oid: KeyTable<32, (u8, u64)> = KeyTable::new();
        let mut sha1_to_offset: KeyTable<20, u64> = KeyTable::new();
        let mut sha1_to_oid: KeyTable<20, ObjectId> = KeyTable::new();
        let mut oid_to_sha1: KeyTable<32, Sha1> = KeyTable::new();
        let mut i: usize = 0;
        assert(entries@.subrange(0, 0) =~= Seq::<LidxEntry>::empty());
        while i < entries.len()
            invariant
                i <= entries.len(),
                by_oid@ == view_of(entries@.subrange(0, i as int)).by_oid,
                sha1_to_offset@ == view_of(entries@.subrange(0, i as int)).sha1_to_offset,
                sha1_to_oid@ == view_of(entries@.subrange(0, i as int)).sha1_to_oid,
                oid_to_sha1@ == view_of(entries@.subrange(0, i as int)).oid_to_sha1,
                forall|id: Seq<u8>| #[trigger]
                    oid_to_sha1@.contains_key(id) ==> sha1_to_oid@.contains_key(
                        oid_to_sha1@[id]@,
                    ),
            decreases entries.len() - i,
        {
            let ghost now = entries@.subrange(0, i + 1);
            assert(now.drop_last() =~= entries@.subrange(0, i as int));
            let e = &entries[i];
            by_oid.insert(e.oid.bytes, (e.git_type, e.offset));
            sha1_to_offset.insert(e.sha1, e.offset);
            sha1_to_oid.insert(e.sha1, e.oid);
            oid_to_sha1.insert(e.oid.bytes, e.sha1);
            i += 1;
        }
        assert(entries@.subrange(0, i as int) =~= entries@);
        GitPackFile { by_oid, sha1_to_offset, sha1_to_oid, oid_to_sha1 }
    }

    /// A pack has finitely many objects.
    pub proof fn lemma_finite(&self)
        ensures
            self@.by_oid.dom().finite(),
    {
        self.by_oid.lemma_finite();
    }

    /// Whether the pack has an object.
    pub fn contains(&self, id: ObjectId) -> (r: bool)
        ensures
            r == self@.by_oid.contains_key(id.bytes@),
    {
        self.by_oid.get(&id.bytes).is_some()
    }

    /// The type of an object.
    pub fn git_type_of(&self, id: ObjectId) -> (r: Option<u8>)
        ensures
            r == if self@.by_oid.contains_key(id.bytes@) {
                Some(self@.by_oid[id.bytes@].0)
            } else {
                None
            },
    {
        match self.by_oid.get(&id.bytes) {
            Some(x) => Some(x.0),
            None => None,
        }
    }

    /// Git's name for an object.
    pub fn sha1_of(&self, id: ObjectId) -> (r: Option<Sha1>)
        ensures
            r == if self@.oid_to_sha1.contains_key(id.bytes@) {
                Some(self@.oid_to_sha1[id.bytes@])
            } else {
                None
            },
            r matches Some(name) ==> self@.sha1_to_oid.contains_key(name@),
    {
        proof {
            use_type_invariant(self);
        }
        match self.oid_to_sha1.get(&id.bytes) {
            Some(x) => Some(*x),
            None => None,
        }
    }

    /// The addresses of all objects, ascending.
    pub fn oids(&self) -> (r: Vec<ObjectId>)
        ensures
            lists_ids(r@, self@.by_oid.dom()),
    {
        let n: usize = self.by_oid.len();
        let ghost rows = self.by_oid.rows();
        let mut out: Vec<ObjectId> = Vec::new();
        let mut i: usize = 0;
        while i < n
            invariant
                i <= n == rows.len(),
                rows == self.by_oid.rows(),
                keytable::keys_ascending(rows),
                out.len() == i,
                forall|j: int| 0 <= j < i ==> (#[trigger] out@[j]).bytes == rows[j].0,
            decreases n - i,
        {
            let (key, _) = self.by_oid.row(i);
            out.push(ObjectId::from_bytes(*key));
            i += 1;
        }
        proof {
            assert forall|j: int| 0 <= j < out.len() implies self@.by_oid.dom().contains(
                (#[trigger] out@[j]).bytes@,
            ) by {
                keytable::lemma_row(rows, j);
            }
            assert forall|a: int, b: int| 0 <= a < b < out.len() implies keytable::key_less(
                (#[trigger] out@[a]).bytes@,
                (#[trigger] out@[b]).bytes@,
            ) by {
                assert(keytable::key_less(rows[a].0@, rows[b].0@));
            }
            assert forall|k: Seq<u8>| self@.by_oid.dom().contains(k) implies #[trigger] has_id(
                out@,
                k,
            ) by {
                let j = choose|j: int| 0 <= j < rows.len() && (#[trigger] rows[j]).0@ == k;
                assert(out@[j].bytes@ == k);
            }
        }
        out
    }

    /// Names and addresses of all objects, in ascending order of the names.
    pub fn sha1_pairs(&self) -> (r: Vec<(Sha1, ObjectId)>)
        ensures
            forall|i: int|
                0 <= i < r.len() ==> self@.sha1_to_oid.contains_key((#[trigger] r@[i]).0@)
                    && self@.sha1_to_oid[r@[i].0@] == r@[i].1,
            forall|i: int, j: int|
                0 <= i < j < r.len() ==> keytable::key_less(
                    (#[trigger] r@[i]).0@,
                    (#[trigger] r@[j]).0@,
                ),
            forall|k: Seq<u8>| #[trigger]
                self@.sha1_to_oid.contains_key(k) ==> exists|i: int|
                    0 <= i < r.len() && (#[trigger] r@[i]).0@ == k,
    {
        let n: usize = self.sha1_to_oid.len();
        let ghost rows = self.sha1_to_oid.rows();
        let mut out: Vec<(Sha1, ObjectId)> = Vec::new();
        let mut i: usize = 0;
        while i < n
            invariant
                i <= n == rows.len(),
                rows == self.sha1_to_oid.rows(),
                keytable::keys_ascending(rows),
                out.len() == i,
                forall|j: int| 0 <= j < i ==> #[trigger] out@[j] == rows[j],
            decreases n - i,
        {
            let (key, oid) = self.sha1_to_oid.row(i);
            out.push((*key, *oid));
            i += 1;
        }
        proof {
            assert(out@ =~= rows);
            assert forall|j: int| 0 <= j < out.len() implies self@.sha1_to_oid.contains_key(
                (#[trigger] out@[j]).0@,
            ) && self@.sha1_to_oid[out@[j].0@] == out@[j].1 by {
                keytable::lemma_row(rows, j);
            }
        }
        out
    }

    /// The content of an object, from the body of the pack; `None` where the pack
    /// does not have it.
    pub fn read(&self, pack: &[u8], id: ObjectId) -> (r: Result<Option<Vec<u8>>, LedgeError>)
        ensures
            match r {
                Ok(c) => pack_read(self@, pack@, id.bytes@) == Ok::<Option<Seq<u8>>, Corruption>(
                    option_view(c),
                ),
                Err(e) => pack_read(self@, pack@, id.bytes@) matches Err(x) && e
                    == LedgeError::Corruption(x),
            },
    {
        match self.by_oid.get(&id.bytes) {
            Some(x) => match self.read_at(pack, x.1, 0) {
                Ok(c) => Ok(Some(c)),
                Err(e) => Err(e),
            },
            None => Ok(None),
        }
    }

    /// The content of the object at an offset.
    pub fn read_at(&self, pack: &[u8], offset: u64, depth: usize) -> (r: Result<
        Vec<u8>,
        LedgeError,
    >)
        requires
            depth <= MAX_DELTA_DEPTH + 1,
        ensures
            match r {
                Ok(c) => packed_at(pack@, self@.sha1_to_offset, offset, depth as nat) == Ok::<
                    Seq<u8>,
                    Corruption,
                >(c@),
                Err(e) => packed_at(pack@, self@.sha1_to_offset, offset, depth as nat) matches Err(
                    x,
                ) && e == LedgeError::Corruption(x),
            },
        decreases MAX_DELTA_DEPTH + 1 - depth,
    {
        reveal(packed_at);
        if depth > MAX_DELTA_DEPTH {
            return Err(LedgeError::Corruption(Corruption::ChainTooDeep));
        }
        if offset > pack.len() as u64 {
            return Err(LedgeError::Corruption(Corruption::PackOffset));
        }
        let (git_type, _, next) = match parse_pack_obj_header(pack, offset as usize) {
            Ok(x) => x,
            Err(e) => {
                return Err(e);
            },
        };
        if 1 <= git_type && git_type <= 4 {
            let body = vstd::slice::slice_subrange(pack, next, pack.len());
            return match expand(body, u64::MAX) {
                Some(c) => Ok(c),
                None => Err(LedgeError::Corruption(Corruption::Inflate)),
            };
        }
        if git_type != REF_DELTA {
            return Err(LedgeError::Corruption(Corruption::PackObjectType));
        }
        if pack.len() - next < 20 {
            return Err(LedgeError::Corruption(Corruption::PackObjectBody));
        }
        let base_sha1 = sha1_at(pack, next);
        let body = vstd::slice::slice_subrange(pack, next + 20, pack.len());
        let d = match expand(body, u64::MAX) {
            Some(d) => d,
            None => {
                return Err(LedgeError::Corruption(Corruption::Inflate));
            },
        };
        let base_offset: u64 = match self.sha1_to_offset.get(&base_sha1) {
            Some(o) => *o,
            None => {
                return Err(LedgeError::Corruption(Corruption::PackBase));
            },
        };
        match self.read_at(pack, base_offset, depth + 1) {
            Ok(base) => match apply_delta(base.as_slice(), d.as_slice()) {
                Ok(c) => Ok(c),
                Err(e) => Err(LedgeError::Corruption(e)),
            },
            Err(e) => Err(e),
        }
    }

    /// The base of an object, where it is stored as a delta against an object that
    /// the index knows.
    pub fn delta_base_of(&self, pack: &[u8], id: ObjectId) -> (r: Result<
        Option<ObjectId>,
        LedgeError,
    >)
        ensures
            match r {
                Ok(base) => pack_base(self@, pack@, id.bytes@) == Ok::<
                    Option<ObjectId>,
                    Corruption,
                >(base),
                Err(e) => pack_base(self@, pack@, id.bytes@) matches Err(x) && e
                    == LedgeError::Corruption(x),
            },
    {
        let offset: u64 = match self.by_oid.get(&id.bytes) {
            Some(x) => x.1,
            None => {
                return Ok(None);
            },
        };
        if offset > pack.len() as u64 {
            return Err(LedgeError::Corruption(Corruption::PackOffset));
        }
        let (git_type, _, next) = match parse_pack_obj_header(pack, offset as usize) {
            Ok(x) => x,
            Err(e) => {
                return Err(e);
            },
        };
        if git_type != REF_DELTA {
            return Ok(None);
        }
        if pack.len() - next < 20 {
            return Err(LedgeError::Corruption(Corruption::PackObjectBody));
        }
        let base_sha1 = sha1_at(pack, next);
        match self.sha1_to_oid.get(&base_sha1) {
            Some(oid) => Ok(Some(*oid)),
            None => Ok(None),
        }
    }
}

/// One of the addresses is `k`.
pub open spec fn has_id(v: Seq<ObjectId>, k: Seq<u8>) -> bool {
    exists|i: int| 0 <= i < v.len() && (#[trigger] v[i]).bytes@ == k
}

/// `v` lists the addresses of a set, each once, ascending.
pub open spec fn lists_ids(v: Seq<ObjectId>, s: Set<Seq<u8>>) -> bool {
    &&& forall|i: int| 0 <= i < v.len() ==> s.contains((#[trigger] v[i]).bytes@)
    &&& forall|i: int, j: int|
        0 <= i < j < v.len() ==> keytable::key_less(
            (#[trigger] v[i]).bytes@,
            (#[trigger] v[j]).bytes@,
        )
    &&& forall|k: Seq<u8>| s.contains(k) ==> #[trigger] has_id(v, k)
}

// ---------------------------------------------------------------------------
// What was packed is read back
// ---------------------------------------------------------------------------

/// The header of a packed object is read back.
pub proof fn header_roundtrip(before: Seq<u8>, git_type: u8, size: nat, rest: Seq<u8>)
    requires
        git_type < 8,
        size <= u64::MAX,
    ensures
        header_at(
            before + git_pack::obj_header(git_type, size) + rest,
            before.len() as int,
        ) == Some(
            (git_type, size as int, (before.len() + git_pack::obj_header(git_type, size).len()) as int),
        ),
{
    let h = git_pack::obj_header(git_type, size);
    let pack = before + h + rest;
    let p = before.len() as int;
    assert(pack[p] == h[0]);
    if size >= 16 {
        let head = seq![h[0]];
        assert(varint::groups(9) >= 0x1000_0000_0000_0000) by {
            reveal_with_fuel(varint::groups, 10);
        }
        varint::varint_roundtrip(size / 16, 9, before + head, rest);
        assert(pack =~= (before + head) + varint::varint(size / 16) + rest);
    }
}

/// Every name of the objects leads to the place where the object was written.
pub open spec fn names_resolve(
    objects: Seq<PackObject>,
    window: int,
    bases: Map<Seq<u8>, u64>,
) -> bool {
    forall|k: int|
        0 <= k < objects.len() ==> bases.contains_key(
            (#[trigger] git_pack::written(objects, k)).sha1@,
        ) && bases[git_pack::written(objects, k).sha1@] == git_pack::offset_at(objects, window, k)
}

proof fn lemma_whole_reads(
    front: Seq<u8>,
    git_type: u8,
    body: Seq<u8>,
    behind: Seq<u8>,
    bases: Map<Seq<u8>, u64>,
    depth: nat,
)
    requires
        object_file::known_type(git_type),
        zlib::restorable(body),
        body.len() <= u64::MAX,
        front.len() <= u64::MAX,
        depth <= MAX_DELTA_DEPTH,
    ensures
        packed_at(
            front + git_pack::obj_header(git_type, body.len()) + (zlib::deflated(body) + behind),
            bases,
            front.len() as u64,
            depth,
        ) == Ok::<Seq<u8>, Corruption>(body),
{
    reveal(packed_at);
    let h = git_pack::obj_header(git_type, body.len());
    let rest = zlib::deflated(body) + behind;
    let pack = front + h + rest;
    header_roundtrip(front, git_type, body.len(), rest);
    let next = (front.len() + h.len()) as int;
    assert(pack.subrange(next, pack.len() as int) =~= rest);
    assert(zlib::inflated(rest, u64::MAX) == Some(zlib::cut(body, u64::MAX)));
}

proof fn lemma_delta_reads(
    front: Seq<u8>,
    name: Seq<u8>,
    d: Seq<u8>,
    behind: Seq<u8>,
    bases: Map<Seq<u8>, u64>,
    depth: nat,
    base: Seq<u8>,
    content: Seq<u8>,
)
    requires
        name.len() == 20,
        zlib::restorable(d),
        d.len() <= u64::MAX,
        front.len() <= u64::MAX,
        depth <= MAX_DELTA_DEPTH,
        bases.contains_key(name),
        packed_at(
            front + git_pack::obj_header(REF_DELTA, d.len()) + (name + (zlib::deflated(d)
                + behind)),
            bases,
            bases[name],
            depth + 1,
        ) == Ok::<Seq<u8>, Corruption>(base),
        delta::applied(base, d) == Some(content),
    ensures
        packed_at(
            front + git_pack::obj_header(REF_DELTA, d.len()) + (name + (zlib::deflated(d)
                + behind)),
            bases,
            front.len() as u64,
            depth,
        ) == Ok::<Seq<u8>, Corruption>(content),
{
    reveal(packed_at);
    let h = git_pack::obj_header(REF_DELTA, d.len());
    let rest = zlib::deflated(d) + behind;
    let pack = front + h + (name + rest);
    header_roundtrip(front, REF_DELTA, d.len(), name + rest);
    let next = (front.len() + h.len()) as int;
    assert(pack.subrange(next, next + 20) =~= name);
    assert(pack.subrange(next + 20, pack.len() as int) =~= rest);
    assert(zlib::inflated(rest, u64::MAX) == Some(zlib::cut(d, u64::MAX)));
}

proof fn lemma_regroup(head: Seq<u8>, a: Seq<u8>, e: Seq<u8>, b: Seq<u8>, sum: Seq<u8>)
    ensures
        head + (a + e + b) + sum == (head + a) + e + (b + sum),
{
    assert(head + (a + e + b) + sum =~= (head + a) + e + (b + sum));
}

proof fn lemma_regroup_whole(front: Seq<u8>, h: Seq<u8>, z: Seq<u8>, behind: Seq<u8>)
    ensures
        front + (h + z) + behind == front + h + (z + behind),
{
    assert(front + (h + z) + behind =~= front + h + (z + behind));
}

proof fn lemma_regroup_delta(
    front: Seq<u8>,
    h: Seq<u8>,
    name: Seq<u8>,
    z: Seq<u8>,
    behind: Seq<u8>,
)
    ensures
        front + (h + name + z) + behind == front + h + (name + (z + behind)),
{
    assert(front + (h + name + z) + behind =~= front + h + (name + (z + behind)));
}

/// The pack is what precedes an object, the object, and what follows it.
proof fn lemma_pack_around(objects: Seq<PackObject>, window: int, k: int) -> (behind: Seq<u8>)
    requires
        0 <= k < objects.len(),
    ensures
        git_pack::base_of(objects, window, k) is None ==> git_pack::pack_image(objects, window)
            == git_pack::pack_upto(objects, window, k) + git_pack::obj_header(
            git_pack::written(objects, k).git_type,
            git_pack::body_at(objects, window, k).len(),
        ) + (zlib::deflated(git_pack::body_at(objects, window, k)) + behind),
        git_pack::base_of(objects, window, k) matches Some(j) ==> git_pack::pack_image(
            objects,
            window,
        ) == git_pack::pack_upto(objects, window, k) + git_pack::obj_header(
            REF_DELTA,
            git_pack::body_at(objects, window, k).len(),
        ) + (git_pack::written(objects, j).sha1@ + (zlib::deflated(
            git_pack::body_at(objects, window, k),
        ) + behind)),
{
    let parts = git_pack::entries(objects, window);
    let n = objects.len() as int;
    codec::lemma_join_split(parts, k);
    let behind = codec::join(parts.subrange(k + 1, n)) + crate::digest::sha1_sum(
        git_pack::pack_body(objects, window),
    );
    assert(parts.subrange(0, n) =~= parts);
    let front = git_pack::pack_upto(objects, window, k);
    let entry = git_pack::entry_at(objects, window, k);
    lemma_regroup(
        git_pack::pack_head(objects.len()),
        codec::join(parts.subrange(0, k)),
        entry,
        codec::join(parts.subrange(k + 1, n)),
        crate::digest::sha1_sum(git_pack::pack_body(objects, window)),
    );
    let body = git_pack::body_at(objects, window, k);
    let z = zlib::deflated(body);
    match git_pack::base_of(objects, window, k) {
        None => {
            let h = git_pack::obj_header(git_pack::written(objects, k).git_type, body.len());
            lemma_regroup_whole(front, h, z, behind);
        },
        Some(j) => {
            let h = git_pack::obj_header(REF_DELTA, body.len());
            let name = git_pack::written(objects, j).sha1@;
            lemma_regroup_delta(front, h, name, z, behind);
        },
    }
    behind
}

/// An object that was packed is read back from the pack, however many deltas lie
/// between it and an object that is stored whole.
pub proof fn packed_reads_back(
    objects: Seq<PackObject>,
    window: int,
    bases: Map<Seq<u8>, u64>,
    k: int,
    depth: nat,
)
    requires
        0 <= window,
        !git_pack::too_large(objects, window),
        git_pack::bodies_restorable(objects, window),
        names_resolve(objects, window, bases),
        forall|i: int|
            0 <= i < objects.len() ==> object_file::known_type((#[trigger] objects[i]).git_type),
        objects.len() <= usize::MAX,
        0 <= k < objects.len(),
        depth + git_pack::depth_at(objects, window, k) <= MAX_DELTA_DEPTH,
    ensures
        packed_at(
            git_pack::pack_image(objects, window),
            bases,
            git_pack::offset_at(objects, window, k) as u64,
            depth,
        ) == Ok::<Seq<u8>, Corruption>(git_pack::written(objects, k).content@),
    decreases k,
{
    reveal(git_pack::too_large);
    reveal(git_pack::bodies_restorable);
    sorting::stable_order_exists(git_pack::ranks(objects));
    let behind = lemma_pack_around(objects, window, k);
    let body = git_pack::body_at(objects, window, k);
    let front = git_pack::pack_upto(objects, window, k);
    let o = git_pack::written(objects, k);
    assert(git_pack::offset_at(objects, window, k) < git_pack::OFFSET_LIMIT);
    assert(object_file::known_type(objects[git_pack::write_order(objects)[k] as int].git_type));
    git_pack::base_precedes(objects, window, k);
    let low = if k <= window {
        0
    } else {
        k - window
    };
    git_pack::lemma_best_base(objects, window, k, low);
    assert(zlib::restorable(body));
    match git_pack::base_of(objects, window, k) {
        None => {
            lemma_whole_reads(front, o.git_type, body, behind, bases, depth);
        },
        Some(j) => {
            let b = git_pack::written(objects, j);
            assert(bases.contains_key(b.sha1@));
            assert(git_pack::offset_at(objects, window, j) < git_pack::OFFSET_LIMIT);
            packed_reads_back(objects, window, bases, j, depth + 1);
            delta::delta_roundtrip(b.content@, o.content@);
            lemma_delta_reads(
                front,
                b.sha1@,
                body,
                behind,
                bases,
                depth,
                b.content@,
                o.content@,
            );
        },
    }
}

/// Where the content of an object can be read, so can its base.
pub proof fn read_shows_base(v: PackView, pack: Seq<u8>, id: Seq<u8>)
    requires
        pack_read(v, pack, id) is Ok,
    ensures
        pack_base(v, pack, id) is Ok,
{
    reveal(packed_at);
}

/// No two rows have the same address.
pub open spec fn oids_differ(entries: Seq<LidxEntry>) -> bool {
    forall|i: int, j: int|
        0 <= i < j < entries.len() ==> (#[trigger] entries[i]).oid.bytes@ != (
        #[trigger] entries[j]).oid.bytes@
}

/// No two rows have the same name.
pub open spec fn names_differ(entries: Seq<LidxEntry>) -> bool {
    forall|i: int, j: int|
        0 <= i < j < entries.len() ==> (#[trigger] entries[i]).sha1@ != (
        #[trigger] entries[j]).sha1@
}

/// The index leads to the rows: by address where no two rows have the same, and by
/// name where no two rows have the same.
pub proof fn view_resolves(entries: Seq<LidxEntry>, i: int)
    requires
        0 <= i < entries.len(),
    ensures
        view_of(entries).by_oid.contains_key(entries[i].oid.bytes@),
        view_of(entries).oid_to_sha1.contains_key(entries[i].oid.bytes@),
        view_of(entries).sha1_to_offset.contains_key(entries[i].sha1@),
        view_of(entries).sha1_to_oid.contains_key(entries[i].sha1@),
        oids_differ(entries) ==> view_of(entries).by_oid[entries[i].oid.bytes@] == (
            entries[i].git_type,
            entries[i].offset,
        ) && view_of(entries).oid_to_sha1[entries[i].oid.bytes@] == entries[i].sha1,
        names_differ(entries) ==> view_of(entries).sha1_to_offset[entries[i].sha1@]
            == entries[i].offset && view_of(entries).sha1_to_oid[entries[i].sha1@]
            == entries[i].oid,
    decreases entries.len(),
{
    let n = entries.len() - 1;
    if i < n {
        let short = entries.drop_last();
        assert(short[i] == entries[i]);
        if oids_differ(entries) {
            assert(oids_differ(short)) by {
                assert forall|a: int, b: int| 0 <= a < b < short.len() implies (
                #[trigger] short[a]).oid.bytes@ != (#[trigger] short[b]).oid.bytes@ by {
                    assert(short[a] == entries[a] && short[b] == entries[b]);
                }
            }
            assert(entries[i].oid.bytes@ != entries[n].oid.bytes@);
        }
        if names_differ(entries) {
            assert(names_differ(short)) by {
                assert forall|a: int, b: int| 0 <= a < b < short.len() implies (
                #[trigger] short[a]).sha1@ != (#[trigger] short[b]).sha1@ by {
                    assert(short[a] == entries[a] && short[b] == entries[b]);
                }
            }
            assert(entries[i].sha1@ != entries[n].sha1@);
        }
        view_resolves(short, i);
    }
}

/// The index has the addresses of the rows and no others.
pub proof fn view_has_rows_only(entries: Seq<LidxEntry>, id: Seq<u8>)
    requires
        view_of(entries).by_oid.contains_key(id),
    ensures
        exists|i: int| 0 <= i < entries.len() && (#[trigger] entries[i]).oid.bytes@ == id,
    decreases entries.len(),
{
    let n = entries.len() - 1;
    if entries[n].oid.bytes@ == id {
        assert(entries[n].oid.bytes@ == id);
    } else {
        let short = entries.drop_last();
        view_has_rows_only(short, id);
        let i = choose|i: int| 0 <= i < short.len() && (#[trigger] short[i]).oid.bytes@ == id;
        assert(entries[i].oid.bytes@ == id);
    }
}

/// The rows describe the objects of a pack: address by address, with the names, the
/// types and the offsets at which they were written.
pub open spec fn rows_describe(
    entries: Seq<LidxEntry>,
    objects: Seq<PackObject>,
    offsets: Seq<u64>,
) -> bool {
    &&& entries.len() == objects.len() == offsets.len()
    &&& forall|i: int|
        0 <= i < entries.len() ==> (#[trigger] entries[i]).sha1 == objects[i].sha1
            && entries[i].git_type == objects[i].git_type && entries[i].offset == offsets[i]
}

/// A pack and its index by address give back every object that was packed.
pub proof fn pack_gives_back(
    entries: Seq<LidxEntry>,
    objects: Seq<PackObject>,
    window: int,
    offsets: Seq<u64>,
    i: int,
)
    requires
        0 <= window,
        rows_describe(entries, objects, offsets),
        oids_differ(entries),
        names_differ(entries),
        !git_pack::too_large(objects, window),
        git_pack::bodies_restorable(objects, window),
        git_pack::offsets_given(objects, window, offsets),
        forall|j: int|
            0 <= j < objects.len() ==> object_file::known_type((#[trigger] objects[j]).git_type),
        objects.len() <= usize::MAX,
        0 <= i < objects.len(),
    ensures
        pack_read(
            view_of(entries),
            git_pack::pack_image(objects, window),
            entries[i].oid.bytes@,
        ) == Ok::<Option<Seq<u8>>, Corruption>(Some(objects[i].content@)),
{
    reveal(git_pack::too_large);
    reveal(git_pack::offsets_given);
    let v = view_of(entries);
    let order = git_pack::write_order(objects);
    sorting::stable_order_exists(git_pack::ranks(objects));
    assert forall|k: int| 0 <= k < objects.len() implies v.sha1_to_offset.contains_key(
        (#[trigger] git_pack::written(objects, k)).sha1@,
    ) && v.sha1_to_offset[git_pack::written(objects, k).sha1@] == git_pack::offset_at(
        objects,
        window,
        k,
    ) by {
        let at = order[k] as int;
        view_resolves(entries, at);
        assert(entries[at].sha1 == objects[at].sha1);
        assert(offsets[at] == git_pack::offset_at(objects, window, k));
    }
    assert(sorting::lists(order, i));
    let k = choose|k: int| 0 <= k < order.len() && #[trigger] order[k] == i;
    git_pack::base_precedes(objects, window, k);
    packed_reads_back(objects, window, v.sha1_to_offset, k, 0);
    view_resolves(entries, i);
    assert(offsets[order[k] as int] == git_pack::offset_at(objects, window, k));
    assert(!(git_pack::offset_at(objects, window, k) >= git_pack::OFFSET_LIMIT));
}

} // verus!
