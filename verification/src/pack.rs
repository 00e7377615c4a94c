//! The internal pack format: many object files in one file, with an index of
//! offsets. A record holds the exact bytes of a loose object file, so that packed
//! and loose objects are read in the same way.
//!
//! ```text
//! pack    "PACKL\0", version (u32), then per record its length (u32) and its bytes
//! index   count (u32), then per record address (32), name (20) and offset (u64)
//! ```
//!
//! Numbers are little-endian.

use vstd::prelude::*;
use crate::codec;
use crate::codec::{copy_range, push_all, push_le32, push_le64, read_le32, read_le64};
use crate::digest;
use crate::digest::blake3_of_bytes;
use crate::git_pack_file;
use crate::graph::{sha1_at, Sha1};
use crate::hexcode;
use crate::keytable;
use crate::keytable::KeyTable;
use crate::object_file::id_at;
use crate::types::{Corruption, LedgeError, ObjectId};

verus! {

/// The version of the format.
pub const VERSION: u32 = 1;

/// The length of what precedes the records.
pub const HEAD_LEN: usize = 10;

/// The width of a row of the index.
pub const INDEX_ROW: usize = 60;

/// An object file, with the address of the object.
pub struct Record {
    pub id: ObjectId,
    pub bytes: Vec<u8>,
}

/// How a pack begins.
pub open spec fn magic() -> Seq<u8> {
    seq![80u8, 65, 67, 75, 76, 0]
}

/// The bytes of a record.
pub open spec fn record_image(bytes: Seq<u8>) -> Seq<u8> {
    codec::le32(bytes.len() as u32) + bytes
}

/// The records, each by its bytes.
pub open spec fn record_images(records: Seq<Record>) -> Seq<Seq<u8>> {
    Seq::new(records.len(), |i: int| record_image(records[i].bytes@))
}

/// The pack up to the `k`th record.
pub open spec fn pack_upto(records: Seq<Record>, k: int) -> Seq<u8> {
    magic() + codec::le32(VERSION) + codec::join(record_images(records).subrange(0, k))
}

/// The pack.
pub open spec fn pack_image(records: Seq<Record>) -> Seq<u8> {
    pack_upto(records, records.len() as int)
}

/// Git's name for the object of a record: its first twenty bytes, or zeros where it
/// is shorter.
pub open spec fn record_name(bytes: Seq<u8>) -> Seq<u8> {
    if bytes.len() >= 20 {
        bytes.subrange(0, 20)
    } else {
        Seq::new(20, |i: int| 0u8)
    }
}

/// The row of the `k`th record.
pub open spec fn index_row(records: Seq<Record>, k: int) -> Seq<u8> {
    records[k].id.bytes@ + record_name(records[k].bytes@) + codec::le64(
        pack_upto(records, k).len() as u64,
    )
}

/// The rows of the index.
pub open spec fn index_rows(records: Seq<Record>) -> Seq<Seq<u8>> {
    Seq::new(records.len(), |k: int| index_row(records, k))
}

/// The index.
pub open spec fn index_image(records: Seq<Record>) -> Seq<u8> {
    codec::le32(records.len() as u32) + codec::join(index_rows(records))
}

/// A pack with its index, and the hash of the pack in hexadecimal, by which the
/// files are named.
pub struct WrittenPack {
    pub name: Vec<u8>,
    pub pack: Vec<u8>,
    pub idx: Vec<u8>,
}

/// Writes packs.
pub struct PackWriter;

impl PackWriter {
    /// Writes records into a pack and its index.
    pub fn write(records: &Vec<Record>) -> (r: WrittenPack)
        ensures
            r.pack@ == pack_image(records@),
            r.idx@ == index_image(records@),
            r.name@ == hexcode::encoded(digest::blake3_sum(r.pack@)),
    {
        let mut pack: Vec<u8> = Vec::new();
        pack.push(80);
        pack.push(65);
        pack.push(67);
        pack.push(75);
        pack.push(76);
        pack.push(0);
        push_le32(&mut pack, VERSION);
        let mut idx: Vec<u8> = Vec::new();
        push_le32(&mut idx, records.len() as u32);
        let ghost head = idx@;
        proof {
            assert(record_images(records@).subrange(0, 0) =~= Seq::<Seq<u8>>::empty());
            assert(index_rows(records@).subrange(0, 0) =~= Seq::<Seq<u8>>::empty());
            assert(pack@ =~= pack_upto(records@, 0));
            assert(head =~= codec::le32(records.len() as u32));
            assert(idx@ =~= head + codec::join(index_rows(records@).subrange(0, 0)));
        }
        let mut k: usize = 0;
        while k < records.len()
            invariant
                k <= records.len(),
                pack@ == pack_upto(records@, k as int),
                idx@ == head + codec::join(index_rows(records@).subrange(0, k as int)),
            decreases records.len() - k,
        {
            let ghost pack0 = pack@;
            let ghost idx0 = idx@;
            let offset: u64 = pack.len() as u64;
            let bytes = &records[k].bytes;
            push_le32(&mut pack, bytes.len() as u32);
            push_all(&mut pack, bytes.as_slice());
            push_all(&mut idx, records[k].id.bytes.as_slice());
            let name: Sha1 = if bytes.len() >= 20 {
                sha1_at(bytes.as_slice(), 0)
            } else {
                [0u8; 20]
            };
            push_all(&mut idx, name.as_slice());
            push_le64(&mut idx, offset);
            proof {
                codec::lemma_join_step(record_images(records@), k as int);
                codec::lemma_join_step(index_rows(records@), k as int);
                assert(name@ =~= record_name(bytes@));
                assert(pack@ =~= pack0 + record_image(bytes@));
                assert(pack@ =~= pack_upto(records@, k + 1));
                assert(idx@ =~= idx0 + index_row(records@, k as int));
                assert(idx@ =~= head + codec::join(index_rows(records@).subrange(0, k + 1)));
            }
            k += 1;
        }
        assert(index_rows(records@).subrange(0, k as int) =~= index_rows(records@));
        let name = hexcode::encode(blake3_of_bytes(pack.as_slice()).as_slice());
        WrittenPack { name, pack, idx }
    }
}

/// The pack begins as a pack does.
pub open spec fn head_ok(pack: Seq<u8>) -> bool {
    pack.len() >= HEAD_LEN && pack.subrange(0, 6) == magic()
}

/// How many rows an index announces.
pub open spec fn row_count(idx: Seq<u8>) -> int {
    codec::from_le32(idx.subrange(0, 4))
}

/// The index is made of rows, and holds those that it announces.
pub open spec fn index_ok(idx: Seq<u8>) -> bool {
    idx.len() >= 4 && (idx.len() - 4) % INDEX_ROW as int == 0 && idx.len() >= 4 + INDEX_ROW
        * row_count(idx)
}

/// What an index holds.
pub struct PackView {
    pub index: Map<Seq<u8>, u64>,
    pub sha1_to_id: Map<Seq<u8>, Seq<u8>>,
}

/// What the first `n` rows of an index say, later rows over earlier ones.
pub open spec fn rows_view(idx: Seq<u8>, n: nat) -> PackView
    decreases n,
{
    if n == 0 {
        PackView { index: Map::empty(), sha1_to_id: Map::empty() }
    } else {
        let v = rows_view(idx, (n - 1) as nat);
        let p = 4 + INDEX_ROW * (n - 1);
        let id = idx.subrange(p, p + 32);
        PackView {
            index: v.index.insert(id, codec::from_le64(idx.subrange(p + 52, p + 60)) as u64),
            sha1_to_id: v.sha1_to_id.insert(idx.subrange(p + 32, p + 52), id),
        }
    }
}

/// The record at an offset, if the pack holds it.
pub open spec fn record_at(pack: Seq<u8>, offset: u64) -> Option<Seq<u8>> {
    if offset + 4 > pack.len() {
        None
    } else {
        let n = codec::from_le32(pack.subrange(offset as int, offset + 4));
        if offset + 4 + n > pack.len() {
            None
        } else {
            Some(pack.subrange(offset + 4, offset + 4 + n))
        }
    }
}

/// The index of a pack.
pub struct PackFile {
    index: KeyTable<32, u64>,
    sha1_to_id: KeyTable<20, ObjectId>,
}

impl View for PackFile {
    type V = PackView;

    closed spec fn view(&self) -> PackView {
        PackView {
            index: self.index@,
            sha1_to_id: self.sha1_to_id@.map_values(|id: ObjectId| id.bytes@),
        }
    }
}

fn check_head(pack: &[u8]) -> (r: bool)
    ensures
        r == head_ok(pack@),
{
    if pack.len() < HEAD_LEN {
        return false;
    }
    let r: bool = pack[0] == 80 && pack[1] == 65 && pack[2] == 67 && pack[3] == 75 && pack[4] == 76
        && pack[5] == 0;
    proof {
        let m = magic();
        let h = pack@.subrange(0, 6);
        if r {
            assert(h =~= m);
        } else if h == m {
            assert(h[0] == m[0] && h[1] == m[1] && h[2] == m[2] && h[3] == m[3] && h[4] == m[4]
                && h[5] == m[5]);
        }
    }
    r
}

impl PackFile {
    /// Opens a pack: looks at how it begins, and reads its index.
    pub fn open(pack: &[u8], idx: &[u8]) -> (r: Result<Self, LedgeError>)
        ensures
            match r {
                Ok(p) => head_ok(pack@) && index_ok(idx@) && p@ == rows_view(
                    idx@,
                    row_count(idx@) as nat,
                ),
                Err(LedgeError::Corruption(Corruption::PackMagic)) => !head_ok(pack@),
                Err(e) => e == LedgeError::Corruption(Corruption::PackIndex) && head_ok(pack@)
                    && !index_ok(idx@),
            },
    {
        if !check_head(pack) {
            return Err(LedgeError::Corruption(Corruption::PackMagic));
        }
        if idx.len() < 4 || (idx.len() - 4) % 60 != 0 {
            return Err(LedgeError::Corruption(Corruption::PackIndex));
        }
        let count: u32 = read_le32(idx, 0);
        if (idx.len() - 4) as u64 / 60 < count as u64 {
            return Err(LedgeError::Corruption(Corruption::PackIndex));
        }
        let mut index: KeyTable<32, u64> = KeyTable::new();
        let mut sha1_to_id: KeyTable<20, ObjectId> = KeyTable::new();
        let mut n: u32 = 0;
        let mut p: usize = 4;
        assert(sha1_to_id@.map_values(|id: ObjectId| id.bytes@) =~= Map::<Seq<u8>, Seq<u8>>::empty());
        while n < count
            invariant
                n <= count,
                count == row_count(idx@),
                4 + 60 * count <= idx.len(),
                p == 4 + 60 * n,
                index@ == rows_view(idx@, n as nat).index,
                sha1_to_id@.map_values(|id: ObjectId| id.bytes@) == rows_view(
                    idx@,
                    n as nat,
                ).sha1_to_id,
            decreases count - n,
        {
            let id = id_at(idx, p);
            let name = sha1_at(idx, p + 32);
            let offset = read_le64(idx, p + 52);
            let ghost before = sha1_to_id@;
            index.insert(id.bytes, offset);
            sha1_to_id.insert(name, id);
            assert(sha1_to_id@.map_values(|id: ObjectId| id.bytes@) =~= before.map_values(
                |id: ObjectId| id.bytes@,
            ).insert(name@, id.bytes@));
            n += 1;
            p += 60;
        }
        Ok(PackFile { index, sha1_to_id })
    }

    /// Whether the pack has an object.
    pub fn contains(&self, id: ObjectId) -> (r: bool)
        ensures
            r == self@.index.contains_key(id.bytes@),
    {
        self.index.get(&id.bytes).is_some()
    }

    /// For each name the address of its object.
    pub fn sha1_map(&self) -> (r: &KeyTable<20, ObjectId>)
        ensures
            r@.map_values(|id: ObjectId| id.bytes@) == self@.sha1_to_id,
    {
        &self.sha1_to_id
    }

    /// The addresses of all objects, ascending.
    pub fn ids(&self) -> (r: Vec<ObjectId>)
        ensures
            git_pack_file::lists_ids(r@, self@.index.dom()),
    {
        let n: usize = self.index.len();
        let ghost rows = self.index.rows();
        let mut out: Vec<ObjectId> = Vec::new();
        let mut i: usize = 0;
        while i < n
            invariant
                i <= n == rows.len(),
                rows == self.index.rows(),
                keytable::keys_ascending(rows),
                out.len() == i,
                forall|j: int| 0 <= j < i ==> (#[trigger] out@[j]).bytes == rows[j].0,
            decreases n - i,
        {
            let (key, _) = self.index.row(i);
            out.push(ObjectId::from_bytes(*key));
            i += 1;
        }
        proof {
            assert forall|j: int| 0 <= j < out.len() implies self@.index.dom().contains(
                (#[trigger] out@[j]).bytes@,
            ) by {
                keytable::lemma_row(rows, j);
            }
            assert forall|a: int, b: int| 0 <= a < b < out.len() implies keytable::key_less(
                (#[trigger] out@[a]).bytes@,
                (#[trigger] out@[b]).bytes@,
            ) by {
                assert(keytable::key_less(rows[a].0@, rows[b].0@));
            }
            assert forall|k: Seq<u8>| self@.index.dom().contains(k) implies #[trigger]
            git_pack_file::has_id(out@, k) by {
                let j = choose|j: int| 0 <= j < rows.len() && (#[trigger] rows[j]).0@ == k;
                assert(out@[j].bytes@ == k);
            }
        }
        out
    }

    /// The record of an object, from the pack; `None` where there is none, or the
    /// pack is cut short.
    pub fn get(&self, pack: &[u8], id: ObjectId) -> (r: Option<Vec<u8>>)
        ensures
            git_pack_file::option_view(r) == if self@.index.contains_key(id.bytes@) {
                record_at(pack@, self@.index[id.bytes@])
            } else {
                None
            },
    {
        let offset: u64 = match self.index.get(&id.bytes) {
            Some(o) => *o,
            None => {
                return None;
            },
        };
        let total: u64 = pack.len() as u64;
        if offset > total || total - offset < 4 {
            return None;
        }
        let at: usize = offset as usize;
        let n: u32 = read_le32(pack, at);
        if (total - offset - 4) < n as u64 {
            return None;
        }
        Some(copy_range(pack, at + 4, at + 4 + n as usize))
    }
}

/// Opening what was written succeeds, and the pack gives back every record that no
/// later record with the same address replaces.
pub proof fn pack_roundtrip(records: Seq<Record>, k: int)
    requires
        records.len() <= u32::MAX,
        pack_image(records).len() <= u64::MAX,
        0 <= k < records.len(),
        records[k].bytes@.len() <= u32::MAX,
        forall|j: int| k < j < records.len() ==> (#[trigger] records[j]).id != records[k].id,
    ensures
        head_ok(pack_image(records)),
        index_ok(index_image(records)),
        row_count(index_image(records)) == records.len(),
        ({
            let v = rows_view(index_image(records), records.len());
            &&& v.index.contains_key(records[k].id.bytes@)
            &&& record_at(pack_image(records), v.index[records[k].id.bytes@]) == Some(
                records[k].bytes@,
            )
        }),
{
    lemma_index_ok(records);
    lemma_view_row(records, k, records.len());
    lemma_pack_prefix(records, k);
    lemma_record_stands(records, k);
    assert(pack_image(records).subrange(0, 6) =~= magic());
}

proof fn lemma_index_ok(records: Seq<Record>)
    requires
        records.len() <= u32::MAX,
    ensures
        index_ok(index_image(records)),
        row_count(index_image(records)) == records.len(),
{
    let idx = index_image(records);
    let rows = index_rows(records);
    let n = records.len() as int;
    assert forall|i: int| 0 <= i < rows.len() implies (#[trigger] rows[i]).len() == 60 by {}
    codec::lemma_join_width(rows, 60);
    assert(idx.subrange(0, 4) =~= codec::le32(n as u32));
    codec::le32_roundtrip(n as u32);
    assert(idx.len() == 4 + 60 * n);
    assert((60 * n) % 60 == 0) by (nonlinear_arith);
}

/// The record stands where its row says.
proof fn lemma_record_stands(records: Seq<Record>, k: int)
    requires
        pack_image(records).len() <= u64::MAX,
        0 <= k < records.len(),
        records[k].bytes@.len() <= u32::MAX,
        pack_upto(records, k).len() <= u64::MAX,
    ensures
        record_at(pack_image(records), pack_upto(records, k).len() as u64) == Some(
            records[k].bytes@,
        ),
{
    let pack = pack_image(records);
    let n = records.len() as int;
    let parts = record_images(records);
    codec::lemma_join_split(parts, k);
    assert(parts.subrange(0, n) =~= parts);
    let front = pack_upto(records, k);
    let tail = codec::join(parts.subrange(k + 1, n));
    let bytes = records[k].bytes@;
    assert(pack =~= front + record_image(bytes) + tail);
    let at = front.len() as int;
    assert(pack.subrange(at, at + 4) =~= codec::le32(bytes.len() as u32));
    codec::le32_roundtrip(bytes.len() as u32);
    assert(pack.subrange(at + 4, at + 4 + bytes.len()) =~= bytes);
}

/// The row of the `k`th record is in force after the first `m` rows.
proof fn lemma_view_row(records: Seq<Record>, k: int, m: nat)
    requires
        records.len() <= u32::MAX,
        pack_image(records).len() <= u64::MAX,
        0 <= k < m <= records.len(),
        forall|j: int| k < j < records.len() ==> (#[trigger] records[j]).id != records[k].id,
    ensures
        rows_view(index_image(records), m).index.contains_key(records[k].id.bytes@),
        rows_view(index_image(records), m).index[records[k].id.bytes@] == pack_upto(
            records,
            k,
        ).len(),
    decreases m,
{
    let idx = index_image(records);
    let rows = index_rows(records);
    let last = m - 1;
    let p = 4 + 60 * last;
    codec::lemma_join_split(rows, last);
    let front = rows.subrange(0, last);
    assert forall|i: int| 0 <= i < front.len() implies (#[trigger] front[i]).len() == 60 by {
        assert(front[i] == rows[i]);
    }
    codec::lemma_join_width(front, 60);
    let head = codec::le32(records.len() as u32) + codec::join(front);
    let tail = codec::join(rows.subrange(m as int, rows.len() as int));
    assert(idx =~= head + rows[last] + tail);
    assert(head.len() == p);
    assert(idx.subrange(p, p + 32) =~= records[last].id.bytes@);
    lemma_pack_prefix(records, last);
    let offset = pack_upto(records, last).len() as u64;
    assert(idx.subrange(p + 52, p + 60) =~= codec::le64(offset));
    codec::le64_roundtrip(offset);
    if last > k {
        lemma_view_row(records, k, last as nat);
        assert(records[last].id != records[k].id);
        if records[last].id.bytes@ == records[k].id.bytes@ {
            assert(records[last].id.bytes =~= records[k].id.bytes);
        }
    }
}

proof fn lemma_pack_prefix(records: Seq<Record>, k: int)
    requires
        0 <= k <= records.len(),
    ensures
        pack_upto(records, k).len() <= pack_image(records).len(),
    decreases records.len() - k,
{
    let parts = record_images(records);
    if k < records.len() {
        codec::lemma_join_step(parts, k);
        lemma_pack_prefix(records, k + 1);
    }
}

} // verus!
