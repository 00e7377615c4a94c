//! Writing git packs, version 2, and their indexes. Objects are stored whole or as
//! deltas against another object of the pack, and every body is compressed.

use vstd::prelude::*;
use crate::codec;
use crate::codec::{push_all, push_be32};
use crate::delta;
use crate::delta::encode_delta;
use crate::digest;
use crate::digest::sha1_of_bytes;
use crate::graph::Sha1;
use crate::keytable;
use crate::keytable::{key_order, KeyOrder};
use crate::sorting;
use crate::sorting::{sort_positions, SortKey};
use crate::types::{Corruption, LedgeError};
use crate::varint;
use crate::varint::write_varint;
use crate::zlib;
use crate::zlib::{compress, crc_of_bytes};

verus! {

/// The longest chain of deltas.
pub const MAX_DELTA_DEPTH: usize = 50;

/// The first offset that the index cannot hold.
pub const OFFSET_LIMIT: u64 = 0x8000_0000;

/// The type that marks a delta whose base is named by its SHA-1.
pub const REF_DELTA: u8 = 7;

/// An object to be packed.
pub struct PackObject {
    /// 1 commit, 2 tree, 3 blob, 4 tag.
    pub git_type: u8,
    pub content: Vec<u8>,
    pub sha1: Sha1,
}

// ---------------------------------------------------------------------------
// Object headers
// ---------------------------------------------------------------------------

/// The byte with its high bit set.
pub open spec fn with_high_bit(b: u8) -> u8 {
    if b >= 128 {
        b
    } else {
        (b + 128) as u8
    }
}

/// The header of a packed object: the type and the low four bits of the length, and
/// the rest of the length in groups of seven bits.
pub open spec fn obj_header(git_type: u8, size: nat) -> Seq<u8> {
    let first = ((git_type % 16) * 16 + size % 16) as u8;
    if size < 16 {
        seq![first]
    } else {
        seq![with_high_bit(first)] + varint::varint(size / 16)
    }
}

/// Appends the header of a packed object.
pub fn write_obj_header(out: &mut Vec<u8>, git_type: u8, size: usize)
    ensures
        final(out)@ == old(out)@ + obj_header(git_type, size as nat),
{
    let ghost before = out@;
    let first: u8 = (git_type % 16) * 16 + (size % 16) as u8;
    if size < 16 {
        out.push(first);
        assert(out@ =~= before + obj_header(git_type, size as nat));
    } else {
        out.push(
            if first >= 128 {
                first
            } else {
                first + 128
            },
        );
        write_varint(out, (size / 16) as u64);
        assert(out@ =~= before + obj_header(git_type, size as nat));
    }
}

// ---------------------------------------------------------------------------
// The order of the objects
// ---------------------------------------------------------------------------

/// What decides the place of an object: its type and its length.
#[derive(Clone, Copy, Debug)]
pub struct PackRank {
    pub git_type: u8,
    pub len: usize,
}

impl SortKey for PackRank {
    /// Types ascend; within a type the longest object comes first.
    open spec fn before(self, other: Self) -> bool {
        self.git_type < other.git_type || (self.git_type == other.git_type && self.len > other.len)
    }

    proof fn before_strict(a: Self, b: Self) {
    }

    proof fn before_transitive(a: Self, b: Self, c: Self) {
    }

    proof fn before_weak(a: Self, b: Self, c: Self) {
    }

    fn comes_before(&self, other: &Self) -> (r: bool) {
        self.git_type < other.git_type || (self.git_type == other.git_type && self.len > other.len)
    }
}

/// What decides the place of an object in the index: its name.
#[derive(Clone, Copy, Debug)]
pub struct NameRank {
    pub sha1: Sha1,
}

impl SortKey for NameRank {
    open spec fn before(self, other: Self) -> bool {
        keytable::key_less(self.sha1@, other.sha1@)
    }

    proof fn before_strict(a: Self, b: Self) {
        if a.before(b) {
            keytable::key_less_antisymmetric(a.sha1@, b.sha1@);
        }
    }

    proof fn before_transitive(a: Self, b: Self, c: Self) {
        keytable::key_less_transitive(a.sha1@, b.sha1@, c.sha1@);
    }

    proof fn before_weak(a: Self, b: Self, c: Self) {
        let i = choose|i: int| #[trigger]
            keytable::first_difference(a.sha1@, c.sha1@, i) && a.sha1@[i] < c.sha1@[i];
        keytable::key_less_total(a.sha1@, b.sha1@);
        keytable::key_less_total(b.sha1@, c.sha1@);
        if !a.before(b) && !b.before(c) {
            if b.before(a) {
                keytable::key_less_transitive(b.sha1@, a.sha1@, c.sha1@);
            }
        }
    }

    fn comes_before(&self, other: &Self) -> (r: bool) {
        match key_order(&self.sha1, &other.sha1) {
            KeyOrder::Before => true,
            KeyOrder::Same => {
                proof {
                    if keytable::key_less(self.sha1@, other.sha1@) {
                        keytable::key_less_antisymmetric(self.sha1@, other.sha1@);
                    }
                }
                false
            },
            KeyOrder::After => {
                proof {
                    keytable::key_less_antisymmetric(other.sha1@, self.sha1@);
                }
                false
            },
        }
    }
}

/// What decides the order in which objects are written.
pub open spec fn ranks(objects: Seq<PackObject>) -> Seq<PackRank> {
    Seq::new(
        objects.len(),
        |i: int| PackRank { git_type: objects[i].git_type, len: objects[i].content.len() },
    )
}

/// The order in which objects are written: types ascending, and within a type the
/// longest first, so that a delta describes a shorter object by a longer one.
pub open spec fn write_order(objects: Seq<PackObject>) -> Seq<usize> {
    sorting::stable_order(ranks(objects))
}

/// The `k`th object that is written.
pub open spec fn written(objects: Seq<PackObject>, k: int) -> PackObject {
    objects[write_order(objects)[k] as int]
}

// ---------------------------------------------------------------------------
// The choice of bases
// ---------------------------------------------------------------------------

/// The delta from the `j`th to the `k`th written object.
pub open spec fn delta_between(objects: Seq<PackObject>, j: int, k: int) -> Seq<u8> {
    delta::delta_of(written(objects, j).content@, written(objects, k).content@)
}

/// The best base for the `k`th object among those written from `low` on before it:
/// of the same type, not at the end of a chain that is long already, and with the
/// shortest delta, which is shorter than the content. Of equals the nearest.
pub open spec fn best_base(
    objects: Seq<PackObject>,
    window: int,
    k: int,
    low: int,
) -> Option<int>
    decreases k, k - low,
{
    if low < 0 || low >= k {
        None
    } else {
        let nearer = best_base(objects, window, k, low + 1);
        let shortest = match nearer {
            Some(j) => delta_between(objects, j, k).len(),
            None => written(objects, k).content@.len(),
        };
        if written(objects, low).git_type == written(objects, k).git_type && depth_at(
            objects,
            window,
            low,
        ) < MAX_DELTA_DEPTH && delta_between(objects, low, k).len() < shortest {
            Some(low)
        } else {
            nearer
        }
    }
}

/// The object that the `k`th is stored as a delta against, if it is: the best of
/// the last `window` objects, where the compressed delta is shorter than the
/// compressed content.
pub open spec fn base_of(objects: Seq<PackObject>, window: int, k: int) -> Option<int>
    decreases k, k + 1,
{
    let low = if k <= window {
        0
    } else {
        k - window
    };
    if k < 0 || window < 0 {
        None
    } else {
        match best_base(objects, window, k, low) {
            Some(j) => if zlib::deflated(delta_between(objects, j, k)).len() < zlib::deflated(
                written(objects, k).content@,
            ).len() {
                Some(j)
            } else {
                None
            },
            None => None,
        }
    }
}

/// How many deltas lie between the `k`th object and one that is stored whole.
pub open spec fn depth_at(objects: Seq<PackObject>, window: int, k: int) -> nat
    decreases k, k + 2,
{
    if k < 0 {
        0
    } else {
        match base_of(objects, window, k) {
            Some(j) => if 0 <= j < k {
                depth_at(objects, window, j) + 1
            } else {
                0
            },
            None => 0,
        }
    }
}

/// The best base is one of those asked about.
pub proof fn lemma_best_base(objects: Seq<PackObject>, window: int, k: int, low: int)
    requires
        0 <= low <= k,
    ensures
        best_base(objects, window, k, low) matches Some(j) ==> low <= j < k && written(
            objects,
            j,
        ).git_type == written(objects, k).git_type && depth_at(objects, window, j)
            < MAX_DELTA_DEPTH && delta_between(objects, j, k).len() < written(
            objects,
            k,
        ).content@.len(),
    decreases k - low,
{
    if low < k {
        lemma_best_base(objects, window, k, low + 1);
    }
}

/// A base was written earlier, within the window, has the type of its delta, and
/// chains stay short.
pub proof fn base_precedes(objects: Seq<PackObject>, window: int, k: int)
    requires
        0 <= k,
        0 <= window,
    ensures
        base_of(objects, window, k) matches Some(j) ==> 0 <= j < k && k - j <= window && written(
            objects,
            j,
        ).git_type == written(objects, k).git_type,
        depth_at(objects, window, k) <= MAX_DELTA_DEPTH,
{
    let low = if k <= window {
        0
    } else {
        k - window
    };
    lemma_best_base(objects, window, k, low);
}

/// The position of the best base for the `k`th object, with its delta.
fn find_base(
    objects: &Vec<PackObject>,
    order: &Vec<usize>,
    depths: &Vec<usize>,
    window: usize,
    k: usize,
) -> (r: Option<(usize, Vec<u8>)>)
    requires
        order@ == write_order(objects@),
        sorting::is_stable_order(ranks(objects@), order@),
        k < objects.len(),
        depths.len() == k,
        forall|j: int| 0 <= j < k ==> #[trigger] depths@[j] == depth_at(objects@, window as int, j),
    ensures
        match r {
            Some((j, d)) => base_of(objects@, window as int, k as int) == Some(j as int) && d@
                == delta_between(objects@, j as int, k as int) && j < k && zlib::restorable(d@),
            None => base_of(objects@, window as int, k as int) is None,
        },
{
    let low: usize = if k <= window {
        0
    } else {
        k - window
    };
    let target = &objects[order[k]];
    let ghost w = window as int;
    let mut best: Option<(usize, Vec<u8>)> = None;
    let mut shortest: usize = target.content.len();
    let mut j: usize = k;
    while j > low
        invariant
            low <= j <= k < objects.len(),
            w == window as int,
            order@ == write_order(objects@),
            sorting::is_stable_order(ranks(objects@), order@),
            *target == written(objects@, k as int),
            depths.len() == k,
            forall|j: int|
                0 <= j < k ==> #[trigger] depths@[j] == depth_at(objects@, window as int, j),
            match best {
                Some((b, d)) => best_base(objects@, w, k as int, j as int) == Some(b as int)
                    && d@ == delta_between(objects@, b as int, k as int) && shortest == d.len()
                    && b < k,
                None => best_base(objects@, w, k as int, j as int) is None && shortest
                    == target.content.len(),
            },
        decreases j,
    {
        j = j - 1;
        let base = &objects[order[j]];
        assert(*base == written(objects@, j as int));
        assert(depths@[j as int] == depth_at(objects@, window as int, j as int));
        if base.git_type == target.git_type && depths[j] < MAX_DELTA_DEPTH {
            let d = encode_delta(base.content.as_slice(), target.content.as_slice());
            if d.len() < shortest {
                shortest = d.len();
                best = Some((j, d));
            }
        }
    }
    match best {
        Some((b, d)) => {
            let short = compress(d.as_slice());
            let full = compress(target.content.as_slice());
            if short.len() < full.len() {
                Some((b, d))
            } else {
                None
            }
        },
        None => None,
    }
}

/// Chooses a base for each object, in the order in which they are written.
fn choose_bases(objects: &Vec<PackObject>, order: &Vec<usize>, window: usize) -> (r: Vec<
    Option<(usize, Vec<u8>)>,
>)
    requires
        order@ == write_order(objects@),
        sorting::is_stable_order(ranks(objects@), order@),
    ensures
        r.len() == objects.len(),
        forall|k: int| 0 <= k < r.len() ==> chosen(objects@, window as int, k, #[trigger] r@[k]),
{
    let mut picks: Vec<Option<(usize, Vec<u8>)>> = Vec::new();
    let mut depths: Vec<usize> = Vec::new();
    let mut k: usize = 0;
    while k < objects.len()
        invariant
            k <= objects.len(),
            order@ == write_order(objects@),
            sorting::is_stable_order(ranks(objects@), order@),
            picks.len() == k,
            depths.len() == k,
            forall|j: int|
                0 <= j < k ==> #[trigger] depths@[j] == depth_at(objects@, window as int, j),
            forall|j: int|
                0 <= j < k ==> chosen(objects@, window as int, j, #[trigger] picks@[j]),
        decreases objects.len() - k,
    {
        let pick = find_base(objects, order, &depths, window, k);
        proof {
            base_precedes(objects@, window as int, k as int);
        }
        let depth: usize = match &pick {
            Some((j, _)) => {
                assert(depths@[*j as int] == depth_at(objects@, window as int, *j as int));
                depths[*j] + 1
            },
            None => 0,
        };
        depths.push(depth);
        picks.push(pick);
        k += 1;
    }
    picks
}

/// The choice for the `k`th object.
pub open spec fn chosen(
    objects: Seq<PackObject>,
    window: int,
    k: int,
    pick: Option<(usize, Vec<u8>)>,
) -> bool {
    match pick {
        Some((j, d)) => {
            &&& base_of(objects, window, k) == Some(j as int)
            &&& d@ == delta_between(objects, j as int, k)
            &&& j < k
        },
        None => base_of(objects, window, k) is None,
    }
}

// ---------------------------------------------------------------------------
// The pack
// ---------------------------------------------------------------------------

/// What the body of the `k`th written object compresses: its content, or the delta
/// from its base.
pub open spec fn body_at(objects: Seq<PackObject>, window: int, k: int) -> Seq<u8> {
    match base_of(objects, window, k) {
        Some(j) => delta_between(objects, j, k),
        None => written(objects, k).content@,
    }
}

/// The bytes of the `k`th written object.
pub open spec fn entry_at(objects: Seq<PackObject>, window: int, k: int) -> Seq<u8> {
    let body = body_at(objects, window, k);
    match base_of(objects, window, k) {
        Some(j) => obj_header(REF_DELTA, body.len()) + written(objects, j).sha1@ + zlib::deflated(
            body,
        ),
        None => obj_header(written(objects, k).git_type, body.len()) + zlib::deflated(body),
    }
}

/// The written objects, one after the other.
pub open spec fn entries(objects: Seq<PackObject>, window: int) -> Seq<Seq<u8>> {
    Seq::new(objects.len(), |k: int| entry_at(objects, window, k))
}

/// How a pack begins: "PACK", the version and the number of objects.
pub open spec fn pack_head(n: nat) -> Seq<u8> {
    seq![80u8, 65, 67, 75] + codec::be32(2) + codec::be32(n as u32)
}

/// The pack up to the `k`th written object.
pub open spec fn pack_upto(objects: Seq<PackObject>, window: int, k: int) -> Seq<u8> {
    pack_head(objects.len()) + codec::join(entries(objects, window).subrange(0, k))
}

/// Where the `k`th written object begins.
pub open spec fn offset_at(objects: Seq<PackObject>, window: int, k: int) -> nat {
    pack_upto(objects, window, k).len()
}

/// The pack without its checksum.
pub open spec fn pack_body(objects: Seq<PackObject>, window: int) -> Seq<u8> {
    pack_upto(objects, window, objects.len() as int)
}

/// The pack: its objects and the SHA-1 of all that precedes.
pub open spec fn pack_image(objects: Seq<PackObject>, window: int) -> Seq<u8> {
    pack_body(objects, window) + digest::sha1_sum(pack_body(objects, window))
}

/// An object would begin where the index cannot point to.
#[verifier::opaque]
pub open spec fn too_large(objects: Seq<PackObject>, window: int) -> bool {
    exists|k: int|
        0 <= k < objects.len() && #[trigger] offset_at(objects, window, k) >= OFFSET_LIMIT
}

/// The offsets of the objects, in the order in which they were given.
#[verifier::opaque]
pub open spec fn offsets_given(
    objects: Seq<PackObject>,
    window: int,
    offsets: Seq<u64>,
) -> bool {
    &&& offsets.len() == objects.len()
    &&& forall|k: int|
        0 <= k < objects.len() ==> offsets[write_order(objects)[k] as int] == #[trigger] offset_at(
            objects,
            window,
            k,
        )
}

/// The bodies expand to what was compressed.
#[verifier::opaque]
pub open spec fn bodies_restorable(objects: Seq<PackObject>, window: int) -> bool {
    forall|k: int|
        0 <= k < objects.len() ==> zlib::restorable(#[trigger] body_at(objects, window, k))
}

/// The pack grows by one object.
pub proof fn lemma_pack_step(objects: Seq<PackObject>, window: int, k: int)
    requires
        0 <= k < objects.len(),
    ensures
        pack_upto(objects, window, k + 1) == pack_upto(objects, window, k) + entry_at(
            objects,
            window,
            k,
        ),
        entry_at(objects, window, k).len() >= 1,
{
    codec::lemma_join_step(entries(objects, window), k);
    assert(pack_upto(objects, window, k + 1) =~= pack_upto(objects, window, k) + entry_at(
        objects,
        window,
        k,
    ));
}

/// What the index records of an object.
#[derive(Clone, Copy, Debug)]
pub struct IndexRow {
    pub sha1: Sha1,
    pub offset: u64,
    pub crc: u32,
}

/// Appends the `k`th written object.
fn push_entry(
    pack: &mut Vec<u8>,
    objects: &Vec<PackObject>,
    order: &Vec<usize>,
    window: usize,
    picks: &Vec<Option<(usize, Vec<u8>)>>,
    k: usize,
)
    requires
        order@ == write_order(objects@),
        sorting::is_stable_order(ranks(objects@), order@),
        picks.len() == objects.len(),
        k < objects.len(),
        chosen(objects@, window as int, k as int, picks@[k as int]),
    ensures
        final(pack)@ == old(pack)@ + entry_at(objects@, window as int, k as int),
        zlib::restorable(body_at(objects@, window as int, k as int)),
{
    let ghost before = pack@;
    let o = &objects[order[k]];
    assert(*o == written(objects@, k as int));
    match &picks[k] {
        Some((j, d)) => {
            write_obj_header(pack, REF_DELTA, d.len());
            push_all(pack, objects[order[*j]].sha1.as_slice());
            push_all(pack, compress(d.as_slice()).as_slice());
        },
        None => {
            write_obj_header(pack, o.git_type, o.content.len());
            push_all(pack, compress(o.content.as_slice()).as_slice());
        },
    }
    assert(pack@ =~= before + entry_at(objects@, window as int, k as int));
}

/// The pack without its checksum, the offsets by the order given, and the rows of
/// the index by the order written.
fn write_entries(
    objects: &Vec<PackObject>,
    order: &Vec<usize>,
    window: usize,
    picks: &Vec<Option<(usize, Vec<u8>)>>,
) -> (r: Result<(Vec<u8>, Vec<u64>, Vec<IndexRow>), LedgeError>)
    requires
        order@ == write_order(objects@),
        sorting::is_stable_order(ranks(objects@), order@),
        picks.len() == objects.len(),
        forall|k: int|
            0 <= k < picks.len() ==> chosen(objects@, window as int, k, #[trigger] picks@[k]),
    ensures
        match r {
            Ok((pack, offsets, rows)) => {
                &&& !too_large(objects@, window as int)
                &&& pack@ == pack_body(objects@, window as int)
                &&& offsets_given(objects@, window as int, offsets@)
                &&& rows.len() == objects.len()
                &&& forall|k: int|
                    0 <= k < rows.len() ==> row_at(
                        objects@,
                        window as int,
                        k,
                        #[trigger] rows@[k],
                    )
                &&& bodies_restorable(objects@, window as int)
            },
            Err(e) => too_large(objects@, window as int) && e == LedgeError::Corruption(
                Corruption::PackTooLarge,
            ),
        },
{
    reveal(too_large);
    reveal(offsets_given);
    reveal(bodies_restorable);
    let ghost w = window as int;
    let n: usize = objects.len();
    let mut pack: Vec<u8> = Vec::new();
    pack.push(80);
    pack.push(65);
    pack.push(67);
    pack.push(75);
    push_be32(&mut pack, 2);
    push_be32(&mut pack, n as u32);
    proof {
        assert(entries(objects@, w).subrange(0, 0) =~= Seq::<Seq<u8>>::empty());
        assert(pack@ =~= pack_upto(objects@, w, 0));
    }
    let mut offsets: Vec<u64> = Vec::new();
    let mut i: usize = 0;
    while i < n
        invariant
            i <= n,
            offsets.len() == i,
        decreases n - i,
    {
        offsets.push(0);
        i += 1;
    }
    let mut rows: Vec<IndexRow> = Vec::new();
    let mut k: usize = 0;
    while k < n
        invariant
            k <= n == objects.len(),
            w == window as int,
            order@ == write_order(objects@),
            sorting::is_stable_order(ranks(objects@), order@),
            picks.len() == objects.len(),
            forall|k: int|
                0 <= k < picks.len() ==> chosen(objects@, window as int, k, #[trigger] picks@[k]),
            pack@ == pack_upto(objects@, w, k as int),
            offsets.len() == n,
            forall|j: int|
                0 <= j < k ==> offsets@[order@[j] as int] == #[trigger] offset_at(objects@, w, j)
                    && offset_at(objects@, w, j) < OFFSET_LIMIT,
            rows.len() == k,
            forall|j: int| 0 <= j < k ==> row_at(objects@, w, j, #[trigger] rows@[j]),
            forall|j: int| 0 <= j < k ==> zlib::restorable(#[trigger] body_at(objects@, w, j)),
        decreases n - k,
    {
        reveal(too_large);
        assert(chosen(objects@, w, k as int, picks@[k as int]));
        let o = &objects[order[k]];
        assert(*o == written(objects@, k as int));
        let start: usize = pack.len();
        assert(offset_at(objects@, w, k as int) == start);
        if start as u64 >= OFFSET_LIMIT {
            return Err(LedgeError::Corruption(Corruption::PackTooLarge));
        }
        let ghost before = pack@;
        offsets.set(order[k], start as u64);
        push_entry(&mut pack, objects, order, window, picks, k);
        proof {
            lemma_pack_step(objects@, w, k as int);
            assert(pack@.subrange(start as int, pack.len() as int) =~= entry_at(
                objects@,
                w,
                k as int,
            ));
            assert forall|j: int| 0 <= j < k + 1 implies offsets@[order@[j] as int]
                == #[trigger] offset_at(objects@, w, j) && offset_at(objects@, w, j)
                < OFFSET_LIMIT by {
                if j < k {
                    sorting::lemma_positions_differ(ranks(objects@), order@, j, k as int);
                }
            }
        }
        let crc = crc_of_bytes(vstd::slice::slice_subrange(pack.as_slice(), start, pack.len()));
        rows.push(IndexRow { sha1: o.sha1, offset: start as u64, crc });
        k += 1;
    }
    Ok((pack, offsets, rows))
}

/// The row of the `k`th written object.
pub open spec fn row_at(objects: Seq<PackObject>, window: int, k: int, row: IndexRow) -> bool {
    &&& row.sha1 == written(objects, k).sha1
    &&& row.offset == offset_at(objects, window, k)
    &&& row.crc == zlib::crc_sum(entry_at(objects, window, k))
}

// ---------------------------------------------------------------------------
// The index
// ---------------------------------------------------------------------------

/// The names of the rows.
pub open spec fn row_ranks(rows: Seq<IndexRow>) -> Seq<NameRank> {
    Seq::new(rows.len(), |k: int| NameRank { sha1: rows[k].sha1 })
}

/// The rows in the order of their names.
pub open spec fn by_name(rows: Seq<IndexRow>) -> Seq<IndexRow> {
    Seq::new(rows.len(), |i: int| rows[sorting::stable_order(row_ranks(rows))[i] as int])
}

/// How many names begin with the byte `b`.
pub open spec fn count_equal(rows: Seq<IndexRow>, b: int) -> nat
    decreases rows.len(),
{
    if rows.len() == 0 {
        0
    } else {
        count_equal(rows.drop_last(), b) + if rows.last().sha1@[0] == b {
            1nat
        } else {
            0nat
        }
    }
}

/// How many names begin with a byte up to `b`.
pub open spec fn count_upto(rows: Seq<IndexRow>, b: int) -> nat
    decreases rows.len(),
{
    if rows.len() == 0 {
        0
    } else {
        count_upto(rows.drop_last(), b) + if rows.last().sha1@[0] <= b {
            1nat
        } else {
            0nat
        }
    }
}

/// For each byte the number of names that begin with a byte up to it.
pub open spec fn fanout(rows: Seq<IndexRow>) -> Seq<Seq<u8>> {
    Seq::new(256, |b: int| codec::be32(count_upto(rows, b) as u32))
}

/// The index without its checksum.
pub open spec fn index_body(rows: Seq<IndexRow>, pack_sha: Seq<u8>) -> Seq<u8> {
    let sorted = by_name(rows);
    seq![0xffu8, 0x74, 0x4f, 0x63] + codec::be32(2) + codec::join(fanout(rows)) + codec::join(
        Seq::new(rows.len(), |i: int| sorted[i].sha1@),
    ) + codec::join(Seq::new(rows.len(), |i: int| codec::be32(sorted[i].crc))) + codec::join(
        Seq::new(rows.len(), |i: int| codec::be32(sorted[i].offset as u32)),
    ) + pack_sha
}

/// The index: the number of names for each first byte, the names in order, the
/// checksums and offsets of their objects, the checksum of the pack, and the SHA-1
/// of all that precedes.
#[verifier::opaque]
pub open spec fn index_image(rows: Seq<IndexRow>, pack_sha: Seq<u8>) -> Seq<u8> {
    index_body(rows, pack_sha) + digest::sha1_sum(index_body(rows, pack_sha))
}

/// The rows of the objects, in the order in which they are written.
pub open spec fn index_rows(objects: Seq<PackObject>, window: int) -> Seq<IndexRow> {
    Seq::new(
        objects.len(),
        |k: int|
            IndexRow {
                sha1: written(objects, k).sha1,
                offset: offset_at(objects, window, k) as u64,
                crc: zlib::crc_sum(entry_at(objects, window, k)),
            },
    )
}

proof fn lemma_counts(rows: Seq<IndexRow>, b: int)
    ensures
        count_upto(rows, b) == count_upto(rows, b - 1) + count_equal(rows, b),
        count_upto(rows, b) <= rows.len(),
        b < 0 ==> count_upto(rows, b) == 0,
    decreases rows.len(),
{
    if rows.len() > 0 {
        lemma_counts(rows.drop_last(), b);
    }
}

proof fn lemma_equal_bound(rows: Seq<IndexRow>, b: int)
    ensures
        count_equal(rows, b) <= rows.len(),
    decreases rows.len(),
{
    if rows.len() > 0 {
        lemma_equal_bound(rows.drop_last(), b);
    }
}

fn push_fanout(out: &mut Vec<u8>, rows: &Vec<IndexRow>)
    requires
        rows.len() <= u32::MAX,
    ensures
        final(out)@ == old(out)@ + codec::join(fanout(rows@)),
{
    let ghost start = out@;
    let mut counts: Vec<u32> = Vec::new();
    let mut b: usize = 0;
    while b < 256
        invariant
            b <= 256,
            counts.len() == b,
            forall|x: int| 0 <= x < b ==> counts@[x] == 0,
        decreases 256 - b,
    {
        counts.push(0);
        b += 1;
    }
    let mut i: usize = 0;
    assert(rows@.subrange(0, 0) =~= Seq::<IndexRow>::empty());
    while i < rows.len()
        invariant
            i <= rows.len() <= u32::MAX,
            counts.len() == 256,
            forall|x: int|
                0 <= x < 256 ==> #[trigger] counts@[x] == count_equal(
                    rows@.subrange(0, i as int),
                    x,
                ),
        decreases rows.len() - i,
    {
        let ghost now = rows@.subrange(0, i + 1);
        let ghost before = counts@;
        let first: usize = rows[i].sha1[0] as usize;
        proof {
            assert(now.drop_last() =~= rows@.subrange(0, i as int));
            lemma_equal_bound(rows@.subrange(0, i as int), first as int);
            assert(counts@[first as int] == count_equal(
                rows@.subrange(0, i as int),
                first as int,
            ));
        }
        let c: u32 = counts[first] + 1;
        counts.set(first, c);
        proof {
            assert forall|x: int| 0 <= x < 256 implies #[trigger] counts@[x] == count_equal(
                now,
                x,
            ) by {
                assert(before[x] == count_equal(rows@.subrange(0, i as int), x));
            }
        }
        i += 1;
    }
    assert(rows@.subrange(0, i as int) =~= rows@);
    let mut total: u32 = 0;
    let mut x: usize = 0;
    proof {
        lemma_counts(rows@, -1);
        assert(fanout(rows@).subrange(0, 0) =~= Seq::<Seq<u8>>::empty());
        assert(start + codec::join(fanout(rows@).subrange(0, 0)) =~= start);
    }
    while x < 256
        invariant
            x <= 256,
            rows.len() <= u32::MAX,
            counts.len() == 256,
            forall|y: int| 0 <= y < 256 ==> #[trigger] counts@[y] == count_equal(rows@, y),
            total == count_upto(rows@, x - 1),
            out@ == start + codec::join(fanout(rows@).subrange(0, x as int)),
        decreases 256 - x,
    {
        proof {
            lemma_counts(rows@, x as int);
            assert(counts@[x as int] == count_equal(rows@, x as int));
        }
        let ghost before = out@;
        total = total + counts[x];
        push_be32(out, total);
        proof {
            codec::lemma_join_step(fanout(rows@), x as int);
            assert(out@ =~= start + codec::join(fanout(rows@).subrange(0, x + 1)));
        }
        x += 1;
    }
    assert(fanout(rows@).subrange(0, 256) =~= fanout(rows@));
}

/// The index of a pack, from its rows and its checksum.
fn write_index(rows: &Vec<IndexRow>, pack_sha: &Sha1) -> (r: Vec<u8>)
    requires
        rows.len() <= u32::MAX,
        forall|k: int| 0 <= k < rows.len() ==> (#[trigger] rows@[k]).offset <= u32::MAX,
    ensures
        r@ == index_image(rows@, pack_sha@),
{
    let mut names: Vec<NameRank> = Vec::new();
    let mut k: usize = 0;
    while k < rows.len()
        invariant
            k <= rows.len(),
            names.len() == k,
            forall|j: int| 0 <= j < k ==> #[trigger] names@[j] == (NameRank { sha1: rows@[j].sha1 }),
        decreases rows.len() - k,
    {
        names.push(NameRank { sha1: rows[k].sha1 });
        k += 1;
    }
    assert(names@ =~= row_ranks(rows@));
    let order = sort_positions(&names);
    let ghost sorted = by_name(rows@);
    let n: usize = rows.len();
    let mut idx: Vec<u8> = Vec::new();
    idx.push(0xff);
    idx.push(0x74);
    idx.push(0x4f);
    idx.push(0x63);
    push_be32(&mut idx, 2);
    push_fanout(&mut idx, rows);
    let ghost head = seq![0xffu8, 0x74, 0x4f, 0x63] + codec::be32(2) + codec::join(fanout(rows@));
    assert(idx@ =~= head);
    let ghost name_parts = Seq::new(rows@.len(), |i: int| sorted[i].sha1@);
    let mut i: usize = 0;
    assert(name_parts.subrange(0, 0) =~= Seq::<Seq<u8>>::empty());
    assert(head + codec::join(name_parts.subrange(0, 0)) =~= head);
    while i < n
        invariant
            i <= n == rows.len(),
            order@ == sorting::stable_order(row_ranks(rows@)),
            sorting::is_stable_order(row_ranks(rows@), order@),
            sorted == by_name(rows@),
            name_parts == Seq::new(rows@.len(), |i: int| sorted[i].sha1@),
            idx@ == head + codec::join(name_parts.subrange(0, i as int)),
        decreases n - i,
    {
        push_all(&mut idx, rows[order[i]].sha1.as_slice());
        proof {
            codec::lemma_join_step(name_parts, i as int);
            assert(idx@ =~= head + codec::join(name_parts.subrange(0, i + 1)));
        }
        i += 1;
    }
    assert(name_parts.subrange(0, i as int) =~= name_parts);
    let ghost head2 = head + codec::join(name_parts);
    let ghost crc_parts = Seq::new(rows@.len(), |i: int| codec::be32(sorted[i].crc));
    i = 0;
    assert(crc_parts.subrange(0, 0) =~= Seq::<Seq<u8>>::empty());
    assert(head2 + codec::join(crc_parts.subrange(0, 0)) =~= head2);
    while i < n
        invariant
            i <= n == rows.len(),
            order@ == sorting::stable_order(row_ranks(rows@)),
            sorting::is_stable_order(row_ranks(rows@), order@),
            sorted == by_name(rows@),
            crc_parts == Seq::new(rows@.len(), |i: int| codec::be32(sorted[i].crc)),
            idx@ == head2 + codec::join(crc_parts.subrange(0, i as int)),
        decreases n - i,
    {
        push_be32(&mut idx, rows[order[i]].crc);
        proof {
            codec::lemma_join_step(crc_parts, i as int);
            assert(idx@ =~= head2 + codec::join(crc_parts.subrange(0, i + 1)));
        }
        i += 1;
    }
    assert(crc_parts.subrange(0, i as int) =~= crc_parts);
    let ghost head3 = head2 + codec::join(crc_parts);
    let ghost offset_parts = Seq::new(rows@.len(), |i: int| codec::be32(sorted[i].offset as u32));
    i = 0;
    assert(offset_parts.subrange(0, 0) =~= Seq::<Seq<u8>>::empty());
    assert(head3 + codec::join(offset_parts.subrange(0, 0)) =~= head3);
    while i < n
        invariant
            i <= n == rows.len(),
            forall|k: int| 0 <= k < rows.len() ==> (#[trigger] rows@[k]).offset <= u32::MAX,
            order@ == sorting::stable_order(row_ranks(rows@)),
            sorting::is_stable_order(row_ranks(rows@), order@),
            sorted == by_name(rows@),
            offset_parts == Seq::new(rows@.len(), |i: int| codec::be32(sorted[i].offset as u32)),
            idx@ == head3 + codec::join(offset_parts.subrange(0, i as int)),
        decreases n - i,
    {
        push_be32(&mut idx, rows[order[i]].offset as u32);
        proof {
            codec::lemma_join_step(offset_parts, i as int);
            assert(idx@ =~= head3 + codec::join(offset_parts.subrange(0, i + 1)));
        }
        i += 1;
    }
    assert(offset_parts.subrange(0, i as int) =~= offset_parts);
    push_all(&mut idx, pack_sha.as_slice());
    assert(idx@ =~= index_body(rows@, pack_sha@));
    let idx_sha = sha1_of_bytes(idx.as_slice());
    push_all(&mut idx, idx_sha.as_slice());
    reveal(index_image);
    idx
}

proof fn lemma_offset_grows(objects: Seq<PackObject>, window: int, k: int)
    requires
        0 <= k <= objects.len(),
    ensures
        offset_at(objects, window, k) >= 12 + k,
    decreases k,
{
    if k > 0 {
        lemma_offset_grows(objects, window, k - 1);
        lemma_pack_step(objects, window, k - 1);
    } else {
        assert(entries(objects, window).subrange(0, 0) =~= Seq::<Seq<u8>>::empty());
    }
}

/// The pack of some objects, its index, and where in the pack each object begins, in
/// the order in which they were given.
#[verifier::opaque]
pub open spec fn pack_written(
    objects: Seq<PackObject>,
    window: int,
    pack: Seq<u8>,
    idx: Seq<u8>,
    offsets: Seq<u64>,
) -> bool {
    &&& !too_large(objects, window)
    &&& pack == pack_image(objects, window)
    &&& idx == index_image(
        index_rows(objects, window),
        digest::sha1_sum(pack_body(objects, window)),
    )
    &&& offsets_given(objects, window, offsets)
    &&& bodies_restorable(objects, window)
    &&& digest::sha1_sum(pack_body(objects, window)).len() == 20
}

/// Writes the pack of some objects and its index, and says where in the pack each
/// object begins, in the order in which they were given.
pub fn write_git_pack(objects: &Vec<PackObject>, window: usize) -> (r: Result<
    (Vec<u8>, Vec<u8>, Vec<u64>),
    LedgeError,
>)
    ensures
        match r {
            Ok((pack, idx, offsets)) => pack_written(
                objects@,
                window as int,
                pack@,
                idx@,
                offsets@,
            ),
            Err(e) => too_large(objects@, window as int) && e == LedgeError::Corruption(
                Corruption::PackTooLarge,
            ),
        },
{
    let ghost w = window as int;
    let mut keys: Vec<PackRank> = Vec::new();
    let mut i: usize = 0;
    while i < objects.len()
        invariant
            i <= objects.len(),
            keys.len() == i,
            forall|j: int|
                0 <= j < i ==> #[trigger] keys@[j] == (PackRank {
                    git_type: objects@[j].git_type,
                    len: objects@[j].content.len(),
                }),
        decreases objects.len() - i,
    {
        keys.push(PackRank { git_type: objects[i].git_type, len: objects[i].content.len() });
        i += 1;
    }
    assert(keys@ =~= ranks(objects@));
    let order = sort_positions(&keys);
    let picks = choose_bases(objects, &order, window);
    let (mut pack, offsets, rows) = match write_entries(objects, &order, window, &picks) {
        Ok(x) => x,
        Err(e) => {
            return Err(e);
        },
    };
    proof {
        reveal(too_large);
        assert forall|k: int| 0 <= k < rows.len() implies (#[trigger] rows@[k])
            == index_rows(objects@, w)[k] && rows@[k].offset <= u32::MAX by {
            assert(row_at(objects@, w, k, rows@[k]));
            assert(offset_at(objects@, w, k) < OFFSET_LIMIT);
        }
        assert(rows@ =~= index_rows(objects@, w));
        if objects.len() > 0 {
            lemma_offset_grows(objects@, w, objects.len() - 1);
            assert(offset_at(objects@, w, objects.len() - 1) < OFFSET_LIMIT);
        }
    }
    let pack_sha = sha1_of_bytes(pack.as_slice());
    push_all(&mut pack, pack_sha.as_slice());
    let idx = write_index(&rows, &pack_sha);
    reveal(pack_written);
    Ok((pack, idx, offsets))
}

} // verus!
