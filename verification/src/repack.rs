//! Repacking: every object that can be read goes into one new pack, which takes the
//! place of the old packs and of the loose files.

use vstd::prelude::*;
use crate::codec::bytes_equal;
use crate::digest;
use crate::digest::blake3_of_bytes;
use crate::disk;
use crate::disk::{DiskObjectStore, StoredPack};
use crate::git_pack;
use crate::git_pack::{write_git_pack, PackObject};
use crate::git_pack_file;
use crate::git_pack_file::{write_lidx, GitPackFile, LidxEntry};
use crate::graph::Sha1;
use crate::hexcode;
use crate::keytable;
use crate::object_file;
use crate::tier;
use crate::types::{Corruption, LedgeError, ObjectId};

verus! {

/// How many objects before it an object is compared with.
pub const WINDOW: usize = 64;

/// What a pass did.
#[derive(Clone, Copy, Debug, Default, PartialEq, Eq)]
pub struct RepackStats {
    /// Objects in the store before the pass.
    pub objects_seen: usize,
    /// Objects of the new pack that are stored as deltas.
    pub objects_deltified: usize,
    /// Bytes of loose files before the pass.
    pub bytes_before: u64,
    /// Bytes in the pack directory after the pass, as counted then.
    pub bytes_after: u64,
    /// Objects in the new pack.
    pub objects_packed: usize,
    /// Loose files and files in the pack directory before the pass.
    pub files_before: usize,
    /// Files in the pack directory after the pass, as counted then.
    pub files_after: usize,
}

/// The files of a pack.
pub struct PackFiles {
    /// The hash of the pack in hexadecimal, by which the files are named.
    pub name: Vec<u8>,
    pub pack: Vec<u8>,
    pub idx: Vec<u8>,
    pub lidx: Vec<u8>,
}

/// The sum, or the largest number.
pub open spec fn capped_sum(a: int, b: int, max: int) -> int {
    if a + b > max {
        max
    } else {
        a + b
    }
}

/// The bytes of the loose files of some objects.
pub open spec fn loose_size(s: disk::StoreView, ids: Seq<ObjectId>) -> int
    decreases ids.len(),
{
    if ids.len() == 0 {
        0
    } else {
        let id = ids.last().bytes@;
        capped_sum(
            loose_size(s, ids.drop_last()),
            if s.loose.contains_key(id) {
                s.loose[id].len() as int
            } else {
                0
            },
            u64::MAX as int,
        )
    }
}

/// `objects` are the objects with the addresses `ids`.
#[verifier::opaque]
pub open spec fn objects_of(
    s: disk::StoreView,
    ids: Seq<ObjectId>,
    objects: Seq<PackObject>,
) -> bool {
    &&& ids.len() == objects.len()
    &&& forall|i: int|
        0 <= i < ids.len() ==> object_is(s, (#[trigger] ids[i]).bytes@, objects[i])
}

/// `o` is the object with the address `id`.
pub open spec fn object_is(s: disk::StoreView, id: Seq<u8>, o: PackObject) -> bool {
    &&& disk::content_of(s, id) == Ok::<Seq<u8>, disk::ReadFail>(o.content@)
    &&& disk::type_of(s, id) == Ok::<u8, disk::ReadFail>(o.git_type)
    &&& disk::name_of(s, id) == Ok::<Seq<u8>, disk::ReadFail>(o.sha1@)
}

/// The addresses of the objects that can be read.
pub open spec fn readable_ids(s: disk::StoreView) -> Set<Seq<u8>> {
    Set::new(|id: Seq<u8>| disk::content_of(s, id) is Ok)
}

/// The rows of the index by address.
pub open spec fn rows_for(
    ids: Seq<ObjectId>,
    objects: Seq<PackObject>,
    offsets: Seq<u64>,
) -> Seq<LidxEntry> {
    Seq::new(
        ids.len(),
        |i: int|
            LidxEntry {
                oid: ids[i],
                sha1: objects[i].sha1,
                git_type: objects[i].git_type,
                offset: offsets[i],
            },
    )
}

/// How many of the objects the pack stores as deltas.
pub open spec fn delta_count(
    v: git_pack_file::PackView,
    pack: Seq<u8>,
    ids: Seq<ObjectId>,
) -> nat
    decreases ids.len(),
{
    if ids.len() == 0 {
        0
    } else {
        delta_count(v, pack, ids.drop_last()) + if is_delta(v, pack, ids.last().bytes@) {
            1nat
        } else {
            0nat
        }
    }
}

/// The pack stores the object as a delta.
pub open spec fn is_delta(v: git_pack_file::PackView, pack: Seq<u8>, id: Seq<u8>) -> bool {
    git_pack_file::pack_base(v, pack, id) matches Ok(Some(_))
}

/// A pass over `s` with the given objects makes these files.
#[verifier::opaque]
pub open spec fn files_of(
    ids: Seq<ObjectId>,
    objects: Seq<PackObject>,
    offsets: Seq<u64>,
    files: PackFiles,
) -> bool {
    &&& git_pack::pack_written(objects, WINDOW as int, files.pack@, files.idx@, offsets)
    &&& files.lidx@ == git_pack_file::lidx_image(rows_for(ids, objects, offsets))
    &&& files.name@ == hexcode::encoded(digest::blake3_sum(files.pack@))
}

/// The store after a pass: the loose files of packed objects are gone, and the new
/// pack is the only one.
pub open spec fn repacked(
    s: disk::StoreView,
    ids: Seq<ObjectId>,
    objects: Seq<PackObject>,
    offsets: Seq<u64>,
    files: PackFiles,
) -> disk::StoreView {
    disk::StoreView {
        loose: s.loose.remove_keys(readable_ids(s)),
        packs: seq![
            disk::PackState {
                index: git_pack_file::view_of(rows_for(ids, objects, offsets)),
                body: Some(files.pack@),
            },
        ],
    }
}

/// The new pack gives back each of the objects.
#[verifier::opaque]
pub open spec fn pack_holds(
    v: git_pack_file::PackView,
    pack: Seq<u8>,
    ids: Seq<ObjectId>,
    objects: Seq<PackObject>,
) -> bool {
    forall|i: int|
        0 <= i < ids.len() ==> git_pack_file::pack_read(v, pack, (#[trigger] ids[i]).bytes@)
            == Ok::<Option<Seq<u8>>, Corruption>(Some(objects[i].content@))
}

/// What can be read has a type that git has and a name of its own.
#[verifier::opaque]
pub open spec fn well_named(s: disk::StoreView) -> bool {
    &&& forall|id: Seq<u8>|
        (#[trigger] disk::content_of(s, id)) is Ok ==> (disk::type_of(s, id) matches Ok(t)
            && object_file::known_type(t)) && disk::name_of(s, id) is Ok
    &&& forall|a: Seq<u8>, b: Seq<u8>|
        a != b && (#[trigger] disk::content_of(s, a)) is Ok && (#[trigger] disk::content_of(
            s,
            b,
        )) is Ok ==> disk::name_of(s, a) != disk::name_of(s, b)
}

/// `e` reports that the type or the name of a readable object cannot be told.
#[verifier::opaque]
pub open spec fn nameless(s: disk::StoreView, e: LedgeError) -> bool {
    exists|id: Seq<u8>|
        (#[trigger] disk::content_of(s, id)) is Ok && ((disk::type_of(s, id) matches Err(f)
            && disk::reports(e, f)) || (disk::name_of(s, id) matches Err(f) && disk::reports(
            e,
            f,
        )))
}

fn total_loose_size(store: &DiskObjectStore, ids: &Vec<ObjectId>) -> (r: u64)
    ensures
        r == loose_size(store@, ids@),
{
    let mut total: u64 = 0;
    let mut i: usize = 0;
    assert(ids@.subrange(0, 0) =~= Seq::<ObjectId>::empty());
    while i < ids.len()
        invariant
            i <= ids.len(),
            total == loose_size(store@, ids@.subrange(0, i as int)),
        decreases ids.len() - i,
    {
        let ghost now = ids@.subrange(0, i + 1);
        assert(now.drop_last() =~= ids@.subrange(0, i as int));
        assert(now.last() == ids@[i as int]);
        if let Some(raw) = store.loose_bytes(ids[i]) {
            let n: u64 = raw.len() as u64;
            total = if n > u64::MAX - total {
                u64::MAX
            } else {
                total + n
            };
        }
        i += 1;
    }
    assert(ids@.subrange(0, i as int) =~= ids@);
    total
}

/// The objects that can be read, with their addresses, ascending.
fn collect(store: &DiskObjectStore, all: &Vec<ObjectId>) -> (r: Result<
    (Vec<ObjectId>, Vec<PackObject>),
    LedgeError,
>)
    requires
        git_pack_file::lists_ids(all@, disk::all_ids(store@)),
    ensures
        match r {
            Ok((ids, objects)) => {
                &&& objects_of(store@, ids@, objects@)
                &&& git_pack_file::lists_ids(ids@, readable_ids(store@))
            },
            Err(e) => nameless(store@, e),
        },
{
    reveal(nameless);
    reveal(objects_of);
    let ghost s = store@;
    let mut ids: Vec<ObjectId> = Vec::new();
    let mut objects: Vec<PackObject> = Vec::new();
    let mut i: usize = 0;
    while i < all.len()
        invariant
            i <= all.len(),
            s == store@,
            git_pack_file::lists_ids(all@, disk::all_ids(s)),
            objects_of(s, ids@, objects@),
            forall|x: int|
                0 <= x < ids.len() ==> exists|y: int|
                    0 <= y < i && #[trigger] all@[y] == #[trigger] ids@[x],
            forall|x: int, y: int|
                0 <= x < y < ids.len() ==> keytable::key_less(
                    (#[trigger] ids@[x]).bytes@,
                    (#[trigger] ids@[y]).bytes@,
                ),
            forall|y: int|
                0 <= y < i ==> (#[trigger] disk::content_of(s, all@[y].bytes@) is Ok
                    ==> git_pack_file::has_id(ids@, all@[y].bytes@)),
        decreases all.len() - i,
    {
        reveal(nameless);
        reveal(objects_of);
        let id = all[i];
        let ghost ids0 = ids@;
        let ghost objects0 = objects@;
        assert(disk::all_ids(s).contains(all@[i as int].bytes@));
        match store.read(id) {
            Ok(content) => {
                let git_type: u8 = match store.git_type_of(id) {
                    Ok(t) => t,
                    Err(e) => {
                        assert(disk::content_of(s, id.bytes@) is Ok);
                        return Err(e);
                    },
                };
                let sha1: Sha1 = match store.sha1_of(id) {
                    Ok(n) => n,
                    Err(e) => {
                        assert(disk::content_of(s, id.bytes@) is Ok);
                        return Err(e);
                    },
                };
                ids.push(id);
                objects.push(PackObject { git_type, content, sha1 });
                proof {
                    assert forall|x: int| 0 <= x < ids.len() implies object_is(
                        s,
                        (#[trigger] ids@[x]).bytes@,
                        objects@[x],
                    ) by {
                        if x < ids0.len() {
                            assert(object_is(s, ids0[x].bytes@, objects0[x]));
                        }
                    }
                    assert forall|x: int| 0 <= x < ids.len() implies exists|y: int|
                        0 <= y < i + 1 && #[trigger] all@[y] == #[trigger] ids@[x] by {
                        if x < ids0.len() {
                            assert(ids0[x] == ids@[x]);
                            let y = choose|y: int| 0 <= y < i && #[trigger] all@[y] == ids0[x];
                            assert(all@[y] == ids@[x]);
                        } else {
                            assert(all@[i as int] == ids@[x]);
                        }
                    }
                    assert forall|x: int, y: int| 0 <= x < y < ids.len() implies keytable::key_less(
                        (#[trigger] ids@[x]).bytes@,
                        (#[trigger] ids@[y]).bytes@,
                    ) by {
                        assert(ids0[x] == ids@[x]);
                        if y < ids0.len() {
                            assert(ids0[y] == ids@[y]);
                        } else {
                            let z = choose|z: int| 0 <= z < i && #[trigger] all@[z] == ids0[x];
                            assert(keytable::key_less(all@[z].bytes@, all@[i as int].bytes@));
                        }
                    }
                    assert forall|k: Seq<u8>| git_pack_file::has_id(
                        ids0,
                        k,
                    ) implies #[trigger] git_pack_file::has_id(ids@, k) by {
                        let x = choose|x: int|
                            0 <= x < ids0.len() && (#[trigger] ids0[x]).bytes@ == k;
                        assert(ids@[x].bytes@ == k);
                    }
                    assert(ids@[ids.len() - 1].bytes@ == id.bytes@);
                    assert(git_pack_file::has_id(ids@, id.bytes@));
                }
            },
            Err(_) => {},
        }
        i += 1;
    }
    proof {
        assert forall|id: Seq<u8>| #[trigger] readable_ids(s).contains(
            id,
        ) implies git_pack_file::has_id(ids@, id) by {
            disk::readable_is_there(s, id);
            assert(git_pack_file::has_id(all@, id));
            let y = choose|y: int| 0 <= y < all.len() && (#[trigger] all@[y]).bytes@ == id;
            assert(disk::content_of(s, all@[y].bytes@) is Ok);
        }
        assert forall|x: int| 0 <= x < ids.len() implies readable_ids(s).contains(
            (#[trigger] ids@[x]).bytes@,
        ) by {
            assert(object_is(s, ids@[x].bytes@, objects@[x]));
        }
    }
    Ok((ids, objects))
}

/// The bytes of files of the given sizes.
pub open spec fn total_size(sizes: Seq<u64>) -> int
    decreases sizes.len(),
{
    if sizes.len() == 0 {
        0
    } else {
        capped_sum(total_size(sizes.drop_last()), sizes.last() as int, u64::MAX as int)
    }
}

impl RepackStats {
    /// Counts the pack directory once a pass has been carried out on disk, from the
    /// sizes of the files in it.
    pub fn count_pack_dir(&mut self, sizes: &Vec<u64>)
        ensures
            *final(self) == (RepackStats {
                bytes_after: total_size(sizes@) as u64,
                files_after: sizes.len(),
                ..*old(self)
            }),
            total_size(sizes@) <= u64::MAX,
    {
        let mut total: u64 = 0;
        let mut i: usize = 0;
        assert(sizes@.subrange(0, 0) =~= Seq::<u64>::empty());
        while i < sizes.len()
            invariant
                i <= sizes.len(),
                total == total_size(sizes@.subrange(0, i as int)),
            decreases sizes.len() - i,
        {
            assert(sizes@.subrange(0, i + 1).drop_last() =~= sizes@.subrange(0, i as int));
            let size: u64 = sizes[i];
            total = if size > u64::MAX - total {
                u64::MAX
            } else {
                total + size
            };
            i += 1;
        }
        assert(sizes@.subrange(0, i as int) =~= sizes@);
        self.bytes_after = total;
        self.files_after = sizes.len();
    }
}

/// What a pass over `s` with these objects leaves behind.
#[verifier::opaque]
pub open spec fn pass_result(
    s: disk::StoreView,
    after: disk::StoreView,
    ids: Seq<ObjectId>,
    objects: Seq<PackObject>,
    offsets: Seq<u64>,
    pack_dir_entries: usize,
    stats: RepackStats,
    files: PackFiles,
) -> bool {
    let v = git_pack_file::view_of(rows_for(ids, objects, offsets));
    &&& objects_of(s, ids, objects)
    &&& git_pack_file::lists_ids(ids, readable_ids(s))
    &&& files_of(ids, objects, offsets, files)
    &&& pack_holds(v, files.pack@, ids, objects)
    &&& after == repacked(s, ids, objects, offsets, files)
    &&& exists|all: Seq<ObjectId>|
        #[trigger] git_pack_file::lists_ids(all, disk::all_ids(s)) && stats.objects_seen
            == all.len() && stats.bytes_before == loose_size(s, all)
    &&& stats.objects_deltified == delta_count(v, files.pack@, ids)
    &&& stats.objects_packed == ids.len()
    &&& stats.bytes_after == 0
    &&& stats.files_before == capped_sum(
        s.loose.dom().len() as int,
        pack_dir_entries as int,
        usize::MAX as int,
    )
    &&& stats.files_after == 0
}

/// Everything that could be read is read back, with type and name.
#[verifier::opaque]
pub open spec fn keeps_objects(s: disk::StoreView, after: disk::StoreView) -> bool {
    forall|id: Seq<u8>|
        (#[trigger] disk::content_of(s, id)) is Ok ==> disk::content_of(after, id)
            == disk::content_of(s, id) && disk::type_of(after, id) == disk::type_of(s, id)
            && disk::name_of(after, id) == disk::name_of(s, id)
}

/// The objects do not fit in one pack.
#[verifier::opaque]
pub open spec fn overfull(s: disk::StoreView) -> bool {
    exists|ids: Seq<ObjectId>, objects: Seq<PackObject>|
        #[trigger] objects_of(s, ids, objects) && git_pack_file::lists_ids(ids, readable_ids(s))
            && git_pack::too_large(objects, WINDOW as int)
}

proof fn lemma_rows(
    s: disk::StoreView,
    ids: Seq<ObjectId>,
    objects: Seq<PackObject>,
    offsets: Seq<u64>,
)
    requires
        objects_of(s, ids, objects),
        git_pack_file::lists_ids(ids, readable_ids(s)),
        offsets.len() == objects.len(),
    ensures
        git_pack_file::rows_describe(rows_for(ids, objects, offsets), objects, offsets),
        git_pack_file::oids_differ(rows_for(ids, objects, offsets)),
        well_named(s) ==> git_pack_file::names_differ(rows_for(ids, objects, offsets)) && forall|
            j: int,
        |
            0 <= j < objects.len() ==> object_file::known_type((#[trigger] objects[j]).git_type),
{
    reveal(well_named);
    reveal(objects_of);
    let rows = rows_for(ids, objects, offsets);
    assert forall|i: int, j: int| 0 <= i < j < rows.len() implies (#[trigger] rows[i]).oid.bytes@
        != (#[trigger] rows[j]).oid.bytes@ by {
        assert(keytable::key_less(ids[i].bytes@, ids[j].bytes@));
        keytable::key_less_antisymmetric(ids[i].bytes@, ids[j].bytes@);
    }
    if well_named(s) {
        assert forall|i: int, j: int| 0 <= i < j < rows.len() implies (#[trigger] rows[i]).sha1@
            != (#[trigger] rows[j]).sha1@ by {
            assert(rows[i].oid.bytes@ != rows[j].oid.bytes@);
            assert(object_is(s, ids[i].bytes@, objects[i]));
            assert(object_is(s, ids[j].bytes@, objects[j]));
            assert(disk::name_of(s, ids[i].bytes@) != disk::name_of(s, ids[j].bytes@));
        }
        assert forall|j: int| 0 <= j < objects.len() implies object_file::known_type(
            (#[trigger] objects[j]).git_type,
        ) by {
            assert(object_is(s, ids[j].bytes@, objects[j]));
        }
    }
}

/// Reads every object back from the new pack.
fn check_pack(
    index: &GitPackFile,
    pack: &Vec<u8>,
    ids: &Vec<ObjectId>,
    objects: &Vec<PackObject>,
) -> (r: bool)
    requires
        ids.len() == objects.len(),
    ensures
        r == pack_holds(index@, pack@, ids@, objects@),
{
    reveal(pack_holds);
    let mut i: usize = 0;
    while i < ids.len()
        invariant
            i <= ids.len(),
            ids.len() == objects.len(),
            forall|j: int|
                0 <= j < i ==> git_pack_file::pack_read(index@, pack@, (#[trigger] ids@[j]).bytes@)
                    == Ok::<Option<Seq<u8>>, Corruption>(Some(objects@[j].content@)),
        decreases ids.len() - i,
    {
        let same: bool = match index.read(pack.as_slice(), ids[i]) {
            Ok(Some(content)) => bytes_equal(content.as_slice(), objects[i].content.as_slice()),
            _ => false,
        };
        if !same {
            reveal(pack_holds);
            assert(git_pack_file::pack_read(index@, pack@, ids@[i as int].bytes@) != Ok::<
                Option<Seq<u8>>,
                Corruption,
            >(Some(objects@[i as int].content@)));
            return false;
        }
        i += 1;
    }
    true
}

fn count_deltas(
    index: &GitPackFile,
    pack: &Vec<u8>,
    ids: &Vec<ObjectId>,
    objects: &Vec<PackObject>,
) -> (r: usize)
    requires
        pack_holds(index@, pack@, ids@, objects@),
    ensures
        r == delta_count(index@, pack@, ids@),
{
    let mut n: usize = 0;
    let mut i: usize = 0;
    assert(ids@.subrange(0, 0) =~= Seq::<ObjectId>::empty());
    while i < ids.len()
        invariant
            n <= i <= ids.len(),
            pack_holds(index@, pack@, ids@, objects@),
            n == delta_count(index@, pack@, ids@.subrange(0, i as int)),
        decreases ids.len() - i,
    {
        let ghost now = ids@.subrange(0, i + 1);
        proof {
            reveal(pack_holds);
            assert(now.drop_last() =~= ids@.subrange(0, i as int));
            assert(now.last() == ids@[i as int]);
            assert(git_pack_file::pack_read(index@, pack@, ids@[i as int].bytes@) is Ok);
            git_pack_file::read_shows_base(index@, pack@, ids@[i as int].bytes@);
        }
        if let Ok(Some(_)) = index.delta_base_of(pack.as_slice(), ids[i]) {
            n += 1;
        }
        i += 1;
    }
    assert(ids@.subrange(0, i as int) =~= ids@);
    n
}

fn drop_loose(store: &mut DiskObjectStore, ids: &Vec<ObjectId>)
    requires
        git_pack_file::lists_ids(ids@, readable_ids(old(store)@)),
    ensures
        final(store)@ == (disk::StoreView {
            loose: old(store)@.loose.remove_keys(readable_ids(old(store)@)),
            ..old(store)@
        }),
{
    let ghost s = store@;
    let mut i: usize = 0;
    while i < ids.len()
        invariant
            i <= ids.len(),
            store@.packs == s.packs,
            forall|k: Seq<u8>| #[trigger]
                store@.loose.contains_key(k) <==> s.loose.contains_key(k)
                    && !git_pack_file::has_id(ids@.subrange(0, i as int), k),
            forall|k: Seq<u8>| #[trigger]
                store@.loose.contains_key(k) ==> store@.loose[k] == s.loose[k],
        decreases ids.len() - i,
    {
        let ghost before = store@;
        store.delete(ids[i]);
        proof {
            let old_ids = ids@.subrange(0, i as int);
            let now = ids@.subrange(0, i + 1);
            assert forall|k: Seq<u8>| #[trigger] git_pack_file::has_id(now, k) <==> (
            git_pack_file::has_id(old_ids, k) || k == ids@[i as int].bytes@) by {
                if git_pack_file::has_id(now, k) {
                    let x = choose|x: int| 0 <= x < now.len() && (#[trigger] now[x]).bytes@ == k;
                    if x < i {
                        assert(old_ids[x].bytes@ == k);
                    }
                }
                if git_pack_file::has_id(old_ids, k) {
                    let x = choose|x: int|
                        0 <= x < old_ids.len() && (#[trigger] old_ids[x]).bytes@ == k;
                    assert(now[x].bytes@ == k);
                }
                if k == ids@[i as int].bytes@ {
                    assert(now[i as int].bytes@ == k);
                }
            }
        }
        i += 1;
    }
    proof {
        assert(ids@.subrange(0, i as int) =~= ids@);
        assert forall|k: Seq<u8>| #[trigger] git_pack_file::has_id(ids@, k) <==> readable_ids(
            s,
        ).contains(k) by {
            if git_pack_file::has_id(ids@, k) {
                let x = choose|x: int| 0 <= x < ids@.len() && (#[trigger] ids@[x]).bytes@ == k;
            }
        }
        assert(store@.loose =~= s.loose.remove_keys(readable_ids(s)));
    }
}

proof fn lemma_keeps_objects(
    s: disk::StoreView,
    ids: Seq<ObjectId>,
    objects: Seq<PackObject>,
    offsets: Seq<u64>,
    files: PackFiles,
)
    requires
        objects_of(s, ids, objects),
        git_pack_file::lists_ids(ids, readable_ids(s)),
        offsets.len() == objects.len(),
        pack_holds(
            git_pack_file::view_of(rows_for(ids, objects, offsets)),
            files.pack@,
            ids,
            objects,
        ),
    ensures
        keeps_objects(s, repacked(s, ids, objects, offsets, files)),
{
    reveal(keeps_objects);
    reveal(objects_of);
    reveal(pack_holds);
    let rows = rows_for(ids, objects, offsets);
    let after = repacked(s, ids, objects, offsets, files);
    lemma_rows(s, ids, objects, offsets);
    assert forall|id: Seq<u8>| (#[trigger] disk::content_of(s, id)) is Ok implies disk::content_of(
        after,
        id,
    ) == disk::content_of(s, id) && disk::type_of(after, id) == disk::type_of(s, id)
        && disk::name_of(after, id) == disk::name_of(s, id) by {
        assert(readable_ids(s).contains(id));
        assert(git_pack_file::has_id(ids, id));
        let i = choose|i: int| 0 <= i < ids.len() && (#[trigger] ids[i]).bytes@ == id;
        assert(object_is(s, ids[i].bytes@, objects[i]));
        git_pack_file::view_resolves(rows, i);
        assert(rows[i].oid == ids[i]);
        assert(disk::pack_with(after.packs, id, 0) == Some(0int));
        assert(disk::name_pack(after.packs, id, 0) == Some(0int));
    }
}

/// A pack that is not in use yet.
struct NewPack {
    ids: Vec<ObjectId>,
    index: GitPackFile,
    files: PackFiles,
    deltified: usize,
}

/// The pack holds the objects of the store that can be read.
#[verifier::opaque]
spec fn built(
    s: disk::StoreView,
    p: NewPack,
    objects: Seq<PackObject>,
    offsets: Seq<u64>,
) -> bool {
    &&& objects_of(s, p.ids@, objects)
    &&& git_pack_file::lists_ids(p.ids@, readable_ids(s))
    &&& files_of(p.ids@, objects, offsets, p.files)
    &&& p.index@ == git_pack_file::view_of(rows_for(p.ids@, objects, offsets))
    &&& pack_holds(p.index@, p.files.pack@, p.ids@, objects)
    &&& p.deltified == delta_count(p.index@, p.files.pack@, p.ids@)
}

/// Why no pack could be made.
pub open spec fn not_packed(s: disk::StoreView, e: LedgeError) -> bool {
    ||| nameless(s, e)
    ||| e == LedgeError::Corruption(Corruption::PackTooLarge) && overfull(s)
    ||| e == LedgeError::Corruption(Corruption::PackObjectBody) && !well_named(s)
}

proof fn lemma_pack_holds(
    s: disk::StoreView,
    ids: Seq<ObjectId>,
    objects: Seq<PackObject>,
    offsets: Seq<u64>,
    pack: Seq<u8>,
    idx: Seq<u8>,
)
    requires
        objects_of(s, ids, objects),
        git_pack_file::lists_ids(ids, readable_ids(s)),
        well_named(s),
        objects.len() <= usize::MAX,
        git_pack::pack_written(objects, WINDOW as int, pack, idx, offsets),
    ensures
        pack_holds(
            git_pack_file::view_of(rows_for(ids, objects, offsets)),
            pack,
            ids,
            objects,
        ),
{
    reveal(objects_of);
    reveal(pack_holds);
    reveal(git_pack::pack_written);
    reveal(git_pack::offsets_given);
    let rows = rows_for(ids, objects, offsets);
    lemma_rows(s, ids, objects, offsets);
    assert forall|j: int| 0 <= j < ids.len() implies git_pack_file::pack_read(
        git_pack_file::view_of(rows),
        pack,
        (#[trigger] ids[j]).bytes@,
    ) == Ok::<Option<Seq<u8>>, Corruption>(Some(objects[j].content@)) by {
        git_pack_file::pack_gives_back(rows, objects, WINDOW as int, offsets, j);
        assert(rows[j].oid == ids[j]);
    }
}

fn make_rows(ids: &Vec<ObjectId>, objects: &Vec<PackObject>, offsets: &Vec<u64>) -> (r: Vec<
    LidxEntry,
>)
    requires
        ids.len() == objects.len() == offsets.len(),
    ensures
        r@ == rows_for(ids@, objects@, offsets@),
{
    let mut rows: Vec<LidxEntry> = Vec::new();
    let mut i: usize = 0;
    while i < ids.len()
        invariant
            i <= ids.len() == objects.len(),
            objects.len() == offsets.len(),
            rows.len() == i,
            forall|j: int|
                0 <= j < i ==> #[trigger] rows@[j] == rows_for(ids@, objects@, offsets@)[j],
        decreases ids.len() - i,
    {
        rows.push(
            LidxEntry {
                oid: ids[i],
                sha1: objects[i].sha1,
                git_type: objects[i].git_type,
                offset: offsets[i],
            },
        );
        i += 1;
    }
    assert(rows@ =~= rows_for(ids@, objects@, offsets@));
    rows
}

proof fn lemma_built(
    s: disk::StoreView,
    p: NewPack,
    objects: Seq<PackObject>,
    offsets: Seq<u64>,
)
    requires
        objects_of(s, p.ids@, objects),
        git_pack_file::lists_ids(p.ids@, readable_ids(s)),
        git_pack::pack_written(objects, WINDOW as int, p.files.pack@, p.files.idx@, offsets),
        p.files.lidx@ == git_pack_file::lidx_image(rows_for(p.ids@, objects, offsets)),
        p.files.name@ == hexcode::encoded(digest::blake3_sum(p.files.pack@)),
        p.index@ == git_pack_file::view_of(rows_for(p.ids@, objects, offsets)),
        pack_holds(p.index@, p.files.pack@, p.ids@, objects),
        p.deltified == delta_count(p.index@, p.files.pack@, p.ids@),
    ensures
        built(s, p, objects, offsets),
{
    reveal(built);
    reveal(files_of);
}

fn build_pack(store: &DiskObjectStore, all: &Vec<ObjectId>) -> (r: Result<NewPack, LedgeError>)
    requires
        git_pack_file::lists_ids(all@, disk::all_ids(store@)),
    ensures
        match r {
            Ok(p) => exists|objects: Seq<PackObject>, offsets: Seq<u64>|
                #[trigger] built(store@, p, objects, offsets),
            Err(e) => not_packed(store@, e),
        },
{
    let (ids, objects) = match collect(store, all) {
        Ok(x) => x,
        Err(e) => {
            return Err(e);
        },
    };
    let (pack, idx, offsets) = match write_git_pack(&objects, WINDOW) {
        Ok(x) => x,
        Err(e) => {
            proof {
                reveal(overfull);
                assert(objects_of(store@, ids@, objects@));
            }
            return Err(e);
        },
    };
    assert(ids.len() == objects.len() == offsets.len()) by {
        reveal(objects_of);
        reveal(git_pack::pack_written);
        reveal(git_pack::offsets_given);
    }
    let rows = make_rows(&ids, &objects, &offsets);
    let index = GitPackFile::from_entries(&rows);
    if !check_pack(&index, &pack, &ids, &objects) {
        proof {
            if well_named(store@) {
                assert(objects.len() <= usize::MAX);
                lemma_pack_holds(store@, ids@, objects@, offsets@, pack@, idx@);
            }
        }
        return Err(LedgeError::Corruption(Corruption::PackObjectBody));
    }
    let deltified = count_deltas(&index, &pack, &ids, &objects);
    let lidx = write_lidx(&rows);
    let name = hexcode::encode(blake3_of_bytes(pack.as_slice()).as_slice());
    let p = NewPack { ids, index, files: PackFiles { name, pack, idx, lidx }, deltified };
    proof {
        lemma_built(store@, p, objects@, offsets@);
    }
    let r: Result<NewPack, LedgeError> = Ok(p);
    assert(built(store@, r->Ok_0, objects@, offsets@));
    r
}

/// Puts every object that can be read into one new pack, which replaces the packs of
/// the store and the loose files of those objects. Nothing changes unless every
/// object has been read back from the new pack. `pack_dir_entries` is the number of
/// files in the pack directory; what is in it after the pass is for
/// `RepackStats::count_pack_dir` to say.
#[verifier::rlimit(40)]
pub fn repack(store: &mut DiskObjectStore, pack_dir_entries: usize) -> (r: Result<
    (RepackStats, PackFiles),
    LedgeError,
>)
    ensures
        match r {
            Ok((stats, files)) => {
                &&& final(store).kept_names() is None
                &&& keeps_objects(old(store)@, final(store)@)
                &&& exists|ids: Seq<ObjectId>, objects: Seq<PackObject>, offsets: Seq<u64>|
                    #[trigger] pass_result(
                        old(store)@,
                        final(store)@,
                        ids,
                        objects,
                        offsets,
                        pack_dir_entries,
                        stats,
                        files,
                    )
            },
            Err(e) => *final(store) == *old(store) && not_packed(old(store)@, e),
        },
        r matches Ok((stats, files)) ==> {
            let s = old(store)@;
            let after = final(store)@;
            &&& forall|id: Seq<u8>|
                (#[trigger] disk::content_of(s, id)) is Ok ==> disk::content_of(after, id)
                    == disk::content_of(s, id) && disk::type_of(after, id) == disk::type_of(s, id)
                    && disk::name_of(after, id) == disk::name_of(s, id)
            &&& after.packs.len() == 1
            &&& after.packs[0].body == Some(files.pack@)
            &&& forall|id: Seq<u8>|
                {
                    &&& #[trigger] after.loose.contains_key(id) <==> s.loose.contains_key(id)
                        && disk::content_of(s, id) is Err
                    &&& after.loose.contains_key(id) ==> after.loose[id] == s.loose[id]
                }
            &&& files.name@ == hexcode::encoded(digest::blake3_sum(files.pack@))
            &&& stats.objects_seen == disk::all_ids(s).len()
            &&& stats.objects_packed == Set::new(
                |id: Seq<u8>| disk::content_of(s, id) is Ok,
            ).len()
            &&& stats.bytes_after == 0 && stats.files_after == 0
            &&& s.loose.dom().len() + pack_dir_entries <= usize::MAX ==> stats.files_before
                == s.loose.dom().len() + pack_dir_entries
        },
        r matches Ok((stats, files)) ==> exists|objects: Seq<PackObject>, offsets: Seq<u64>|
            #[trigger] git_pack::pack_written(objects, 64, files.pack@, files.idx@, offsets),
        r matches Ok((stats, files)) ==> exists|all: Seq<ObjectId>|
            #[trigger] git_pack_file::lists_ids(all, disk::all_ids(old(store)@)) && stats.bytes_before
                == loose_size(old(store)@, all),
        r matches Ok((stats, files)) ==> exists|ids: Seq<ObjectId>|
            #[trigger] git_pack_file::lists_ids(ids, readable_ids(old(store)@))
                && stats.objects_deltified == delta_count(
                final(store)@.packs[0].index,
                files.pack@,
                ids,
            ),
        r matches Ok((stats, files)) ==> exists|rows: Seq<LidxEntry>|
            files.lidx@ == #[trigger] git_pack_file::lidx_image(rows) && final(store)@.packs[0].index
                == git_pack_file::view_of(rows),
{
    let ghost s = store@;
    let all = store.list_all_ids();
    let bytes_before = total_loose_size(store, &all);
    let loose: usize = store.loose_count();
    let files_before: usize = if pack_dir_entries > usize::MAX - loose {
        usize::MAX
    } else {
        loose + pack_dir_entries
    };
    let p = match build_pack(store, &all) {
        Ok(p) => p,
        Err(e) => {
            return Err(e);
        },
    };
    let ghost (objects, offsets) = choose|objects: Seq<PackObject>, offsets: Seq<u64>|
        #[trigger] built(s, p, objects, offsets);
    proof {
        reveal(built);
        assert(offsets.len() == objects.len()) by {
            reveal(files_of);
            reveal(git_pack::pack_written);
            reveal(git_pack::offsets_given);
        }
    }
    let NewPack { ids, index, files, deltified } = p;
    let body = crate::codec::copy_bytes(files.pack.as_slice());
    drop_loose(store, &ids);
    let mut packs: Vec<StoredPack> = Vec::new();
    packs.push(StoredPack { index, body: Some(body) });
    store.swap_packs(packs);
    let stats = RepackStats {
        objects_seen: all.len(),
        objects_deltified: deltified,
        bytes_before,
        bytes_after: 0,
        objects_packed: ids.len(),
        files_before,
        files_after: 0,
    };
    proof {
        assert(disk::pack_states(packs@) =~= repacked(s, ids@, objects, offsets, files).packs);
        lemma_keeps_objects(s, ids@, objects, offsets, files);
        assert(git_pack_file::lists_ids(all@, disk::all_ids(s)));
        assert(pass_result(
            s,
            store@,
            ids@,
            objects,
            offsets,
            pack_dir_entries,
            stats,
            files,
        )) by {
            reveal(pass_result);
        }
        assert(files.name@ == hexcode::encoded(digest::blake3_sum(files.pack@))
            && git_pack::pack_written(objects, 64, files.pack@, files.idx@, offsets)) by {
            reveal(files_of);
        }
        assert(files.lidx@ == git_pack_file::lidx_image(rows_for(ids@, objects, offsets))) by {
            reveal(files_of);
        }
        assert(keeps_objects(s, store@));
        reveal(keeps_objects);
        lemma_listed_len(all@, disk::all_ids(s));
        lemma_listed_len(ids@, readable_ids(s));
        assert(readable_ids(s) =~= Set::new(|id: Seq<u8>| disk::content_of(s, id) is Ok));
        assert forall|id: Seq<u8>| ((#[trigger] store@.loose.contains_key(id))
            <==> s.loose.contains_key(id) && disk::content_of(s, id) is Err) && (
        store@.loose.contains_key(id) ==> store@.loose[id] == s.loose[id]) by {
            assert(readable_ids(s).contains(id) <==> disk::content_of(s, id) is Ok);
        }
    }
    let r: Result<(RepackStats, PackFiles), LedgeError> = Ok((stats, files));
    assert(pass_result(
        s,
        store@,
        ids@,
        objects,
        offsets,
        pack_dir_entries,
        r->Ok_0.0,
        r->Ok_0.1,
    ));
    r
}

/// The files of the packs `old` that a new pack of the given name takes the place of:
/// bodies and indexes. The new pack itself is left alone, also where it is one of the
/// old ones.
pub open spec fn superseded(old_packs: Seq<Seq<u8>>, name: Seq<u8>) -> Seq<Seq<u8>>
    decreases old_packs.len(),
{
    if old_packs.len() == 0 {
        Seq::empty()
    } else {
        let front = superseded(old_packs.drop_last(), name);
        let stem = tier::stem(old_packs.last());
        if stem == name {
            front
        } else {
            front + seq![
                stem + tier::pack_ext(),
                stem + tier::idx_ext(),
                stem + tier::lidx_ext(),
            ]
        }
    }
}

/// The files to remove once a new pack stands in the pack directory, given the names
/// of the packs before.
pub fn superseded_files(old_packs: &Vec<Vec<u8>>, name: &[u8]) -> (r: Vec<Vec<u8>>)
    ensures
        tier::names_of(r@) == superseded(tier::names_of(old_packs@), name@),
{
    let ghost all = tier::names_of(old_packs@);
    let mut out: Vec<Vec<u8>> = Vec::new();
    let mut i: usize = 0;
    assert(all.subrange(0, 0) =~= Seq::<Seq<u8>>::empty());
    assert(tier::names_of(out@) =~= Seq::<Seq<u8>>::empty());
    while i < old_packs.len()
        invariant
            i <= old_packs.len(),
            all == tier::names_of(old_packs@),
            tier::names_of(out@) == superseded(all.subrange(0, i as int), name@),
        decreases old_packs.len() - i,
    {
        assert(all.subrange(0, i + 1).drop_last() =~= all.subrange(0, i as int));
        let ghost before = tier::names_of(out@);
        let stem = tier::stem_of(old_packs[i].as_slice());
        if !bytes_equal(stem.as_slice(), name) {
            let body = tier::concat(stem.as_slice(), tier::ext_pack().as_slice());
            let idx = tier::concat(stem.as_slice(), tier::ext_idx().as_slice());
            let lidx = tier::concat(stem.as_slice(), tier::ext_lidx().as_slice());
            out.push(body);
            out.push(idx);
            out.push(lidx);
            assert(tier::names_of(out@) =~= before + seq![
                stem@ + tier::pack_ext(),
                stem@ + tier::idx_ext(),
                stem@ + tier::lidx_ext(),
            ]);
        }
        i += 1;
    }
    assert(all.subrange(0, i as int) =~= all);
    out
}

proof fn lemma_listed_len(v: Seq<ObjectId>, set: Set<Seq<u8>>)
    requires
        git_pack_file::lists_ids(v, set),
    ensures
        v.len() == set.len(),
{
    let keys = v.map_values(|id: ObjectId| id.bytes@);
    assert forall|i: int, j: int|
        0 <= i < keys.len() && 0 <= j < keys.len() && i != j implies keys[i] != keys[j] by {
        if i < j {
            assert(crate::keytable::key_less(v[i].bytes@, v[j].bytes@));
        } else {
            assert(crate::keytable::key_less(v[j].bytes@, v[i].bytes@));
        }
    }
    keys.unique_seq_to_set();
    assert forall|k: Seq<u8>| keys.to_set().contains(k) <==> set.contains(k) by {
        if set.contains(k) {
            assert(git_pack_file::has_id(v, k));
            let i = choose|i: int| 0 <= i < v.len() && (#[trigger] v[i]).bytes@ == k;
            assert(keys[i] == k);
        }
        if keys.contains(k) {
            let i = choose|i: int| 0 <= i < keys.len() && keys[i] == k;
            assert(set.contains(v[i].bytes@));
        }
    }
    assert(keys.to_set() =~= set);
}

/// A new pack takes the place of the body and the two indexes of every other pack, with
/// or without ".pack" at the end of its name, and leaves its own alone.
pub proof fn superseded_is_the_rest(old_packs: Seq<Seq<u8>>, name: Seq<u8>, stem: Seq<u8>)
    ensures
        superseded(Seq::empty(), name).len() == 0,
        ({
            let front = superseded(old_packs, name);
            let now = superseded(old_packs.push(stem + seq![46u8, 112, 97, 99, 107]), name);
            &&& stem == name ==> now == front
            &&& stem != name ==> now == front + seq![
                stem + seq![46u8, 112, 97, 99, 107],
                stem + seq![46u8, 105, 100, 120],
                stem + seq![46u8, 108, 105, 100, 120],
            ]
        }),
        stem.len() < 5 || stem.subrange(stem.len() - 5, stem.len() as int) != seq![46u8, 112, 97, 99, 107]
            ==> superseded(old_packs.push(stem), name) == superseded(
            old_packs.push(stem + seq![46u8, 112, 97, 99, 107]),
            name,
        ),
{
    let named = stem + seq![46u8, 112, 97, 99, 107];
    assert(named.subrange(named.len() - 5, named.len() as int) =~= tier::pack_ext());
    assert(named.subrange(0, named.len() - 5) =~= stem);
    assert(old_packs.push(named).drop_last() =~= old_packs);
    assert(old_packs.push(stem).drop_last() =~= old_packs);
}

/// None of the files that are removed is one of the new pack.
pub proof fn new_pack_is_kept(old_packs: Seq<Seq<u8>>, name: Seq<u8>, i: int)
    requires
        0 <= i < superseded(old_packs, name).len(),
    ensures
        ({
            let file = superseded(old_packs, name)[i];
            file != name + seq![46u8, 112, 97, 99, 107] && file != name + seq![46u8, 105, 100, 120] && file != name + seq![46u8, 108, 105, 100, 120]
        }),
    decreases old_packs.len(),
{
    let front = superseded(old_packs.drop_last(), name);
    if i < front.len() {
        new_pack_is_kept(old_packs.drop_last(), name, i);
    } else {
        let stem = tier::stem(old_packs.last());
        let a = stem + seq![46u8, 112, 97, 99, 107];
        let b = stem + seq![46u8, 105, 100, 120];
        let c = stem + seq![46u8, 108, 105, 100, 120];
        let x = name + seq![46u8, 112, 97, 99, 107];
        let y = name + seq![46u8, 105, 100, 120];
        let z = name + seq![46u8, 108, 105, 100, 120];
        assert(a[a.len() - 1] == 107 && b[b.len() - 1] == 120 && c[c.len() - 1] == 120);
        assert(x[x.len() - 1] == 107 && y[y.len() - 1] == 120 && z[z.len() - 1] == 120);
        assert(b[b.len() - 4] == 46 && c[c.len() - 4] == 108);
        assert(y[y.len() - 4] == 46 && z[z.len() - 4] == 108);
        assert(a.subrange(0, a.len() - 5) =~= stem && x.subrange(0, x.len() - 5) =~= name);
        assert(b.subrange(0, b.len() - 4) =~= stem && y.subrange(0, y.len() - 4) =~= name);
        assert(c.subrange(0, c.len() - 5) =~= stem && z.subrange(0, z.len() - 5) =~= name);
    }
}

/// Sizes add up, to the largest number at most.
pub proof fn sizes_add_up(
    s: disk::StoreView,
    ids: Seq<ObjectId>,
    id: ObjectId,
    sizes: Seq<u64>,
    size: u64,
)
    ensures
        total_size(Seq::empty()) == 0,
        total_size(sizes.push(size)) == if total_size(sizes) + size > u64::MAX {
            u64::MAX as int
        } else {
            total_size(sizes) + size
        },
        loose_size(s, Seq::empty()) == 0,
        ({
            let n = if s.loose.contains_key(id.bytes@) {
                s.loose[id.bytes@].len() as int
            } else {
                0
            };
            loose_size(s, ids.push(id)) == if loose_size(s, ids) + n > u64::MAX {
                u64::MAX as int
            } else {
                loose_size(s, ids) + n
            }
        }),
{
    assert(sizes.push(size).drop_last() =~= sizes);
    assert(ids.push(id).drop_last() =~= ids);
}

/// The objects that a pack stores as deltas are counted one by one.
pub proof fn deltas_are_counted(
    v: git_pack_file::PackView,
    pack: Seq<u8>,
    ids: Seq<ObjectId>,
    id: ObjectId,
)
    ensures
        delta_count(v, pack, Seq::empty()) == 0,
        ({
            let base = git_pack_file::pack_base(v, pack, id.bytes@);
            delta_count(v, pack, ids.push(id)) == delta_count(v, pack, ids) + if base is Ok
                && base->Ok_0 is Some {
                1nat
            } else {
                0nat
            }
        }),
{
    assert(ids.push(id).drop_last() =~= ids);
}

} // verus!
