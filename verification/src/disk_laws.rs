//! What the object store makes of its files, spelled out.

use vstd::prelude::*;
use crate::delta;
use crate::digest;
use crate::disk;
use crate::git_pack_file;
use crate::hexcode;
use crate::object_file;
use crate::types::{Corruption, ObjectId};
use crate::zlib;

verus! {

// ---------------------------------------------------------------------------
// Loose files
// ---------------------------------------------------------------------------

/// Byte 21 of a loose file says how its content is stored: 0 as it is, 1 compressed, 2
/// as a delta. The content stands behind the 24 bytes of the header.
pub proof fn loose_content(s: disk::StoreView, id: Seq<u8>, depth: nat)
    requires
        s.loose.contains_key(id),
    ensures
        ({
            let raw = s.loose[id];
            let body = raw.subrange(24, raw.len() as int);
            let r = disk::content_at(s, id, depth);
            &&& raw.len() < 24 ==> r == Err::<Seq<u8>, disk::ReadFail>(
                disk::ReadFail::Corrupt(Corruption::ObjectHeader),
            )
            &&& raw.len() >= 24 && raw[21] == 0 ==> r == Ok::<Seq<u8>, disk::ReadFail>(body)
            &&& raw.len() >= 24 && raw[21] == 1 ==> {
                let out = zlib::inflated(body, 2147483649);
                &&& r is Ok <==> out is Some && out->0.len() <= 2147483648
                &&& r is Ok ==> r->Ok_0 == out->0
            }
            &&& raw.len() >= 24 && raw[21] > 2 ==> r == Err::<Seq<u8>, disk::ReadFail>(
                disk::ReadFail::Corrupt(Corruption::ObjectEncoding),
            )
        }),
{
}

/// A loose delta names its base in the 32 bytes behind the header; applying what
/// follows, expanded, to the content of the base gives the content. Fifty deltas may
/// follow each other, and no more.
pub proof fn loose_delta(s: disk::StoreView, id: Seq<u8>, depth: nat)
    requires
        s.loose.contains_key(id),
        s.loose[id].len() >= 24,
        s.loose[id][21] == 2,
    ensures
        ({
            let raw = s.loose[id];
            let r = disk::content_at(s, id, depth);
            let base = disk::content_at(s, raw.subrange(24, 56), depth + 1);
            let d = object_file::expanded(raw.subrange(56, raw.len() as int));
            &&& depth >= 50 ==> r == Err::<Seq<u8>, disk::ReadFail>(
                disk::ReadFail::Corrupt(Corruption::ChainTooDeep),
            )
            &&& depth < 50 && raw.len() < 56 ==> r == Err::<Seq<u8>, disk::ReadFail>(
                disk::ReadFail::Corrupt(Corruption::ObjectHeader),
            )
            &&& depth < 50 && raw.len() >= 56 ==> {
                &&& base is Err ==> r == base
                &&& base is Ok && d is Err ==> r is Err
                &&& base is Ok && d is Ok && delta::applied(base->Ok_0, d->Ok_0) is Some ==> r
                    == Ok::<Seq<u8>, disk::ReadFail>(delta::applied(base->Ok_0, d->Ok_0)->0)
                &&& base is Ok && d is Ok && delta::applied(base->Ok_0, d->Ok_0) is None ==> r
                    == Err::<Seq<u8>, disk::ReadFail>(disk::ReadFail::Corrupt(Corruption::Delta))
            }
        }),
{
}

/// The first twenty bytes of a loose file are the name of the object, and the byte
/// behind them is its type.
pub proof fn loose_header(s: disk::StoreView, id: Seq<u8>)
    requires
        s.loose.contains_key(id),
    ensures
        s.loose[id].len() >= 20 ==> disk::name_of(s, id) == Ok::<Seq<u8>, disk::ReadFail>(
            s.loose[id].subrange(0, 20),
        ),
        s.loose[id].len() < 20 ==> disk::name_of(s, id) is Err,
        s.loose[id].len() >= 24 ==> disk::type_of(s, id) == Ok::<u8, disk::ReadFail>(
            s.loose[id][20],
        ),
        s.loose[id].len() < 24 ==> disk::type_of(s, id) is Err,
        disk::base_in(s, id) == Ok::<Option<Seq<u8>>, disk::ReadFail>(
            if s.loose[id].len() >= 56 && s.loose[id][21] == 2 {
                Some(s.loose[id].subrange(24, 56))
            } else {
                None
            },
        ),
{
}

/// Storing an object adds one file, at the address of the content, and touches nothing
/// else.
pub proof fn write_adds_one_file(s: disk::StoreView, git_type: u8, content: Seq<u8>, id: Seq<u8>)
    ensures
        ({
            let after = disk::written_object(s, git_type, content);
            &&& after.packs == s.packs
            &&& after.loose.contains_key(id) <==> s.loose.contains_key(id) || id
                == digest::blake3_sum(content)
            &&& id != digest::blake3_sum(content) && s.loose.contains_key(id) ==> after.loose[id]
                == s.loose[id]
        }),
{
}

/// Blobs are stored one after the other, each under the address of its content.
#[verifier::rlimit(30)]
pub proof fn blobs_are_stored(s: disk::StoreView, contents: Seq<Vec<u8>>, i: int, id: Seq<u8>)
    ensures
        ({
            let after = disk::written_blobs(s, contents);
            &&& after.packs == s.packs
            &&& s.loose.contains_key(id) ==> after.loose.contains_key(id)
            &&& 0 <= i < contents.len() ==> after.loose.contains_key(
                digest::blake3_sum(contents[i]@),
            )
            &&& after.loose.contains_key(id) && !s.loose.contains_key(id) ==> exists|j: int|
                0 <= j < contents.len() && digest::blake3_sum((#[trigger] contents[j])@) == id
        }),
    decreases contents.len(),
{
    if contents.len() > 0 {
        let front = contents.drop_last();
        blobs_are_stored(s, front, i, id);
        let after = disk::written_blobs(s, contents);
        let last = contents.len() - 1;
        if after.loose.contains_key(id) && !s.loose.contains_key(id) {
            if digest::blake3_sum(contents[last]@) != id {
                let j = choose|j: int|
                    0 <= j < front.len() && digest::blake3_sum((#[trigger] front[j])@) == id;
                assert(digest::blake3_sum(contents[j]@) == id);
            }
        }
        if 0 <= i < last {
            assert(front[i] == contents[i]);
        }
    }
}

/// A loose file stands in "objects/", a directory for the first two digits of the
/// address and one for the next two, under all the digits.
pub proof fn paths_spell_addresses(id: Seq<u8>)
    ensures
        ({
            let hex = hexcode::encoded(id);
            disk::path_of(id) == seq![111u8, 98, 106, 101, 99, 116, 115, 47] + hex.subrange(0, 2)
                + seq![47u8] + hex.subrange(2, 4) + seq![47u8] + hex
        }),
{
}

// ---------------------------------------------------------------------------
// Packs
// ---------------------------------------------------------------------------

/// Of several packs with an object the first one is asked.
pub proof fn first_pack_is_asked(packs: Seq<disk::PackState>, id: Seq<u8>, i: int)
    requires
        0 <= i < packs.len(),
        packs[i].index.by_oid.contains_key(id),
        forall|j: int| 0 <= j < i ==> !(#[trigger] packs[j]).index.by_oid.contains_key(id),
    ensures
        disk::pack_with(packs, id, 0) == Some(i),
{
    lemma_pack_with(packs, id, 0, i);
}

proof fn lemma_pack_with(packs: Seq<disk::PackState>, id: Seq<u8>, from: int, i: int)
    requires
        0 <= from <= i < packs.len(),
        packs[i].index.by_oid.contains_key(id),
        forall|j: int| 0 <= j < i ==> !(#[trigger] packs[j]).index.by_oid.contains_key(id),
    ensures
        disk::pack_with(packs, id, from) == Some(i),
    decreases i - from,
{
    if from < i {
        assert(!packs[from].index.by_oid.contains_key(id));
        lemma_pack_with(packs, id, from + 1, i);
    }
}

/// Where no pack has an object, none is asked.
pub proof fn no_pack_is_asked(packs: Seq<disk::PackState>, id: Seq<u8>, from: int)
    requires
        0 <= from,
        forall|j: int|
            from <= j < packs.len() ==> !(#[trigger] packs[j]).index.by_oid.contains_key(id),
    ensures
        disk::pack_with(packs, id, from) is None,
    decreases packs.len() - from,
{
    if from < packs.len() {
        assert(!packs[from].index.by_oid.contains_key(id));
        no_pack_is_asked(packs, id, from + 1);
    }
}

/// What is not loose is read from the first pack that has it. Where the body of that
/// pack was moved away it is not available; what no pack has is not there.
#[verifier::rlimit(30)]
pub proof fn packed_objects(s: disk::StoreView, id: Seq<u8>, depth: nat, i: int)
    requires
        !s.loose.contains_key(id),
    ensures
        (forall|j: int| 0 <= j < s.packs.len() ==> !(#[trigger] s.packs[j]).index.by_oid.contains_key(
            id,
        )) ==> {
            &&& disk::content_at(s, id, depth) == Err::<Seq<u8>, disk::ReadFail>(
                disk::ReadFail::NotFound(id),
            )
            &&& disk::type_of(s, id) == Err::<u8, disk::ReadFail>(disk::ReadFail::NotFound(id))
            &&& disk::base_in(s, id) == Ok::<Option<Seq<u8>>, disk::ReadFail>(None)
            &&& !disk::has_object(s, id)
        },
        0 <= i < s.packs.len() && s.packs[i].index.by_oid.contains_key(id) && (forall|j: int|
            0 <= j < i ==> !(#[trigger] s.packs[j]).index.by_oid.contains_key(id)) ==> {
            let p = s.packs[i];
            &&& disk::has_object(s, id)
            &&& disk::type_of(s, id) == Ok::<u8, disk::ReadFail>(p.index.by_oid[id].0)
            &&& p.body is None ==> disk::content_at(s, id, depth) == Err::<Seq<u8>, disk::ReadFail>(
                disk::ReadFail::Unavailable,
            )
            &&& p.body matches Some(b) ==> {
                let r = git_pack_file::pack_read(p.index, b, id);
                &&& disk::content_at(s, id, depth) is Ok <==> r is Ok && r->Ok_0 is Some
                &&& r is Ok && r->Ok_0 is Some ==> disk::content_at(s, id, depth)->Ok_0
                    == r->Ok_0->0
            }
        },
{
    if forall|j: int|
        0 <= j < s.packs.len() ==> !(#[trigger] s.packs[j]).index.by_oid.contains_key(id) {
        no_pack_is_asked(s.packs, id, 0);
    }
    if 0 <= i < s.packs.len() && s.packs[i].index.by_oid.contains_key(id) && (forall|j: int|
        0 <= j < i ==> !(#[trigger] s.packs[j]).index.by_oid.contains_key(id)) {
        first_pack_is_asked(s.packs, id, i);
    }
}

/// The name of a packed object is that of the first pack that has one for it.
pub proof fn packed_names(s: disk::StoreView, id: Seq<u8>, i: int)
    requires
        !s.loose.contains_key(id),
        0 <= i < s.packs.len(),
        s.packs[i].index.oid_to_sha1.contains_key(id),
        forall|j: int| 0 <= j < i ==> !(#[trigger] s.packs[j]).index.oid_to_sha1.contains_key(id),
    ensures
        disk::name_of(s, id) == Ok::<Seq<u8>, disk::ReadFail>(s.packs[i].index.oid_to_sha1[id]@),
{
    lemma_name_pack(s.packs, id, 0, i);
}

proof fn lemma_name_pack(packs: Seq<disk::PackState>, id: Seq<u8>, from: int, i: int)
    requires
        0 <= from <= i < packs.len(),
        packs[i].index.oid_to_sha1.contains_key(id),
        forall|j: int| 0 <= j < i ==> !(#[trigger] packs[j]).index.oid_to_sha1.contains_key(id),
    ensures
        disk::name_pack(packs, id, from) == Some(i),
    decreases i - from,
{
    if from < i {
        assert(!packs[from].index.oid_to_sha1.contains_key(id));
        lemma_name_pack(packs, id, from + 1, i);
    }
}

/// Of several packs with an object of a name the last one is taken.
pub proof fn last_named_is_last(packs: Seq<disk::PackState>, k: Seq<u8>, n: int)
    requires
        n <= packs.len(),
    ensures
        match disk::last_named(packs, k, n) {
            Some(i) => {
                &&& 0 <= i < n
                &&& packs[i].index.sha1_to_oid.contains_key(k)
                &&& forall|j: int|
                    i < j < n ==> !(#[trigger] packs[j]).index.sha1_to_oid.contains_key(k)
            },
            None => forall|j: int|
                0 <= j < n ==> !(#[trigger] packs[j]).index.sha1_to_oid.contains_key(k),
        },
    decreases n,
{
    if n > 0 {
        last_named_is_last(packs, k, n - 1);
    }
}

/// A pack is opened where its index is there and in order, and its body, if it is
/// there, begins with "PACK" and the number of the format. Packs keep the order of
/// their files; those that cannot be opened are left out.
pub proof fn packs_open_in_order(
    files: Seq<disk::PackFilesView>,
    f: disk::PackFilesView,
    packs: Seq<disk::PackState>,
    p: disk::PackState,
)
    ensures
        disk::packs_from(Seq::empty(), packs) <==> packs.len() == 0,
        disk::pack_opens(f) <==> f.lidx is Some && git_pack_file::lidx_ok(f.lidx->0) && (f.body
            is Some ==> git_pack_file::has_pack_magic(f.body->0)),
        disk::pack_opens(f) ==> (disk::packs_from(files.push(f), packs.push(p))
            <==> disk::packs_from(files, packs) && disk::pack_from(f, p)),
        !disk::pack_opens(f) ==> (disk::packs_from(files.push(f), packs) <==> disk::packs_from(
            files,
            packs,
        )),
        disk::pack_from(f, p) ==> p.body == f.body,
{
    assert(files.push(f).drop_last() =~= files);
    assert(packs.push(p).drop_last() =~= packs);
}

// ---------------------------------------------------------------------------
// Chains of deltas
// ---------------------------------------------------------------------------

/// A chain is as long as there are deltas on the way to an object that is stored
/// whole.
pub proof fn chains_count_deltas(s: disk::StoreView, id: Seq<u8>, fuel: nat, target: Seq<u8>)
    ensures
        disk::chain_from(s, id, 0) == Ok::<nat, disk::ReadFail>(0),
        disk::chain_reaches(s, id, target, 0) == Ok::<bool, disk::ReadFail>(false),
        match disk::base_in(s, id) {
            Ok(None) => {
                &&& disk::chain_from(s, id, fuel) == Ok::<nat, disk::ReadFail>(0)
                &&& disk::chain_reaches(s, id, target, fuel) == Ok::<bool, disk::ReadFail>(false)
            },
            Ok(Some(base)) => {
                &&& disk::chain_from(s, id, fuel + 1) == match disk::chain_from(s, base, fuel) {
                    Ok(n) => Ok::<nat, disk::ReadFail>(n + 1),
                    Err(f) => Err(f),
                }
                &&& base == target ==> disk::chain_reaches(s, id, target, fuel + 1) == Ok::<
                    bool,
                    disk::ReadFail,
                >(true)
                &&& base != target ==> disk::chain_reaches(s, id, target, fuel + 1)
                    == disk::chain_reaches(s, base, target, fuel)
            },
            Err(f) => {
                &&& disk::chain_from(s, id, fuel + 1) == Err::<nat, disk::ReadFail>(f)
                &&& disk::chain_reaches(s, id, target, fuel + 1) == Err::<bool, disk::ReadFail>(f)
            },
        },
{
}

/// An object that is turned into a delta gets a delta against the base that was asked
/// for, in a file shorter than its own; its base stands on at most 48 deltas and not
/// on the object itself. It stays as it is only for one of these reasons, or where the
/// delta is too large to be expanded again, or where an object that stands on it would
/// be reached through more than fifty deltas.
#[verifier::spinoff_prover]
#[verifier::rlimit(30)]
pub proof fn deltas_are_worth_it(s: disk::StoreView, target: Seq<u8>, base: Seq<u8>)
    requires
        base.len() == 32,
        disk::name_of(s, target) matches Ok(name) ==> name.len() == 20,
    ensures
        ({
            let n = disk::chain_from(s, base, 50);
            let reaches = disk::chain_reaches(s, base, target, 50);
            let t = disk::content_of(s, target);
            let b = disk::content_of(s, base);
            match disk::deltified(s, target, base) {
                Ok(Some(file)) => {
                    &&& target != base
                    &&& n is Ok && n->Ok_0 <= 48
                    &&& reaches == Ok::<bool, disk::ReadFail>(false)
                    &&& t is Ok && b is Ok && digest::blake3_sum(t->Ok_0) == target
                    &&& file[21] == 2
                    &&& file.subrange(24, 56) == base
                    &&& file.subrange(56, file.len() as int) == zlib::deflated(
                        delta::delta_of(b->Ok_0, t->Ok_0),
                    )
                    &&& disk::type_of(s, target) == Ok::<u8, disk::ReadFail>(file[20])
                    &&& disk::name_of(s, target) == Ok::<Seq<u8>, disk::ReadFail>(
                        file.subrange(0, 20),
                    )
                    &&& s.loose.contains_key(target) ==> file.len() < s.loose[target].len()
                },
                Ok(None) => {
                    ||| target == base
                    ||| n is Ok && n->Ok_0 >= 49
                    ||| reaches == Ok::<bool, disk::ReadFail>(true)
                    ||| t is Ok && b is Ok && delta::delta_of(b->Ok_0, t->Ok_0).len() > 2147483648
                    ||| t is Ok && b is Ok && s.loose.contains_key(target) && 56 + zlib::deflated(
                        delta::delta_of(b->Ok_0, t->Ok_0),
                    ).len() >= s.loose[target].len()
                    ||| n is Ok && exists|id: Seq<u8>|
                        s.loose.contains_key(id) && ((#[trigger] disk::hops_to(s, id, target, 50))
                            matches Some(k) && k + n->Ok_0 + 1 > 50)
                },
                Err(_) => {
                    ||| n is Err
                    ||| reaches is Err
                    ||| t is Err
                    ||| b is Err
                    ||| disk::type_of(s, target) is Err
                    ||| disk::name_of(s, target) is Err
                    ||| t is Ok && digest::blake3_sum(t->Ok_0) != target
                },
            }
        }),
{
    let n = disk::chain_from(s, base, 50);
    if target != base && n is Ok && n->Ok_0 < 49 {
        if let (Ok(t), Ok(b), Ok(git_type), Ok(name)) = (
            disk::content_of(s, target),
            disk::content_of(s, base),
            disk::type_of(s, target),
            disk::name_of(s, target),
        ) {
            crate::format_laws::delta_file_layout(name, git_type, base, delta::delta_of(b, t));
        }
    }
}

/// Deltas between loose objects are counted one by one.
pub proof fn hops_count_deltas(s: disk::StoreView, id: Seq<u8>, target: Seq<u8>, fuel: nat)
    ensures
        disk::hops_to(s, target, target, fuel) == Some(0nat),
        id != target ==> disk::hops_to(s, id, target, 0) is None,
        id != target && s.loose.contains_key(id) && s.loose[id].len() >= 56 && s.loose[id][21] == 2
            ==> (disk::hops_to(s, id, target, fuel + 1) == match disk::hops_to(
            s,
            s.loose[id].subrange(24, 56),
            target,
            fuel,
        ) {
            Some(n) => Some(n + 1),
            None => None,
        }),
        id != target && !(s.loose.contains_key(id) && s.loose[id].len() >= 56 && s.loose[id][21]
            == 2) ==> disk::hops_to(s, id, target, fuel + 1) is None,
{
}

/// Sweeping removes the loose files that are not kept, and nothing else.
pub proof fn sweep_removes_files(s: disk::StoreView, keep: Set<Seq<u8>>, id: Seq<u8>)
    ensures
        disk::swept(s, keep).packs == s.packs,
        disk::swept(s, keep).loose.contains_key(id) <==> s.loose.contains_key(id) && keep.contains(
            id,
        ),
        disk::swept(s, keep).loose.contains_key(id) ==> disk::swept(s, keep).loose[id]
            == s.loose[id],
{
}

/// What an index of names holds: every name of a whole loose file and every name of a
/// pack. A name that packs have leads to the object of the last of them, any other to
/// a loose file with that name.
#[verifier::rlimit(30)]
pub proof fn index_holds_names(v: Map<Seq<u8>, ObjectId>, s: disk::StoreView, k: Seq<u8>)
    requires
        disk::indexes_names(v, s),
    ensures
        forall|id: Seq<u8>| #[trigger]
            s.loose.contains_key(id) && s.loose[id].len() >= 24 ==> v.contains_key(
                s.loose[id].subrange(0, 20),
            ),
        (exists|i: int|
            0 <= i < s.packs.len() && (#[trigger] s.packs[i]).index.sha1_to_oid.contains_key(k))
            ==> v.contains_key(k) && exists|i: int|
            {
                &&& 0 <= i < s.packs.len()
                &&& (#[trigger] s.packs[i]).index.sha1_to_oid.contains_key(k)
                &&& v[k] == s.packs[i].index.sha1_to_oid[k]
                &&& forall|j: int|
                    i < j < s.packs.len()
                        ==> !(#[trigger] s.packs[j]).index.sha1_to_oid.contains_key(k)
            },
        v.contains_key(k) && !(exists|i: int|
            0 <= i < s.packs.len() && (#[trigger] s.packs[i]).index.sha1_to_oid.contains_key(k))
            ==> s.loose.contains_key(v[k].bytes@) && s.loose[v[k].bytes@].len() >= 24
            && s.loose[v[k].bytes@].subrange(0, 20) == k,
{
    last_named_is_last(s.packs, k, s.packs.len() as int);
    if exists|i: int|
        0 <= i < s.packs.len() && (#[trigger] s.packs[i]).index.sha1_to_oid.contains_key(k) {
        let i = choose|i: int|
            0 <= i < s.packs.len() && (#[trigger] s.packs[i]).index.sha1_to_oid.contains_key(k);
        assert(s.packs[i].index.sha1_to_oid.contains_key(k));
        assert(v.contains_key(k));
        let l = disk::last_named(s.packs, k, s.packs.len() as int)->0;
        assert(s.packs[l].index.sha1_to_oid.contains_key(k));
    }
}

/// A pack that was opened knows its objects by the rows of its index.
pub proof fn packs_know_their_rows(f: disk::PackFilesView, p: disk::PackState)
    requires
        disk::pack_from(f, p),
    ensures
        p.body == f.body,
        exists|v: Seq<git_pack_file::LidxEntry>|
            #[trigger] git_pack_file::lidx_holds(f.lidx->0, v) && p.index
                == git_pack_file::view_of(v),
{
}

/// A batch stores its contents as blobs, one after the other.
pub proof fn batches_store_blobs(s: disk::StoreView, contents: Seq<Vec<u8>>, content: Vec<u8>)
    ensures
        disk::written_blobs(s, Seq::empty()) == s,
        disk::written_blobs(s, contents.push(content)) == disk::written_object(
            disk::written_blobs(s, contents),
            3,
            content@,
        ),
{
    assert(contents.push(content).drop_last() =~= contents);
}

} // verus!
