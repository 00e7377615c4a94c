//! The cold tier: which packs are moved there and how, how a node finds its packs
//! again, and what a body must be before it is put back.
//!
//! In the pack directory a pack is `<name>.pack` with `<name>.idx` and
//! `<name>.lidx`. When the body is moved away, the marker `<name>.pack.s3` holds its
//! key. In the tier the files stand under `packs/`.

use vstd::prelude::*;
use crate::codec;
use crate::codec::{bytes_equal, copy_bytes, copy_range, ends_with, push_all, starts_with};
use crate::digest;
use crate::digest::{blake3_of_bytes, sha1_of_bytes};
use crate::hexcode;
use crate::types::{Corruption, LedgeError};

verus! {

/// Counters of a pass that moves packs away.
#[derive(Clone, Copy, Debug, Default, PartialEq, Eq)]
pub struct TierStats {
    /// Bodies uploaded and removed from this node.
    pub packs_tiered: usize,
    /// Bytes of those bodies.
    pub bytes_uploaded: u64,
}

/// ".pack"
pub open spec fn pack_ext() -> Seq<u8> {
    seq![46u8, 112, 97, 99, 107]
}

/// ".s3"
pub open spec fn s3_ext() -> Seq<u8> {
    seq![46u8, 115, 51]
}

/// ".idx"
pub open spec fn idx_ext() -> Seq<u8> {
    seq![46u8, 105, 100, 120]
}

/// ".lidx"
pub open spec fn lidx_ext() -> Seq<u8> {
    seq![46u8, 108, 105, 100, 120]
}

/// "packs/"
pub open spec fn packs_dir() -> Seq<u8> {
    seq![112u8, 97, 99, 107, 115, 47]
}

pub(crate) fn ext_pack() -> (r: [u8; 5])
    ensures
        r@ == pack_ext(),
{
    let r: [u8; 5] = [46, 112, 97, 99, 107];
    assert(r@ =~= pack_ext());
    r
}

fn ext_s3() -> (r: [u8; 3])
    ensures
        r@ == s3_ext(),
{
    let r: [u8; 3] = [46, 115, 51];
    assert(r@ =~= s3_ext());
    r
}

pub(crate) fn ext_idx() -> (r: [u8; 4])
    ensures
        r@ == idx_ext(),
{
    let r: [u8; 4] = [46, 105, 100, 120];
    assert(r@ =~= idx_ext());
    r
}

pub(crate) fn ext_lidx() -> (r: [u8; 5])
    ensures
        r@ == lidx_ext(),
{
    let r: [u8; 5] = [46, 108, 105, 100, 120];
    assert(r@ =~= lidx_ext());
    r
}

fn dir_packs() -> (r: [u8; 6])
    ensures
        r@ == packs_dir(),
{
    let r: [u8; 6] = [112, 97, 99, 107, 115, 47];
    assert(r@ =~= packs_dir());
    r
}

/// Two byte strings, one behind the other.
pub(crate) fn concat(a: &[u8], b: &[u8]) -> (r: Vec<u8>)
    ensures
        r@ == a@ + b@,
{
    let mut r = copy_bytes(a);
    push_all(&mut r, b);
    r
}

/// The marker of a pack: the path of the pack with `.s3` appended.
pub fn marker_path(pack_path: &[u8]) -> (r: Vec<u8>)
    ensures
        r@ == pack_path@ + s3_ext(),
        r@ == pack_path@ + seq![46u8, 115, 51],
{
    concat(pack_path, ext_s3().as_slice())
}

// ---------------------------------------------------------------------------
// Names in the pack directory
// ---------------------------------------------------------------------------

/// The name of a body: something followed by ".pack".
pub open spec fn is_pack_name(name: Seq<u8>) -> bool {
    name.len() > 5 && codec::has_suffix(name, pack_ext())
}

/// The pack that a file in the pack directory stands for: itself if it is a body,
/// the body if it is a marker.
pub open spec fn pack_of_file(name: Seq<u8>) -> Option<Seq<u8>> {
    if is_pack_name(name) {
        Some(name)
    } else if codec::has_suffix(name, pack_ext() + s3_ext()) {
        Some(name.subrange(0, name.len() - 3))
    } else {
        None
    }
}

/// What some names hold.
pub open spec fn names_of(v: Seq<Vec<u8>>) -> Seq<Seq<u8>> {
    Seq::new(v.len(), |i: int| v[i]@)
}

/// One of the names is `name`.
pub open spec fn has_name(names: Seq<Seq<u8>>, name: Seq<u8>) -> bool {
    exists|i: int| 0 <= i < names.len() && #[trigger] names[i] == name
}

/// The packs of a directory, each once, in the order in which a file of theirs was
/// found first.
pub open spec fn packs_in(names: Seq<Seq<u8>>) -> Seq<Seq<u8>>
    decreases names.len(),
{
    if names.len() == 0 {
        Seq::empty()
    } else {
        let front = packs_in(names.drop_last());
        match pack_of_file(names.last()) {
            Some(pack) => if has_name(front, pack) {
                front
            } else {
                front.push(pack)
            },
            None => front,
        }
    }
}

/// Whether a name is in a list.
pub fn list_has(names: &Vec<Vec<u8>>, name: &[u8]) -> (r: bool)
    ensures
        r == has_name(names_of(names@), name@),
{
    let mut i: usize = 0;
    while i < names.len()
        invariant
            i <= names.len(),
            forall|j: int| 0 <= j < i ==> #[trigger] names_of(names@)[j] != name@,
        decreases names.len() - i,
    {
        if bytes_equal(names[i].as_slice(), name) {
            assert(names_of(names@)[i as int] == name@);
            return true;
        }
        i += 1;
    }
    false
}

fn pack_of_name(name: &[u8]) -> (r: Option<Vec<u8>>)
    ensures
        match r {
            Some(p) => pack_of_file(name@) == Some(p@),
            None => pack_of_file(name@) is None,
        },
{
    if name.len() > 5 && ends_with(name, ext_pack().as_slice()) {
        return Some(copy_bytes(name));
    }
    let marker = concat(ext_pack().as_slice(), ext_s3().as_slice());
    if ends_with(name, marker.as_slice()) {
        Some(copy_range(name, 0, name.len() - 3))
    } else {
        None
    }
}

/// The packs that a listing of the pack directory shows. A pack whose body was moved
/// away shows by its marker.
#[verifier::rlimit(40)]
pub fn list_packs(names: &Vec<Vec<u8>>) -> (r: Vec<Vec<u8>>)
    ensures
        names_of(r@) == packs_in(names_of(names@)),
        ({
            let listed = Seq::new(names@.len(), |i: int| names@[i]@);
            let shown = Seq::new(r@.len(), |i: int| r@[i]@);
            &&& shown.no_duplicates()
            &&& forall|p: Seq<u8>| #[trigger]
                shown.contains(p) <==> p.len() >= 5 && p.subrange(p.len() - 5, p.len() as int)
                    == seq![46u8, 112, 97, 99, 107] && (p.len() > 5 && listed.contains(p)
                    || listed.contains(p + seq![46u8, 115, 51]))
        }),
{
    let mut packs: Vec<Vec<u8>> = Vec::new();
    let mut i: usize = 0;
    let ghost all = names_of(names@);
    assert(all.subrange(0, 0) =~= Seq::<Seq<u8>>::empty());
    assert(names_of(packs@) =~= Seq::<Seq<u8>>::empty());
    while i < names.len()
        invariant
            i <= names.len(),
            all == names_of(names@),
            names_of(packs@) == packs_in(all.subrange(0, i as int)),
        decreases names.len() - i,
    {
        let ghost now = all.subrange(0, i + 1);
        let ghost before = packs@;
        proof {
            assert(now.drop_last() =~= all.subrange(0, i as int));
            assert(now.last() == names@[i as int]@);
        }
        if let Some(pack) = pack_of_name(names[i].as_slice()) {
            if !list_has(&packs, pack.as_slice()) {
                let ghost p = pack@;
                packs.push(pack);
                assert(names_of(packs@) =~= names_of(before).push(p));
            }
        }
        i += 1;
    }
    assert(all.subrange(0, i as int) =~= all);
    proof {
        assert(all =~= Seq::new(names@.len(), |i: int| names@[i]@));
        assert(names_of(packs@) =~= Seq::new(packs@.len(), |i: int| packs@[i]@));
        assert forall|p: Seq<u8>| #[trigger]
            names_of(packs@).contains(p) <==> p.len() >= 5 && p.subrange(
                p.len() - 5,
                p.len() as int,
            ) == seq![46u8, 112, 97, 99, 107] && (p.len() > 5 && all.contains(p)
                || all.contains(p + seq![46u8, 115, 51])) by {
            packs_show_by_body_or_marker(all, p);
        }
        packs_show_by_body_or_marker(all, Seq::empty());
    }
    packs
}

// ---------------------------------------------------------------------------
// What a body must be
// ---------------------------------------------------------------------------

/// The name without ".pack" at its end.
pub open spec fn stem(name: Seq<u8>) -> Seq<u8> {
    if codec::has_suffix(name, pack_ext()) {
        name.subrange(0, name.len() - 5)
    } else {
        name
    }
}

pub(crate) fn stem_of(name: &[u8]) -> (r: Vec<u8>)
    ensures
        r@ == stem(name@),
{
    if ends_with(name, ext_pack().as_slice()) {
        copy_range(name, 0, name.len() - 5)
    } else {
        copy_bytes(name)
    }
}

/// The name of a pack that is a hash: 64 hexadecimal digits.
pub open spec fn is_hash_name(s: Seq<u8>) -> bool {
    s.len() == 64 && forall|i: int| 0 <= i < s.len() ==> hexcode::is_digit(#[trigger] s[i])
}

/// What is wrong with a body that is to be put at `name`, if anything is: it is no
/// pack, it does not end with the SHA-1 of what precedes, or the name is a hash and
/// not the hash of the body.
pub open spec fn body_fault(bytes: Seq<u8>, name: Seq<u8>) -> Option<Corruption> {
    if bytes.len() < 32 || bytes.subrange(0, 4) != seq![80u8, 65, 67, 75] {
        Some(Corruption::PackMagic)
    } else if digest::sha1_sum(bytes.subrange(0, bytes.len() - 20)) != bytes.subrange(
        bytes.len() - 20,
        bytes.len() as int,
    ) {
        Some(Corruption::PackTrailer)
    } else if is_hash_name(stem(name)) && hexcode::encoded(digest::blake3_sum(bytes)) != stem(
        name,
    ) {
        Some(Corruption::PackName)
    } else {
        None
    }
}

fn all_digits(s: &[u8]) -> (r: bool)
    ensures
        r == forall|i: int| 0 <= i < s@.len() ==> hexcode::is_digit(#[trigger] s@[i]),
{
    let mut i: usize = 0;
    while i < s.len()
        invariant
            i <= s.len(),
            forall|j: int| 0 <= j < i ==> hexcode::is_digit(#[trigger] s@[j]),
        decreases s.len() - i,
    {
        let c: u8 = s[i];
        if !((48 <= c && c <= 57) || (65 <= c && c <= 70) || (97 <= c && c <= 102)) {
            assert(!hexcode::is_digit(s@[i as int]));
            return false;
        }
        i += 1;
    }
    true
}

/// Looks at a body before it is put at `name`.
#[verifier::rlimit(40)]
pub fn verify_pack_body(bytes: &[u8], name: &[u8]) -> (r: Result<(), LedgeError>)
    ensures
        match r {
            Ok(_) => body_fault(bytes@, name@) is None,
            Err(e) => body_fault(bytes@, name@) matches Some(c) && e == LedgeError::Corruption(c),
        },
        ({
            let begins = bytes@.len() >= 32 && bytes@[0] == 80 && bytes@[1] == 65 && bytes@[2] == 67
                && bytes@[3] == 75;
            let ends = digest::sha1_sum(bytes@.subrange(0, bytes@.len() - 20)) == bytes@.subrange(
                bytes@.len() - 20,
                bytes@.len() as int,
            );
            &&& r == Err::<(), LedgeError>(LedgeError::Corruption(Corruption::PackMagic)) <==> !begins
            &&& r == Err::<(), LedgeError>(LedgeError::Corruption(Corruption::PackTrailer)) <==> begins
                && !ends
            &&& r is Err && begins && ends ==> r == Err::<(), LedgeError>(
                LedgeError::Corruption(Corruption::PackName),
            )
        }),
{
    let magic: [u8; 4] = [80, 65, 67, 75];
    assert(magic@ =~= seq![80u8, 65, 67, 75]);
    proof {
        if bytes@.len() >= 32 {
            crate::pack_laws::packs_begin_with_magic(bytes@);
        }
    }
    if bytes.len() < 32 || !bytes_equal(
        vstd::slice::slice_subrange(bytes, 0, 4),
        magic.as_slice(),
    ) {
        return Err(LedgeError::Corruption(Corruption::PackMagic));
    }
    let split: usize = bytes.len() - 20;
    let want = sha1_of_bytes(vstd::slice::slice_subrange(bytes, 0, split));
    if !bytes_equal(
        want.as_slice(),
        vstd::slice::slice_subrange(bytes, split, bytes.len()),
    ) {
        return Err(LedgeError::Corruption(Corruption::PackTrailer));
    }
    let s = stem_of(name);
    if s.len() == 64 && all_digits(s.as_slice()) {
        let got = hexcode::encode(blake3_of_bytes(bytes).as_slice());
        if !bytes_equal(got.as_slice(), s.as_slice()) {
            return Err(LedgeError::Corruption(Corruption::PackName));
        }
    }
    Ok(())
}

/// Whether a body has to be fetched before a pack can be read: it is not there, its
/// marker is, and there is a tier to fetch it from.
pub fn must_restore(body_here: bool, cold_enabled: bool, marker_here: bool) -> (r: bool)
    ensures
        r == (!body_here && cold_enabled && marker_here),
{
    !body_here && cold_enabled && marker_here
}

/// A pack that was written is a sound body for the name made of its hash.
pub proof fn written_pack_is_sound(
    objects: Seq<crate::git_pack::PackObject>,
    window: int,
    pack: Seq<u8>,
    idx: Seq<u8>,
    offsets: Seq<u64>,
)
    requires
        crate::git_pack::pack_written(objects, window, pack, idx, offsets),
    ensures
        body_fault(pack, hexcode::encoded(digest::blake3_sum(pack)) + pack_ext()) is None,
{
    reveal(crate::git_pack::pack_written);
    let body = crate::git_pack::pack_body(objects, window);
    let sum = digest::sha1_sum(body);
    assert(pack.subrange(0, 4) =~= seq![80u8, 65, 67, 75]);
    assert(pack.subrange(0, pack.len() - 20) =~= body);
    assert(pack.subrange(pack.len() - 20, pack.len() as int) =~= sum);
    let hex = hexcode::encoded(digest::blake3_sum(pack));
    let name = hex + pack_ext();
    assert(name.subrange(name.len() - 5, name.len() as int) =~= pack_ext());
    assert(name.subrange(0, name.len() - 5) =~= hex);
}

// ---------------------------------------------------------------------------
// Moving packs to the tier
// ---------------------------------------------------------------------------

/// The key of a file of the pack directory.
pub open spec fn key_of(name: Seq<u8>) -> Seq<u8> {
    packs_dir() + name
}

/// The key of a file of the pack directory.
pub fn tier_key(name: &[u8]) -> (r: Vec<u8>)
    ensures
        r@ == key_of(name@),
        r@ == seq![112u8, 97, 99, 107, 115, 47] + name@,
{
    concat(dir_packs().as_slice(), name)
}

/// A body that has no marker beside it.
pub open spec fn is_local_only(names: Seq<Seq<u8>>, name: Seq<u8>) -> bool {
    is_pack_name(name) && !has_name(names, name + s3_ext())
}

/// The packs of a directory that are to be moved, in the order of the listing.
pub open spec fn to_move(names: Seq<Seq<u8>>, n: nat) -> Seq<Seq<u8>>
    decreases n,
{
    if n == 0 {
        Seq::empty()
    } else {
        let front = to_move(names, (n - 1) as nat);
        if is_local_only(names, names[n - 1]) {
            front.push(names[n - 1])
        } else {
            front
        }
    }
}

proof fn lemma_to_move_picks(names: Seq<Seq<u8>>, n: nat, pred: spec_fn(Seq<u8>) -> bool)
    requires
        n <= names.len(),
        forall|name: Seq<u8>| #[trigger] pred(name) <==> is_local_only(names, name),
    ensures
        to_move(names, n) == names.subrange(0, n as int).filter(pred),
    decreases n,
{
    reveal(Seq::filter);
    let front = names.subrange(0, n as int);
    if n > 0 {
        lemma_to_move_picks(names, (n - 1) as nat, pred);
        assert(front.drop_last() =~= names.subrange(0, n - 1));
        assert(front.last() == names[n - 1]);
        assert(pred(names[n - 1]) <==> is_local_only(names, names[n - 1]));
    } else {
        assert(front =~= Seq::<Seq<u8>>::empty());
    }
}

/// Those of some names are moved that end with ".pack", with something before it, and
/// that are not among the names with ".s3" behind them. They keep their order, and
/// each stays as often as it was listed.
#[verifier::spinoff_prover]
#[verifier::rlimit(30)]
pub proof fn moves_unmarked_packs(names: Seq<Seq<u8>>, name: Seq<u8>)
    ensures
        to_move(names, names.len()).contains(name) <==> names.contains(name) && name.len() > 5
            && name.subrange(name.len() - 5, name.len() as int) == seq![46u8, 112, 97, 99, 107]
            && !names.contains(name + seq![46u8, 115, 51]),
        to_move(names, names.len()) == names.filter(
            |n: Seq<u8>|
                n.len() > 5 && n.subrange(n.len() - 5, n.len() as int) == seq![
                    46u8,
                    112,
                    97,
                    99,
                    107,
                ] && !names.contains(n + seq![46u8, 115, 51]),
        ),
{
    let pred = |n: Seq<u8>|
        n.len() > 5 && n.subrange(n.len() - 5, n.len() as int) == seq![
            46u8,
            112,
            97,
            99,
            107,
        ] && !names.contains(n + seq![46u8, 115, 51]);
    assert forall|n: Seq<u8>| #[trigger] pred(n) <==> is_local_only(names, n) by {
        let marker = n + s3_ext();
        if has_name(names, marker) {
            let i = choose|i: int| 0 <= i < names.len() && #[trigger] names[i] == marker;
            assert(names.contains(names[i]));
        }
    }
    lemma_to_move_picks(names, names.len(), pred);
    assert(names.subrange(0, names.len() as int) =~= names);
    let out = names.filter(pred);
    if out.contains(name) {
        names.lemma_filter_contains_rev(pred, name);
        let i = choose|i: int| 0 <= i < out.len() && out[i] == name;
        names.lemma_filter_pred(pred, i);
        assert(pred(name));
    }
    if names.contains(name) && pred(name) {
        let i = choose|i: int| 0 <= i < names.len() && names[i] == name;
        names.lemma_filter_contains(pred, i);
    }
}

/// The packs that a listing of the pack directory shows and that were not moved yet.
#[verifier::rlimit(40)]
pub fn packs_to_tier(names: &Vec<Vec<u8>>) -> (r: Vec<Vec<u8>>)
    ensures
        names_of(r@) == to_move(names_of(names@), names@.len()),
        ({
            let listed = Seq::new(names@.len(), |i: int| names@[i]@);
            let picked = Seq::new(r@.len(), |i: int| r@[i]@);
            &&& forall|name: Seq<u8>| #[trigger]
                picked.contains(name) <==> listed.contains(name) && name.len() > 5
                    && name.subrange(name.len() - 5, name.len() as int) == seq![
                    46u8,
                    112,
                    97,
                    99,
                    107,
                ] && !listed.contains(name + seq![46u8, 115, 51])
            &&& picked == listed.filter(
                |n: Seq<u8>|
                    n.len() > 5 && n.subrange(n.len() - 5, n.len() as int) == seq![
                        46u8,
                        112,
                        97,
                        99,
                        107,
                    ] && !listed.contains(n + seq![46u8, 115, 51]),
            )
        }),
{
    let mut out: Vec<Vec<u8>> = Vec::new();
    let mut i: usize = 0;
    let ghost all = names_of(names@);
    assert(names_of(out@) =~= Seq::<Seq<u8>>::empty());
    while i < names.len()
        invariant
            i <= names.len(),
            all == names_of(names@),
            names_of(out@) == to_move(all, i as nat),
        decreases names.len() - i,
    {
        let ghost before = out@;
        let name = names[i].as_slice();
        assert(all[i as int] == name@);
        if name.len() > 5 && ends_with(name, ext_pack().as_slice()) {
            let marker = marker_path(name);
            if !list_has(names, marker.as_slice()) {
                let copy = copy_bytes(name);
                let ghost c = copy@;
                out.push(copy);
                assert(names_of(out@) =~= names_of(before).push(c));
            }
        }
        i += 1;
    }
    proof {
        assert(all =~= Seq::new(names@.len(), |i: int| names@[i]@));
        assert(names_of(out@) =~= Seq::new(out@.len(), |i: int| out@[i]@));
        assert forall|name: Seq<u8>| #[trigger] names_of(out@).contains(name) <==> all.contains(name)
            && name.len() > 5 && name.subrange(name.len() - 5, name.len() as int) == seq![
            46u8,
            112,
            97,
            99,
            107,
        ] && !all.contains(name + seq![46u8, 115, 51]) by {
            moves_unmarked_packs(all, name);
        }
        moves_unmarked_packs(all, Seq::empty());
    }
    out
}

/// What is to be done next to move a pack.
#[derive(Clone, Copy, Debug, PartialEq, Eq, Structural)]
pub enum TierAction {
    /// Upload the body.
    PutBody,
    /// Ask whether the tier has the body.
    CheckBody,
    /// Upload the `.idx`.
    PutIdx,
    /// Upload the `.lidx`.
    PutLidx,
    /// Write the marker and make it durable.
    WriteMarker,
    /// Remove the body from this node.
    RemoveBody,
    /// The pack has been moved.
    Finished,
    /// Something went wrong; nothing more is done.
    GiveUp,
}

/// What follows an action, by whether it succeeded. The check succeeds where the
/// tier has the body; an index that is not there is not uploaded.
pub open spec fn after_action(
    action: TierAction,
    ok: bool,
    has_idx: bool,
    has_lidx: bool,
) -> TierAction {
    if !ok {
        TierAction::GiveUp
    } else {
        match action {
            TierAction::PutBody => TierAction::CheckBody,
            TierAction::CheckBody => if has_idx {
                TierAction::PutIdx
            } else if has_lidx {
                TierAction::PutLidx
            } else {
                TierAction::WriteMarker
            },
            TierAction::PutIdx => if has_lidx {
                TierAction::PutLidx
            } else {
                TierAction::WriteMarker
            },
            TierAction::PutLidx => TierAction::WriteMarker,
            TierAction::WriteMarker => TierAction::RemoveBody,
            TierAction::RemoveBody => TierAction::Finished,
            TierAction::Finished => TierAction::Finished,
            TierAction::GiveUp => TierAction::GiveUp,
        }
    }
}

/// Moving one pack.
pub struct TierJob {
    pub has_idx: bool,
    pub has_lidx: bool,
    pub action: TierAction,
}

impl TierJob {
    /// A pack that is to be moved. Says which of its indexes are there.
    pub fn new(has_idx: bool, has_lidx: bool) -> (r: Self)
        ensures
            r == (TierJob { has_idx, has_lidx, action: TierAction::PutBody }),
    {
        TierJob { has_idx, has_lidx, action: TierAction::PutBody }
    }

    /// Takes note of the outcome of the action.
    pub fn advance(&mut self, ok: bool)
        ensures
            *final(self) == (TierJob {
                action: after_action(
                    old(self).action,
                    ok,
                    old(self).has_idx,
                    old(self).has_lidx,
                ),
                ..*old(self)
            }),
            final(self).has_idx == old(self).has_idx && final(self).has_lidx == old(self).has_lidx,
            !ok ==> final(self).action is GiveUp,
            ok ==> match old(self).action {
                TierAction::PutBody => final(self).action is CheckBody,
                TierAction::CheckBody => {
                    &&& old(self).has_idx ==> final(self).action is PutIdx
                    &&& !old(self).has_idx && old(self).has_lidx ==> final(self).action is PutLidx
                    &&& !old(self).has_idx && !old(self).has_lidx ==> final(self).action is WriteMarker
                },
                TierAction::PutIdx => {
                    &&& old(self).has_lidx ==> final(self).action is PutLidx
                    &&& !old(self).has_lidx ==> final(self).action is WriteMarker
                },
                TierAction::PutLidx => final(self).action is WriteMarker,
                TierAction::WriteMarker => final(self).action is RemoveBody,
                TierAction::RemoveBody => final(self).action is Finished,
                TierAction::Finished => final(self).action is Finished,
                TierAction::GiveUp => final(self).action is GiveUp,
            },
    {
        self.action = if !ok {
            TierAction::GiveUp
        } else {
            match self.action {
                TierAction::PutBody => TierAction::CheckBody,
                TierAction::CheckBody => if self.has_idx {
                    TierAction::PutIdx
                } else if self.has_lidx {
                    TierAction::PutLidx
                } else {
                    TierAction::WriteMarker
                },
                TierAction::PutIdx => if self.has_lidx {
                    TierAction::PutLidx
                } else {
                    TierAction::WriteMarker
                },
                TierAction::PutLidx => TierAction::WriteMarker,
                TierAction::WriteMarker => TierAction::RemoveBody,
                TierAction::RemoveBody => TierAction::Finished,
                TierAction::Finished => TierAction::Finished,
                TierAction::GiveUp => TierAction::GiveUp,
            }
        };
    }
}

/// The actions that were carried out with success before the one that is due, given
/// the outcomes so far.
pub open spec fn carried_out(
    outcomes: Seq<bool>,
    has_idx: bool,
    has_lidx: bool,
) -> Set<TierAction>
    decreases outcomes.len(),
{
    if outcomes.len() == 0 {
        Set::empty()
    } else {
        let before = carried_out(outcomes.drop_last(), has_idx, has_lidx);
        if outcomes.last() {
            before.insert(action_after(outcomes.drop_last(), has_idx, has_lidx))
        } else {
            before
        }
    }
}

/// The action that is due after some outcomes.
pub open spec fn action_after(outcomes: Seq<bool>, has_idx: bool, has_lidx: bool) -> TierAction
    decreases outcomes.len(),
{
    if outcomes.len() == 0 {
        TierAction::PutBody
    } else {
        after_action(
            action_after(outcomes.drop_last(), has_idx, has_lidx),
            outcomes.last(),
            has_idx,
            has_lidx,
        )
    }
}

/// A body is removed only after it was uploaded, the tier confirmed to have it, its
/// indexes were uploaded, and the marker was written.
pub proof fn body_is_removed_last(outcomes: Seq<bool>, has_idx: bool, has_lidx: bool)
    ensures
        ({
            let due = action_after(outcomes, has_idx, has_lidx);
            let done = carried_out(outcomes, has_idx, has_lidx);
            &&& due == TierAction::CheckBody ==> done.contains(TierAction::PutBody)
            &&& due == TierAction::PutIdx || due == TierAction::PutLidx || due
                == TierAction::WriteMarker || due == TierAction::RemoveBody || due
                == TierAction::Finished ==> done.contains(TierAction::PutBody) && done.contains(
                TierAction::CheckBody,
            )
            &&& due == TierAction::PutLidx || due == TierAction::WriteMarker || due
                == TierAction::RemoveBody || due == TierAction::Finished ==> (has_idx
                ==> done.contains(TierAction::PutIdx))
            &&& due == TierAction::WriteMarker || due == TierAction::RemoveBody || due
                == TierAction::Finished ==> (has_lidx ==> done.contains(TierAction::PutLidx))
            &&& due == TierAction::RemoveBody || due == TierAction::Finished ==> done.contains(
                TierAction::WriteMarker,
            )
            &&& due == TierAction::Finished ==> done.contains(TierAction::RemoveBody)
        }),
    decreases outcomes.len(),
{
    if outcomes.len() > 0 {
        body_is_removed_last(outcomes.drop_last(), has_idx, has_lidx);
    }
}

impl TierStats {
    /// Counts a pack that was moved.
    pub fn count(&mut self, size: u64)
        ensures
            final(self).packs_tiered == if old(self).packs_tiered == usize::MAX {
                usize::MAX as int
            } else {
                old(self).packs_tiered + 1
            },
            final(self).bytes_uploaded == if old(self).bytes_uploaded + size > u64::MAX {
                u64::MAX as int
            } else {
                old(self).bytes_uploaded + size
            },
    {
        if self.packs_tiered < usize::MAX {
            self.packs_tiered = self.packs_tiered + 1;
        }
        self.bytes_uploaded = if size > u64::MAX - self.bytes_uploaded {
            u64::MAX
        } else {
            self.bytes_uploaded + size
        };
    }
}

// ---------------------------------------------------------------------------
// Finding packs again
// ---------------------------------------------------------------------------

/// Without any ".lidx" at the end.
pub open spec fn trim_lidx(s: Seq<u8>) -> Seq<u8>
    decreases s.len(),
{
    if codec::has_suffix(s, lidx_ext()) {
        trim_lidx(s.subrange(0, s.len() - 5))
    } else {
        s
    }
}

/// The pack that the key of a `.lidx` belongs to.
pub open spec fn name_of_key(key: Seq<u8>) -> Seq<u8> {
    trim_lidx(
        if codec::has_prefix(key, packs_dir()) {
            key.subrange(6, key.len() as int)
        } else {
            key
        },
    )
}

/// The body of a pack can be had: it is there, or its marker is.
pub open spec fn body_reachable(local: Seq<Seq<u8>>, name: Seq<u8>) -> bool {
    has_name(local, name + pack_ext()) || has_name(local, name + pack_ext() + s3_ext())
}

/// A pack can be used: its `.lidx` is there and its body can be had.
pub open spec fn usable(local: Seq<Seq<u8>>, name: Seq<u8>) -> bool {
    has_name(local, name + lidx_ext()) && body_reachable(local, name)
}

/// What is missing of a pack that cannot be used.
pub struct RecoverStep {
    pub name: Vec<u8>,
    pub fetch_lidx: bool,
    pub fetch_idx: bool,
    pub write_marker: bool,
}

/// `step` brings what is missing of the pack `name`.
pub open spec fn repairs(step: RecoverStep, local: Seq<Seq<u8>>, name: Seq<u8>) -> bool {
    &&& step.name@ == name
    &&& step.fetch_lidx == !has_name(local, name + lidx_ext())
    &&& step.fetch_idx == !has_name(local, name + idx_ext())
    &&& step.write_marker == !body_reachable(local, name)
}

/// The files that are there once a pack has been repaired.
pub open spec fn repaired(local: Seq<Seq<u8>>, name: Seq<u8>) -> Seq<Seq<u8>> {
    let a = if has_name(local, name + lidx_ext()) {
        local
    } else {
        local.push(name + lidx_ext())
    };
    let b = if has_name(local, name + idx_ext()) {
        a
    } else {
        a.push(name + idx_ext())
    };
    if body_reachable(local, name) {
        b
    } else {
        b.push(name + pack_ext() + s3_ext())
    }
}

/// The files that are there once a step has been carried out.
pub open spec fn after_step(local: Seq<Seq<u8>>, step: RecoverStep) -> Seq<Seq<u8>> {
    let a = if step.fetch_lidx {
        local.push(step.name@ + lidx_ext())
    } else {
        local
    };
    let b = if step.fetch_idx {
        a.push(step.name@ + idx_ext())
    } else {
        a
    };
    if step.write_marker {
        b.push(step.name@ + pack_ext() + s3_ext())
    } else {
        b
    }
}

/// The files that are there once some steps have been carried out.
pub open spec fn after_steps(local: Seq<Seq<u8>>, steps: Seq<RecoverStep>) -> Seq<Seq<u8>>
    decreases steps.len(),
{
    if steps.len() == 0 {
        local
    } else {
        after_step(after_steps(local, steps.drop_last()), steps.last())
    }
}

/// What a node has to do to use all packs of the tier.
pub struct RecoverPlan {
    pub steps: Vec<RecoverStep>,
    /// The tier has the index of a pack and not its body. The plan ends there.
    pub body_lost: bool,
}

/// The plan for the first `n` keys, and the files that are there after it.
pub open spec fn plan_for(
    keys: Seq<Seq<u8>>,
    local: Seq<Seq<u8>>,
    n: nat,
) -> (Seq<Seq<u8>>, bool, Seq<Seq<u8>>)
    decreases n,
{
    if n == 0 {
        (Seq::empty(), false, local)
    } else {
        let (names, lost, now) = plan_for(keys, local, (n - 1) as nat);
        let key = keys[n - 1];
        let name = name_of_key(key);
        if lost || !codec::has_suffix(key, lidx_ext()) || usable(now, name) {
            (names, lost, now)
        } else if !has_name(keys, key_of(name + pack_ext())) {
            (names, true, now)
        } else {
            (names.push(name), false, repaired(now, name))
        }
    }
}

fn trim_lidx_of(s: &[u8]) -> (r: Vec<u8>)
    ensures
        r@ == trim_lidx(s@),
    decreases s@.len(),
{
    if ends_with(s, ext_lidx().as_slice()) {
        let shorter = copy_range(s, 0, s.len() - 5);
        trim_lidx_of(shorter.as_slice())
    } else {
        copy_bytes(s)
    }
}

fn key_to_name(key: &[u8]) -> (r: Vec<u8>)
    ensures
        r@ == name_of_key(key@),
{
    if starts_with(key, dir_packs().as_slice()) {
        let rest = copy_range(key, 6, key.len());
        trim_lidx_of(rest.as_slice())
    } else {
        trim_lidx_of(key)
    }
}

fn reachable_here(local: &Vec<Vec<u8>>, name: &[u8]) -> (r: bool)
    ensures
        r == body_reachable(names_of(local@), name@),
{
    let pack = concat(name, ext_pack().as_slice());
    let marker = marker_path(pack.as_slice());
    list_has(local, pack.as_slice()) || list_has(local, marker.as_slice())
}

/// Plans what a node has to do to use all packs of the tier, from the keys of the
/// tier and the files of the pack directory. `local` becomes the files that are
/// there once the plan has been carried out.
#[verifier::rlimit(40)]
pub fn plan_recovery(keys: &Vec<Vec<u8>>, local: &mut Vec<Vec<u8>>) -> (r: RecoverPlan)
    ensures
        ({
            let plan = plan_for(names_of(keys@), names_of(old(local)@), keys@.len());
            &&& step_names(r.steps@) == plan.0
            &&& r.body_lost == plan.1
            &&& names_of(final(local)@) == plan.2
        }),
        steps_repair(r.steps@, names_of(keys@), names_of(old(local)@)),
        after_steps(names_of(old(local)@), r.steps@) == names_of(final(local)@),
        r.body_lost == body_is_lost(names_of(keys@), names_of(old(local)@), keys.len() as int),
        !r.body_lost ==> r.steps.len() == unusable_packs(
            names_of(keys@),
            names_of(old(local)@),
            keys.len() as int,
        ).len(),
        ({
            let here = Seq::new(old(local)@.len(), |i: int| old(local)@[i]@);
            let after = Seq::new(final(local)@.len(), |i: int| final(local)@[i]@);
            &&& forall|j: int|
                0 <= j < r.steps@.len() ==> {
                    let step = #[trigger] r.steps@[j];
                    let n = step.name@;
                    &&& step.fetch_lidx <==> !here.contains(n + seq![46u8, 108, 105, 100, 120])
                    &&& step.fetch_idx <==> !here.contains(n + seq![46u8, 105, 100, 120])
                    &&& step.write_marker <==> !here.contains(n + seq![46u8, 112, 97, 99, 107]) && !here.contains(
                        n + seq![46u8, 112, 97, 99, 107] + seq![46u8, 115, 51],
                    )
                }
            &&& !r.body_lost ==> forall|i: int|
                0 <= i < keys@.len() ==> {
                    let key = (#[trigger] keys@[i])@;
                    let n = key.subrange(6, key.len() - 5);
                    key.len() >= 11 && key == seq![112u8, 97, 99, 107, 115, 47] + n
                        + seq![46u8, 108, 105, 100, 120] && (n.len() < 5 || n.subrange(
                        n.len() - 5,
                        n.len() as int,
                    ) != seq![46u8, 108, 105, 100, 120]) ==> {
                        &&& after.contains(n + seq![46u8, 108, 105, 100, 120])
                        &&& after.contains(n + seq![46u8, 112, 97, 99, 107]) || after.contains(
                            n + seq![46u8, 112, 97, 99, 107] + seq![46u8, 115, 51],
                        )
                    }
                }
        }),
{
    let mut steps: Vec<RecoverStep> = Vec::new();
    let ghost all = names_of(keys@);
    let ghost start = names_of(local@);
    let mut i: usize = 0;
    assert(step_names(steps@) =~= Seq::<Seq<u8>>::empty());
    while i < keys.len()
        invariant
            i <= keys.len(),
            all == names_of(keys@),
            start == names_of(old(local)@),
            step_names(steps@) == plan_for(all, start, i as nat).0,
            !plan_for(all, start, i as nat).1,
            names_of(local@) == plan_for(all, start, i as nat).2,
            steps_repair(steps@, all, start),
            after_steps(start, steps@) == names_of(local@),
        decreases keys.len() - i,
    {
        let key = keys[i].as_slice();
        assert(all[i as int] == key@);
        let ghost now = names_of(local@);
        if ends_with(key, ext_lidx().as_slice()) {
            let name = key_to_name(key);
            let lidx = concat(name.as_slice(), ext_lidx().as_slice());
            let idx = concat(name.as_slice(), ext_idx().as_slice());
            let have_lidx: bool = list_has(local, lidx.as_slice());
            let reachable: bool = reachable_here(local, name.as_slice());
            if !(have_lidx && reachable) {
                let pack = concat(name.as_slice(), ext_pack().as_slice());
                let body_key = tier_key(pack.as_slice());
                if !list_has(keys, body_key.as_slice()) {
                    proof {
                        lemma_lost(all, start, i as nat + 1, all.len());
                        recovery_counts_packs(all, start);
                        lemma_steps_bring(all, start, steps@);
                        assert(start =~= Seq::new(old(local)@.len(), |i: int| old(local)@[i]@));
                    }
                    return RecoverPlan { steps, body_lost: true };
                }
                let have_idx: bool = list_has(local, idx.as_slice());
                let ghost names0 = names_of(local@);
                let ghost steps0 = steps@;
                let ghost n = name@;
                let ghost l = lidx@;
                let ghost d = idx@;
                if !have_lidx {
                    local.push(lidx);
                }
                let ghost names1 = names_of(local@);
                assert(names1 =~= if have_lidx {
                    names0
                } else {
                    names0.push(l)
                });
                if !have_idx {
                    local.push(idx);
                }
                let ghost names2 = names_of(local@);
                assert(names2 =~= if have_idx {
                    names1
                } else {
                    names1.push(d)
                });
                if !reachable {
                    let marker = marker_path(pack.as_slice());
                    let ghost m = marker@;
                    local.push(marker);
                    assert(names_of(local@) =~= names2.push(m));
                }
                assert(names_of(local@) =~= repaired(names0, n));
                let step = RecoverStep {
                    name,
                    fetch_lidx: !have_lidx,
                    fetch_idx: !have_idx,
                    write_marker: !reachable,
                };
                assert(repairs(step, names0, n));
                steps.push(step);
                proof {
                    assert(step_names(steps@) =~= step_names(steps0).push(n));
                    assert(steps@.drop_last() =~= steps0);
                    assert(after_step(names0, steps@.last()) =~= repaired(names0, n));
                    assert(step_turn(all, start, steps0.len() as int, i as nat));
                    assert forall|j: int| 0 <= j < steps.len() implies step_repairs(
                        #[trigger] steps@[j],
                        all,
                        start,
                        j,
                    ) by {
                        if j < steps0.len() {
                            assert(steps0[j] == steps@[j]);
                        }
                    }
                }
            }
        }
        i += 1;
    }
    proof {
        recovery_counts_packs(all, start);
        lemma_steps_bring(all, start, steps@);
        assert(start =~= Seq::new(old(local)@.len(), |i: int| old(local)@[i]@));
        assert(names_of(local@) =~= Seq::new(local@.len(), |i: int| local@[i]@));
        let after = names_of(local@);
        assert forall|i: int| 0 <= i < keys@.len() implies {
            let key = (#[trigger] keys@[i])@;
            let n = key.subrange(6, key.len() - 5);
            key.len() >= 11 && key == seq![112u8, 97, 99, 107, 115, 47] + n + seq![46u8, 108, 105, 100, 120]
                && (n.len() < 5 || n.subrange(n.len() - 5, n.len() as int) != seq![46u8, 108, 105, 100, 120])
                ==> after.contains(n + seq![46u8, 108, 105, 100, 120]) && (after.contains(
                n + seq![46u8, 112, 97, 99, 107],
            ) || after.contains(n + seq![46u8, 112, 97, 99, 107] + seq![46u8, 115, 51]))
        } by {
            let key = keys@[i]@;
            let n = key.subrange(6, key.len() - 5);
            if key.len() >= 11 && key == seq![112u8, 97, 99, 107, 115, 47] + n + seq![46u8, 108, 105, 100, 120]
                && (n.len() < 5 || n.subrange(n.len() - 5, n.len() as int) != seq![46u8, 108, 105, 100, 120]) {
                assert(all[i] == key);
                assert(all.contains(all[i]));
                recovered_packs_are_usable(all, start, n);
            }
        }
    }
    RecoverPlan { steps, body_lost: false }
}

/// The packs that the steps repair.
pub open spec fn step_names(steps: Seq<RecoverStep>) -> Seq<Seq<u8>> {
    Seq::new(steps.len(), |i: int| steps[i].name@)
}

/// The `k`th key is the one that step `j` is for.
pub open spec fn step_turn(keys: Seq<Seq<u8>>, local: Seq<Seq<u8>>, j: int, k: nat) -> bool {
    &&& k < keys.len()
    &&& plan_for(keys, local, k).0.len() == j
    &&& plan_for(keys, local, k + 1).0.len() == j + 1
}

/// The `j`th step brings what is missing at its turn: of the files that are there
/// once the steps before it have been carried out.
pub open spec fn step_repairs(
    step: RecoverStep,
    keys: Seq<Seq<u8>>,
    local: Seq<Seq<u8>>,
    j: int,
) -> bool {
    exists|k: nat|
        (#[trigger] step_turn(keys, local, j, k)) && repairs(
            step,
            plan_for(keys, local, k).2,
            step.name@,
        )
}

/// Each step brings what is missing at its turn.
pub open spec fn steps_repair(
    steps: Seq<RecoverStep>,
    keys: Seq<Seq<u8>>,
    local: Seq<Seq<u8>>,
) -> bool {
    forall|j: int| 0 <= j < steps.len() ==> step_repairs(#[trigger] steps[j], keys, local, j)
}

proof fn lemma_lost(keys: Seq<Seq<u8>>, local: Seq<Seq<u8>>, n: nat, m: nat)
    requires
        plan_for(keys, local, n).1,
        n <= m,
    ensures
        plan_for(keys, local, m) == plan_for(keys, local, n),
    decreases m,
{
    if n < m {
        lemma_lost(keys, local, n, (m - 1) as nat);
    }
}

proof fn lemma_repaired(local: Seq<Seq<u8>>, name: Seq<u8>)
    ensures
        usable(repaired(local, name), name),
        forall|x: Seq<u8>| #[trigger] has_name(local, x) ==> has_name(repaired(local, name), x),
{
    let r = repaired(local, name);
    assert forall|x: Seq<u8>| #[trigger] has_name(local, x) implies has_name(r, x) by {
        let i = choose|i: int| 0 <= i < local.len() && #[trigger] local[i] == x;
        assert(r[i] == x);
    }
    if !has_name(local, name + lidx_ext()) {
        assert(r[local.len() as int] == name + lidx_ext());
        assert(has_name(r, name + lidx_ext()));
    }
    if !body_reachable(local, name) {
        assert(r[r.len() - 1] == name + pack_ext() + s3_ext());
        assert(has_name(r, name + pack_ext() + s3_ext()));
    }
}

proof fn lemma_plan_grows(keys: Seq<Seq<u8>>, local: Seq<Seq<u8>>, n: nat, m: nat, x: Seq<u8>)
    requires
        n <= m,
        has_name(plan_for(keys, local, n).2, x),
    ensures
        has_name(plan_for(keys, local, m).2, x),
    decreases m,
{
    if n < m {
        lemma_plan_grows(keys, local, n, (m - 1) as nat, x);
        lemma_repaired(plan_for(keys, local, (m - 1) as nat).2, name_of_key(keys[m - 1]));
    }
}

proof fn lemma_not_lost(keys: Seq<Seq<u8>>, local: Seq<Seq<u8>>, n: nat, m: nat)
    requires
        n <= m,
        !plan_for(keys, local, m).1,
    ensures
        !plan_for(keys, local, n).1,
    decreases m,
{
    if n < m {
        lemma_not_lost(keys, local, n, (m - 1) as nat);
    }
}

proof fn lemma_usable_after(keys: Seq<Seq<u8>>, local: Seq<Seq<u8>>, i: int)
    requires
        0 <= i < keys.len(),
        !plan_for(keys, local, keys.len()).1,
        codec::has_suffix(keys[i], lidx_ext()),
    ensures
        usable(plan_for(keys, local, keys.len()).2, name_of_key(keys[i])),
{
    let n = (i + 1) as nat;
    let name = name_of_key(keys[i]);
    let before = plan_for(keys, local, i as nat).2;
    let now = plan_for(keys, local, n).2;
    lemma_not_lost(keys, local, n, keys.len());
    lemma_not_lost(keys, local, i as nat, keys.len());
    lemma_repaired(before, name);
    assert(usable(now, name));
    lemma_plan_grows(keys, local, n, keys.len(), name + lidx_ext());
    if has_name(now, name + pack_ext()) {
        lemma_plan_grows(keys, local, n, keys.len(), name + pack_ext());
    } else {
        lemma_plan_grows(keys, local, n, keys.len(), name + pack_ext() + s3_ext());
    }
}

proof fn lemma_nothing_to_do(keys: Seq<Seq<u8>>, local: Seq<Seq<u8>>, n: nat)
    requires
        n <= keys.len(),
        forall|i: int|
            0 <= i < keys.len() && codec::has_suffix(#[trigger] keys[i], lidx_ext()) ==> usable(
                local,
                name_of_key(keys[i]),
            ),
    ensures
        plan_for(keys, local, n) == (Seq::<Seq<u8>>::empty(), false, local),
    decreases n,
{
    if n > 0 {
        lemma_nothing_to_do(keys, local, (n - 1) as nat);
        assert(codec::has_suffix(keys[n - 1], lidx_ext()) ==> usable(
            local,
            name_of_key(keys[n - 1]),
        ));
    }
}

/// Once a plan has been carried out every pack of the tier can be used, and a second
/// plan has nothing to do.
pub proof fn recovery_is_idempotent(keys: Seq<Seq<u8>>, local: Seq<Seq<u8>>)
    requires
        !plan_for(keys, local, keys.len()).1,
    ensures
        forall|i: int|
            0 <= i < keys.len() && codec::has_suffix(#[trigger] keys[i], lidx_ext()) ==> usable(
                plan_for(keys, local, keys.len()).2,
                name_of_key(keys[i]),
            ),
        plan_for(keys, plan_for(keys, local, keys.len()).2, keys.len()) == (
            Seq::<Seq<u8>>::empty(),
            false,
            plan_for(keys, local, keys.len()).2,
        ),
{
    let now = plan_for(keys, local, keys.len()).2;
    assert forall|i: int|
        0 <= i < keys.len() && codec::has_suffix(#[trigger] keys[i], lidx_ext()) implies usable(
        now,
        name_of_key(keys[i]),
    ) by {
        lemma_usable_after(keys, local, i);
    }
    lemma_nothing_to_do(keys, now, keys.len());
}

proof fn lemma_ends_apart(a: Seq<u8>, b: Seq<u8>)
    ensures
        a + lidx_ext() == b + lidx_ext() ==> a == b,
        a + pack_ext() + s3_ext() == b + pack_ext() + s3_ext() ==> a == b,
        a + idx_ext() != b + lidx_ext(),
        a + idx_ext() != b + pack_ext(),
        a + idx_ext() != b + pack_ext() + s3_ext(),
        a + lidx_ext() != b + pack_ext(),
        a + lidx_ext() != b + pack_ext() + s3_ext(),
        a + pack_ext() + s3_ext() != b + lidx_ext(),
        a + pack_ext() + s3_ext() != b + pack_ext(),
{
    let x = a + lidx_ext();
    let y = b + lidx_ext();
    if x == y {
        assert(x.subrange(0, x.len() - 5) =~= a);
        assert(y.subrange(0, y.len() - 5) =~= b);
    }
    let p = a + pack_ext() + s3_ext();
    let q = b + pack_ext() + s3_ext();
    if p == q {
        assert(p.subrange(0, p.len() - 8) =~= a);
        assert(q.subrange(0, q.len() - 8) =~= b);
    }
    let i = a + idx_ext();
    let k = b + pack_ext();
    assert(i[i.len() - 4] == 46);
    assert(y[y.len() - 4] == 108);
    assert(i[i.len() - 1] == 120);
    assert(x[x.len() - 1] == 120);
    assert(y[y.len() - 1] == 120);
    assert(k[k.len() - 1] == 107);
    assert(p[p.len() - 1] == 51);
    assert(q[q.len() - 1] == 51);
}

proof fn lemma_repair_adds(local: Seq<Seq<u8>>, name: Seq<u8>, x: Seq<u8>)
    requires
        has_name(repaired(local, name), x),
    ensures
        has_name(local, x) || x == name + lidx_ext() || x == name + idx_ext() || x == name
            + pack_ext() + s3_ext(),
{
    let r = repaired(local, name);
    let i = choose|i: int| 0 <= i < r.len() && #[trigger] r[i] == x;
    if i < local.len() {
        assert(local[i] == x);
    }
}

/// Repairing a pack makes that pack usable and changes nothing for any other.
proof fn lemma_repair_is_local(local: Seq<Seq<u8>>, name: Seq<u8>, other: Seq<u8>)
    ensures
        usable(repaired(local, name), other) == (other == name || usable(local, other)),
{
    let r = repaired(local, name);
    lemma_repaired(local, name);
    if other != name {
        lemma_ends_apart(name, other);
        if has_name(r, other + lidx_ext()) {
            lemma_repair_adds(local, name, other + lidx_ext());
        }
        if has_name(r, other + pack_ext()) {
            lemma_repair_adds(local, name, other + pack_ext());
        }
        if has_name(r, other + pack_ext() + s3_ext()) {
            lemma_repair_adds(local, name, other + pack_ext() + s3_ext());
        }
    }
}

/// The packs that the first `n` keys of the tier announce and that cannot be used with
/// the files that are there.
pub open spec fn unusable_packs(keys: Seq<Seq<u8>>, local: Seq<Seq<u8>>, n: int) -> Set<Seq<u8>> {
    Set::new(
        |name: Seq<u8>|
            !usable(local, name) && exists|i: int|
                0 <= i < n && codec::has_suffix(#[trigger] keys[i], lidx_ext()) && name_of_key(
                    keys[i],
                ) == name,
    )
}

/// A pack that the tier announces cannot be used here, and the tier has no body for it.
pub open spec fn body_is_lost(keys: Seq<Seq<u8>>, local: Seq<Seq<u8>>, n: int) -> bool {
    exists|i: int|
        0 <= i < n && codec::has_suffix(#[trigger] keys[i], lidx_ext()) && !usable(
            local,
            name_of_key(keys[i]),
        ) && !has_name(keys, key_of(name_of_key(keys[i]) + pack_ext()))
}

#[verifier::spinoff_prover]
#[verifier::rlimit(30)]
proof fn lemma_plan_repairs(keys: Seq<Seq<u8>>, local: Seq<Seq<u8>>, n: nat)
    requires
        n <= keys.len(),
    ensures
        ({
            let (names, lost, now) = plan_for(keys, local, n);
            &&& names.no_duplicates()
            &&& lost == body_is_lost(keys, local, n as int)
            &&& forall|x: Seq<u8>| #[trigger]
                usable(now, x) == (usable(local, x) || names.contains(x))
            &&& forall|x: Seq<u8>| #[trigger] names.contains(x) ==> !usable(local, x)
            &&& !lost ==> forall|x: Seq<u8>| #[trigger]
                names.contains(x) <==> unusable_packs(keys, local, n as int).contains(x)
        }),
    decreases n,
{
    if n > 0 {
        let m = (n - 1) as nat;
        lemma_plan_repairs(keys, local, m);
        let (names0, lost0, now0) = plan_for(keys, local, m);
        let (names, lost, now) = plan_for(keys, local, n);
        let key = keys[n - 1];
        let name = name_of_key(key);
        let lidx = codec::has_suffix(key, lidx_ext());
        if body_is_lost(keys, local, m as int) {
            let i = choose|i: int|
                0 <= i < m && codec::has_suffix(#[trigger] keys[i], lidx_ext()) && !usable(
                    local,
                    name_of_key(keys[i]),
                ) && !has_name(keys, key_of(name_of_key(keys[i]) + pack_ext()));
            assert(codec::has_suffix(keys[i], lidx_ext()));
            assert(body_is_lost(keys, local, n as int));
        } else {
            let fresh = lidx && !usable(now0, name);
            if lidx && !usable(local, name) && !has_name(keys, key_of(name + pack_ext())) {
                assert(codec::has_suffix(keys[n - 1], lidx_ext()));
                assert(body_is_lost(keys, local, n as int));
                if names0.contains(name) {
                    assert(unusable_packs(keys, local, m as int).contains(name));
                    let i = choose|i: int|
                        0 <= i < m && codec::has_suffix(#[trigger] keys[i], lidx_ext())
                            && name_of_key(keys[i]) == name;
                    assert(codec::has_suffix(keys[i], lidx_ext()));
                    assert(body_is_lost(keys, local, m as int));
                }
                assert(fresh);
                assert(lost);
            } else {
                if body_is_lost(keys, local, n as int) {
                    let i = choose|i: int|
                        0 <= i < n && codec::has_suffix(#[trigger] keys[i], lidx_ext()) && !usable(
                            local,
                            name_of_key(keys[i]),
                        ) && !has_name(keys, key_of(name_of_key(keys[i]) + pack_ext()));
                    if i < m {
                        assert(codec::has_suffix(keys[i], lidx_ext()));
                        assert(body_is_lost(keys, local, m as int));
                    }
                    assert(false);
                }
                if fresh {
                    assert(!usable(local, name) && !names0.contains(name));
                    assert(names == names0.push(name));
                    assert(names[names.len() - 1] == name);
                    assert forall|x: Seq<u8>| #[trigger] names.contains(x) == (names0.contains(x)
                        || x == name) by {
                        if names0.contains(x) {
                            let i = choose|i: int| 0 <= i < names0.len() && names0[i] == x;
                            assert(names[i] == x);
                        }
                    }
                    assert forall|x: Seq<u8>| #[trigger] usable(now, x) == (usable(local, x)
                        || names.contains(x)) by {
                        lemma_repair_is_local(now0, name, x);
                        assert(usable(now0, x) == (usable(local, x) || names0.contains(x)));
                    }
                }
                assert forall|x: Seq<u8>| #[trigger] names.contains(x)
                    <==> unusable_packs(keys, local, n as int).contains(x) by {
                    let before = unusable_packs(keys, local, m as int);
                    assert(names0.contains(x) <==> before.contains(x));
                    if before.contains(x) {
                        let i = choose|i: int|
                            0 <= i < m && codec::has_suffix(#[trigger] keys[i], lidx_ext())
                                && name_of_key(keys[i]) == x;
                        assert(codec::has_suffix(keys[i], lidx_ext()));
                        assert(unusable_packs(keys, local, n as int).contains(x));
                    }
                    if fresh && x == name {
                        assert(codec::has_suffix(keys[n - 1], lidx_ext()));
                        assert(unusable_packs(keys, local, n as int).contains(x));
                    }
                    if unusable_packs(keys, local, n as int).contains(x) && !before.contains(x) {
                        let i = choose|i: int|
                            0 <= i < n && codec::has_suffix(#[trigger] keys[i], lidx_ext())
                                && name_of_key(keys[i]) == x;
                        if i < m {
                            assert(codec::has_suffix(keys[i], lidx_ext()));
                            assert(before.contains(x));
                        }
                        assert(x == name && lidx);
                        assert(usable(now0, name) == (usable(local, name) || names0.contains(
                            name,
                        )));
                    }
                }
            }
        }
    }
}

/// A recovery repairs every pack of the tier that cannot be used here, each once: the
/// number of steps is the number of such packs. It fails exactly where the tier lacks
/// the body of one of them.
pub proof fn recovery_counts_packs(keys: Seq<Seq<u8>>, local: Seq<Seq<u8>>)
    ensures
        ({
            let (names, lost, _) = plan_for(keys, local, keys.len());
            let missing = unusable_packs(keys, local, keys.len() as int);
            &&& lost == body_is_lost(keys, local, keys.len() as int)
            &&& !lost ==> names.no_duplicates() && names.to_set() == missing && missing.finite()
                && names.len() == missing.len()
        }),
{
    lemma_plan_repairs(keys, local, keys.len());
    let (names, lost, _) = plan_for(keys, local, keys.len());
    if !lost {
        assert(names.to_set() =~= unusable_packs(keys, local, keys.len() as int));
        names.unique_seq_to_set();
        vstd::seq_lib::seq_to_set_is_finite(names);
    }
}

// ---------------------------------------------------------------------------
// Keys below a prefix
// ---------------------------------------------------------------------------

/// The location of a key: the prefix, a slash and the key.
pub fn location(prefix: &[u8], key: &[u8]) -> (r: Vec<u8>)
    ensures
        r@ == prefix@ + seq![47u8] + key@,
{
    let mut r = copy_bytes(prefix);
    r.push(47);
    push_all(&mut r, key);
    assert(r@ =~= prefix@ + seq![47u8] + key@);
    r
}

/// The key of a location below the prefix.
pub fn logical_key(prefix: &[u8], at: &[u8]) -> (r: Option<Vec<u8>>)
    ensures
        match r {
            Some(key) => at@ == prefix@ + seq![47u8] + key@,
            None => !codec::has_prefix(at@, prefix@ + seq![47u8]),
        },
{
    let none: [u8; 0] = [];
    let head = location(prefix, none.as_slice());
    assert(head@ =~= prefix@ + seq![47u8]);
    if starts_with(at, head.as_slice()) {
        let key = copy_range(at, head.len(), at.len());
        assert(at@ =~= prefix@ + seq![47u8] + key@);
        Some(key)
    } else {
        None
    }
}

/// A pack shows in a directory by its body or by its marker, and once only.
#[verifier::spinoff_prover]
#[verifier::rlimit(30)]
pub proof fn packs_show_by_body_or_marker(names: Seq<Seq<u8>>, p: Seq<u8>)
    ensures
        packs_in(names).no_duplicates(),
        packs_in(names).contains(p) <==> p.len() >= 5 && p.subrange(
            p.len() - 5,
            p.len() as int,
        ) == seq![46u8, 112, 97, 99, 107] && (p.len() > 5 && names.contains(p) || names.contains(
            p + seq![46u8, 115, 51],
        )),
    decreases names.len(),
{
    if names.len() > 0 {
        let front = names.drop_last();
        let last = names.last();
        packs_show_by_body_or_marker(front, p);
        let shown = packs_in(front);
        lemma_push_contains(front, last, p);
        lemma_push_contains(front, last, p + seq![46u8, 115, 51]);
        assert(front.push(last) =~= names);
        lemma_pack_of_file(last, p);
        match pack_of_file(last) {
            Some(pack) => {
                lemma_push_contains(shown, pack, p);
                if has_name(shown, pack) {
                    let i = choose|i: int| 0 <= i < shown.len() && #[trigger] shown[i] == pack;
                    assert(shown.contains(pack));
                } else {
                    assert forall|i: int, j: int|
                        0 <= i < shown.push(pack).len() && 0 <= j < shown.push(pack).len() && i
                            != j implies shown.push(pack)[i] != shown.push(pack)[j] by {
                        if i < shown.len() {
                            assert(shown[i] != pack);
                        }
                        if j < shown.len() {
                            assert(shown[j] != pack);
                        }
                    }
                }
            },
            None => {},
        }
    }
}

proof fn lemma_push_contains(s: Seq<Seq<u8>>, a: Seq<u8>, x: Seq<u8>)
    ensures
        s.push(a).contains(x) <==> s.contains(x) || x == a,
{
    let t = s.push(a);
    if s.contains(x) {
        let i = choose|i: int| 0 <= i < s.len() && s[i] == x;
        assert(t[i] == x);
    }
    assert(t[s.len() as int] == a);
    if t.contains(x) {
        let i = choose|i: int| 0 <= i < t.len() && t[i] == x;
        if i < s.len() {
            assert(s[i] == x);
        }
    }
}

#[verifier::spinoff_prover]
#[verifier::rlimit(30)]
proof fn lemma_pack_of_file(name: Seq<u8>, p: Seq<u8>)
    ensures
        pack_of_file(name) == Some(p) <==> p.len() >= 5 && p.subrange(
            p.len() - 5,
            p.len() as int,
        ) == seq![46u8, 112, 97, 99, 107] && (p.len() > 5 && name == p || name == p + seq![46u8, 115, 51]),
{
    let marker = pack_ext() + s3_ext();
    if is_pack_name(name) {
        if name == p + seq![46u8, 115, 51] {
            assert(name[name.len() - 1] == 51);
            assert(name.subrange(name.len() - 5, name.len() as int)[4] == 107);
        }
    } else if codec::has_suffix(name, marker) {
        let q = name.subrange(0, name.len() - 3);
        let tail = name.subrange(name.len() - 8, name.len() as int);
        assert(q.subrange(q.len() - 5, q.len() as int) =~= tail.subrange(0, 5));
        assert(tail.subrange(0, 5) =~= pack_ext());
        assert(name.subrange(name.len() - 3, name.len() as int) =~= tail.subrange(5, 8));
        assert(tail.subrange(5, 8) =~= s3_ext());
        assert(name =~= q + s3_ext());
        if name == p + seq![46u8, 115, 51] {
            assert(p =~= q);
        }
        if name == p && p.len() >= 5 {
            assert(name[name.len() - 1] == s3_ext()[2]);
        }
    } else {
        if p.len() >= 5 && p.subrange(p.len() - 5, p.len() as int) == seq![46u8, 112, 97, 99, 107] && name == p
            + seq![46u8, 115, 51] {
            assert(name.subrange(name.len() - 8, name.len() as int) =~= p.subrange(
                p.len() - 5,
                p.len() as int,
            ) + s3_ext());
        }
    }
}

/// A body is sound for a name: it is at least 32 bytes long, begins with "PACK", ends
/// with the SHA-1 of what stands before, and where the name without ".pack" at its end
/// is 64 hexadecimal digits, these spell the hash of the body.
#[verifier::spinoff_prover]
#[verifier::rlimit(30)]
pub proof fn sound_bodies(bytes: Seq<u8>, s: Seq<u8>)
    requires
        s.len() < 5 || s.subrange(s.len() - 5, s.len() as int) != seq![46u8, 112, 97, 99, 107],
    ensures
        ({
            let sound = {
                &&& bytes.len() >= 32
                &&& bytes[0] == 80 && bytes[1] == 65 && bytes[2] == 67 && bytes[3] == 75
                &&& digest::sha1_sum(bytes.subrange(0, bytes.len() - 20)) == bytes.subrange(
                    bytes.len() - 20,
                    bytes.len() as int,
                )
                &&& s.len() == 64 && (forall|i: int|
                    0 <= i < s.len() ==> (48 <= #[trigger] s[i] <= 57 || 65 <= s[i] <= 70 || 97
                        <= s[i] <= 102)) ==> hexcode::encoded(digest::blake3_sum(bytes)) == s
            };
            &&& body_fault(bytes, s) is None <==> sound
            &&& body_fault(bytes, s + seq![46u8, 112, 97, 99, 107]) is None <==> sound
        }),
{
    let named = s + seq![46u8, 112, 97, 99, 107];
    assert(named.subrange(named.len() - 5, named.len() as int) =~= pack_ext());
    assert(named.subrange(0, named.len() - 5) =~= s);
    if bytes.len() >= 4 {
        let head = bytes.subrange(0, 4);
        assert(head[0] == bytes[0] && head[1] == bytes[1] && head[2] == bytes[2] && head[3]
            == bytes[3]);
        if bytes[0] == 80 && bytes[1] == 65 && bytes[2] == 67 && bytes[3] == 75 {
            assert(head =~= seq![80u8, 65, 67, 75]);
        }
    }
    if is_hash_name(s) {
        assert forall|i: int| 0 <= i < s.len() implies (48 <= #[trigger] s[i] <= 57 || 65 <= s[i]
            <= 70 || 97 <= s[i] <= 102) by {
            assert(hexcode::is_digit(s[i]));
        }
    }
}

/// The key of an index is "packs/", the name of the pack and ".lidx".
#[verifier::spinoff_prover]
#[verifier::rlimit(30)]
pub proof fn keys_name_packs(n: Seq<u8>)
    requires
        n.len() < 5 || n.subrange(n.len() - 5, n.len() as int) != seq![46u8, 108, 105, 100, 120],
    ensures
        name_of_key(seq![112u8, 97, 99, 107, 115, 47] + n + seq![46u8, 108, 105, 100, 120]) == n,
        key_of(n) == seq![112u8, 97, 99, 107, 115, 47] + n,
{
    let key = seq![112u8, 97, 99, 107, 115, 47] + n + seq![46u8, 108, 105, 100, 120];
    assert(key.subrange(0, 6) =~= packs_dir());
    let rest = key.subrange(6, key.len() as int);
    assert(rest =~= n + lidx_ext());
    assert(rest.subrange(rest.len() - 5, rest.len() as int) =~= lidx_ext());
    assert(rest.subrange(0, rest.len() - 5) =~= n);
    reveal_with_fuel(trim_lidx, 3);
}

/// Once a plan has been carried out, every pack whose index the tier has can be used:
/// its index is there, and its body or its marker.
#[verifier::rlimit(30)]
pub proof fn recovered_packs_are_usable(keys: Seq<Seq<u8>>, local: Seq<Seq<u8>>, n: Seq<u8>)
    requires
        n.len() < 5 || n.subrange(n.len() - 5, n.len() as int) != seq![46u8, 108, 105, 100, 120],
        keys.contains(seq![112u8, 97, 99, 107, 115, 47] + n + seq![46u8, 108, 105, 100, 120]),
        !plan_for(keys, local, keys.len()).1,
    ensures
        ({
            let now = plan_for(keys, local, keys.len()).2;
            &&& now.contains(n + seq![46u8, 108, 105, 100, 120])
            &&& now.contains(n + seq![46u8, 112, 97, 99, 107]) || now.contains(
                n + seq![46u8, 112, 97, 99, 107] + seq![46u8, 115, 51],
            )
        }),
{
    let now = plan_for(keys, local, keys.len()).2;
    let i = lemma_key_of_index(keys, n);
    recovery_is_idempotent(keys, local);
    assert(usable(now, name_of_key(keys[i])));
    lemma_usable_names(now, n);
}

proof fn lemma_key_of_index(keys: Seq<Seq<u8>>, n: Seq<u8>) -> (i: int)
    requires
        n.len() < 5 || n.subrange(n.len() - 5, n.len() as int) != seq![46u8, 108, 105, 100, 120],
        keys.contains(seq![112u8, 97, 99, 107, 115, 47] + n + seq![46u8, 108, 105, 100, 120]),
    ensures
        0 <= i < keys.len(),
        codec::has_suffix(keys[i], lidx_ext()),
        name_of_key(keys[i]) == n,
{
    let key = seq![112u8, 97, 99, 107, 115, 47] + n + seq![46u8, 108, 105, 100, 120];
    keys_name_packs(n);
    assert(key.subrange(key.len() - 5, key.len() as int) =~= lidx_ext());
    choose|i: int| 0 <= i < keys.len() && keys[i] == key
}

proof fn lemma_usable_names(local: Seq<Seq<u8>>, n: Seq<u8>)
    ensures
        usable(local, n) <==> local.contains(n + seq![46u8, 108, 105, 100, 120]) && (local.contains(
            n + seq![46u8, 112, 97, 99, 107],
        ) || local.contains(n + seq![46u8, 112, 97, 99, 107] + seq![46u8, 115, 51])),
{
    lemma_has_name_contains(local, n + lidx_ext());
    lemma_has_name_contains(local, n + pack_ext());
    lemma_has_name_contains(local, n + pack_ext() + s3_ext());
}

/// A plan ends early where it has to: the tier has the index of a pack that cannot be
/// used here, and has not its body.
#[verifier::rlimit(30)]
pub proof fn missing_bodies_are_told(keys: Seq<Seq<u8>>, local: Seq<Seq<u8>>, n: Seq<u8>)
    requires
        n.len() < 5 || n.subrange(n.len() - 5, n.len() as int) != seq![46u8, 108, 105, 100, 120],
        keys.contains(seq![112u8, 97, 99, 107, 115, 47] + n + seq![46u8, 108, 105, 100, 120]),
        !keys.contains(seq![112u8, 97, 99, 107, 115, 47] + (n + seq![46u8, 112, 97, 99, 107])),
        !local.contains(n + seq![46u8, 108, 105, 100, 120]) || !(local.contains(n + seq![46u8, 112, 97, 99, 107])
            || local.contains(n + seq![46u8, 112, 97, 99, 107] + seq![46u8, 115, 51])),
    ensures
        plan_for(keys, local, keys.len()).1,
{
    let i = lemma_key_of_index(keys, n);
    lemma_usable_names(local, n);
    let body = key_of(n + pack_ext());
    lemma_has_name_contains(keys, body);
    assert(body == seq![112u8, 97, 99, 107, 115, 47] + (n + seq![46u8, 112, 97, 99, 107]));
    assert(body_is_lost(keys, local, keys.len() as int));
    lemma_plan_repairs(keys, local, keys.len());
}

/// A plan ends early for no other reason.
pub proof fn plans_end_for_a_reason(keys: Seq<Seq<u8>>, local: Seq<Seq<u8>>) -> (i: int)
    requires
        plan_for(keys, local, keys.len()).1,
    ensures
        0 <= i < keys.len(),
        ({
            let n = name_of_key(keys[i]);
            &&& keys[i].len() >= 5
            &&& keys[i].subrange(keys[i].len() - 5, keys[i].len() as int) == seq![46u8, 108, 105, 100, 120]
            &&& !local.contains(n + seq![46u8, 108, 105, 100, 120]) || !(local.contains(
                n + seq![46u8, 112, 97, 99, 107],
            ) || local.contains(n + seq![46u8, 112, 97, 99, 107] + seq![46u8, 115, 51]))
            &&& !keys.contains(seq![112u8, 97, 99, 107, 115, 47] + (n + seq![46u8, 112, 97, 99, 107]))
        }),
{
    lemma_plan_repairs(keys, local, keys.len());
    let i = choose|i: int|
        0 <= i < keys.len() && codec::has_suffix(#[trigger] keys[i], lidx_ext()) && !usable(
            local,
            name_of_key(keys[i]),
        ) && !has_name(keys, key_of(name_of_key(keys[i]) + pack_ext()));
    let n = name_of_key(keys[i]);
    lemma_usable_names(local, n);
    lemma_has_name_contains(keys, key_of(n + pack_ext()));
    i
}

proof fn lemma_other_files(a: Seq<u8>, b: Seq<u8>)
    requires
        a != b,
    ensures
        a + idx_ext() != b + idx_ext(),
        a + idx_ext() != b + lidx_ext(),
        a + idx_ext() != b + pack_ext() + s3_ext(),
        a + lidx_ext() != b + idx_ext(),
        a + pack_ext() != b + idx_ext(),
        a + pack_ext() != b + lidx_ext(),
        a + pack_ext() != b + pack_ext() + s3_ext(),
        a + pack_ext() + s3_ext() != b + idx_ext(),
{
    lemma_ends_apart(a, b);
    lemma_ends_apart(b, a);
    let x = a + idx_ext();
    let y = b + idx_ext();
    assert(x.subrange(0, x.len() - 4) =~= a);
    assert(y.subrange(0, y.len() - 4) =~= b);
}

#[verifier::rlimit(30)]
proof fn lemma_repair_keeps_files(local: Seq<Seq<u8>>, name: Seq<u8>, other: Seq<u8>)
    requires
        name != other,
    ensures
        has_name(repaired(local, name), other + lidx_ext()) == has_name(local, other + lidx_ext()),
        has_name(repaired(local, name), other + idx_ext()) == has_name(local, other + idx_ext()),
        body_reachable(repaired(local, name), other) == body_reachable(local, other),
{
    let r = repaired(local, name);
    lemma_repaired(local, name);
    lemma_ends_apart(name, other);
    lemma_ends_apart(other, name);
    lemma_other_files(other, name);
    if has_name(r, other + lidx_ext()) {
        lemma_repair_adds(local, name, other + lidx_ext());
    }
    if has_name(r, other + idx_ext()) {
        lemma_repair_adds(local, name, other + idx_ext());
    }
    if has_name(r, other + pack_ext()) {
        lemma_repair_adds(local, name, other + pack_ext());
    }
    if has_name(r, other + pack_ext() + s3_ext()) {
        lemma_repair_adds(local, name, other + pack_ext() + s3_ext());
    }
}

#[verifier::rlimit(30)]
proof fn lemma_plan_keeps_files(keys: Seq<Seq<u8>>, local: Seq<Seq<u8>>, n: nat, name: Seq<u8>)
    requires
        !plan_for(keys, local, n).0.contains(name),
    ensures
        ({
            let now = plan_for(keys, local, n).2;
            &&& has_name(now, name + lidx_ext()) == has_name(local, name + lidx_ext())
            &&& has_name(now, name + idx_ext()) == has_name(local, name + idx_ext())
            &&& body_reachable(now, name) == body_reachable(local, name)
        }),
    decreases n,
{
    if n > 0 {
        let m = (n - 1) as nat;
        let before = plan_for(keys, local, m).0;
        let after = plan_for(keys, local, n).0;
        let at = name_of_key(keys[n - 1]);
        if before.contains(name) {
            let i = choose|i: int| 0 <= i < before.len() && before[i] == name;
            assert(after[i] == name);
        }
        lemma_plan_keeps_files(keys, local, m, name);
        if after.len() > before.len() {
            assert(after[after.len() - 1] == at);
            lemma_repair_keeps_files(plan_for(keys, local, m).2, at, name);
        }
    }
}

#[verifier::rlimit(30)]
proof fn lemma_plan_prefix(keys: Seq<Seq<u8>>, local: Seq<Seq<u8>>, n: nat, m: nat)
    requires
        n <= m,
    ensures
        ({
            let a = plan_for(keys, local, n).0;
            let b = plan_for(keys, local, m).0;
            &&& a.len() <= b.len()
            &&& a == b.subrange(0, a.len() as int)
        }),
    decreases m,
{
    let a = plan_for(keys, local, n).0;
    let b = plan_for(keys, local, m).0;
    if n < m {
        lemma_plan_prefix(keys, local, n, (m - 1) as nat);
        let c = plan_for(keys, local, (m - 1) as nat).0;
        assert(a =~= b.subrange(0, a.len() as int)) by {
            assert forall|i: int| 0 <= i < a.len() implies a[i] == b[i] by {
                assert(a[i] == c.subrange(0, a.len() as int)[i]);
            }
        }
    } else {
        assert(a =~= b.subrange(0, a.len() as int));
    }
}

/// A step brings what is not there and nothing that is: the index by address, the
/// index by name, and the marker where there is neither a body nor a marker.
#[verifier::spinoff_prover]
#[verifier::rlimit(30)]
pub proof fn steps_bring_what_is_missing(
    keys: Seq<Seq<u8>>,
    local: Seq<Seq<u8>>,
    steps: Seq<RecoverStep>,
    j: int,
)
    requires
        steps_repair(steps, keys, local),
        step_names(steps) == plan_for(keys, local, keys.len()).0,
        0 <= j < steps.len(),
    ensures
        ({
            let n = steps[j].name@;
            &&& steps[j].fetch_lidx <==> !local.contains(n + seq![46u8, 108, 105, 100, 120])
            &&& steps[j].fetch_idx <==> !local.contains(n + seq![46u8, 105, 100, 120])
            &&& steps[j].write_marker <==> !local.contains(n + seq![46u8, 112, 97, 99, 107])
                && !local.contains(n + seq![46u8, 112, 97, 99, 107] + seq![46u8, 115, 51])
        }),
{
    let n = steps[j].name@;
    assert(step_repairs(steps[j], keys, local, j));
    let k = choose|k: nat|
        (#[trigger] step_turn(keys, local, j, k)) && repairs(
            steps[j],
            plan_for(keys, local, k).2,
            steps[j].name@,
        );
    let all = plan_for(keys, local, keys.len()).0;
    let before = plan_for(keys, local, k).0;
    lemma_plan_prefix(keys, local, k, keys.len());
    lemma_plan_repairs(keys, local, keys.len());
    assert(all[j] == step_names(steps)[j]);
    assert(!before.contains(n)) by {
        if before.contains(n) {
            let i = choose|i: int| 0 <= i < before.len() && before[i] == n;
            assert(all.subrange(0, before.len() as int)[i] == n);
            assert(all[i] == all[j]);
        }
    }
    lemma_plan_keeps_files(keys, local, k, n);
    lemma_has_name_contains(local, n + lidx_ext());
    lemma_has_name_contains(local, n + idx_ext());
    lemma_has_name_contains(local, n + pack_ext());
    lemma_has_name_contains(local, n + pack_ext() + s3_ext());
}

proof fn lemma_has_name_contains(names: Seq<Seq<u8>>, x: Seq<u8>)
    ensures
        has_name(names, x) <==> names.contains(x),
{
    if has_name(names, x) {
        let i = choose|i: int| 0 <= i < names.len() && #[trigger] names[i] == x;
        assert(names.contains(names[i]));
    }
    if names.contains(x) {
        let i = choose|i: int| 0 <= i < names.len() && names[i] == x;
        assert(names[i] == x);
    }
}

proof fn lemma_steps_bring(keys: Seq<Seq<u8>>, local: Seq<Seq<u8>>, steps: Seq<RecoverStep>)
    requires
        steps_repair(steps, keys, local),
        step_names(steps) == plan_for(keys, local, keys.len()).0,
    ensures
        forall|j: int|
            0 <= j < steps.len() ==> {
                let step = #[trigger] steps[j];
                let n = step.name@;
                &&& step.fetch_lidx <==> !local.contains(n + seq![46u8, 108, 105, 100, 120])
                &&& step.fetch_idx <==> !local.contains(n + seq![46u8, 105, 100, 120])
                &&& step.write_marker <==> !local.contains(n + seq![46u8, 112, 97, 99, 107])
                    && !local.contains(n + seq![46u8, 112, 97, 99, 107] + seq![46u8, 115, 51])
            },
{
    assert forall|j: int| 0 <= j < steps.len() implies {
        let step = #[trigger] steps[j];
        let n = step.name@;
        &&& step.fetch_lidx <==> !local.contains(n + seq![46u8, 108, 105, 100, 120])
        &&& step.fetch_idx <==> !local.contains(n + seq![46u8, 105, 100, 120])
        &&& step.write_marker <==> !local.contains(n + seq![46u8, 112, 97, 99, 107])
            && !local.contains(n + seq![46u8, 112, 97, 99, 107] + seq![46u8, 115, 51])
    } by {
        steps_bring_what_is_missing(keys, local, steps, j);
    }
}

/// Packs show in the order in which a file of theirs is found first: one more file adds
/// its pack behind the others, or nothing.
pub proof fn packs_show_in_order(names: Seq<Seq<u8>>, p: Seq<u8>)
    requires
        p.len() > 5,
        p.subrange(p.len() - 5, p.len() as int) == seq![46u8, 112, 97, 99, 107],
    ensures
        packs_in(Seq::empty()).len() == 0,
        packs_in(names).contains(p) ==> packs_in(names.push(p)) == packs_in(names) && packs_in(
            names.push(p + seq![46u8, 115, 51]),
        ) == packs_in(names),
        !packs_in(names).contains(p) ==> packs_in(names.push(p)) == packs_in(names).push(p)
            && packs_in(names.push(p + seq![46u8, 115, 51])) == packs_in(names).push(p),
{
    assert(names.push(p).drop_last() =~= names);
    assert(names.push(p + seq![46u8, 115, 51]).drop_last() =~= names);
    lemma_pack_of_file(p, p);
    lemma_pack_of_file(p + seq![46u8, 115, 51], p);
    lemma_has_name_contains(packs_in(names), p);
}

/// The name in the key of an index is what stands behind "packs/", if the key begins so,
/// without ".lidx" at its end, however often it stands there.
pub proof fn keys_are_trimmed(s: Seq<u8>)
    ensures
        trim_lidx(s + seq![46u8, 108, 105, 100, 120]) == trim_lidx(s),
        s.len() < 5 || s.subrange(s.len() - 5, s.len() as int) != seq![46u8, 108, 105, 100, 120] ==> trim_lidx(s) == s,
        name_of_key(seq![112u8, 97, 99, 107, 115, 47] + s) == trim_lidx(s),
        s.len() < 6 || s.subrange(0, 6) != seq![112u8, 97, 99, 107, 115, 47] ==> name_of_key(s) == trim_lidx(s),
{
    let t = s + seq![46u8, 108, 105, 100, 120];
    assert(t.subrange(t.len() - 5, t.len() as int) =~= lidx_ext());
    assert(t.subrange(0, t.len() - 5) =~= s);
    let k = seq![112u8, 97, 99, 107, 115, 47] + s;
    assert(k.subrange(0, 6) =~= packs_dir());
    assert(k.subrange(6, k.len() as int) =~= s);
}

} // verus!
