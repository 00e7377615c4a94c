//! The object store: loose object files and packs, addressed by content.
//!
//! The store holds what is on disk as values: the file of every loose object, and
//! of every pack the index by address and, unless it was moved to the cold tier,
//! the body. A loose file comes before a packed copy of the same object.

use std::sync::Arc;
use vstd::prelude::*;
use crate::art::share;
use crate::codec::{bytes_equal, copy_bytes, copy_range, push_all};
use crate::delta;
use crate::delta::{apply_delta, encode_delta};
use crate::digest;
use crate::git_pack_file;
use crate::git_pack_file::{GitPackFile, LidxEntry};
use crate::graph::Sha1;
use crate::hexcode;
use crate::keytable;
use crate::keytable::KeyTable;
use crate::object_file;
use crate::object_file::{
    content_id, encode_delta_object, encode_object, expand_body, file_delta_base, file_sha1,
    file_type, id_at, DELTA_HEADER_LEN, ENC_DELTA, ENC_RAW, ENC_ZLIB, HEADER_LEN,
};
use crate::types::{Corruption, LedgeError, ObjectId};
use crate::zlib;

verus! {

/// The longest chain of deltas between loose objects.
pub const MAX_CHAIN: usize = 50;

/// A pack that the store reads from.
pub struct StoredPack {
    pub index: GitPackFile,
    /// `None` while the body is in the cold tier.
    pub body: Option<Vec<u8>>,
}

/// What a pack holds.
pub struct PackState {
    pub index: git_pack_file::PackView,
    pub body: Option<Seq<u8>>,
}

impl View for StoredPack {
    type V = PackState;

    open spec fn view(&self) -> PackState {
        PackState { index: self.index@, body: git_pack_file::option_view(self.body) }
    }
}

/// The files of a pack, as far as they are there.
pub struct PackFiles {
    pub body: Option<Vec<u8>>,
    pub lidx: Option<Vec<u8>>,
}

/// What the files of a pack hold.
pub struct PackFilesView {
    pub body: Option<Seq<u8>>,
    pub lidx: Option<Seq<u8>>,
}

impl View for PackFiles {
    type V = PackFilesView;

    open spec fn view(&self) -> PackFilesView {
        PackFilesView {
            body: git_pack_file::option_view(self.body),
            lidx: git_pack_file::option_view(self.lidx),
        }
    }
}

/// The pack can be opened: its index is there and in order, and the body, unless it
/// was moved away, begins as a pack does.
pub open spec fn pack_opens(f: PackFilesView) -> bool {
    &&& f.lidx matches Some(lidx) && git_pack_file::lidx_ok(lidx)
    &&& f.body matches Some(b) ==> git_pack_file::has_pack_magic(b)
}

/// `p` is the pack that the files make up.
pub open spec fn pack_from(f: PackFilesView, p: PackState) -> bool {
    &&& p.body == f.body
    &&& exists|v: Seq<LidxEntry>| #[trigger]
        git_pack_file::lidx_holds(f.lidx->0, v) && p.index == git_pack_file::view_of(v)
}

/// `packs` are the packs of `files` that can be opened, in order; the others are
/// left out.
pub open spec fn packs_from(files: Seq<PackFilesView>, packs: Seq<PackState>) -> bool
    decreases files.len(),
{
    if files.len() == 0 {
        packs.len() == 0
    } else if pack_opens(files.last()) {
        &&& packs.len() > 0
        &&& pack_from(files.last(), packs.last())
        &&& packs_from(files.drop_last(), packs.drop_last())
    } else {
        packs_from(files.drop_last(), packs)
    }
}

/// What the files of some packs hold.
pub open spec fn files_views(files: Seq<PackFiles>) -> Seq<PackFilesView> {
    Seq::new(files.len(), |i: int| files[i]@)
}

impl PackFiles {
    /// Whether the pack can be opened.
    pub fn opens(&self) -> (r: bool)
        ensures
            r == pack_opens(self@),
    {
        let body: Option<&[u8]> = match &self.body {
            Some(b) => Some(b.as_slice()),
            None => None,
        };
        match &self.lidx {
            Some(lidx) => GitPackFile::open(body, lidx.as_slice()).is_ok(),
            None => false,
        }
    }
}

/// Opens packs. One that cannot be opened is left out, so that a damaged pack does
/// not stand in the way of the others.
fn open_packs(files: Vec<PackFiles>) -> (r: Vec<StoredPack>)
    ensures
        packs_from(files_views(files@), pack_states(r@)),
{
    let ghost views = files_views(files@);
    let mut packs: Vec<StoredPack> = Vec::new();
    assert(views.subrange(0, 0) =~= Seq::<PackFilesView>::empty());
    for f in it: files
        invariant
            views == files_views(it.seq()),
            packs_from(views.subrange(0, it.index() as int), pack_states(packs@)),
    {
        let ghost i = it.index() as int;
        let ghost before = pack_states(packs@);
        proof {
            assert(views.subrange(0, i + 1).drop_last() =~= views.subrange(0, i));
            assert(views.subrange(0, i + 1).last() == f@);
        }
        let body: Option<&[u8]> = match &f.body {
            Some(b) => Some(b.as_slice()),
            None => None,
        };
        if let Some(lidx) = &f.lidx {
            if let Ok(index) = GitPackFile::open(body, lidx.as_slice()) {
                packs.push(StoredPack { index, body: f.body });
                assert(pack_states(packs@).drop_last() =~= before);
            }
        }
    }
    assert(views.subrange(0, views.len() as int) =~= views);
    packs
}

/// What the store holds.
pub struct StoreView {
    pub loose: Map<Seq<u8>, Seq<u8>>,
    pub packs: Seq<PackState>,
}

/// Why an object cannot be read.
pub enum ReadFail {
    /// There is no object with this address.
    NotFound(Seq<u8>),
    Corrupt(Corruption),
    /// The body of the pack is in the cold tier.
    Unavailable,
}

/// `e` reports `f`.
pub open spec fn reports(e: LedgeError, f: ReadFail) -> bool {
    match f {
        ReadFail::NotFound(k) => e matches LedgeError::NotFound(id) && id.bytes@ == k,
        ReadFail::Corrupt(c) => e == LedgeError::Corruption(c),
        ReadFail::Unavailable => e == LedgeError::Unavailable,
    }
}

/// The first pack from `i` on that has the object.
pub open spec fn pack_with(packs: Seq<PackState>, id: Seq<u8>, i: int) -> Option<int>
    decreases packs.len() - i,
{
    if i < 0 || i >= packs.len() {
        None
    } else if packs[i].index.by_oid.contains_key(id) {
        Some(i)
    } else {
        pack_with(packs, id, i + 1)
    }
}

proof fn lemma_first_pack(packs: Seq<PackState>, id: Seq<u8>, from: int)
    requires
        0 <= from,
        forall|j: int| 0 <= j < from ==> !(#[trigger] packs[j]).index.by_oid.contains_key(id),
    ensures
        match pack_with(packs, id, from) {
            Some(i) => {
                &&& 0 <= i < packs.len()
                &&& packs[i].index.by_oid.contains_key(id)
                &&& forall|j: int|
                    0 <= j < i ==> !(#[trigger] packs[j]).index.by_oid.contains_key(id)
            },
            None => forall|j: int|
                0 <= j < packs.len() ==> !(#[trigger] packs[j]).index.by_oid.contains_key(id),
        },
    decreases packs.len() - from,
{
    if from < packs.len() && !packs[from].index.by_oid.contains_key(id) {
        lemma_first_pack(packs, id, from + 1);
    }
}

/// The content of an object that is not loose.
pub open spec fn packed_content(s: StoreView, id: Seq<u8>) -> Result<Seq<u8>, ReadFail> {
    match pack_with(s.packs, id, 0) {
        None => Err(ReadFail::NotFound(id)),
        Some(i) => match s.packs[i].body {
            None => Err(ReadFail::Unavailable),
            Some(body) => match git_pack_file::pack_read(s.packs[i].index, body, id) {
                Ok(Some(content)) => Ok(content),
                Ok(None) => Err(ReadFail::NotFound(id)),
                Err(c) => Err(ReadFail::Corrupt(c)),
            },
        },
    }
}

/// The content of an object that is reached through `depth` deltas.
pub open spec fn content_at(s: StoreView, id: Seq<u8>, depth: nat) -> Result<Seq<u8>, ReadFail>
    decreases MAX_CHAIN + 1 - depth,
{
    if !s.loose.contains_key(id) {
        packed_content(s, id)
    } else {
        let raw = s.loose[id];
        if raw.len() < HEADER_LEN {
            Err(ReadFail::Corrupt(Corruption::ObjectHeader))
        } else if raw[21] == ENC_RAW {
            Ok(raw.subrange(24, raw.len() as int))
        } else if raw[21] == ENC_ZLIB {
            match object_file::expanded(raw.subrange(24, raw.len() as int)) {
                Ok(content) => Ok(content),
                Err(c) => Err(ReadFail::Corrupt(c)),
            }
        } else if raw[21] != ENC_DELTA {
            Err(ReadFail::Corrupt(Corruption::ObjectEncoding))
        } else if depth >= MAX_CHAIN {
            Err(ReadFail::Corrupt(Corruption::ChainTooDeep))
        } else if raw.len() < DELTA_HEADER_LEN {
            Err(ReadFail::Corrupt(Corruption::ObjectHeader))
        } else {
            match content_at(s, raw.subrange(24, 56), depth + 1) {
                Err(f) => Err(f),
                Ok(base) => match object_file::expanded(raw.subrange(56, raw.len() as int)) {
                    Err(c) => Err(ReadFail::Corrupt(c)),
                    Ok(d) => match delta::applied(base, d) {
                        Some(content) => Ok(content),
                        None => Err(ReadFail::Corrupt(Corruption::Delta)),
                    },
                },
            }
        }
    }
}

/// The content of an object.
pub open spec fn content_of(s: StoreView, id: Seq<u8>) -> Result<Seq<u8>, ReadFail> {
    content_at(s, id, 0)
}

/// Git's name for an object.
pub open spec fn name_of(s: StoreView, id: Seq<u8>) -> Result<Seq<u8>, ReadFail> {
    if s.loose.contains_key(id) {
        if s.loose[id].len() < 20 {
            Err(ReadFail::Corrupt(Corruption::ObjectHeader))
        } else {
            Ok(s.loose[id].subrange(0, 20))
        }
    } else {
        match name_pack(s.packs, id, 0) {
            Some(i) => Ok(s.packs[i].index.oid_to_sha1[id]@),
            None => Err(ReadFail::NotFound(id)),
        }
    }
}

/// One of the packs has an object of the name `k`.
pub open spec fn packs_name(packs: Seq<PackState>, k: Seq<u8>) -> bool {
    exists|i: int|
        0 <= i < packs.len() && (#[trigger] packs[i]).index.sha1_to_oid.contains_key(k)
}

/// The first pack from `i` on that has a name for the object.
pub open spec fn name_pack(packs: Seq<PackState>, id: Seq<u8>, i: int) -> Option<int>
    decreases packs.len() - i,
{
    if i < 0 || i >= packs.len() {
        None
    } else if packs[i].index.oid_to_sha1.contains_key(id) {
        Some(i)
    } else {
        name_pack(packs, id, i + 1)
    }
}

/// The type of an object.
pub open spec fn type_of(s: StoreView, id: Seq<u8>) -> Result<u8, ReadFail> {
    if s.loose.contains_key(id) {
        if s.loose[id].len() < HEADER_LEN {
            Err(ReadFail::Corrupt(Corruption::ObjectHeader))
        } else {
            Ok(s.loose[id][20])
        }
    } else {
        match pack_with(s.packs, id, 0) {
            Some(i) => Ok(s.packs[i].index.by_oid[id].0),
            None => Err(ReadFail::NotFound(id)),
        }
    }
}

/// The base of an object, where it is stored as a delta. An object that is not
/// there has none.
pub open spec fn base_in(s: StoreView, id: Seq<u8>) -> Result<Option<Seq<u8>>, ReadFail> {
    if s.loose.contains_key(id) {
        Ok(object_file::file_base(s.loose[id]))
    } else {
        match pack_with(s.packs, id, 0) {
            None => Ok(None),
            Some(i) => match s.packs[i].body {
                None => Err(ReadFail::Unavailable),
                Some(body) => match git_pack_file::pack_base(s.packs[i].index, body, id) {
                    Ok(Some(base)) => Ok(Some(base.bytes@)),
                    Ok(None) => Ok(None),
                    Err(c) => Err(ReadFail::Corrupt(c)),
                },
            },
        }
    }
}

/// How many deltas lie on the way from an object to one that is stored whole,
/// counted up to `fuel`.
pub open spec fn chain_from(s: StoreView, id: Seq<u8>, fuel: nat) -> Result<nat, ReadFail>
    decreases fuel,
{
    if fuel == 0 {
        Ok(0)
    } else {
        match base_in(s, id) {
            Err(f) => Err(f),
            Ok(None) => Ok(0),
            Ok(Some(base)) => match chain_from(s, base, (fuel - 1) as nat) {
                Ok(n) => Ok(n + 1),
                Err(f) => Err(f),
            },
        }
    }
}

/// Whether the chain of an object passes `target` within `fuel` deltas.
pub open spec fn chain_reaches(s: StoreView, id: Seq<u8>, target: Seq<u8>, fuel: nat) -> Result<
    bool,
    ReadFail,
>
    decreases fuel,
{
    if fuel == 0 {
        Ok(false)
    } else {
        match base_in(s, id) {
            Err(f) => Err(f),
            Ok(None) => Ok(false),
            Ok(Some(base)) => if base == target {
                Ok(true)
            } else {
                chain_reaches(s, base, target, (fuel - 1) as nat)
            },
        }
    }
}

/// The store has the object.
pub open spec fn has_object(s: StoreView, id: Seq<u8>) -> bool {
    s.loose.contains_key(id) || pack_with(s.packs, id, 0) is Some
}

/// What a reading operation returns.
pub open spec fn outcome<T>(r: Result<T, LedgeError>, expected: Result<T, ReadFail>) -> bool {
    match (r, expected) {
        (Ok(x), Ok(y)) => x == y,
        (Err(e), Err(f)) => reports(e, f),
        _ => false,
    }
}

/// What a reading operation that gives bytes returns.
pub open spec fn bytes_outcome(
    r: Result<Vec<u8>, LedgeError>,
    expected: Result<Seq<u8>, ReadFail>,
) -> bool {
    match (r, expected) {
        (Ok(x), Ok(y)) => x@ == y,
        (Err(e), Err(f)) => reports(e, f),
        _ => false,
    }
}

/// The store. It keeps the last index of names until a loose object is written or
/// the packs are replaced.
pub struct DiskObjectStore {
    loose: KeyTable<32, Vec<u8>>,
    packs: Vec<StoredPack>,
    names: Option<Arc<KeyTable<20, ObjectId>>>,
}

impl View for DiskObjectStore {
    type V = StoreView;

    closed spec fn view(&self) -> StoreView {
        StoreView {
            loose: self.loose@.map_values(|v: Vec<u8>| v@),
            packs: Seq::new(self.packs@.len(), |i: int| self.packs@[i]@),
        }
    }
}

/// Where the file of a loose object stands below the data directory: in a directory
/// for the first two digits of its address, and one for the next two.
pub open spec fn path_of(id: Seq<u8>) -> Seq<u8> {
    let hex = hexcode::encoded(id);
    seq![111u8, 98, 106, 101, 99, 116, 115, 47] + hex.subrange(0, 2) + seq![47u8] + hex.subrange(
        2,
        4,
    ) + seq![47u8] + hex
}

/// The path of the file of a loose object below the data directory.
pub fn object_path(id: &ObjectId) -> (r: Vec<u8>)
    ensures
        r@ == path_of(id.bytes@),
        ({
            let hex = hexcode::encoded(id.bytes@);
            r@ == seq![111u8, 98, 106, 101, 99, 116, 115, 47] + hex.subrange(0, 2) + seq![47u8]
                + hex.subrange(2, 4) + seq![47u8] + hex
        }),
{
    let hex = hexcode::encode(id.bytes.as_slice());
    let dir: [u8; 8] = [111, 98, 106, 101, 99, 116, 115, 47];
    let mut path = copy_bytes(dir.as_slice());
    push_all(&mut path, vstd::slice::slice_subrange(hex.as_slice(), 0, 2));
    path.push(47);
    push_all(&mut path, vstd::slice::slice_subrange(hex.as_slice(), 2, 4));
    path.push(47);
    push_all(&mut path, hex.as_slice());
    assert(path@ =~= path_of(id.bytes@));
    path
}

/// The last part of the path of an object spells its address.
pub proof fn path_names_object(id: Seq<u8>)
    requires
        id.len() == 32,
    ensures
        path_of(id).len() == 78,
        hexcode::decoded(path_of(id).subrange(14, 78)) == Some(id),
{
    assert(path_of(id).subrange(14, 78) =~= hexcode::encoded(id));
    hexcode::encode_decode(id);
}

/// The address that the name of a loose file spells, where it spells one: sixty-four
/// hexadecimal digits.
pub fn id_of_file_name(name: &[u8]) -> (r: Option<ObjectId>)
    ensures
        match r {
            Some(id) => name.len() == 64 && hexcode::decoded(name@) == Some(id.bytes@),
            None => name.len() != 64 || hexcode::decoded(name@) is None,
        },
{
    if name.len() != 64 {
        return None;
    }
    match hexcode::decode(name) {
        Some(bytes) => if bytes.len() == 32 {
            let id = id_at(bytes.as_slice(), 0);
            assert(id.bytes@ =~= bytes@);
            Some(id)
        } else {
            None
        },
        None => None,
    }
}

/// What registered packs hold.
pub open spec fn pack_states(packs: Seq<StoredPack>) -> Seq<PackState> {
    Seq::new(packs.len(), |i: int| packs[i]@)
}

impl DiskObjectStore {
    #[verifier::type_invariant]
    closed spec fn names_complete(self) -> bool {
        self.names matches Some(index) ==> covers_names(index@, self@)
    }

    /// The index of names that is kept, if one is.
    pub closed spec fn kept_names(&self) -> Option<Map<Seq<u8>, ObjectId>> {
        match self.names {
            Some(index) => Some(index@),
            None => None,
        }
    }

    /// The index of names that is kept, if one is, is the index of what the store
    /// holds. It is not where an object was deleted since it was built.
    pub open spec fn names_fresh(&self) -> bool {
        self.kept_names() matches Some(index) ==> indexes_names(index, self@)
    }

    /// A store with the packs that can be opened, and no loose objects yet.
    pub fn new(files: Vec<PackFiles>) -> (r: Self)
        ensures
            r.kept_names() is None,
            r@.loose == Map::<Seq<u8>, Seq<u8>>::empty(),
            packs_from(files_views(files@), r@.packs),
    {
        let r = DiskObjectStore {
            loose: KeyTable::new(),
            packs: open_packs(files),
            names: None,
        };
        assert(r@.loose =~= Map::<Seq<u8>, Seq<u8>>::empty());
        assert(r@.packs =~= pack_states(r.packs@));
        r
    }

    /// Replaces the registered packs by those of `files` that can be opened.
    pub fn reload_packs(&mut self, files: Vec<PackFiles>)
        ensures
            final(self).kept_names() is None,
            final(self)@.loose == old(self)@.loose,
            packs_from(files_views(files@), final(self)@.packs),
    {
        let packs = open_packs(files);
        self.swap_packs(packs);
    }

    /// Takes the file of a loose object in, as it is.
    pub fn put_file(&mut self, id: ObjectId, raw: Vec<u8>)
        ensures
            final(self).kept_names() is None,
            final(self)@ == (StoreView {
                loose: old(self)@.loose.insert(id.bytes@, raw@),
                ..old(self)@
            }),
    {
        self.names = None;
        self.replace_file(id, raw);
    }

    /// Takes the file of a loose object in, whose name is known already.
    fn replace_file(&mut self, id: ObjectId, raw: Vec<u8>)
        requires
            old(self).kept_names() matches Some(index) ==> raw@.len() >= HEADER_LEN
                && index.contains_key(raw@.subrange(0, 20)),
        ensures
            final(self).kept_names() == old(self).kept_names(),
            final(self)@ == (StoreView {
                loose: old(self)@.loose.insert(id.bytes@, raw@),
                ..old(self)@
            }),
    {
        proof {
            use_type_invariant(&*self);
        }
        let ghost before = self.loose@;
        let ghost v = raw@;
        let mut names: Option<Arc<KeyTable<20, ObjectId>>> = None;
        std::mem::swap(&mut names, &mut self.names);
        let mut loose: KeyTable<32, Vec<u8>> = KeyTable::new();
        std::mem::swap(&mut loose, &mut self.loose);
        loose.insert(id.bytes, raw);
        self.loose = loose;
        assert(self.loose@.map_values(|v: Vec<u8>| v@) =~= before.map_values(
            |v: Vec<u8>| v@,
        ).insert(id.bytes@, v));
        self.names = names;
    }

    /// The file of a loose object.
    pub fn loose_bytes(&self, id: ObjectId) -> (r: Option<&Vec<u8>>)
        ensures
            match r {
                Some(raw) => self@.loose.contains_key(id.bytes@) && raw@ == self@.loose[id.bytes@],
                None => !self@.loose.contains_key(id.bytes@),
            },
    {
        self.loose.get(&id.bytes)
    }

    /// Replaces the registered packs.
    pub fn swap_packs(&mut self, packs: Vec<StoredPack>)
        ensures
            final(self).kept_names() is None,
            final(self)@ == (StoreView { packs: pack_states(packs@), ..old(self)@ }),
    {
        self.names = None;
        self.packs = packs;
        assert(self@.packs =~= pack_states(packs@));
    }

    fn find_pack(&self, id: ObjectId) -> (r: Option<usize>)
        ensures
            match r {
                Some(i) => pack_with(self@.packs, id.bytes@, 0) == Some(i as int) && i
                    < self.packs.len() && self@.packs[i as int] == self.packs@[i as int]@
                    && self.packs@[i as int].index@.by_oid.contains_key(id.bytes@),
                None => pack_with(self@.packs, id.bytes@, 0) is None,
            },
    {
        let mut i: usize = 0;
        while i < self.packs.len()
            invariant
                i <= self.packs.len(),
                pack_with(self@.packs, id.bytes@, 0) == pack_with(
                    self@.packs,
                    id.bytes@,
                    i as int,
                ),
            decreases self.packs.len() - i,
        {
            assert(self@.packs[i as int] == self.packs@[i as int]@);
            if self.packs[i].index.contains(id) {
                return Some(i);
            }
            i += 1;
        }
        None
    }

    /// Which registered pack has to be restored before the object can be read.
    #[verifier::rlimit(40)]
    pub fn missing_body(&self, id: ObjectId) -> (r: Option<usize>)
        ensures
            r == if self@.loose.contains_key(id.bytes@) {
                None
            } else {
                match pack_with(self@.packs, id.bytes@, 0) {
                    Some(i) => if self@.packs[i].body is None {
                        Some(i as usize)
                    } else {
                        None
                    },
                    None => None,
                }
            },
            self@.loose.contains_key(id.bytes@) ==> r is None,
            r matches Some(i) ==> {
                &&& i < self@.packs.len()
                &&& self@.packs[i as int].index.by_oid.contains_key(id.bytes@)
                &&& self@.packs[i as int].body is None
                &&& forall|j: int|
                    0 <= j < i ==> !(#[trigger] self@.packs[j]).index.by_oid.contains_key(id.bytes@)
            },
            !self@.loose.contains_key(id.bytes@) && r is None ==> forall|i: int|
                {
                    &&& 0 <= i < self@.packs.len()
                    &&& (#[trigger] self@.packs[i]).index.by_oid.contains_key(id.bytes@)
                    &&& forall|j: int|
                        0 <= j < i ==> !(#[trigger] self@.packs[j]).index.by_oid.contains_key(id.bytes@)
                } ==> self@.packs[i].body is Some,
    {
        proof {
            if !self@.loose.contains_key(id.bytes@) {
                lemma_first_pack(self@.packs, id.bytes@, 0);
            }
        }
        if self.loose.get(&id.bytes).is_some() {
            return None;
        }
        match self.find_pack(id) {
            Some(i) => if self.packs[i].body.is_none() {
                Some(i)
            } else {
                None
            },
            None => None,
        }
    }

    /// Git's name for an object.
    pub fn sha1_of(&self, id: ObjectId) -> (r: Result<Sha1, LedgeError>)
        ensures
            match (r, name_of(self@, id.bytes@)) {
                (Ok(name), Ok(n)) => name@ == n,
                (Err(e), Err(f)) => reports(e, f),
                _ => false,
            },
            !self@.loose.contains_key(id.bytes@) ==> (r matches Ok(name) ==> packs_name(
                self@.packs,
                name@,
            )),
    {
        if let Some(raw) = self.loose.get(&id.bytes) {
            return file_sha1(raw.as_slice());
        }
        let mut i: usize = 0;
        while i < self.packs.len()
            invariant
                i <= self.packs.len(),
                !self@.loose.contains_key(id.bytes@),
                name_pack(self@.packs, id.bytes@, 0) == name_pack(
                    self@.packs,
                    id.bytes@,
                    i as int,
                ),
            decreases self.packs.len() - i,
        {
            assert(self@.packs[i as int] == self.packs@[i as int]@);
            if let Some(name) = self.packs[i].index.sha1_of(id) {
                return Ok(name);
            }
            i += 1;
        }
        Err(LedgeError::NotFound(id))
    }

    /// The type of an object: 1 commit, 2 tree, 3 blob, 4 tag.
    pub fn git_type_of(&self, id: ObjectId) -> (r: Result<u8, LedgeError>)
        ensures
            outcome(r, type_of(self@, id.bytes@)),
            r is Ok <==> type_of(self@, id.bytes@) is Ok,
            r is Ok ==> r->Ok_0 == type_of(self@, id.bytes@)->Ok_0,
    {
        if let Some(raw) = self.loose.get(&id.bytes) {
            return file_type(raw.as_slice());
        }
        match self.find_pack(id) {
            Some(i) => match self.packs[i].index.git_type_of(id) {
                Some(t) => Ok(t),
                None => Err(LedgeError::NotFound(id)),
            },
            None => Err(LedgeError::NotFound(id)),
        }
    }

    /// The base of an object, where it is stored as a delta.
    pub fn delta_base_of(&self, id: ObjectId) -> (r: Result<Option<ObjectId>, LedgeError>)
        ensures
            match (r, base_in(self@, id.bytes@)) {
                (Ok(Some(x)), Ok(Some(y))) => x.bytes@ == y,
                (Ok(None), Ok(None)) => true,
                (Err(e), Err(f)) => reports(e, f),
                _ => false,
            },
    {
        if let Some(raw) = self.loose.get(&id.bytes) {
            return Ok(file_delta_base(raw.as_slice()));
        }
        match self.find_pack(id) {
            Some(i) => match &self.packs[i].body {
                Some(body) => self.packs[i].index.delta_base_of(body.as_slice(), id),
                None => Err(LedgeError::Unavailable),
            },
            None => Ok(None),
        }
    }

    /// Whether the store has an object.
    pub fn has(&self, id: ObjectId) -> (r: bool)
        ensures
            r == has_object(self@, id.bytes@),
            r <==> self@.loose.contains_key(id.bytes@) || exists|i: int|
                0 <= i < self@.packs.len() && (#[trigger] self@.packs[i]).index.by_oid.contains_key(
                    id.bytes@,
                ),
    {
        proof {
            has_loose_or_packed(self@, id.bytes@);
        }
        self.loose.get(&id.bytes).is_some() || self.find_pack(id).is_some()
    }

    /// Removes the loose file of an object. A packed copy stays.
    pub fn delete(&mut self, id: ObjectId)
        ensures
            final(self).kept_names() == old(self).kept_names(),
            final(self)@ == (StoreView {
                loose: old(self)@.loose.remove(id.bytes@),
                ..old(self)@
            }),
    {
        proof {
            use_type_invariant(&*self);
        }
        let ghost before = self.loose@;
        let mut names: Option<Arc<KeyTable<20, ObjectId>>> = None;
        std::mem::swap(&mut names, &mut self.names);
        let mut loose: KeyTable<32, Vec<u8>> = KeyTable::new();
        std::mem::swap(&mut loose, &mut self.loose);
        loose.remove(&id.bytes);
        self.loose = loose;
        assert(self.loose@.map_values(|v: Vec<u8>| v@) =~= before.map_values(
            |v: Vec<u8>| v@,
        ).remove(id.bytes@));
        self.names = names;
    }

    /// The content of an object that is reached through `depth` deltas.
    fn read_depth(&self, id: ObjectId, depth: usize) -> (r: Result<Vec<u8>, LedgeError>)
        requires
            depth <= MAX_CHAIN,
        ensures
            bytes_outcome(r, content_at(self@, id.bytes@, depth as nat)),
        decreases MAX_CHAIN - depth,
    {
        let raw = match self.loose.get(&id.bytes) {
            Some(raw) => raw,
            None => {
                return match self.find_pack(id) {
                    Some(i) => match &self.packs[i].body {
                        Some(body) => match self.packs[i].index.read(body.as_slice(), id) {
                            Ok(Some(content)) => Ok(content),
                            Ok(None) => Err(LedgeError::NotFound(id)),
                            Err(e) => Err(e),
                        },
                        None => Err(LedgeError::Unavailable),
                    },
                    None => Err(LedgeError::NotFound(id)),
                };
            },
        };
        if raw.len() < HEADER_LEN {
            return Err(LedgeError::Corruption(Corruption::ObjectHeader));
        }
        if raw[21] == ENC_RAW {
            return Ok(copy_range(raw.as_slice(), 24, raw.len()));
        }
        if raw[21] == ENC_ZLIB {
            return expand_body(vstd::slice::slice_subrange(raw.as_slice(), 24, raw.len()));
        }
        if raw[21] != ENC_DELTA {
            return Err(LedgeError::Corruption(Corruption::ObjectEncoding));
        }
        if depth >= MAX_CHAIN {
            return Err(LedgeError::Corruption(Corruption::ChainTooDeep));
        }
        if raw.len() < DELTA_HEADER_LEN {
            return Err(LedgeError::Corruption(Corruption::ObjectHeader));
        }
        let base_id = id_at(raw.as_slice(), 24);
        let base = match self.read_depth(base_id, depth + 1) {
            Ok(base) => base,
            Err(e) => {
                return Err(e);
            },
        };
        let d = match expand_body(vstd::slice::slice_subrange(raw.as_slice(), 56, raw.len())) {
            Ok(d) => d,
            Err(e) => {
                return Err(e);
            },
        };
        match apply_delta(base.as_slice(), d.as_slice()) {
            Ok(content) => Ok(content),
            Err(c) => Err(LedgeError::Corruption(c)),
        }
    }

    /// The content of an object.
    pub fn read(&self, id: ObjectId) -> (r: Result<Vec<u8>, LedgeError>)
        ensures
            bytes_outcome(r, content_of(self@, id.bytes@)),
            r is Ok <==> content_of(self@, id.bytes@) is Ok,
            r is Ok ==> r->Ok_0@ == content_of(self@, id.bytes@)->Ok_0,
            r matches Err(LedgeError::NotFound(k)) ==> content_of(self@, id.bytes@) == Err::<
                Seq<u8>,
                ReadFail,
            >(ReadFail::NotFound(k.bytes@)),
            r matches Err(LedgeError::Corruption(c)) ==> content_of(self@, id.bytes@) == Err::<
                Seq<u8>,
                ReadFail,
            >(ReadFail::Corrupt(c)),
            r == Err::<Vec<u8>, LedgeError>(LedgeError::Unavailable) <==> content_of(self@, id.bytes@) == Err::<
                Seq<u8>,
                ReadFail,
            >(ReadFail::Unavailable),
    {
        self.read_depth(id, 0)
    }

    /// The length of the chain of deltas from an object, at most [`MAX_CHAIN`].
    pub fn chain_depth(&self, id: ObjectId) -> (r: Result<usize, LedgeError>)
        ensures
            match (r, chain_from(self@, id.bytes@, MAX_CHAIN as nat)) {
                (Ok(x), Ok(y)) => x == y && x <= MAX_CHAIN,
                (Err(e), Err(f)) => reports(e, f),
                _ => false,
            },
            r is Ok <==> chain_from(self@, id.bytes@, 50) is Ok,
            r is Ok ==> r->Ok_0 == chain_from(self@, id.bytes@, 50)->Ok_0 && r->Ok_0 <= 50,
    {
        let mut d: usize = 0;
        let mut at: ObjectId = id;
        while d < MAX_CHAIN
            invariant
                d <= MAX_CHAIN,
                match chain_from(self@, at.bytes@, (MAX_CHAIN - d) as nat) {
                    Ok(n) => chain_from(self@, id.bytes@, MAX_CHAIN as nat) == Ok::<nat, ReadFail>(
                        n + d as nat,
                    ),
                    Err(f) => chain_from(self@, id.bytes@, MAX_CHAIN as nat) == Err::<
                        nat,
                        ReadFail,
                    >(f),
                },
            decreases MAX_CHAIN - d,
        {
            match self.delta_base_of(at) {
                Ok(Some(base)) => {
                    d += 1;
                    at = base;
                },
                Ok(None) => {
                    return Ok(d);
                },
                Err(e) => {
                    return Err(e);
                },
            }
        }
        Ok(d)
    }

    /// Whether the chain of deltas from an object passes `target`.
    pub fn delta_reaches(&self, from: ObjectId, target: ObjectId) -> (r: Result<bool, LedgeError>)
        ensures
            outcome(r, chain_reaches(self@, from.bytes@, target.bytes@, MAX_CHAIN as nat)),
            r is Ok <==> chain_reaches(self@, from.bytes@, target.bytes@, 50) is Ok,
            r is Ok ==> r->Ok_0 == chain_reaches(self@, from.bytes@, target.bytes@, 50)->Ok_0,
    {
        let mut d: usize = 0;
        let mut at: ObjectId = from;
        while d < MAX_CHAIN
            invariant
                d <= MAX_CHAIN,
                chain_reaches(self@, from.bytes@, target.bytes@, MAX_CHAIN as nat)
                    == chain_reaches(
                    self@,
                    at.bytes@,
                    target.bytes@,
                    (MAX_CHAIN - d) as nat,
                ),
            decreases MAX_CHAIN - d,
        {
            match self.delta_base_of(at) {
                Ok(Some(base)) => {
                    if bytes_equal(base.bytes.as_slice(), target.bytes.as_slice()) {
                        return Ok(true);
                    }
                    d += 1;
                    at = base;
                },
                Ok(None) => {
                    return Ok(false);
                },
                Err(e) => {
                    return Err(e);
                },
            }
        }
        Ok(false)
    }

    /// Stores an object of the given type, under the address of its content.
    pub fn write_git_object(&mut self, git_type: u8, content: &[u8]) -> (r: Result<
        ObjectId,
        LedgeError,
    >)
        ensures
            match r {
                Ok(id) => {
                    &&& object_file::known_type(git_type)
                    &&& id.bytes@ == digest::blake3_sum(content@)
                    &&& final(self)@ == written_object(old(self)@, git_type, content@)
                    &&& final(self).kept_names() is None
                    &&& content.len() <= object_file::MAX_DECOMPRESSED ==> content_of(
                        final(self)@,
                        id.bytes@,
                    ) == Ok::<Seq<u8>, ReadFail>(content@)
                    &&& name_of(final(self)@, id.bytes@) == Ok::<Seq<u8>, ReadFail>(
                        object_file::git_name(git_type, content@),
                    )
                    &&& type_of(final(self)@, id.bytes@) == Ok::<u8, ReadFail>(git_type)
                },
                Err(e) => {
                    &&& !object_file::known_type(git_type)
                    &&& e == LedgeError::Corruption(Corruption::ObjectType)
                    &&& *final(self) == *old(self)
                },
            },
            r is Ok <==> 1 <= git_type <= 4,
            r matches Ok(id) ==> {
                &&& final(self)@.packs == old(self)@.packs
                &&& final(self)@.loose.remove(id.bytes@) == old(self)@.loose.remove(id.bytes@)
                &&& final(self)@.loose.contains_key(id.bytes@)
            },
    {
        match encode_object(git_type, content) {
            Ok((id, file)) => {
                self.put_file(id, file);
                proof {
                    lemma_image_reads(self@, id.bytes@, git_type, content@);
                }
                Ok(id)
            },
            Err(e) => Err(e),
        }
    }

    /// Stores a blob.
    pub fn write(&mut self, content: &[u8]) -> (r: Result<ObjectId, LedgeError>)
        ensures
            r matches Ok(id) && id.bytes@ == digest::blake3_sum(content@),
            final(self)@ == written_object(old(self)@, 3, content@),
            final(self).kept_names() is None,
            r matches Ok(id) && (content.len() <= object_file::MAX_DECOMPRESSED ==> content_of(
                final(self)@,
                id.bytes@,
            ) == Ok::<Seq<u8>, ReadFail>(content@)),
    {
        self.write_git_object(3, content)
    }
}

/// What was stored is read back.
proof fn lemma_image_reads(s: StoreView, id: Seq<u8>, git_type: u8, content: Seq<u8>)
    requires
        s.loose.contains_key(id),
        s.loose[id] == object_file::object_image(git_type, content),
        object_file::git_name(git_type, content).len() == 20,
        zlib::restorable(content),
    ensures
        forall|depth: nat|
            content.len() <= object_file::MAX_DECOMPRESSED ==> #[trigger] content_at(s, id, depth)
                == Ok::<Seq<u8>, ReadFail>(content),
        name_of(s, id) == Ok::<Seq<u8>, ReadFail>(object_file::git_name(git_type, content)),
        type_of(s, id) == Ok::<u8, ReadFail>(git_type),
        base_in(s, id) == Ok::<Option<Seq<u8>>, ReadFail>(None),
{
    let name = object_file::git_name(git_type, content);
    let z = zlib::deflated(content);
    if z.len() < content.len() {
        object_file::header_reads_back(name, git_type, ENC_ZLIB, z);
        object_file::expanded_restores(content);
    } else {
        object_file::header_reads_back(name, git_type, ENC_RAW, content);
    }
}

/// The store after an object was stored.
pub open spec fn written_object(s: StoreView, git_type: u8, content: Seq<u8>) -> StoreView {
    StoreView {
        loose: s.loose.insert(
            digest::blake3_sum(content),
            object_file::object_image(git_type, content),
        ),
        ..s
    }
}

// ---------------------------------------------------------------------------
// Storing an object as a delta
// ---------------------------------------------------------------------------

/// The file with which `target` is stored as a delta against `base`; none where it
/// is to stay as it is. It stays where the two are one object, where the chain
/// would become too long or a circle, where the delta could not be expanded again,
/// and where the file would not become shorter.
pub open spec fn deltified(s: StoreView, target: Seq<u8>, base: Seq<u8>) -> Result<
    Option<Seq<u8>>,
    ReadFail,
> {
    if target == base {
        Ok(None)
    } else {
        match (
            chain_from(s, base, MAX_CHAIN as nat),
            chain_reaches(s, base, target, MAX_CHAIN as nat),
        ) {
            (Err(f), _) => Err(f),
            (Ok(n), reaches) => if n >= MAX_CHAIN - 1 {
                Ok(None)
            } else {
                match reaches {
                    Err(f) => Err(f),
                    Ok(true) => Ok(None),
                    Ok(false) => delta_file(s, target, base),
                }
            },
        }
    }
}

/// The base of a loose object that is stored as a delta.
pub open spec fn loose_base(s: StoreView, id: Seq<u8>) -> Option<Seq<u8>> {
    if s.loose.contains_key(id) {
        object_file::file_base(s.loose[id])
    } else {
        None
    }
}

/// How many deltas between loose objects lead from `id` to `target`, where at most
/// `fuel` do.
pub open spec fn hops_to(s: StoreView, id: Seq<u8>, target: Seq<u8>, fuel: nat) -> Option<nat>
    decreases fuel,
{
    if id == target {
        Some(0)
    } else if fuel == 0 {
        None
    } else {
        match loose_base(s, id) {
            Some(base) => match hops_to(s, base, target, (fuel - 1) as nat) {
                Some(n) => Some(n + 1),
                None => None,
            },
            None => None,
        }
    }
}

/// An object that stands on `target` would be reached through too many deltas, were
/// the chain of `target` itself `height` deltas long.
pub open spec fn outgrown(s: StoreView, target: Seq<u8>, height: nat) -> bool {
    exists|id: Seq<u8>|
        s.loose.contains_key(id) && ((#[trigger] hops_to(s, id, target, MAX_CHAIN as nat)) matches
            Some(n) && n + height > MAX_CHAIN)
}

/// The file of the delta, where nothing forbids it.
pub open spec fn delta_file(s: StoreView, target: Seq<u8>, base: Seq<u8>) -> Result<
    Option<Seq<u8>>,
    ReadFail,
> {
    match (content_of(s, target), content_of(s, base), type_of(s, target), name_of(s, target)) {
        (Err(f), _, _, _) => Err(f),
        (_, Err(f), _, _) => Err(f),
        (_, _, Err(f), _) => Err(f),
        (_, _, _, Err(f)) => Err(f),
        (Ok(t), Ok(b), Ok(git_type), Ok(name)) => {
            let d = delta::delta_of(b, t);
            let file = object_file::delta_image(name, git_type, base, d);
            if digest::blake3_sum(t) != target {
                Err(ReadFail::Corrupt(Corruption::DeltaMismatch))
            } else if d.len() > object_file::MAX_DECOMPRESSED || (s.loose.contains_key(target)
                && file.len() >= s.loose[target].len()) {
                Ok(None)
            } else if outgrown(s, target, chain_from(s, base, MAX_CHAIN as nat)->Ok_0 + 1) {
                Ok(None)
            } else {
                Ok(Some(file))
            }
        },
    }
}

/// The store after the file of an object was replaced.
pub open spec fn with_file(s: StoreView, id: Seq<u8>, file: Seq<u8>) -> StoreView {
    StoreView { loose: s.loose.insert(id, file), ..s }
}

/// An object whose chain does not pass `target` stays as it is when the file of
/// `target` is replaced, also where it is reached through more deltas than before.
pub proof fn others_keep_content(
    s: StoreView,
    target: Seq<u8>,
    file: Seq<u8>,
    id: Seq<u8>,
    fuel: nat,
    n: nat,
    depth: nat,
    depth2: nat,
)
    requires
        id != target,
        chain_reaches(s, id, target, fuel) == Ok::<bool, ReadFail>(false),
        chain_from(s, id, fuel) == Ok::<nat, ReadFail>(n),
        n < fuel,
        content_at(s, id, depth) is Ok,
        depth2 + n <= MAX_CHAIN,
    ensures
        content_at(with_file(s, target, file), id, depth2) == content_at(s, id, depth),
    decreases fuel,
{
    let s2 = with_file(s, target, file);
    if s.loose.contains_key(id) {
        let raw = s.loose[id];
        assert(s2.loose[id] == raw);
        if raw[21] == ENC_DELTA {
            let base = raw.subrange(24, 56);
            assert(object_file::file_base(raw) == Some(base));
            others_keep_content(
                s,
                target,
                file,
                base,
                (fuel - 1) as nat,
                (n - 1) as nat,
                depth + 1,
                depth2 + 1,
            );
        }
    }
}

proof fn lemma_delta_reads(
    s: StoreView,
    target: Seq<u8>,
    base: Seq<u8>,
    name: Seq<u8>,
    git_type: u8,
    t: Seq<u8>,
    b: Seq<u8>,
)
    requires
        target != base,
        base.len() == 32,
        name.len() == 20,
        chain_reaches(s, base, target, MAX_CHAIN as nat) == Ok::<bool, ReadFail>(false),
        chain_from(s, base, MAX_CHAIN as nat) matches Ok(n) && n < MAX_CHAIN - 1,
        content_of(s, base) == Ok::<Seq<u8>, ReadFail>(b),
        delta::delta_of(b, t).len() <= object_file::MAX_DECOMPRESSED,
        zlib::restorable(delta::delta_of(b, t)),
        b.len() <= u64::MAX,
        t.len() <= u64::MAX,
    ensures
        content_of(
            with_file(
                s,
                target,
                object_file::delta_image(name, git_type, base, delta::delta_of(b, t)),
            ),
            target,
        ) == Ok::<Seq<u8>, ReadFail>(t),
{
    let d = delta::delta_of(b, t);
    let z = zlib::deflated(d);
    let file = object_file::delta_image(name, git_type, base, d);
    let s2 = with_file(s, target, file);
    object_file::header_reads_back(name, git_type, ENC_DELTA, base + z);
    assert(file.subrange(24, 56) =~= base);
    assert(file.subrange(56, file.len() as int) =~= z);
    object_file::expanded_restores(d);
    delta::delta_roundtrip(b, t);
    let n = chain_from(s, base, MAX_CHAIN as nat)->Ok_0;
    others_keep_content(s, target, file, base, MAX_CHAIN as nat, n, 0, 1);
    assert(content_at(s2, base, 1) == Ok::<Seq<u8>, ReadFail>(b));
}

/// Reading through more or fewer deltas gives the same content, unless there are too
/// many.
pub proof fn depth_changes_no_content(s: StoreView, id: Seq<u8>, depth: nat, depth2: nat)
    requires
        content_at(s, id, depth) is Ok,
    ensures
        content_at(s, id, depth2) == content_at(s, id, depth) || content_at(s, id, depth2) == Err::<
            Seq<u8>,
            ReadFail,
        >(ReadFail::Corrupt(Corruption::ChainTooDeep)),
    decreases MAX_CHAIN + 1 - depth,
{
    if s.loose.contains_key(id) && s.loose[id][21] == ENC_DELTA {
        depth_changes_no_content(s, s.loose[id].subrange(24, 56), depth + 1, depth2 + 1);
    }
}

/// After `target` was stored as a delta against `base`, everything that could be read
/// has the same content.
proof fn lemma_deltified_keeps(
    s: StoreView,
    target: Seq<u8>,
    base: Seq<u8>,
    name: Seq<u8>,
    git_type: u8,
    t: Seq<u8>,
    b: Seq<u8>,
    id: Seq<u8>,
    depth: nat,
)
    requires
        target != base,
        base.len() == 32,
        name.len() == 20,
        chain_reaches(s, base, target, MAX_CHAIN as nat) == Ok::<bool, ReadFail>(false),
        chain_from(s, base, MAX_CHAIN as nat) matches Ok(n) && n < MAX_CHAIN - 1,
        content_of(s, base) == Ok::<Seq<u8>, ReadFail>(b),
        content_of(s, target) == Ok::<Seq<u8>, ReadFail>(t),
        delta::delta_of(b, t).len() <= object_file::MAX_DECOMPRESSED,
        zlib::restorable(delta::delta_of(b, t)),
        b.len() <= u64::MAX,
        t.len() <= u64::MAX,
        depth <= MAX_CHAIN,
        content_at(s, id, depth) is Ok,
        hops_to(s, id, target, (MAX_CHAIN - depth) as nat) matches Some(n) ==> depth + n
            + chain_from(s, base, MAX_CHAIN as nat)->Ok_0 + 1 <= MAX_CHAIN,
    ensures
        ({
            let s2 = with_file(
                s,
                target,
                object_file::delta_image(name, git_type, base, delta::delta_of(b, t)),
            );
            content_at(s2, id, depth) == content_at(s, id, depth)
        }),
    decreases MAX_CHAIN + 1 - depth,
{
    let d = delta::delta_of(b, t);
    let z = zlib::deflated(d);
    let file = object_file::delta_image(name, git_type, base, d);
    let s2 = with_file(s, target, file);
    if id == target {
        let n = chain_from(s, base, MAX_CHAIN as nat)->Ok_0;
        depth_changes_no_content(s, target, 0, depth);
        object_file::header_reads_back(name, git_type, ENC_DELTA, base + z);
        assert(file.subrange(24, 56) =~= base);
        assert(file.subrange(56, file.len() as int) =~= z);
        object_file::expanded_restores(d);
        delta::delta_roundtrip(b, t);
        others_keep_content(s, target, file, base, MAX_CHAIN as nat, n, 0, depth + 1);
    } else if s.loose.contains_key(id) {
        assert(s2.loose[id] == s.loose[id]);
        if s.loose[id][21] == ENC_DELTA {
            let next = s.loose[id].subrange(24, 56);
            assert(loose_base(s, id) == Some(next));
            lemma_deltified_keeps(s, target, base, name, git_type, t, b, next, depth + 1);
        }
    }
}

/// An index of names stays right when the file of an object is replaced by one with
/// the same name.
proof fn lemma_same_name(s: StoreView, id: Seq<u8>, file: Seq<u8>, v: Map<Seq<u8>, ObjectId>)
    requires
        indexes_names(v, s),
        file.len() >= HEADER_LEN,
        s.loose.contains_key(id) ==> s.loose[id].len() >= HEADER_LEN && s.loose[id].subrange(0, 20)
            == file.subrange(0, 20),
        !s.loose.contains_key(id) ==> packs_name(s.packs, file.subrange(0, 20)),
    ensures
        indexes_names(v, with_file(s, id, file)),
{
    let s2 = with_file(s, id, file);
    assert forall|k: Seq<u8>| #[trigger] v.contains_key(k) implies (match last_named(
        s2.packs,
        k,
        s2.packs.len() as int,
    ) {
        Some(i) => v[k] == s2.packs[i].index.sha1_to_oid[k],
        None => loose_named(s2, v[k].bytes@, k),
    }) by {
        if last_named(s.packs, k, s.packs.len() as int) is None {
            assert(loose_named(s, v[k].bytes@, k));
        }
    }
    assert forall|x: Seq<u8>| #[trigger]
        s2.loose.contains_key(x) && s2.loose[x].len() >= HEADER_LEN implies v.contains_key(
        s2.loose[x].subrange(0, 20),
    ) by {
        if x == id && !s.loose.contains_key(id) {
            let i = choose|i: int|
                0 <= i < s.packs.len() && (#[trigger] s.packs[i]).index.sha1_to_oid.contains_key(
                    file.subrange(0, 20),
                );
            assert(s.packs[i].index.sha1_to_oid.contains_key(file.subrange(0, 20)));
        } else if x != id {
            assert(s.loose.contains_key(x));
        } else {
            assert(s.loose.contains_key(id));
        }
    }
}

impl DiskObjectStore {
    /// How many deltas between loose objects lead from `id` to `target`.
    fn hops(&self, id: ObjectId, target: ObjectId) -> (r: Option<usize>)
        ensures
            match (r, hops_to(self@, id.bytes@, target.bytes@, MAX_CHAIN as nat)) {
                (Some(n), Some(m)) => n == m && n <= MAX_CHAIN,
                (None, None) => true,
                _ => false,
            },
    {
        let mut n: usize = 0;
        let mut at: ObjectId = id;
        while n <= MAX_CHAIN
            invariant
                n <= MAX_CHAIN + 1,
                n == MAX_CHAIN + 1 ==> hops_to(
                    self@,
                    id.bytes@,
                    target.bytes@,
                    MAX_CHAIN as nat,
                ) is None,
                n <= MAX_CHAIN ==> (match hops_to(
                    self@,
                    at.bytes@,
                    target.bytes@,
                    (MAX_CHAIN - n) as nat,
                ) {
                    Some(m) => hops_to(self@, id.bytes@, target.bytes@, MAX_CHAIN as nat) == Some(
                        m + n as nat,
                    ),
                    None => hops_to(self@, id.bytes@, target.bytes@, MAX_CHAIN as nat) is None,
                }),
            decreases MAX_CHAIN + 1 - n,
        {
            if bytes_equal(at.bytes.as_slice(), target.bytes.as_slice()) {
                return Some(n);
            }
            match self.loose.get(&at.bytes) {
                Some(raw) => match file_delta_base(raw.as_slice()) {
                    Some(base) => {
                        at = base;
                        n += 1;
                    },
                    None => {
                        return None;
                    },
                },
                None => {
                    return None;
                },
            }
        }
        None
    }

    /// Whether an object that stands on `target` would be reached through too many
    /// deltas, were the chain of `target` itself `height` deltas long.
    fn outgrows(&self, target: ObjectId, height: usize) -> (r: bool)
        requires
            height <= MAX_CHAIN,
        ensures
            r == outgrown(self@, target.bytes@, height as nat),
    {
        let n: usize = self.loose.len();
        let ghost rows = self.loose.rows();
        let mut i: usize = 0;
        while i < n
            invariant
                i <= n == rows.len(),
                rows == self.loose.rows(),
                keytable::keys_ascending(rows),
                keytable::row_map(rows) == self.loose@,
                height <= MAX_CHAIN,
                forall|j: int|
                    0 <= j < i ==> !(hops_to(
                        self@,
                        (#[trigger] rows[j]).0@,
                        target.bytes@,
                        MAX_CHAIN as nat,
                    ) matches Some(m) && m + height > MAX_CHAIN),
            decreases n - i,
        {
            let (key, _) = self.loose.row(i);
            proof {
                keytable::lemma_row(rows, i as int);
            }
            if let Some(m) = self.hops(ObjectId::from_bytes(*key), target) {
                if m + height > MAX_CHAIN {
                    assert(self@.loose.contains_key(key@));
                    return true;
                }
            }
            i += 1;
        }
        proof {
            assert forall|id: Seq<u8>| self@.loose.contains_key(id) implies !((
            #[trigger] hops_to(self@, id, target.bytes@, MAX_CHAIN as nat)) matches Some(m) && m
                + height > MAX_CHAIN) by {
                let j = choose|j: int| 0 <= j < rows.len() && (#[trigger] rows[j]).0@ == id;
                keytable::lemma_row(rows, j);
            }
        }
        false
    }
}

impl DiskObjectStore {
    /// Stores `target` as a delta against `base`, and says whether it was done. The
    /// content of every object stays the same.
    pub fn deltify(&mut self, target: ObjectId, base: ObjectId) -> (r: Result<bool, LedgeError>)
        ensures
            match (r, deltified(old(self)@, target.bytes@, base.bytes@)) {
                (Ok(true), Ok(Some(file))) => final(self)@ == with_file(
                    old(self)@,
                    target.bytes@,
                    file,
                ),
                (Ok(false), Ok(None)) => *final(self) == *old(self),
                (Err(e), Err(f)) => reports(e, f) && *final(self) == *old(self),
                _ => false,
            },
            r == Ok::<bool, LedgeError>(true) ==> content_of(old(self)@, target.bytes@) is Ok,
            forall|id: Seq<u8>|
                content_of(old(self)@, id) is Ok ==> #[trigger] content_of(final(self)@, id)
                    == content_of(old(self)@, id),
            final(self).kept_names() == old(self).kept_names(),
            old(self).names_fresh() ==> final(self).names_fresh(),
            final(self)@.packs == old(self)@.packs,
            final(self)@.loose.remove(target.bytes@) == old(self)@.loose.remove(target.bytes@),
            r == Ok::<bool, LedgeError>(true) ==> final(self)@.loose.contains_key(target.bytes@),
            r != Ok::<bool, LedgeError>(true) ==> *final(self) == *old(self),
    {
        if bytes_equal(target.bytes.as_slice(), base.bytes.as_slice()) {
            return Ok(false);
        }
        let below: usize = match self.chain_depth(base) {
            Ok(n) => n,
            Err(e) => {
                return Err(e);
            },
        };
        if below >= MAX_CHAIN - 1 {
            return Ok(false);
        }
        match self.delta_reaches(base, target) {
            Ok(true) => {
                return Ok(false);
            },
            Ok(false) => {},
            Err(e) => {
                return Err(e);
            },
        }
        let target_content = match self.read_depth(target, 0) {
            Ok(c) => c,
            Err(e) => {
                return Err(e);
            },
        };
        let base_content = match self.read_depth(base, 0) {
            Ok(c) => c,
            Err(e) => {
                return Err(e);
            },
        };
        let git_type: u8 = match self.git_type_of(target) {
            Ok(t) => t,
            Err(e) => {
                return Err(e);
            },
        };
        let name = match self.sha1_of(target) {
            Ok(n) => n,
            Err(e) => {
                return Err(e);
            },
        };
        let address = content_id(target_content.as_slice());
        if !bytes_equal(address.bytes.as_slice(), target.bytes.as_slice()) {
            return Err(LedgeError::Corruption(Corruption::DeltaMismatch));
        }
        let d = encode_delta(base_content.as_slice(), target_content.as_slice());
        if d.len() as u64 > object_file::MAX_DECOMPRESSED {
            return Ok(false);
        }
        let file = encode_delta_object(&name, git_type, base, d.as_slice());
        if let Some(current) = self.loose.get(&target.bytes) {
            if file.len() >= current.len() {
                return Ok(false);
            }
        }
        if self.outgrows(target, below + 1) {
            return Ok(false);
        }
        proof {
            use_type_invariant(&*self);
            assert(base_content.len() <= u64::MAX && target_content.len() <= u64::MAX);
            let s0 = self@;
            let s2 = with_file(s0, target.bytes@, file@);
            assert forall|id: Seq<u8>| content_of(s0, id) is Ok implies #[trigger] content_of(
                s2,
                id,
            ) == content_of(s0, id) by {
                if hops_to(s0, id, target.bytes@, MAX_CHAIN as nat) is Some {
                    if id == target.bytes@ {
                        assert(below + 1 <= MAX_CHAIN);
                    } else {
                        assert(s0.loose.contains_key(id));
                    }
                }
                lemma_deltified_keeps(
                    s0,
                    target.bytes@,
                    base.bytes@,
                    name@,
                    git_type,
                    target_content@,
                    base_content@,
                    id,
                    0,
                );
            }
            object_file::header_reads_back(
                name@,
                git_type,
                ENC_DELTA,
                base.bytes@ + zlib::deflated(d@),
            );
            assert(file@.subrange(0, 20) == name@);
            if s0.loose.contains_key(target.bytes@) {
                assert(s0.loose[target.bytes@].len() >= HEADER_LEN);
                assert(s0.loose[target.bytes@].subrange(0, 20) == name@);
            }
            if let Some(index) = self.kept_names() {
                assert(covers_names(index, s0));
                if !s0.loose.contains_key(target.bytes@) {
                    let i = choose|i: int|
                        0 <= i < s0.packs.len() && (
                        #[trigger] s0.packs[i]).index.sha1_to_oid.contains_key(name@);
                    assert(s0.packs[i].index.sha1_to_oid.contains_key(name@));
                }
                if indexes_names(index, s0) {
                    lemma_same_name(s0, target.bytes@, file@, index);
                }
            }
        }
        self.replace_file(target, file);
        Ok(true)
    }

    /// Stores blobs, and gives their addresses in order.
    pub fn write_batch(&mut self, contents: &Vec<Vec<u8>>) -> (r: Vec<ObjectId>)
        ensures
            r.len() == contents.len(),
            forall|i: int|
                0 <= i < r.len() ==> (#[trigger] r@[i]).bytes@ == digest::blake3_sum(
                    contents@[i]@,
                ),
            final(self)@ == written_blobs(old(self)@, contents@),
            contents.len() == 0 ==> *final(self) == *old(self),
            contents.len() > 0 ==> final(self).kept_names() is None,
    {
        let ghost s0 = self@;
        let mut ids: Vec<ObjectId> = Vec::new();
        let mut i: usize = 0;
        assert(contents@.subrange(0, 0) =~= Seq::<Vec<u8>>::empty());
        while i < contents.len()
            invariant
                i <= contents.len(),
                ids.len() == i,
                forall|j: int|
                    0 <= j < i ==> (#[trigger] ids@[j]).bytes@ == digest::blake3_sum(
                        contents@[j]@,
                    ),
                self@ == written_blobs(s0, contents@.subrange(0, i as int)),
                i == 0 ==> *self == *old(self),
                i > 0 ==> self.kept_names() is None,
            decreases contents.len() - i,
        {
            let ghost now = contents@.subrange(0, i + 1);
            assert(now.drop_last() =~= contents@.subrange(0, i as int));
            if let Ok(id) = self.write(contents[i].as_slice()) {
                ids.push(id);
            }
            i += 1;
        }
        assert(contents@.subrange(0, i as int) =~= contents@);
        ids
    }
}

/// The store after blobs were stored, one after the other.
pub open spec fn written_blobs(s: StoreView, contents: Seq<Vec<u8>>) -> StoreView
    decreases contents.len(),
{
    if contents.len() == 0 {
        s
    } else {
        written_object(written_blobs(s, contents.drop_last()), 3, contents.last()@)
    }
}

// ---------------------------------------------------------------------------
// Listing
// ---------------------------------------------------------------------------

/// One of the packs has the object.
pub open spec fn in_packs(packs: Seq<PackState>, id: Seq<u8>) -> bool {
    exists|i: int|
        0 <= i < packs.len() && (#[trigger] packs[i]).index.by_oid.contains_key(id)
}

proof fn lemma_pack_with(packs: Seq<PackState>, id: Seq<u8>, i: int)
    requires
        0 <= i <= packs.len(),
    ensures
        match pack_with(packs, id, i) {
            Some(j) => i <= j < packs.len() && packs[j].index.by_oid.contains_key(id),
            None => forall|j: int|
                i <= j < packs.len() ==> !(#[trigger] packs[j]).index.by_oid.contains_key(id),
        },
    decreases packs.len() - i,
{
    if i < packs.len() && !packs[i].index.by_oid.contains_key(id) {
        lemma_pack_with(packs, id, i + 1);
    }
}

/// The store has what is loose and what is packed.
pub proof fn has_loose_or_packed(s: StoreView, id: Seq<u8>)
    ensures
        has_object(s, id) == (s.loose.contains_key(id) || in_packs(s.packs, id)),
{
    lemma_pack_with(s.packs, id, 0);
}

/// The addresses of all objects.
pub open spec fn all_ids(s: StoreView) -> Set<Seq<u8>> {
    Set::new(|id: Seq<u8>| has_object(s, id))
}

/// `v` names an object for each name that a loose file or a pack has. The name of a
/// packed object leads to the last pack that has it, any other to a loose file with
/// that name.
pub open spec fn indexes_names(v: Map<Seq<u8>, ObjectId>, s: StoreView) -> bool {
    &&& forall|k: Seq<u8>| #[trigger]
        v.contains_key(k) ==> (match last_named(s.packs, k, s.packs.len() as int) {
            Some(i) => v[k] == s.packs[i].index.sha1_to_oid[k],
            None => loose_named(s, v[k].bytes@, k),
        })
    &&& forall|k: Seq<u8>, i: int|
        0 <= i < s.packs.len() && (#[trigger] s.packs[i]).index.sha1_to_oid.contains_key(k)
            ==> #[trigger] v.contains_key(k)
    &&& forall|id: Seq<u8>| #[trigger]
        s.loose.contains_key(id) && s.loose[id].len() >= HEADER_LEN ==> v.contains_key(
            s.loose[id].subrange(0, 20),
        )
}

/// `v` has every name that a loose file or a pack has, and leads the name of a packed
/// object to the last pack that has it.
pub open spec fn covers_names(v: Map<Seq<u8>, ObjectId>, s: StoreView) -> bool {
    &&& forall|k: Seq<u8>| #[trigger]
        v.contains_key(k) ==> (last_named(s.packs, k, s.packs.len() as int) matches Some(i)
            ==> v[k] == s.packs[i].index.sha1_to_oid[k])
    &&& forall|k: Seq<u8>, i: int|
        0 <= i < s.packs.len() && (#[trigger] s.packs[i]).index.sha1_to_oid.contains_key(k)
            ==> #[trigger] v.contains_key(k)
    &&& forall|id: Seq<u8>| #[trigger]
        s.loose.contains_key(id) && s.loose[id].len() >= HEADER_LEN ==> v.contains_key(
            s.loose[id].subrange(0, 20),
        )
}

proof fn lemma_covers_last(v: Map<Seq<u8>, ObjectId>, s: StoreView)
    requires
        covers_names(v, s),
    ensures
        forall|i: int, k: Seq<u8>|
            0 <= i < s.packs.len() && #[trigger] s.packs[i].index.sha1_to_oid.contains_key(k) && (
            forall|j: int|
                i < j < s.packs.len() ==> !(#[trigger] s.packs[j]).index.sha1_to_oid.contains_key(
                    k,
                )) ==> v.contains_key(k) && v[k] == s.packs[i].index.sha1_to_oid[k],
{
    assert forall|i: int, k: Seq<u8>|
        0 <= i < s.packs.len() && #[trigger] s.packs[i].index.sha1_to_oid.contains_key(k) && (
        forall|j: int|
            i < j < s.packs.len() ==> !(#[trigger] s.packs[j]).index.sha1_to_oid.contains_key(
                k,
            )) implies v.contains_key(k) && v[k] == s.packs[i].index.sha1_to_oid[k] by {
        crate::disk_laws::last_named_is_last(s.packs, k, s.packs.len() as int);
        let l = last_named(s.packs, k, s.packs.len() as int);
        assert(s.packs[i].index.sha1_to_oid.contains_key(k));
        assert(l == Some(i));
    }
}

/// The loose file of `id` has a whole header with the name `k`.
pub open spec fn loose_named(s: StoreView, id: Seq<u8>, k: Seq<u8>) -> bool {
    s.loose.contains_key(id) && s.loose[id].len() >= HEADER_LEN && s.loose[id].subrange(0, 20) == k
}

/// The last pack before `n` with an object of the name `k`.
pub open spec fn last_named(packs: Seq<PackState>, k: Seq<u8>, n: int) -> Option<int>
    decreases n,
{
    if n <= 0 {
        None
    } else if packs[n - 1].index.sha1_to_oid.contains_key(k) {
        Some(n - 1)
    } else {
        last_named(packs, k, n - 1)
    }
}

/// The addresses of packed objects.
spec fn packed_ids(packs: Seq<StoredPack>) -> Set<Seq<u8>>
    decreases packs.len(),
{
    if packs.len() == 0 {
        Set::empty()
    } else {
        packed_ids(packs.drop_last()).union(packs.last().index@.by_oid.dom())
    }
}

proof fn lemma_packed_ids(packs: Seq<StoredPack>)
    ensures
        packed_ids(packs).finite(),
        forall|id: Seq<u8>| #[trigger]
            in_packs(pack_states(packs), id) ==> packed_ids(packs).contains(id),
    decreases packs.len(),
{
    if packs.len() > 0 {
        lemma_packed_ids(packs.drop_last());
        packs.last().index.lemma_finite();
        assert forall|id: Seq<u8>| #[trigger] in_packs(
            pack_states(packs),
            id,
        ) implies packed_ids(packs).contains(id) by {
            let states = pack_states(packs);
            let i = choose|i: int|
                0 <= i < states.len() && (#[trigger] states[i]).index.by_oid.contains_key(id);
            if i < packs.len() - 1 {
                let short = pack_states(packs.drop_last());
                assert(short[i].index.by_oid.contains_key(id));
                assert(in_packs(short, id));
            }
        }
    }
}

impl DiskObjectStore {
    /// A store has finitely many objects.
    pub proof fn lemma_finite(&self)
        ensures
            all_ids(self@).finite(),
    {
        self.loose.lemma_finite();
        lemma_packed_ids(self.packs@);
        let bound = self.loose@.dom().union(packed_ids(self.packs@));
        assert(self@.packs =~= pack_states(self.packs@));
        assert forall|id: Seq<u8>| all_ids(self@).contains(id) implies bound.contains(id) by {
            has_loose_or_packed(self@, id);
        }
        vstd::set_lib::lemma_set_subset_finite(bound, all_ids(self@));
    }

    /// The addresses of all objects, loose and packed, each once, ascending.
    #[verifier::rlimit(40)]
    pub fn list_all_ids(&self) -> (r: Vec<ObjectId>)
        ensures
            git_pack_file::lists_ids(r@, all_ids(self@)),
            forall|i: int|
                0 <= i < r@.len() ==> self@.loose.contains_key((#[trigger] r@[i]).bytes@) || exists|j: int|
                    0 <= j < self@.packs.len() && (#[trigger] self@.packs[j]).index.by_oid.contains_key(
                        r@[i].bytes@,
                    ),
            forall|id: Seq<u8>| #[trigger]
                self@.loose.contains_key(id) ==> exists|i: int|
                    0 <= i < r@.len() && (#[trigger] r@[i]).bytes@ == id,
            forall|j: int, id: Seq<u8>|
                0 <= j < self@.packs.len() && #[trigger] self@.packs[j].index.by_oid.contains_key(id)
                    ==> exists|i: int| 0 <= i < r@.len() && (#[trigger] r@[i]).bytes@ == id,
            forall|i: int, j: int|
                0 <= i < j < r@.len() ==> (#[trigger] r@[i]).bytes@ != (#[trigger] r@[j]).bytes@,
    {
        let mut set: KeyTable<32, bool> = KeyTable::new();
        let n: usize = self.loose.len();
        let ghost rows = self.loose.rows();
        let mut i: usize = 0;
        while i < n
            invariant
                i <= n == rows.len(),
                rows == self.loose.rows(),
                forall|k: Seq<u8>| #[trigger]
                    set@.contains_key(k) <==> exists|j: int| 0 <= j < i && (#[trigger] rows[j]).0@ == k,
            decreases n - i,
        {
            let (key, _) = self.loose.row(i);
            let ghost before = set@;
            set.insert(*key, true);
            proof {
                assert forall|k: Seq<u8>| #[trigger] set@.contains_key(k) <==> exists|j: int|
                    0 <= j < i + 1 && (#[trigger] rows[j]).0@ == k by {
                    if set@.contains_key(k) {
                        if k == rows[i as int].0@ {
                            assert(rows[i as int].0@ == k);
                        } else {
                            assert(before.contains_key(k));
                        }
                    }
                    if exists|j: int| 0 <= j < i + 1 && (#[trigger] rows[j]).0@ == k {
                        let j = choose|j: int| 0 <= j < i + 1 && (#[trigger] rows[j]).0@ == k;
                        if j < i {
                            assert(before.contains_key(k));
                        }
                    }
                }
            }
            i += 1;
        }
        proof {
            assert forall|k: Seq<u8>| #[trigger] set@.contains_key(k)
                <==> self@.loose.contains_key(k) by {
                if set@.contains_key(k) {
                    let j = choose|j: int| 0 <= j < n && (#[trigger] rows[j]).0@ == k;
                    keytable::lemma_row(rows, j);
                }
            }
        }
        let mut p: usize = 0;
        while p < self.packs.len()
            invariant
                p <= self.packs.len(),
                forall|k: Seq<u8>| #[trigger]
                    set@.contains_key(k) <==> (self@.loose.contains_key(k) || in_packs(
                        self@.packs.subrange(0, p as int),
                        k,
                    )),
            decreases self.packs.len() - p,
        {
            let oids = self.packs[p].index.oids();
            let ghost dom = self.packs@[p as int].index@.by_oid.dom();
            let ghost before = set@;
            let mut j: usize = 0;
            while j < oids.len()
                invariant
                    j <= oids.len(),
                    git_pack_file::lists_ids(oids@, dom),
                    forall|k: Seq<u8>| #[trigger]
                        set@.contains_key(k) ==> before.contains_key(k) || dom.contains(k),
                    forall|k: Seq<u8>|
                        before.contains_key(k) || git_pack_file::has_id(
                            oids@.subrange(0, j as int),
                            k,
                        ) ==> #[trigger] set@.contains_key(k),
                decreases oids.len() - j,
            {
                let ghost mid = set@;
                set.insert(oids[j].bytes, true);
                proof {
                    assert forall|k: Seq<u8>|
                        before.contains_key(k) || git_pack_file::has_id(
                            oids@.subrange(0, j + 1),
                            k,
                        ) implies #[trigger] set@.contains_key(k) by {
                        if git_pack_file::has_id(oids@.subrange(0, j + 1), k) {
                            let v = oids@.subrange(0, j + 1);
                            let x = choose|x: int|
                                0 <= x < v.len() && (#[trigger] v[x]).bytes@ == k;
                            if x < j {
                                let w = oids@.subrange(0, j as int);
                                assert(w[x].bytes@ == k);
                                assert(git_pack_file::has_id(w, k));
                                assert(mid.contains_key(k));
                            }
                        } else {
                            assert(mid.contains_key(k));
                        }
                    }
                }
                j += 1;
            }
            proof {
                assert(oids@.subrange(0, j as int) =~= oids@);
                let old_packs = self@.packs.subrange(0, p as int);
                let now = self@.packs.subrange(0, p + 1);
                assert(now[p as int].index.by_oid.dom() == dom);
                assert forall|k: Seq<u8>| #[trigger] set@.contains_key(k) <==> (
                self@.loose.contains_key(k) || in_packs(now, k)) by {
                    assert(before.contains_key(k) <==> (self@.loose.contains_key(k) || in_packs(
                        old_packs,
                        k,
                    )));
                    if in_packs(old_packs, k) {
                        let x = choose|x: int|
                            0 <= x < old_packs.len()
                                && (#[trigger] old_packs[x]).index.by_oid.contains_key(k);
                        assert(now[x].index.by_oid.contains_key(k));
                    }
                    if in_packs(now, k) {
                        let x = choose|x: int|
                            0 <= x < now.len() && (#[trigger] now[x]).index.by_oid.contains_key(k);
                        if x < p {
                            assert(old_packs[x].index.by_oid.contains_key(k));
                        } else {
                            assert(dom.contains(k));
                            assert(git_pack_file::has_id(oids@, k));
                        }
                    }
                    if dom.contains(k) {
                        assert(now[p as int].index.by_oid.contains_key(k));
                    }
                }
            }
            p += 1;
        }
        assert(self@.packs.subrange(0, p as int) =~= self@.packs);
        let m: usize = set.len();
        let ghost all = set.rows();
        let mut out: Vec<ObjectId> = Vec::new();
        let mut q: usize = 0;
        while q < m
            invariant
                q <= m == all.len(),
                all == set.rows(),
                keytable::keys_ascending(all),
                out.len() == q,
                forall|x: int| 0 <= x < q ==> (#[trigger] out@[x]).bytes == all[x].0,
            decreases m - q,
        {
            let (key, _) = set.row(q);
            out.push(ObjectId::from_bytes(*key));
            q += 1;
        }
        proof {
            assert forall|k: Seq<u8>| #[trigger] all_ids(self@).contains(k)
                <==> set@.contains_key(k) by {
                has_loose_or_packed(self@, k);
            }
            assert forall|x: int| 0 <= x < out.len() implies all_ids(self@).contains(
                (#[trigger] out@[x]).bytes@,
            ) by {
                keytable::lemma_row(all, x);
            }
            assert forall|a: int, b: int| 0 <= a < b < out.len() implies keytable::key_less(
                (#[trigger] out@[a]).bytes@,
                (#[trigger] out@[b]).bytes@,
            ) by {
                assert(keytable::key_less(all[a].0@, all[b].0@));
            }
            assert forall|k: Seq<u8>| all_ids(self@).contains(k) implies #[trigger]
            git_pack_file::has_id(out@, k) by {
                assert(set@.contains_key(k));
                let x = choose|x: int| 0 <= x < all.len() && (#[trigger] all[x]).0@ == k;
                assert(out@[x].bytes@ == k);
            }
        }
        proof {
            assert forall|i: int| 0 <= i < out@.len() implies self@.loose.contains_key(
                (#[trigger] out@[i]).bytes@,
            ) || exists|j: int|
                0 <= j < self@.packs.len() && (#[trigger] self@.packs[j]).index.by_oid.contains_key(
                    out@[i].bytes@,
                ) by {
                has_loose_or_packed(self@, out@[i].bytes@);
                assert(all_ids(self@).contains(out@[i].bytes@));
            }
            assert forall|id: Seq<u8>| #[trigger] self@.loose.contains_key(id) implies exists|i: int|
                0 <= i < out@.len() && (#[trigger] out@[i]).bytes@ == id by {
                assert(all_ids(self@).contains(id));
                assert(git_pack_file::has_id(out@, id));
            }
            assert forall|j: int, id: Seq<u8>|
                0 <= j < self@.packs.len() && #[trigger] self@.packs[j].index.by_oid.contains_key(
                    id,
                ) implies exists|i: int| 0 <= i < out@.len() && (#[trigger] out@[i]).bytes@
                == id by {
                has_loose_or_packed(self@, id);
                assert(in_packs(self@.packs, id));
                assert(all_ids(self@).contains(id));
                assert(git_pack_file::has_id(out@, id));
            }
        }
        out
    }

    /// For each name of an object its address. The index is kept, and handed out
    /// again until a loose object is written or the packs are replaced.
    #[verifier::rlimit(40)]
    pub fn sha1_index(&mut self) -> (r: Arc<KeyTable<20, ObjectId>>)
        ensures
            old(self).kept_names() matches Some(index) ==> r@ == index,
            old(self).names_fresh() ==> indexes_names(r@, old(self)@),
            covers_names(r@, old(self)@),
            final(self)@ == old(self)@,
            final(self).kept_names() == Some(r@),
            forall|id: Seq<u8>| #[trigger]
                old(self)@.loose.contains_key(id) && old(self)@.loose[id].len() >= 24 ==> r@.contains_key(
                    old(self)@.loose[id].subrange(0, 20),
                ),
            forall|i: int, k: Seq<u8>|
                0 <= i < old(self)@.packs.len()
                    && #[trigger] old(self)@.packs[i].index.sha1_to_oid.contains_key(k) && (forall|j: int|
                    i < j < old(self)@.packs.len() ==> !(
                    #[trigger] old(self)@.packs[j]).index.sha1_to_oid.contains_key(k)) ==> r@.contains_key(k)
                    && r@[k] == old(self)@.packs[i].index.sha1_to_oid[k],
    {
        if let Some(index) = &self.names {
            proof {
                use_type_invariant(&*self);
                lemma_covers_last(index@, self@);
            }
            return share(index);
        }
        let index = Arc::new(self.build_sha1_index());
        assert(covers_names(index@, self@));
        proof {
            lemma_covers_last(index@, self@);
        }
        self.names = Some(share(&index));
        index
    }

    /// Builds the index of names anew.
    fn build_sha1_index(&self) -> (r: KeyTable<20, ObjectId>)
        ensures
            indexes_names(r@, self@),
    {
        let mut index: KeyTable<20, ObjectId> = KeyTable::new();
        let n: usize = self.loose.len();
        let ghost rows = self.loose.rows();
        let mut i: usize = 0;
        while i < n
            invariant
                i <= n == rows.len(),
                rows == self.loose.rows(),
                keytable::keys_ascending(rows),
                keytable::row_map(rows) == self.loose@,
                forall|k: Seq<u8>| #[trigger]
                    index@.contains_key(k) ==> loose_named(self@, index@[k].bytes@, k),
                forall|j: int|
                    0 <= j < i && (#[trigger] rows[j]).1.len() >= HEADER_LEN ==> index@.contains_key(
                        rows[j].1@.subrange(0, 20),
                    ),
            decreases n - i,
        {
            let (key, raw) = self.loose.row(i);
            proof {
                keytable::lemma_row(rows, i as int);
            }
            if raw.len() >= HEADER_LEN {
                if let Ok(name) = file_sha1(raw.as_slice()) {
                    let ghost before = index@;
                    index.insert(name, ObjectId::from_bytes(*key));
                    assert(loose_named(self@, key@, name@));
                }
            }
            i += 1;
        }
        proof {
            assert forall|id: Seq<u8>| #[trigger]
                self@.loose.contains_key(id) && self@.loose[id].len()
                    >= HEADER_LEN implies index@.contains_key(
                self@.loose[id].subrange(0, 20),
            ) by {
                let j = choose|j: int| 0 <= j < rows.len() && (#[trigger] rows[j]).0@ == id;
                keytable::lemma_row(rows, j);
            }
        }
        let mut p: usize = 0;
        while p < self.packs.len()
            invariant
                p <= self.packs.len(),
                forall|k: Seq<u8>| #[trigger]
                    index@.contains_key(k) ==> (match last_named(self@.packs, k, p as int) {
                        Some(i) => index@[k] == self@.packs[i].index.sha1_to_oid[k],
                        None => loose_named(self@, index@[k].bytes@, k),
                    }),
                forall|k: Seq<u8>, i: int|
                    0 <= i < p && (#[trigger] self@.packs[i]).index.sha1_to_oid.contains_key(k)
                        ==> #[trigger] index@.contains_key(k),
                forall|id: Seq<u8>| #[trigger]
                    self@.loose.contains_key(id) && self@.loose[id].len() >= HEADER_LEN
                        ==> index@.contains_key(self@.loose[id].subrange(0, 20)),
            decreases self.packs.len() - p,
        {
            let pairs = self.packs[p].index.sha1_pairs();
            let ghost named = self.packs@[p as int].index@.sha1_to_oid;
            let ghost before = index@;
            assert(self@.packs[p as int].index.sha1_to_oid == named);
            let mut j: usize = 0;
            while j < pairs.len()
                invariant
                    j <= pairs.len(),
                    forall|i: int|
                        0 <= i < pairs.len() ==> named.contains_key((#[trigger] pairs@[i]).0@)
                            && named[pairs@[i].0@] == pairs@[i].1,
                    forall|k: Seq<u8>| #[trigger]
                        index@.contains_key(k) ==> before.contains_key(k) && index@[k] == before[k]
                            || named.contains_key(k) && index@[k] == named[k],
                    forall|k: Seq<u8>| before.contains_key(k) ==> #[trigger] index@.contains_key(k),
                    forall|i: int|
                        0 <= i < j ==> index@.contains_key((#[trigger] pairs@[i]).0@)
                            && index@[pairs@[i].0@] == pairs@[i].1,
                decreases pairs.len() - j,
            {
                let ghost mid = index@;
                index.insert(pairs[j].0, pairs[j].1);
                proof {
                    assert(named.contains_key(pairs@[j as int].0@));
                    assert forall|i: int| 0 <= i < j + 1 implies index@.contains_key(
                        (#[trigger] pairs@[i]).0@,
                    ) && index@[pairs@[i].0@] == pairs@[i].1 by {
                        if i < j {
                            assert(mid.contains_key(pairs@[i].0@));
                            assert(named[pairs@[i].0@] == pairs@[i].1);
                        }
                    }
                }
                j += 1;
            }
            proof {
                assert forall|k: Seq<u8>| #[trigger] index@.contains_key(k) implies (
                match last_named(self@.packs, k, p + 1) {
                    Some(i) => index@[k] == self@.packs[i].index.sha1_to_oid[k],
                    None => loose_named(self@, index@[k].bytes@, k),
                }) by {
                    if named.contains_key(k) {
                        let i = choose|i: int|
                            0 <= i < pairs.len() && (#[trigger] pairs@[i]).0@ == k;
                        assert(index@[pairs@[i].0@] == pairs@[i].1);
                    } else {
                        assert(before.contains_key(k) && index@[k] == before[k]);
                    }
                }
                assert forall|k: Seq<u8>, i: int|
                    0 <= i < p + 1 && (#[trigger] self@.packs[i]).index.sha1_to_oid.contains_key(
                        k,
                    ) implies #[trigger] index@.contains_key(k) by {
                    if i == p {
                        let x = choose|x: int|
                            0 <= x < pairs.len() && (#[trigger] pairs@[x]).0@ == k;
                        assert(index@.contains_key(pairs@[x].0@));
                    } else {
                        assert(before.contains_key(k));
                    }
                }
                assert forall|id: Seq<u8>| #[trigger]
                    self@.loose.contains_key(id) && self@.loose[id].len()
                        >= HEADER_LEN implies index@.contains_key(
                    self@.loose[id].subrange(0, 20),
                ) by {
                    assert(before.contains_key(self@.loose[id].subrange(0, 20)));
                }
            }
            p += 1;
        }
        index
    }
}

// ---------------------------------------------------------------------------
// What the store promises
// ---------------------------------------------------------------------------

/// Storing an object leaves everything else readable that was readable, with the
/// same content, provided that the address stood for no other content before.
pub proof fn write_keeps_readable(
    s: StoreView,
    git_type: u8,
    content: Seq<u8>,
    id: Seq<u8>,
    depth: nat,
)
    requires
        zlib::restorable(content),
        object_file::git_name(git_type, content).len() == 20,
        content.len() <= object_file::MAX_DECOMPRESSED,
        forall|d: nat|
            (#[trigger] content_at(s, digest::blake3_sum(content), d)) matches Ok(c) ==> c == content,
        content_at(s, id, depth) is Ok,
    ensures
        content_at(written_object(s, git_type, content), id, depth) == content_at(s, id, depth),
    decreases MAX_CHAIN + 1 - depth,
{
    let s2 = written_object(s, git_type, content);
    let key = digest::blake3_sum(content);
    lemma_image_reads(s2, key, git_type, content);
    if id == key {
        assert(content_at(s2, key, depth) == Ok::<Seq<u8>, ReadFail>(content));
    } else if s.loose.contains_key(id) {
        let raw = s.loose[id];
        assert(s2.loose[id] == raw);
        if raw[21] == ENC_DELTA {
            write_keeps_readable(s, git_type, content, raw.subrange(24, 56), depth + 1);
        }
    }
}

/// Storing an object a second time changes nothing.
pub proof fn write_is_idempotent(s: StoreView, git_type: u8, content: Seq<u8>)
    ensures
        written_object(written_object(s, git_type, content), git_type, content) == written_object(
            s,
            git_type,
            content,
        ),
{
    let once = written_object(s, git_type, content);
    assert(written_object(once, git_type, content).loose =~= once.loose);
}

/// The store without the loose files of objects that are not to be kept.
pub open spec fn swept(s: StoreView, keep: Set<Seq<u8>>) -> StoreView {
    StoreView { loose: s.loose.restrict(keep), ..s }
}

/// Removing loose files that nothing kept is a delta against leaves everything kept
/// readable, with the same content.
pub proof fn sweep_keeps_readable(s: StoreView, keep: Set<Seq<u8>>, id: Seq<u8>, depth: nat)
    requires
        keep.contains(id),
        forall|k: Seq<u8>| #[trigger]
            keep.contains(k) ==> (base_in(s, k) matches Ok(Some(b)) ==> keep.contains(b)),
        content_at(s, id, depth) is Ok,
    ensures
        content_at(swept(s, keep), id, depth) == content_at(s, id, depth),
    decreases MAX_CHAIN + 1 - depth,
{
    let s2 = swept(s, keep);
    if s.loose.contains_key(id) {
        let raw = s.loose[id];
        assert(s2.loose.contains_key(id) && s2.loose[id] == raw);
        if raw[21] == ENC_DELTA {
            let base = raw.subrange(24, 56);
            assert(base_in(s, id) == Ok::<Option<Seq<u8>>, ReadFail>(Some(base)));
            sweep_keeps_readable(s, keep, base, depth + 1);
        }
    }
}

/// A loose file hides packed copies: what a store answers about a loose object does
/// not depend on the packs.
pub proof fn loose_shadows_packs(s: StoreView, packs: Seq<PackState>, id: Seq<u8>)
    requires
        s.loose.contains_key(id),
    ensures
        name_of(StoreView { packs, ..s }, id) == name_of(s, id),
        type_of(StoreView { packs, ..s }, id) == type_of(s, id),
        base_in(StoreView { packs, ..s }, id) == base_in(s, id),
        s.loose[id].len() < HEADER_LEN || s.loose[id][21] != ENC_DELTA ==> content_of(
            StoreView { packs, ..s },
            id,
        ) == content_of(s, id),
{
}

/// What can be read is there.
pub proof fn readable_is_there(s: StoreView, id: Seq<u8>)
    requires
        content_of(s, id) is Ok,
    ensures
        has_object(s, id),
{
}

impl DiskObjectStore {
    /// How many loose files there are.
    pub fn loose_count(&self) -> (r: usize)
        ensures
            r == self@.loose.dom().len(),
    {
        assert(self@.loose.dom() =~= self.loose@.dom());
        self.loose.count()
    }
}

proof fn lemma_same_rows(lidx: Seq<u8>, v: Seq<LidxEntry>, w: Seq<LidxEntry>, n: int)
    requires
        git_pack_file::lidx_holds(lidx, v),
        git_pack_file::lidx_holds(lidx, w),
        0 <= n <= v.len(),
    ensures
        git_pack_file::view_of(v.subrange(0, n)) == git_pack_file::view_of(w.subrange(0, n)),
    decreases n,
{
    if n > 0 {
        lemma_same_rows(lidx, v, w, n - 1);
        assert(v.subrange(0, n).drop_last() =~= v.subrange(0, n - 1));
        assert(w.subrange(0, n).drop_last() =~= w.subrange(0, n - 1));
        let a = v[n - 1];
        let b = w[n - 1];
        assert(git_pack_file::lidx_row_is(lidx, n - 1, a));
        assert(git_pack_file::lidx_row_is(lidx, n - 1, b));
        assert(a.oid.bytes =~= b.oid.bytes);
        assert(a.sha1 =~= b.sha1);
    } else {
        assert(v.subrange(0, 0) =~= w.subrange(0, 0));
    }
}

/// The files decide: packs opened twice from the same files are the same, so that a
/// store whose pack files were lost and fetched again reads every packed object as
/// before.
pub proof fn files_decide_packs(files: Seq<PackFilesView>, a: Seq<PackState>, b: Seq<PackState>)
    requires
        packs_from(files, a),
        packs_from(files, b),
    ensures
        a == b,
    decreases files.len(),
{
    if files.len() > 0 {
        if pack_opens(files.last()) {
            files_decide_packs(files.drop_last(), a.drop_last(), b.drop_last());
            let lidx = files.last().lidx->0;
            let v = choose|v: Seq<LidxEntry>| #[trigger]
                git_pack_file::lidx_holds(lidx, v) && a.last().index == git_pack_file::view_of(v);
            let w = choose|w: Seq<LidxEntry>| #[trigger]
                git_pack_file::lidx_holds(lidx, w) && b.last().index == git_pack_file::view_of(w);
            lemma_same_rows(lidx, v, w, v.len() as int);
            assert(v.subrange(0, v.len() as int) =~= v);
            assert(w.subrange(0, w.len() as int) =~= w);
            assert(a =~= a.drop_last().push(a.last()));
            assert(b =~= b.drop_last().push(b.last()));
        } else {
            files_decide_packs(files.drop_last(), a, b);
        }
    }
}

/// A copy of the object has the name `k`: its loose file or a row of a pack.
pub open spec fn has_name(s: StoreView, id: Seq<u8>, k: Seq<u8>) -> bool {
    loose_named(s, id, k) || exists|i: int|
        0 <= i < s.packs.len() && (#[trigger] s.packs[i]).index.sha1_to_oid.contains_key(k)
            && s.packs[i].index.sha1_to_oid[k].bytes@ == id
}

/// No two objects of the store share a name.
pub open spec fn names_apart(s: StoreView) -> bool {
    forall|a: Seq<u8>, b: Seq<u8>, k: Seq<u8>| #[trigger]
        has_name(s, a, k) && #[trigger] has_name(s, b, k) ==> a == b
}

/// Every copy of an object has the name of the object.
pub open spec fn names_agree(s: StoreView) -> bool {
    forall|id: Seq<u8>, k: Seq<u8>| #[trigger]
        has_name(s, id, k) <==> name_of(s, id) == Ok::<Seq<u8>, ReadFail>(k)
}

/// From the name of each object of the store to its address.
pub open spec fn addresses_by_name(s: StoreView) -> Map<Seq<u8>, Seq<u8>> {
    Map::new(
        |k: Seq<u8>| exists|id: Seq<u8>| #[trigger] name_of(s, id) == Ok::<Seq<u8>, ReadFail>(k),
        |k: Seq<u8>|
            choose|id: Seq<u8>| #[trigger] name_of(s, id) == Ok::<Seq<u8>, ReadFail>(k),
    )
}

proof fn lemma_last_named(packs: Seq<PackState>, k: Seq<u8>, n: int)
    requires
        0 <= n <= packs.len(),
    ensures
        match last_named(packs, k, n) {
            Some(i) => 0 <= i < n && packs[i].index.sha1_to_oid.contains_key(k),
            None => forall|i: int|
                0 <= i < n ==> !(#[trigger] packs[i]).index.sha1_to_oid.contains_key(k),
        },
    decreases n,
{
    if n > 0 && !packs[n - 1].index.sha1_to_oid.contains_key(k) {
        lemma_last_named(packs, k, n - 1);
    }
}

/// The index of names is the map from the name of each object to its address, loose
/// and packed objects alike, where no two objects share a name and the copies of an
/// object agree on it.
pub proof fn index_is_addresses_by_name(v: Map<Seq<u8>, ObjectId>, s: StoreView)
    requires
        indexes_names(v, s),
        names_apart(s),
        names_agree(s),
    ensures
        v.map_values(|id: ObjectId| id.bytes@) == addresses_by_name(s),
{
    let m = v.map_values(|id: ObjectId| id.bytes@);
    let w = addresses_by_name(s);
    assert forall|k: Seq<u8>| #[trigger] v.contains_key(k) implies has_name(s, v[k].bytes@, k) by {
        lemma_last_named(s.packs, k, s.packs.len() as int);
        if let Some(i) = last_named(s.packs, k, s.packs.len() as int) {
            assert(s.packs[i].index.sha1_to_oid.contains_key(k));
        }
    }
    assert forall|k: Seq<u8>| w.contains_key(k) implies #[trigger] v.contains_key(k) by {
        let id = choose|id: Seq<u8>| #[trigger] name_of(s, id) == Ok::<Seq<u8>, ReadFail>(k);
        assert(has_name(s, id, k));
        if loose_named(s, id, k) {
            assert(s.loose.contains_key(id));
        } else {
            let i = choose|i: int|
                0 <= i < s.packs.len() && (#[trigger] s.packs[i]).index.sha1_to_oid.contains_key(k)
                    && s.packs[i].index.sha1_to_oid[k].bytes@ == id;
            assert(s.packs[i].index.sha1_to_oid.contains_key(k));
        }
    }
    assert forall|k: Seq<u8>| #[trigger] v.contains_key(k) implies w.contains_key(k) && w[k]
        == v[k].bytes@ by {
        assert(has_name(s, v[k].bytes@, k));
        assert(name_of(s, v[k].bytes@) == Ok::<Seq<u8>, ReadFail>(k));
        let id = choose|id: Seq<u8>| #[trigger] name_of(s, id) == Ok::<Seq<u8>, ReadFail>(k);
        assert(has_name(s, id, k));
    }
    assert(m =~= w);
}

} // verus!
