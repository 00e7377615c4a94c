//! Leases of workspaces.

use vstd::prelude::*;
use crate::codec::bytes_equal;
use crate::hexcode;
use crate::keytable;
use crate::keytable::KeyTable;
use crate::types;
use crate::types::LedgeError;

verus! {

/// The identifier of a workspace.
#[derive(Clone, Copy, Debug, Hash)]
pub struct WorkspaceId {
    pub bytes: [u8; 16],
}

impl PartialEq for WorkspaceId {
    fn eq(&self, other: &Self) -> (r: bool) {
        let r = bytes_equal(self.bytes.as_slice(), other.bytes.as_slice());
        assert(r ==> self.bytes =~= other.bytes);
        r
    }
}

impl vstd::std_specs::cmp::PartialEqSpecImpl for WorkspaceId {
    open spec fn obeys_eq_spec() -> bool {
        true
    }

    open spec fn eq_spec(&self, other: &Self) -> bool {
        *self == *other
    }
}

impl Eq for WorkspaceId {

}

/// A string of hexadecimal digits is ASCII.
proof fn lemma_hex_is_utf8(s: Seq<u8>)
    ensures
        vstd::utf8::valid_utf8(hexcode::encoded(s)),
{
    let e = hexcode::encoded(s);
    assert forall|i: int| 0 <= i < e.len() implies #[trigger] e[i] < 128 by {
        if i % 2 == 0 {
            assert(e[i] == hexcode::digit_of(s[i / 2] as int / 16));
        } else {
            assert(e[i] == hexcode::digit_of(s[i / 2] as int % 16));
        }
    }
    types::lemma_ascii_is_utf8(e);
}

impl WorkspaceId {
    pub fn from_bytes(bytes: [u8; 16]) -> (r: Self)
        ensures
            r.bytes == bytes,
    {
        WorkspaceId { bytes }
    }

    /// Reads the identifier from its spelling: thirty-two hexadecimal digits.
    pub fn from_hex(s: &str) -> (r: Result<Self, LedgeError>)
        ensures
            ({
                let d = hexcode::decoded(vstd::utf8::encode_utf8(s@));
                match r {
                    Ok(id) => d == Some(id.bytes@),
                    Err(e) => e == LedgeError::InvalidId && !(d is Some && d->0.len() == 16),
                }
            }),
    {
        match hexcode::decode(s.as_bytes()) {
            Some(v) => {
                if v.len() != 16 {
                    return Err(LedgeError::InvalidId);
                }
                let mut bytes: [u8; 16] = [0u8; 16];
                let mut i: usize = 0;
                while i < 16
                    invariant
                        i <= 16,
                        v.len() == 16,
                        forall|j: int| 0 <= j < i ==> bytes@[j] == v@[j],
                    decreases 16 - i,
                {
                    bytes[i] = v[i];
                    i += 1;
                }
                assert(bytes@ =~= v@);
                Ok(WorkspaceId { bytes })
            },
            None => Err(LedgeError::InvalidId),
        }
    }

    /// The spelling of the identifier.
    pub fn to_hex(&self) -> (r: String)
        ensures
            vstd::utf8::encode_utf8(r@) == hexcode::encoded(self.bytes@),
    {
        proof {
            lemma_hex_is_utf8(self.bytes@);
        }
        match types::string_from_utf8(hexcode::encode(self.bytes.as_slice())) {
            Some(s) => s,
            None => String::new(),
        }
    }
}

/// A lease: which workspace, forked from which references, and until when.
#[derive(Debug)]
pub struct Lease {
    pub id: WorkspaceId,
    pub source_refs: Vec<String>,
    pub created_at_ms: u64,
    pub expires_at_ms: u64,
    pub hlc: u64,
    pub generation: u64,
}

/// What a lease holds.
pub struct LeaseView {
    pub id: WorkspaceId,
    pub source_refs: Seq<Seq<char>>,
    pub created_at_ms: u64,
    pub expires_at_ms: u64,
    pub hlc: u64,
    pub generation: u64,
}

/// The spellings of some strings.
pub open spec fn texts(v: Seq<String>) -> Seq<Seq<char>> {
    Seq::new(v.len(), |i: int| v[i]@)
}

impl View for Lease {
    type V = LeaseView;

    open spec fn view(&self) -> LeaseView {
        LeaseView {
            id: self.id,
            source_refs: texts(self.source_refs@),
            created_at_ms: self.created_at_ms,
            expires_at_ms: self.expires_at_ms,
            hlc: self.hlc,
            generation: self.generation,
        }
    }
}

impl Lease {
    /// A copy of the lease.
    pub fn duplicate(&self) -> (r: Self)
        ensures
            r@ == self@,
            r.id == self.id,
    {
        let mut source_refs: Vec<String> = Vec::new();
        let mut i: usize = 0;
        while i < self.source_refs.len()
            invariant
                i <= self.source_refs.len(),
                source_refs@ == self.source_refs@.subrange(0, i as int),
            decreases self.source_refs.len() - i,
        {
            source_refs.push(self.source_refs[i].clone());
            i += 1;
            assert(source_refs@ =~= self.source_refs@.subrange(0, i as int));
        }
        assert(source_refs@ =~= self.source_refs@);
        Lease {
            id: self.id,
            source_refs,
            created_at_ms: self.created_at_ms,
            expires_at_ms: self.expires_at_ms,
            hlc: self.hlc,
            generation: self.generation,
        }
    }
}

/// One change of the leases.
pub enum LeaseRecord {
    Put { lease: Lease },
    Tombstone { id: WorkspaceId, hlc: u64 },
}

/// What a change holds.
pub enum LeaseRecordView {
    Put { lease: LeaseView },
    Tombstone { id: WorkspaceId, hlc: u64 },
}

impl View for LeaseRecord {
    type V = LeaseRecordView;

    open spec fn view(&self) -> LeaseRecordView {
        match self {
            LeaseRecord::Put { lease } => LeaseRecordView::Put { lease: lease@ },
            LeaseRecord::Tombstone { id, hlc } => LeaseRecordView::Tombstone {
                id: *id,
                hlc: *hlc,
            },
        }
    }
}

/// The contents of some changes.
pub open spec fn record_views(v: Seq<LeaseRecord>) -> Seq<LeaseRecordView> {
    Seq::new(v.len(), |i: int| v[i]@)
}

/// The leases after one more change.
pub open spec fn apply_record(m: Map<Seq<u8>, LeaseView>, r: LeaseRecordView) -> Map<
    Seq<u8>,
    LeaseView,
> {
    match r {
        LeaseRecordView::Put { lease } => m.insert(lease.id.bytes@, lease),
        LeaseRecordView::Tombstone { id, hlc } => m.remove(id.bytes@),
    }
}

/// The leases that some changes lead to.
pub open spec fn replay_leases(
    m: Map<Seq<u8>, LeaseView>,
    log: Seq<LeaseRecordView>,
) -> Map<Seq<u8>, LeaseView>
    decreases log.len(),
{
    if log.len() == 0 {
        m
    } else {
        apply_record(replay_leases(m, log.drop_last()), log.last())
    }
}

/// Changes that were logged in parts lead to what they lead to at once.
pub proof fn leases_in_parts(
    m: Map<Seq<u8>, LeaseView>,
    first: Seq<LeaseRecordView>,
    rest: Seq<LeaseRecordView>,
)
    ensures
        replay_leases(m, first + rest) == replay_leases(replay_leases(m, first), rest),
    decreases rest.len(),
{
    if rest.len() == 0 {
        assert(first + rest =~= first);
    } else {
        assert((first + rest).drop_last() =~= first + rest.drop_last());
        leases_in_parts(m, first, rest.drop_last());
    }
}

/// The leases that expire after `now_ms`.
pub open spec fn live_leases(m: Map<Seq<u8>, LeaseView>, now_ms: u64) -> Map<Seq<u8>, LeaseView> {
    Map::new(|k: Seq<u8>| m.contains_key(k) && m[k].expires_at_ms > now_ms, |k: Seq<u8>| m[k])
}

/// The leases that have expired at `now_ms`.
pub open spec fn expired_leases(m: Map<Seq<u8>, LeaseView>, now_ms: u64) -> Map<
    Seq<u8>,
    LeaseView,
> {
    Map::new(|k: Seq<u8>| m.contains_key(k) && m[k].expires_at_ms <= now_ms, |k: Seq<u8>| m[k])
}

/// `v` lists the leases of `m`, in ascending order of their identifiers.
pub open spec fn lists_leases(v: Seq<Lease>, m: Map<Seq<u8>, LeaseView>) -> bool {
    &&& forall|i: int|
        0 <= i < v.len() ==> m.contains_key((#[trigger] v[i]).id.bytes@) && m[v[i].id.bytes@]
            == v[i]@
    &&& forall|i: int, j: int|
        0 <= i < j < v.len() ==> keytable::key_less(
            (#[trigger] v[i]).id.bytes@,
            (#[trigger] v[j]).id.bytes@,
        )
    &&& forall|k: Seq<u8>| #[trigger]
        m.contains_key(k) ==> exists|i: int| 0 <= i < v.len() && (#[trigger] v[i]).id.bytes@ == k
}

/// The leases of a node, with the changes that have not been handed to their log
/// yet.
pub struct LeaseStore {
    table: KeyTable<16, Lease>,
    pending: Vec<LeaseRecord>,
}

impl View for LeaseStore {
    type V = Map<Seq<u8>, LeaseView>;

    closed spec fn view(&self) -> Map<Seq<u8>, LeaseView> {
        self.table@.map_values(|l: Lease| l@)
    }
}

impl LeaseStore {
    #[verifier::type_invariant]
    closed spec fn inv(self) -> bool {
        forall|k: Seq<u8>| #[trigger]
            self.table@.contains_key(k) ==> self.table@[k].id.bytes@ == k
    }

    /// The changes that have not been handed to the log yet.
    pub closed spec fn pending(&self) -> Seq<LeaseRecordView> {
        record_views(self.pending@)
    }

    /// No leases.
    pub fn new() -> (r: Self)
        ensures
            r@ == Map::<Seq<u8>, LeaseView>::empty(),
            r.pending() == Seq::<LeaseRecordView>::empty(),
    {
        let r = LeaseStore { table: KeyTable::new(), pending: Vec::new() };
        assert(r@ =~= Map::<Seq<u8>, LeaseView>::empty());
        assert(r.pending() =~= Seq::<LeaseRecordView>::empty());
        r
    }

    /// The leases that a log of changes leads to.
    pub fn open(log: &Vec<LeaseRecord>) -> (r: Self)
        ensures
            r@ == replay_leases(Map::empty(), record_views(log@)),
            r.pending() == Seq::<LeaseRecordView>::empty(),
    {
        let mut r = LeaseStore::new();
        let ghost all = record_views(log@);
        let mut i: usize = 0;
        assert(all.subrange(0, 0) =~= Seq::<LeaseRecordView>::empty());
        while i < log.len()
            invariant
                i <= log.len(),
                all == record_views(log@),
                r@ == replay_leases(Map::empty(), all.subrange(0, i as int)),
            decreases log.len() - i,
        {
            assert(all.subrange(0, i + 1).drop_last() =~= all.subrange(0, i as int));
            match &log[i] {
                LeaseRecord::Put { lease } => r.put(lease.duplicate()),
                LeaseRecord::Tombstone { id, hlc } => r.tombstone_with_hlc(*id, *hlc),
            }
            i += 1;
        }
        assert(all.subrange(0, i as int) =~= all);
        let _ = r.take_pending();
        r
    }

    fn log(&mut self, rec: LeaseRecord)
        ensures
            final(self)@ == old(self)@,
            final(self).pending() == old(self).pending().push(rec@),
    {
        proof {
            use_type_invariant(&*self);
        }
        let mut pending: Vec<LeaseRecord> = Vec::new();
        std::mem::swap(&mut pending, &mut self.pending);
        let ghost before = pending@;
        pending.push(rec);
        assert(record_views(pending@) =~= record_views(before).push(rec@));
        self.pending = pending;
    }

    /// Hands out the changes since the last call.
    pub fn take_pending(&mut self) -> (r: Vec<LeaseRecord>)
        ensures
            record_views(r@) == old(self).pending(),
            final(self)@ == old(self)@,
            final(self).pending() == Seq::<LeaseRecordView>::empty(),
    {
        proof {
            use_type_invariant(&*self);
        }
        let mut pending: Vec<LeaseRecord> = Vec::new();
        std::mem::swap(&mut pending, &mut self.pending);
        assert(self.pending() =~= Seq::<LeaseRecordView>::empty());
        pending
    }

    /// Stores a lease as it is, over one with the same identifier.
    pub fn put(&mut self, lease: Lease)
        ensures
            final(self)@ == old(self)@.insert(lease.id.bytes@, lease@),
            final(self).pending() == old(self).pending().push(
                (LeaseRecordView::Put { lease: lease@ }),
            ),
    {
        proof {
            use_type_invariant(&*self);
        }
        let ghost before = self.table@;
        let ghost lv = lease@;
        let copy = lease.duplicate();
        let key: [u8; 16] = lease.id.bytes;
        let mut table: KeyTable<16, Lease> = KeyTable::new();
        std::mem::swap(&mut table, &mut self.table);
        table.insert(key, lease);
        self.table = table;
        assert(self@ =~= before.map_values(|l: Lease| l@).insert(key@, lv));
        self.log(LeaseRecord::Put { lease: copy });
    }

    /// Removes a lease at logical time `hlc`; one that is not there is no error.
    pub fn tombstone_with_hlc(&mut self, id: WorkspaceId, hlc: u64)
        ensures
            final(self)@ == old(self)@.remove(id.bytes@),
            final(self).pending() == old(self).pending().push(
                (LeaseRecordView::Tombstone { id, hlc }),
            ),
    {
        proof {
            use_type_invariant(&*self);
        }
        let ghost before = self.table@;
        let mut table: KeyTable<16, Lease> = KeyTable::new();
        std::mem::swap(&mut table, &mut self.table);
        table.remove(&id.bytes);
        self.table = table;
        assert(self@ =~= before.map_values(|l: Lease| l@).remove(id.bytes@));
        self.log(LeaseRecord::Tombstone { id, hlc });
    }

    /// The lease of a workspace.
    pub fn get(&self, id: WorkspaceId) -> (r: Option<Lease>)
        ensures
            match r {
                Some(l) => self@.contains_key(id.bytes@) && self@[id.bytes@] == l@,
                None => !self@.contains_key(id.bytes@),
            },
    {
        match self.table.get(&id.bytes) {
            Some(l) => Some(l.duplicate()),
            None => None,
        }
    }

    /// The leases whose expiry is after `now_ms`, or at or before it, in
    /// ascending order of their identifiers.
    fn select(&self, now_ms: u64, live: bool) -> (r: Vec<Lease>)
        ensures
            lists_leases(
                r@,
                if live {
                    live_leases(self@, now_ms)
                } else {
                    expired_leases(self@, now_ms)
                },
            ),
    {
        proof {
            use_type_invariant(self);
        }
        let ghost want = if live {
            live_leases(self@, now_ms)
        } else {
            expired_leases(self@, now_ms)
        };
        let mut out: Vec<Lease> = Vec::new();
        let n: usize = self.table.len();
        let ghost rows = self.table.rows();
        let mut i: usize = 0;
        while i < n
            invariant
                i <= n == rows.len(),
                rows == self.table.rows(),
                keytable::keys_ascending(rows),
                keytable::row_map(rows) == self.table@,
                self@ == self.table@.map_values(|l: Lease| l@),
                forall|k: Seq<u8>| #[trigger]
                    self.table@.contains_key(k) ==> self.table@[k].id.bytes@ == k,
                want == if live {
                    live_leases(self@, now_ms)
                } else {
                    expired_leases(self@, now_ms)
                },
                forall|x: int|
                    0 <= x < out.len() ==> want.contains_key((#[trigger] out@[x]).id.bytes@)
                        && want[out@[x].id.bytes@] == out@[x]@,
                forall|x: int|
                    0 <= x < out.len() ==> exists|y: int|
                        0 <= y < i && (#[trigger] rows[y]).0@ == (#[trigger] out@[x]).id.bytes@,
                forall|x: int, y: int|
                    0 <= x < y < out.len() ==> keytable::key_less(
                        (#[trigger] out@[x]).id.bytes@,
                        (#[trigger] out@[y]).id.bytes@,
                    ),
                forall|y: int|
                    0 <= y < i && want.contains_key((#[trigger] rows[y]).0@) ==> exists|x: int|
                        0 <= x < out.len() && (#[trigger] out@[x]).id.bytes@ == rows[y].0@,
            decreases n - i,
        {
            let (key, lease) = self.table.row(i);
            let ghost before = out@;
            proof {
                keytable::lemma_row(rows, i as int);
                assert(self.table@.contains_key(rows[i as int].0@));
            }
            if (lease.expires_at_ms > now_ms) == live {
                out.push(lease.duplicate());
                assert(out@[before.len() as int].id.bytes@ == rows[i as int].0@);
            }
            proof {
                assert forall|x: int| 0 <= x < out.len() implies exists|y: int|
                    0 <= y < i + 1 && (#[trigger] rows[y]).0@ == (#[trigger] out@[x]).id.bytes@ by {
                    if x < before.len() {
                        assert(out@[x] == before[x]);
                        let y = choose|y: int|
                            0 <= y < i && (#[trigger] rows[y]).0@ == before[x].id.bytes@;
                        assert(rows[y].0@ == out@[x].id.bytes@);
                    } else {
                        assert(rows[i as int].0@ == out@[x].id.bytes@);
                    }
                }
                assert forall|x: int, y: int| 0 <= x < y < out.len() implies keytable::key_less(
                    (#[trigger] out@[x]).id.bytes@,
                    (#[trigger] out@[y]).id.bytes@,
                ) by {
                    assert(out@[x] == before[x]);
                    if y < before.len() {
                        assert(out@[y] == before[y]);
                    } else {
                        let z = choose|z: int|
                            0 <= z < i && (#[trigger] rows[z]).0@ == before[x].id.bytes@;
                        assert(keytable::key_less(rows[z].0@, rows[i as int].0@));
                    }
                }
                assert forall|y: int|
                    0 <= y < i + 1 && want.contains_key(
                        (#[trigger] rows[y]).0@,
                    ) implies exists|x: int|
                    0 <= x < out.len() && (#[trigger] out@[x]).id.bytes@ == rows[y].0@ by {
                    if y < i {
                        let x = choose|x: int|
                            0 <= x < before.len() && (#[trigger] before[x]).id.bytes@
                                == rows[y].0@;
                        assert(out@[x].id.bytes@ == rows[y].0@);
                    } else {
                        assert(out@[before.len() as int].id.bytes@ == rows[y].0@);
                    }
                }
            }
            i += 1;
        }
        proof {
            assert forall|k: Seq<u8>| #[trigger] want.contains_key(k) implies exists|x: int|
                0 <= x < out.len() && (#[trigger] out@[x]).id.bytes@ == k by {
                assert(self.table@.contains_key(k));
                let y = choose|y: int| 0 <= y < rows.len() && (#[trigger] rows[y]).0@ == k;
                let x = choose|x: int| 0 <= x < out.len() && (#[trigger] out@[x]).id.bytes@ == rows[y].0@;
                assert(out@[x].id.bytes@ == k);
            }
        }
        out
    }

    /// The leases that expire after `now_ms`.
    pub fn live(&self, now_ms: u64) -> (r: Vec<Lease>)
        ensures
            lists_leases(r@, live_leases(self@, now_ms)),
            forall|i: int|
                0 <= i < r@.len() ==> {
                    &&& self@.contains_key((#[trigger] r@[i]).id.bytes@)
                    &&& self@[r@[i].id.bytes@] == r@[i]@
                    &&& r@[i].expires_at_ms > now_ms
                },
            forall|k: Seq<u8>| #[trigger]
                self@.contains_key(k) && self@[k].expires_at_ms > now_ms ==> exists|i: int|
                    0 <= i < r@.len() && (#[trigger] r@[i]).id.bytes@ == k,
            forall|i: int, j: int|
                0 <= i < j < r@.len() ==> (#[trigger] r@[i]).id.bytes@ != (#[trigger] r@[j]).id.bytes@,
    {
        let r = self.select(now_ms, true);
        proof {
            let m = live_leases(self@, now_ms);
            assert forall|i: int| 0 <= i < r@.len() implies m.contains_key(
                (#[trigger] r@[i]).id.bytes@,
            ) && m[r@[i].id.bytes@] == r@[i]@ by {}
            assert forall|k: Seq<u8>| #[trigger]
                self@.contains_key(k) && self@[k].expires_at_ms > now_ms implies exists|i: int|
                0 <= i < r@.len() && (#[trigger] r@[i]).id.bytes@ == k by {
                assert(m.contains_key(k));
            }
            assert forall|i: int, j: int|
                0 <= i < j < r@.len() implies (#[trigger] r@[i]).id.bytes@ != (
            #[trigger] r@[j]).id.bytes@ by {
                assert(keytable::key_less(r@[i].id.bytes@, r@[j].id.bytes@));
            }
        }
        r
    }

    /// The leases that have expired at `now_ms`.
    pub fn expired(&self, now_ms: u64) -> (r: Vec<Lease>)
        ensures
            lists_leases(r@, expired_leases(self@, now_ms)),
            forall|i: int|
                0 <= i < r@.len() ==> {
                    &&& self@.contains_key((#[trigger] r@[i]).id.bytes@)
                    &&& self@[r@[i].id.bytes@] == r@[i]@
                    &&& r@[i].expires_at_ms <= now_ms
                },
            forall|k: Seq<u8>| #[trigger]
                self@.contains_key(k) && self@[k].expires_at_ms <= now_ms ==> exists|i: int|
                    0 <= i < r@.len() && (#[trigger] r@[i]).id.bytes@ == k,
            forall|i: int, j: int|
                0 <= i < j < r@.len() ==> (#[trigger] r@[i]).id.bytes@ != (#[trigger] r@[j]).id.bytes@,
    {
        let r = self.select(now_ms, false);
        proof {
            let m = expired_leases(self@, now_ms);
            assert forall|i: int| 0 <= i < r@.len() implies m.contains_key(
                (#[trigger] r@[i]).id.bytes@,
            ) && m[r@[i].id.bytes@] == r@[i]@ by {}
            assert forall|k: Seq<u8>| #[trigger]
                self@.contains_key(k) && self@[k].expires_at_ms <= now_ms implies exists|i: int|
                0 <= i < r@.len() && (#[trigger] r@[i]).id.bytes@ == k by {
                assert(m.contains_key(k));
            }
            assert forall|i: int, j: int|
                0 <= i < j < r@.len() implies (#[trigger] r@[i]).id.bytes@ != (
            #[trigger] r@[j]).id.bytes@ by {
                assert(keytable::key_less(r@[i].id.bytes@, r@[j].id.bytes@));
            }
        }
        r
    }
}

/// At any time a lease is either live or expired.
pub proof fn live_or_expired(m: Map<Seq<u8>, LeaseView>, now_ms: u64, k: Seq<u8>)
    requires
        m.contains_key(k),
    ensures
        live_leases(m, now_ms).contains_key(k) != expired_leases(m, now_ms).contains_key(k),
{
}

/// What a change does to the leases: a put stores the lease under its workspace, over
/// what was there, and a tombstone removes it.
pub proof fn changes_take_effect(
    m: Map<Seq<u8>, LeaseView>,
    log: Seq<LeaseRecordView>,
    lease: LeaseView,
    id: WorkspaceId,
    hlc: u64,
)
    ensures
        replay_leases(m, Seq::empty()) == m,
        replay_leases(m, log.push((LeaseRecordView::Put { lease }))) == replay_leases(
            m,
            log,
        ).insert(lease.id.bytes@, lease),
        replay_leases(m, log.push((LeaseRecordView::Tombstone { id, hlc }))) == replay_leases(
            m,
            log,
        ).remove(id.bytes@),
{
    assert(log.push((LeaseRecordView::Put { lease })).drop_last() =~= log);
    assert(log.push((LeaseRecordView::Tombstone { id, hlc })).drop_last() =~= log);
}

/// Nothing of a lease is left out of what it is said to hold.
pub proof fn lease_shows_all(lease: Lease)
    ensures
        lease@.id == lease.id,
        lease@.created_at_ms == lease.created_at_ms,
        lease@.expires_at_ms == lease.expires_at_ms,
        lease@.hlc == lease.hlc,
        lease@.generation == lease.generation,
        lease@.source_refs.len() == lease.source_refs@.len(),
        forall|i: int|
            0 <= i < lease.source_refs@.len() ==> #[trigger] lease@.source_refs[i]
                == lease.source_refs@[i]@,
{
}

} // verus!
