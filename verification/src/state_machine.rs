//! The replicated state machine: references, leases and transaction records,
//! changed by the entries of the replicated log and by nothing else.

use vstd::prelude::*;
use crate::codec;
use crate::codec::{copy_bytes, push_all};
use crate::decimal;
use crate::decimal::to_decimal;
use crate::keytable;
use crate::keytable::KeyTable;
use crate::leases;
use crate::leases::{Lease, LeaseRecord, LeaseStore, WorkspaceId};
use crate::log_store::LogId;
use crate::op;
use crate::op::{outcome_to_resp, LedgeOp, LedgeResp, TxnDecision};
use crate::slot;
use crate::slot::RefSlot;
use crate::store;
use crate::store::{RefStoreImpl, WalEntry};
use crate::store_laws;
use crate::types;
use crate::types::{ObjectId, RefEntry, RefName, TxnId};

verus! {

/// What is known of a cross-shard transaction: the decision and the shards that
/// take part.
#[derive(Debug)]
pub struct TxnRecord {
    pub decision: TxnDecision,
    pub participants: Vec<u32>,
}

/// What a transaction record holds.
pub struct TxnView {
    pub decision: TxnDecision,
    pub participants: Seq<u32>,
}

impl View for TxnRecord {
    type V = TxnView;

    open spec fn view(&self) -> TxnView {
        TxnView { decision: self.decision, participants: self.participants@ }
    }
}

fn copy_shards(v: &Vec<u32>) -> (r: Vec<u32>)
    ensures
        r@ == v@,
{
    vstd::slice::slice_to_vec(v.as_slice())
}

/// A membership configuration, encoded, with the entry that set it.
#[derive(Debug)]
pub struct StoredMembership {
    pub log_id: Option<LogId>,
    pub membership: Vec<u8>,
}

/// What a membership configuration holds.
pub struct MembershipView {
    pub log_id: Option<LogId>,
    pub membership: Seq<u8>,
}

impl View for StoredMembership {
    type V = MembershipView;

    open spec fn view(&self) -> MembershipView {
        MembershipView { log_id: self.log_id, membership: self.membership@ }
    }
}

impl StoredMembership {
    /// A copy of the configuration.
    pub fn duplicate(&self) -> (r: Self)
        ensures
            r@ == self@,
    {
        StoredMembership {
            log_id: self.log_id,
            membership: copy_bytes(self.membership.as_slice()),
        }
    }
}

/// What an entry of the replicated log carries.
pub enum EntryPayload {
    /// Nothing.
    Blank,
    /// A command.
    Normal(LedgeOp),
    /// A membership configuration, encoded.
    Membership(Vec<u8>),
}

/// An entry of the replicated log.
pub struct LogEntry {
    pub log_id: LogId,
    pub payload: EntryPayload,
}

/// The applied state.
pub struct SmState {
    pub refs: Map<Seq<u8>, RefSlot>,
    pub leases: Map<Seq<u8>, leases::LeaseView>,
    pub txns: Map<Seq<u8>, TxnView>,
    pub last_applied: Option<LogId>,
    pub membership: MembershipView,
}

/// The record of a transaction whose decision has been taken.
pub open spec fn decided(
    txns: Map<Seq<u8>, TxnView>,
    txn_id: TxnId,
    decision: TxnDecision,
) -> TxnView {
    TxnView {
        decision,
        participants: if txns.contains_key(txn_id.bytes@) {
            txns[txn_id.bytes@].participants
        } else {
            Seq::empty()
        },
    }
}

/// The decision that a flag stands for.
pub open spec fn decision_of(commit: bool) -> TxnDecision {
    if commit {
        TxnDecision::Commit
    } else {
        TxnDecision::Abort
    }
}

/// The state after a command.
pub open spec fn step_state(s: SmState, op: LedgeOp) -> SmState {
    match op {
        LedgeOp::RefUpdate { name, target_bytes, expected_bytes, hlc } => {
            let n = vstd::utf8::encode_utf8(name@);
            SmState {
                refs: store::set_slot(
                    s.refs,
                    n,
                    store::update_slot(
                        store::slot_at(s.refs, n),
                        ObjectId { bytes: target_bytes },
                        op::expected_id(expected_bytes),
                        hlc,
                    ),
                ),
                ..s
            }
        },
        LedgeOp::RefDelete { name, expected_bytes, hlc } => {
            let n = vstd::utf8::encode_utf8(name@);
            SmState {
                refs: store::set_slot(
                    s.refs,
                    n,
                    store::delete_slot(
                        store::slot_at(s.refs, n),
                        ObjectId { bytes: expected_bytes },
                    ),
                ),
                ..s
            }
        },
        LedgeOp::LeasePut { lease } => SmState {
            leases: s.leases.insert(lease.id.bytes@, lease@),
            ..s
        },
        LedgeOp::LeaseTombstone { id, hlc } => SmState {
            leases: s.leases.remove(id.bytes@),
            ..s
        },
        LedgeOp::TxnBegin { txn_id, participants } => SmState {
            txns: s.txns.insert(
                txn_id.bytes@,
                TxnView { decision: TxnDecision::Pending, participants: participants@ },
            ),
            ..s
        },
        LedgeOp::TxnDecide { txn_id, commit } => SmState {
            txns: s.txns.insert(txn_id.bytes@, decided(s.txns, txn_id, decision_of(commit))),
            ..s
        },
        LedgeOp::TxnEnd { txn_id } => SmState { txns: s.txns.remove(txn_id.bytes@), ..s },
    }
}

/// The response to a command.
pub open spec fn step_resp(s: SmState, op: LedgeOp) -> LedgeResp {
    match op {
        LedgeOp::RefUpdate { name, target_bytes, expected_bytes, hlc } => op::resp_of(
            store::update_outcome(
                store::slot_at(s.refs, vstd::utf8::encode_utf8(name@)),
                ObjectId { bytes: target_bytes },
                op::expected_id(expected_bytes),
                hlc,
            ),
        ),
        LedgeOp::RefDelete { name, expected_bytes, hlc } => op::resp_of(
            store::delete_outcome(
                store::slot_at(s.refs, vstd::utf8::encode_utf8(name@)),
                ObjectId { bytes: expected_bytes },
            ),
        ),
        LedgeOp::LeasePut { .. } => LedgeResp::LeaseOk,
        LedgeOp::LeaseTombstone { .. } => LedgeResp::LeaseOk,
        LedgeOp::TxnBegin { .. } => LedgeResp::TxnState(Some(TxnDecision::Pending)),
        LedgeOp::TxnDecide { txn_id, commit } => LedgeResp::TxnState(Some(decision_of(commit))),
        LedgeOp::TxnEnd { .. } => LedgeResp::TxnState(None),
    }
}

/// The change of the leases that a command makes.
pub open spec fn lease_records(op: LedgeOp) -> Seq<leases::LeaseRecordView> {
    match op {
        LedgeOp::LeasePut { lease } => seq![leases::LeaseRecordView::Put { lease: lease@ }],
        LedgeOp::LeaseTombstone { id, hlc } => seq![leases::LeaseRecordView::Tombstone { id, hlc }],
        _ => Seq::empty(),
    }
}

/// The state after an entry of the log.
pub open spec fn entry_state(s: SmState, e: LogEntry) -> SmState {
    let at = SmState { last_applied: Some(e.log_id), ..s };
    match e.payload {
        EntryPayload::Blank => at,
        EntryPayload::Normal(op) => step_state(at, op),
        EntryPayload::Membership(m) => SmState {
            membership: MembershipView { log_id: Some(e.log_id), membership: m@ },
            ..at
        },
    }
}

/// The response to an entry of the log.
pub open spec fn entry_resp(s: SmState, e: LogEntry) -> LedgeResp {
    match e.payload {
        EntryPayload::Normal(op) => step_resp(s, op),
        _ => LedgeResp::Noop,
    }
}

/// The state after some entries.
pub open spec fn run_state(s: SmState, es: Seq<LogEntry>) -> SmState
    decreases es.len(),
{
    if es.len() == 0 {
        s
    } else {
        entry_state(run_state(s, es.drop_last()), es.last())
    }
}

/// The responses to some entries, in order.
pub open spec fn run_resps(s: SmState, es: Seq<LogEntry>) -> Seq<LedgeResp>
    decreases es.len(),
{
    if es.len() == 0 {
        Seq::empty()
    } else {
        run_resps(s, es.drop_last()).push(entry_resp(run_state(s, es.drop_last()), es.last()))
    }
}

/// The changes that put some leases into an empty store.
pub open spec fn lease_puts(v: Seq<Lease>) -> Seq<leases::LeaseRecordView> {
    Seq::new(v.len(), |i: int| leases::LeaseRecordView::Put { lease: v[i]@ })
}

/// No version counter can run out within `n` writes.
pub open spec fn room(refs: Map<Seq<u8>, RefSlot>, n: int) -> bool {
    forall|k: Seq<u8>| #[trigger] refs.contains_key(k) ==> refs[k].committed.version + n <= u64::MAX
}

/// The version counter does not run out with a command.
pub open spec fn command_room(s: SmState, op: LedgeOp) -> bool {
    match op {
        LedgeOp::RefUpdate { name, expected_bytes, .. } => store::write_room(
            store::slot_at(s.refs, vstd::utf8::encode_utf8(name@)),
            op::expected_id(expected_bytes),
        ),
        _ => true,
    }
}

/// The version counter does not run out with an entry.
pub open spec fn entry_room(s: SmState, e: LogEntry) -> bool {
    e.payload matches EntryPayload::Normal(op) ==> command_room(s, op)
}

/// No version counter runs out while some entries are applied.
pub open spec fn run_room(s: SmState, es: Seq<LogEntry>) -> bool
    decreases es.len(),
{
    es.len() == 0 || (run_room(s, es.drop_last()) && entry_room(
        run_state(s, es.drop_last()),
        es.last(),
    ))
}

/// The lease changes of some entries, in order.
pub open spec fn run_lease_records(es: Seq<LogEntry>) -> Seq<leases::LeaseRecordView>
    decreases es.len(),
{
    if es.len() == 0 {
        Seq::empty()
    } else {
        run_lease_records(es.drop_last()) + match es.last().payload {
            EntryPayload::Normal(op) => lease_records(op),
            _ => Seq::empty(),
        }
    }
}

/// The commands of an entry name references properly.
pub open spec fn entry_ok(e: LogEntry) -> bool {
    e.payload matches EntryPayload::Normal(op) ==> op::op_ok(op)
}

/// `after` goes on where `before` ends, and replaying what was added to it takes
/// what readers saw in `m0` to what they see in `m1`.
pub open spec fn logged(
    before: Seq<WalEntry>,
    after: Seq<WalEntry>,
    m0: Map<Seq<u8>, RefSlot>,
    m1: Map<Seq<u8>, RefSlot>,
) -> bool {
    &&& before.len() <= after.len()
    &&& after.subrange(0, before.len() as int) == before
    &&& store::replay(
        store::visible_refs(m0),
        after.subrange(before.len() as int, after.len() as int),
    ) == store::visible_refs(m1)
}

proof fn lemma_logged_same(l: Seq<WalEntry>, m: Map<Seq<u8>, RefSlot>)
    ensures
        logged(l, l, m, m),
{
    assert(l.subrange(0, l.len() as int) =~= l);
    assert(l.subrange(l.len() as int, l.len() as int) =~= Seq::<WalEntry>::empty());
}

proof fn lemma_logged_chain(
    a: Seq<WalEntry>,
    b: Seq<WalEntry>,
    c: Seq<WalEntry>,
    m0: Map<Seq<u8>, RefSlot>,
    m1: Map<Seq<u8>, RefSlot>,
    m2: Map<Seq<u8>, RefSlot>,
)
    requires
        logged(a, b, m0, m1),
        logged(b, c, m1, m2),
    ensures
        logged(a, c, m0, m2),
{
    let x = b.subrange(a.len() as int, b.len() as int);
    let y = c.subrange(b.len() as int, c.len() as int);
    assert(c.subrange(0, a.len() as int) =~= c.subrange(0, b.len() as int).subrange(
        0,
        a.len() as int,
    ));
    assert(c.subrange(a.len() as int, c.len() as int) =~= x + y) by {
        assert forall|i: int| 0 <= i < x.len() implies c[a.len() + i] == x[i] by {
            assert(c.subrange(0, b.len() as int)[a.len() + i] == b[a.len() + i]);
        }
    }
    store_laws::lemma_replay_concat(store::visible_refs(m0), x, y);
}

/// The state machine. Its log records are handed out by the two stores.
pub struct StateMachineStore {
    refs: RefStoreImpl,
    leases: LeaseStore,
    txns: KeyTable<16, TxnRecord>,
    last_applied_log: Option<LogId>,
    last_membership: StoredMembership,
    snapshot_idx: u64,
}

impl View for StateMachineStore {
    type V = SmState;

    closed spec fn view(&self) -> SmState {
        SmState {
            refs: self.refs@,
            leases: self.leases@,
            txns: self.txns@.map_values(|t: TxnRecord| t@),
            last_applied: self.last_applied_log,
            membership: self.last_membership@,
        }
    }
}

/// A full copy of the applied state.
pub struct StateDump {
    pub refs: Vec<(RefName, RefEntry)>,
    pub leases: Vec<Lease>,
    pub txn_records: Vec<(TxnId, TxnRecord)>,
}

/// `v` lists the transaction records of `m`, in ascending order of their
/// identifiers.
pub open spec fn lists_txns(v: Seq<(TxnId, TxnRecord)>, m: Map<Seq<u8>, TxnView>) -> bool {
    &&& forall|i: int|
        0 <= i < v.len() ==> m.contains_key((#[trigger] v[i]).0.bytes@) && m[v[i].0.bytes@]
            == v[i].1@
    &&& forall|i: int, j: int|
        0 <= i < j < v.len() ==> keytable::key_less(
            (#[trigger] v[i]).0.bytes@,
            (#[trigger] v[j]).0.bytes@,
        )
    &&& forall|k: Seq<u8>| #[trigger]
        m.contains_key(k) ==> exists|i: int| 0 <= i < v.len() && (#[trigger] v[i]).0.bytes@ == k
}

/// `d` is a copy of the state: what readers see of the references, the leases
/// and the transaction records, each in ascending order.
pub open spec fn dump_of(d: StateDump, s: SmState) -> bool {
    &&& store::lists_refs(d.refs@, store::visible_refs(s.refs))
    &&& store::refs_in_order(d.refs@)
    &&& leases::lists_leases(d.leases@, leases::live_leases(s.leases, 0))
    &&& lists_txns(d.txn_records@, s.txns)
}

/// The leases of a copy, put in one after the other.
pub open spec fn lease_map(v: Seq<Lease>) -> Map<Seq<u8>, leases::LeaseView>
    decreases v.len(),
{
    if v.len() == 0 {
        Map::empty()
    } else {
        lease_map(v.drop_last()).insert(v.last().id.bytes@, v.last()@)
    }
}

/// The transaction records of a copy, put in one after the other.
pub open spec fn txn_map(v: Seq<(TxnId, TxnRecord)>) -> Map<Seq<u8>, TxnView>
    decreases v.len(),
{
    if v.len() == 0 {
        Map::empty()
    } else {
        txn_map(v.drop_last()).insert(v.last().0.bytes@, v.last().1@)
    }
}

/// The state that a copy describes, with the given bookkeeping.
pub open spec fn restored(
    d: StateDump,
    last_applied: Option<LogId>,
    membership: MembershipView,
) -> SmState {
    SmState {
        refs: store::unlocked_slots(store::with_entries(Map::empty(), d.refs@)),
        leases: lease_map(d.leases@),
        txns: txn_map(d.txn_records@),
        last_applied,
        membership,
    }
}

/// What a snapshot covers.
#[derive(Debug)]
pub struct SnapshotMeta {
    pub last_log_id: Option<LogId>,
    pub last_membership: StoredMembership,
    pub snapshot_id: String,
}

/// The spelling of a snapshot's name: the leader, the index and a running
/// number.
pub open spec fn snapshot_name(last: Option<LogId>, idx: u64) -> Seq<u8> {
    match last {
        Some(id) => seq![84u8] + decimal::digits(id.term as nat) + seq![45u8, 78]
            + decimal::digits(id.node_id as nat) + seq![45u8] + decimal::digits(id.index as nat)
            + seq![45u8] + decimal::digits(idx as nat),
        None => seq![45u8, 45] + decimal::digits(idx as nat),
    }
}

fn format_snapshot_name(last: Option<LogId>, idx: u64) -> (r: String)
    ensures
        vstd::utf8::encode_utf8(r@) == snapshot_name(last, idx),
{
    let mut text: Vec<u8> = Vec::new();
    match last {
        Some(id) => {
            text.push(84);
            push_all(&mut text, to_decimal(id.term).as_slice());
            text.push(45);
            text.push(78);
            push_all(&mut text, to_decimal(id.node_id).as_slice());
            text.push(45);
            push_all(&mut text, to_decimal(id.index).as_slice());
            text.push(45);
            push_all(&mut text, to_decimal(idx).as_slice());
            proof {
                decimal::digits_value(id.term as nat);
                decimal::digits_value(id.node_id as nat);
                decimal::digits_value(id.index as nat);
                decimal::digits_value(idx as nat);
            }
        },
        None => {
            text.push(45);
            text.push(45);
            push_all(&mut text, to_decimal(idx).as_slice());
            proof {
                decimal::digits_value(idx as nat);
            }
        },
    }
    proof {
        assert(text@ =~= snapshot_name(last, idx));
        types::lemma_ascii_is_utf8(text@);
    }
    match types::string_from_utf8(text) {
        Some(s) => s,
        None => String::new(),
    }
}

impl StateMachineStore {
    /// An empty state machine.
    pub fn new() -> (r: Self)
        ensures
            r@ == (SmState {
                refs: Map::empty(),
                leases: Map::empty(),
                txns: Map::empty(),
                last_applied: None,
                membership: MembershipView { log_id: None, membership: Seq::empty() },
            }),
            r.snapshots_named() == 0,
            r.ref_log() == Seq::<WalEntry>::empty(),
            r.lease_log() == Seq::<leases::LeaseRecordView>::empty(),
    {
        Self::open(RefStoreImpl::new(), LeaseStore::new(), None)
    }

    /// How many snapshots have been named.
    pub closed spec fn snapshots_named(&self) -> u64 {
        self.snapshot_idx
    }

    /// The reference changes that are not yet on disk, oldest first.
    pub closed spec fn ref_log(&self) -> Seq<WalEntry> {
        self.refs.pending()
    }

    /// The lease changes that are not yet on disk, oldest first.
    pub closed spec fn lease_log(&self) -> Seq<leases::LeaseRecordView> {
        self.leases.pending()
    }

    /// The state machine over recovered stores. `meta` is what was recorded of
    /// the last applied entry; without it nothing counts as applied.
    pub fn open(
        refs: RefStoreImpl,
        leases: LeaseStore,
        meta: Option<(Option<LogId>, StoredMembership)>,
    ) -> (r: Self)
        ensures
            r@ == (SmState {
                refs: refs@,
                leases: leases@,
                txns: Map::empty(),
                last_applied: match meta {
                    Some(m) => m.0,
                    None => None,
                },
                membership: match meta {
                    Some(m) => m.1@,
                    None => MembershipView { log_id: None, membership: Seq::empty() },
                },
            }),
            r.ref_log() == refs.pending(),
            r.lease_log() == leases.pending(),
            r.snapshots_named() == 0,
    {
        let (last_applied_log, last_membership) = match meta {
            Some(m) => m,
            None => (None, StoredMembership { log_id: None, membership: Vec::new() }),
        };
        let txns: KeyTable<16, TxnRecord> = KeyTable::new();
        assert(txns@.map_values(|t: TxnRecord| t@) =~= Map::<Seq<u8>, TxnView>::empty());
        StateMachineStore {
            refs,
            leases,
            txns,
            last_applied_log,
            last_membership,
            snapshot_idx: 0,
        }
    }

    /// Hands out the reference changes since the last call.
    pub fn take_ref_log(&mut self) -> (r: Vec<WalEntry>)
        ensures
            r@ == old(self).ref_log(),
            final(self)@ == old(self)@,
            final(self).ref_log() == Seq::<WalEntry>::empty(),
            final(self).lease_log() == old(self).lease_log(),
            final(self).snapshots_named() == old(self).snapshots_named(),
    {
        self.refs.take_pending()
    }

    /// Hands out the lease changes since the last call.
    pub fn take_lease_log(&mut self) -> (r: Vec<LeaseRecord>)
        ensures
            leases::record_views(r@) == old(self).lease_log(),
            final(self)@ == old(self)@,
            final(self).ref_log() == old(self).ref_log(),
            final(self).lease_log() == Seq::<leases::LeaseRecordView>::empty(),
            final(self).snapshots_named() == old(self).snapshots_named(),
    {
        self.leases.take_pending()
    }

    /// Applies one command.
    #[verifier::rlimit(40)]
    pub fn apply_one(&mut self, op: &LedgeOp) -> (r: LedgeResp)
        requires
            op::op_ok(*op),
            command_room(old(self)@, *op),
        ensures
            final(self)@ == step_state(old(self)@, *op),
            r == step_resp(old(self)@, *op),
            logged(
                old(self).ref_log(),
                final(self).ref_log(),
                old(self)@.refs,
                final(self)@.refs,
            ),
            final(self).lease_log() == old(self).lease_log() + lease_records(*op),
            final(self).snapshots_named() == old(self).snapshots_named(),
            final(self)@.last_applied == old(self)@.last_applied,
            final(self)@.membership == old(self)@.membership,
            match *op {
                LedgeOp::RefUpdate { name, target_bytes, expected_bytes, hlc } => {
                    let m = old(self)@.refs;
                    let n = vstd::utf8::encode_utf8(name@);
                    let locked = m.contains_key(n) && m[n].prepared is Some;
                    let there = m.contains_key(n) && m[n].committed.version != 0;
                    let met = match expected_bytes {
                        Some(x) => there && m[n].committed.target.bytes == x,
                        None => !there,
                    };
                    &&& final(self)@.leases == old(self)@.leases
                    &&& final(self)@.txns == old(self)@.txns
                    &&& r is RefUpdated <==> !locked && met
                    &&& r matches LedgeResp::RefUpdated(e) ==> {
                        &&& e.target.bytes == target_bytes && e.hlc == hlc
                        &&& e.version == if there {
                            m[n].committed.version + 1
                        } else {
                            1
                        }
                        &&& final(self)@.refs == m.insert(n, (RefSlot { committed: e, prepared: None }))
                    }
                    &&& !(r is RefUpdated) ==> final(self)@.refs == m
                    &&& !(r is RefUpdated) && (locked || there) ==> r == LedgeResp::Conflict(
                        m[n].committed,
                    )
                    &&& !(r is RefUpdated) && !locked && !there ==> r is NotFound
                },
                LedgeOp::RefDelete { name, expected_bytes, hlc } => {
                    let m = old(self)@.refs;
                    let n = vstd::utf8::encode_utf8(name@);
                    let locked = m.contains_key(n) && m[n].prepared is Some;
                    let there = m.contains_key(n) && m[n].committed.version != 0;
                    &&& final(self)@.leases == old(self)@.leases
                    &&& final(self)@.txns == old(self)@.txns
                    &&& r is Deleted <==> !locked && there && m[n].committed.target.bytes
                        == expected_bytes
                    &&& r is Deleted ==> final(self)@.refs == m.remove(n)
                    &&& !(r is Deleted) ==> final(self)@.refs == m
                    &&& !(r is Deleted) && (locked || there) ==> r == LedgeResp::Conflict(m[n].committed)
                    &&& !(r is Deleted) && !locked && !there ==> r is NotFound
                },
                LedgeOp::LeasePut { lease } => {
                    &&& final(self)@.refs == old(self)@.refs
                    &&& final(self)@.txns == old(self)@.txns
                    &&& final(self)@.leases == old(self)@.leases.insert(lease.id.bytes@, lease@)
                    &&& final(self).lease_log() == old(self).lease_log().push(
                        (leases::LeaseRecordView::Put { lease: lease@ }),
                    )
                    &&& r is LeaseOk
                },
                LedgeOp::LeaseTombstone { id, hlc } => {
                    &&& final(self)@.refs == old(self)@.refs
                    &&& final(self)@.txns == old(self)@.txns
                    &&& final(self)@.leases == old(self)@.leases.remove(id.bytes@)
                    &&& final(self).lease_log() == old(self).lease_log().push(
                        (leases::LeaseRecordView::Tombstone { id, hlc }),
                    )
                    &&& r is LeaseOk
                },
                LedgeOp::TxnBegin { txn_id, participants } => {
                    &&& final(self)@.refs == old(self)@.refs
                    &&& final(self)@.leases == old(self)@.leases
                    &&& final(self)@.txns == old(self)@.txns.insert(
                        txn_id.bytes@,
                        (TxnView { decision: TxnDecision::Pending, participants: participants@ }),
                    )
                    &&& r == LedgeResp::TxnState(Some(TxnDecision::Pending))
                },
                LedgeOp::TxnDecide { txn_id, commit } => {
                    let k = txn_id.bytes@;
                    let before = old(self)@.txns;
                    &&& final(self)@.refs == old(self)@.refs
                    &&& final(self)@.leases == old(self)@.leases
                    &&& final(self)@.txns.remove(k) == before.remove(k)
                    &&& final(self)@.txns.contains_key(k)
                    &&& final(self)@.txns[k].decision == if commit {
                        TxnDecision::Commit
                    } else {
                        TxnDecision::Abort
                    }
                    &&& before.contains_key(k) ==> final(self)@.txns[k].participants
                        == before[k].participants
                    &&& !before.contains_key(k) ==> final(self)@.txns[k].participants.len() == 0
                    &&& r == LedgeResp::TxnState(Some(final(self)@.txns[k].decision))
                },
                LedgeOp::TxnEnd { txn_id } => {
                    &&& final(self)@.refs == old(self)@.refs
                    &&& final(self)@.leases == old(self)@.leases
                    &&& final(self)@.txns == old(self)@.txns.remove(txn_id.bytes@)
                    &&& r == LedgeResp::TxnState(None)
                },
            },
    {
        let ghost before = self.refs.pending();
        let ghost m0 = self.refs@;
        let ghost l0 = self.leases.pending();
        let ghost t0 = self.txns@;
        proof {
            lemma_logged_same(before, m0);
            assert(l0 + Seq::<leases::LeaseRecordView>::empty() =~= l0);
        }
        match op {
            LedgeOp::RefUpdate { .. } | LedgeOp::RefDelete { .. } => {
                match op.to_applied() {
                    Some(Ok(applied)) => {
                        let out = self.refs.apply_op(&applied);
                        proof {
                            let log = store::op_log(
                                store::slot_at(m0, store::op_name(applied)),
                                applied,
                            );
                            store_laws::log_describes_operation(m0, applied);
                            assert((before + log).subrange(0, before.len() as int) =~= before);
                            assert((before + log).subrange(
                                before.len() as int,
                                (before + log).len() as int,
                            ) =~= log);
                        }
                        outcome_to_resp(out)
                    },
                    _ => LedgeResp::Noop,
                }
            },
            LedgeOp::LeasePut { lease } => {
                self.leases.put(lease.duplicate());
                assert(self.leases.pending() =~= l0 + lease_records(*op));
                LedgeResp::LeaseOk
            },
            LedgeOp::LeaseTombstone { id, hlc } => {
                self.leases.tombstone_with_hlc(*id, *hlc);
                assert(self.leases.pending() =~= l0 + lease_records(*op));
                LedgeResp::LeaseOk
            },
            LedgeOp::TxnBegin { txn_id, participants } => {
                let rec = TxnRecord {
                    decision: TxnDecision::Pending,
                    participants: copy_shards(participants),
                };
                let ghost v = rec@;
                self.txns.insert(txn_id.bytes, rec);
                assert(self.txns@.map_values(|t: TxnRecord| t@) =~= t0.map_values(
                    |t: TxnRecord| t@,
                ).insert(txn_id.bytes@, v));
                LedgeResp::TxnState(Some(TxnDecision::Pending))
            },
            LedgeOp::TxnDecide { txn_id, commit } => {
                let decision: TxnDecision = if *commit {
                    TxnDecision::Commit
                } else {
                    TxnDecision::Abort
                };
                let participants: Vec<u32> = match self.txns.get(&txn_id.bytes) {
                    Some(t) => copy_shards(&t.participants),
                    None => Vec::new(),
                };
                let rec = TxnRecord { decision, participants };
                let ghost v = rec@;
                self.txns.insert(txn_id.bytes, rec);
                assert(self.txns@.map_values(|t: TxnRecord| t@) =~= t0.map_values(
                    |t: TxnRecord| t@,
                ).insert(txn_id.bytes@, v));
                LedgeResp::TxnState(Some(decision))
            },
            LedgeOp::TxnEnd { txn_id } => {
                self.txns.remove(&txn_id.bytes);
                assert(self.txns@.map_values(|t: TxnRecord| t@) =~= t0.map_values(
                    |t: TxnRecord| t@,
                ).remove(txn_id.bytes@));
                LedgeResp::TxnState(None)
            },
        }
    }

    /// Whether an entry can be applied: it names references properly, and the version
    /// counter has room for it.
    pub fn entry_fits(&self, e: &LogEntry) -> (r: bool)
        ensures
            r == (entry_ok(*e) && entry_room(self@, *e)),
    {
        match &e.payload {
            EntryPayload::Normal(op) => match op.to_applied() {
                Some(Ok(applied)) => self.refs.op_fits(&applied),
                Some(Err(_)) => false,
                None => true,
            },
            _ => true,
        }
    }

    /// Applies entries of the log, in order. The responses and the new state
    /// depend on the state and the entries alone.
    pub fn apply(&mut self, entries: &Vec<LogEntry>) -> (r: Vec<LedgeResp>)
        requires
            forall|i: int| 0 <= i < entries.len() ==> entry_ok(#[trigger] entries@[i]),
            run_room(old(self)@, entries@),
        ensures
            final(self)@ == run_state(old(self)@, entries@),
            r@ == run_resps(old(self)@, entries@),
            logged(
                old(self).ref_log(),
                final(self).ref_log(),
                old(self)@.refs,
                final(self)@.refs,
            ),
            final(self).lease_log() == old(self).lease_log() + run_lease_records(entries@),
            final(self).snapshots_named() == old(self).snapshots_named(),
    {
        let ghost s0 = self@;
        let ghost p0 = self.refs.pending();
        let ghost l0 = self.lease_log();
        let mut responses: Vec<LedgeResp> = Vec::new();
        let mut i: usize = 0;
        proof {
            assert(entries@.subrange(0, 0) =~= Seq::<LogEntry>::empty());
            lemma_logged_same(p0, s0.refs);
            assert(l0 + run_lease_records(entries@.subrange(0, 0)) =~= l0);
            assert(entries@.subrange(0, entries@.len() as int) =~= entries@);
        }
        while i < entries.len()
            invariant
                i <= entries.len(),
                forall|i: int| 0 <= i < entries.len() ==> entry_ok(#[trigger] entries@[i]),
                self@ == run_state(s0, entries@.subrange(0, i as int)),
                responses@ == run_resps(s0, entries@.subrange(0, i as int)),
                run_room(s0, entries@),
                self.lease_log() == l0 + run_lease_records(entries@.subrange(0, i as int)),
                logged(p0, self.refs.pending(), s0.refs, self@.refs),
                self.snapshots_named() == old(self).snapshots_named(),
            decreases entries.len() - i,
        {
            let ghost now = entries@.subrange(0, i + 1);
            let ghost s = self@;
            let ghost p = self.refs.pending();
            proof {
                assert(now.drop_last() =~= entries@.subrange(0, i as int));
                assert(now.last() == entries@[i as int]);
                assert(entry_ok(entries@[i as int]));
                lemma_run_room_part(s0, entries@, i + 1);
                lemma_logged_same(p, s.refs);
            }
            let e = &entries[i];
            self.last_applied_log = Some(e.log_id);
            match &e.payload {
                EntryPayload::Blank => {
                    responses.push(LedgeResp::Noop);
                },
                EntryPayload::Normal(op) => {
                    let resp = self.apply_one(op);
                    responses.push(resp);
                },
                EntryPayload::Membership(m) => {
                    self.last_membership = StoredMembership {
                        log_id: Some(e.log_id),
                        membership: copy_bytes(m.as_slice()),
                    };
                    responses.push(LedgeResp::Noop);
                },
            }
            proof {
                lemma_logged_chain(p0, p, self.refs.pending(), s0.refs, s.refs, self@.refs);
                assert(self.lease_log() =~= l0 + run_lease_records(now));
            }
            i += 1;
        }
        assert(entries@.subrange(0, i as int) =~= entries@);
        responses
    }

    /// The last applied entry and the membership in force.
    pub fn applied_state(&self) -> (r: (Option<LogId>, StoredMembership))
        ensures
            r.0 == self@.last_applied,
            r.1@ == self@.membership,
    {
        (self.last_applied_log, self.last_membership.duplicate())
    }

    /// The entry of a reference.
    pub fn refs_get(&self, name: &RefName) -> (r: Option<RefEntry>)
        ensures
            r == slot::visible(store::slot_at(self@.refs, name@)),
            r is Some <==> self@.refs.contains_key(name@) && self@.refs[name@].committed.version != 0,
            r is Some ==> r->0 == self@.refs[name@].committed,
    {
        self.refs.get(name)
    }

    /// All leases, but for those that never began to run.
    pub fn leases_all(&self) -> (r: Vec<Lease>)
        ensures
            leases::lists_leases(r@, leases::live_leases(self@.leases, 0)),
            forall|i: int|
                0 <= i < r@.len() ==> {
                    &&& self@.leases.contains_key((#[trigger] r@[i]).id.bytes@)
                    &&& self@.leases[r@[i].id.bytes@] == r@[i]@
                    &&& r@[i].expires_at_ms > 0
                },
            forall|k: Seq<u8>| #[trigger]
                self@.leases.contains_key(k) && self@.leases[k].expires_at_ms > 0 ==> exists|i: int|
                    0 <= i < r@.len() && (#[trigger] r@[i]).id.bytes@ == k,
    {
        self.leases.live(0)
    }

    /// The decision on a transaction, where one is on record.
    pub fn txn_decision(&self, txn_id: TxnId) -> (r: Option<TxnDecision>)
        ensures
            r == if self@.txns.contains_key(txn_id.bytes@) {
                Some(self@.txns[txn_id.bytes@].decision)
            } else {
                None
            },
    {
        match self.txns.get(&txn_id.bytes) {
            Some(t) => Some(t.decision),
            None => None,
        }
    }

    /// A full copy of the applied state.
    pub fn dump(&self) -> (r: StateDump)
        ensures
            dump_of(r, self@),
    {
        let refs = self.refs.list("");
        proof {
            reveal_strlit("");
            store::lemma_all_match(store::visible_refs(self@.refs));
        }
        let leases = self.leases.live(0);
        let mut txn_records: Vec<(TxnId, TxnRecord)> = Vec::new();
        let n: usize = self.txns.len();
        let ghost rows = self.txns.rows();
        let mut i: usize = 0;
        while i < n
            invariant
                i <= n == rows.len(),
                rows == self.txns.rows(),
                keytable::keys_ascending(rows),
                txn_records.len() == i,
                forall|x: int|
                    0 <= x < i ==> (#[trigger] txn_records@[x]).0.bytes == rows[x].0
                        && txn_records@[x].1@ == rows[x].1@,
            decreases n - i,
        {
            let (key, rec) = self.txns.row(i);
            txn_records.push(
                (
                    TxnId::from_bytes(*key),
                    TxnRecord {
                        decision: rec.decision,
                        participants: copy_shards(&rec.participants),
                    },
                ),
            );
            i += 1;
        }
        proof {
            let m = self@.txns;
            assert forall|x: int| 0 <= x < txn_records.len() implies m.contains_key(
                (#[trigger] txn_records@[x]).0.bytes@,
            ) && m[txn_records@[x].0.bytes@] == txn_records@[x].1@ by {
                keytable::lemma_row(rows, x);
            }
            assert forall|x: int, y: int| 0 <= x < y < txn_records.len() implies keytable::key_less(
                (#[trigger] txn_records@[x]).0.bytes@,
                (#[trigger] txn_records@[y]).0.bytes@,
            ) by {
                assert(keytable::key_less(rows[x].0@, rows[y].0@));
            }
            assert forall|k: Seq<u8>| #[trigger] m.contains_key(k) implies exists|x: int|
                0 <= x < txn_records.len() && (#[trigger] txn_records@[x]).0.bytes@ == k by {
                let x = choose|x: int| 0 <= x < rows.len() && (#[trigger] rows[x]).0@ == k;
                assert(txn_records@[x].0.bytes@ == k);
            }
        }
        StateDump { refs, leases, txn_records }
    }

    /// Replaces references, leases and transaction records by those of a copy,
    /// as they are.
    pub fn restore(&mut self, dump: StateDump)
        ensures
            final(self)@ == restored(dump, old(self)@.last_applied, old(self)@.membership),
            final(self).ref_log() == seq![WalEntry::Checkpoint { leaves: dump.refs }],
            final(self).lease_log() == lease_puts(dump.leases@),
            final(self).snapshots_named() == old(self).snapshots_named(),
    {
        let mut refs = RefStoreImpl::new();
        refs.restore_from(dump.refs);
        assert(refs.pending() =~= seq![WalEntry::Checkpoint { leaves: dump.refs }]);
        let mut fresh_leases = LeaseStore::new();
        let ghost lv = dump.leases@;
        let mut i: usize = 0;
        assert(lv.subrange(0, 0) =~= Seq::<Lease>::empty());
        while i < dump.leases.len()
            invariant
                i <= dump.leases.len(),
                lv == dump.leases@,
                fresh_leases@ == lease_map(lv.subrange(0, i as int)),
                fresh_leases.pending() == lease_puts(lv.subrange(0, i as int)),
            decreases dump.leases.len() - i,
        {
            let ghost now = lv.subrange(0, i + 1);
            assert(now.drop_last() =~= lv.subrange(0, i as int));
            fresh_leases.put(dump.leases[i].duplicate());
            assert(lease_puts(now) =~= lease_puts(now.drop_last()).push(
                leases::LeaseRecordView::Put { lease: lv[i as int]@ },
            ));
            i += 1;
        }
        assert(lv.subrange(0, i as int) =~= lv);
        let mut txns: KeyTable<16, TxnRecord> = KeyTable::new();
        let ghost tv = dump.txn_records@;
        let mut j: usize = 0;
        assert(tv.subrange(0, 0) =~= Seq::<(TxnId, TxnRecord)>::empty());
        assert(txns@.map_values(|t: TxnRecord| t@) =~= Map::<Seq<u8>, TxnView>::empty());
        while j < dump.txn_records.len()
            invariant
                j <= dump.txn_records.len(),
                tv == dump.txn_records@,
                txns@.map_values(|t: TxnRecord| t@) == txn_map(tv.subrange(0, j as int)),
            decreases dump.txn_records.len() - j,
        {
            let ghost now = tv.subrange(0, j + 1);
            let ghost before = txns@;
            assert(now.drop_last() =~= tv.subrange(0, j as int));
            let (id, rec) = &dump.txn_records[j];
            let copy = TxnRecord {
                decision: rec.decision,
                participants: copy_shards(&rec.participants),
            };
            let ghost v = copy@;
            txns.insert(id.bytes, copy);
            assert(txns@.map_values(|t: TxnRecord| t@) =~= before.map_values(
                |t: TxnRecord| t@,
            ).insert(id.bytes@, v));
            j += 1;
        }
        assert(tv.subrange(0, j as int) =~= tv);
        self.refs = refs;
        self.leases = fresh_leases;
        self.txns = txns;
    }

    /// Replaces the state by that of a snapshot and goes on behind what it
    /// covers.
    pub fn install_snapshot(&mut self, meta: &SnapshotMeta, dump: StateDump)
        ensures
            final(self)@ == restored(dump, meta.last_log_id, meta.last_membership@),
            final(self).ref_log() == seq![WalEntry::Checkpoint { leaves: dump.refs }],
            final(self).lease_log() == lease_puts(dump.leases@),
            final(self).snapshots_named() == old(self).snapshots_named(),
    {
        self.restore(dump);
        self.last_applied_log = meta.last_log_id;
        self.last_membership = meta.last_membership.duplicate();
    }

    /// A snapshot of the current state, under a new name.
    pub fn build_snapshot(&mut self) -> (r: (SnapshotMeta, StateDump))
        requires
            old(self).snapshots_named() < u64::MAX,
        ensures
            final(self)@ == old(self)@,
            final(self).snapshots_named() == old(self).snapshots_named() + 1,
            final(self).ref_log() == old(self).ref_log(),
            final(self).lease_log() == old(self).lease_log(),
            r.0.last_log_id == old(self)@.last_applied,
            r.0.last_membership@ == old(self)@.membership,
            vstd::utf8::encode_utf8(r.0.snapshot_id@) == snapshot_name(
                old(self)@.last_applied,
                (old(self).snapshots_named() + 1) as u64,
            ),
            dump_of(r.1, old(self)@),
    {
        self.snapshot_idx = self.snapshot_idx + 1;
        let meta = SnapshotMeta {
            last_log_id: self.last_applied_log,
            last_membership: self.last_membership.duplicate(),
            snapshot_id: format_snapshot_name(self.last_applied_log, self.snapshot_idx),
        };
        (meta, self.dump())
    }

    /// A handle for reading the applied state.
    pub fn read_handle(&self) -> (r: ReadHandle<'_>)
        ensures
            r.state() == self@,
    {
        ReadHandle { sm: self }
    }
}

proof fn lemma_run_room_part(s: SmState, es: Seq<LogEntry>, n: int)
    requires
        run_room(s, es),
        0 <= n <= es.len(),
    ensures
        run_room(s, es.subrange(0, n)),
    decreases es.len(),
{
    if n == es.len() {
        assert(es.subrange(0, n) =~= es);
    } else {
        lemma_run_room_part(s, es.drop_last(), n);
        assert(es.drop_last().subrange(0, n) =~= es.subrange(0, n));
    }
}

proof fn lemma_room_run(s: SmState, es: Seq<LogEntry>, n: int)
    requires
        room(s.refs, n),
        es.len() <= n <= u64::MAX,
    ensures
        room(run_state(s, es).refs, n - es.len()),
    decreases es.len(),
{
    if es.len() > 0 {
        lemma_room_run(s, es.drop_last(), n);
        lemma_room_step(run_state(s, es.drop_last()), es.last(), n - es.len() + 1);
    }
}

/// Counters that are as far from their end as there are entries do not run out.
pub proof fn room_is_enough(s: SmState, es: Seq<LogEntry>)
    requires
        room(s.refs, es.len() as int),
        es.len() <= u64::MAX,
    ensures
        run_room(s, es),
    decreases es.len(),
{
    if es.len() > 0 {
        let short = es.drop_last();
        room_is_enough(s, short);
        lemma_room_run(s, short, es.len() as int);
    }
}

proof fn lemma_room_step(s: SmState, e: LogEntry, n: int)
    requires
        room(s.refs, n),
        1 <= n <= u64::MAX,
    ensures
        room(entry_state(s, e).refs, n - 1),
{
    let after = entry_state(s, e).refs;
    assert forall|k: Seq<u8>| #[trigger] after.contains_key(k) implies after[k].committed.version + (
    n - 1) <= u64::MAX by {
        if s.refs.contains_key(k) {
            assert(s.refs[k].committed.version + n <= u64::MAX);
        }
    }
}

/// A read-only view of a state machine.
pub struct ReadHandle<'a> {
    sm: &'a StateMachineStore,
}

impl<'a> ReadHandle<'a> {
    /// The state that is read.
    pub closed spec fn state(&self) -> SmState {
        self.sm@
    }

    /// The decision on a transaction, where one is on record.
    pub fn txn_decision(&self, txn_id: TxnId) -> (r: Option<TxnDecision>)
        ensures
            r == if self.state().txns.contains_key(txn_id.bytes@) {
                Some(self.state().txns[txn_id.bytes@].decision)
            } else {
                None
            },
    {
        self.sm.txn_decision(txn_id)
    }

    /// The entry of a reference; none for what is no name.
    pub fn applied_ref(&self, name: &str) -> (r: Option<RefEntry>)
        ensures
            r == if types::nul_free(vstd::utf8::encode_utf8(name@)) {
                slot::visible(
                    store::slot_at(self.state().refs, vstd::utf8::encode_utf8(name@)),
                )
            } else {
                None
            },
            ({
                let n = vstd::utf8::encode_utf8(name@);
                let m = self.state().refs;
                &&& r is Some <==> !n.contains(0u8) && m.contains_key(n) && m[n].committed.version != 0
                &&& r is Some ==> r->0 == m[n].committed
            }),
    {
        match RefName::new(name) {
            Ok(n) => self.sm.refs.get(&n),
            Err(_) => None,
        }
    }

    /// All leases, but for those that never began to run.
    pub fn applied_leases(&self) -> (r: Vec<Lease>)
        ensures
            leases::lists_leases(r@, leases::live_leases(self.state().leases, 0)),
            forall|i: int|
                0 <= i < r@.len() ==> {
                    &&& self.state().leases.contains_key((#[trigger] r@[i]).id.bytes@)
                    &&& self.state().leases[r@[i].id.bytes@] == r@[i]@
                    &&& r@[i].expires_at_ms > 0
                },
            forall|k: Seq<u8>| #[trigger]
                self.state().leases.contains_key(k) && self.state().leases[k].expires_at_ms > 0 ==> exists|i: int|
                    0 <= i < r@.len() && (#[trigger] r@[i]).id.bytes@ == k,
    {
        self.sm.leases.live(0)
    }

    /// The references whose name begins with `prefix`.
    pub fn applied_refs_with_prefix(&self, prefix: &str) -> (r: Vec<(RefName, RefEntry)>)
        ensures
            store::lists_refs(
                r@,
                crate::art::matching(
                    store::visible_refs(self.state().refs),
                    vstd::utf8::encode_utf8(prefix@),
                ),
            ),
            store::refs_in_order(r@),
            forall|i: int|
                0 <= i < r@.len() ==> {
                    let name = (#[trigger] r@[i]).0@;
                    &&& self.state().refs.contains_key(name)
                    &&& self.state().refs[name].committed.version != 0
                    &&& r@[i].1 == self.state().refs[name].committed
                },
            forall|name: Seq<u8>| #[trigger]
                self.state().refs.contains_key(name) && self.state().refs[name].committed.version != 0
                    && vstd::utf8::encode_utf8(prefix@).len() <= name.len() && name.subrange(
                    0,
                    vstd::utf8::encode_utf8(prefix@).len() as int,
                ) == vstd::utf8::encode_utf8(prefix@) ==> exists|i: int|
                    0 <= i < r@.len() && (#[trigger] r@[i]).0@ == name,
            forall|i: int|
                0 <= i < r@.len() ==> {
                    let name = (#[trigger] r@[i]).0@;
                    let p = vstd::utf8::encode_utf8(prefix@);
                    p.len() <= name.len() && name.subrange(0, p.len() as int) == p
                },
    {
        self.sm.refs.list(prefix)
    }

    /// All references.
    pub fn applied_ref_map(&self) -> (r: Vec<(RefName, RefEntry)>)
        ensures
            store::lists_refs(r@, store::visible_refs(self.state().refs)),
            store::refs_in_order(r@),
            forall|i: int|
                0 <= i < r@.len() ==> {
                    let name = (#[trigger] r@[i]).0@;
                    &&& self.state().refs.contains_key(name)
                    &&& self.state().refs[name].committed.version != 0
                    &&& r@[i].1 == self.state().refs[name].committed
                },
            forall|name: Seq<u8>| #[trigger]
                self.state().refs.contains_key(name) && self.state().refs[name].committed.version != 0
                    ==> exists|i: int| 0 <= i < r@.len() && (#[trigger] r@[i]).0@ == name,
    {
        proof {
            reveal_strlit("");
            store::lemma_all_match(store::visible_refs(self.state().refs));
        }
        let r = self.sm.refs.list("");
        assert forall|name: Seq<u8>| #[trigger]
            self.state().refs.contains_key(name) && self.state().refs[name].committed.version
                != 0 implies exists|i: int| 0 <= i < r@.len() && (#[trigger] r@[i]).0@ == name by {
            let p = vstd::utf8::encode_utf8(""@);
            assert(p =~= Seq::<u8>::empty());
            assert(name.subrange(0, 0) =~= p);
        }
        r
    }

    /// The lease of a workspace.
    pub fn applied_lease(&self, id: WorkspaceId) -> (r: Option<Lease>)
        ensures
            match r {
                Some(l) => self.state().leases.contains_key(id.bytes@)
                    && self.state().leases[id.bytes@] == l@,
                None => !self.state().leases.contains_key(id.bytes@),
            },
    {
        self.sm.leases.get(id)
    }

    /// The leases that expire after `now_ms`.
    pub fn applied_leases_live(&self, now_ms: u64) -> (r: Vec<Lease>)
        ensures
            leases::lists_leases(r@, leases::live_leases(self.state().leases, now_ms)),
            forall|i: int|
                0 <= i < r@.len() ==> {
                    &&& self.state().leases.contains_key((#[trigger] r@[i]).id.bytes@)
                    &&& self.state().leases[r@[i].id.bytes@] == r@[i]@
                    &&& r@[i].expires_at_ms > now_ms
                },
            forall|k: Seq<u8>| #[trigger]
                self.state().leases.contains_key(k) && self.state().leases[k].expires_at_ms > now_ms ==> exists|i: int|
                    0 <= i < r@.len() && (#[trigger] r@[i]).id.bytes@ == k,
    {
        self.sm.leases.live(now_ms)
    }

    /// The leases that have expired at `now_ms`.
    pub fn applied_leases_expired(&self, now_ms: u64) -> (r: Vec<Lease>)
        ensures
            leases::lists_leases(r@, leases::expired_leases(self.state().leases, now_ms)),
            forall|i: int|
                0 <= i < r@.len() ==> {
                    &&& self.state().leases.contains_key((#[trigger] r@[i]).id.bytes@)
                    &&& self.state().leases[r@[i].id.bytes@] == r@[i]@
                    &&& r@[i].expires_at_ms <= now_ms
                },
            forall|k: Seq<u8>| #[trigger]
                self.state().leases.contains_key(k) && self.state().leases[k].expires_at_ms <= now_ms ==> exists|i: int|
                    0 <= i < r@.len() && (#[trigger] r@[i]).id.bytes@ == k,
    {
        self.sm.leases.expired(now_ms)
    }
}

// ---------------------------------------------------------------------------
// What the state machine promises
// ---------------------------------------------------------------------------

proof fn lemma_lease_listing(v: Seq<Lease>, k: Seq<u8>)
    requires
        forall|i: int, j: int|
            0 <= i < j < v.len() ==> keytable::key_less(
                (#[trigger] v[i]).id.bytes@,
                (#[trigger] v[j]).id.bytes@,
            ),
    ensures
        lease_map(v).contains_key(k) <==> exists|i: int|
            0 <= i < v.len() && (#[trigger] v[i]).id.bytes@ == k,
        forall|i: int|
            0 <= i < v.len() && (#[trigger] v[i]).id.bytes@ == k ==> lease_map(v)[k] == v[i]@,
    decreases v.len(),
{
    if v.len() > 0 {
        let short = v.drop_last();
        let n = v.len() - 1;
        assert(forall|i: int| 0 <= i < n ==> short[i] == #[trigger] v[i]);
        lemma_lease_listing(short, k);
        if v[n].id.bytes@ == k {
            assert forall|i: int| 0 <= i < v.len() && (#[trigger] v[i]).id.bytes@
                == k implies lease_map(v)[k] == v[i]@ by {
                if i < n {
                    keytable::key_less_antisymmetric(v[i].id.bytes@, v[n].id.bytes@);
                }
            }
        } else {
            if exists|i: int| 0 <= i < v.len() && (#[trigger] v[i]).id.bytes@ == k {
                let i = choose|i: int| 0 <= i < v.len() && (#[trigger] v[i]).id.bytes@ == k;
                assert(short[i].id.bytes@ == k);
            }
            if exists|i: int| 0 <= i < short.len() && (#[trigger] short[i]).id.bytes@ == k {
                let i = choose|i: int| 0 <= i < short.len() && (#[trigger] short[i]).id.bytes@ == k;
                assert(v[i].id.bytes@ == k);
            }
        }
    }
}

proof fn lemma_txn_listing(v: Seq<(TxnId, TxnRecord)>, k: Seq<u8>)
    requires
        forall|i: int, j: int|
            0 <= i < j < v.len() ==> keytable::key_less(
                (#[trigger] v[i]).0.bytes@,
                (#[trigger] v[j]).0.bytes@,
            ),
    ensures
        txn_map(v).contains_key(k) <==> exists|i: int|
            0 <= i < v.len() && (#[trigger] v[i]).0.bytes@ == k,
        forall|i: int|
            0 <= i < v.len() && (#[trigger] v[i]).0.bytes@ == k ==> txn_map(v)[k] == v[i].1@,
    decreases v.len(),
{
    if v.len() > 0 {
        let short = v.drop_last();
        let n = v.len() - 1;
        assert(forall|i: int| 0 <= i < n ==> short[i] == #[trigger] v[i]);
        lemma_txn_listing(short, k);
        if v[n].0.bytes@ == k {
            assert forall|i: int| 0 <= i < v.len() && (#[trigger] v[i]).0.bytes@
                == k implies txn_map(v)[k] == v[i].1@ by {
                if i < n {
                    keytable::key_less_antisymmetric(v[i].0.bytes@, v[n].0.bytes@);
                }
            }
        } else {
            if exists|i: int| 0 <= i < v.len() && (#[trigger] v[i]).0.bytes@ == k {
                let i = choose|i: int| 0 <= i < v.len() && (#[trigger] v[i]).0.bytes@ == k;
                assert(short[i].0.bytes@ == k);
            }
            if exists|i: int| 0 <= i < short.len() && (#[trigger] short[i]).0.bytes@ == k {
                let i = choose|i: int| 0 <= i < short.len() && (#[trigger] short[i]).0.bytes@ == k;
                assert(v[i].0.bytes@ == k);
            }
        }
    }
}

/// Restoring a copy of the state gives it back: the references as readers saw
/// them, versions and times included, the live leases and the transaction
/// records. Locks are not part of a copy.
pub proof fn dump_restore_roundtrip(
    d: StateDump,
    s: SmState,
    last_applied: Option<LogId>,
    membership: MembershipView,
)
    requires
        dump_of(d, s),
    ensures
        restored(d, last_applied, membership) == (SmState {
            refs: store::unlocked_slots(store::visible_refs(s.refs)),
            leases: leases::live_leases(s.leases, 0),
            txns: s.txns,
            last_applied,
            membership,
        }),
{
    store::lemma_listed(d.refs@, store::visible_refs(s.refs));
    let lm = leases::live_leases(s.leases, 0);
    assert forall|k: Seq<u8>| #[trigger]
        lease_map(d.leases@).contains_key(k) == lm.contains_key(k) && (lm.contains_key(k)
            ==> lease_map(d.leases@)[k] == lm[k]) by {
        lemma_lease_listing(d.leases@, k);
    }
    assert(lease_map(d.leases@) =~= lm);
    assert forall|k: Seq<u8>| #[trigger]
        txn_map(d.txn_records@).contains_key(k) == s.txns.contains_key(k) && (s.txns.contains_key(
            k,
        ) ==> txn_map(d.txn_records@)[k] == s.txns[k]) by {
        lemma_txn_listing(d.txn_records@, k);
    }
    assert(txn_map(d.txn_records@) =~= s.txns);
}

/// What a listing of references holds.
pub open spec fn ref_rows(v: Seq<(RefName, RefEntry)>) -> Seq<(Seq<u8>, RefEntry)> {
    Seq::new(v.len(), |i: int| (v[i].0@, v[i].1))
}

/// What a listing of leases holds.
pub open spec fn lease_rows(v: Seq<Lease>) -> Seq<leases::LeaseView> {
    Seq::new(v.len(), |i: int| v[i]@)
}

/// What a listing of transaction records holds.
pub open spec fn txn_rows(v: Seq<(TxnId, TxnRecord)>) -> Seq<(Seq<u8>, TxnView)> {
    Seq::new(v.len(), |i: int| (v[i].0.bytes@, v[i].1@))
}

proof fn lemma_ordered_keys(
    a: Seq<Seq<u8>>,
    b: Seq<Seq<u8>>,
    less: spec_fn(Seq<u8>, Seq<u8>) -> bool,
)
    requires
        forall|x: Seq<u8>, y: Seq<u8>| #[trigger] less(x, y) ==> x != y && !less(y, x),
        forall|i: int, j: int| 0 <= i < j < a.len() ==> less(#[trigger] a[i], #[trigger] a[j]),
        forall|i: int, j: int| 0 <= i < j < b.len() ==> less(#[trigger] b[i], #[trigger] b[j]),
        forall|k: Seq<u8>| #[trigger] a.contains(k) == b.contains(k),
    ensures
        a == b,
    decreases a.len(),
{
    if a.len() == 0 {
        if b.len() > 0 {
            assert(b.contains(b[0]));
            assert(a.contains(b[0]));
        }
        assert(a =~= b);
    } else {
        assert(a.contains(a.last()));
        let j = choose|j: int| 0 <= j < b.len() && b[j] == a.last();
        assert(b.contains(b.last()));
        assert(a.contains(b.last()));
        let i = choose|i: int| 0 <= i < a.len() && a[i] == b.last();
        if j < b.len() - 1 {
            assert(less(b[j], b[b.len() - 1]));
            if i < a.len() - 1 {
                assert(less(a[i], a[a.len() - 1]));
            }
        }
        assert(a.last() == b.last());
        let (a2, b2) = (a.drop_last(), b.drop_last());
        assert forall|k: Seq<u8>| #[trigger] a2.contains(k) == b2.contains(k) by {
            if a2.contains(k) {
                let x = choose|x: int| 0 <= x < a2.len() && a2[x] == k;
                assert(less(a[x], a[a.len() - 1]));
                assert(a.contains(a[x]));
                let y = choose|y: int| 0 <= y < b.len() && b[y] == k;
                assert(b2[y] == k);
            }
            if b2.contains(k) {
                let x = choose|x: int| 0 <= x < b2.len() && b2[x] == k;
                assert(less(b[x], b[b.len() - 1]));
                assert(b.contains(b[x]));
                assert(a.contains(k));
                let y = choose|y: int| 0 <= y < a.len() && a[y] == k;
                assert(a2[y] == k);
            }
        }
        lemma_ordered_keys(a2, b2, less);
        assert(a =~= a2.push(a.last()));
        assert(b =~= b2.push(b.last()));
    }
}

/// Two copies of the same state hold the same, in the same order.
pub proof fn dumps_agree(a: StateDump, b: StateDump, s: SmState)
    requires
        dump_of(a, s),
        dump_of(b, s),
    ensures
        ref_rows(a.refs@) == ref_rows(b.refs@),
        lease_rows(a.leases@) == lease_rows(b.leases@),
        txn_rows(a.txn_records@) == txn_rows(b.txn_records@),
{
    let lex = |x: Seq<u8>, y: Seq<u8>| codec::lex_less(x, y);
    assert forall|x: Seq<u8>, y: Seq<u8>| #[trigger] lex(x, y) implies x != y && !lex(y, x) by {
        codec::lex_less_strict(x, y);
    }
    let key = |x: Seq<u8>, y: Seq<u8>| keytable::key_less(x, y);
    assert forall|x: Seq<u8>, y: Seq<u8>| #[trigger] key(x, y) implies x != y && !key(y, x) by {
        keytable::key_less_antisymmetric(x, y);
    }
    assert(ref_rows(a.refs@) == ref_rows(b.refs@)) by {
        let m = store::visible_refs(s.refs);
        let (x, y) = (
            Seq::new(a.refs@.len(), |i: int| a.refs@[i].0@),
            Seq::new(b.refs@.len(), |i: int| b.refs@[i].0@),
        );
        assert forall|k: Seq<u8>| #[trigger] x.contains(k) == m.contains_key(k) by {
            if m.contains_key(k) {
                let i = choose|i: int| 0 <= i < a.refs@.len() && (#[trigger] a.refs@[i]).0@ == k;
                assert(x[i] == k);
            }
        }
        assert forall|k: Seq<u8>| #[trigger] y.contains(k) == m.contains_key(k) by {
            if m.contains_key(k) {
                let i = choose|i: int| 0 <= i < b.refs@.len() && (#[trigger] b.refs@[i]).0@ == k;
                assert(y[i] == k);
            }
        }
        lemma_ordered_keys(x, y, lex);
        assert forall|i: int| 0 <= i < x.len() implies #[trigger] ref_rows(a.refs@)[i] == ref_rows(
            b.refs@,
        )[i] by {
            assert(x[i] == y[i]);
        }
        assert(ref_rows(a.refs@) =~= ref_rows(b.refs@));
    }
    assert(lease_rows(a.leases@) == lease_rows(b.leases@)) by {
        let m = leases::live_leases(s.leases, 0);
        let (x, y) = (
            Seq::new(a.leases@.len(), |i: int| a.leases@[i].id.bytes@),
            Seq::new(b.leases@.len(), |i: int| b.leases@[i].id.bytes@),
        );
        assert forall|k: Seq<u8>| #[trigger] x.contains(k) == m.contains_key(k) by {
            if m.contains_key(k) {
                let i = choose|i: int|
                    0 <= i < a.leases@.len() && (#[trigger] a.leases@[i]).id.bytes@ == k;
                assert(x[i] == k);
            }
        }
        assert forall|k: Seq<u8>| #[trigger] y.contains(k) == m.contains_key(k) by {
            if m.contains_key(k) {
                let i = choose|i: int|
                    0 <= i < b.leases@.len() && (#[trigger] b.leases@[i]).id.bytes@ == k;
                assert(y[i] == k);
            }
        }
        lemma_ordered_keys(x, y, key);
        assert forall|i: int| 0 <= i < x.len() implies #[trigger] lease_rows(a.leases@)[i]
            == lease_rows(b.leases@)[i] by {
            assert(x[i] == y[i]);
        }
        assert(lease_rows(a.leases@) =~= lease_rows(b.leases@));
    }
    assert(txn_rows(a.txn_records@) == txn_rows(b.txn_records@)) by {
        let m = s.txns;
        let (p, q) = (a.txn_records@, b.txn_records@);
        let (x, y) = (
            Seq::new(p.len(), |i: int| p[i].0.bytes@),
            Seq::new(q.len(), |i: int| q[i].0.bytes@),
        );
        assert forall|k: Seq<u8>| #[trigger] x.contains(k) == m.contains_key(k) by {
            if m.contains_key(k) {
                let i = choose|i: int| 0 <= i < p.len() && (#[trigger] p[i]).0.bytes@ == k;
                assert(x[i] == k);
            }
        }
        assert forall|k: Seq<u8>| #[trigger] y.contains(k) == m.contains_key(k) by {
            if m.contains_key(k) {
                let i = choose|i: int| 0 <= i < q.len() && (#[trigger] q[i]).0.bytes@ == k;
                assert(y[i] == k);
            }
        }
        lemma_ordered_keys(x, y, key);
        assert forall|i: int| 0 <= i < x.len() implies #[trigger] txn_rows(p)[i] == txn_rows(
            q,
        )[i] by {
            assert(x[i] == y[i]);
        }
        assert(txn_rows(p) =~= txn_rows(q));
    }
}

/// Replicas that start from the same state and apply the same entries are in the
/// same state and have given the same responses, however the entries were
/// divided up between calls.
pub proof fn apply_in_parts(s: SmState, a: Seq<LogEntry>, b: Seq<LogEntry>)
    ensures
        run_state(s, a + b) == run_state(run_state(s, a), b),
        run_resps(s, a + b) == run_resps(s, a) + run_resps(run_state(s, a), b),
    decreases b.len(),
{
    if b.len() == 0 {
        assert(a + b =~= a);
        assert(run_resps(s, a) + run_resps(run_state(s, a), b) =~= run_resps(s, a));
    } else {
        apply_in_parts(s, a, b.drop_last());
        assert((a + b).drop_last() =~= a + b.drop_last());
        assert((a + b).last() == b.last());
        assert(run_resps(s, a + b) =~= run_resps(s, a) + run_resps(run_state(s, a), b));
    }
}

/// The position of the last applied entry is that of the last entry.
pub proof fn last_applied_follows(s: SmState, es: Seq<LogEntry>)
    requires
        es.len() > 0,
    ensures
        run_state(s, es).last_applied == Some(es.last().log_id),
        run_resps(s, es).len() == es.len(),
    decreases es.len(),
{
    if es.len() > 1 {
        last_applied_follows(s, es.drop_last());
    } else {
        reveal_with_fuel(run_resps, 2);
        assert(es.drop_last() =~= Seq::<LogEntry>::empty());
    }
}

/// The lease log tells everything: replaying the changes that some entries log on
/// top of the leases before them gives the leases after them.
pub proof fn lease_log_describes_run(s: SmState, es: Seq<LogEntry>)
    ensures
        leases::replay_leases(s.leases, run_lease_records(es)) == run_state(s, es).leases,
    decreases es.len(),
{
    if es.len() > 0 {
        let before = es.drop_last();
        lease_log_describes_run(s, before);
        let added = match es.last().payload {
            EntryPayload::Normal(op) => lease_records(op),
            _ => Seq::empty(),
        };
        leases::leases_in_parts(s.leases, run_lease_records(before), added);
        reveal_with_fuel(leases::replay_leases, 2);
        if added.len() > 0 {
            assert(added.drop_last() =~= Seq::<leases::LeaseRecordView>::empty());
        }
    }
}

/// What an entry of the log does: it counts as applied, whatever it carries. A command
/// is carried out, a membership is taken over with the position of the entry, and an
/// entry without either changes nothing else.
#[verifier::rlimit(30)]
pub proof fn entries_take_effect(s: SmState, es: Seq<LogEntry>, e: LogEntry)
    ensures
        run_state(s, Seq::empty()) == s,
        run_resps(s, Seq::empty()).len() == 0,
        ({
            let a = run_state(s, es);
            let b = run_state(s, es.push(e));
            let resps = run_resps(s, es.push(e));
            &&& b.last_applied == Some(e.log_id)
            &&& resps.len() == run_resps(s, es).len() + 1
            &&& resps.drop_last() == run_resps(s, es)
            &&& match e.payload {
                EntryPayload::Blank => {
                    &&& b.refs == a.refs && b.leases == a.leases && b.txns == a.txns
                    &&& b.membership == a.membership
                    &&& resps.last() is Noop
                },
                EntryPayload::Membership(m) => {
                    &&& b.refs == a.refs && b.leases == a.leases && b.txns == a.txns
                    &&& b.membership.log_id == Some(e.log_id)
                    &&& b.membership.membership == m@
                    &&& resps.last() is Noop
                },
                EntryPayload::Normal(op) => {
                    let c = step_state(a, op);
                    &&& b.refs == c.refs && b.leases == c.leases && b.txns == c.txns
                    &&& b.membership == a.membership
                    &&& resps.last() == step_resp(a, op)
                },
            }
        }),
{
    assert(es.push(e).drop_last() =~= es);
}

/// A decision replaces the one before and keeps the shards that take part; an ended
/// transaction is forgotten. A transaction is committed exactly where the last
/// decision on it was to commit.
pub proof fn decisions_stand(
    s: SmState,
    txn_id: TxnId,
    participants: Vec<u32>,
    first: bool,
    second: bool,
)
    ensures
        ({
            let begun = step_state(s, LedgeOp::TxnBegin { txn_id, participants });
            let once = step_state(begun, LedgeOp::TxnDecide { txn_id, commit: first });
            let twice = step_state(once, LedgeOp::TxnDecide { txn_id, commit: second });
            let k = txn_id.bytes@;
            &&& begun.txns[k].decision is Pending
            &&& once.txns[k].decision is Commit <==> first
            &&& once.txns[k].decision is Abort <==> !first
            &&& once.txns[k].participants == participants@
            &&& twice.txns[k].decision is Commit <==> second
            &&& twice.txns[k].participants == participants@
            &&& !step_state(twice, LedgeOp::TxnEnd { txn_id }).txns.contains_key(k)
            &&& once.refs == s.refs && once.leases == s.leases
        }),
{
}

/// A copy is restored as it is: every reference, unlocked, every lease and every
/// transaction record; nothing else stays.
#[verifier::spinoff_prover]
#[verifier::rlimit(30)]
pub proof fn restored_holds_copy(
    d: StateDump,
    last_applied: Option<LogId>,
    membership: MembershipView,
    k: Seq<u8>,
    i: int,
)
    ensures
        ({
            let s = restored(d, last_applied, membership);
            &&& s.last_applied == last_applied
            &&& s.membership == membership
            &&& s.refs.contains_key(k) ==> s.refs[k].prepared is None && exists|j: int|
                0 <= j < d.refs@.len() && (#[trigger] d.refs@[j]).0@ == k
            &&& s.leases.contains_key(k) ==> exists|j: int|
                0 <= j < d.leases@.len() && (#[trigger] d.leases@[j]).id.bytes@ == k
            &&& s.txns.contains_key(k) ==> exists|j: int|
                0 <= j < d.txn_records@.len() && (#[trigger] d.txn_records@[j]).0.bytes@ == k
            &&& 0 <= i < d.refs@.len() && (forall|j: int|
                i < j < d.refs@.len() ==> (#[trigger] d.refs@[j]).0@ != d.refs@[i].0@)
                ==> s.refs.contains_key(d.refs@[i].0@) && s.refs[d.refs@[i].0@].committed
                == d.refs@[i].1
            &&& 0 <= i < d.leases@.len() && (forall|j: int|
                i < j < d.leases@.len() ==> (#[trigger] d.leases@[j]).id.bytes@
                    != d.leases@[i].id.bytes@) ==> s.leases.contains_key(d.leases@[i].id.bytes@)
                && s.leases[d.leases@[i].id.bytes@] == d.leases@[i]@
            &&& 0 <= i < d.txn_records@.len() && (forall|j: int|
                i < j < d.txn_records@.len() ==> (#[trigger] d.txn_records@[j]).0.bytes@
                    != d.txn_records@[i].0.bytes@) ==> s.txns.contains_key(
                d.txn_records@[i].0.bytes@,
            ) && s.txns[d.txn_records@[i].0.bytes@] == d.txn_records@[i].1@
        }),
{
    lemma_entries_at(d.refs@, k, i);
    lemma_leases_at(d.leases@, k, i);
    lemma_txns_at(d.txn_records@, k, i);
}

#[verifier::rlimit(30)]
proof fn lemma_entries_at(v: Seq<(RefName, RefEntry)>, k: Seq<u8>, i: int)
    ensures
        ({
            let m = store::with_entries(Map::empty(), v);
            &&& m.contains_key(k) ==> exists|j: int| 0 <= j < v.len() && (#[trigger] v[j]).0@ == k
            &&& 0 <= i < v.len() && (forall|j: int|
                i < j < v.len() ==> (#[trigger] v[j]).0@ != v[i].0@) ==> m.contains_key(v[i].0@)
                && m[v[i].0@] == v[i].1
        }),
    decreases v.len(),
{
    if v.len() > 0 {
        let front = v.drop_last();
        let m = store::with_entries(Map::empty(), v);
        lemma_entries_at(front, k, i);
        if m.contains_key(k) {
            if v.last().0@ == k {
                assert(v[v.len() - 1].0@ == k);
            } else {
                let j = choose|j: int| 0 <= j < front.len() && (#[trigger] front[j]).0@ == k;
                assert(v[j].0@ == k);
            }
        }
        if 0 <= i < front.len() && (forall|j: int|
            i < j < v.len() ==> (#[trigger] v[j]).0@ != v[i].0@) {
            assert forall|j: int| i < j < front.len() implies (#[trigger] front[j]).0@
                != front[i].0@ by {
                assert(v[j].0@ != v[i].0@);
            }
            assert(v[v.len() - 1].0@ != v[i].0@);
        }
    }
}

#[verifier::rlimit(30)]
proof fn lemma_leases_at(v: Seq<Lease>, k: Seq<u8>, i: int)
    ensures
        ({
            let m = lease_map(v);
            &&& m.contains_key(k) ==> exists|j: int|
                0 <= j < v.len() && (#[trigger] v[j]).id.bytes@ == k
            &&& 0 <= i < v.len() && (forall|j: int|
                i < j < v.len() ==> (#[trigger] v[j]).id.bytes@ != v[i].id.bytes@)
                ==> m.contains_key(v[i].id.bytes@) && m[v[i].id.bytes@] == v[i]@
        }),
    decreases v.len(),
{
    if v.len() > 0 {
        let front = v.drop_last();
        let m = lease_map(v);
        lemma_leases_at(front, k, i);
        if m.contains_key(k) {
            if v.last().id.bytes@ == k {
                assert(v[v.len() - 1].id.bytes@ == k);
            } else {
                let j = choose|j: int| 0 <= j < front.len() && (#[trigger] front[j]).id.bytes@ == k;
                assert(v[j].id.bytes@ == k);
            }
        }
        if 0 <= i < front.len() && (forall|j: int|
            i < j < v.len() ==> (#[trigger] v[j]).id.bytes@ != v[i].id.bytes@) {
            assert forall|j: int| i < j < front.len() implies (#[trigger] front[j]).id.bytes@
                != front[i].id.bytes@ by {
                assert(v[j].id.bytes@ != v[i].id.bytes@);
            }
            assert(v[v.len() - 1].id.bytes@ != v[i].id.bytes@);
        }
    }
}

#[verifier::rlimit(30)]
proof fn lemma_txns_at(v: Seq<(TxnId, TxnRecord)>, k: Seq<u8>, i: int)
    ensures
        ({
            let m = txn_map(v);
            &&& m.contains_key(k) ==> exists|j: int|
                0 <= j < v.len() && (#[trigger] v[j]).0.bytes@ == k
            &&& 0 <= i < v.len() && (forall|j: int|
                i < j < v.len() ==> (#[trigger] v[j]).0.bytes@ != v[i].0.bytes@)
                ==> m.contains_key(v[i].0.bytes@) && m[v[i].0.bytes@] == v[i].1@
        }),
    decreases v.len(),
{
    if v.len() > 0 {
        let front = v.drop_last();
        let m = txn_map(v);
        lemma_txns_at(front, k, i);
        if m.contains_key(k) {
            if v.last().0.bytes@ == k {
                assert(v[v.len() - 1].0.bytes@ == k);
            } else {
                let j = choose|j: int| 0 <= j < front.len() && (#[trigger] front[j]).0.bytes@ == k;
                assert(v[j].0.bytes@ == k);
            }
        }
        if 0 <= i < front.len() && (forall|j: int|
            i < j < v.len() ==> (#[trigger] v[j]).0.bytes@ != v[i].0.bytes@) {
            assert forall|j: int| i < j < front.len() implies (#[trigger] front[j]).0.bytes@
                != front[i].0.bytes@ by {
                assert(v[j].0.bytes@ != v[i].0.bytes@);
            }
            assert(v[v.len() - 1].0.bytes@ != v[i].0.bytes@);
        }
    }
}

/// A snapshot is named by the term and the node of the leader, the index and a running
/// number, as in "T3-N1-42-7"; where nothing has been applied, by the number alone.
pub proof fn snapshots_are_named(id: LogId, idx: u64)
    ensures
        snapshot_name(Some(id), idx) == seq![84u8] + decimal::digits(id.term as nat) + seq![
            45u8,
            78,
        ] + decimal::digits(id.node_id as nat) + seq![45u8] + decimal::digits(id.index as nat)
            + seq![45u8] + decimal::digits(idx as nat),
        snapshot_name(None, idx) == seq![45u8, 45] + decimal::digits(idx as nat),
{
}

/// A copy of the state holds every reference that readers see, every lease that began
/// to run and every transaction record, as they are, and nothing else.
#[verifier::rlimit(30)]
pub proof fn copies_hold_state(d: StateDump, s: SmState, k: Seq<u8>, i: int)
    requires
        dump_of(d, s),
    ensures
        s.refs.contains_key(k) && s.refs[k].committed.version != 0 ==> exists|j: int|
            0 <= j < d.refs@.len() && (#[trigger] d.refs@[j]).0@ == k,
        0 <= i < d.refs@.len() ==> ({
            let name = d.refs@[i].0@;
            &&& s.refs.contains_key(name) && s.refs[name].committed.version != 0
            &&& d.refs@[i].1 == s.refs[name].committed
        }),
        s.leases.contains_key(k) && s.leases[k].expires_at_ms > 0 ==> exists|j: int|
            0 <= j < d.leases@.len() && (#[trigger] d.leases@[j]).id.bytes@ == k,
        0 <= i < d.leases@.len() ==> ({
            let id = d.leases@[i].id.bytes@;
            &&& s.leases.contains_key(id) && s.leases[id].expires_at_ms > 0
            &&& d.leases@[i]@ == s.leases[id]
        }),
        s.txns.contains_key(k) ==> exists|j: int|
            0 <= j < d.txn_records@.len() && (#[trigger] d.txn_records@[j]).0.bytes@ == k,
        0 <= i < d.txn_records@.len() ==> ({
            let id = d.txn_records@[i].0.bytes@;
            &&& s.txns.contains_key(id)
            &&& d.txn_records@[i].1@ == s.txns[id]
        }),
{
    let refs = store::visible_refs(s.refs);
    let live = leases::live_leases(s.leases, 0);
    if s.refs.contains_key(k) && s.refs[k].committed.version != 0 {
        assert(refs.contains_key(k));
    }
    if 0 <= i < d.refs@.len() {
        assert(refs.contains_key(d.refs@[i].0@));
    }
    if s.leases.contains_key(k) && s.leases[k].expires_at_ms > 0 {
        assert(live.contains_key(k));
    }
    if 0 <= i < d.leases@.len() {
        assert(live.contains_key(d.leases@[i].id.bytes@));
    }
}

/// The log of the leases gets what each entry changes of them, in order.
pub proof fn lease_changes_are_logged(es: Seq<LogEntry>, e: LogEntry, v: Seq<Lease>, i: int)
    ensures
        run_lease_records(Seq::empty()).len() == 0,
        ({
            let before = run_lease_records(es);
            let after = run_lease_records(es.push(e));
            match e.payload {
                EntryPayload::Normal(LedgeOp::LeasePut { lease }) => after == before.push(
                    (leases::LeaseRecordView::Put { lease: lease@ }),
                ),
                EntryPayload::Normal(LedgeOp::LeaseTombstone { id, hlc }) => after == before.push(
                    (leases::LeaseRecordView::Tombstone { id, hlc }),
                ),
                _ => after == before,
            }
        }),
        lease_puts(v).len() == v.len(),
        0 <= i < v.len() ==> lease_puts(v)[i] == (leases::LeaseRecordView::Put { lease: v[i]@ }),
{
    assert(es.push(e).drop_last() =~= es);
    let before = run_lease_records(es);
    assert(before + Seq::<leases::LeaseRecordView>::empty() =~= before);
    match e.payload {
        EntryPayload::Normal(op) => {
            let more = lease_records(op);
            match op {
                LedgeOp::LeasePut { lease } => {
                    assert(before + more =~= before.push(
                        (leases::LeaseRecordView::Put { lease: lease@ }),
                    ));
                },
                LedgeOp::LeaseTombstone { id, hlc } => {
                    assert(before + more =~= before.push(
                        (leases::LeaseRecordView::Tombstone { id, hlc }),
                    ));
                },
                _ => {},
            }
        },
        _ => {},
    }
}

} // verus!
