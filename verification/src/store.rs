//! The reference store: compare-and-swap writes, two-phase commit and atomic
//! batches over a radix tree, with the log entries that make them durable.

use vstd::prelude::*;
use std::sync::Arc;
use crate::art;
use crate::art::{art_delete, art_insert, art_lookup, art_prefix_iter, ArtNode};
use crate::codec;
use crate::slot;
use crate::slot::{visible_entry, PreparedIntent, RefSlot};
use crate::types;
use crate::types::{LedgeError, ObjectId, RefEntry, RefName, TxnId};

verus! {

// ---------------------------------------------------------------------------
// The log
// ---------------------------------------------------------------------------

/// One record of the write-ahead log.
pub enum WalEntry {
    /// A reference was created or updated.
    Update { name: RefName, entry: RefEntry },
    /// A reference was deleted at logical time `hlc`.
    Delete { name: RefName, hlc: u64 },
    /// All references at the time of a compaction; what stands before it in the
    /// log is superseded.
    Checkpoint { leaves: Vec<(RefName, RefEntry)> },
    /// References that were written together and recover together.
    Batch { updates: Vec<(RefName, RefEntry)> },
}

/// `m` with the given entries put in, one after the other.
pub open spec fn with_entries(
    m: Map<Seq<u8>, RefEntry>,
    items: Seq<(RefName, RefEntry)>,
) -> Map<Seq<u8>, RefEntry>
    decreases items.len(),
{
    if items.len() == 0 {
        m
    } else {
        with_entries(m, items.drop_last()).insert(items.last().0@, items.last().1)
    }
}

/// The references after one more log record.
pub open spec fn replay_one(m: Map<Seq<u8>, RefEntry>, e: WalEntry) -> Map<Seq<u8>, RefEntry> {
    match e {
        WalEntry::Update { name, entry } => m.insert(name@, entry),
        WalEntry::Delete { name, hlc } => m.remove(name@),
        WalEntry::Checkpoint { leaves } => with_entries(Map::empty(), leaves@),
        WalEntry::Batch { updates } => with_entries(m, updates@),
    }
}

/// The references that a log describes, starting from `m`.
pub open spec fn replay(m: Map<Seq<u8>, RefEntry>, log: Seq<WalEntry>) -> Map<Seq<u8>, RefEntry>
    decreases log.len(),
{
    if log.len() == 0 {
        m
    } else {
        replay_one(replay(m, log.drop_last()), log.last())
    }
}

// ---------------------------------------------------------------------------
// Model
// ---------------------------------------------------------------------------

/// The slot of a name, where there is one.
pub open spec fn slot_at(m: Map<Seq<u8>, RefSlot>, name: Seq<u8>) -> Option<RefSlot> {
    if m.contains_key(name) {
        Some(m[name])
    } else {
        None
    }
}

/// What readers see: the committed entries, those of version 0 left out.
pub open spec fn visible_refs(m: Map<Seq<u8>, RefSlot>) -> Map<Seq<u8>, RefEntry> {
    Map::new(
        |k: Seq<u8>| slot::visible(slot_at(m, k)) is Some,
        |k: Seq<u8>| m[k].committed,
    )
}

/// Slots without locks for the given entries.
pub open spec fn unlocked_slots(m: Map<Seq<u8>, RefEntry>) -> Map<Seq<u8>, RefSlot> {
    m.map_values(|e: RefEntry| slot::unlocked(e))
}

/// The entry that a write of `target` at time `hlc` commits over `current`.
pub open spec fn next_entry(current: Option<RefEntry>, target: ObjectId, hlc: u64) -> RefEntry {
    RefEntry {
        target,
        hlc,
        version: match current {
            Some(c) => (c.version + 1) as u64,
            None => 1,
        },
    }
}

/// Whether a compare-and-swap may go ahead.
pub enum WriteCheck {
    /// It may; carries what readers see now.
    Free(Option<RefEntry>),
    /// The reference is locked or points elsewhere; carries its entry.
    Conflict(RefEntry),
    /// The reference was expected to exist and does not.
    Missing,
}

/// The precondition of a write: the reference is not locked, and it does not
/// exist where `expected` is `None`, or points to what is expected.
pub open spec fn write_check(s: Option<RefSlot>, expected: Option<ObjectId>) -> WriteCheck {
    if s is Some && s->0.prepared is Some {
        WriteCheck::Conflict(s->0.committed)
    } else {
        match (slot::visible(s), expected) {
            (Some(c), None) => WriteCheck::Conflict(c),
            (None, Some(_)) => WriteCheck::Missing,
            (Some(c), Some(x)) => if c.target == x {
                WriteCheck::Free(Some(c))
            } else {
                WriteCheck::Conflict(c)
            },
            (None, None) => WriteCheck::Free(None),
        }
    }
}

/// The precondition of a prepare: no other transaction holds the reference, and
/// what readers see is what is expected.
pub open spec fn may_prepare(
    s: Option<RefSlot>,
    txn: TxnId,
    expected: Option<ObjectId>,
) -> bool {
    &&& !(s is Some && s->0.prepared is Some && s->0.prepared->0.txn_id != txn)
    &&& match (slot::visible(s), expected) {
        (None, None) => true,
        (Some(c), Some(x)) => c.target == x,
        _ => false,
    }
}

/// A replicated write, with the logical time that its proposer assigned.
#[allow(inconsistent_fields)]
pub enum AppliedOp {
    /// Create or update under compare-and-swap.
    Update { name: RefName, target: ObjectId, expected: Option<ObjectId>, hlc: u64 },
    /// Delete under compare-and-swap.
    Delete { name: RefName, expected: ObjectId, hlc: u64 },
    /// First phase of a two-phase commit: vote and, on yes, lock.
    Prepare {
        txn_id: TxnId,
        coord_shard: u32,
        name: RefName,
        target: ObjectId,
        expected: Option<ObjectId>,
        hlc: u64,
    },
    /// Commit what the transaction has prepared, and unlock.
    CommitPrepared { txn_id: TxnId, name: RefName },
    /// Drop what the transaction has prepared, and unlock.
    AbortPrepared { txn_id: TxnId, name: RefName },
}

/// What came of a replicated write.
#[derive(Clone, Copy, Debug, PartialEq, Eq)]
pub enum AppliedOutcome {
    Updated(RefEntry),
    Conflict(RefEntry),
    NotFound,
    Deleted,
    VoteYes,
    VoteNo,
    CommitedPrepared(RefEntry),
    AbortedPrepared,
}

/// The name that an operation is about.
pub open spec fn op_name(op: AppliedOp) -> Seq<u8> {
    match op {
        AppliedOp::Update { name, .. } => name@,
        AppliedOp::Delete { name, .. } => name@,
        AppliedOp::Prepare { name, .. } => name@,
        AppliedOp::CommitPrepared { name, .. } => name@,
        AppliedOp::AbortPrepared { name, .. } => name@,
    }
}

/// The slot that a successful prepare leaves.
pub open spec fn prepared_slot(
    s: Option<RefSlot>,
    txn_id: TxnId,
    coord_shard: u32,
    target: ObjectId,
    hlc: u64,
) -> RefSlot {
    RefSlot {
        committed: match s {
            Some(x) => x.committed,
            None => RefEntry { target, hlc: 0, version: 0 },
        },
        prepared: Some(
            PreparedIntent { txn_id, coord_shard, staged_target: target, staged_hlc: hlc },
        ),
    }
}

/// Whether the transaction holds the lock of a slot.
pub open spec fn held_by(s: Option<RefSlot>, txn: TxnId) -> bool {
    s is Some && s->0.prepared is Some && s->0.prepared->0.txn_id == txn
}

/// The entry that committing a prepared slot gives.
pub open spec fn staged_entry(s: RefSlot) -> RefEntry {
    RefEntry {
        target: s.prepared->0.staged_target,
        hlc: s.prepared->0.staged_hlc,
        version: (s.committed.version + 1) as u64,
    }
}

/// The outcome of an update of a slot.
pub open spec fn update_outcome(
    s: Option<RefSlot>,
    target: ObjectId,
    expected: Option<ObjectId>,
    hlc: u64,
) -> AppliedOutcome {
    match write_check(s, expected) {
        WriteCheck::Free(cur) => AppliedOutcome::Updated(next_entry(cur, target, hlc)),
        WriteCheck::Conflict(c) => AppliedOutcome::Conflict(c),
        WriteCheck::Missing => AppliedOutcome::NotFound,
    }
}

/// The slot that an update leaves.
pub open spec fn update_slot(
    s: Option<RefSlot>,
    target: ObjectId,
    expected: Option<ObjectId>,
    hlc: u64,
) -> Option<RefSlot> {
    match write_check(s, expected) {
        WriteCheck::Free(cur) => Some(slot::unlocked(next_entry(cur, target, hlc))),
        _ => s,
    }
}

/// The outcome of a deletion of a slot.
pub open spec fn delete_outcome(s: Option<RefSlot>, expected: ObjectId) -> AppliedOutcome {
    match write_check(s, Some(expected)) {
        WriteCheck::Free(_) => AppliedOutcome::Deleted,
        WriteCheck::Conflict(c) => AppliedOutcome::Conflict(c),
        WriteCheck::Missing => AppliedOutcome::NotFound,
    }
}

/// The slot that a deletion leaves.
pub open spec fn delete_slot(s: Option<RefSlot>, expected: ObjectId) -> Option<RefSlot> {
    match write_check(s, Some(expected)) {
        WriteCheck::Free(_) => None,
        _ => s,
    }
}

/// The outcome of an operation on a slot.
pub open spec fn op_outcome(s: Option<RefSlot>, op: AppliedOp) -> AppliedOutcome {
    match op {
        AppliedOp::Update { name, target, expected, hlc } => update_outcome(
            s,
            target,
            expected,
            hlc,
        ),
        AppliedOp::Delete { name, expected, hlc } => delete_outcome(s, expected),
        AppliedOp::Prepare { txn_id, expected, .. } => if may_prepare(s, txn_id, expected) {
            AppliedOutcome::VoteYes
        } else {
            AppliedOutcome::VoteNo
        },
        AppliedOp::CommitPrepared { txn_id, name } => match s {
            None => AppliedOutcome::AbortedPrepared,
            Some(x) => if held_by(s, txn_id) {
                AppliedOutcome::CommitedPrepared(staged_entry(x))
            } else {
                AppliedOutcome::CommitedPrepared(x.committed)
            },
        },
        AppliedOp::AbortPrepared { .. } => AppliedOutcome::AbortedPrepared,
    }
}

/// The slot that an operation leaves.
pub open spec fn op_slot(s: Option<RefSlot>, op: AppliedOp) -> Option<RefSlot> {
    match op {
        AppliedOp::Update { name, target, expected, hlc } => update_slot(s, target, expected, hlc),
        AppliedOp::Delete { name, expected, hlc } => delete_slot(s, expected),
        AppliedOp::Prepare { txn_id, coord_shard, name, target, expected, hlc } => if may_prepare(
            s,
            txn_id,
            expected,
        ) {
            Some(prepared_slot(s, txn_id, coord_shard, target, hlc))
        } else {
            s
        },
        AppliedOp::CommitPrepared { txn_id, name } => if held_by(s, txn_id) {
            Some(slot::unlocked(staged_entry(s->0)))
        } else {
            s
        },
        AppliedOp::AbortPrepared { txn_id, name } => if held_by(s, txn_id) {
            if s->0.committed.version == 0 {
                None
            } else {
                Some(slot::unlocked(s->0.committed))
            }
        } else {
            s
        },
    }
}

/// `m` with the slot of `name` set, or taken out.
pub open spec fn set_slot(
    m: Map<Seq<u8>, RefSlot>,
    name: Seq<u8>,
    s: Option<RefSlot>,
) -> Map<Seq<u8>, RefSlot> {
    match s {
        Some(x) => m.insert(name, x),
        None => m.remove(name),
    }
}

/// The store after an operation.
pub open spec fn op_apply(m: Map<Seq<u8>, RefSlot>, op: AppliedOp) -> Map<Seq<u8>, RefSlot> {
    set_slot(m, op_name(op), op_slot(slot_at(m, op_name(op)), op))
}

/// Applying `op` to a store that holds `before` gives `outcome` and leaves `after`.
pub open spec fn applied(
    before: Map<Seq<u8>, RefSlot>,
    op: AppliedOp,
    outcome: AppliedOutcome,
    after: Map<Seq<u8>, RefSlot>,
) -> bool {
    &&& outcome == op_outcome(slot_at(before, op_name(op)), op)
    &&& after == op_apply(before, op)
}

/// What an operation adds to the log.
pub open spec fn op_log(s: Option<RefSlot>, op: AppliedOp) -> Seq<WalEntry> {
    match op {
        AppliedOp::Update { name, target, expected, hlc } => match write_check(s, expected) {
            WriteCheck::Free(cur) => seq![
                WalEntry::Update { name, entry: next_entry(cur, target, hlc) },
            ],
            _ => Seq::empty(),
        },
        AppliedOp::Delete { name, expected, hlc } => match write_check(s, Some(expected)) {
            WriteCheck::Free(_) => seq![WalEntry::Delete { name, hlc }],
            _ => Seq::empty(),
        },
        AppliedOp::Prepare { .. } => Seq::empty(),
        AppliedOp::CommitPrepared { txn_id, name } => if held_by(s, txn_id) {
            seq![WalEntry::Update { name, entry: staged_entry(s->0) }]
        } else {
            Seq::empty()
        },
        AppliedOp::AbortPrepared { .. } => Seq::empty(),
    }
}

/// The version counter does not run out with a write of the slot, where the write
/// goes ahead.
pub open spec fn write_room(s: Option<RefSlot>, expected: Option<ObjectId>) -> bool {
    write_check(s, expected) matches WriteCheck::Free(Some(c)) ==> c.version < u64::MAX
}

/// The version counter does not run out with an operation on the slot.
pub open spec fn op_room(s: Option<RefSlot>, op: AppliedOp) -> bool {
    match op {
        AppliedOp::Update { expected, .. } => write_room(s, expected),
        AppliedOp::CommitPrepared { txn_id, .. } => held_by(s, txn_id)
            ==> s->0.committed.version < u64::MAX,
        _ => true,
    }
}

// ---------------------------------------------------------------------------
// The store
// ---------------------------------------------------------------------------

/// The reference store. `pending` holds the log records of the writes that have
/// not been handed to the log yet, oldest first.
pub struct RefStoreImpl {
    root: Option<Arc<ArtNode<RefSlot>>>,
    pending: Vec<WalEntry>,
}

impl View for RefStoreImpl {
    type V = Map<Seq<u8>, RefSlot>;

    closed spec fn view(&self) -> Map<Seq<u8>, RefSlot> {
        art::entries_of(self.root)
    }
}

/// A well-formed tree whose keys are names.
pub open spec fn tree_ok(root: Option<Arc<ArtNode<RefSlot>>>) -> bool {
    &&& art::root_ok(root)
    &&& forall|k: Seq<u8>| #[trigger]
        art::entries_of(root).contains_key(k) ==> types::name_bytes_ok(k)
}

/// Keys without the byte 0x00 can be told apart by it.
pub proof fn lemma_nul_free_separable(keys: Set<Seq<u8>>)
    requires
        forall|k: Seq<u8>| #[trigger] keys.contains(k) ==> types::nul_free(k),
    ensures
        art::separable(keys),
{
    assert forall|k1: Seq<u8>, k2: Seq<u8>|
        #![trigger keys.contains(k1), keys.contains(k2)]
        keys.contains(k1) && keys.contains(k2) implies !codec::has_prefix(k2, k1.push(0u8)) by {
        if codec::has_prefix(k2, k1.push(0u8)) {
            assert(k2.subrange(0, k1.len() as int + 1)[k1.len() as int] == 0);
        }
    }
}

/// The slot of a name in a tree.
pub(crate) fn tree_get(root: &Option<Arc<ArtNode<RefSlot>>>, name: &RefName) -> (r: Option<RefSlot>)
    requires
        tree_ok(*root),
    ensures
        r == slot_at(art::entries_of(*root), name@),
{
    match root {
        None => None,
        Some(n) => {
            assert(name@.subrange(0, 0) =~= Seq::<u8>::empty());
            match art_lookup(&**n, name.as_bytes(), 0) {
                Some(s) => Some(*s),
                None => None,
            }
        },
    }
}

/// The tree with the slot of a name set.
fn tree_set(root: Option<Arc<ArtNode<RefSlot>>>, name: &RefName, s: RefSlot) -> (r: Option<
    Arc<ArtNode<RefSlot>>,
>)
    requires
        tree_ok(root),
    ensures
        tree_ok(r),
        art::entries_of(r) == art::entries_of(root).insert(name@, s),
{
    let key = name.as_bytes();
    proof {
        assert(name@.subrange(0, 0) =~= Seq::<u8>::empty());
        lemma_nul_free_separable(art::entries_of(root).dom().insert(name@));
    }
    Some(art_insert(root, key, s, 0))
}

/// The tree without a name.
fn tree_remove(root: Option<Arc<ArtNode<RefSlot>>>, name: &RefName) -> (r: Option<
    Arc<ArtNode<RefSlot>>,
>)
    requires
        tree_ok(root),
    ensures
        tree_ok(r),
        art::entries_of(r) == art::entries_of(root).remove(name@),
{
    assert(name@.subrange(0, 0) =~= Seq::<u8>::empty());
    assert forall|k: Seq<u8>| art::entries_of(root).remove(name@).contains_key(
        k,
    ) implies types::name_bytes_ok(k) by {
        assert(art::entries_of(root).contains_key(k));
    }
    match root {
        None => {
            assert(Map::<Seq<u8>, RefSlot>::empty() =~= Map::<Seq<u8>, RefSlot>::empty().remove(
                name@,
            ));
            None
        },
        Some(n) => art_delete(n, name.as_bytes(), 0),
    }
}

impl RefStoreImpl {
    #[verifier::type_invariant]
    closed spec fn inv(self) -> bool {
        tree_ok(self.root)
    }

    /// The log records that have not been handed to the log yet.
    pub closed spec fn pending(&self) -> Seq<WalEntry> {
        self.pending@
    }

    fn slot(&self, name: &RefName) -> (r: Option<RefSlot>)
        ensures
            r == slot_at(self@, name@),
    {
        proof {
            use_type_invariant(self);
        }
        tree_get(&self.root, name)
    }

    fn put_slot(&mut self, name: &RefName, s: RefSlot)
        ensures
            final(self)@ == old(self)@.insert(name@, s),
            final(self).pending() == old(self).pending(),
    {
        proof {
            use_type_invariant(&*self);
        }
        let mut root: Option<Arc<ArtNode<RefSlot>>> = None;
        assert(art::entries_of(None::<Arc<ArtNode<RefSlot>>>) =~= Map::<Seq<u8>, RefSlot>::empty());
        std::mem::swap(&mut root, &mut self.root);
        let new_root = tree_set(root, name, s);
        self.root = new_root;
    }

    fn drop_slot(&mut self, name: &RefName)
        ensures
            final(self)@ == old(self)@.remove(name@),
            final(self).pending() == old(self).pending(),
    {
        proof {
            use_type_invariant(&*self);
        }
        let mut root: Option<Arc<ArtNode<RefSlot>>> = None;
        assert(art::entries_of(None::<Arc<ArtNode<RefSlot>>>) =~= Map::<Seq<u8>, RefSlot>::empty());
        std::mem::swap(&mut root, &mut self.root);
        let new_root = tree_remove(root, name);
        self.root = new_root;
    }

    fn log(&mut self, e: WalEntry)
        ensures
            final(self)@ == old(self)@,
            final(self).pending() == old(self).pending().push(e),
    {
        proof {
            use_type_invariant(&*self);
        }
        let mut pending: Vec<WalEntry> = Vec::new();
        std::mem::swap(&mut pending, &mut self.pending);
        pending.push(e);
        self.pending = pending;
    }

    /// An empty store.
    pub fn new() -> (r: Self)
        ensures
            r@ == Map::<Seq<u8>, RefSlot>::empty(),
            r.pending() == Seq::<WalEntry>::empty(),
    {
        RefStoreImpl { root: None, pending: Vec::new() }
    }

    /// Hands out the log records of the writes since the last call.
    pub fn take_pending(&mut self) -> (r: Vec<WalEntry>)
        ensures
            r@ == old(self).pending(),
            final(self)@ == old(self)@,
            final(self).pending() == Seq::<WalEntry>::empty(),
    {
        proof {
            use_type_invariant(&*self);
        }
        let mut pending: Vec<WalEntry> = Vec::new();
        std::mem::swap(&mut pending, &mut self.pending);
        pending
    }

    /// The precondition of a write.
    fn check_write(&self, name: &RefName, expected: Option<ObjectId>) -> (r: WriteCheck)
        ensures
            r == write_check(slot_at(self@, name@), expected),
    {
        let s = self.slot(name);
        if let Some(x) = &s {
            if x.prepared.is_some() {
                return WriteCheck::Conflict(x.committed);
            }
        }
        match (visible_entry(&s), expected) {
            (Some(c), None) => WriteCheck::Conflict(c),
            (None, Some(_)) => WriteCheck::Missing,
            (Some(c), Some(x)) => if c.target == x {
                WriteCheck::Free(Some(c))
            } else {
                WriteCheck::Conflict(c)
            },
            (None, None) => WriteCheck::Free(None),
        }
    }

    /// What readers see under `name`.
    pub fn get(&self, name: &RefName) -> (r: Option<RefEntry>)
        ensures
            r == slot::visible(slot_at(self@, name@)),
            r is Some <==> self@.contains_key(name@) && self@[name@].committed.version != 0,
            r is Some ==> r->0 == self@[name@].committed,
    {
        visible_entry(&self.slot(name))
    }

    /// Whether the version counter has room for a write of the reference: it has not
    /// where the write would go ahead at the last version.
    pub fn write_fits(&self, name: &RefName, expected: Option<ObjectId>) -> (r: bool)
        ensures
            r == write_room(slot_at(self@, name@), expected),
    {
        match self.check_write(name, expected) {
            WriteCheck::Free(Some(c)) => c.version < u64::MAX,
            _ => true,
        }
    }

    /// Whether the version counter has room for an operation.
    pub fn op_fits(&self, op: &AppliedOp) -> (r: bool)
        ensures
            r == op_room(slot_at(self@, op_name(*op)), *op),
    {
        match op {
            AppliedOp::Update { name, expected, .. } => self.write_fits(name, *expected),
            AppliedOp::CommitPrepared { txn_id, name } => match self.slot(name) {
                Some(s) => match s.prepared {
                    Some(p) => p.txn_id != *txn_id || s.committed.version < u64::MAX,
                    None => true,
                },
                None => true,
            },
            _ => true,
        }
    }

    /// Creates or updates a reference: it must not exist where `expected` is
    /// `None`, and point to what is expected otherwise. A locked reference is in
    /// conflict.
    pub fn update(
        &mut self,
        name: &RefName,
        new: ObjectId,
        expected: Option<ObjectId>,
        hlc: u64,
    ) -> (r: Result<RefEntry, LedgeError>)
        requires
            write_room(slot_at(old(self)@, name@), expected),
        ensures
            match write_check(slot_at(old(self)@, name@), expected) {
                WriteCheck::Free(cur) => {
                    let e = next_entry(cur, new, hlc);
                    &&& r == Ok::<RefEntry, LedgeError>(e)
                    &&& final(self)@ == old(self)@.insert(name@, slot::unlocked(e))
                    &&& final(self).pending() == old(self).pending().push(
                        (WalEntry::Update { name: *name, entry: e }),
                    )
                },
                WriteCheck::Conflict(c) => {
                    &&& r == Err::<RefEntry, LedgeError>((LedgeError::Conflict { current: c }))
                    &&& *final(self) == *old(self)
                },
                WriteCheck::Missing => {
                    &&& r == Err::<RefEntry, LedgeError>(LedgeError::NotFound(new))
                    &&& *final(self) == *old(self)
                },
            },
            ({
                let m = old(self)@;
                let locked = m.contains_key(name@) && m[name@].prepared is Some;
                let there = m.contains_key(name@) && m[name@].committed.version != 0;
                let met = match expected {
                    Some(x) => there && m[name@].committed.target == x,
                    None => !there,
                };
                &&& r is Ok <==> !locked && met
                &&& r matches Ok(e) ==> {
                    &&& e.target == new && e.hlc == hlc
                    &&& e.version == if there {
                        m[name@].committed.version + 1
                    } else {
                        1
                    }
                    &&& final(self)@ == m.insert(
                        name@,
                        (RefSlot { committed: e, prepared: None }),
                    )
                    &&& final(self).pending() == old(self).pending().push(
                        (WalEntry::Update { name: *name, entry: e }),
                    )
                }
                &&& r is Err ==> *final(self) == *old(self)
                &&& r is Err && (locked || there) ==> r == Err::<RefEntry, LedgeError>(
                    (LedgeError::Conflict { current: m[name@].committed }),
                )
                &&& r is Err && !locked && !there ==> r == Err::<RefEntry, LedgeError>(
                    LedgeError::NotFound(new),
                )
            }),
    {
        match self.check_write(name, expected) {
            WriteCheck::Free(cur) => {
                let version: u64 = match &cur {
                    Some(c) => c.version + 1,
                    None => 1,
                };
                let entry = RefEntry { target: new, hlc, version };
                self.put_slot(name, RefSlot::committed(entry));
                self.log(WalEntry::Update { name: name.clone(), entry });
                Ok(entry)
            },
            WriteCheck::Conflict(c) => Err(LedgeError::Conflict { current: c }),
            WriteCheck::Missing => Err(LedgeError::NotFound(new)),
        }
    }

    /// Deletes a reference that points to `expected`. A locked reference is in
    /// conflict.
    pub fn delete(&mut self, name: &RefName, expected: ObjectId, hlc: u64) -> (r: Result<
        (),
        LedgeError,
    >)
        ensures
            match write_check(slot_at(old(self)@, name@), Some(expected)) {
                WriteCheck::Free(_) => {
                    &&& r == Ok::<(), LedgeError>(())
                    &&& final(self)@ == old(self)@.remove(name@)
                    &&& final(self).pending() == old(self).pending().push(
                        (WalEntry::Delete { name: *name, hlc }),
                    )
                },
                WriteCheck::Conflict(c) => {
                    &&& r == Err::<(), LedgeError>((LedgeError::Conflict { current: c }))
                    &&& *final(self) == *old(self)
                },
                WriteCheck::Missing => {
                    &&& r == Err::<(), LedgeError>(LedgeError::NotFound(expected))
                    &&& *final(self) == *old(self)
                },
            },
            ({
                let m = old(self)@;
                let locked = m.contains_key(name@) && m[name@].prepared is Some;
                let there = m.contains_key(name@) && m[name@].committed.version != 0;
                &&& r is Ok <==> !locked && there && m[name@].committed.target == expected
                &&& r is Ok ==> {
                    &&& final(self)@ == m.remove(name@)
                    &&& final(self).pending() == old(self).pending().push(
                        (WalEntry::Delete { name: *name, hlc }),
                    )
                }
                &&& r is Err ==> *final(self) == *old(self)
                &&& r is Err && (locked || there) ==> r == Err::<(), LedgeError>(
                    (LedgeError::Conflict { current: m[name@].committed }),
                )
                &&& r is Err && !locked && !there ==> r == Err::<(), LedgeError>(
                    LedgeError::NotFound(expected),
                )
            }),
    {
        match self.check_write(name, Some(expected)) {
            WriteCheck::Free(_) => {
                self.drop_slot(name);
                self.log(WalEntry::Delete { name: name.clone(), hlc });
                Ok(())
            },
            WriteCheck::Conflict(c) => Err(LedgeError::Conflict { current: c }),
            WriteCheck::Missing => Err(LedgeError::NotFound(expected)),
        }
    }

    /// Applies a replicated write. The outcome and the new state depend on the
    /// state and the operation alone.
    #[verifier::rlimit(40)]
    pub fn apply_op(&mut self, op: &AppliedOp) -> (r: AppliedOutcome)
        requires
            op_room(slot_at(old(self)@, op_name(*op)), *op),
        ensures
            applied(old(self)@, *op, r, final(self)@),
            final(self).pending() == old(self).pending() + op_log(
                slot_at(old(self)@, op_name(*op)),
                *op,
            ),
            match *op {
                AppliedOp::Update { name, target, expected, hlc } => {
                    let m = old(self)@;
                    let locked = m.contains_key(name@) && m[name@].prepared is Some;
                    let there = m.contains_key(name@) && m[name@].committed.version != 0;
                    let met = match expected {
                        Some(x) => there && m[name@].committed.target == x,
                        None => !there,
                    };
                    &&& r is Updated <==> !locked && met
                    &&& r matches AppliedOutcome::Updated(e) ==> {
                        &&& e.target == target && e.hlc == hlc
                        &&& e.version == if there {
                            m[name@].committed.version + 1
                        } else {
                            1
                        }
                        &&& final(self)@ == m.insert(
                            name@,
                            (RefSlot { committed: e, prepared: None }),
                        )
                        &&& final(self).pending() == old(self).pending().push(
                            (WalEntry::Update { name, entry: e }),
                        )
                    }
                    &&& !(r is Updated) ==> *final(self) == *old(self)
                    &&& !(r is Updated) && (locked || there) ==> r == AppliedOutcome::Conflict(
                        m[name@].committed,
                    )
                    &&& !(r is Updated) && !locked && !there ==> r is NotFound
                },
                AppliedOp::Delete { name, expected, hlc } => {
                    let m = old(self)@;
                    let locked = m.contains_key(name@) && m[name@].prepared is Some;
                    let there = m.contains_key(name@) && m[name@].committed.version != 0;
                    &&& r is Deleted <==> !locked && there && m[name@].committed.target
                        == expected
                    &&& r is Deleted ==> {
                        &&& final(self)@ == m.remove(name@)
                        &&& final(self).pending() == old(self).pending().push(
                            (WalEntry::Delete { name, hlc }),
                        )
                    }
                    &&& !(r is Deleted) ==> *final(self) == *old(self)
                    &&& !(r is Deleted) && (locked || there) ==> r == AppliedOutcome::Conflict(
                        m[name@].committed,
                    )
                    &&& !(r is Deleted) && !locked && !there ==> r is NotFound
                },
                AppliedOp::Prepare { txn_id, coord_shard, name, target, expected, hlc } => {
                    let m = old(self)@;
                    let held_by_other = m.contains_key(name@) && m[name@].prepared is Some
                        && m[name@].prepared->0.txn_id != txn_id;
                    let there = m.contains_key(name@) && m[name@].committed.version != 0;
                    let met = match expected {
                        Some(x) => there && m[name@].committed.target == x,
                        None => !there,
                    };
                    &&& r is VoteYes || r is VoteNo
                    &&& r is VoteYes <==> !held_by_other && met
                    &&& r is VoteYes ==> {
                        &&& final(self)@.dom() == m.dom().insert(name@)
                        &&& final(self)@.remove(name@) == m.remove(name@)
                        &&& final(self)@[name@].prepared == Some(
                            PreparedIntent {
                                txn_id,
                                coord_shard,
                                staged_target: target,
                                staged_hlc: hlc,
                            },
                        )
                        &&& m.contains_key(name@) ==> final(self)@[name@].committed
                            == m[name@].committed
                        &&& !m.contains_key(name@) ==> final(self)@[name@].committed.version == 0
                        &&& final(self).pending() == old(self).pending()
                    }
                    &&& r is VoteNo ==> *final(self) == *old(self)
                },
                AppliedOp::CommitPrepared { txn_id, name } => {
                    let m = old(self)@;
                    let held = m.contains_key(name@) && m[name@].prepared is Some
                        && m[name@].prepared->0.txn_id == txn_id;
                    &&& held ==> (r matches AppliedOutcome::CommitedPrepared(e) && {
                        &&& e.target == m[name@].prepared->0.staged_target
                        &&& e.hlc == m[name@].prepared->0.staged_hlc
                        &&& e.version == m[name@].committed.version + 1
                        &&& final(self)@ == m.insert(
                            name@,
                            (RefSlot { committed: e, prepared: None }),
                        )
                        &&& final(self).pending() == old(self).pending().push(
                            (WalEntry::Update { name, entry: e }),
                        )
                    })
                    &&& !held ==> *final(self) == *old(self)
                    &&& !held && m.contains_key(name@) ==> r == AppliedOutcome::CommitedPrepared(
                        m[name@].committed,
                    )
                    &&& !m.contains_key(name@) ==> r is AbortedPrepared
                },
                AppliedOp::AbortPrepared { txn_id, name } => {
                    let m = old(self)@;
                    let held = m.contains_key(name@) && m[name@].prepared is Some
                        && m[name@].prepared->0.txn_id == txn_id;
                    &&& r is AbortedPrepared
                    &&& held && m[name@].committed.version == 0 ==> final(self)@ == m.remove(name@)
                    &&& held && m[name@].committed.version != 0 ==> final(self)@ == m.insert(
                        name@,
                        (RefSlot { committed: m[name@].committed, prepared: None }),
                    )
                    &&& final(self).pending() == old(self).pending()
                    &&& !held ==> *final(self) == *old(self)
                },
            },
    {
        let ghost m = self@;
        let ghost before = self.pending();
        assert(before + Seq::<WalEntry>::empty() =~= before);
        assert(set_slot(m, op_name(*op), slot_at(m, op_name(*op))) =~= m);
        match op {
            AppliedOp::Update { name, target, expected, hlc } => {
                match self.check_write(name, *expected) {
                    WriteCheck::Free(cur) => {
                        let version: u64 = match &cur {
                            Some(c) => c.version + 1,
                            None => 1,
                        };
                        let entry = RefEntry { target: *target, hlc: *hlc, version };
                        self.put_slot(name, RefSlot::committed(entry));
                        self.log(WalEntry::Update { name: name.clone(), entry });
                        AppliedOutcome::Updated(entry)
                    },
                    WriteCheck::Conflict(c) => AppliedOutcome::Conflict(c),
                    WriteCheck::Missing => AppliedOutcome::NotFound,
                }
            },
            AppliedOp::Delete { name, expected, hlc } => {
                match self.check_write(name, Some(*expected)) {
                    WriteCheck::Free(_) => {
                        self.drop_slot(name);
                        self.log(WalEntry::Delete { name: name.clone(), hlc: *hlc });
                        AppliedOutcome::Deleted
                    },
                    WriteCheck::Conflict(c) => AppliedOutcome::Conflict(c),
                    WriteCheck::Missing => AppliedOutcome::NotFound,
                }
            },
            AppliedOp::Prepare { txn_id, coord_shard, name, target, expected, hlc } => {
                let s = self.slot(name);
                if let Some(x) = &s {
                    if x.locked_by_other(txn_id) {
                        return AppliedOutcome::VoteNo;
                    }
                }
                let holds: bool = match (visible_entry(&s), *expected) {
                    (None, None) => true,
                    (Some(c), Some(x)) => c.target == x,
                    _ => false,
                };
                if !holds {
                    return AppliedOutcome::VoteNo;
                }
                let committed = match &s {
                    Some(x) => x.committed,
                    None => RefEntry { target: *target, hlc: 0, version: 0 },
                };
                let intent = PreparedIntent {
                    txn_id: *txn_id,
                    coord_shard: *coord_shard,
                    staged_target: *target,
                    staged_hlc: *hlc,
                };
                self.put_slot(name, RefSlot { committed, prepared: Some(intent) });
                AppliedOutcome::VoteYes
            },
            AppliedOp::CommitPrepared { txn_id, name } => {
                match self.slot(name) {
                    None => AppliedOutcome::AbortedPrepared,
                    Some(x) => match &x.prepared {
                        Some(p) => {
                            if p.txn_id != *txn_id {
                                return AppliedOutcome::CommitedPrepared(x.committed);
                            }
                            let entry = RefEntry {
                                target: p.staged_target,
                                hlc: p.staged_hlc,
                                version: x.committed.version + 1,
                            };
                            self.put_slot(name, RefSlot::committed(entry));
                            self.log(WalEntry::Update { name: name.clone(), entry });
                            AppliedOutcome::CommitedPrepared(entry)
                        },
                        None => AppliedOutcome::CommitedPrepared(x.committed),
                    },
                }
            },
            AppliedOp::AbortPrepared { txn_id, name } => {
                if let Some(x) = self.slot(name) {
                    if let Some(p) = &x.prepared {
                        if p.txn_id == *txn_id {
                            if x.committed.version == 0 {
                                self.drop_slot(name);
                            } else {
                                self.put_slot(name, RefSlot::committed(x.committed));
                            }
                        }
                    }
                }
                AppliedOutcome::AbortedPrepared
            },
        }
    }
}

// ---------------------------------------------------------------------------
// Batches
// ---------------------------------------------------------------------------

/// One write of a batch: the name, the new target, what is expected, and the
/// logical time.
pub type BatchWrite = (RefName, ObjectId, Option<ObjectId>, u64);

/// `m` with unlocked slots for the given entries put in, one after the other.
pub open spec fn with_slots(
    m: Map<Seq<u8>, RefSlot>,
    items: Seq<(RefName, RefEntry)>,
) -> Map<Seq<u8>, RefSlot>
    decreases items.len(),
{
    if items.len() == 0 {
        m
    } else {
        with_slots(m, items.drop_last()).insert(items.last().0@, slot::unlocked(items.last().1))
    }
}

/// Why a write of a batch cannot go ahead, as the entry that stands in its way;
/// one of version 0 for a reference that does not exist.
pub open spec fn batch_obstacle(m: Map<Seq<u8>, RefSlot>, w: BatchWrite) -> Option<RefEntry> {
    match write_check(slot_at(m, w.0@), w.2) {
        WriteCheck::Free(_) => None,
        WriteCheck::Conflict(c) => Some(c),
        WriteCheck::Missing => Some(RefEntry { target: w.2->0, hlc: 0, version: 0 }),
    }
}

/// The writes of a batch that cannot go ahead, in order.
pub open spec fn batch_conflicts(m: Map<Seq<u8>, RefSlot>, ops: Seq<BatchWrite>) -> Seq<
    (RefName, RefEntry),
>
    decreases ops.len(),
{
    if ops.len() == 0 {
        Seq::empty()
    } else {
        let before = batch_conflicts(m, ops.drop_last());
        match batch_obstacle(m, ops.last()) {
            Some(c) => before.push((ops.last().0, c)),
            None => before,
        }
    }
}

/// The entries that a batch commits, each computed from the state before it.
pub open spec fn batch_updates(m: Map<Seq<u8>, RefSlot>, ops: Seq<BatchWrite>) -> Seq<
    (RefName, RefEntry),
> {
    Seq::new(
        ops.len(),
        |i: int|
            (
                ops[i].0,
                next_entry(slot::visible(slot_at(m, ops[i].0@)), ops[i].1, ops[i].3),
            ),
    )
}

/// The entries alone.
pub open spec fn entries_alone(items: Seq<(RefName, RefEntry)>) -> Seq<RefEntry> {
    Seq::new(items.len(), |i: int| items[i].1)
}

fn tree_set_all(root: Option<Arc<ArtNode<RefSlot>>>, items: &Vec<(RefName, RefEntry)>) -> (r:
    Option<Arc<ArtNode<RefSlot>>>)
    requires
        tree_ok(root),
    ensures
        tree_ok(r),
        art::entries_of(r) == with_slots(art::entries_of(root), items@),
{
    let ghost m = art::entries_of(root);
    let mut cur = root;
    let mut i: usize = 0;
    assert(items@.subrange(0, 0) =~= Seq::<(RefName, RefEntry)>::empty());
    while i < items.len()
        invariant
            i <= items.len(),
            tree_ok(cur),
            art::entries_of(cur) == with_slots(m, items@.subrange(0, i as int)),
        decreases items.len() - i,
    {
        cur = tree_set(cur, &items[i].0, RefSlot::committed(items[i].1));
        i += 1;
        assert(items@.subrange(0, i as int).drop_last() =~= items@.subrange(0, i - 1));
    }
    assert(items@.subrange(0, i as int) =~= items@);
    cur
}

/// The names that no entry is for keep what they had.
#[verifier::rlimit(30)]
pub proof fn unnamed_slots_stay(
    m: Map<Seq<u8>, RefSlot>,
    items: Seq<(RefName, RefEntry)>,
    k: Seq<u8>,
)
    requires
        forall|i: int| 0 <= i < items.len() ==> (#[trigger] items[i]).0@ != k,
    ensures
        with_slots(m, items).contains_key(k) <==> m.contains_key(k),
        m.contains_key(k) ==> with_slots(m, items)[k] == m[k],
    decreases items.len(),
{
    if items.len() > 0 {
        let front = items.drop_last();
        assert forall|i: int| 0 <= i < front.len() implies (#[trigger] front[i]).0@ != k by {
            assert(items[i].0@ != k);
        }
        unnamed_slots_stay(m, front, k);
        assert(items[items.len() - 1].0@ != k);
    }
}

/// Of the entries put in under one name the last one stays, without a lock.
#[verifier::rlimit(30)]
pub proof fn last_entry_stays(
    m: Map<Seq<u8>, RefSlot>,
    items: Seq<(RefName, RefEntry)>,
    i: int,
)
    requires
        0 <= i < items.len(),
        forall|j: int| i < j < items.len() ==> (#[trigger] items[j]).0@ != items[i].0@,
    ensures
        with_slots(m, items).contains_key(items[i].0@),
        with_slots(m, items)[items[i].0@].committed == items[i].1,
        with_slots(m, items)[items[i].0@].prepared is None,
    decreases items.len(),
{
    if i < items.len() - 1 {
        let front = items.drop_last();
        assert(front[i] == items[i]);
        assert forall|j: int| i < j < front.len() implies (#[trigger] front[j]).0@
            != front[i].0@ by {
            assert(items[j].0@ != items[i].0@);
        }
        last_entry_stays(m, front, i);
        assert(items[items.len() - 1].0@ != items[i].0@);
    }
}

/// A batch is refused by those of its writes, in their order, whose reference is
/// locked or is not what the write expects. With each goes the entry of the
/// reference; of one that does not exist, what was expected, at version 0.
#[verifier::rlimit(30)]
pub proof fn refusals_are_unmet_writes(m: Map<Seq<u8>, RefSlot>, ops: Seq<BatchWrite>)
    ensures
        batch_conflicts(m, ops) == ops.filter(
            |w: BatchWrite|
                {
                    let there = m.contains_key(w.0@) && m[w.0@].committed.version != 0;
                    ||| m.contains_key(w.0@) && m[w.0@].prepared is Some
                    ||| w.2 is None && there
                    ||| w.2 is Some && !(there && m[w.0@].committed.target == w.2->0)
                },
        ).map_values(
            |w: BatchWrite|
                (
                    w.0,
                    if m.contains_key(w.0@) && (m[w.0@].prepared is Some
                        || m[w.0@].committed.version != 0) {
                        m[w.0@].committed
                    } else {
                        RefEntry { target: w.2->0, hlc: 0, version: 0 }
                    },
                ),
        ),
    decreases ops.len(),
{
    reveal(Seq::filter);
    let unmet = |w: BatchWrite|
        {
            let there = m.contains_key(w.0@) && m[w.0@].committed.version != 0;
            ||| m.contains_key(w.0@) && m[w.0@].prepared is Some
            ||| w.2 is None && there
            ||| w.2 is Some && !(there && m[w.0@].committed.target == w.2->0)
        };
    let told = |w: BatchWrite|
        (
            w.0,
            if m.contains_key(w.0@) && (m[w.0@].prepared is Some || m[w.0@].committed.version
                != 0) {
                m[w.0@].committed
            } else {
                RefEntry { target: w.2->0, hlc: 0, version: 0 }
            },
        );
    if ops.len() > 0 {
        refusals_are_unmet_writes(m, ops.drop_last());
        let front = ops.drop_last().filter(unmet);
        if unmet(ops.last()) {
            assert(ops.filter(unmet) =~= front.push(ops.last()));
            assert(front.push(ops.last()).map_values(told) =~= front.map_values(told).push(
                told(ops.last()),
            ));
        }
    } else {
        assert(ops.filter(unmet).map_values(told) =~= Seq::<(RefName, RefEntry)>::empty());
    }
}

impl RefStoreImpl {
    /// Applies all writes or none. Every precondition is checked against the
    /// state before the batch; where one fails, the failing writes are returned
    /// with the entries that stand in their way.
    #[verifier::rlimit(40)]
    pub fn commit_batch(&mut self, ops: &Vec<BatchWrite>) -> (r: Result<
        Vec<RefEntry>,
        Vec<(RefName, RefEntry)>,
    >)
        requires
            forall|i: int|
                0 <= i < ops.len() ==> write_room(
                    slot_at(old(self)@, (#[trigger] ops@[i]).0@),
                    ops@[i].2,
                ),
        ensures
            match r {
                Ok(applied) => {
                    let updates = batch_updates(old(self)@, ops@);
                    &&& batch_conflicts(old(self)@, ops@).len() == 0
                    &&& applied@ == entries_alone(updates)
                    &&& final(self)@ == with_slots(old(self)@, updates)
                    &&& ops.len() == 0 ==> final(self).pending() == old(self).pending()
                    &&& ops.len() > 0 ==> {
                        &&& final(self).pending().drop_last() == old(self).pending()
                        &&& final(self).pending().len() == old(self).pending().len() + 1
                        &&& final(self).pending().last() matches WalEntry::Batch { updates: u }
                            && u@ == updates
                    }
                },
                Err(conflicts) => {
                    &&& batch_conflicts(old(self)@, ops@).len() > 0
                    &&& conflicts@ == batch_conflicts(old(self)@, ops@)
                    &&& *final(self) == *old(self)
                },
            },
            r is Ok <==> forall|i: int|
                0 <= i < ops@.len() ==> {
                    let w = #[trigger] ops@[i];
                    let m = old(self)@;
                    let there = m.contains_key(w.0@) && m[w.0@].committed.version != 0;
                    &&& !(m.contains_key(w.0@) && m[w.0@].prepared is Some)
                    &&& w.2 is None ==> !there
                    &&& w.2 is Some ==> there && m[w.0@].committed.target == w.2->0
                },
            r matches Ok(applied) ==> {
                let m = old(self)@;
                &&& applied@.len() == ops@.len()
                &&& forall|i: int|
                    0 <= i < ops@.len() ==> {
                        let w = #[trigger] ops@[i];
                        &&& applied@[i].target == w.1
                        &&& applied@[i].hlc == w.3
                        &&& applied@[i].version == if m.contains_key(w.0@)
                            && m[w.0@].committed.version != 0 {
                            m[w.0@].committed.version + 1
                        } else {
                            1
                        }
                        &&& (forall|j: int| i < j < ops@.len() ==> (#[trigger] ops@[j]).0@ != w.0@)
                            ==> {
                            &&& final(self)@.contains_key(w.0@)
                            &&& final(self)@[w.0@].committed == applied@[i]
                            &&& final(self)@[w.0@].prepared is None
                        }
                    }
                &&& ops@.len() > 0 ==> (final(self).pending().last() matches WalEntry::Batch {
                    updates: u,
                } && u@.len() == ops@.len() && forall|i: int|
                    0 <= i < ops@.len() ==> (#[trigger] u@[i]) == (ops@[i].0, applied@[i]))
                &&& forall|k: Seq<u8>|
                    (forall|i: int| 0 <= i < ops@.len() ==> (#[trigger] ops@[i]).0@ != k) ==> {
                        &&& #[trigger] final(self)@.contains_key(k) <==> m.contains_key(k)
                        &&& m.contains_key(k) ==> final(self)@[k] == m[k]
                    }
            },
            r matches Err(conflicts) ==> {
                let m = old(self)@;
                conflicts@ == ops@.filter(
                    |w: BatchWrite|
                        {
                            let there = m.contains_key(w.0@) && m[w.0@].committed.version != 0;
                            ||| m.contains_key(w.0@) && m[w.0@].prepared is Some
                            ||| w.2 is None && there
                            ||| w.2 is Some && !(there && m[w.0@].committed.target == w.2->0)
                        },
                ).map_values(
                    |w: BatchWrite|
                        (
                            w.0,
                            if m.contains_key(w.0@) && (m[w.0@].prepared is Some
                                || m[w.0@].committed.version != 0) {
                                m[w.0@].committed
                            } else {
                                RefEntry { target: w.2->0, hlc: 0, version: 0 }
                            },
                        ),
                )
            },
    {
        let ghost m = self@;
        let mut conflicts: Vec<(RefName, RefEntry)> = Vec::new();
        let mut planned: Vec<(RefName, RefEntry)> = Vec::new();
        let mut i: usize = 0;
        assert(ops@.subrange(0, 0) =~= Seq::<BatchWrite>::empty());
        while i < ops.len()
            invariant
                i <= ops.len(),
                m == self@,
                *self == *old(self),
                forall|i: int|
                    0 <= i < ops.len() ==> write_room(
                        slot_at(m, (#[trigger] ops@[i]).0@),
                        ops@[i].2,
                    ),
                conflicts@ == batch_conflicts(m, ops@.subrange(0, i as int)),
                conflicts@.len() == 0 ==> planned@ == batch_updates(
                    m,
                    ops@.subrange(0, i as int),
                ),
            decreases ops.len() - i,
        {
            let w = &ops[i];
            let ghost done = ops@.subrange(0, i as int);
            let ghost now = ops@.subrange(0, i + 1);
            assert(now.drop_last() =~= done);
            assert(now.last() == ops@[i as int]);
            match self.check_write(&w.0, w.2) {
                WriteCheck::Free(cur) => {
                    let version: u64 = match &cur {
                        Some(c) => c.version + 1,
                        None => 1,
                    };
                    let entry = RefEntry { target: w.1, hlc: w.3, version };
                    planned.push((w.0.clone(), entry));
                    assert(conflicts@.len() == 0 ==> planned@ =~= batch_updates(m, now));
                },
                WriteCheck::Conflict(c) => {
                    conflicts.push((w.0.clone(), c));
                },
                WriteCheck::Missing => {
                    let target: ObjectId = match &w.2 {
                        Some(x) => *x,
                        None => w.1,
                    };
                    conflicts.push((w.0.clone(), RefEntry { target, hlc: 0, version: 0 }));
                },
            }
            i += 1;
        }
        assert(ops@.subrange(0, i as int) =~= ops@);
        proof {
            refusals_are_unmet_writes(m, ops@);
            crate::store_laws::batch_is_all_or_nothing(m, ops@);
        }
        if conflicts.len() > 0 {
            return Err(conflicts);
        }
        proof {
            use_type_invariant(&*self);
        }
        let ghost updates = planned@;
        let mut root: Option<Arc<ArtNode<RefSlot>>> = None;
        assert(art::entries_of(None::<Arc<ArtNode<RefSlot>>>) =~= Map::<Seq<u8>, RefSlot>::empty());
        std::mem::swap(&mut root, &mut self.root);
        let new_root = tree_set_all(root, &planned);
        self.root = new_root;
        let mut applied: Vec<RefEntry> = Vec::new();
        let mut j: usize = 0;
        while j < planned.len()
            invariant
                j <= planned.len(),
                applied@ == entries_alone(planned@).subrange(0, j as int),
            decreases planned.len() - j,
        {
            applied.push(planned[j].1);
            j += 1;
            assert(applied@ =~= entries_alone(planned@).subrange(0, j as int));
        }
        assert(applied@ =~= entries_alone(planned@));
        if planned.len() > 0 {
            let ghost before = self.pending();
            self.log(WalEntry::Batch { updates: planned });
            assert(self.pending().drop_last() =~= before);
        }
        proof {
            assert forall|i: int| 0 <= i < ops@.len() implies write_check(
                slot_at(m, (#[trigger] ops@[i]).0@),
                ops@[i].2,
            ) is Free by {}
            assert forall|k: Seq<u8>|
                (forall|i: int| 0 <= i < ops@.len() ==> (#[trigger] ops@[i]).0@ != k) implies ((
            #[trigger] self@.contains_key(k)) <==> m.contains_key(k)) && (m.contains_key(k)
                ==> self@[k] == m[k]) by {
                assert forall|i: int| 0 <= i < updates.len() implies (#[trigger] updates[i]).0@
                    != k by {
                    assert(ops@[i].0@ != k);
                }
                unnamed_slots_stay(m, updates, k);
            }
            assert forall|i: int|
                0 <= i < ops@.len() && (forall|j: int|
                    i < j < ops@.len() ==> (#[trigger] ops@[j]).0@ != (#[trigger] ops@[i]).0@) implies {
                &&& self@.contains_key(ops@[i].0@)
                &&& self@[ops@[i].0@].committed == applied@[i]
                &&& self@[ops@[i].0@].prepared is None
            } by {
                assert forall|j: int| i < j < updates.len() implies (#[trigger] updates[j]).0@
                    != updates[i].0@ by {
                    assert(ops@[j].0@ != ops@[i].0@);
                }
                last_entry_stays(m, updates, i);
            }
        }
        Ok(applied)
    }

    /// The store that a log describes. The log begins with its last checkpoint,
    /// where it has one.
    pub fn open(log: &Vec<WalEntry>) -> (r: Self)
        ensures
            r@ == unlocked_slots(replay(Map::empty(), log@)),
            r.pending() == Seq::<WalEntry>::empty(),
    {
        let mut root: Option<Arc<ArtNode<RefSlot>>> = None;
        let mut i: usize = 0;
        assert(log@.subrange(0, 0) =~= Seq::<WalEntry>::empty());
        assert(art::entries_of(root) =~= unlocked_slots(Map::empty()));
        while i < log.len()
            invariant
                i <= log.len(),
                tree_ok(root),
                art::entries_of(root) == unlocked_slots(
                    replay(Map::empty(), log@.subrange(0, i as int)),
                ),
            decreases log.len() - i,
        {
            let ghost m = replay(Map::empty(), log@.subrange(0, i as int));
            let ghost now = log@.subrange(0, i + 1);
            assert(now.drop_last() =~= log@.subrange(0, i as int));
            match &log[i] {
                WalEntry::Update { name, entry } => {
                    root = tree_set(root, name, RefSlot::committed(*entry));
                    assert(unlocked_slots(m).insert(name@, slot::unlocked(*entry))
                        =~= unlocked_slots(m.insert(name@, *entry)));
                },
                WalEntry::Delete { name, .. } => {
                    root = tree_remove(root, name);
                    assert(unlocked_slots(m).remove(name@) =~= unlocked_slots(m.remove(name@)));
                },
                WalEntry::Checkpoint { leaves } => {
                    root = tree_set_all(None, leaves);
                    proof {
                        assert(art::entries_of(None::<Arc<ArtNode<RefSlot>>>)
                            =~= unlocked_slots(Map::empty()));
                        lemma_with_slots(Map::empty(), leaves@);
                    }
                },
                WalEntry::Batch { updates } => {
                    root = tree_set_all(root, updates);
                    proof {
                        lemma_with_slots(m, updates@);
                    }
                },
            }
            i += 1;
        }
        assert(log@.subrange(0, i as int) =~= log@);
        RefStoreImpl { root, pending: Vec::new() }
    }

    /// Replaces all references by the given ones, as they are: targets, times
    /// and versions.
    #[verifier::rlimit(40)]
    pub fn restore_from(&mut self, entries: Vec<(RefName, RefEntry)>)
        ensures
            final(self)@ == unlocked_slots(with_entries(Map::empty(), entries@)),
            final(self).pending() == old(self).pending().push(
                (WalEntry::Checkpoint { leaves: entries }),
            ),
            forall|k: Seq<u8>| #[trigger]
                final(self)@.contains_key(k) ==> exists|i: int|
                    0 <= i < entries@.len() && (#[trigger] entries@[i]).0@ == k,
            forall|i: int|
                0 <= i < entries@.len() && (forall|j: int|
                    i < j < entries@.len() ==> (#[trigger] entries@[j]).0@ != (
                    #[trigger] entries@[i]).0@) ==> {
                    &&& final(self)@.contains_key(entries@[i].0@)
                    &&& final(self)@[entries@[i].0@].committed == entries@[i].1
                    &&& final(self)@[entries@[i].0@].prepared is None
                },
    {
        let new_root = tree_set_all(None, &entries);
        proof {
            assert(art::entries_of(None::<Arc<ArtNode<RefSlot>>>) =~= unlocked_slots(Map::empty()));
            lemma_with_slots(Map::empty(), entries@);
        }
        self.root = new_root;
        proof {
            let none = Map::<Seq<u8>, RefSlot>::empty();
            assert(unlocked_slots(Map::empty()) =~= none);
            assert forall|k: Seq<u8>| #[trigger] self@.contains_key(k) implies exists|i: int|
                0 <= i < entries@.len() && (#[trigger] entries@[i]).0@ == k by {
                if forall|i: int| 0 <= i < entries@.len() ==> (#[trigger] entries@[i]).0@ != k {
                    unnamed_slots_stay(none, entries@, k);
                }
            }
            assert forall|i: int|
                0 <= i < entries@.len() && (forall|j: int|
                    i < j < entries@.len() ==> (#[trigger] entries@[j]).0@ != (
                    #[trigger] entries@[i]).0@) implies {
                &&& self@.contains_key(entries@[i].0@)
                &&& self@[entries@[i].0@].committed == entries@[i].1
                &&& self@[entries@[i].0@].prepared is None
            } by {
                last_entry_stays(none, entries@, i);
            }
        }
        self.log(WalEntry::Checkpoint { leaves: entries });
    }

    /// Every reference whose name begins with `prefix`, as readers see it, in
    /// lexicographic order.
    #[verifier::rlimit(40)]
    pub fn list(&self, prefix: &str) -> (r: Vec<(RefName, RefEntry)>)
        ensures
            lists_refs(
                r@,
                art::matching(visible_refs(self@), vstd::utf8::encode_utf8(prefix@)),
            ),
            refs_in_order(r@),
            forall|i: int|
                0 <= i < r@.len() ==> {
                    let name = (#[trigger] r@[i]).0@;
                    let p = vstd::utf8::encode_utf8(prefix@);
                    &&& self@.contains_key(name) && self@[name].committed.version != 0
                    &&& r@[i].1 == self@[name].committed
                    &&& p.len() <= name.len() && name.subrange(0, p.len() as int) == p
                },
            forall|name: Seq<u8>| #[trigger]
                self@.contains_key(name) && self@[name].committed.version != 0
                    && vstd::utf8::encode_utf8(prefix@).len() <= name.len() && name.subrange(
                    0,
                    vstd::utf8::encode_utf8(prefix@).len() as int,
                ) == vstd::utf8::encode_utf8(prefix@) ==> exists|i: int|
                    0 <= i < r@.len() && (#[trigger] r@[i]).0@ == name,
    {
        proof {
            use_type_invariant(self);
        }
        let r = tree_list(&self.root, prefix);
        proof {
            let shown = art::matching(visible_refs(self@), vstd::utf8::encode_utf8(prefix@));
            assert forall|i: int| 0 <= i < r@.len() implies shown.contains_key(
                (#[trigger] r@[i]).0@,
            ) && shown[r@[i].0@] == r@[i].1 by {}
            assert forall|name: Seq<u8>| #[trigger]
                self@.contains_key(name) && self@[name].committed.version != 0
                    && codec::has_prefix(
                    name,
                    vstd::utf8::encode_utf8(prefix@),
                ) implies exists|i: int| 0 <= i < r@.len() && (#[trigger] r@[i]).0@ == name by {
                assert(shown.contains_key(name));
            }
        }
        r
    }

    /// The state of all references at this moment; later writes do not touch it.
    pub fn snapshot(&self) -> (r: ArtSnapshot)
        ensures
            r@ == self@,
    {
        proof {
            use_type_invariant(self);
        }
        match &self.root {
            Some(n) => ArtSnapshot { root: Some(art::share(n)) },
            None => ArtSnapshot { root: None },
        }
    }

    /// The checkpoint that can stand for the whole log so far.
    pub fn compact_wal(&self) -> (r: WalEntry)
        ensures
            r matches WalEntry::Checkpoint { leaves } && lists_refs(
                leaves@,
                visible_refs(self@),
            ) && refs_in_order(leaves@),
            forall|m: Map<Seq<u8>, RefEntry>| #[trigger] replay_one(m, r) == visible_refs(self@),
    {
        let leaves = self.list("");
        proof {
            reveal_strlit("");
            lemma_all_match(visible_refs(self@));
            lemma_listed(leaves@, visible_refs(self@));
        }
        WalEntry::Checkpoint { leaves }
    }
}

/// Every name begins with the empty string.
pub proof fn lemma_all_match(m: Map<Seq<u8>, RefEntry>)
    requires
        ""@.len() == 0,
    ensures
        art::matching(m, vstd::utf8::encode_utf8(""@)) == m,
{
    let p = vstd::utf8::encode_utf8(""@);
    assert(p =~= Seq::<u8>::empty());
    assert forall|k: Seq<u8>| codec::has_prefix(k, p) by {
        assert(k.subrange(0, 0) =~= p);
    }
    assert(art::matching(m, p) =~= m);
}

/// Whether a log file of `wal_bytes` is due for compaction.
pub fn compaction_due(wal_bytes: u64, threshold_bytes: u64) -> (r: bool)
    ensures
        r == (wal_bytes > threshold_bytes),
{
    wal_bytes > threshold_bytes
}

proof fn lemma_with_slots(m: Map<Seq<u8>, RefEntry>, items: Seq<(RefName, RefEntry)>)
    ensures
        with_slots(unlocked_slots(m), items) == unlocked_slots(with_entries(m, items)),
    decreases items.len(),
{
    if items.len() > 0 {
        lemma_with_slots(m, items.drop_last());
        let before = with_entries(m, items.drop_last());
        let name = items.last().0@;
        let e = items.last().1;
        assert(unlocked_slots(before).insert(name, slot::unlocked(e)) =~= unlocked_slots(
            before.insert(name, e),
        ));
    }
}

/// `items` lists `m`: every reference, once each.
pub open spec fn lists_refs(items: Seq<(RefName, RefEntry)>, m: Map<Seq<u8>, RefEntry>) -> bool {
    &&& forall|i: int|
        0 <= i < items.len() ==> m.contains_key((#[trigger] items[i]).0@) && m[items[i].0@]
            == items[i].1
    &&& forall|i: int, j: int|
        0 <= i < j < items.len() ==> (#[trigger] items[i]).0@ != (#[trigger] items[j]).0@
    &&& forall|k: Seq<u8>| #[trigger]
        m.contains_key(k) ==> exists|i: int| 0 <= i < items.len() && (#[trigger] items[i]).0@ == k
}

/// The names of a listing are in lexicographic order.
pub open spec fn refs_in_order(items: Seq<(RefName, RefEntry)>) -> bool {
    forall|i: int, j: int|
        0 <= i < j < items.len() ==> codec::lex_less(
            (#[trigger] items[i]).0@,
            (#[trigger] items[j]).0@,
        )
}

proof fn lemma_with_entries_has(items: Seq<(RefName, RefEntry)>, k: Seq<u8>)
    requires
        forall|i: int, j: int|
            0 <= i < j < items.len() ==> (#[trigger] items[i]).0@ != (#[trigger] items[j]).0@,
    ensures
        with_entries(Map::empty(), items).contains_key(k) <==> exists|i: int|
            0 <= i < items.len() && (#[trigger] items[i]).0@ == k,
        forall|i: int|
            0 <= i < items.len() && (#[trigger] items[i]).0@ == k ==> with_entries(
                Map::empty(),
                items,
            )[k] == items[i].1,
    decreases items.len(),
{
    if items.len() > 0 {
        let short = items.drop_last();
        let n = items.len() - 1;
        assert(forall|i: int| 0 <= i < n ==> short[i] == #[trigger] items[i]);
        lemma_with_entries_has(short, k);
        if items[n].0@ == k {
        } else {
            if exists|i: int| 0 <= i < items.len() && (#[trigger] items[i]).0@ == k {
                let i = choose|i: int| 0 <= i < items.len() && (#[trigger] items[i]).0@ == k;
                assert(short[i].0@ == k);
            }
            if exists|i: int| 0 <= i < short.len() && (#[trigger] short[i]).0@ == k {
                let i = choose|i: int| 0 <= i < short.len() && (#[trigger] short[i]).0@ == k;
                assert(items[i].0@ == k);
            }
        }
    }
}

/// Putting in the entries of a listing gives what was listed.
pub proof fn lemma_listed(items: Seq<(RefName, RefEntry)>, m: Map<Seq<u8>, RefEntry>)
    requires
        lists_refs(items, m),
    ensures
        with_entries(Map::empty(), items) == m,
{
    let w = with_entries(Map::empty(), items);
    assert forall|k: Seq<u8>| #[trigger]
        w.contains_key(k) == m.contains_key(k) && (w.contains_key(k) ==> w[k] == m[k]) by {
        lemma_with_entries_has(items, k);
    }
    assert(w =~= m);
}

fn tree_list(root: &Option<Arc<ArtNode<RefSlot>>>, prefix: &str) -> (r: Vec<(RefName, RefEntry)>)
    requires
        tree_ok(*root),
    ensures
        lists_refs(
            r@,
            art::matching(
                visible_refs(art::entries_of(*root)),
                vstd::utf8::encode_utf8(prefix@),
            ),
        ),
        refs_in_order(r@),
{
    let ghost m = art::entries_of(*root);
    let ghost p = vstd::utf8::encode_utf8(prefix@);
    let ghost want = art::matching(visible_refs(m), p);
    let mut out: Vec<(RefName, RefEntry)> = Vec::new();
    match root {
        None => out,
        Some(n) => {
            assert(Seq::<u8>::empty().len() == 0);
            let items = art_prefix_iter(&**n, prefix.as_bytes(), 0);
            let mut i: usize = 0;
            while i < items.len()
                invariant
                    i <= items.len(),
                    m == art::entries_of(*root),
                    tree_ok(*root),
                    want == art::matching(visible_refs(m), p),
                    art::lists(items@, art::matching(m, p)),
                    art::in_order(items@),
                    refs_in_order(out@),
                    forall|x: int|
                        0 <= x < out.len() ==> want.contains_key((#[trigger] out@[x]).0@)
                            && want[out@[x].0@] == out@[x].1,
                    forall|x: int|
                        0 <= x < out.len() ==> exists|y: int|
                            0 <= y < i && (#[trigger] items@[y]).0@ == (#[trigger] out@[x]).0@,
                    forall|x: int, y: int|
                        0 <= x < y < out.len() ==> (#[trigger] out@[x]).0@
                            != (#[trigger] out@[y]).0@,
                    forall|y: int|
                        0 <= y < i && (#[trigger] items@[y]).1.committed.version != 0 ==> exists|
                            x: int,
                        |
                            0 <= x < out.len() && (#[trigger] out@[x]).0@ == items@[y].0@,
                decreases items.len() - i,
            {
                let ghost before = out@;
                assert(m.contains_key(items@[i as int].0@));
                if items[i].1.committed.version != 0 {
                    match RefName::from_utf8(codec::copy_bytes(items[i].0.as_slice())) {
                        Some(name) => {
                            out.push((name, items[i].1.committed));
                            assert(out@[before.len() as int].0@ == items@[i as int].0@);
                        },
                        None => {},
                    }
                }
                proof {
                    assert forall|x: int| 0 <= x < out.len() implies exists|y: int|
                        0 <= y < i + 1 && (#[trigger] items@[y]).0@ == (#[trigger] out@[x]).0@ by {
                        if x < before.len() {
                            assert(out@[x] == before[x]);
                            let y = choose|y: int|
                                0 <= y < i && (#[trigger] items@[y]).0@ == before[x].0@;
                            assert(items@[y].0@ == out@[x].0@);
                        } else {
                            assert(items@[i as int].0@ == out@[x].0@);
                        }
                    }
                    assert forall|x: int, y: int| 0 <= x < y < out.len() implies codec::lex_less(
                        (#[trigger] out@[x]).0@,
                        (#[trigger] out@[y]).0@,
                    ) by {
                        assert(out@[x] == before[x]);
                        if y < before.len() {
                            assert(out@[y] == before[y]);
                        } else {
                            let z = choose|z: int|
                                0 <= z < i && (#[trigger] items@[z]).0@ == before[x].0@;
                            assert(codec::lex_less(items@[z].0@, items@[i as int].0@));
                        }
                    }
                    assert forall|x: int, y: int| 0 <= x < y < out.len() implies (
                    #[trigger] out@[x]).0@ != (#[trigger] out@[y]).0@ by {
                        codec::lex_less_strict(out@[x].0@, out@[y].0@);
                    }
                    assert forall|y: int|
                        0 <= y < i + 1 && (#[trigger] items@[y]).1.committed.version
                            != 0 implies exists|x: int|
                        0 <= x < out.len() && (#[trigger] out@[x]).0@ == items@[y].0@ by {
                        if y < i {
                            let x = choose|x: int|
                                0 <= x < before.len() && (#[trigger] before[x]).0@ == items@[y].0@;
                            assert(out@[x].0@ == items@[y].0@);
                        } else {
                            assert(out@[before.len() as int].0@ == items@[y].0@);
                        }
                    }
                }
                i += 1;
            }
            assert forall|k: Seq<u8>| #[trigger] want.contains_key(k) implies exists|x: int|
                0 <= x < out.len() && (#[trigger] out@[x]).0@ == k by {
                assert(art::matching(m, p).contains_key(k));
                let y = choose|y: int| 0 <= y < items.len() && (#[trigger] items@[y]).0@ == k;
                assert(items@[y].1.committed.version != 0);
                let x = choose|x: int| 0 <= x < out.len() && (#[trigger] out@[x]).0@ == items@[y].0@;
                assert(out@[x].0@ == k);
            }
            out
        },
    }
}

// ---------------------------------------------------------------------------
// Snapshots
// ---------------------------------------------------------------------------

/// The state of all references at one moment.
pub struct ArtSnapshot {
    root: Option<Arc<ArtNode<RefSlot>>>,
}

impl View for ArtSnapshot {
    type V = Map<Seq<u8>, RefSlot>;

    closed spec fn view(&self) -> Map<Seq<u8>, RefSlot> {
        art::entries_of(self.root)
    }
}

impl ArtSnapshot {
    #[verifier::type_invariant]
    closed spec fn inv(self) -> bool {
        tree_ok(self.root)
    }

    /// What readers saw under `name`.
    pub fn get(&self, name: &RefName) -> (r: Option<RefEntry>)
        ensures
            r == slot::visible(slot_at(self@, name@)),
            r is Some <==> self@.contains_key(name@) && self@[name@].committed.version != 0,
            r is Some ==> r->0 == self@[name@].committed,
    {
        proof {
            use_type_invariant(self);
        }
        visible_entry(&tree_get(&self.root, name))
    }

    /// Every reference whose name begins with `prefix`, as readers saw it, in
    /// lexicographic order.
    #[verifier::rlimit(40)]
    pub fn list(&self, prefix: &str) -> (r: Vec<(RefName, RefEntry)>)
        ensures
            lists_refs(
                r@,
                art::matching(visible_refs(self@), vstd::utf8::encode_utf8(prefix@)),
            ),
            refs_in_order(r@),
            forall|i: int|
                0 <= i < r@.len() ==> {
                    let name = (#[trigger] r@[i]).0@;
                    let p = vstd::utf8::encode_utf8(prefix@);
                    &&& self@.contains_key(name) && self@[name].committed.version != 0
                    &&& r@[i].1 == self@[name].committed
                    &&& p.len() <= name.len() && name.subrange(0, p.len() as int) == p
                },
            forall|name: Seq<u8>| #[trigger]
                self@.contains_key(name) && self@[name].committed.version != 0
                    && vstd::utf8::encode_utf8(prefix@).len() <= name.len() && name.subrange(
                    0,
                    vstd::utf8::encode_utf8(prefix@).len() as int,
                ) == vstd::utf8::encode_utf8(prefix@) ==> exists|i: int|
                    0 <= i < r@.len() && (#[trigger] r@[i]).0@ == name,
    {
        proof {
            use_type_invariant(self);
        }
        let r = tree_list(&self.root, prefix);
        proof {
            let shown = art::matching(visible_refs(self@), vstd::utf8::encode_utf8(prefix@));
            assert forall|i: int| 0 <= i < r@.len() implies shown.contains_key(
                (#[trigger] r@[i]).0@,
            ) && shown[r@[i].0@] == r@[i].1 by {}
            assert forall|name: Seq<u8>| #[trigger]
                self@.contains_key(name) && self@[name].committed.version != 0
                    && codec::has_prefix(
                    name,
                    vstd::utf8::encode_utf8(prefix@),
                ) implies exists|i: int| 0 <= i < r@.len() && (#[trigger] r@[i]).0@ == name by {
                assert(shown.contains_key(name));
            }
        }
        r
    }
}

} // verus!
