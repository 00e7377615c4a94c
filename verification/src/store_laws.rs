//! What the reference store promises across operations.

use vstd::prelude::*;
use crate::slot;
use crate::slot::RefSlot;
use crate::store;
use crate::store::{AppliedOp, AppliedOutcome, BatchWrite, WalEntry};
use crate::types::{ObjectId, RefEntry, RefName, TxnId};

verus! {

/// An operation touches no reference but the one that it names.
pub proof fn other_refs_untouched(m: Map<Seq<u8>, RefSlot>, op: AppliedOp, name: Seq<u8>)
    requires
        name != store::op_name(op),
    ensures
        store::slot_at(store::op_apply(m, op), name) == store::slot_at(m, name),
{
}

/// Readers never see a staged write: preparing and aborting leave what they see
/// as it was.
pub proof fn staged_writes_are_invisible(m: Map<Seq<u8>, RefSlot>, op: AppliedOp)
    requires
        op is Prepare || op is AbortPrepared,
    ensures
        store::visible_refs(store::op_apply(m, op)) == store::visible_refs(m),
{
    let after = store::op_apply(m, op);
    assert forall|k: Seq<u8>| slot::visible(store::slot_at(after, k)) == slot::visible(
        store::slot_at(m, k),
    ) by {}
    assert(store::visible_refs(after) =~= store::visible_refs(m));
}

/// A refused operation changes nothing and logs nothing.
pub proof fn refusal_changes_nothing(m: Map<Seq<u8>, RefSlot>, op: AppliedOp)
    requires
        ({
            let out = store::op_outcome(store::slot_at(m, store::op_name(op)), op);
            out is Conflict || out is NotFound || out is VoteNo
        }),
    ensures
        store::op_apply(m, op) == m,
        store::op_log(store::slot_at(m, store::op_name(op)), op) == Seq::<WalEntry>::empty(),
{
    assert(store::op_apply(m, op) =~= m);
}

/// A lock is released only by the transaction that holds it: every other
/// operation leaves the lock and the committed entry as they are.
pub proof fn lock_holds_until_resolved(
    m: Map<Seq<u8>, RefSlot>,
    op: AppliedOp,
    name: Seq<u8>,
    txn: TxnId,
)
    requires
        store::held_by(store::slot_at(m, name), txn),
        op matches AppliedOp::CommitPrepared { txn_id, name: n } ==> txn_id != txn || n@ != name,
        op matches AppliedOp::AbortPrepared { txn_id, name: n } ==> txn_id != txn || n@ != name,
    ensures
        store::held_by(store::slot_at(store::op_apply(m, op), name), txn),
        store::op_apply(m, op)[name].committed == m[name].committed,
{
}

/// Committing a prepared write twice is committing it once; the second time the
/// committed entry is returned again.
pub proof fn commit_prepared_is_idempotent(
    m: Map<Seq<u8>, RefSlot>,
    txn_id: TxnId,
    name: RefName,
)
    ensures
        ({
            let op = AppliedOp::CommitPrepared { txn_id, name };
            let once = store::op_apply(m, op);
            &&& store::op_apply(once, op) == once
            &&& store::op_outcome(store::slot_at(once, name@), op) == store::op_outcome(
                store::slot_at(m, name@),
                op,
            )
            &&& store::op_log(store::slot_at(once, name@), op) == Seq::<WalEntry>::empty()
        }),
{
    let op = AppliedOp::CommitPrepared { txn_id, name };
    let once = store::op_apply(m, op);
    assert(store::op_apply(once, op) =~= once);
}

/// Aborting twice is aborting once.
pub proof fn abort_prepared_is_idempotent(m: Map<Seq<u8>, RefSlot>, txn_id: TxnId, name: RefName)
    ensures
        ({
            let op = AppliedOp::AbortPrepared { txn_id, name };
            let once = store::op_apply(m, op);
            store::op_apply(once, op) == once
        }),
{
    let op = AppliedOp::AbortPrepared { txn_id, name };
    let once = store::op_apply(m, op);
    assert(store::op_apply(once, op) =~= once);
}

/// Preparing a write and committing it has the effect of the plain update: the
/// same entry, and no lock left.
pub proof fn prepare_then_commit_is_update(
    m: Map<Seq<u8>, RefSlot>,
    txn_id: TxnId,
    coord_shard: u32,
    name: RefName,
    target: ObjectId,
    expected: Option<ObjectId>,
    hlc: u64,
)
    requires
        store::write_check(store::slot_at(m, name@), expected) is Free,
    ensures
        ({
            let prepare = AppliedOp::Prepare { txn_id, coord_shard, name, target, expected, hlc };
            let commit = AppliedOp::CommitPrepared { txn_id, name };
            let update = AppliedOp::Update { name, target, expected, hlc };
            let mid = store::op_apply(m, prepare);
            &&& store::op_outcome(store::slot_at(m, name@), prepare)
                == store::AppliedOutcome::VoteYes
            &&& store::op_apply(mid, commit) == store::op_apply(m, update)
            &&& store::op_log(store::slot_at(mid, name@), commit) == store::op_log(
                store::slot_at(m, name@),
                update,
            )
        }),
{
    let prepare = AppliedOp::Prepare { txn_id, coord_shard, name, target, expected, hlc };
    let commit = AppliedOp::CommitPrepared { txn_id, name };
    let update = AppliedOp::Update { name, target, expected, hlc };
    let mid = store::op_apply(m, prepare);
    assert(store::op_apply(mid, commit) =~= store::op_apply(m, update));
}

/// Preparing a write and aborting it leaves the store as it was.
pub proof fn prepare_then_abort_is_nothing(
    m: Map<Seq<u8>, RefSlot>,
    txn_id: TxnId,
    coord_shard: u32,
    name: RefName,
    target: ObjectId,
    expected: Option<ObjectId>,
    hlc: u64,
)
    requires
        !store::held_by(store::slot_at(m, name@), txn_id),
        store::slot_at(m, name@) matches Some(s) ==> s.committed.version != 0
            || !store::may_prepare(store::slot_at(m, name@), txn_id, expected),
    ensures
        ({
            let prepare = AppliedOp::Prepare { txn_id, coord_shard, name, target, expected, hlc };
            let abort = AppliedOp::AbortPrepared { txn_id, name };
            store::op_apply(store::op_apply(m, prepare), abort) == m
        }),
{
    let prepare = AppliedOp::Prepare { txn_id, coord_shard, name, target, expected, hlc };
    let abort = AppliedOp::AbortPrepared { txn_id, name };
    assert(store::op_apply(store::op_apply(m, prepare), abort) =~= m);
}

/// The version of a reference starts at 1 and grows by 1 with every write of
/// it; while the reference is neither written nor deleted it stays.
pub proof fn versions_count_writes(m: Map<Seq<u8>, RefSlot>, op: AppliedOp, name: Seq<u8>)
    requires
        store::op_room(store::slot_at(m, store::op_name(op)), op),
    ensures
        ({
            let before = slot::visible(store::slot_at(m, name));
            let after = slot::visible(store::slot_at(store::op_apply(m, op), name));
            ||| after == before
            ||| after is None
            ||| before is None && after->0.version == 1
            ||| before is Some && after->0.version == before->0.version + 1
        }),
{
}

/// Replaying what an operation has logged gives what readers see after it.
pub proof fn log_describes_operation(m: Map<Seq<u8>, RefSlot>, op: AppliedOp)
    requires
        store::op_room(store::slot_at(m, store::op_name(op)), op),
    ensures
        store::replay(
            store::visible_refs(m),
            store::op_log(store::slot_at(m, store::op_name(op)), op),
        ) == store::visible_refs(store::op_apply(m, op)),
{
    let n = store::op_name(op);
    let s = store::slot_at(m, n);
    let log = store::op_log(s, op);
    let after = store::op_apply(m, op);
    reveal_with_fuel(store::replay, 2);
    assert(store::replay(store::visible_refs(m), log) =~= store::visible_refs(after)) by {
        if log.len() == 1 {
            assert(log.drop_last() =~= Seq::<WalEntry>::empty());
            assert(store::replay(store::visible_refs(m), log) == store::replay_one(
                store::visible_refs(m),
                log.last(),
            ));
        }
        assert forall|k: Seq<u8>| k != n implies store::slot_at(after, k) == store::slot_at(
            m,
            k,
        ) by {}
    }
}

/// The store after a sequence of operations.
pub open spec fn run(m: Map<Seq<u8>, RefSlot>, ops: Seq<AppliedOp>) -> Map<Seq<u8>, RefSlot>
    decreases ops.len(),
{
    if ops.len() == 0 {
        m
    } else {
        store::op_apply(run(m, ops.drop_last()), ops.last())
    }
}

/// What a sequence of operations logs.
pub open spec fn run_log(m: Map<Seq<u8>, RefSlot>, ops: Seq<AppliedOp>) -> Seq<WalEntry>
    decreases ops.len(),
{
    if ops.len() == 0 {
        Seq::empty()
    } else {
        let before = run(m, ops.drop_last());
        run_log(m, ops.drop_last()) + store::op_log(
            store::slot_at(before, store::op_name(ops.last())),
            ops.last(),
        )
    }
}

/// No version counter runs out during a sequence of operations.
pub open spec fn run_room(m: Map<Seq<u8>, RefSlot>, ops: Seq<AppliedOp>) -> bool
    decreases ops.len(),
{
    ops.len() == 0 || (run_room(m, ops.drop_last()) && store::op_room(
        store::slot_at(run(m, ops.drop_last()), store::op_name(ops.last())),
        ops.last(),
    ))
}

/// Replaying two logs in a row is replaying one behind the other.
pub proof fn lemma_replay_concat(
    m: Map<Seq<u8>, RefEntry>,
    a: Seq<WalEntry>,
    b: Seq<WalEntry>,
)
    ensures
        store::replay(m, a + b) == store::replay(store::replay(m, a), b),
    decreases b.len(),
{
    if b.len() == 0 {
        assert(a + b =~= a);
    } else {
        lemma_replay_concat(m, a, b.drop_last());
        assert((a + b).drop_last() =~= a + b.drop_last());
    }
}

/// After a restart, replaying the log of any sequence of operations gives what
/// readers saw at its end. Locks that were still held are gone: a transaction
/// that was not committed counts as aborted.
pub proof fn replay_recovers(m: Map<Seq<u8>, RefSlot>, ops: Seq<AppliedOp>)
    requires
        run_room(m, ops),
    ensures
        store::replay(store::visible_refs(m), run_log(m, ops)) == store::visible_refs(run(m, ops)),
    decreases ops.len(),
{
    if ops.len() > 0 {
        let short = ops.drop_last();
        let before = run(m, short);
        replay_recovers(m, short);
        log_describes_operation(before, ops.last());
        lemma_replay_concat(
            store::visible_refs(m),
            run_log(m, short),
            store::op_log(store::slot_at(before, store::op_name(ops.last())), ops.last()),
        );
    }
}

/// A checkpoint supersedes what stands before it: replaying from the last
/// checkpoint gives what replaying the whole log gives.
pub proof fn replay_from_checkpoint(
    m: Map<Seq<u8>, RefEntry>,
    log: Seq<WalEntry>,
    i: int,
)
    requires
        0 <= i < log.len(),
        log[i] is Checkpoint,
    ensures
        store::replay(m, log) == store::replay(Map::empty(), log.subrange(i, log.len() as int)),
    decreases log.len(),
{
    let tail = log.subrange(i, log.len() as int);
    if log.len() == i + 1 {
        assert(tail =~= seq![log[i]]);
        reveal_with_fuel(store::replay, 2);
        assert(tail.drop_last() =~= Seq::<WalEntry>::empty());
    } else {
        replay_from_checkpoint(m, log.drop_last(), i);
        assert(log.drop_last().subrange(i, log.len() - 1) =~= tail.drop_last());
        assert(tail.last() == log.last());
    }
}

/// A store opened from a log shows its readers what the log describes.
pub proof fn open_shows_log(refs: Map<Seq<u8>, RefEntry>)
    requires
        forall|k: Seq<u8>| #[trigger] refs.contains_key(k) ==> refs[k].version != 0,
    ensures
        store::visible_refs(store::unlocked_slots(refs)) == refs,
{
    assert(store::visible_refs(store::unlocked_slots(refs)) =~= refs);
}

/// A batch goes ahead exactly when each of its writes may.
pub proof fn batch_is_all_or_nothing(m: Map<Seq<u8>, RefSlot>, ops: Seq<BatchWrite>)
    ensures
        store::batch_conflicts(m, ops).len() == 0 <==> forall|i: int|
            0 <= i < ops.len() ==> store::write_check(
                store::slot_at(m, (#[trigger] ops[i]).0@),
                ops[i].2,
            ) is Free,
    decreases ops.len(),
{
    if ops.len() > 0 {
        let short = ops.drop_last();
        batch_is_all_or_nothing(m, short);
        assert(forall|i: int| 0 <= i < short.len() ==> short[i] == #[trigger] ops[i]);
        if forall|i: int|
            0 <= i < ops.len() ==> store::write_check(
                store::slot_at(m, (#[trigger] ops[i]).0@),
                ops[i].2,
            ) is Free {
            assert(ops[ops.len() - 1] == ops.last());
            assert forall|i: int| 0 <= i < short.len() implies store::write_check(
                store::slot_at(m, (#[trigger] short[i]).0@),
                short[i].2,
            ) is Free by {
                assert(short[i] == ops[i]);
            }
        }
        if store::batch_conflicts(m, ops).len() == 0 {
            assert forall|i: int| 0 <= i < ops.len() implies store::write_check(
                store::slot_at(m, (#[trigger] ops[i]).0@),
                ops[i].2,
            ) is Free by {
                if i < short.len() {
                    assert(short[i] == ops[i]);
                }
            }
        }
    }
}

proof fn lemma_batch_visible(m: Map<Seq<u8>, RefSlot>, items: Seq<(RefName, RefEntry)>)
    requires
        forall|i: int| 0 <= i < items.len() ==> (#[trigger] items[i]).1.version != 0,
    ensures
        store::visible_refs(store::with_slots(m, items)) == store::with_entries(
            store::visible_refs(m),
            items,
        ),
    decreases items.len(),
{
    if items.len() > 0 {
        let short = items.drop_last();
        assert(forall|i: int| 0 <= i < short.len() ==> short[i] == #[trigger] items[i]);
        lemma_batch_visible(m, short);
        let before = store::with_slots(m, short);
        let name = items.last().0@;
        let e = items.last().1;
        assert(items[items.len() - 1].1.version != 0);
        assert(store::visible_refs(before.insert(name, slot::unlocked(e))) =~= store::visible_refs(
            before,
        ).insert(name, e));
    }
}

/// The version counter does not run out with a write of a batch.
pub open spec fn has_room(m: Map<Seq<u8>, RefSlot>, w: BatchWrite) -> bool {
    slot::visible(store::slot_at(m, w.0@)) matches Some(c) ==> c.version < u64::MAX
}

/// The one log record of a batch describes all of it: after a restart either
/// every write of the batch is there or none.
pub proof fn log_describes_batch(m: Map<Seq<u8>, RefSlot>, ops: Seq<BatchWrite>, u: Vec<
    (RefName, RefEntry),
>)
    requires
        u@ == store::batch_updates(m, ops),
        forall|i: int|
            0 <= i < ops.len() ==> has_room(m, #[trigger] ops[i]),
    ensures
        store::replay_one(store::visible_refs(m), (WalEntry::Batch { updates: u }))
            == store::visible_refs(store::with_slots(m, store::batch_updates(m, ops))),
{
    assert forall|i: int| 0 <= i < u@.len() implies (#[trigger] u@[i]).1.version != 0 by {
        assert(has_room(m, ops[i]));
    }
    lemma_batch_visible(m, u@);
}

// ---------------------------------------------------------------------------
// Replicas and restarts
// ---------------------------------------------------------------------------

/// Replicas agree: two stores that hold the same references and locks give the same
/// outcomes for the same operations, whatever else they have been through, and hold
/// the same again afterwards.
pub proof fn replicas_agree(
    a: Map<Seq<u8>, RefSlot>,
    b: Map<Seq<u8>, RefSlot>,
    op: AppliedOp,
    a_outcome: AppliedOutcome,
    b_outcome: AppliedOutcome,
    a_after: Map<Seq<u8>, RefSlot>,
    b_after: Map<Seq<u8>, RefSlot>,
)
    requires
        forall|name: Seq<u8>| #[trigger] store::slot_at(a, name) == store::slot_at(b, name),
        store::applied(a, op, a_outcome, a_after),
        store::applied(b, op, b_outcome, b_after),
    ensures
        a_outcome == b_outcome,
        a_after == b_after,
{
    assert forall|name: Seq<u8>| #[trigger] a.contains_key(name) == b.contains_key(name) by {
        assert(store::slot_at(a, name) == store::slot_at(b, name));
    }
    assert forall|name: Seq<u8>| #[trigger] a.contains_key(name) implies a[name] == b[name] by {
        assert(store::slot_at(a, name) == store::slot_at(b, name));
    }
    assert(a =~= b);
}

/// A call that changes a store or rewrites its log.
#[allow(inconsistent_fields)]
pub enum StoreCall {
    Update { name: RefName, target: ObjectId, expected: Option<ObjectId>, hlc: u64 },
    Delete { name: RefName, expected: ObjectId, hlc: u64 },
    Apply { op: AppliedOp },
    Batch { ops: Seq<BatchWrite> },
    Restore { leaves: Vec<(RefName, RefEntry)> },
    Compact,
}

/// A store and all that stands in its log.
pub struct Logged {
    pub slots: Map<Seq<u8>, RefSlot>,
    pub log: Seq<WalEntry>,
}

/// `after` is what the call makes of `before`. No version counter runs out.
pub open spec fn called(before: Logged, call: StoreCall, after: Logged) -> bool {
    let m = before.slots;
    match call {
        StoreCall::Update { name, target, expected, hlc } => {
            &&& store::write_room(store::slot_at(m, name@), expected)
            &&& match store::write_check(store::slot_at(m, name@), expected) {
                store::WriteCheck::Free(cur) => {
                    let e = store::next_entry(cur, target, hlc);
                    &&& after.slots == m.insert(name@, slot::unlocked(e))
                    &&& after.log == before.log.push((WalEntry::Update { name, entry: e }))
                },
                _ => after == before,
            }
        },
        StoreCall::Delete { name, expected, hlc } => match store::write_check(
            store::slot_at(m, name@),
            Some(expected),
        ) {
            store::WriteCheck::Free(_) => {
                &&& after.slots == m.remove(name@)
                &&& after.log == before.log.push((WalEntry::Delete { name, hlc }))
            },
            _ => after == before,
        },
        StoreCall::Apply { op } => {
            let s = store::slot_at(m, store::op_name(op));
            &&& store::op_room(s, op)
            &&& after.slots == store::op_apply(m, op)
            &&& after.log == before.log + store::op_log(s, op)
        },
        StoreCall::Batch { ops } => {
            &&& forall|i: int|
                0 <= i < ops.len() ==> store::write_room(
                    store::slot_at(m, (#[trigger] ops[i]).0@),
                    ops[i].2,
                )
            &&& if store::batch_conflicts(m, ops).len() > 0 {
                after == before
            } else {
                &&& after.slots == store::with_slots(m, store::batch_updates(m, ops))
                &&& ops.len() == 0 ==> after.log == before.log
                &&& ops.len() > 0 ==> {
                    &&& after.log.len() == before.log.len() + 1
                    &&& after.log.drop_last() == before.log
                    &&& after.log.last() matches WalEntry::Batch { updates: u } && u@
                        == store::batch_updates(m, ops)
                }
            }
        },
        StoreCall::Restore { leaves } => {
            &&& after.slots == store::unlocked_slots(store::with_entries(Map::empty(), leaves@))
            &&& after.log == before.log.push((WalEntry::Checkpoint { leaves }))
        },
        StoreCall::Compact => {
            &&& after.slots == m
            &&& after.log.len() == 1
            &&& forall|x: Map<Seq<u8>, RefEntry>| #[trigger]
                store::replay_one(x, after.log[0]) == store::visible_refs(m)
        },
    }
}

/// The states that a store goes through with some calls.
pub open spec fn history(states: Seq<Logged>, calls: Seq<StoreCall>) -> bool {
    &&& states.len() == calls.len() + 1
    &&& forall|i: int|
        0 <= i < calls.len() ==> called(states[i], #[trigger] calls[i], states[i + 1])
}

/// A store that was opened from a log.
pub open spec fn opened(log: Seq<WalEntry>) -> Map<Seq<u8>, RefSlot> {
    store::unlocked_slots(store::replay(Map::empty(), log))
}

/// What its readers see.
pub open spec fn reopened(log: Seq<WalEntry>) -> Map<Seq<u8>, RefEntry> {
    store::visible_refs(opened(log))
}

/// What of some entries readers see: those of version 0 are left out.
spec fn shown(m: Map<Seq<u8>, RefEntry>) -> Map<Seq<u8>, RefEntry> {
    store::visible_refs(store::unlocked_slots(m))
}

proof fn lemma_shown(m: Map<Seq<u8>, RefEntry>, k: Seq<u8>)
    ensures
        shown(m).contains_key(k) <==> m.contains_key(k) && m[k].version != 0,
        shown(m).contains_key(k) ==> shown(m)[k] == m[k],
{
}

proof fn lemma_shown_replay(a: Map<Seq<u8>, RefEntry>, b: Map<Seq<u8>, RefEntry>, e: WalEntry)
    requires
        shown(a) == shown(b),
    ensures
        shown(store::replay_one(a, e)) == shown(store::replay_one(b, e)),
{
    match e {
        WalEntry::Update { name, entry } => {
            lemma_shown_entries(a, b, seq![(name, entry)]);
            lemma_one_entry(a, name, entry);
            lemma_one_entry(b, name, entry);
        },
        WalEntry::Delete { name, hlc } => {
            assert forall|k: Seq<u8>| #[trigger] shown(a.remove(name@)).contains_key(k) == shown(
                b.remove(name@),
            ).contains_key(k) && (shown(a.remove(name@)).contains_key(k) ==> shown(
                a.remove(name@),
            )[k] == shown(b.remove(name@))[k]) by {
                lemma_shown(a, k);
                lemma_shown(b, k);
                lemma_shown(a.remove(name@), k);
                lemma_shown(b.remove(name@), k);
            }
            assert(shown(a.remove(name@)) =~= shown(b.remove(name@)));
        },
        WalEntry::Checkpoint { leaves } => {},
        WalEntry::Batch { updates } => {
            lemma_shown_entries(a, b, updates@);
        },
    }
}

proof fn lemma_one_entry(m: Map<Seq<u8>, RefEntry>, name: RefName, entry: RefEntry)
    ensures
        store::with_entries(m, seq![(name, entry)]) == m.insert(name@, entry),
{
    let one = seq![(name, entry)];
    assert(one.drop_last() =~= Seq::<(RefName, RefEntry)>::empty());
    reveal_with_fuel(store::with_entries, 2);
}

proof fn lemma_shown_entries(
    a: Map<Seq<u8>, RefEntry>,
    b: Map<Seq<u8>, RefEntry>,
    items: Seq<(RefName, RefEntry)>,
)
    requires
        shown(a) == shown(b),
    ensures
        shown(store::with_entries(a, items)) == shown(store::with_entries(b, items)),
    decreases items.len(),
{
    if items.len() > 0 {
        lemma_shown_entries(a, b, items.drop_last());
        let x = store::with_entries(a, items.drop_last());
        let y = store::with_entries(b, items.drop_last());
        let (name, e) = items.last();
        let x2 = x.insert(name@, e);
        let y2 = y.insert(name@, e);
        assert forall|k: Seq<u8>| #[trigger] shown(x2).contains_key(k) == shown(y2).contains_key(k)
            && (shown(x2).contains_key(k) ==> shown(x2)[k] == shown(y2)[k]) by {
            lemma_shown(x, k);
            lemma_shown(y, k);
            lemma_shown(x2, k);
            lemma_shown(y2, k);
        }
        assert(shown(x2) =~= shown(y2));
    }
}

proof fn lemma_shown_visible(m: Map<Seq<u8>, RefSlot>)
    ensures
        shown(store::visible_refs(m)) == store::visible_refs(m),
{
    assert(shown(store::visible_refs(m)) =~= store::visible_refs(m));
}

/// What is replayed from what readers saw shows what replaying the whole log shows.
proof fn lemma_shown_log(
    a: Map<Seq<u8>, RefEntry>,
    b: Map<Seq<u8>, RefEntry>,
    log: Seq<WalEntry>,
)
    requires
        shown(a) == shown(b),
    ensures
        shown(store::replay(a, log)) == shown(store::replay(b, log)),
    decreases log.len(),
{
    if log.len() > 0 {
        lemma_shown_log(a, b, log.drop_last());
        lemma_shown_replay(
            store::replay(a, log.drop_last()),
            store::replay(b, log.drop_last()),
            log.last(),
        );
    }
}

proof fn lemma_one_record(m: Map<Seq<u8>, RefEntry>, e: WalEntry)
    ensures
        store::replay(m, seq![e]) == store::replay_one(m, e),
{
    assert(seq![e].drop_last() =~= Seq::<WalEntry>::empty());
    reveal_with_fuel(store::replay, 2);
}

/// One call: the log goes on describing what readers see.
proof fn lemma_call_logged(before: Logged, call: StoreCall, after: Logged)
    requires
        called(before, call, after),
        reopened(before.log) == store::visible_refs(before.slots),
    ensures
        reopened(after.log) == store::visible_refs(after.slots),
{
    let m = before.slots;
    let seen = store::visible_refs(m);
    let old_map = store::replay(Map::empty(), before.log);
    lemma_shown_visible(m);
    assert(shown(old_map) == shown(seen));
    match call {
        StoreCall::Update { name, target, expected, hlc } => {
            let op = AppliedOp::Update { name, target, expected, hlc };
            let s = store::slot_at(m, name@);
            if store::write_check(s, expected) is Free {
                let added = store::op_log(s, op);
                log_describes_operation(m, op);
                lemma_replay_concat(Map::empty(), before.log, added);
                lemma_shown_log(old_map, seen, added);
                lemma_shown_visible(after.slots);
                assert(after.log =~= before.log + added);
                assert(after.slots == store::op_apply(m, op));
            }
        },
        StoreCall::Delete { name, expected, hlc } => {
            let op = AppliedOp::Delete { name, expected, hlc };
            let s = store::slot_at(m, name@);
            if store::write_check(s, Some(expected)) is Free {
                let added = store::op_log(s, op);
                log_describes_operation(m, op);
                lemma_replay_concat(Map::empty(), before.log, added);
                lemma_shown_log(old_map, seen, added);
                lemma_shown_visible(after.slots);
                assert(after.log =~= before.log + added);
                assert(after.slots == store::op_apply(m, op));
            }
        },
        StoreCall::Apply { op } => {
            let added = store::op_log(store::slot_at(m, store::op_name(op)), op);
            log_describes_operation(m, op);
            lemma_replay_concat(Map::empty(), before.log, added);
            lemma_shown_log(old_map, seen, added);
            lemma_shown_visible(after.slots);
        },
        StoreCall::Batch { ops } => {
            if store::batch_conflicts(m, ops).len() == 0 {
                if ops.len() == 0 {
                    assert(store::batch_updates(m, ops) =~= Seq::<(RefName, RefEntry)>::empty());
                } else if let WalEntry::Batch { updates: u } = after.log.last() {
                    batch_is_all_or_nothing(m, ops);
                    assert forall|i: int| 0 <= i < ops.len() implies has_room(
                        m,
                        #[trigger] ops[i],
                    ) by {}
                    log_describes_batch(m, ops, u);
                    lemma_shown_replay(old_map, seen, after.log.last());
                    lemma_shown_visible(after.slots);
                }
            }
        },
        StoreCall::Restore { leaves } => {
            assert(after.log.drop_last() =~= before.log);
        },
        StoreCall::Compact => {
            assert(after.log =~= seq![after.log[0]]);
            lemma_one_record(Map::empty(), after.log[0]);
        },
    }
}

/// A restart loses nothing: whatever mix of calls a store has been through, a store
/// opened from what stands in the log shows its readers every reference as it was,
/// with target, time and version. Locks that were still held are gone: a transaction
/// that was not committed counts as aborted.
pub proof fn restart_recovers(states: Seq<Logged>, calls: Seq<StoreCall>)
    requires
        history(states, calls),
        states[0].slots == Map::<Seq<u8>, RefSlot>::empty(),
        states[0].log.len() == 0,
    ensures
        reopened(states.last().log) == store::visible_refs(states.last().slots),
        forall|name: Seq<u8>| #[trigger]
            slot::visible(store::slot_at(opened(states.last().log), name)) == slot::visible(
                store::slot_at(states.last().slots, name),
            ),
{
    restart_shows_refs(states, calls);
    let now = states.last().slots;
    let again = opened(states.last().log);
    assert forall|name: Seq<u8>| #[trigger]
        slot::visible(store::slot_at(again, name)) == slot::visible(
            store::slot_at(now, name),
        ) by {
        assert(store::visible_refs(again).contains_key(name) == store::visible_refs(
            now,
        ).contains_key(name));
        assert(store::visible_refs(again)[name] == store::visible_refs(now)[name]);
    }
}

proof fn restart_shows_refs(states: Seq<Logged>, calls: Seq<StoreCall>)
    requires
        history(states, calls),
        states[0].slots == Map::<Seq<u8>, RefSlot>::empty(),
        states[0].log.len() == 0,
    ensures
        reopened(states.last().log) == store::visible_refs(states.last().slots),
    decreases calls.len(),
{
    if calls.len() == 0 {
        assert(reopened(states[0].log) =~= store::visible_refs(states[0].slots));
    } else {
        let n = calls.len() - 1;
        let short = states.drop_last();
        assert forall|i: int| 0 <= i < n implies called(
            short[i],
            #[trigger] calls.drop_last()[i],
            short[i + 1],
        ) by {
            assert(calls.drop_last()[i] == calls[i]);
        }
        restart_shows_refs(short, calls.drop_last());
        assert(called(states[n], calls[n], states[n + 1]));
        lemma_call_logged(states[n], calls[n], states[n + 1]);
    }
}

// ---------------------------------------------------------------------------
// Votes
// ---------------------------------------------------------------------------

/// A prepare votes yes exactly where the plain update with the same expected value
/// would go ahead: where the reference exists and points to what is expected, or
/// where it does not exist and is expected not to. A lock of another transaction
/// stands in the way of both; a lock of its own does not stand in the way of the
/// prepare, which then votes as if the reference were not locked.
#[verifier::rlimit(30)]
pub proof fn prepare_votes_as_update(
    m: Map<Seq<u8>, RefSlot>,
    txn_id: TxnId,
    coord_shard: u32,
    name: RefName,
    target: ObjectId,
    expected: Option<ObjectId>,
    hlc: u64,
)
    ensures
        ({
            let prepare = AppliedOp::Prepare { txn_id, coord_shard, name, target, expected, hlc };
            let update = AppliedOp::Update { name, target, expected, hlc };
            let here = store::slot_at(m, name@);
            let there = m.contains_key(name@) && m[name@].committed.version != 0;
            let lock = if m.contains_key(name@) {
                m[name@].prepared
            } else {
                None
            };
            let free = if m.contains_key(name@) {
                m.insert(name@, (RefSlot { committed: m[name@].committed, prepared: None }))
            } else {
                m
            };
            &&& lock is None ==> (store::op_outcome(here, prepare) is VoteYes
                <==> store::op_outcome(here, update) is Updated)
            &&& lock is Some && lock->0.txn_id != txn_id ==> store::op_outcome(here, prepare)
                is VoteNo && store::op_outcome(here, update) is Conflict
            &&& lock is Some && lock->0.txn_id == txn_id ==> store::op_outcome(here, prepare)
                == store::op_outcome(store::slot_at(free, name@), prepare)
            &&& lock is None ==> (store::op_outcome(here, prepare) is VoteYes <==> match expected {
                Some(x) => there && m[name@].committed.target == x,
                None => !there,
            })
            &&& !(store::op_outcome(here, prepare) is VoteYes) ==> store::op_outcome(
                here,
                prepare,
            ) is VoteNo
        }),
{
}

/// An update and a deletion go ahead under the same condition: no lock, and the
/// reference points to what is expected. What is deleted is gone for readers, and
/// can be created anew from version 1.
#[verifier::rlimit(30)]
pub proof fn deleted_is_gone(m: Map<Seq<u8>, RefSlot>, name: RefName, expected: ObjectId, hlc: u64)
    ensures
        ({
            let delete = AppliedOp::Delete { name, expected, hlc };
            let update = AppliedOp::Update {
                name,
                target: expected,
                expected: Some(expected),
                hlc,
            };
            let create = AppliedOp::Update { name, target: expected, expected: None, hlc };
            let here = store::slot_at(m, name@);
            &&& store::op_outcome(here, delete) is Deleted <==> store::op_outcome(
                here,
                update,
            ) is Updated
            &&& store::op_outcome(here, delete) is Deleted ==> {
                let after = store::op_apply(m, delete);
                &&& !after.contains_key(name@)
                &&& store::op_outcome(store::slot_at(after, name@), create)
                    == AppliedOutcome::Updated(RefEntry { target: expected, hlc, version: 1 })
                &&& store::op_outcome(store::slot_at(after, name@), delete) is NotFound
            }
        }),
{
}

/// Of two updates that expect the same, only the first goes ahead, unless it writes
/// what the second expects.
#[verifier::rlimit(30)]
pub proof fn second_update_loses(
    m: Map<Seq<u8>, RefSlot>,
    name: RefName,
    expected: Option<ObjectId>,
    first: ObjectId,
    second: ObjectId,
    t1: u64,
    t2: u64,
)
    requires
        store::op_room(
            store::slot_at(m, name@),
            (AppliedOp::Update { name, target: first, expected, hlc: t1 }),
        ),
        expected != Some(first),
    ensures
        ({
            let a = AppliedOp::Update { name, target: first, expected, hlc: t1 };
            let b = AppliedOp::Update { name, target: second, expected, hlc: t2 };
            let after = store::op_apply(m, a);
            store::op_outcome(store::slot_at(m, name@), a) matches AppliedOutcome::Updated(e)
                ==> e.target == first && e.hlc == t1 && store::op_outcome(
                store::slot_at(after, name@),
                b,
            ) == AppliedOutcome::Conflict(e) && store::op_apply(after, b) == after
        }),
{
    let a = AppliedOp::Update { name, target: first, expected, hlc: t1 };
    let b = AppliedOp::Update { name, target: second, expected, hlc: t2 };
    let after = store::op_apply(m, a);
    assert(store::op_apply(after, b) =~= after) by {
        if store::op_outcome(store::slot_at(after, name@), b) is Conflict {
            refusal_changes_nothing(after, b);
        }
    }
}

/// The version counter is in the way only where the reference is at the last version.
pub proof fn room_is_for_versions(m: Map<Seq<u8>, RefSlot>, op: AppliedOp, name: Seq<u8>)
    requires
        op matches AppliedOp::Update { name: n, .. } ==> n@ == name,
        op matches AppliedOp::Delete { name: n, .. } ==> n@ == name,
        op matches AppliedOp::Prepare { name: n, .. } ==> n@ == name,
        op matches AppliedOp::CommitPrepared { name: n, .. } ==> n@ == name,
        op matches AppliedOp::AbortPrepared { name: n, .. } ==> n@ == name,
    ensures
        m.contains_key(name) && !store::op_room(store::slot_at(m, name), op)
            ==> m[name].committed.version == u64::MAX,
        !m.contains_key(name) ==> store::op_room(store::slot_at(m, name), op),
{
}

// ---------------------------------------------------------------------------
// Records
// ---------------------------------------------------------------------------

/// What a record does to the references: an update puts one in, a deletion takes one
/// out, a batch puts each of its entries in, and a checkpoint starts over with its
/// own.
#[verifier::rlimit(30)]
pub proof fn records_take_effect(
    m: Map<Seq<u8>, RefEntry>,
    log: Seq<WalEntry>,
    name: RefName,
    entry: RefEntry,
    hlc: u64,
    items: Vec<(RefName, RefEntry)>,
)
    ensures
        store::replay(m, Seq::empty()) == m,
        store::replay(m, log.push((WalEntry::Update { name, entry }))) == store::replay(
            m,
            log,
        ).insert(name@, entry),
        store::replay(m, log.push((WalEntry::Delete { name, hlc }))) == store::replay(
            m,
            log,
        ).remove(name@),
        store::replay(m, log.push((WalEntry::Batch { updates: items }))) == store::with_entries(
            store::replay(m, log),
            items@,
        ),
        store::replay(m, log.push((WalEntry::Checkpoint { leaves: items }))) == store::with_entries(
            Map::empty(),
            items@,
        ),
{
    assert(log.push((WalEntry::Update { name, entry })).drop_last() =~= log);
    assert(log.push((WalEntry::Delete { name, hlc })).drop_last() =~= log);
    assert(log.push((WalEntry::Batch { updates: items })).drop_last() =~= log);
    assert(log.push((WalEntry::Checkpoint { leaves: items })).drop_last() =~= log);
}

/// Entries are put in one after the other.
pub proof fn entries_take_effect(
    m: Map<Seq<u8>, RefEntry>,
    items: Seq<(RefName, RefEntry)>,
    name: RefName,
    entry: RefEntry,
)
    ensures
        store::with_entries(m, Seq::empty()) == m,
        store::with_entries(m, items.push((name, entry))) == store::with_entries(m, items).insert(
            name@,
            entry,
        ),
{
    assert(items.push((name, entry)).drop_last() =~= items);
}

/// A store that is opened holds what its log describes, and no locks; readers see
/// every reference whose version is not 0.
pub proof fn opened_holds_log(refs: Map<Seq<u8>, RefEntry>, name: Seq<u8>)
    ensures
        ({
            let m = store::unlocked_slots(refs);
            &&& m.contains_key(name) <==> refs.contains_key(name)
            &&& refs.contains_key(name) ==> m[name].committed == refs[name] && m[name].prepared is None
        }),
{
}

/// Readers see the committed entries whose version is not 0.
pub proof fn readers_see_committed(m: Map<Seq<u8>, RefSlot>, name: Seq<u8>)
    ensures
        store::visible_refs(m).contains_key(name) <==> m.contains_key(name)
            && m[name].committed.version != 0,
        store::visible_refs(m).contains_key(name) ==> store::visible_refs(m)[name]
            == m[name].committed,
{
}

} // verus!
