//! The replicated log, its file, and the state machine.
use ledge::frame::{encode_frame, scan_frames};
use ledge::leases::{Lease, LeaseRecord, LeaseStore, WorkspaceId};
use ledge::log_store::{LogId, LogStore, StoredEntry, Vote};
use ledge::log_wal::{FrameRecord, WalLogStore, WalRec};
use ledge::op::{outcome_to_resp, LedgeOp, LedgeResp, TxnDecision};
use ledge::state_machine::{EntryPayload, LogEntry, StateDump, StateMachineStore, StoredMembership};
use ledge::store::{AppliedOp, AppliedOutcome, RefStoreImpl};
use ledge::types::{Corruption, LedgeError, ObjectId, RefEntry, RefName, TxnId};

fn log_id(index: u64) -> LogId {
    LogId { term: 1, node_id: 1, index }
}

fn vote(term: u64, node_id: u64) -> Vote {
    Vote { term, node_id, committed: false }
}

fn entry(index: u64) -> StoredEntry {
    StoredEntry { log_id: log_id(index), bytes: vec![index as u8; 40] }
}

fn indexes(v: &[(u64, StoredEntry)]) -> Vec<u64> {
    v.iter().map(|(i, _)| *i).collect()
}

// The log in memory.

fn log_with(items: &[u64]) -> LogStore {
    let mut store = LogStore::new();
    store.append(&items.iter().map(|i| entry(*i)).collect());
    store
}

#[test]
fn append_then_read_range_roundtrip() {
    let store = log_with(&[0, 1, 2]);
    let got = store.try_get_log_entries(0, Some(3));
    assert_eq!(got.len(), 3);
    assert_eq!(got[0].1.log_id.index, 0);
    assert_eq!(got[2].1.log_id.index, 2);
    assert_eq!(got[2].1.bytes, vec![2u8; 40]);
    let got = store.try_get_log_entries(1, Some(3));
    assert_eq!(indexes(&got), vec![1, 2]);
    assert_eq!(indexes(&store.try_get_log_entries(1, None)), vec![1, 2]);
}

#[test]
fn save_and_read_vote() {
    let mut store = LogStore::new();
    assert_eq!(store.read_vote(), None);
    let v = vote(3, 1);
    store.save_vote(v);
    assert_eq!(store.read_vote(), Some(v));
}

#[test]
fn log_store_save_and_read_committed() {
    let mut store = LogStore::new();
    assert_eq!(store.read_committed(), None);
    let c = log_id(5);
    store.save_committed(Some(c));
    assert_eq!(store.read_committed(), Some(c));
}

#[test]
fn get_log_state_reports_last() {
    let store = LogStore::new();
    let st = store.get_log_state();
    assert_eq!(st.last_log_id, None);
    assert_eq!(st.last_purged_log_id, None);
    let st = log_with(&[0, 1, 2]).get_log_state();
    assert_eq!(st.last_log_id.unwrap().index, 2);
}

#[test]
fn truncate_removes_from_index_inclusive() {
    let mut store = log_with(&[0, 1, 2, 3, 4]);
    store.truncate(log_id(2));
    let got = store.try_get_log_entries(0, Some(10));
    assert_eq!(indexes(&got), vec![0, 1]);
}

#[test]
fn purge_removes_upto_index_inclusive_and_sets_last_purged() {
    let mut store = log_with(&[0, 1, 2, 3, 4]);
    let upto = log_id(2);
    store.purge(upto);
    let got = store.try_get_log_entries(0, Some(10));
    assert_eq!(indexes(&got), vec![3, 4]);
    let st = store.get_log_state();
    assert_eq!(st.last_purged_log_id, Some(upto));
    assert_eq!(st.last_log_id.unwrap().index, 4);
}

#[test]
fn get_log_state_after_full_purge_returns_purged_as_last() {
    let mut store = log_with(&[0, 1, 2]);
    let upto = log_id(2);
    store.purge(upto);
    let st = store.get_log_state();
    assert_eq!(st.last_log_id, Some(upto));
}

#[test]
fn an_entry_replaces_the_one_at_its_index() {
    let mut store = log_with(&[1, 2]);
    store.append(&vec![StoredEntry { log_id: LogId { term: 2, node_id: 1, index: 2 }, bytes: vec![7] }]);
    let got = store.try_get_log_entries(0, None);
    assert_eq!(indexes(&got), vec![1, 2]);
    assert_eq!(got[1].1.bytes, vec![7]);
    assert_eq!(store.get_log_state().last_log_id.unwrap().term, 2);
}

// The log in a file.

fn put_u64(out: &mut Vec<u8>, n: u64) {
    out.extend_from_slice(&n.to_le_bytes());
}

fn put_id(out: &mut Vec<u8>, id: &LogId) {
    put_u64(out, id.term);
    put_u64(out, id.node_id);
    put_u64(out, id.index);
}

fn put_entry(out: &mut Vec<u8>, e: &StoredEntry) {
    put_id(out, &e.log_id);
    put_u64(out, e.bytes.len() as u64);
    out.extend_from_slice(&e.bytes);
}

fn put_vote(out: &mut Vec<u8>, v: &Vote) {
    put_u64(out, v.term);
    put_u64(out, v.node_id);
    out.push(v.committed as u8);
}

/// A plain encoding of records for these tests.
fn encode(rec: &WalRec) -> Vec<u8> {
    let mut out = Vec::new();
    match rec {
        WalRec::Entry { index, entry } => {
            out.push(0);
            put_u64(&mut out, *index);
            put_entry(&mut out, entry);
        }
        WalRec::Vote { vote } => {
            out.push(1);
            put_vote(&mut out, vote);
        }
        WalRec::Committed { committed } => {
            out.push(2);
            if let Some(c) = committed {
                put_id(&mut out, c);
            }
        }
        WalRec::Truncate { at } => {
            out.push(3);
            put_u64(&mut out, *at);
        }
        WalRec::Purge { up_to } => {
            out.push(4);
            put_id(&mut out, up_to);
        }
        WalRec::Snapshot { entries, vote, committed, purged } => {
            out.push(5);
            put_u64(&mut out, entries.len() as u64);
            for (i, e) in entries {
                put_u64(&mut out, *i);
                put_entry(&mut out, e);
            }
            out.push(vote.is_some() as u8);
            if let Some(v) = vote {
                put_vote(&mut out, v);
            }
            for id in [committed, purged] {
                out.push(id.is_some() as u8);
                if let Some(c) = id {
                    put_id(&mut out, c);
                }
            }
        }
    }
    out
}

fn take<'a>(s: &mut &'a [u8], n: usize) -> Option<&'a [u8]> {
    if s.len() < n {
        return None;
    }
    let (a, b) = s.split_at(n);
    *s = b;
    Some(a)
}

fn take_u64(s: &mut &[u8]) -> Option<u64> {
    Some(u64::from_le_bytes(take(s, 8)?.try_into().ok()?))
}

fn take_id(s: &mut &[u8]) -> Option<LogId> {
    Some(LogId { term: take_u64(s)?, node_id: take_u64(s)?, index: take_u64(s)? })
}

fn take_entry(s: &mut &[u8]) -> Option<StoredEntry> {
    let log_id = take_id(s)?;
    let n = take_u64(s)? as usize;
    Some(StoredEntry { log_id, bytes: take(s, n)?.to_vec() })
}

fn take_vote(s: &mut &[u8]) -> Option<Vote> {
    Some(Vote { term: take_u64(s)?, node_id: take_u64(s)?, committed: take(s, 1)?[0] == 1 })
}

fn decode(mut s: &[u8]) -> Option<WalRec> {
    let s = &mut s;
    match take(s, 1)?[0] {
        0 => Some(WalRec::Entry { index: take_u64(s)?, entry: take_entry(s)? }),
        1 => Some(WalRec::Vote { vote: take_vote(s)? }),
        2 => Some(WalRec::Committed { committed: take_id(s) }),
        3 => Some(WalRec::Truncate { at: take_u64(s)? }),
        4 => Some(WalRec::Purge { up_to: take_id(s)? }),
        5 => {
            let mut entries = Vec::new();
            for _ in 0..take_u64(s)? {
                entries.push((take_u64(s)?, take_entry(s)?));
            }
            let vote = if take(s, 1)?[0] == 1 { Some(take_vote(s)?) } else { None };
            let committed = if take(s, 1)?[0] == 1 { Some(take_id(s)?) } else { None };
            let purged = if take(s, 1)?[0] == 1 { Some(take_id(s)?) } else { None };
            Some(WalRec::Snapshot { entries, vote, committed, purged })
        }
        _ => None,
    }
}

/// Opens a log and cuts the file where it says.
fn open(file: &mut Vec<u8>) -> WalLogStore {
    let scan = scan_frames(file);
    let frames: Vec<FrameRecord> = scan
        .spans
        .iter()
        .map(|(a, b)| match decode(&file[*a..*b]) {
            Some(rec) => FrameRecord::Record(rec),
            None => FrameRecord::Unreadable,
        })
        .collect();
    let (store, keep) = WalLogStore::open(&scan, &frames).unwrap();
    file.truncate(keep);
    store
}

fn flush(store: &mut WalLogStore, file: &mut Vec<u8>) {
    for rec in store.take_pending() {
        file.extend_from_slice(&encode_frame(&encode(&rec)));
    }
}

fn append(store: &mut WalLogStore, file: &mut Vec<u8>, items: std::ops::RangeInclusive<u64>) {
    store.append(&items.map(entry).collect());
    flush(store, file);
}

#[test]
fn append_and_read_back() {
    let mut file = Vec::new();
    let mut store = open(&mut file);
    append(&mut store, &mut file, 1..=3);
    let got = store.try_get_log_entries(1, Some(4));
    assert_eq!(indexes(&got), vec![1, 2, 3]);
    let again = open(&mut file);
    let got = again.try_get_log_entries(1, Some(4));
    assert_eq!(got[1].1.log_id, log_id(2));
    assert_eq!(got[1].1.bytes, vec![2u8; 40]);
}

#[test]
fn vote_persistence() {
    let mut file = Vec::new();
    let v = vote(2, 1);
    let mut store = open(&mut file);
    assert_eq!(store.read_vote(), None);
    store.save_vote(v);
    assert_eq!(store.read_vote(), Some(v));
    flush(&mut store, &mut file);
    assert_eq!(open(&mut file).read_vote(), Some(v));
}

#[test]
fn log_wal_save_and_read_committed() {
    let mut file = Vec::new();
    let c = log_id(5);
    let mut store = open(&mut file);
    assert_eq!(store.read_committed(), None);
    store.save_committed(Some(c));
    assert_eq!(store.read_committed(), Some(c));
    flush(&mut store, &mut file);
    assert_eq!(open(&mut file).read_committed(), Some(c));
}

#[test]
fn truncate_drops_suffix() {
    let mut file = Vec::new();
    let mut store = open(&mut file);
    append(&mut store, &mut file, 1..=5);
    store.truncate(log_id(3));
    let st = store.get_log_state();
    assert_eq!(st.last_log_id.unwrap().index, 2);
    assert!(store.try_get_log_entries(3, Some(6)).is_empty());
}

#[test]
fn purge_drops_prefix() {
    let mut file = Vec::new();
    let mut store = open(&mut file);
    append(&mut store, &mut file, 1..=5);
    store.purge(log_id(2));
    let st = store.get_log_state();
    assert_eq!(st.last_purged_log_id.unwrap().index, 2);
    assert!(store.try_get_log_entries(1, Some(3)).is_empty());
    assert_eq!(indexes(&store.try_get_log_entries(3, Some(6))), vec![3, 4, 5]);
}

#[test]
fn reopen_replays() {
    let mut file = Vec::new();
    let v = vote(7, 1);
    let mut store = open(&mut file);
    append(&mut store, &mut file, 1..=4);
    store.save_vote(v);
    flush(&mut store, &mut file);
    let store = open(&mut file);
    assert_eq!(indexes(&store.try_get_log_entries(1, Some(5))), vec![1, 2, 3, 4]);
    assert_eq!(store.read_vote(), Some(v));
}

#[test]
fn log_wal_truncated_tail_recovery() {
    let mut file = Vec::new();
    let mut store = open(&mut file);
    append(&mut store, &mut file, 1..=5);
    let n = file.len();
    file.truncate(n - 3);
    let mut store = open(&mut file);
    let got = store.try_get_log_entries(1, Some(6));
    assert!(got.len() >= 4, "recovered {} entries", got.len());
    let next = got.last().unwrap().0 + 1;
    append(&mut store, &mut file, next..=next);
    assert_eq!(store.try_get_log_entries(next, Some(next + 1)).len(), 1);
    assert_eq!(indexes(&open(&mut file).try_get_log_entries(1, None)), vec![1, 2, 3, 4, 5]);
}

#[test]
fn appends_after_a_cut_tail_survive() {
    let mut file = Vec::new();
    let mut store = open(&mut file);
    append(&mut store, &mut file, 1..=3);
    file.truncate(file.len() - 5);
    let mut store = open(&mut file);
    assert_eq!(indexes(&store.try_get_log_entries(0, None)), vec![1, 2], "only the cut record is missing");
    append(&mut store, &mut file, 3..=4);
    let store = open(&mut file);
    assert_eq!(indexes(&store.try_get_log_entries(0, None)), vec![1, 2, 3, 4]);
}

#[test]
fn rewrite_snapshot_compacts_and_replays() {
    let mut file = Vec::new();
    let v = vote(3, 1);
    let mut store = open(&mut file);
    append(&mut store, &mut file, 1..=5);
    store.purge(log_id(2));
    store.save_vote(v);
    store.save_committed(Some(log_id(4)));
    let _ = store.take_pending();
    file = encode_frame(&encode(&store.rewrite_snapshot()));
    append(&mut store, &mut file, 6..=6);
    let store = open(&mut file);
    let st = store.get_log_state();
    assert_eq!(st.last_purged_log_id.unwrap().index, 2);
    assert_eq!(st.last_log_id.unwrap().index, 6);
    assert_eq!(store.read_vote(), Some(v));
    assert_eq!(store.read_committed(), Some(log_id(4)));
    assert_eq!(indexes(&store.try_get_log_entries(3, Some(7))), vec![3, 4, 5, 6]);
}

#[test]
fn every_operation_survives_a_reopen() {
    let mut file = Vec::new();
    let mut store = open(&mut file);
    append(&mut store, &mut file, 1..=8);
    store.truncate(log_id(7));
    store.purge(log_id(2));
    store.save_committed(Some(log_id(5)));
    store.save_committed(None);
    flush(&mut store, &mut file);
    let again = open(&mut file);
    assert_eq!(indexes(&again.try_get_log_entries(0, None)), vec![3, 4, 5, 6]);
    assert_eq!(again.get_log_state(), store.get_log_state());
    assert_eq!(again.read_committed(), None);
}

#[test]
fn broken_parts_of_records_are_damage() {
    let mut file = encode_frame(b"a");
    file.extend_from_slice(&encode_frame(b"b"));
    let scan = scan_frames(&file);
    let frames = vec![
        FrameRecord::Record(WalRec::Vote { vote: vote(1, 1) }),
        FrameRecord::BrokenPart { snapshot: false },
    ];
    assert_eq!(
        WalLogStore::open(&scan, &frames).err(),
        Some(LedgeError::Corruption(Corruption::RecordPart))
    );
    // What a snapshot supersedes is not looked at.
    let frames = vec![
        FrameRecord::BrokenPart { snapshot: false },
        FrameRecord::Record(WalRec::Snapshot {
            entries: vec![(3, entry(3))],
            vote: None,
            committed: None,
            purged: Some(log_id(2)),
        }),
    ];
    let (store, keep) = WalLogStore::open(&scan, &frames).unwrap();
    assert_eq!(keep, file.len());
    assert_eq!(indexes(&store.try_get_log_entries(0, None)), vec![3]);
    // What follows an unreadable frame is dropped.
    let frames = vec![FrameRecord::Unreadable, FrameRecord::Record(WalRec::Vote { vote: vote(1, 1) })];
    let (store, keep) = WalLogStore::open(&scan, &frames).unwrap();
    assert_eq!(keep, 0);
    assert_eq!(store.read_vote(), None);
}

// Commands.

#[test]
fn ref_update_converts_to_applied_update() {
    let op = LedgeOp::RefUpdate {
        name: "refs/heads/main".into(),
        target_bytes: [5u8; 32],
        expected_bytes: None,
        hlc: 1234,
    };
    let applied = op.to_applied().unwrap().unwrap();
    match applied {
        AppliedOp::Update { name, target, expected, hlc } => {
            assert_eq!(name.as_str(), "refs/heads/main");
            assert_eq!(target, ObjectId::from_bytes([5u8; 32]));
            assert_eq!(expected, None);
            assert_eq!(hlc, 1234);
        }
        _ => panic!("expected Update"),
    }
}

#[test]
fn ref_delete_converts_to_applied_delete() {
    let op = LedgeOp::RefDelete { name: "refs/heads/x".into(), expected_bytes: [7u8; 32], hlc: 9 };
    let applied = op.to_applied().unwrap().unwrap();
    match applied {
        AppliedOp::Delete { name, expected, hlc } => {
            assert_eq!(name.as_str(), "refs/heads/x");
            assert_eq!(expected, ObjectId::from_bytes([7u8; 32]));
            assert_eq!(hlc, 9);
        }
        _ => panic!("expected Delete"),
    }
}

#[test]
fn lease_ops_have_no_applied_op() {
    let op = LedgeOp::LeaseTombstone { id: WorkspaceId::from_bytes([0u8; 16]), hlc: 1 };
    assert!(op.to_applied().is_none());
}

#[test]
fn commands_with_bad_names_are_refused() {
    let op = LedgeOp::RefDelete { name: "a\0b".into(), expected_bytes: [7u8; 32], hlc: 9 };
    assert!(matches!(op.to_applied(), Some(Err(LedgeError::InvalidName))));
}

#[test]
fn outcomes_become_responses() {
    let e = RefEntry { target: ObjectId::from_bytes([1; 32]), hlc: 2, version: 3 };
    assert_eq!(outcome_to_resp(AppliedOutcome::Updated(e)), LedgeResp::RefUpdated(e));
    assert_eq!(outcome_to_resp(AppliedOutcome::Conflict(e)), LedgeResp::Conflict(e));
    assert_eq!(outcome_to_resp(AppliedOutcome::NotFound), LedgeResp::NotFound);
    assert_eq!(outcome_to_resp(AppliedOutcome::Deleted), LedgeResp::Deleted);
}

// The state machine.

fn normal(term: u64, index: u64, op: LedgeOp) -> LogEntry {
    LogEntry { log_id: LogId { term, node_id: 1, index }, payload: EntryPayload::Normal(op) }
}

fn update(name: &str, target: u8, expected: Option<u8>, hlc: u64) -> LedgeOp {
    LedgeOp::RefUpdate {
        name: name.into(),
        target_bytes: [target; 32],
        expected_bytes: expected.map(|b| [b; 32]),
        hlc,
    }
}

fn ops() -> Vec<LedgeOp> {
    vec![
        update("refs/heads/main", 1, None, 100),
        update("refs/heads/main", 2, Some(1), 200),
        update("refs/heads/main", 3, Some(9), 300),
    ]
}

fn entries_for(seq: Vec<LedgeOp>) -> Vec<LogEntry> {
    seq.into_iter().enumerate().map(|(i, op)| normal(1, i as u64 + 1, op)).collect()
}

fn lease(byte: u8) -> Lease {
    Lease {
        id: WorkspaceId::from_bytes([byte; 16]),
        source_refs: vec!["refs/heads/main".into()],
        created_at_ms: 1,
        expires_at_ms: 10_000,
        hlc: 5,
        generation: 1,
    }
}

fn main_ref() -> RefName {
    RefName::new("refs/heads/main").unwrap()
}

#[test]
fn txn_record_lifecycle_begin_decide_end() {
    let mut sm = StateMachineStore::new();
    let txn = TxnId::from_bytes([1u8; 16]);
    let r = sm.apply(&vec![normal(1, 1, LedgeOp::TxnBegin { txn_id: txn, participants: vec![0, 1] })]);
    assert_eq!(r, vec![LedgeResp::TxnState(Some(TxnDecision::Pending))]);
    assert_eq!(sm.txn_decision(txn), Some(TxnDecision::Pending));
    assert_eq!(sm.read_handle().txn_decision(txn), Some(TxnDecision::Pending));
    let r = sm.apply(&vec![normal(1, 2, LedgeOp::TxnDecide { txn_id: txn, commit: true })]);
    assert_eq!(r, vec![LedgeResp::TxnState(Some(TxnDecision::Commit))]);
    assert_eq!(sm.txn_decision(txn), Some(TxnDecision::Commit), "TxnDecide is the commit point");
    let r = sm.apply(&vec![normal(1, 3, LedgeOp::TxnEnd { txn_id: txn })]);
    assert_eq!(r, vec![LedgeResp::TxnState(None)]);
    assert_eq!(sm.txn_decision(txn), None, "TxnEnd GCs the record");
}

#[test]
fn txn_decide_abort_records_abort() {
    let mut sm = StateMachineStore::new();
    let txn = TxnId::from_bytes([2u8; 16]);
    sm.apply(&vec![normal(1, 1, LedgeOp::TxnBegin { txn_id: txn, participants: vec![5] })]);
    let r = sm.apply(&vec![normal(1, 2, LedgeOp::TxnDecide { txn_id: txn, commit: false })]);
    assert_eq!(r, vec![LedgeResp::TxnState(Some(TxnDecision::Abort))]);
    assert_eq!(sm.txn_decision(txn), Some(TxnDecision::Abort));
}

#[test]
fn txn_decide_without_begin_creates_durable_decision() {
    let mut sm = StateMachineStore::new();
    let txn = TxnId::from_bytes([3u8; 16]);
    let r = sm.apply(&vec![normal(1, 1, LedgeOp::TxnDecide { txn_id: txn, commit: true })]);
    assert_eq!(r, vec![LedgeResp::TxnState(Some(TxnDecision::Commit))]);
    assert_eq!(sm.txn_decision(txn), Some(TxnDecision::Commit));
}

#[test]
fn apply_is_deterministic_across_two_state_machines() {
    let mut sm_a = StateMachineStore::new();
    let mut sm_b = StateMachineStore::new();
    let resp_a = sm_a.apply(&entries_for(ops()));
    let resp_b = sm_b.apply(&entries_for(ops()));
    assert_eq!(resp_a, resp_b, "same log prefix -> identical responses");
    let a = sm_a.refs_get(&main_ref()).unwrap();
    let b = sm_b.refs_get(&main_ref()).unwrap();
    assert_eq!(a, b);
    assert_eq!(a.target, ObjectId::from_bytes([2u8; 32]));
    assert_eq!(a.hlc, 200, "applied entry carries the leader hlc");
}

#[test]
fn cas_conflict_surfaces_as_ledge_resp_conflict() {
    let mut sm = StateMachineStore::new();
    let resp = sm.apply(&entries_for(ops()));
    assert!(matches!(resp[0], LedgeResp::RefUpdated(_)));
    assert!(matches!(resp[1], LedgeResp::RefUpdated(_)));
    assert!(matches!(resp[2], LedgeResp::Conflict(_)), "wrong expected -> Conflict");
}

#[test]
fn applied_state_tracks_last_log() {
    let mut sm = StateMachineStore::new();
    assert!(sm.applied_state().0.is_none());
    sm.apply(&entries_for(ops()));
    let (last, _) = sm.applied_state();
    assert_eq!(last.unwrap().index, 3, "three entries applied");
}

#[test]
fn snapshot_build_then_install_reproduces_state() {
    let mut src = StateMachineStore::new();
    let _ = src.apply(&entries_for(ops()));
    let (meta, dump) = src.build_snapshot();
    let mut dst = StateMachineStore::new();
    dst.install_snapshot(&meta, dump);
    assert_eq!(dst.refs_get(&main_ref()).unwrap().target, src.refs_get(&main_ref()).unwrap().target);
    assert_eq!(
        dst.refs_get(&main_ref()).unwrap().hlc,
        src.refs_get(&main_ref()).unwrap().hlc,
        "snapshot preserves the leader hlc"
    );
    assert_eq!(dst.applied_state().0, src.applied_state().0);
}

#[test]
fn snapshot_install_preserves_full_ref_entry_including_version() {
    let mut src = StateMachineStore::new();
    let seq = vec![
        update("refs/heads/v", 1, None, 10),
        update("refs/heads/v", 2, Some(1), 20),
        update("refs/heads/v", 3, Some(2), 30),
    ];
    let _ = src.apply(&entries_for(seq));
    let v = RefName::new("refs/heads/v").unwrap();
    let src_entry = src.refs_get(&v).unwrap();
    assert_eq!(src_entry.version, 3, "precondition: source reached version 3");
    let (meta, dump) = src.build_snapshot();
    let mut dst = StateMachineStore::new();
    dst.install_snapshot(&meta, dump);
    let dst_entry = dst.refs_get(&v).unwrap();
    assert_eq!(dst_entry.version, 3, "snapshot install must preserve version (not reset to 1)");
    assert_eq!(dst_entry.hlc, 30, "snapshot install preserves hlc");
    assert_eq!(dst_entry.target, ObjectId::from_bytes([3u8; 32]));
    assert_eq!(dst_entry, src_entry, "full RefEntry reproduced byte-for-byte");
    let resp = dst.apply(&vec![normal(1, 4, update("refs/heads/v", 4, Some(3), 40))]);
    match &resp[0] {
        LedgeResp::RefUpdated(e) => assert_eq!(e.version, 4, "CAS after install continues version"),
        other => panic!("expected RefUpdated, got {other:?}"),
    }
}

#[test]
fn open_persists_applied_state_across_reopen() {
    let mut sm = StateMachineStore::open(RefStoreImpl::new(), LeaseStore::new(), None);
    assert!(sm.applied_state().0.is_none(), "fresh durable SM has no last_applied_log");
    let _ = sm.apply(&entries_for(ops()));
    let meta = sm.applied_state();
    let last_before = meta.0;
    assert_eq!(last_before.unwrap().index, 3, "three entries applied");
    let main = sm.read_handle().applied_ref("refs/heads/main").expect("ref present");
    assert_eq!(main.target, ObjectId::from_bytes([2u8; 32]));
    assert_eq!(main.hlc, 200);
    let ref_log = sm.take_ref_log();
    let leases = LeaseStore::open(&sm.take_lease_log());
    let sm2 = StateMachineStore::open(RefStoreImpl::open(&ref_log), leases, Some(meta));
    let main = sm2.read_handle().applied_ref("refs/heads/main").expect("applied ref durable across reopen");
    assert_eq!(main.target, ObjectId::from_bytes([2u8; 32]));
    assert_eq!(main.hlc, 200, "applied hlc durable");
    let last_after = sm2.applied_state().0;
    assert_eq!(
        last_after, last_before,
        "applied_state().last_applied_log must survive restart (else openraft replays purged log)"
    );
    assert_eq!(last_after.unwrap().index, 3);
}

#[test]
fn lease_put_and_tombstone_apply() {
    let mut sm = StateMachineStore::new();
    let id = WorkspaceId::from_bytes([7u8; 16]);
    let r = sm.apply(&vec![normal(1, 1, LedgeOp::LeasePut { lease: lease(7) })]);
    assert_eq!(r, vec![LedgeResp::LeaseOk]);
    assert_eq!(sm.leases_all().len(), 1);
    let r = sm.apply(&vec![normal(1, 2, LedgeOp::LeaseTombstone { id, hlc: 6 })]);
    assert_eq!(r, vec![LedgeResp::LeaseOk]);
    assert_eq!(sm.leases_all().len(), 0);
}

#[test]
fn lease_tombstone_apply_is_deterministic_across_replicas() {
    let id = WorkspaceId::from_bytes([3u8; 16]);
    let seq = || vec![LedgeOp::LeasePut { lease: lease(3) }, LedgeOp::LeaseTombstone { id, hlc: 42 }];
    let mut sm_a = StateMachineStore::new();
    let mut sm_b = StateMachineStore::new();
    let resp_a = sm_a.apply(&entries_for(seq()));
    let resp_b = sm_b.apply(&entries_for(seq()));
    assert_eq!(resp_a, resp_b);
    assert_eq!(resp_a, vec![LedgeResp::LeaseOk, LedgeResp::LeaseOk]);
    assert!(sm_a.read_handle().applied_lease(id).is_none());
    assert!(sm_b.read_handle().applied_lease(id).is_none());
    assert_eq!(sm_a.leases_all().len(), sm_b.leases_all().len());
    assert_eq!(sm_a.leases_all().len(), 0);
}

#[test]
fn identical_lease_tombstone_op_yields_identical_state() {
    let id = WorkspaceId::from_bytes([8u8; 16]);
    let mut sm_a = StateMachineStore::new();
    let mut sm_b = StateMachineStore::new();
    let r_a = sm_a.apply(&vec![normal(1, 1, LedgeOp::LeaseTombstone { id, hlc: 7 })]);
    let r_b = sm_b.apply(&vec![normal(1, 1, LedgeOp::LeaseTombstone { id, hlc: 7 })]);
    assert_eq!(r_a, r_b);
    assert_eq!(r_a, vec![LedgeResp::LeaseOk]);
    assert!(sm_a.read_handle().applied_lease(id).is_none());
    assert!(sm_b.read_handle().applied_lease(id).is_none());
}

#[test]
fn blank_and_membership_entries_move_the_log_only() {
    let mut sm = StateMachineStore::new();
    let r = sm.apply(&vec![
        LogEntry { log_id: log_id(1), payload: EntryPayload::Blank },
        LogEntry { log_id: log_id(2), payload: EntryPayload::Membership(vec![1, 2, 3]) },
    ]);
    assert_eq!(r, vec![LedgeResp::Noop, LedgeResp::Noop]);
    let (last, membership) = sm.applied_state();
    assert_eq!(last, Some(log_id(2)));
    assert_eq!(membership.log_id, Some(log_id(2)));
    assert_eq!(membership.membership, vec![1, 2, 3]);
}

#[test]
fn applying_in_parts_is_applying_at_once() {
    let mut one = StateMachineStore::new();
    let mut two = StateMachineStore::new();
    let at_once = one.apply(&entries_for(ops()));
    let mut in_parts = Vec::new();
    for e in entries_for(ops()) {
        in_parts.extend(two.apply(&vec![e]));
    }
    assert_eq!(at_once, in_parts);
    assert_eq!(one.refs_get(&main_ref()), two.refs_get(&main_ref()));
    assert_eq!(one.applied_state().0, two.applied_state().0);
}

#[test]
fn snapshots_carry_everything_and_are_numbered() {
    let mut sm = StateMachineStore::new();
    let txn = TxnId::from_bytes([4u8; 16]);
    let mut seq = ops();
    seq.push(LedgeOp::LeasePut { lease: lease(1) });
    seq.push(LedgeOp::TxnBegin { txn_id: txn, participants: vec![1, 2] });
    sm.apply(&entries_for(seq));
    let (meta, dump) = sm.build_snapshot();
    assert_eq!(meta.last_log_id, Some(log_id(5)));
    assert_eq!(dump.refs.len(), 1);
    assert_eq!(dump.leases.len(), 1);
    assert_eq!(dump.txn_records.len(), 1);
    assert_eq!(dump.txn_records[0].1.participants, vec![1, 2]);
    let (again, _) = sm.build_snapshot();
    assert_ne!(meta.snapshot_id, again.snapshot_id);
    let mut dst = StateMachineStore::new();
    dst.apply(&entries_for(vec![update("refs/heads/stale", 9, None, 1)]));
    dst.install_snapshot(&meta, dump);
    assert_eq!(dst.refs_get(&RefName::new("refs/heads/stale").unwrap()), None);
    assert_eq!(dst.txn_decision(txn), Some(TxnDecision::Pending));
    assert_eq!(dst.leases_all().len(), 1);
}

#[test]
fn reading_the_applied_state() {
    let mut sm = StateMachineStore::open(
        RefStoreImpl::new(),
        LeaseStore::new(),
        Some((Some(log_id(9)), StoredMembership { log_id: None, membership: vec![] })),
    );
    assert_eq!(sm.applied_state().0, Some(log_id(9)));
    let mut late = lease(2);
    late.expires_at_ms = 20_000;
    sm.apply(&entries_for(vec![
        update("refs/heads/a", 1, None, 1),
        update("refs/tags/b", 2, None, 2),
        LedgeOp::LeasePut { lease: lease(1) },
        LedgeOp::LeasePut { lease: late },
    ]));
    let read = sm.read_handle();
    assert_eq!(read.applied_refs_with_prefix("refs/heads/").len(), 1);
    assert_eq!(read.applied_ref_map().len(), 2);
    assert_eq!(read.applied_ref("refs/heads/none"), None);
    assert_eq!(read.applied_leases().len(), 2);
    assert_eq!(read.applied_leases_live(15_000).len(), 1);
    assert_eq!(read.applied_leases_expired(15_000).len(), 1);
    assert_eq!(read.applied_lease(WorkspaceId::from_bytes([2; 16])).unwrap().expires_at_ms, 20_000);
}

#[test]
fn building_a_snapshot_keeps_what_is_not_logged_yet() {
    let mut sm = StateMachineStore::new();
    let mut seq = ops();
    seq.push(LedgeOp::LeasePut { lease: lease(1) });
    sm.apply(&entries_for(seq));
    let _ = sm.build_snapshot();
    let refs = RefStoreImpl::open(&sm.take_ref_log());
    assert_eq!(refs.get(&main_ref()), sm.refs_get(&main_ref()));
    assert_eq!(sm.take_lease_log().len(), 1);
}

#[test]
fn entries_that_cannot_be_applied_are_told_apart() {
    let mut sm = StateMachineStore::new();
    assert!(sm.take_ref_log().is_empty() && sm.take_lease_log().is_empty());
    assert!(sm.entry_fits(&normal(1, 1, update("refs/heads/main", 1, None, 1))));
    assert!(!sm.entry_fits(&normal(1, 1, update("a\0b", 1, None, 1))), "no reference has such a name");
    assert!(sm.entry_fits(&LogEntry { log_id: log_id(1), payload: EntryPayload::Blank }));
    let entry = RefEntry { target: ObjectId::from_bytes([1; 32]), hlc: 1, version: u64::MAX };
    sm.restore(StateDump { refs: vec![(main_ref(), entry)], leases: vec![], txn_records: vec![] });
    assert!(!sm.entry_fits(&normal(1, 2, update("refs/heads/main", 2, Some(1), 2))));
    assert!(sm.entry_fits(&normal(1, 2, update("refs/heads/main", 2, None, 2))), "a conflict needs no room");
}

#[test]
fn equal_states_dump_equally() {
    let txn = |n: u8| TxnId::from_bytes([n; 16]);
    let mut one = StateMachineStore::new();
    one.apply(&entries_for(vec![
        LedgeOp::LeasePut { lease: lease(1) },
        LedgeOp::LeasePut { lease: lease(2) },
        LedgeOp::TxnBegin { txn_id: txn(1), participants: vec![1] },
        LedgeOp::TxnBegin { txn_id: txn(2), participants: vec![2] },
    ]));
    let mut two = StateMachineStore::new();
    two.apply(&entries_for(vec![
        LedgeOp::TxnBegin { txn_id: txn(2), participants: vec![2] },
        LedgeOp::TxnBegin { txn_id: txn(1), participants: vec![1] },
        LedgeOp::LeasePut { lease: lease(2) },
        LedgeOp::LeasePut { lease: lease(1) },
    ]));
    let (_, a) = one.build_snapshot();
    let (_, b) = two.build_snapshot();
    assert_eq!(format!("{:?}", a.leases), format!("{:?}", b.leases));
    let ids = |d: &StateDump| d.txn_records.iter().map(|(id, t)| (*id, t.participants.clone())).collect::<Vec<_>>();
    assert_eq!(ids(&a), ids(&b));
    assert_eq!(ids(&a), vec![(txn(1), vec![1]), (txn(2), vec![2])]);
}

// Leases.

#[test]
fn a_lease_log_leads_to_its_leases() {
    let id = WorkspaceId::from_bytes([1; 16]);
    let mut store = LeaseStore::new();
    store.put(lease(1));
    store.put(lease(2));
    store.tombstone_with_hlc(id, 9);
    let mut log = store.take_pending();
    assert_eq!(log.len(), 3);
    assert!(store.take_pending().is_empty());
    store.put(lease(3));
    log.extend(store.take_pending());
    let mut again = LeaseStore::open(&log);
    assert!(again.get(id).is_none());
    assert_eq!(format!("{:?}", again.live(0)), format!("{:?}", store.live(0)));
    assert_eq!(again.live(0).len(), 2);
    assert!(again.take_pending().is_empty());
    assert!(matches!(&log[2], LeaseRecord::Tombstone { hlc: 9, .. }));
}

#[test]
fn workspace_ids() {
    let id = WorkspaceId::from_bytes([0xab; 16]);
    assert_eq!(id.to_hex(), "ab".repeat(16));
    assert_eq!(WorkspaceId::from_hex(&"ab".repeat(16)), Ok(id));
    assert_eq!(WorkspaceId::from_hex(&"ab".repeat(15)), Err(LedgeError::InvalidId));
    assert_eq!(WorkspaceId::from_hex(&"zz".repeat(16)), Err(LedgeError::InvalidId));
}

#[test]
fn leases_live_until_they_expire() {
    let mut store = LeaseStore::new();
    store.put(lease(1));
    assert_eq!(store.live(9_999).len(), 1);
    assert_eq!(store.expired(9_999).len(), 0);
    assert_eq!(store.live(10_000).len() + store.expired(10_000).len(), 1);
    assert_eq!(store.expired(10_001).len(), 1);
    store.tombstone_with_hlc(WorkspaceId::from_bytes([1; 16]), 3);
    assert!(store.get(WorkspaceId::from_bytes([1; 16])).is_none());
    assert_eq!(store.take_pending().len(), 2);
}
