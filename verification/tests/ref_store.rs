//! The tree of references, the reference store and atomic commits.
use ledge::art::{art_delete, art_insert, art_lookup, art_prefix_iter, common_prefix_len, node_prefix_compatible};
use ledge::atomic_commit::{AtomicCommitResult, LocalAtomicCommit};
use ledge::slot::{visible_entry, PreparedIntent, RefSlot};
use ledge::store::{compaction_due, AppliedOp, AppliedOutcome, RefStoreImpl, WalEntry};
use ledge::types::{LedgeError, ObjectId, RefEntry, RefName, TxnId};
use std::sync::Arc;

fn make_entry(byte: u8, version: u64) -> RefEntry {
    RefEntry { target: ObjectId::from_bytes([byte; 32]), hlc: version, version }
}

fn make_store() -> RefStoreImpl {
    RefStoreImpl::new()
}

fn oid(byte: u8) -> ObjectId {
    ObjectId::from_bytes([byte; 32])
}

fn name(s: &str) -> RefName {
    RefName::new(s).unwrap()
}

fn txn(byte: u8) -> TxnId {
    TxnId::from_bytes([byte; 16])
}

fn prepare(store: &mut RefStoreImpl, t: u8, n: &RefName, target: u8, expected: Option<u8>, hlc: u64) -> AppliedOutcome {
    store.apply_op(&AppliedOp::Prepare {
        txn_id: txn(t),
        coord_shard: 0,
        name: n.clone(),
        target: oid(target),
        expected: expected.map(oid),
        hlc,
    })
}

// The tree.

#[test]
fn insert_and_lookup_single() {
    let key = b"refs/heads/main";
    let entry = make_entry(1, 1);
    let root = art_insert(None, key, entry.clone(), 0);
    assert_eq!(art_lookup(&root, key, 0), Some(&entry));
}

#[test]
fn lookup_missing_returns_none() {
    let root = art_insert(None, b"refs/heads/main", make_entry(2, 1), 0);
    assert_eq!(art_lookup(&root, b"refs/heads/other", 0), None);
}

#[test]
fn insert_multiple_lookup_each() {
    let keys: &[&[u8]] = &[b"refs/heads/main", b"refs/heads/feature", b"refs/tags/v1.0", b"refs/agents/a1"];
    let mut root = None;
    for (i, k) in keys.iter().enumerate() {
        root = Some(art_insert(root, k, make_entry(i as u8, i as u64 + 1), 0));
    }
    let root = root.unwrap();
    for (i, k) in keys.iter().enumerate() {
        assert_eq!(art_lookup(&root, k, 0), Some(&make_entry(i as u8, i as u64 + 1)));
    }
}

#[test]
fn cow_old_root_unchanged() {
    let key = b"refs/heads/main";
    let e1 = make_entry(1, 1);
    let e2 = make_entry(2, 2);
    let root1 = art_insert(None, key, e1.clone(), 0);
    let root2 = art_insert(Some(Arc::clone(&root1)), key, e2.clone(), 0);
    assert_eq!(art_lookup(&root1, key, 0), Some(&e1));
    assert_eq!(art_lookup(&root2, key, 0), Some(&e2));
}

#[test]
fn delete_sole_leaf_returns_none() {
    let root = art_insert(None, b"refs/heads/main", make_entry(3, 1), 0);
    assert!(art_delete(root, b"refs/heads/main", 0).is_none());
}

#[test]
fn delete_one_of_many() {
    let keys: &[&[u8]] = &[b"refs/heads/a", b"refs/heads/b", b"refs/heads/c"];
    let mut root = None;
    for (i, k) in keys.iter().enumerate() {
        root = Some(art_insert(root, k, make_entry(i as u8, i as u64 + 1), 0));
    }
    let root = art_delete(root.unwrap(), b"refs/heads/b", 0).unwrap();
    assert!(art_lookup(&root, b"refs/heads/b", 0).is_none());
    assert!(art_lookup(&root, b"refs/heads/a", 0).is_some());
    assert!(art_lookup(&root, b"refs/heads/c", 0).is_some());
}

#[test]
fn prefix_iter_subtree() {
    let keys: &[&[u8]] = &[b"refs/heads/main", b"refs/heads/dev", b"refs/tags/v1.0", b"refs/agents/a1"];
    let mut root = None;
    for (i, k) in keys.iter().enumerate() {
        root = Some(art_insert(root, k, make_entry(i as u8, i as u64 + 1), 0));
    }
    let results = art_prefix_iter(&root.unwrap(), b"refs/heads/", 0);
    assert_eq!(results.len(), 2);
    let mut found: Vec<Vec<u8>> = results.iter().map(|(k, _)| k.to_vec()).collect();
    found.sort();
    assert_eq!(found[0], b"refs/heads/dev".to_vec());
    assert_eq!(found[1], b"refs/heads/main".to_vec());
}

#[test]
fn node4_to_node16_upgrade() {
    let mut root = None;
    for c in b'a'..=b'e' {
        let key = [b'r', b'e', b'f', b's', b'/', c];
        root = Some(art_insert(root, &key, make_entry(c, c as u64), 0));
    }
    let root = root.unwrap();
    for c in b'a'..=b'e' {
        assert!(art_lookup(&root, &[b'r', b'e', b'f', b's', b'/', c], 0).is_some());
    }
}

#[test]
fn node16_to_node48_upgrade() {
    let mut root = None;
    for c in 0u8..17 {
        root = Some(art_insert(root, &[b'r', b'e', b'f', b's', b'/', c], make_entry(c, c as u64), 0));
    }
    let root = root.unwrap();
    for c in 0u8..17 {
        assert!(art_lookup(&root, &[b'r', b'e', b'f', b's', b'/', c], 0).is_some());
    }
}

#[test]
fn node48_to_node256_upgrade() {
    let mut root = None;
    for c in 0u8..49 {
        root = Some(art_insert(root, &[b'r', b'e', b'f', b's', b'/', c], make_entry(c, c as u64), 0));
    }
    let root = root.unwrap();
    for c in 0u8..49 {
        assert!(art_lookup(&root, &[b'r', b'e', b'f', b's', b'/', c], 0).is_some());
    }
}

#[test]
fn prefix_iter_empty_prefix_returns_all() {
    let mut root = None;
    for (i, k) in [b"refs/heads/main" as &[u8], b"refs/tags/v1"].iter().enumerate() {
        root = Some(art_insert(root, k, make_entry(i as u8, i as u64 + 1), 0));
    }
    assert_eq!(art_prefix_iter(&root.unwrap(), b"", 0).len(), 2);
}

#[test]
fn full_node_keeps_and_loses_every_byte() {
    let mut root = None;
    for c in 0..=255u8 {
        root = Some(art_insert(root, &[b'k', c, 7], make_entry(c, 1), 0));
    }
    let mut root = root.unwrap();
    for c in 0..=255u8 {
        assert_eq!(art_lookup(&root, &[b'k', c, 7], 0), Some(&make_entry(c, 1)));
        assert_eq!(art_lookup(&root, &[b'k', c, 8], 0), None);
    }
    for c in 0..255u8 {
        root = art_delete(root, &[b'k', c, 7], 0).unwrap();
        assert_eq!(art_lookup(&root, &[b'k', c, 7], 0), None);
        assert_eq!(art_lookup(&root, &[b'k', 255, 7], 0), Some(&make_entry(255, 1)));
    }
    assert!(art_delete(root, &[b'k', 255, 7], 0).is_none());
}

#[test]
fn deleting_a_missing_key_keeps_the_rest() {
    let root = art_insert(None, b"refs/heads/a", make_entry(1, 1), 0);
    let root = art_delete(root, b"refs/heads/x", 0).unwrap();
    assert_eq!(art_lookup(&root, b"refs/heads/a", 0), Some(&make_entry(1, 1)));
}

#[test]
fn prefix_helpers() {
    assert_eq!(common_prefix_len(b"refs/heads", b"refs/tags"), 5);
    assert_eq!(common_prefix_len(b"", b"x"), 0);
    assert_eq!(common_prefix_len(b"abc", b"abc"), 3);
    assert!(node_prefix_compatible(b"s/h", b"refs/", 3));
    assert!(!node_prefix_compatible(b"s/h", b"refsx", 3));
    assert!(node_prefix_compatible(b"zzz", b"refs", 4));
}

// Names.

#[test]
fn reference_names() {
    assert_eq!(name("refs/heads/main").as_str(), "refs/heads/main");
    assert_eq!(name("refs/heads/main").as_bytes(), b"refs/heads/main");
    assert_eq!(RefName::new("refs/heads/a\0b").err(), Some(LedgeError::InvalidName));
    assert!(RefName::from_utf8(b"refs/heads/main".to_vec()) == Some(name("refs/heads/main")));
    assert!(RefName::from_utf8(vec![0xff, 0xfe]).is_none());
}

// The store.

#[test]
fn create_and_get() {
    let mut store = make_store();
    let n = name("refs/heads/main");
    let t = oid(1);
    let entry = store.update(&n, t, None, 1).unwrap();
    assert_eq!(entry.target, t);
    assert_eq!(entry.version, 1, "first write must be version 1");
    let got = store.get(&n).unwrap();
    assert_eq!(got, entry);
}

#[test]
fn version_increments() {
    let mut store = make_store();
    let n = name("refs/heads/ver");
    let t1 = oid(1);
    let t2 = oid(2);
    let e1 = store.update(&n, t1, None, 1).unwrap();
    let e2 = store.update(&n, t2, Some(t1), 2).unwrap();
    assert_eq!(e1.version, 1);
    assert_eq!(e2.version, 2);
}

#[test]
fn create_conflict() {
    let mut store = make_store();
    let n = name("refs/heads/conflict");
    let t = oid(1);
    store.update(&n, t, None, 1).unwrap();
    let res = store.update(&n, oid(2), None, 2);
    assert!(matches!(res, Err(LedgeError::Conflict { .. })), "expected Conflict, got {res:?}");
}

#[test]
fn update_wrong_expected() {
    let mut store = make_store();
    let n = name("refs/heads/cas");
    store.update(&n, oid(1), None, 1).unwrap();
    let res = store.update(&n, oid(2), Some(oid(99)), 2);
    assert!(matches!(res, Err(LedgeError::Conflict { .. })));
}

#[test]
fn delete_and_get() {
    let mut store = make_store();
    let n = name("refs/heads/del");
    let t = oid(0xdd);
    store.update(&n, t, None, 1).unwrap();
    store.delete(&n, t, 2).unwrap();
    assert!(store.get(&n).is_none());
}

#[test]
fn delete_wrong_expected() {
    let mut store = make_store();
    let n = name("refs/heads/delwrong");
    let t = oid(0xaa);
    store.update(&n, t, None, 1).unwrap();
    let res = store.delete(&n, oid(0xbb), 2);
    assert!(matches!(res, Err(LedgeError::Conflict { .. })));
    assert!(store.get(&n).is_some(), "ref must survive a failed delete");
}

#[test]
fn list_prefix() {
    let mut store = make_store();
    for r in ["refs/heads/main", "refs/heads/dev", "refs/tags/v1"] {
        store.update(&name(r), oid(1), None, 1).unwrap();
    }
    let heads = store.list("refs/heads/");
    assert_eq!(heads.len(), 2);
    let tags = store.list("refs/tags/");
    assert_eq!(tags.len(), 1);
    let all = store.list("refs/");
    assert_eq!(all.len(), 3);
}

#[test]
fn snapshot_isolation() {
    let mut store = make_store();
    let n = name("refs/heads/snap");
    let t1 = oid(1);
    let t2 = oid(2);
    store.update(&n, t1, None, 1).unwrap();
    let snap = store.snapshot();
    store.update(&n, t2, Some(t1), 2).unwrap();
    assert_eq!(snap.get(&n).unwrap().target, t1, "snapshot must be isolated from writes");
    assert_eq!(store.get(&n).unwrap().target, t2);
    assert_eq!(snap.list("refs/heads/").len(), 1);
}

#[test]
fn apply_op_update_creates_with_supplied_hlc() {
    let mut store = make_store();
    let n = name("refs/heads/applied");
    let t = oid(1);
    let outcome = store.apply_op(&AppliedOp::Update { name: n.clone(), target: t, expected: None, hlc: 777 });
    match outcome {
        AppliedOutcome::Updated(entry) => {
            assert_eq!(entry.target, t);
            assert_eq!(entry.version, 1, "first write is version 1");
            assert_eq!(entry.hlc, 777, "apply_op must use the SUPPLIED hlc, not tick()");
        }
        other => panic!("expected Updated, got {other:?}"),
    }
    let got = store.get(&n).unwrap();
    assert_eq!(got.hlc, 777);
    assert_eq!(got.target, t);
}

#[test]
fn apply_op_update_version_increments_with_supplied_hlc() {
    let mut store = make_store();
    let n = name("refs/heads/appliedv");
    let (t1, t2) = (oid(1), oid(2));
    let _ = store.apply_op(&AppliedOp::Update { name: n.clone(), target: t1, expected: None, hlc: 10 });
    let outcome = store.apply_op(&AppliedOp::Update { name: n.clone(), target: t2, expected: Some(t1), hlc: 20 });
    match outcome {
        AppliedOutcome::Updated(e) => {
            assert_eq!(e.version, 2);
            assert_eq!(e.hlc, 20);
            assert_eq!(e.target, t2);
        }
        other => panic!("expected Updated, got {other:?}"),
    }
}

#[test]
fn apply_op_update_wrong_expected_is_conflict() {
    let mut store = make_store();
    let n = name("refs/heads/appliedcas");
    let _ = store.apply_op(&AppliedOp::Update { name: n.clone(), target: oid(1), expected: None, hlc: 1 });
    let outcome =
        store.apply_op(&AppliedOp::Update { name: n.clone(), target: oid(2), expected: Some(oid(99)), hlc: 2 });
    match outcome {
        AppliedOutcome::Conflict(current) => {
            assert_eq!(current.target, oid(1), "conflict surfaces the current entry");
        }
        other => panic!("expected Conflict, got {other:?}"),
    }
}

#[test]
fn apply_op_create_existing_is_conflict() {
    let mut store = make_store();
    let n = name("refs/heads/applieddup");
    let _ = store.apply_op(&AppliedOp::Update { name: n.clone(), target: oid(1), expected: None, hlc: 1 });
    let outcome = store.apply_op(&AppliedOp::Update { name: n.clone(), target: oid(2), expected: None, hlc: 2 });
    assert!(matches!(outcome, AppliedOutcome::Conflict(_)));
}

#[test]
fn apply_op_delete_then_missing() {
    let mut store = make_store();
    let n = name("refs/heads/applieddel");
    let t = oid(0xdd);
    let _ = store.apply_op(&AppliedOp::Update { name: n.clone(), target: t, expected: None, hlc: 1 });
    let outcome = store.apply_op(&AppliedOp::Delete { name: n.clone(), expected: t, hlc: 2 });
    assert!(matches!(outcome, AppliedOutcome::Deleted));
    assert!(store.get(&n).is_none());
    let outcome = store.apply_op(&AppliedOp::Delete { name: n.clone(), expected: t, hlc: 3 });
    assert!(matches!(outcome, AppliedOutcome::NotFound));
}

#[test]
fn apply_op_delete_wrong_expected_is_conflict() {
    let mut store = make_store();
    let n = name("refs/heads/applieddelcas");
    let _ = store.apply_op(&AppliedOp::Update { name: n.clone(), target: oid(0xaa), expected: None, hlc: 1 });
    let outcome = store.apply_op(&AppliedOp::Delete { name: n.clone(), expected: oid(0xbb), hlc: 2 });
    assert!(matches!(outcome, AppliedOutcome::Conflict(_)));
    assert!(store.get(&n).is_some(), "ref survives a failed delete");
}

#[test]
fn restore_from_preserves_exact_version_and_hlc() {
    let mut store = make_store();
    let n = name("refs/heads/restored");
    let entry = RefEntry { target: oid(7), hlc: 999, version: 5 };
    store.restore_from(vec![(n.clone(), entry.clone())]);
    let got = store.get(&n).expect("restored ref present");
    assert_eq!(got.version, 5, "restore_from must NOT reset version to 1");
    assert_eq!(got.hlc, 999, "restore_from must preserve the source hlc");
    assert_eq!(got.target, oid(7), "restore_from must preserve the target");
    assert_eq!(got, entry, "restored entry is byte-identical to the source");
}

#[test]
fn restore_from_replaces_entire_set_and_is_durable() {
    let stale = name("refs/heads/stale");
    let fresh = name("refs/heads/fresh");
    let mut store = make_store();
    store.update(&stale, oid(1), None, 1).unwrap();
    store.restore_from(vec![(fresh.clone(), RefEntry { target: oid(2), hlc: 555, version: 3 })]);
    assert!(store.get(&stale).is_none(), "restore replaces the set");
    assert_eq!(store.get(&fresh).unwrap().version, 3);
    // The log ends with the checkpoint.
    let log = store.take_pending();
    let store2 = RefStoreImpl::open(&log);
    assert!(store2.get(&stale).is_none(), "stale ref gone after reopen");
    let got = store2.get(&fresh).expect("fresh ref durable");
    assert_eq!(got.version, 3, "version durable across reopen");
    assert_eq!(got.hlc, 555);
    assert_eq!(got.target, oid(2));
}

#[test]
fn wal_replay() {
    let n = name("refs/heads/persist");
    let t = oid(0xfe);
    let mut store = make_store();
    store.update(&n, t, None, 1).unwrap();
    let log = store.take_pending();
    let store2 = RefStoreImpl::open(&log);
    let entry = store2.get(&n).expect("ref must survive a store reopen");
    assert_eq!(entry.target, t);
    assert_eq!(entry.version, 1);
}

#[test]
fn prepare_locks_and_votes_yes() {
    let mut store = make_store();
    let n = name("refs/heads/prep");
    store.update(&n, oid(1), None, 1).unwrap();
    let outcome = prepare(&mut store, 1, &n, 2, Some(1), 50);
    assert_eq!(outcome, AppliedOutcome::VoteYes);
    assert_eq!(store.get(&n).unwrap().target, oid(1));
}

#[test]
fn prepare_on_locked_ref_votes_no() {
    let mut store = make_store();
    let n = name("refs/heads/prep2");
    store.update(&n, oid(1), None, 1).unwrap();
    let _ = prepare(&mut store, 1, &n, 2, Some(1), 50);
    let outcome = prepare(&mut store, 2, &n, 3, Some(1), 60);
    assert_eq!(outcome, AppliedOutcome::VoteNo);
}

#[test]
fn prepare_failed_precondition_votes_no_no_lock() {
    let mut store = make_store();
    let n = name("refs/heads/prep3");
    store.update(&n, oid(1), None, 1).unwrap();
    let outcome = prepare(&mut store, 1, &n, 2, Some(9), 50);
    assert_eq!(outcome, AppliedOutcome::VoteNo);
    store.update(&n, oid(2), Some(oid(1)), 2).unwrap();
}

#[test]
fn commit_prepared_applies_staged_and_releases() {
    let mut store = make_store();
    let n = name("refs/heads/cp");
    store.update(&n, oid(1), None, 1).unwrap();
    let _ = prepare(&mut store, 1, &n, 2, Some(1), 777);
    let outcome = store.apply_op(&AppliedOp::CommitPrepared { txn_id: txn(1), name: n.clone() });
    match outcome {
        AppliedOutcome::CommitedPrepared(e) => {
            assert_eq!(e.target, oid(2));
            assert_eq!(e.version, 2, "committed staged is version+1");
            assert_eq!(e.hlc, 777, "uses the staged_hlc deterministically");
        }
        other => panic!("expected CommitedPrepared, got {other:?}"),
    }
    assert_eq!(store.get(&n).unwrap().target, oid(2));
    store.update(&n, oid(3), Some(oid(2)), 900).unwrap();
}

#[test]
fn commit_prepared_idempotent_after_resolution() {
    let mut store = make_store();
    let n = name("refs/heads/cpidem");
    store.update(&n, oid(1), None, 1).unwrap();
    let _ = prepare(&mut store, 1, &n, 2, Some(1), 777);
    let _ = store.apply_op(&AppliedOp::CommitPrepared { txn_id: txn(1), name: n.clone() });
    let again = store.apply_op(&AppliedOp::CommitPrepared { txn_id: txn(1), name: n.clone() });
    match again {
        AppliedOutcome::CommitedPrepared(e) => {
            assert_eq!(e.version, 2, "no second version bump on replay");
            assert_eq!(e.target, oid(2));
        }
        other => panic!("expected idempotent CommitedPrepared, got {other:?}"),
    }
}

#[test]
fn abort_prepared_releases_lock_committed_unchanged() {
    let mut store = make_store();
    let n = name("refs/heads/ap");
    store.update(&n, oid(1), None, 1).unwrap();
    let _ = prepare(&mut store, 1, &n, 2, Some(1), 777);
    let outcome = store.apply_op(&AppliedOp::AbortPrepared { txn_id: txn(1), name: n.clone() });
    assert_eq!(outcome, AppliedOutcome::AbortedPrepared);
    let got = store.get(&n).unwrap();
    assert_eq!(got.target, oid(1));
    assert_eq!(got.version, 1);
    store.update(&n, oid(5), Some(oid(1)), 2).unwrap();
}

#[test]
fn abort_prepared_idempotent_when_unlocked() {
    let mut store = make_store();
    let n = name("refs/heads/apidem");
    store.update(&n, oid(1), None, 1).unwrap();
    let outcome = store.apply_op(&AppliedOp::AbortPrepared { txn_id: txn(1), name: n.clone() });
    assert_eq!(outcome, AppliedOutcome::AbortedPrepared, "abort of an unheld lock is a no-op");
}

#[test]
fn prepare_create_absent_ref_votes_yes() {
    let mut store = make_store();
    let n = name("refs/heads/prepnew");
    let outcome = prepare(&mut store, 1, &n, 2, None, 50);
    assert_eq!(outcome, AppliedOutcome::VoteYes);
    assert!(store.get(&n).is_none());
    let cp = store.apply_op(&AppliedOp::CommitPrepared { txn_id: txn(1), name: n.clone() });
    match cp {
        AppliedOutcome::CommitedPrepared(e) => {
            assert_eq!(e.target, oid(2));
            assert_eq!(e.version, 1, "first commit of a created ref is version 1");
        }
        other => panic!("expected CommitedPrepared, got {other:?}"),
    }
}

#[test]
fn prepare_create_existing_votes_no() {
    let mut store = make_store();
    let n = name("refs/heads/prepdup");
    store.update(&n, oid(1), None, 1).unwrap();
    let outcome = prepare(&mut store, 1, &n, 2, None, 50);
    assert_eq!(outcome, AppliedOutcome::VoteNo);
}

#[test]
fn update_on_locked_ref_conflicts() {
    let mut store = make_store();
    let n = name("refs/heads/lockedw");
    store.update(&n, oid(1), None, 1).unwrap();
    let _ = prepare(&mut store, 1, &n, 2, Some(1), 50);
    let res = store.update(&n, oid(9), Some(oid(1)), 60);
    assert!(matches!(res, Err(LedgeError::Conflict { .. })), "a locked ref is busy");
    let res2 = store.delete(&n, oid(1), 61);
    assert!(matches!(res2, Err(LedgeError::Conflict { .. })), "delete on a locked ref conflicts too");
}

#[test]
fn commit_batch_all_hold_applies_all() {
    let mut store = make_store();
    let a = name("refs/heads/a");
    let b = name("refs/heads/b");
    store.update(&a, oid(1), None, 1).unwrap();
    store.update(&b, oid(1), None, 2).unwrap();
    let res = store.commit_batch(&vec![
        (a.clone(), oid(2), Some(oid(1)), 100),
        (b.clone(), oid(3), Some(oid(1)), 100),
    ]);
    let applied = res.expect("all preconditions hold");
    assert_eq!(applied.len(), 2);
    assert_eq!(applied[0].target, oid(2));
    assert_eq!(applied[0].version, 2);
    assert_eq!(applied[0].hlc, 100);
    assert_eq!(applied[1].target, oid(3));
    assert_eq!(store.get(&a).unwrap().target, oid(2));
    assert_eq!(store.get(&b).unwrap().target, oid(3));
}

#[test]
fn commit_batch_creates_new_refs() {
    let mut store = make_store();
    let a = name("refs/heads/newa");
    let b = name("refs/heads/newb");
    let res = store.commit_batch(&vec![(a.clone(), oid(2), None, 100), (b.clone(), oid(3), None, 100)]);
    let applied = res.expect("creates succeed");
    assert_eq!(applied[0].version, 1);
    assert_eq!(applied[1].version, 1);
    assert_eq!(store.get(&a).unwrap().target, oid(2));
}

#[test]
fn commit_batch_one_fails_applies_none() {
    let mut store = make_store();
    let a = name("refs/heads/at");
    let b = name("refs/heads/bt");
    store.update(&a, oid(1), None, 1).unwrap();
    store.update(&b, oid(1), None, 2).unwrap();
    let res = store.commit_batch(&vec![
        (a.clone(), oid(2), Some(oid(1)), 100),
        (b.clone(), oid(3), Some(oid(9)), 100),
    ]);
    let conflicts = res.expect_err("one stale precondition aborts the batch");
    assert!(
        conflicts.iter().any(|(n, cur)| n == &b && cur.target == oid(1)),
        "conflict reports b's current committed target"
    );
    assert_eq!(store.get(&a).unwrap().target, oid(1), "a untouched");
    assert_eq!(store.get(&b).unwrap().target, oid(1), "b untouched");
    assert_eq!(store.get(&a).unwrap().version, 1);
}

#[test]
fn commit_batch_locked_ref_aborts() {
    let mut store = make_store();
    let a = name("refs/heads/la");
    let b = name("refs/heads/lb");
    store.update(&a, oid(1), None, 1).unwrap();
    store.update(&b, oid(1), None, 2).unwrap();
    let _ = prepare(&mut store, 1, &b, 7, Some(1), 50);
    let res = store.commit_batch(&vec![
        (a.clone(), oid(2), Some(oid(1)), 100),
        (b.clone(), oid(3), Some(oid(1)), 100),
    ]);
    assert!(res.is_err(), "a batch touching a locked ref aborts");
    assert_eq!(store.get(&a).unwrap().target, oid(1), "a not advanced");
}

// The laws of the store on values.

#[test]
fn conflict_and_missing_carry_what_is_there() {
    let mut store = make_store();
    let n = name("refs/heads/x");
    assert_eq!(store.update(&n, oid(1), Some(oid(2)), 1).err(), Some(LedgeError::NotFound(oid(1))));
    assert_eq!(store.delete(&n, oid(2), 1).err(), Some(LedgeError::NotFound(oid(2))));
    let e = store.update(&n, oid(1), None, 5).unwrap();
    assert_eq!(store.update(&n, oid(3), Some(oid(2)), 6).err(), Some(LedgeError::Conflict { current: e }));
}

#[test]
fn one_name_may_begin_another() {
    let mut store = make_store();
    store.update(&name("refs/heads/a"), oid(1), None, 1).unwrap();
    store.update(&name("refs/heads/a/b"), oid(2), None, 2).unwrap();
    store.update(&name("refs/heads/ab"), oid(3), None, 3).unwrap();
    assert_eq!(store.get(&name("refs/heads/a")).unwrap().target, oid(1));
    assert_eq!(store.get(&name("refs/heads/a/b")).unwrap().target, oid(2));
    assert_eq!(store.list("refs/heads/a").len(), 3);
    store.delete(&name("refs/heads/a"), oid(1), 4).unwrap();
    assert!(store.get(&name("refs/heads/a")).is_none());
    assert_eq!(store.list("refs/heads/a").len(), 2);
}

#[test]
fn replay_gives_back_the_store() {
    let mut store = make_store();
    let a = name("refs/heads/a");
    let b = name("refs/heads/b");
    let c = name("refs/heads/c");
    store.update(&a, oid(1), None, 1).unwrap();
    store.update(&b, oid(2), None, 2).unwrap();
    store.commit_batch(&vec![(a.clone(), oid(3), Some(oid(1)), 3), (c.clone(), oid(4), None, 3)]).unwrap();
    store.delete(&b, oid(2), 4).unwrap();
    let log = store.take_pending();
    assert_eq!(log.len(), 4);
    assert!(store.take_pending().is_empty());
    let again = RefStoreImpl::open(&log);
    for n in [&a, &b, &c] {
        assert_eq!(again.get(n), store.get(n));
    }
    assert_eq!(again.get(&a).unwrap().version, 2);
}

#[test]
fn any_mix_of_calls_survives_a_restart() {
    let (a, b, c, d) = (name("refs/heads/a"), name("refs/heads/b"), name("refs/tags/c"), name("refs/heads/d"));
    let mut store = make_store();
    store.update(&a, oid(1), None, 10).unwrap();
    store.update(&b, oid(2), None, 11).unwrap();
    store.delete(&b, oid(2), 12).unwrap();
    store.apply_op(&AppliedOp::Update { name: b.clone(), target: oid(3), expected: None, hlc: 13 });
    store.commit_batch(&vec![(a.clone(), oid(4), Some(oid(1)), 14), (c.clone(), oid(5), None, 14)]).unwrap();
    // The log is compacted, then goes on.
    let _ = store.take_pending();
    let mut log = vec![store.compact_wal()];
    assert!(store.update(&a, oid(9), None, 15).is_err());
    assert_eq!(prepare(&mut store, 1, &d, 6, None, 16), AppliedOutcome::VoteYes);
    assert_eq!(prepare(&mut store, 2, &a, 7, Some(4), 17), AppliedOutcome::VoteYes);
    store.apply_op(&AppliedOp::CommitPrepared { txn_id: txn(2), name: a.clone() });
    log.extend(store.take_pending());
    let again = RefStoreImpl::open(&log);
    for n in [&a, &b, &c, &d] {
        assert_eq!(again.get(n), store.get(n));
    }
    assert_eq!(again.list("refs/"), store.list("refs/"));
    assert_eq!(again.get(&a).map(|e| (e.target, e.hlc, e.version)), Some((oid(7), 17, 3)));
    assert_eq!(again.get(&d), None, "what was only prepared is gone");
    // A restore replaces everything.
    store.restore_from(vec![(d.clone(), make_entry(8, 4))]);
    store.update(&d, oid(9), Some(oid(8)), 20).unwrap();
    log.extend(store.take_pending());
    let again = RefStoreImpl::open(&log);
    assert_eq!(again.list(""), store.list(""));
    assert_eq!(again.list("").len(), 1);
    assert_eq!(again.get(&d).unwrap().version, 5);
}

#[test]
fn only_a_write_that_goes_ahead_needs_room() {
    let n = name("refs/heads/main");
    let mut store = make_store();
    store.restore_from(vec![(n.clone(), make_entry(1, u64::MAX))]);
    assert!(!store.write_fits(&n, Some(oid(1))));
    assert!(store.write_fits(&n, Some(oid(2))), "a conflict needs no room");
    assert!(store.write_fits(&n, None));
    assert!(store.op_fits(&AppliedOp::Delete { name: n.clone(), expected: oid(1), hlc: 1 }));
    assert_eq!(prepare(&mut store, 1, &n, 2, Some(1), 5), AppliedOutcome::VoteYes);
    assert!(!store.op_fits(&AppliedOp::CommitPrepared { txn_id: txn(1), name: n.clone() }));
    assert!(store.op_fits(&AppliedOp::CommitPrepared { txn_id: txn(2), name: n.clone() }));
    assert!(store.op_fits(&AppliedOp::AbortPrepared { txn_id: txn(1), name: n }));
}

#[test]
fn replicas_that_hold_the_same_agree() {
    let n = name("refs/heads/main");
    let mut one = make_store();
    one.update(&n, oid(1), None, 10).unwrap();
    one.update(&n, oid(2), Some(oid(1)), 20).unwrap();
    let mut two = make_store();
    two.restore_from(vec![(n.clone(), one.get(&n).unwrap())]);
    let ops = [
        AppliedOp::Update { name: n.clone(), target: oid(3), expected: Some(oid(1)), hlc: 30 },
        AppliedOp::Update { name: n.clone(), target: oid(3), expected: Some(oid(2)), hlc: 31 },
        AppliedOp::Delete { name: n.clone(), expected: oid(3), hlc: 32 },
    ];
    for op in &ops {
        assert_eq!(one.apply_op(op), two.apply_op(op));
        assert_eq!(one.get(&n), two.get(&n));
    }
}

#[test]
fn a_prepared_entry_is_not_listed_or_logged() {
    let mut store = make_store();
    let n = name("refs/heads/staged");
    assert_eq!(prepare(&mut store, 1, &n, 2, None, 50), AppliedOutcome::VoteYes);
    assert!(store.list("refs/").is_empty());
    assert!(store.take_pending().is_empty());
    match store.compact_wal() {
        WalEntry::Checkpoint { leaves } => assert!(leaves.is_empty()),
        _ => panic!("expected Checkpoint"),
    }
}

#[test]
fn slots_show_what_is_committed() {
    let slot = RefSlot::committed(make_entry(1, 3));
    assert_eq!(visible_entry(&Some(slot)), Some(make_entry(1, 3)));
    assert_eq!(visible_entry(&None), None);
    let locked = RefSlot {
        committed: make_entry(1, 0),
        prepared: Some(PreparedIntent { txn_id: txn(1), coord_shard: 0, staged_target: oid(2), staged_hlc: 4 }),
    };
    assert_eq!(visible_entry(&Some(locked)), None);
    assert!(locked.locked_by_other(&txn(2)));
    assert!(!locked.locked_by_other(&txn(1)));
    assert!(!slot.locked_by_other(&txn(1)));
}

#[test]
fn compaction_threshold() {
    assert!(compaction_due(2, 1));
    assert!(!compaction_due(0, 1));
}

// Atomic commits.

fn low_oid(n: u8) -> ObjectId {
    let mut b = [0u8; 32];
    b[31] = n;
    ObjectId::from_bytes(b)
}

#[test]
fn local_atomic_commit_all_or_nothing() {
    let a = name("refs/heads/a");
    let b = name("refs/heads/b");
    let mut lac = LocalAtomicCommit::new(make_store());
    let res =
        lac.commit_atomic(vec![(a.clone(), low_oid(1), None), (b.clone(), low_oid(2), None)], &vec![1, 2]);
    assert!(matches!(res, AtomicCommitResult::Committed(ref v) if v.len() == 2));
    assert_eq!(lac.store.get(&a).unwrap().target, low_oid(1));
    assert_eq!(lac.store.get(&b).unwrap().target, low_oid(2));
    let res2 = lac.commit_atomic(
        vec![(a.clone(), low_oid(7), None), (b.clone(), low_oid(9), Some(low_oid(2)))],
        &vec![3, 4],
    );
    match res2 {
        AtomicCommitResult::Aborted { conflicts, reason } => {
            assert!(conflicts.contains(&a), "a must be the conflict");
            assert_eq!(reason, "1 ref precondition(s) failed");
        }
        AtomicCommitResult::Committed(_) => panic!("expected Aborted"),
    }
    assert_eq!(lac.store.get(&a).unwrap().target, low_oid(1));
    assert_eq!(lac.store.get(&b).unwrap().target, low_oid(2));
}

// Many writers, taking turns.

#[test]
fn test_concurrent_writes_64_tasks_disjoint_prefixes() {
    let mut store = make_store();
    for seq in 0u8..10 {
        for task_id in 0u8..64 {
            let n = name(&format!("refs/writers/{task_id}/ref{seq:03}"));
            store
                .update(&n, oid(task_id.wrapping_add(seq)), None, 1)
                .unwrap_or_else(|e| panic!("task {task_id} seq {seq} failed: {e:?}"));
        }
    }
    for task_id in 0u8..64 {
        for seq in 0u8..10 {
            let name_str = format!("refs/writers/{task_id}/ref{seq:03}");
            let entry = store.get(&name(&name_str)).unwrap_or_else(|| panic!("missing ref {name_str}"));
            assert_eq!(entry.target, oid(task_id.wrapping_add(seq)));
            assert_eq!(entry.version, 1);
        }
    }
}

#[test]
fn test_concurrent_cas_single_ref() {
    let mut store = make_store();
    let n = name("refs/heads/counter");
    store.update(&n, oid(0), None, 0).unwrap();
    // Every task reads before any of them writes: one wins each round and the
    // others try again.
    let mut waiting: Vec<u16> = (0u16..16).collect();
    let mut hlc = 1;
    while !waiting.is_empty() {
        let seen: Vec<RefEntry> = waiting.iter().map(|_| store.get(&n).unwrap()).collect();
        let mut again = Vec::new();
        for (task_id, current) in waiting.iter().zip(seen) {
            let new_oid = oid(current.target.as_bytes()[0].wrapping_add(1));
            match store.update(&n, new_oid, Some(current.target), hlc) {
                Ok(_) => hlc += 1,
                Err(LedgeError::Conflict { .. }) => again.push(*task_id),
                Err(e) => panic!("unexpected error in task {task_id}: {e:?}"),
            }
        }
        waiting = again;
    }
    let final_entry = store.get(&n).expect("ref missing after concurrent CAS");
    assert_eq!(final_entry.version, 17, "expected 17 versions (1 create + 16 updates), got {}", final_entry.version);
}
