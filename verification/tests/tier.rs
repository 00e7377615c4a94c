//! Packs that move to a cold tier and come back.
use ledge::disk::{DiskObjectStore, PackFiles};
use ledge::graph::close_under_delta_bases;
use ledge::idset::IdSet;
use ledge::repack::repack;
use ledge::tier::{
    list_has, list_packs, location, logical_key, marker_path, must_restore, packs_to_tier, plan_recovery, tier_key,
    verify_pack_body, TierAction, TierJob, TierStats,
};
use ledge::types::{Corruption, LedgeError, ObjectId};
use std::collections::BTreeMap;

type Files = BTreeMap<Vec<u8>, Vec<u8>>;

/// A node whose pack directory and cold tier are maps.
struct Node {
    store: DiskObjectStore,
    dir: Files,
    cold: Option<Files>,
    packs: Vec<Vec<u8>>,
}

fn with_ext(pack: &[u8], ext: &str) -> Vec<u8> {
    let mut v = pack[..pack.len() - 5].to_vec();
    v.extend_from_slice(ext.as_bytes());
    v
}

impl Node {
    fn new(cold: bool) -> Node {
        Node {
            store: DiskObjectStore::new(Vec::new()),
            dir: Files::new(),
            cold: if cold { Some(Files::new()) } else { None },
            packs: Vec::new(),
        }
    }

    fn names(&self) -> Vec<Vec<u8>> {
        self.dir.keys().cloned().collect()
    }

    fn reload_packs(&mut self) {
        let mut files = Vec::new();
        self.packs.clear();
        for name in list_packs(&self.names()) {
            let pack = PackFiles {
                body: self.dir.get(&name).cloned(),
                lidx: self.dir.get(&with_ext(&name, ".lidx")).cloned(),
            };
            if pack.opens() {
                self.packs.push(name);
            }
            files.push(pack);
        }
        self.store.reload_packs(files);
    }

    fn repack(&mut self) {
        let (_, files) = repack(&mut self.store, self.dir.len()).unwrap();
        self.dir.clear();
        let mut name = files.name;
        name.extend_from_slice(b".pack");
        self.dir.insert(with_ext(&name, ".idx"), files.idx);
        self.dir.insert(with_ext(&name, ".lidx"), files.lidx);
        self.dir.insert(name, files.pack);
        self.reload_packs();
    }

    fn tier_packs(&mut self) -> Result<TierStats, LedgeError> {
        let cold = match self.cold.as_mut() {
            Some(c) => c,
            None => return Err(LedgeError::Unavailable),
        };
        let mut stats = TierStats::default();
        let names: Vec<Vec<u8>> = self.dir.keys().cloned().collect();
        for name in packs_to_tier(&names) {
            let idx = with_ext(&name, ".idx");
            let lidx = with_ext(&name, ".lidx");
            let size = self.dir[&name].len() as u64;
            let mut job = TierJob::new(list_has(&names, &idx), list_has(&names, &lidx));
            loop {
                let ok = match job.action {
                    TierAction::PutBody => cold.insert(tier_key(&name), self.dir[&name].clone()).is_none(),
                    TierAction::CheckBody => cold.contains_key(&tier_key(&name)),
                    TierAction::PutIdx => cold.insert(tier_key(&idx), self.dir[&idx].clone()).is_none(),
                    TierAction::PutLidx => cold.insert(tier_key(&lidx), self.dir[&lidx].clone()).is_none(),
                    TierAction::WriteMarker => {
                        self.dir.insert(marker_path(&name), tier_key(&name));
                        true
                    }
                    TierAction::RemoveBody => self.dir.remove(&name).is_some(),
                    TierAction::Finished => {
                        stats.count(size);
                        break;
                    }
                    TierAction::GiveUp => return Err(LedgeError::Unavailable),
                };
                job.advance(ok);
            }
        }
        self.reload_packs();
        Ok(stats)
    }

    fn recover_from_s3(&mut self) -> usize {
        let cold = match &self.cold {
            Some(c) => c,
            None => return 0,
        };
        let keys: Vec<Vec<u8>> = cold.keys().cloned().collect();
        let mut local: Vec<Vec<u8>> = self.dir.keys().cloned().collect();
        let plan = plan_recovery(&keys, &mut local);
        assert!(!plan.body_lost);
        for step in &plan.steps {
            let mut pack = step.name.clone();
            pack.extend_from_slice(b".pack");
            for (want, ext) in [(step.fetch_lidx, ".lidx"), (step.fetch_idx, ".idx")] {
                if want {
                    let f = with_ext(&pack, ext);
                    self.dir.insert(f.clone(), cold[&tier_key(&f)].clone());
                }
            }
            if step.write_marker {
                self.dir.insert(marker_path(&pack), tier_key(&pack));
            }
        }
        let n = plan.steps.len();
        assert_eq!(local.len(), self.dir.len());
        self.reload_packs();
        n
    }

    /// Fetches the body that `id` needs, if it is in the tier.
    fn restore_for(&mut self, id: ObjectId) -> Result<(), LedgeError> {
        if let Some(i) = self.store.missing_body(id) {
            let name = self.packs[i].clone();
            let marker = marker_path(&name);
            if must_restore(self.dir.contains_key(&name), self.cold.is_some(), self.dir.contains_key(&marker)) {
                let body = self.cold.as_ref().unwrap()[&self.dir[&marker]].clone();
                verify_pack_body(&body, &name)?;
                self.dir.insert(name, body);
                self.reload_packs();
            }
        }
        Ok(())
    }

    fn read(&mut self, id: ObjectId) -> Result<Vec<u8>, LedgeError> {
        self.restore_for(id)?;
        self.store.read(id)
    }

    fn pack_exists(&self) -> bool {
        self.dir.keys().any(|n| n.ends_with(b".pack"))
    }
}

fn lines(n: usize, f: impl Fn(usize) -> String) -> Vec<u8> {
    (0..n).flat_map(|i| f(i).into_bytes()).collect()
}

#[test]
fn tier_then_restore_and_durable() {
    let mut node = Node::new(true);
    let mut ids = Vec::new();
    let mut wants = Vec::new();
    for v in 0..6 {
        let c = lines(400, |i| format!("l{i} v{v}\n"));
        ids.push(node.store.write_git_object(3, &c).unwrap());
        wants.push(c);
    }
    node.repack();
    assert!(node.pack_exists(), "a .pack exists after repack");
    let stats = node.tier_packs().unwrap();
    assert!(stats.packs_tiered >= 1, "tiered at least one pack");
    assert!(stats.bytes_uploaded > 0);
    assert!(!node.pack_exists(), "local .pack removed after tiering");
    assert_eq!(node.read(ids[3]).unwrap().as_slice(), wants[3].as_slice());
    assert!(node.pack_exists(), ".pack restored locally on read");
    node.dir.retain(|n, _| !n.ends_with(b".pack"));
    node.reload_packs();
    assert_eq!(node.read(ids[0]).unwrap().as_slice(), wants[0].as_slice());
    assert_eq!(node.tier_packs().unwrap().packs_tiered, 0);
}

#[test]
fn tier_disabled_without_cold() {
    let mut node = Node::new(false);
    assert!(node.tier_packs().is_err(), "tier without a cold tier is an error");
}

#[test]
fn recover_from_s3_after_full_wipe() {
    let mut node = Node::new(true);
    let mut ids = Vec::new();
    let mut wants = Vec::new();
    for v in 0..6 {
        let c = lines(400, |i| format!("l{i} v{v}\n"));
        ids.push(node.store.write_git_object(3, &c).unwrap());
        wants.push(c);
    }
    node.repack();
    node.tier_packs().unwrap();
    node.dir.clear();
    node.reload_packs();
    let n = node.recover_from_s3();
    assert!(n >= 1, "recovered at least one pack from S3");
    assert_eq!(node.read(ids[3]).unwrap().as_slice(), wants[3].as_slice());
    assert_eq!(node.recover_from_s3(), 0);
}

#[test]
fn recover_noop_without_cold() {
    let mut node = Node::new(false);
    assert_eq!(node.recover_from_s3(), 0);
}

#[test]
fn delta_base_of_restores_a_tiered_pack() {
    let mut node = Node::new(true);
    let base_c = lines(400, |i| format!("line {i}\n"));
    let mut other_c = base_c.clone();
    other_c.extend_from_slice(b"one more line\n");
    let a = node.store.write_git_object(3, &base_c).unwrap();
    let b = node.store.write_git_object(3, &other_c).unwrap();
    node.repack();
    let (delta_id, base_id) = [a, b]
        .iter()
        .find_map(|id| node.store.delta_base_of(*id).unwrap().map(|base| (*id, base)))
        .expect("expected the pack writer to deltify one of the two similar blobs");
    node.tier_packs().unwrap();
    assert_eq!(node.store.delta_base_of(delta_id), Err(LedgeError::Unavailable));
    node.restore_for(delta_id).unwrap();
    assert_eq!(
        node.store.delta_base_of(delta_id).unwrap(),
        Some(base_id),
        "delta_base_of must restore the tiered body, not fail with ENOENT"
    );
    let mut set = IdSet::new();
    set.insert(delta_id);
    let keep = close_under_delta_bases(&node.store, set).unwrap();
    assert!(keep.contains(&base_id), "keep-set closes over the base of a delta in a tiered pack");
}

#[test]
fn recover_repairs_a_pack_whose_marker_was_lost_mid_tier() {
    let mut node = Node::new(true);
    let c = lines(400, |i| format!("recoverable {i}\n"));
    let id = node.store.write_git_object(3, &c).unwrap();
    node.repack();
    node.tier_packs().unwrap();
    let before = node.dir.len();
    node.dir.retain(|n, _| !n.ends_with(b".pack.s3"));
    assert_eq!(before - node.dir.len(), 1, "exactly one tiered pack to un-mark");
    node.reload_packs();
    assert!(node.read(id).is_err(), "precondition: the object is unreadable in the crashed state");
    assert_eq!(node.recover_from_s3(), 1, "recover repairs the pack whose marker was lost");
    assert_eq!(node.read(id).unwrap().as_slice(), c.as_slice());
    assert_eq!(node.recover_from_s3(), 0, "and is idempotent once repaired");
}

#[test]
fn a_corrupt_cold_body_is_never_published() {
    let mut node = Node::new(true);
    let c = lines(400, |i| format!("precious {i}\n"));
    let id = node.store.write_git_object(3, &c).unwrap();
    node.repack();
    node.tier_packs().unwrap();
    let marker = node.dir.keys().find(|n| n.ends_with(b".pack.s3")).expect("a tiered pack has a marker").clone();
    let key = node.dir[&marker].clone();
    let good = node.cold.as_ref().unwrap()[&key].clone();
    let mut rotten = good.clone();
    rotten[20] ^= 0xff;
    node.cold.as_mut().unwrap().insert(key.clone(), rotten);
    assert!(node.read(id).is_err(), "a corrupt cold body must be rejected, not served");
    assert!(!node.pack_exists(), "the corrupt body must NOT be published at the canonical .pack path");
    node.cold.as_mut().unwrap().insert(key, good);
    assert_eq!(
        node.read(id).unwrap().as_slice(),
        c.as_slice(),
        "a repaired cold tier heals the node (it was not poisoned)"
    );
}

#[test]
fn s3tier_list_returns_logical_keys() {
    let mut keys: Vec<Vec<u8>> = ["packs/a.idx", "packs/a.lidx", "packs/a.pack"]
        .iter()
        .map(|k| logical_key(b"ledge", &location(b"ledge", k.as_bytes())).unwrap())
        .collect();
    keys.sort();
    assert_eq!(keys, vec![b"packs/a.idx".to_vec(), b"packs/a.lidx".to_vec(), b"packs/a.pack".to_vec()]);
    assert_eq!(location(b"ledge", b"packs/a.idx"), b"ledge/packs/a.idx".to_vec());
    assert_eq!(logical_key(b"ledge", b"other/packs/a.idx"), None);
}

#[test]
fn pack_bodies_are_checked() {
    let mut node = Node::new(true);
    node.store.write_git_object(3, b"one").unwrap();
    node.repack();
    let name = node.packs[0].clone();
    let good = node.dir[&name].clone();
    assert_eq!(verify_pack_body(&good, &name), Ok(()));
    assert_eq!(verify_pack_body(b"PACK", &name), Err(LedgeError::Corruption(Corruption::PackMagic)));
    let mut bad = good.clone();
    bad[15] ^= 1;
    assert_eq!(verify_pack_body(&bad, &name), Err(LedgeError::Corruption(Corruption::PackTrailer)));
    let mut other = name.clone();
    other[0] = if other[0] == b'0' { b'1' } else { b'0' };
    assert_eq!(verify_pack_body(&good, &other), Err(LedgeError::Corruption(Corruption::PackName)));
    assert_eq!(verify_pack_body(&good, b"any.pack"), Ok(()));
}

#[test]
fn moving_a_pack_step_by_step() {
    let mut job = TierJob::new(true, true);
    let mut seen = Vec::new();
    while !matches!(job.action, TierAction::Finished | TierAction::GiveUp) {
        seen.push(job.action);
        job.advance(true);
    }
    assert_eq!(
        seen,
        vec![
            TierAction::PutBody,
            TierAction::CheckBody,
            TierAction::PutIdx,
            TierAction::PutLidx,
            TierAction::WriteMarker,
            TierAction::RemoveBody,
        ]
    );
    let mut failed = TierJob::new(true, true);
    failed.advance(true);
    failed.advance(false);
    assert_eq!(failed.action, TierAction::GiveUp);
}

#[test]
fn a_recovery_step_brings_what_is_missing() {
    let names = |v: &[&str]| v.iter().map(|n| n.as_bytes().to_vec()).collect::<Vec<_>>();
    let keys = names(&[
        "packs/a.idx", "packs/a.lidx", "packs/a.pack", "packs/b.idx", "packs/b.lidx", "packs/b.pack", "packs/c.lidx",
        "packs/c.pack",
    ]);
    let mut local = names(&["b.lidx", "c.lidx", "c.pack.s3"]);
    let plan = plan_recovery(&keys, &mut local);
    assert!(!plan.body_lost);
    let flags: Vec<_> =
        plan.steps.iter().map(|s| (s.name.clone(), s.fetch_lidx, s.fetch_idx, s.write_marker)).collect();
    assert_eq!(flags, vec![(b"a".to_vec(), true, true, true), (b"b".to_vec(), false, true, true)]);
    assert_eq!(
        local,
        names(&["b.lidx", "c.lidx", "c.pack.s3", "a.lidx", "a.idx", "a.pack.s3", "b.idx", "b.pack.s3"])
    );
    assert!(plan_recovery(&keys, &mut local).steps.is_empty());
}

#[test]
fn a_lost_body_stops_the_recovery() {
    let keys = vec![b"packs/a.lidx".to_vec()];
    let mut local = Vec::new();
    let plan = plan_recovery(&keys, &mut local);
    assert!(plan.body_lost);
    assert!(plan.steps.is_empty());
}

#[test]
fn marker_names() {
    assert_eq!(marker_path(b"objects/pack/ab.pack"), b"objects/pack/ab.pack.s3".to_vec());
    assert_eq!(tier_key(b"ab.pack"), b"packs/ab.pack".to_vec());
    let names = vec![b"a.pack".to_vec(), b"b.pack.s3".to_vec(), b"a.pack.s3".to_vec(), b"c.idx".to_vec()];
    assert_eq!(list_packs(&names), vec![b"a.pack".to_vec(), b"b.pack".to_vec()]);
    assert_eq!(packs_to_tier(&names), Vec::<Vec<u8>>::new());
    assert!(must_restore(false, true, true));
    assert!(!must_restore(true, true, true));
    assert!(!must_restore(false, false, true));
    assert!(!must_restore(false, true, false));
}
