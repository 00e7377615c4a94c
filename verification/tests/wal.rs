//! Frames, the log of the reference store and recovery from it.
use ledge::frame::{decode_frame, encode_frame, scan_frames, FrameDecode, ScanEnd};
use ledge::store::{compaction_due, RefStoreImpl, WalEntry};
use ledge::types::{Corruption, LedgeError, ObjectId, RefEntry, RefName};
use ledge::wal::Wal;

fn name(s: &str) -> RefName {
    RefName::new(s).unwrap()
}

fn make_oid(n: u8) -> ObjectId {
    ObjectId::from_bytes([n; 32])
}

fn make_entry(byte: u8, version: u64) -> RefEntry {
    RefEntry { target: ObjectId::from_bytes([byte; 32]), hlc: version, version }
}

fn put_leaf(out: &mut Vec<u8>, name: &RefName, entry: &RefEntry) {
    out.push(name.as_bytes().len() as u8);
    out.extend_from_slice(name.as_bytes());
    out.extend_from_slice(entry.target.as_bytes());
    out.extend_from_slice(&entry.hlc.to_le_bytes());
    out.extend_from_slice(&entry.version.to_le_bytes());
}

fn take<'a>(s: &mut &'a [u8], n: usize) -> Option<&'a [u8]> {
    if s.len() < n {
        return None;
    }
    let (a, b) = s.split_at(n);
    *s = b;
    Some(a)
}

fn take_u64(s: &mut &[u8]) -> Option<u64> {
    Some(u64::from_le_bytes(take(s, 8)?.try_into().ok()?))
}

fn take_name(s: &mut &[u8]) -> Option<RefName> {
    let n = take(s, 1)?[0] as usize;
    RefName::from_utf8(take(s, n)?.to_vec())
}

fn take_leaf(s: &mut &[u8]) -> Option<(RefName, RefEntry)> {
    let name = take_name(s)?;
    let target = ObjectId::from_bytes(take(s, 32)?.try_into().ok()?);
    let hlc = take_u64(s)?;
    let version = take_u64(s)?;
    Some((name, RefEntry { target, hlc, version }))
}

/// A plain encoding of records for these tests.
fn encode(e: &WalEntry) -> Vec<u8> {
    let mut out = Vec::new();
    match e {
        WalEntry::Update { name, entry } => {
            out.push(0);
            put_leaf(&mut out, name, entry);
        }
        WalEntry::Delete { name, hlc } => {
            out.push(1);
            out.push(name.as_bytes().len() as u8);
            out.extend_from_slice(name.as_bytes());
            out.extend_from_slice(&hlc.to_le_bytes());
        }
        WalEntry::Checkpoint { leaves } => {
            out.push(2);
            for (n, e) in leaves {
                put_leaf(&mut out, n, e);
            }
        }
        WalEntry::Batch { updates } => {
            out.push(3);
            for (n, e) in updates {
                put_leaf(&mut out, n, e);
            }
        }
    }
    out
}

fn decode(mut s: &[u8]) -> Option<WalEntry> {
    let s = &mut s;
    match take(s, 1)?[0] {
        0 => {
            let (name, entry) = take_leaf(s)?;
            Some(WalEntry::Update { name, entry })
        }
        1 => Some(WalEntry::Delete { name: take_name(s)?, hlc: take_u64(s)? }),
        tag => {
            let mut rows = Vec::new();
            while !s.is_empty() {
                rows.push(take_leaf(s)?);
            }
            if tag == 2 {
                Some(WalEntry::Checkpoint { leaves: rows })
            } else {
                Some(WalEntry::Batch { updates: rows })
            }
        }
    }
}

/// A log and the bytes of its file.
struct Log {
    wal: Wal,
    file: Vec<u8>,
}

impl Log {
    fn open(file: &[u8]) -> Result<(Log, Vec<WalEntry>), LedgeError> {
        let scan = scan_frames(file);
        let entries = scan.spans.iter().map(|(a, b)| decode(&file[*a..*b])).collect();
        let (wal, log) = Wal::open(&scan, entries)?;
        let file = file[..wal.file_size_bytes() as usize].to_vec();
        Ok((Log { wal, file }, log))
    }

    fn append(&mut self, e: &WalEntry) {
        let frame = self.wal.append(&encode(e));
        self.file.extend_from_slice(&frame);
    }

    fn compact(&mut self, e: &WalEntry) {
        self.file = self.wal.compact(&encode(e));
    }
}

fn update(n: &str, entry: RefEntry) -> WalEntry {
    WalEntry::Update { name: name(n), entry }
}

fn log_of(n: u8) -> Vec<u8> {
    let (mut log, _) = Log::open(&[]).unwrap();
    for i in 0u8..n {
        log.append(&update(&format!("refs/heads/b{i}"), make_entry(i, i as u64 + 1)));
    }
    log.file
}

// Frames.

#[test]
fn frame_layout() {
    let f = encode_frame(b"123456789");
    assert_eq!(f.len(), 17);
    assert_eq!(&f[0..4], &9u32.to_le_bytes());
    assert_eq!(&f[4..8], &0xcbf4_3926u32.to_le_bytes());
    assert_eq!(&f[8..], b"123456789");
    assert_eq!(decode_frame(&f, 0), FrameDecode::Frame { end: 17 });
    assert_eq!(decode_frame(&f[..16], 0), FrameDecode::Torn);
    assert_eq!(decode_frame(&f[..7], 0), FrameDecode::Torn);
    let mut bad = f.clone();
    bad[12] ^= 1;
    assert_eq!(decode_frame(&bad, 0), FrameDecode::Damaged);
}

#[test]
fn scan_gives_back_the_payloads() {
    let mut file = encode_frame(b"one");
    file.extend_from_slice(&encode_frame(b""));
    file.extend_from_slice(&encode_frame(b"three"));
    let scan = scan_frames(&file);
    assert_eq!(scan.end, ScanEnd::Clean);
    assert_eq!(scan.valid_len, file.len());
    let got: Vec<&[u8]> = scan.spans.iter().map(|(a, b)| &file[*a..*b]).collect();
    assert_eq!(got, vec![b"one" as &[u8], b"", b"three"]);
    let cut = scan_frames(&file[..file.len() - 1]);
    assert_eq!(cut.end, ScanEnd::Torn);
    assert_eq!(cut.valid_len, 19);
    assert_eq!(cut.spans.len(), 2);
}

// The log.

#[test]
fn append_and_recover_empty() {
    let (log, entries) = Log::open(&[]).unwrap();
    assert!(entries.is_empty());
    let (_, entries2) = Log::open(&log.file).unwrap();
    assert!(entries2.is_empty());
}

#[test]
fn append_update_and_recover() {
    let (mut log, _) = Log::open(&[]).unwrap();
    log.append(&update("refs/heads/main", make_entry(1, 1)));
    let (_, entries) = Log::open(&log.file).unwrap();
    assert_eq!(entries.len(), 1);
    match &entries[0] {
        WalEntry::Update { name, entry } => {
            assert_eq!(name.as_str(), "refs/heads/main");
            assert_eq!(entry.version, 1);
        }
        _ => panic!("expected Update"),
    }
}

#[test]
fn recovery_from_checkpoint() {
    let (mut log, _) = Log::open(&[]).unwrap();
    for i in 0u8..3 {
        log.append(&update(&format!("refs/heads/b{i}"), make_entry(i, i as u64)));
    }
    log.compact(&WalEntry::Checkpoint { leaves: vec![(name("refs/heads/main"), make_entry(42, 10))] });
    log.append(&update("refs/heads/post", make_entry(99, 20)));
    assert_eq!(log.wal.file_size_bytes() as usize, log.file.len());
    let (_, entries) = Log::open(&log.file).unwrap();
    assert_eq!(entries.len(), 2);
    assert!(matches!(&entries[0], WalEntry::Checkpoint { .. }));
    assert!(matches!(&entries[1], WalEntry::Update { .. }));
}

#[test]
fn replay_begins_at_the_last_checkpoint() {
    let (mut log, _) = Log::open(&[]).unwrap();
    log.append(&update("refs/heads/old", make_entry(1, 1)));
    log.append(&WalEntry::Checkpoint { leaves: vec![(name("refs/heads/main"), make_entry(42, 10))] });
    log.append(&update("refs/heads/post", make_entry(99, 20)));
    let (_, entries) = Log::open(&log.file).unwrap();
    assert_eq!(entries.len(), 2);
    assert!(matches!(&entries[0], WalEntry::Checkpoint { .. }));
}

#[test]
fn wal_truncated_tail_recovery() {
    let file = log_of(5);
    let (_, entries) = Log::open(&file[..file.len() - 3]).unwrap();
    assert!(entries.len() >= 4);
}

#[test]
fn delete_entry_roundtrip() {
    let (mut log, _) = Log::open(&[]).unwrap();
    log.append(&WalEntry::Delete { name: name("refs/heads/gone"), hlc: 999 });
    let (_, entries) = Log::open(&log.file).unwrap();
    assert_eq!(entries.len(), 1);
    match &entries[0] {
        WalEntry::Delete { name, hlc } => {
            assert_eq!(name.as_str(), "refs/heads/gone");
            assert_eq!(*hlc, 999);
        }
        _ => panic!("expected Delete"),
    }
}

#[test]
fn crc32_corruption_detected() {
    let (mut log, _) = Log::open(&[]).unwrap();
    log.append(&update("refs/heads/main", make_entry(1, 1)));
    let mut data = log.file;
    if data.len() > 10 {
        data[9] ^= 0xFF;
    }
    assert!(
        Log::open(&data).is_err(),
        "a corrupt full frame must fail open loudly, not recover as empty"
    );
}

#[test]
fn mid_stream_corruption_fails_loud_not_silent() {
    let mut data = log_of(5);
    data[9] ^= 0xFF;
    match Log::open(&data) {
        Err(LedgeError::Corruption(_)) => {}
        Err(other) => panic!("expected a Corruption error, got {other:?}"),
        Ok(_) => panic!("mid-stream corruption must fail open, not recover a truncated prefix"),
    }
}

#[test]
fn torn_tail_after_valid_frames_still_recovers() {
    let file = log_of(4);
    let (log, entries) = Log::open(&file[..file.len() - 3]).expect("a torn tail must recover, not error");
    assert_eq!(entries.len(), 3, "the three intact frames survive the torn tail");
    assert_eq!(log.file, log_of(3));
}

#[test]
fn payload_that_does_not_decode_is_damage() {
    let file = encode_frame(&[0, 200, 1]);
    assert_eq!(Log::open(&file).err(), Some(LedgeError::Corruption(Corruption::FramePayload)));
    let mut bad = log_of(1);
    bad[9] ^= 0xFF;
    assert_eq!(Log::open(&bad).err(), Some(LedgeError::Corruption(Corruption::FrameChecksum)));
}

// Recovery of a store.

#[test]
fn test_wal_recovery_arbitrary_truncation() {
    let written: Vec<(String, ObjectId)> =
        (0u8..20).map(|i| (format!("refs/heads/branch{i:02}"), make_oid(i))).collect();
    let (mut log, _) = Log::open(&[]).unwrap();
    let mut store = RefStoreImpl::new();
    for (i, (n, oid)) in written.iter().enumerate() {
        store.update(&name(n), *oid, None, i as u64).unwrap();
        for e in store.take_pending() {
            log.append(&e);
        }
    }
    let truncate_at = (log.file.len() as f64 * 0.40) as usize;
    let (_, entries) = Log::open(&log.file[..truncate_at]).unwrap();
    let store2 = RefStoreImpl::open(&entries);
    let all = store2.list("refs/heads/");
    assert!(!all.is_empty(), "at least some refs must survive truncation recovery");
    for (n, entry) in &all {
        let name_str = n.as_str();
        let original =
            written.iter().find(|(w, _)| w == name_str).unwrap_or_else(|| panic!("unknown ref {name_str}"));
        assert_eq!(&entry.target, &original.1);
    }
}

#[test]
fn test_wal_compaction_then_recovery() {
    let refs_to_write = 30u8;
    let (mut log, _) = Log::open(&[]).unwrap();
    let mut store = RefStoreImpl::new();
    for i in 0..refs_to_write {
        store.update(&name(&format!("refs/heads/r{i:02}")), make_oid(i), None, i as u64).unwrap();
    }
    for e in store.take_pending() {
        log.append(&e);
    }
    log.compact(&store.compact_wal());
    for i in refs_to_write..refs_to_write + 5 {
        store.update(&name(&format!("refs/heads/post{i}")), make_oid(i), None, i as u64).unwrap();
    }
    for e in store.take_pending() {
        log.append(&e);
    }
    let (_, entries) = Log::open(&log.file).unwrap();
    let store2 = RefStoreImpl::open(&entries);
    for i in 0..refs_to_write {
        let entry = store2
            .get(&name(&format!("refs/heads/r{i:02}")))
            .unwrap_or_else(|| panic!("pre-compaction ref r{i:02} missing"));
        assert_eq!(entry.target, make_oid(i));
    }
    for i in refs_to_write..refs_to_write + 5 {
        let entry = store2
            .get(&name(&format!("refs/heads/post{i}")))
            .unwrap_or_else(|| panic!("post-compaction ref post{i} missing"));
        assert_eq!(entry.target, make_oid(i));
    }
}

#[test]
fn test_background_compaction_triggers_on_threshold() {
    let (mut log, _) = Log::open(&[]).unwrap();
    let mut store = RefStoreImpl::new();
    for i in 0u8..20 {
        store.update(&name(&format!("refs/heads/compact{i}")), make_oid(i), None, i as u64).unwrap();
        for e in store.take_pending() {
            log.append(&e);
        }
        if compaction_due(log.wal.file_size_bytes(), 1) {
            log.compact(&store.compact_wal());
        }
    }
    let wal_size = log.file.len();
    assert!(wal_size < 4096, "WAL size {wal_size} after compaction should be < 4096 bytes");
    let (_, entries) = Log::open(&log.file).unwrap();
    assert_eq!(entries.len(), 1);
    let store2 = RefStoreImpl::open(&entries);
    for i in 0u8..20 {
        let n = name(&format!("refs/heads/compact{i}"));
        let entry = store2.get(&n).unwrap_or_else(|| panic!("ref compact{i} missing"));
        assert_eq!(entry.target, make_oid(i));
    }
}
