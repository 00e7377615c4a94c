//! Loose and packed objects, deltas, packs and the walk over the object graph.
use ledge::delta::{apply_delta, encode_delta};
use ledge::disk::{id_of_file_name, object_path, DiskObjectStore, PackFiles, StoredPack};
use ledge::git_pack::{write_git_pack, write_obj_header, PackObject};
use ledge::git_pack_file::{parse_pack_obj_header, read_lidx, write_lidx, GitPackFile, LidxEntry, LIDX_ROW};
use ledge::graph::{
    child_sha1s, close_under_delta_bases, commit_parent_sha1s, commit_tree_sha1, parse_hex_sha1, reachable_from,
    tag_object_sha1, tree_child_sha1s, tree_child_sha1s_in_repo, tree_entries,
};
use ledge::idset::IdSet;
use ledge::object_file::{content_id, encode_object, expand_body, file_delta_base, file_sha1, file_type, git_sha1};
use ledge::pack::{PackFile, PackWriter, Record};
use ledge::repack::{repack, superseded_files};
use ledge::types::{Corruption, LedgeError, ObjectId};
use ledge::varint::{read_varint, write_varint};
use sha1::Digest;
use std::sync::Arc;

fn make_store() -> DiskObjectStore {
    DiskObjectStore::new(Vec::new())
}

fn lines(n: usize, word: &str) -> Vec<u8> {
    (0..n).flat_map(|i| format!("{word}{i}\n").into_bytes()).collect()
}

fn replaced(text: &[u8], from: &str, to: &str) -> Vec<u8> {
    String::from_utf8(text.to_vec()).unwrap().replace(from, to).into_bytes()
}

fn blob_sha1(content: &[u8]) -> [u8; 20] {
    let mut h = sha1::Sha1::new();
    h.update(format!("blob {}\0", content.len()).as_bytes());
    h.update(content);
    h.finalize().into()
}

/// The body and the index by address of a pack of the given objects.
fn pack_bytes(objs: &[(ObjectId, u8, Vec<u8>, [u8; 20])]) -> (Vec<u8>, Vec<u8>) {
    let pobjs: Vec<PackObject> =
        objs.iter().map(|(_, t, c, s)| PackObject { git_type: *t, content: c.clone(), sha1: *s }).collect();
    let (pack, _idx, offs) = write_git_pack(&pobjs, 16).unwrap();
    let rows: Vec<LidxEntry> = objs
        .iter()
        .zip(offs)
        .map(|((oid, t, _, s), off)| LidxEntry { oid: *oid, sha1: *s, git_type: *t, offset: off })
        .collect();
    (pack, write_lidx(&rows))
}

/// Packs the given objects as a repack would.
fn pack_objects(objs: &[(ObjectId, u8, Vec<u8>, [u8; 20])]) -> StoredPack {
    let (pack, lidx) = pack_bytes(objs);
    let index = GitPackFile::open(Some(&pack), &lidx).unwrap();
    StoredPack { index, body: Some(pack) }
}

#[test]
fn a_damaged_pack_does_not_stop_a_store_from_opening() {
    let a = b"first".to_vec();
    let b = b"second".to_vec();
    let (ida, idb) = (content_id(&a), content_id(&b));
    let (pack_a, lidx_a) = pack_bytes(&[(ida, 3, a.clone(), blob_sha1(&a))]);
    let (pack_b, lidx_b) = pack_bytes(&[(idb, 3, b.clone(), blob_sha1(&b))]);
    let files = || {
        vec![
            PackFiles { body: Some(b"JUNKJUNKJUNK".to_vec()), lidx: Some(lidx_b.clone()) },
            PackFiles { body: Some(pack_a.clone()), lidx: Some(lidx_a.clone()) },
            PackFiles { body: Some(pack_b.clone()), lidx: Some(lidx_b[..lidx_b.len() - 1].to_vec()) },
            PackFiles { body: Some(pack_b.clone()), lidx: None },
        ]
    };
    let opens: Vec<bool> = files().iter().map(|f| f.opens()).collect();
    assert_eq!(opens, vec![false, true, false, false]);
    let mut store = DiskObjectStore::new(files());
    assert_eq!(store.read(ida).unwrap(), a);
    assert!(!store.has(idb));
    let loose = store.write(b"loose").unwrap();
    store.reload_packs(vec![
        PackFiles { body: Some(pack_b), lidx: Some(lidx_b) },
        PackFiles { body: None, lidx: Some(lidx_a) },
    ]);
    assert_eq!(store.read(idb).unwrap(), b);
    assert!(store.has(ida), "a pack whose body was moved away opens from its index");
    assert_eq!(store.read(ida), Err(LedgeError::Unavailable));
    assert_eq!(store.read(loose).unwrap(), b"loose");
}

// Loose objects.

#[test]
fn list_all_ids_returns_every_written_object() {
    let mut store = make_store();
    let id_a = store.write(b"alpha").unwrap();
    let id_b = store.write(b"beta").unwrap();
    let id_c = store.write(b"gamma").unwrap();
    let mut ids = store.list_all_ids();
    ids.sort_by_key(|id| *id.as_bytes());
    let mut expected = vec![id_a, id_b, id_c];
    expected.sort_by_key(|id| *id.as_bytes());
    assert_eq!(ids, expected, "list_all_ids must return exactly the written ids");
}

#[test]
fn list_all_ids_empty_store_is_empty() {
    let store = make_store();
    assert!(store.list_all_ids().is_empty());
}

#[test]
fn delete_removes_object_then_exists_is_false() {
    let mut store = make_store();
    let id = store.write(b"to be deleted").unwrap();
    assert!(store.has(id));
    store.delete(id);
    assert!(!store.has(id), "object must be gone after delete");
}

#[test]
fn delete_missing_id_is_ok() {
    let mut store = make_store();
    store.delete(ObjectId::from_bytes([0x11u8; 32]));
    assert!(store.list_all_ids().is_empty());
}

#[test]
fn write_same_content_returns_same_id() {
    let mut store = make_store();
    let c = b"hello ledge";
    assert_eq!(store.write(c).unwrap(), store.write(c).unwrap());
}

#[test]
fn write_creates_fanout_path() {
    let mut store = make_store();
    let id = store.write(b"fanout path test").unwrap();
    let hex = hex::encode(id.as_bytes());
    let want = format!("objects/{}/{}/{}", &hex[..2], &hex[2..4], hex);
    assert_eq!(object_path(&id), want.into_bytes());
    assert!(store.loose_bytes(id).is_some());
    assert_eq!(id_of_file_name(hex.as_bytes()), Some(id));
    assert_eq!(id_of_file_name(&hex.as_bytes()[1..]), None);
    assert_eq!(id_of_file_name(b"tmp"), None);
}

#[test]
fn write_file_has_24_byte_header() {
    let mut store = make_store();
    let content = b"header layout check";
    let id = store.write(content).unwrap();
    let raw = store.loose_bytes(id).unwrap();
    assert_eq!(raw.len(), 24 + content.len());
    assert_eq!(raw[20], 3);
    assert_eq!(&raw[21..24], &[0u8; 3]);
    assert_eq!(&raw[24..], content as &[u8]);
}

#[test]
fn write_header_sha1_matches_git_blob_hash() {
    let mut store = make_store();
    let content = b"git sha1 compatibility check";
    let id = store.write(content).unwrap();
    let raw = store.loose_bytes(id).unwrap();
    let stored: [u8; 20] = raw[..20].try_into().unwrap();
    assert_eq!(stored, blob_sha1(content));
}

#[test]
fn read_returns_original_content() {
    let mut store = make_store();
    let c = b"round-trip payload";
    let id = store.write(c).unwrap();
    assert_eq!(store.read(id).unwrap(), c.to_vec());
}

#[test]
fn read_missing_returns_not_found() {
    let store = make_store();
    assert!(matches!(store.read(ObjectId::from_bytes([0u8; 32])), Err(LedgeError::NotFound(_))));
}

#[test]
fn exists_false_for_missing() {
    let store = make_store();
    assert!(!store.has(ObjectId::from_bytes([0u8; 32])));
}

#[test]
fn exists_true_after_write() {
    let mut store = make_store();
    let id = store.write(b"existence").unwrap();
    assert!(store.has(id));
}

#[test]
fn sha1_of_matches_git_blob_hash() {
    let mut store = make_store();
    let content = b"sha1_of correctness";
    let id = store.write(content).unwrap();
    let sha1 = store.sha1_of(id).unwrap();
    assert_eq!(sha1, blob_sha1(content));
}

#[test]
fn sha1_of_missing_returns_not_found() {
    let store = make_store();
    assert!(matches!(store.sha1_of(ObjectId::from_bytes([0xdeu8; 32])), Err(LedgeError::NotFound(_))));
}

#[test]
fn write_batch_ids_in_order() {
    let mut store = make_store();
    let cs: Vec<Vec<u8>> = (0u8..8).map(|i| vec![i; 64]).collect();
    let ids = store.write_batch(&cs);
    assert_eq!(ids.len(), 8);
    for (c, id) in cs.into_iter().zip(ids.iter()) {
        assert_eq!(store.write(&c).unwrap(), *id);
    }
}

#[test]
fn concurrent_same_content_idempotent() {
    let mut store = make_store();
    let content = b"concurrent idempotency test payload";
    let ids: Vec<ObjectId> = (0..64).map(|_| store.write(content).unwrap()).collect();
    let first = ids[0];
    assert!(ids.iter().all(|id| *id == first));
    assert!(store.loose_bytes(first).is_some());
    assert_eq!(store.loose_count(), 1);
}

#[test]
fn concurrent_unique_objects_all_stored() {
    let mut store = make_store();
    let written: Vec<(ObjectId, Vec<u8>)> = (0u8..64)
        .map(|i| {
            let c = vec![i; 256];
            (store.write(&c).unwrap(), c)
        })
        .collect();
    for (id, original) in written {
        assert_eq!(store.read(id).unwrap(), original);
    }
}

#[test]
fn roundtrip_compressible_binary_empty_tiny() {
    let mut store = make_store();
    let big: Vec<u8> = lines(400, "line ");
    let cases: Vec<Vec<u8>> = vec![
        big.clone(),
        vec![],
        b"hi".to_vec(),
        (0..4096u32).map(|i| (i.wrapping_mul(2654435761) >> 24) as u8).collect(),
    ];
    for c in cases {
        let id = store.write_git_object(3, &c).unwrap();
        let got = store.read(id).unwrap();
        assert_eq!(got.as_slice(), c.as_slice(), "round-trip byte-identical (len {})", c.len());
    }
}

#[test]
fn dedup_same_content_same_id() {
    let mut store = make_store();
    let c = vec![7u8; 5000];
    let a = store.write_git_object(3, &c).unwrap();
    let b = store.write_git_object(3, &c).unwrap();
    assert_eq!(a, b);
}

#[test]
fn compresses_on_disk() {
    let mut store = make_store();
    let c = lines(2000, "line ");
    let id = store.write_git_object(3, &c).unwrap();
    let raw = store.loose_bytes(id).unwrap();
    let on_disk = raw.len();
    assert!(on_disk < 24 + c.len(), "stored ({on_disk}) < header+raw ({})", 24 + c.len());
    assert_eq!(raw[21], 1, "enc flag = zlib");
}

#[test]
fn legacy_raw_object_reads_back() {
    let mut store = make_store();
    let content = b"legacy raw object body".to_vec();
    let sha1 = blob_sha1(&content);
    let id = ObjectId::from_bytes(blake3::hash(&content).into());
    let mut payload = Vec::new();
    payload.extend_from_slice(&sha1);
    payload.push(3);
    payload.extend_from_slice(&[0u8; 3]);
    payload.extend_from_slice(&content);
    store.put_file(id, payload);
    assert_eq!(store.read(id).unwrap().as_slice(), content.as_slice());
}

#[test]
fn corrupt_compressed_body_is_clean_error() {
    let mut store = make_store();
    let id = store.write_git_object(3, &[1u8; 3000]).unwrap();
    let mut raw = store.loose_bytes(id).unwrap().clone();
    assert_eq!(raw[21], 1);
    for b in raw[24..].iter_mut() {
        *b = 0xff;
    }
    store.put_file(id, raw);
    assert!(store.read(id).is_err());
}

#[test]
fn deltify_shrinks_and_reads_back() {
    let mut store = make_store();
    let base = lines(500, "line ");
    let target = replaced(&base, "line 250\n", "EDITED\n");
    let bid = store.write_git_object(3, &base).unwrap();
    let tid = store.write_git_object(3, &target).unwrap();
    let before = store.loose_bytes(tid).unwrap().len();
    assert!(store.deltify(tid, bid).unwrap(), "should deltify");
    let after = store.loose_bytes(tid).unwrap().len();
    assert!(after < before, "delta file {after} < raw {before}");
    assert_eq!(store.read(tid).unwrap().as_slice(), target.as_slice());
    assert_eq!(store.git_type_of(tid).unwrap(), 3);
    assert_eq!(store.delta_base_of(tid).unwrap(), Some(bid));
    assert_eq!(store.delta_base_of(bid).unwrap(), None);
}

#[test]
fn deltify_refuses_when_not_smaller() {
    let mut store = make_store();
    let a = store.write_git_object(3, &[1u8; 50]).unwrap();
    let b = store.write_git_object(3, &(0..50u8).collect::<Vec<_>>()).unwrap();
    let _ = store.deltify(a, b).unwrap();
    assert_eq!(store.read(a).unwrap().len(), 50, "a still reads exact");
}

#[test]
fn delta_chain_reads_back() {
    let mut store = make_store();
    let v0 = lines(300, "L");
    let v1 = replaced(&v0, "L100\n", "A\n");
    let v2 = replaced(&v1, "L200\n", "B\n");
    let id0 = store.write_git_object(3, &v0).unwrap();
    let id1 = store.write_git_object(3, &v1).unwrap();
    let id2 = store.write_git_object(3, &v2).unwrap();
    assert!(store.deltify(id1, id0).unwrap());
    assert!(store.deltify(id2, id1).unwrap());
    assert_eq!(store.read(id2).unwrap().as_slice(), v2.as_slice());
    assert_eq!(store.read(id1).unwrap().as_slice(), v1.as_slice());
    assert_eq!(store.read(id0).unwrap().as_slice(), v0.as_slice());
    assert_eq!(store.chain_depth(id2).unwrap(), 2);
    assert_eq!(store.chain_depth(id0).unwrap(), 0);
    assert!(store.delta_reaches(id2, id0).unwrap());
    assert!(!store.delta_reaches(id0, id2).unwrap());
}

#[test]
fn deltify_never_closes_a_circle() {
    let mut store = make_store();
    let v0 = lines(300, "L");
    let v1 = replaced(&v0, "L100\n", "A\n");
    let id0 = store.write_git_object(3, &v0).unwrap();
    let id1 = store.write_git_object(3, &v1).unwrap();
    assert!(store.deltify(id1, id0).unwrap());
    assert!(!store.deltify(id0, id1).unwrap());
    assert!(!store.deltify(id0, id0).unwrap());
    assert_eq!(store.read(id0).unwrap(), v0);
    assert_eq!(store.read(id1).unwrap(), v1);
}

#[test]
fn deltify_leaves_other_objects_alone() {
    let mut store = make_store();
    let v0 = lines(300, "L");
    let v1 = replaced(&v0, "L100\n", "A\n");
    let v2 = replaced(&v1, "L200\n", "B\n");
    let id0 = store.write_git_object(3, &v0).unwrap();
    let id1 = store.write_git_object(3, &v1).unwrap();
    let id2 = store.write_git_object(3, &v2).unwrap();
    assert!(store.deltify(id2, id1).unwrap());
    let file = store.loose_bytes(id2).unwrap().clone();
    assert!(store.deltify(id1, id0).unwrap(), "the base of a delta becomes one");
    assert_eq!(store.loose_bytes(id2).unwrap(), &file);
    assert_eq!(store.read(id2).unwrap(), v2);
    assert_eq!(store.read(id1).unwrap(), v1);
}

#[test]
fn every_object_type_is_named_as_git_does() {
    let tree = hex::decode("4b825dc642cb6eb9a060e54bf8d69288fbee4904").unwrap();
    assert_eq!(git_sha1(2, b"").to_vec(), tree);
    let empty_blob = hex::decode("e69de29bb2d1d6434b8b29ae775ad8c2e48c5391").unwrap();
    assert_eq!(git_sha1(3, b"").to_vec(), empty_blob);
    assert_ne!(git_sha1(1, b""), git_sha1(4, b""));
    assert_eq!(
        hex::encode(content_id(b"").as_bytes()),
        "af1349b9f5f9a1a6a0404dea36dcc9499bcb25c9adc112b7cc9a93cae41f3262"
    );
}

#[test]
fn unknown_object_type_is_refused() {
    let mut store = make_store();
    for t in [0u8, 5, 7, 255] {
        assert_eq!(store.write_git_object(t, b"x").err(), Some(LedgeError::Corruption(Corruption::ObjectType)));
        assert_eq!(encode_object(t, b"x").err(), Some(LedgeError::Corruption(Corruption::ObjectType)));
    }
    assert_eq!(store.loose_count(), 0);
}

#[test]
fn object_file_headers() {
    let (id, raw) = encode_object(1, b"some commit").unwrap();
    assert_eq!(id, content_id(b"some commit"));
    assert_eq!(file_sha1(&raw), Ok(git_sha1(1, b"some commit")));
    assert_eq!(file_type(&raw), Ok(1));
    assert_eq!(file_delta_base(&raw), None);
    assert_eq!(file_sha1(&raw[..10]).err(), Some(LedgeError::Corruption(Corruption::ObjectHeader)));
    assert_eq!(file_type(&raw[..10]).err(), Some(LedgeError::Corruption(Corruption::ObjectHeader)));
    assert_eq!(expand_body(&[0xff; 8]).err(), Some(LedgeError::Corruption(Corruption::Inflate)));
}

#[test]
fn damaged_object_files_are_clean_errors() {
    let mut store = make_store();
    let id = ObjectId::from_bytes([5; 32]);
    store.put_file(id, vec![1; 23]);
    assert_eq!(store.read(id).err(), Some(LedgeError::Corruption(Corruption::ObjectHeader)));
    let mut raw = vec![0u8; 30];
    raw[20] = 3;
    raw[21] = 9;
    store.put_file(id, raw.clone());
    assert_eq!(store.read(id).err(), Some(LedgeError::Corruption(Corruption::ObjectEncoding)));
    // A delta whose base is itself never ends.
    let mut own = vec![0u8; 24];
    own[20] = 3;
    own[21] = 2;
    own.extend_from_slice(id.as_bytes());
    own.extend_from_slice(&[0, 0]);
    store.put_file(id, own);
    assert_eq!(store.read(id).err(), Some(LedgeError::Corruption(Corruption::ChainTooDeep)));
}

// Deltas.

#[test]
fn delta_of_known_bytes() {
    let base = b"hello world";
    let target = b"hello brave world";
    let d = encode_delta(base, target);
    assert_eq!(apply_delta(base, &d), Ok(target.to_vec()));
    // base length, target length, copy 6 bytes from 0, insert "brave ", copy
    // the 5 bytes at 6.
    assert_eq!(&d[..2], &[11, 17]);
    assert_eq!(apply_delta(base, &[11, 5, 0x90, 5]), Ok(b"hello".to_vec()));
    assert_eq!(apply_delta(base, &[11, 3, 3, b'a', b'b', b'c']), Ok(b"abc".to_vec()));
}

#[test]
fn delta_roundtrips_on_many_shapes() {
    let big = lines(5000, "row ");
    let mut shifted = b"prefix".to_vec();
    shifted.extend_from_slice(&big);
    let cases: Vec<(Vec<u8>, Vec<u8>)> = vec![
        (vec![], vec![]),
        (vec![], vec![9; 1000]),
        (vec![9; 1000], vec![]),
        (vec![1; 300], vec![1; 200]),
        (big.clone(), big.clone()),
        (big.clone(), shifted.clone()),
        (shifted, big),
    ];
    for (base, target) in cases {
        assert_eq!(apply_delta(&base, &encode_delta(&base, &target)), Ok(target));
    }
}

#[test]
fn malformed_deltas_are_refused() {
    let base = b"hello world";
    for d in [
        vec![],
        vec![11],
        vec![12, 5, 0x90, 5],
        vec![11, 6, 0x90, 5],
        vec![11, 1, 0],
        vec![11, 20, 0x90, 20],
        vec![11, 3, 3, b'a'],
        vec![11, 5, 0x90],
    ] {
        assert_eq!(apply_delta(base, &d), Err(Corruption::Delta), "{d:?}");
    }
}

#[test]
fn varints() {
    for n in [0u64, 1, 127, 128, 300, 16383, 16384, u64::MAX] {
        let mut out = Vec::new();
        write_varint(&mut out, n);
        assert_eq!(read_varint(&out, 0, 10), Some((n as u128, out.len())));
    }
    let mut out = Vec::new();
    write_varint(&mut out, 300);
    assert_eq!(out, vec![0xac, 0x02]);
    assert_eq!(read_varint(&[0x80], 0, 10), None);
}

// Packs in the git format.

/// Reads the header of a packed object: type, size and length.
fn read_obj_header(buf: &[u8]) -> (u8, usize, usize) {
    let first = buf[0];
    let git_type = (first >> 4) & 0x07;
    let mut size = (first & 0x0f) as usize;
    let mut shift = 4;
    let mut i = 0;
    let mut byte = first;
    while byte & 0x80 != 0 {
        i += 1;
        byte = buf[i];
        size |= ((byte & 0x7f) as usize) << shift;
        shift += 7;
    }
    (git_type, size, i + 1)
}

#[test]
fn obj_header_roundtrips() {
    for &size in &[0usize, 1, 15, 16, 17, 127, 128, 2047, 2048, 65_535, 1 << 20, (1 << 28) + 5] {
        for git_type in 1u8..=4 {
            let mut out = Vec::new();
            write_obj_header(&mut out, git_type, size);
            let (ty, sz, used) = read_obj_header(&out);
            assert_eq!(ty, git_type, "type mismatch for size {size}");
            assert_eq!(sz, size, "size mismatch for type {git_type}");
            assert_eq!(used, out.len(), "consumed all header bytes for size {size}");
            assert_eq!(parse_pack_obj_header(&out, 0), Ok((git_type, size as u64, out.len())));
        }
    }
}

#[test]
fn write_lidx_layout() {
    let e = LidxEntry {
        oid: ObjectId::from_bytes([7u8; 32]),
        sha1: [9u8; 20],
        git_type: 3,
        offset: 0x0102_0304_0506_0708,
    };
    let buf = write_lidx(&vec![e]);
    assert_eq!(buf.len(), 4 + LIDX_ROW);
    assert_eq!(&buf[0..4], &1u32.to_le_bytes());
    let back = read_lidx(&buf).unwrap();
    assert_eq!(back.len(), 1);
    assert_eq!(back[0].oid, ObjectId::from_bytes([7u8; 32]));
    assert_eq!(back[0].sha1, [9u8; 20]);
    assert_eq!(back[0].git_type, 3);
    assert_eq!(back[0].offset, 0x0102_0304_0506_0708);
    assert_eq!(read_lidx(&buf[..buf.len() - 1]).err(), Some(LedgeError::Corruption(Corruption::PackIndex)));
    assert_eq!(read_lidx(&[1, 0]).err(), Some(LedgeError::Corruption(Corruption::PackIndex)));
}

fn versions_of_a_file() -> Vec<PackObject> {
    let base = lines(500, "line ");
    (0..6)
        .map(|v| {
            let content = replaced(&base, "line 5\n", &format!("V{v}\n"));
            let sha1 = git_sha1(3, &content);
            PackObject { git_type: 3, content, sha1 }
        })
        .collect()
}

#[test]
fn git_pack_reads_back_by_address() {
    let objs = versions_of_a_file();
    let (pack, idx, offsets) = write_git_pack(&objs, 16).unwrap();
    let (pack_full, _, _) = write_git_pack(&objs, 0).unwrap();
    assert!(pack.len() < pack_full.len());
    assert_eq!(&pack[..4], b"PACK");
    assert_eq!(&pack[4..8], &2u32.to_be_bytes());
    assert_eq!(&pack[8..12], &6u32.to_be_bytes());
    let trailer: [u8; 20] = sha1::Sha1::digest(&pack[..pack.len() - 20]).into();
    assert_eq!(&pack[pack.len() - 20..], &trailer);
    assert_eq!(&idx[..8], &[0xff, 0x74, 0x4f, 0x63, 0, 0, 0, 2]);
    assert_eq!(idx.len(), 8 + 1024 + 6 * (20 + 4 + 4) + 40);
    let idx_trailer: [u8; 20] = sha1::Sha1::digest(&idx[..idx.len() - 20]).into();
    assert_eq!(&idx[idx.len() - 20..], &idx_trailer);
    assert_eq!(&idx[idx.len() - 40..idx.len() - 20], &trailer);
    let rows: Vec<LidxEntry> = objs
        .iter()
        .zip(&offsets)
        .map(|(o, off)| LidxEntry { oid: content_id(&o.content), sha1: o.sha1, git_type: o.git_type, offset: *off })
        .collect();
    let file = GitPackFile::open(Some(&pack), &write_lidx(&rows)).unwrap();
    for (i, o) in objs.iter().enumerate() {
        let oid = content_id(&o.content);
        assert!(file.contains(oid));
        assert_eq!(file.read(&pack, oid), Ok(Some(o.content.clone())), "object {i}");
        assert_eq!(file.git_type_of(oid), Some(o.git_type));
        assert_eq!(file.sha1_of(oid), Some(o.sha1));
    }
    assert_eq!(file.oids().len(), objs.len());
    assert_eq!(file.sha1_pairs().len(), objs.len());
    assert!(objs.iter().any(|o| file.delta_base_of(&pack, content_id(&o.content)).unwrap().is_some()));
    assert_eq!(file.read(&pack, ObjectId::from_bytes([0; 32])), Ok(None));
}

#[test]
fn git_index_lists_names_in_order_with_checksums() {
    let objs = versions_of_a_file();
    let (pack, idx, offsets) = write_git_pack(&objs, 0).unwrap();
    let mut order: Vec<usize> = (0..objs.len()).collect();
    order.sort_by_key(|i| objs[*i].sha1);
    let mut ends: Vec<u64> = offsets.clone();
    ends.push(pack.len() as u64 - 20);
    ends.sort();
    for (k, i) in order.iter().enumerate() {
        let at = 8 + 1024 + 20 * k;
        assert_eq!(&idx[at..at + 20], &objs[*i].sha1);
        let crc_at = 8 + 1024 + 20 * objs.len() + 4 * k;
        let end = *ends.iter().find(|e| **e > offsets[*i]).unwrap();
        let crc = crc32fast::hash(&pack[offsets[*i] as usize..end as usize]);
        assert_eq!(&idx[crc_at..crc_at + 4], &crc.to_be_bytes());
        let off_at = 8 + 1024 + 24 * objs.len() + 4 * k;
        assert_eq!(&idx[off_at..off_at + 4], &(offsets[*i] as u32).to_be_bytes());
    }
    for b in 0..256usize {
        let n = objs.iter().filter(|o| o.sha1[0] as usize <= b).count() as u32;
        assert_eq!(&idx[8 + 4 * b..12 + 4 * b], &n.to_be_bytes());
    }
}

#[test]
fn git_pack_file_errors() {
    let objs = versions_of_a_file();
    let (pack, _, offsets) = write_git_pack(&objs, 16).unwrap();
    let oid = content_id(&objs[0].content);
    let row = |offset: u64| {
        vec![LidxEntry { oid, sha1: objs[0].sha1, git_type: 3, offset }]
    };
    assert_eq!(
        GitPackFile::open(Some(b"JUNKJUNKJUNK"), &write_lidx(&row(12))).err(),
        Some(LedgeError::Corruption(Corruption::PackMagic))
    );
    assert!(GitPackFile::open(None, &write_lidx(&row(12))).is_ok());
    let far = GitPackFile::from_entries(&row(1 << 40));
    assert_eq!(far.read(&pack, oid), Err(LedgeError::Corruption(Corruption::PackOffset)));
    let good = GitPackFile::from_entries(&row(offsets[0]));
    assert!(good.read(&pack[..offsets[0] as usize + 3], oid).is_err());
    assert_eq!(
        parse_pack_obj_header(&[0xb0, 0x80], 0),
        Err(LedgeError::Corruption(Corruption::PackObjectHeader))
    );
    // Type 6 is a delta by offset, which is not supported.
    let by_offset = GitPackFile::from_entries(&row(0));
    assert_eq!(
        by_offset.read(&[0x60, 0, 0, 0, 0, 0, 0, 0], oid),
        Err(LedgeError::Corruption(Corruption::PackObjectType))
    );
}

#[test]
fn pack_without_its_base_is_an_error() {
    let objs = versions_of_a_file();
    let (pack, _, offsets) = write_git_pack(&objs, 16).unwrap();
    let rows: Vec<LidxEntry> = objs
        .iter()
        .zip(&offsets)
        .map(|(o, off)| LidxEntry { oid: content_id(&o.content), sha1: o.sha1, git_type: 3, offset: *off })
        .collect();
    let whole = GitPackFile::from_entries(&rows);
    let delta = rows.iter().find(|r| whole.delta_base_of(&pack, r.oid).unwrap().is_some()).unwrap();
    let alone = GitPackFile::from_entries(&vec![*delta]);
    assert_eq!(alone.read(&pack, delta.oid), Err(LedgeError::Corruption(Corruption::PackBase)));
}

// Objects in packs.

#[test]
fn reads_packed_only_object() {
    let mut store = make_store();
    let content = lines(400, "line ");
    let id = store.write_git_object(3, &content).unwrap();
    let sha1 = store.sha1_of(id).unwrap();
    store.swap_packs(vec![pack_objects(&[(id, 3, content.clone(), sha1)])]);
    store.delete(id);
    assert_eq!(store.loose_count(), 0);
    assert_eq!(store.read(id).unwrap().as_slice(), content.as_slice());
    assert_eq!(store.git_type_of(id).unwrap(), 3);
    assert_eq!(store.sha1_of(id).unwrap().len(), 20);
    assert!(store.has(id));
    assert!(store.list_all_ids().contains(&id));
}

#[test]
fn packed_delta_with_packed_base_resolves() {
    let mut store = make_store();
    let base = lines(400, "l");
    let edited = replaced(&base, "l200\n", "E\n");
    let bid = store.write_git_object(3, &base).unwrap();
    let tid = store.write_git_object(3, &edited).unwrap();
    let bsha1 = store.sha1_of(bid).unwrap();
    let tsha1 = store.sha1_of(tid).unwrap();
    store.swap_packs(vec![pack_objects(&[(bid, 3, base, bsha1), (tid, 3, edited.clone(), tsha1)])]);
    store.delete(bid);
    store.delete(tid);
    assert_eq!(store.read(tid).unwrap().as_slice(), edited.as_slice());
    assert_eq!(store.delta_base_of(tid).unwrap(), Some(bid));
}

#[test]
fn sha1_index_two_tier_and_cached() {
    let mut store = make_store();
    let content = lines(400, "l");
    let id = store.write_git_object(3, &content).unwrap();
    let sha1 = store.sha1_of(id).unwrap();
    let a = store.sha1_index();
    let b = store.sha1_index();
    assert!(Arc::ptr_eq(&a, &b), "cached: same Arc on repeat call");
    assert_eq!(a.get(&sha1).copied(), Some(id));
    store.swap_packs(vec![pack_objects(&[(id, 3, content, sha1)])]);
    store.delete(id);
    let c = store.sha1_index();
    assert!(!Arc::ptr_eq(&a, &c), "swap_packs invalidated the cache");
    assert_eq!(c.get(&sha1).copied(), Some(id), "packed object present in index");
}

#[test]
fn write_invalidates_sha1_cache() {
    let mut store = make_store();
    let a = store.sha1_index();
    let id = store.write_git_object(3, b"new object").unwrap();
    let b = store.sha1_index();
    assert!(!Arc::ptr_eq(&a, &b), "write invalidated the cache");
    assert!(b.get(&store.sha1_of(id).unwrap()).is_some());
}

#[test]
fn refused_writes_keep_the_sha1_cache() {
    let mut store = make_store();
    let id = store.write_git_object(3, b"kept").unwrap();
    let a = store.sha1_index();
    assert!(store.write_git_object(9, b"no type").is_err());
    assert!(store.write_batch(&vec![]).is_empty());
    assert!(Arc::ptr_eq(&a, &store.sha1_index()));
    store.delete(id);
    assert!(Arc::ptr_eq(&a, &store.sha1_index()), "only writes and pack swaps drop the index");
    store.write_batch(&vec![b"one".to_vec(), b"two".to_vec()]);
    assert_eq!(store.sha1_index().len(), 2);
}

#[test]
fn sha1_index_leads_each_name_to_its_object() {
    let mut store = make_store();
    let packed = b"packed".to_vec();
    let pid = content_id(&packed);
    store.swap_packs(vec![pack_objects(&[(pid, 3, packed.clone(), blob_sha1(&packed))])]);
    let v0 = lines(300, "L");
    let v1 = replaced(&v0, "L100\n", "A\n");
    let id0 = store.write_git_object(3, &v0).unwrap();
    let id1 = store.write_git_object(3, &v1).unwrap();
    let a = store.sha1_index();
    assert!(store.deltify(id1, id0).unwrap());
    let b = store.sha1_index();
    assert!(Arc::ptr_eq(&a, &b), "the same objects under the same names");
    assert_eq!(b.len(), 3);
    for id in store.list_all_ids() {
        assert_eq!(b.get(&store.sha1_of(id).unwrap()).copied(), Some(id));
    }
}

#[test]
fn deltify_refuses_what_would_outgrow_the_chain() {
    let mut store = make_store();
    let text = lines(300, "L");
    let version = |n: usize| replaced(&text, "L100\n", &format!("V{n}\n"));
    let write = |store: &mut DiskObjectStore, n: usize| store.write_git_object(3, &version(n)).unwrap();
    let chain: Vec<ObjectId> = (0..50).map(|n| write(&mut store, n)).collect();
    for n in 1..49 {
        assert!(store.deltify(chain[n], chain[n - 1]).unwrap());
    }
    assert_eq!(store.chain_depth(chain[48]).unwrap(), 48);
    // One object on top of the target still fits, two do not.
    let (target, one, two) = (write(&mut store, 100), write(&mut store, 101), write(&mut store, 102));
    assert!(store.deltify(one, target).unwrap());
    assert!(store.deltify(two, one).unwrap());
    assert!(!store.deltify(target, chain[48]).unwrap(), "two would be out of reach");
    for (id, n) in [(target, 100), (one, 101), (two, 102)] {
        assert_eq!(store.read(id).unwrap(), version(n));
    }
    assert!(store.deltify(target, chain[47]).unwrap());
    assert_eq!(store.read(two).unwrap(), version(102), "at the limit it is still read");
    let (target, one) = (write(&mut store, 200), write(&mut store, 201));
    assert!(store.deltify(one, target).unwrap());
    assert!(store.deltify(target, chain[48]).unwrap());
    assert_eq!(store.read(one).unwrap(), version(201));
    assert!(!store.deltify(chain[49], target).unwrap(), "the base is too deep itself");
}

#[test]
fn repack_leaves_out_what_it_cannot_read() {
    let gone = b"body in the cold tier".to_vec();
    let id = content_id(&gone);
    let (_, lidx) = pack_bytes(&[(id, 3, gone.clone(), blob_sha1(&gone))]);
    let mut store = DiskObjectStore::new(vec![PackFiles { body: None, lidx: Some(lidx) }]);
    let kept = store.write_git_object(3, b"here").unwrap();
    let (stats, files) = repack(&mut store, 2).unwrap();
    assert_eq!((stats.objects_seen, stats.objects_packed), (2, 1));
    assert_eq!(read_lidx(&files.lidx).unwrap().len(), 1);
    assert_eq!(store.read(kept).unwrap(), b"here");
    assert!(!store.has(id));
}

#[test]
fn a_repack_removes_the_old_packs_only() {
    let old = vec![b"a.pack".to_vec(), b"new.pack".to_vec()];
    let names = |v: &[&str]| v.iter().map(|n| n.as_bytes().to_vec()).collect::<Vec<_>>();
    assert_eq!(superseded_files(&old, b"new"), names(&["a.pack", "a.idx", "a.lidx"]));
    assert!(superseded_files(&vec![], b"new").is_empty());
}

#[test]
fn repack_counts_what_is_left_in_the_directory() {
    let mut store = make_store();
    store.write_git_object(3, b"one").unwrap();
    let (mut stats, _) = repack(&mut store, 2).unwrap();
    assert_eq!((stats.files_before, stats.files_after, stats.bytes_after), (3, 0, 0));
    stats.count_pack_dir(&vec![10, 20, 30, 4]);
    assert_eq!((stats.files_after, stats.bytes_after), (4, 64));
    stats.count_pack_dir(&vec![u64::MAX, 1]);
    assert_eq!(stats.bytes_after, u64::MAX);
}

#[test]
fn header_sizes_stop_at_sixty_four_bits() {
    let header = |last: u8| {
        let mut h = vec![0xb0u8];
        h.extend_from_slice(&[0x80; 8]);
        h.push(last);
        h
    };
    let corrupt = Err(LedgeError::Corruption(Corruption::PackObjectHeader));
    assert_eq!(parse_pack_obj_header(&header(0x10), 0), corrupt, "2^64 does not fit");
    assert_eq!(parse_pack_obj_header(&header(0x7f), 0), corrupt);
    assert_eq!(parse_pack_obj_header(&header(0x08), 0), Ok((3, 1 << 63, 10)));
    let mut widest = vec![0xbfu8];
    widest.extend_from_slice(&[0xff; 8]);
    widest.push(0x0f);
    assert_eq!(parse_pack_obj_header(&widest, 0), Ok((3, u64::MAX, 10)));
    let mut long = vec![0xb0u8];
    long.extend_from_slice(&[0x80; 9]);
    long.push(0);
    assert_eq!(parse_pack_obj_header(&long, 0), corrupt, "eleven bytes are too many");
}

#[test]
fn loose_shadows_pack() {
    let mut store = make_store();
    let c = b"loose wins".to_vec();
    let id = store.write_git_object(3, &c).unwrap();
    let sha1 = store.sha1_of(id).unwrap();
    store.swap_packs(vec![pack_objects(&[(id, 3, c.clone(), sha1)])]);
    assert_eq!(store.read(id).unwrap().as_slice(), c.as_slice());
}

#[test]
fn body_elsewhere_is_reported() {
    let mut store = make_store();
    let content = lines(40, "x");
    let id = content_id(&content);
    let mut p = pack_objects(&[(id, 3, content.clone(), git_sha1(3, &content))]);
    p.body = None;
    store.swap_packs(vec![p]);
    assert_eq!(store.missing_body(id), Some(0));
    assert_eq!(store.read(id).err(), Some(LedgeError::Unavailable));
    assert_eq!(store.git_type_of(id), Ok(3));
    assert!(store.has(id));
}

// The private pack format.

fn id(n: u8) -> ObjectId {
    ObjectId::from_bytes([n; 32])
}

fn record(n: u8, bytes: &[u8]) -> Record {
    Record { id: id(n), bytes: bytes.to_vec() }
}

#[test]
fn pack_roundtrips() {
    let objs = vec![
        record(1, b"first record bytes (a loose object file image)"),
        record(2, &[0u8; 5000]),
        record(3, b""),
    ];
    let w = PackWriter::write(&objs);
    let pf = PackFile::open(&w.pack, &w.idx).unwrap();
    for r in &objs {
        assert!(pf.contains(r.id));
        assert_eq!(pf.get(&w.pack, r.id).unwrap(), r.bytes);
    }
    assert!(pf.get(&w.pack, id(99)).is_none(), "absent id");
    assert_eq!(pf.ids().len(), 3);
    assert_eq!(w.name, hex::encode(blake3::hash(&w.pack).as_bytes()).into_bytes());
    assert_eq!(&w.pack[..10], b"PACKL\0\x01\0\0\0");
}

#[test]
fn corrupt_pack_is_clean_error_no_panic() {
    let w = PackWriter::write(&vec![record(1, b"x")]);
    let reopened = PackFile::open(b"garbage", &w.idx);
    assert!(reopened.is_err() || reopened.unwrap().get(b"garbage", id(1)).is_none(), "no panic on corrupt pack");
    assert_eq!(PackFile::open(b"garbage", &w.idx).err(), Some(LedgeError::Corruption(Corruption::PackMagic)));
}

#[test]
fn pack_exposes_sha1_map() {
    let mut rec = vec![0u8; 24];
    rec[0..20].copy_from_slice(&[9u8; 20]);
    rec.extend_from_slice(b"body");
    let oid = ObjectId::from_bytes([3u8; 32]);
    let w = PackWriter::write(&vec![Record { id: oid, bytes: rec }]);
    let re = PackFile::open(&w.pack, &w.idx).unwrap();
    assert_eq!(re.sha1_map().get(&[9u8; 20]).copied(), Some(oid));
    assert!(re.contains(oid));
}

#[test]
fn missing_idx_is_error() {
    let w = PackWriter::write(&vec![record(7, b"y")]);
    assert!(PackFile::open(&w.pack, &[]).is_err());
    assert_eq!(PackFile::open(&w.pack, &w.idx[..10]).err(), Some(LedgeError::Corruption(Corruption::PackIndex)));
}

// The object graph.

#[test]
fn tree_child_sha1s_in_repo_skips_gitlinks() {
    let mut tree = Vec::new();
    tree.extend_from_slice(b"100644 file\0");
    tree.extend_from_slice(&[0x11u8; 20]);
    tree.extend_from_slice(b"160000 vendor/lib\0");
    tree.extend_from_slice(&[0x22u8; 20]);
    tree.extend_from_slice(b"40000 dir\0");
    tree.extend_from_slice(&[0x33u8; 20]);
    assert_eq!(
        tree_child_sha1s(&tree),
        vec![[0x11u8; 20], [0x22u8; 20], [0x33u8; 20]],
        "the plain walk returns every entry"
    );
    assert_eq!(
        tree_child_sha1s_in_repo(&tree),
        vec![[0x11u8; 20], [0x33u8; 20]],
        "the in-repo walk drops the gitlink"
    );
}

#[test]
fn tree_entries_parses_names_and_shas() {
    let mut tree = Vec::new();
    tree.extend_from_slice(b"100644 a.txt\0");
    tree.extend_from_slice(&[0x11u8; 20]);
    tree.extend_from_slice(b"40000 dir\0");
    tree.extend_from_slice(&[0x22u8; 20]);
    let entries = tree_entries(&tree);
    assert_eq!(entries.len(), 2);
    assert_eq!(entries[0], (b"a.txt".to_vec(), [0x11u8; 20]));
    assert_eq!(entries[1], (b"dir".to_vec(), [0x22u8; 20]));
    assert_eq!(tree_child_sha1s(&tree), entries.iter().map(|(_, s)| *s).collect::<Vec<_>>());
    let mut torn = tree.clone();
    torn.extend_from_slice(b"100644 b.txt\0\x01\x02");
    assert_eq!(tree_entries(&torn).len(), 2);
}

#[test]
fn header_parsers_tolerate_non_utf8_message_and_names() {
    let tree_hex = "00".repeat(20);
    let parent_hex = "11".repeat(20);
    let mut commit = Vec::new();
    commit.extend_from_slice(format!("tree {tree_hex}\n").as_bytes());
    commit.extend_from_slice(format!("parent {parent_hex}\n").as_bytes());
    commit.extend_from_slice(b"author N\xffme <n@x> 1 +0000\n");
    commit.extend_from_slice(b"committer N\xffme <n@x> 1 +0000\n\n");
    commit.extend_from_slice(b"message with raw bytes \xff\xfe and more\n");
    assert_eq!(
        commit_tree_sha1(&commit),
        Some([0x00u8; 20]),
        "tree must be found despite non-UTF-8 author/message"
    );
    assert_eq!(
        commit_parent_sha1s(&commit),
        vec![[0x11u8; 20]],
        "parent must be found despite non-UTF-8 author/message"
    );
    let obj_hex = "22".repeat(20);
    let mut tag = Vec::new();
    tag.extend_from_slice(format!("object {obj_hex}\n").as_bytes());
    tag.extend_from_slice(b"type commit\ntag v1\n");
    tag.extend_from_slice(b"tagger N\xffme <n@x> 1 +0000\n\n");
    tag.extend_from_slice(b"tag message \xff\n");
    assert_eq!(
        tag_object_sha1(&tag),
        Some([0x22u8; 20]),
        "tagged object must be found despite non-UTF-8 tagger/message"
    );
}

#[test]
fn header_lines_end_at_the_blank_line() {
    let body = format!("tree {}\n\nparent {}\n", "ab".repeat(20), "cd".repeat(20));
    assert_eq!(commit_parent_sha1s(body.as_bytes()), Vec::<[u8; 20]>::new());
    assert_eq!(commit_tree_sha1(body.as_bytes()), Some([0xab; 20]));
    assert_eq!(parse_hex_sha1(&"ab".repeat(20)), Some([0xab; 20]));
    assert_eq!(parse_hex_sha1(&"ab".repeat(19)), None);
    assert_eq!(parse_hex_sha1(&"zz".repeat(20)), None);
    let both = format!("tree {}\nparent {}\nparent {}\n\n", "01".repeat(20), "02".repeat(20), "03".repeat(20));
    assert_eq!(child_sha1s(1, both.as_bytes()), vec![[1; 20], [2; 20], [3; 20]]);
    assert_eq!(child_sha1s(3, both.as_bytes()), Vec::<[u8; 20]>::new());
}

/// A commit, its tree and the blob in the tree.
fn build_graph(store: &mut DiskObjectStore) -> (ObjectId, ObjectId, ObjectId) {
    let blob_id = store.write_git_object(3, b"file contents").unwrap();
    let blob_sha1 = store.sha1_of(blob_id).unwrap();
    let mut tree_body = Vec::new();
    tree_body.extend_from_slice(b"100644 file\0");
    tree_body.extend_from_slice(&blob_sha1);
    let tree_id = store.write_git_object(2, &tree_body).unwrap();
    let tree_sha1 = store.sha1_of(tree_id).unwrap();
    let commit_body = format!(
        "tree {}\nauthor a <a@x> 0 +0000\ncommitter a <a@x> 0 +0000\n\nmsg\n",
        hex::encode(tree_sha1)
    );
    let commit_id = store.write_git_object(1, commit_body.as_bytes()).unwrap();
    (commit_id, tree_id, blob_id)
}

#[test]
fn reachable_from_commit_includes_tree_and_blob() {
    let mut store = make_store();
    let (commit_id, tree_id, blob_id) = build_graph(&mut store);
    let mut reachable = reachable_from(&mut store, &vec![commit_id]).to_vec();
    let mut expected = vec![commit_id, tree_id, blob_id];
    reachable.sort_by_key(|i| *i.as_bytes());
    expected.sort_by_key(|i| *i.as_bytes());
    assert_eq!(reachable, expected, "closure must be commit + tree + blob");
}

#[test]
fn reachable_from_annotated_tag_includes_tagged_commit_closure() {
    let mut store = make_store();
    let (commit_id, tree_id, blob_id) = build_graph(&mut store);
    let commit_sha1 = store.sha1_of(commit_id).unwrap();
    let tag_body = format!(
        "object {}\ntype commit\ntag v1\ntagger t <t@x> 0 +0000\n\nrelease\n",
        hex::encode(commit_sha1)
    );
    let tag_id = store.write_git_object(4, tag_body.as_bytes()).unwrap();
    let reachable = reachable_from(&mut store, &vec![tag_id]);
    for (id, what) in [(tag_id, "tag"), (commit_id, "commit"), (tree_id, "tree"), (blob_id, "blob")] {
        assert!(reachable.contains(&id), "closure of an annotated tag must include the {what}");
    }
}

#[test]
fn reachable_from_excludes_unreachable_orphan_blob() {
    let mut store = make_store();
    let (commit_id, tree_id, blob_id) = build_graph(&mut store);
    let orphan_id = store.write_git_object(3, b"unreferenced orphan").unwrap();
    let reachable = reachable_from(&mut store, &vec![commit_id]);
    assert!(reachable.contains(&commit_id));
    assert!(reachable.contains(&tree_id));
    assert!(reachable.contains(&blob_id));
    assert!(!reachable.contains(&orphan_id), "orphan blob must NOT be reachable from the commit root");
}

#[test]
fn reachable_from_no_roots_is_empty() {
    let mut store = make_store();
    let _ = build_graph(&mut store);
    let reachable = reachable_from(&mut store, &vec![]);
    assert!(reachable.to_vec().is_empty(), "no roots → nothing reachable");
}

#[test]
fn keep_set_closes_over_delta_bases() {
    let mut store = make_store();
    let v0 = lines(300, "L");
    let v1 = replaced(&v0, "L100\n", "A\n");
    let v2 = replaced(&v1, "L200\n", "B\n");
    let id0 = store.write_git_object(3, &v0).unwrap();
    let id1 = store.write_git_object(3, &v1).unwrap();
    let id2 = store.write_git_object(3, &v2).unwrap();
    let other = store.write_git_object(3, b"unrelated").unwrap();
    assert!(store.deltify(id1, id0).unwrap());
    assert!(store.deltify(id2, id1).unwrap());
    let mut set = IdSet::new();
    assert!(set.insert(id2));
    let keep = close_under_delta_bases(&store, set).unwrap();
    assert!(keep.contains(&id0) && keep.contains(&id1) && keep.contains(&id2));
    assert!(!keep.contains(&other));
    for id in store.list_all_ids() {
        if !keep.contains(&id) {
            store.delete(id);
        }
    }
    assert_eq!(store.list_all_ids().len(), 3);
    assert_eq!(store.read(id2).unwrap(), v2);
}

// Repacking.

#[test]
fn repack_shrinks_similar_objects() {
    let mut store = make_store();
    let base = lines(600, "line ");
    let mut ids = Vec::new();
    let mut contents = Vec::new();
    for v in 0..8 {
        let c = replaced(&base, "line 300\n", &format!("CHANGED v{v}\n"));
        ids.push(store.write_git_object(3, &c).unwrap());
        contents.push(c);
    }
    let before: u64 = ids.iter().map(|i| store.loose_bytes(*i).unwrap().len() as u64).sum();
    let (mut stats, files) = repack(&mut store, 0).unwrap();
    stats.count_pack_dir(&vec![files.pack.len() as u64, files.idx.len() as u64, files.lidx.len() as u64]);
    let after = (files.pack.len() + files.idx.len() + files.lidx.len()) as u64;
    assert!(stats.objects_deltified >= 1, "should deltify at least one ({stats:?})");
    assert!(after < before, "store shrank: {after} < {before}");
    assert_eq!(stats.bytes_before, before);
    assert_eq!(stats.bytes_after, after);
    for (i, c) in ids.iter().zip(&contents) {
        assert_eq!(store.read(*i).unwrap().as_slice(), c.as_slice(), "reads exact post-repack");
    }
}

#[test]
fn repack_consolidates_to_one_pack() {
    let mut store = make_store();
    let base = lines(600, "line ");
    let mut ids = Vec::new();
    let mut contents = Vec::new();
    for v in 0..10 {
        let c = replaced(&base, "line 300\n", &format!("V{v}\n"));
        ids.push(store.write_git_object(3, &c).unwrap());
        contents.push(c);
    }
    let loose_before = store.loose_count();
    assert!(loose_before >= 10);
    let (mut stats, files) = repack(&mut store, 0).unwrap();
    stats.count_pack_dir(&vec![files.pack.len() as u64, files.idx.len() as u64, files.lidx.len() as u64]);
    let loose_after = store.loose_count();
    assert_eq!(loose_after, 0, "all loose objects packed (was {loose_before})");
    assert!(stats.objects_packed >= ids.len(), "packed {} >= {}", stats.objects_packed, ids.len());
    for (i, c) in ids.iter().zip(&contents) {
        assert_eq!(store.read(*i).unwrap().as_slice(), c.as_slice(), "exact post-pack");
    }
    assert_eq!(files.name, hex::encode(blake3::hash(&files.pack).as_bytes()).into_bytes());
    assert_eq!(stats.files_before, 10);
    assert_eq!(stats.files_after, 3);
    // A second pass packs the packed objects again.
    let (again, files2) = repack(&mut store, 3).unwrap();
    assert_eq!(again.objects_packed, 10);
    assert_eq!(again.files_before, 3);
    assert_eq!(files2.name.len(), 64);
    for (i, c) in ids.iter().zip(&contents) {
        assert_eq!(store.read(*i).unwrap().as_slice(), c.as_slice());
    }
}

#[test]
fn repack_keeps_types_and_names() {
    let mut store = make_store();
    let (commit_id, tree_id, blob_id) = build_graph(&mut store);
    let names: Vec<[u8; 20]> = [commit_id, tree_id, blob_id].iter().map(|i| store.sha1_of(*i).unwrap()).collect();
    repack(&mut store, 0).unwrap();
    for (i, (id, t)) in [(commit_id, 1u8), (tree_id, 2), (blob_id, 3)].iter().enumerate() {
        assert_eq!(store.git_type_of(*id), Ok(*t));
        assert_eq!(store.sha1_of(*id), Ok(names[i]));
    }
    assert_eq!(reachable_from(&mut store, &vec![commit_id]).to_vec().len(), 3);
}
