//! Requests and responses.
use ledge::disk::DiskObjectStore;
use ledge::leases::{Lease, WorkspaceId};
use ledge::rpc::{
    commit_result, decode_request, encode_commit_outcome, encode_response, execute_object, fork_result, gc_result,
    list_result, method_name, parse_ref_names, plan, read_object_id, release_result, renew_result, resolve_ttl,
    workspace_result, write_workspace_info, CommitOutcome, DecodedRequest, DispatchResult, GcStats, RawRequest,
    Response, RpcFault, RpcOp, WorkspaceInfo,
};
use ledge::types::{Corruption, LedgeError, ObjectId, RefEntry, RefName};

/// Answers a request about objects.
fn dispatch(store: &mut DiskObjectStore, raw: &RawRequest) -> Response {
    let req = match decode_request(raw) {
        Ok(r) => r,
        Err(e) => return Response::Error(RpcFault::Store(e)),
    };
    match plan(&req, "root", 3600) {
        Ok(op) => encode_response(execute_object(store, &op).unwrap()),
        Err(e) => Response::Error(RpcFault::Store(e)),
    }
}

fn entry(byte: u8, hlc: u64, version: u64) -> RefEntry {
    RefEntry { target: ObjectId::from_bytes([byte; 32]), hlc, version }
}

fn lease(byte: u8) -> Lease {
    Lease {
        id: WorkspaceId::from_bytes([byte; 16]),
        source_refs: vec!["refs/heads/main".into()],
        created_at_ms: 1,
        expires_at_ms: 10_000,
        hlc: 5,
        generation: 2,
    }
}

#[test]
fn conflict_outcome_encodes_ok_false() {
    let msg = encode_commit_outcome(&CommitOutcome::Conflict {
        target: "refs/heads/main".to_string(),
        current: entry(7, 1, 9),
    });
    assert_eq!(msg.target, "refs/heads/main");
    assert!(!msg.ok);
    assert_eq!(msg.version, 9);
}

#[test]
fn ok_outcome_encodes_ok_true() {
    let msg = encode_commit_outcome(&CommitOutcome::Moved {
        target: "refs/heads/feature".to_string(),
        entry: entry(3, 2, 4),
    });
    assert_eq!(msg.target, "refs/heads/feature");
    assert!(msg.ok);
    assert_eq!(msg.version, 4);
}

#[test]
fn method_name_reads_union_tag() {
    assert_eq!(method_name(Some(&RawRequest::RunGc)), "runGc");
    assert_eq!(method_name(None), "unknown");
    assert_eq!(method_name(Some(&RawRequest::ListWorkspaces)), "listWorkspaces");
    assert_eq!(method_name(Some(&RawRequest::ReadObject { id: vec![] })), "readObject");
}

#[test]
fn write_then_read_object_roundtrips() {
    let mut store = DiskObjectStore::new(Vec::new());
    let content = b"hello capnp rpc";
    let id = match dispatch(&mut store, &RawRequest::WriteObject { git_type: 3, content: content.to_vec() }) {
        Response::ObjectId(id) => id,
        _ => panic!("expected objectId"),
    };
    match dispatch(&mut store, &RawRequest::ReadObject { id: id.as_bytes().to_vec() }) {
        Response::ObjectContent(c) => assert_eq!(c, content.to_vec()),
        _ => panic!("expected objectContent"),
    }
}

#[test]
fn read_missing_object_yields_error() {
    let mut store = DiskObjectStore::new(Vec::new());
    let out = dispatch(&mut store, &RawRequest::ReadObject { id: vec![0u8; 32] });
    assert!(matches!(out, Response::Error(_)));
}

#[test]
fn write_unknown_git_type_yields_error() {
    let mut store = DiskObjectStore::new(Vec::new());
    let out = dispatch(&mut store, &RawRequest::WriteObject { git_type: 99, content: b"x".to_vec() });
    assert!(matches!(out, Response::Error(_)));
}

#[test]
fn addresses_take_thirty_two_bytes() {
    assert_eq!(read_object_id(&vec![4; 32]), Ok(ObjectId::from_bytes([4; 32])));
    assert_eq!(read_object_id(&vec![4; 31]), Err(LedgeError::Corruption(Corruption::RequestAddress)));
    assert_eq!(read_object_id(&vec![4; 33]), Err(LedgeError::Corruption(Corruption::RequestAddress)));
}

#[test]
fn texts_are_utf8() {
    let bad = RawRequest::Release { workspace_id: vec![0xff] };
    assert_eq!(decode_request(&bad).err(), Some(LedgeError::Corruption(Corruption::RequestText)));
    let good = RawRequest::Commit {
        workspace_id: b"ws".to_vec(),
        mappings: vec![(b"a".to_vec(), b"b".to_vec())],
    };
    match decode_request(&good) {
        Ok(DecodedRequest::Commit { workspace_id, mappings }) => {
            assert_eq!(workspace_id, "ws");
            assert_eq!(mappings, vec![("a".to_string(), "b".to_string())]);
        }
        _ => panic!("expected Commit"),
    }
}

#[test]
fn a_ttl_of_zero_is_the_default() {
    assert_eq!(resolve_ttl(3600, 0), 3600);
    assert_eq!(resolve_ttl(3600, 60), 60);
}

#[test]
fn plans_check_names_and_identifiers() {
    let fork = DecodedRequest::Fork { sources: vec!["refs/heads/main".into()], ttl_seconds: 0 };
    match plan(&fork, "root", 3600) {
        Ok(RpcOp::Fork { tenant, sources, ttl_seconds }) => {
            assert_eq!(tenant, "root");
            assert_eq!(sources[0].as_str(), "refs/heads/main");
            assert_eq!(ttl_seconds, 3600);
        }
        _ => panic!("expected Fork"),
    }
    let bad = DecodedRequest::Fork { sources: vec!["a\0b".into()], ttl_seconds: 0 };
    assert_eq!(plan(&bad, "root", 3600).err(), Some(LedgeError::InvalidName));
    let renew = DecodedRequest::Renew { workspace_id: "nope".into(), ttl_seconds: 1 };
    assert_eq!(plan(&renew, "root", 3600).err(), Some(LedgeError::InvalidId));
    let commit = DecodedRequest::Commit {
        workspace_id: "00".repeat(16),
        mappings: vec![("refs/heads/a".into(), "a\0b".into())],
    };
    assert_eq!(plan(&commit, "root", 3600).err(), Some(LedgeError::InvalidName));
    assert_eq!(parse_ref_names(&vec!["a\0".into()]).err(), Some(LedgeError::InvalidName));
}

#[test]
fn unknown_workspaces_are_errors() {
    let text = "AB".repeat(16);
    match encode_response(workspace_result(&text, Ok(None))) {
        Response::Error(fault) => {
            assert_eq!(fault.unknown_workspace_text(), Some(format!("unknown workspace {text}")));
        }
        _ => panic!("expected error"),
    }
    match encode_response(workspace_result(&text, Err(LedgeError::Unavailable))) {
        Response::Error(fault) => {
            assert_eq!(fault.unknown_workspace_text(), None);
            assert!(matches!(fault, RpcFault::Store(LedgeError::Unavailable)));
        }
        _ => panic!("expected error"),
    }
}

#[test]
fn workspaces_and_leases_are_spelled_out() {
    let view = WorkspaceInfo {
        id: WorkspaceId::from_bytes([0xcd; 16]),
        lease: lease(0xcd),
        refs: vec![(RefName::new("refs/heads/main").unwrap(), entry(1, 2, 3))],
    };
    let msg = write_workspace_info(&view);
    assert_eq!(msg.id, "cd".repeat(16));
    assert_eq!(msg.expires_at_ms, 10_000);
    assert_eq!(msg.refs, vec![("refs/heads/main".to_string(), entry(1, 2, 3))]);
    match encode_response(DispatchResult::Lease(lease(1))) {
        Response::Lease(l) => {
            assert_eq!(l.id, "01".repeat(16));
            assert_eq!((l.expires_at_ms, l.created_at_ms, l.generation), (10_000, 1, 2));
        }
        _ => panic!("expected lease"),
    }
    match encode_response(DispatchResult::GcStats(GcStats { scanned: 1, reachable: 2, reclaimed: 3, bytes_freed: 4 })) {
        Response::GcStats { scanned, reachable, reclaimed, bytes_freed } => {
            assert_eq!((scanned, reachable, reclaimed, bytes_freed), (1, 2, 3, 4));
        }
        _ => panic!("expected gcStats"),
    }
    assert!(matches!(encode_response(DispatchResult::Done), Response::Done));
}

#[test]
fn requests_for_others_leave_the_objects_alone() {
    let mut store = DiskObjectStore::new(Vec::new());
    assert!(execute_object(&mut store, &RpcOp::RunGc).is_none());
    assert!(execute_object(&mut store, &RpcOp::ListWorkspaces { tenant: "acme".into() }).is_none());
    assert_eq!(store.loose_count(), 0);
}

// Tenants.

/// Workspaces of several tenants on one node. It goes by the tenant that an operation
/// carries.
struct Node {
    workspaces: Vec<(String, WorkspaceInfo)>,
    durable: Vec<String>,
}

impl Node {
    fn new() -> Node {
        Node { workspaces: Vec::new(), durable: Vec::new() }
    }

    fn own(&mut self, tenant: &str, id: WorkspaceId) -> Result<&mut WorkspaceInfo, LedgeError> {
        let mut all = self.workspaces.iter_mut();
        all.find(|(t, w)| t == tenant && w.id == id).map(|(_, w)| w).ok_or(LedgeError::InvalidId)
    }

    fn dispatch(&mut self, tenant: &str, raw: &RawRequest) -> Response {
        let op = match plan(&decode_request(raw).unwrap(), tenant, 3600) {
            Ok(op) => op,
            Err(e) => return Response::Error(RpcFault::Store(e)),
        };
        encode_response(match op {
            RpcOp::Fork { tenant, .. } => {
                let id = self.workspaces.len() as u8 + 1;
                self.workspaces.push((tenant, view(id)));
                fork_result(Ok(view(id)))
            }
            RpcOp::Commit { tenant, id, mappings } => match self.own(&tenant, id) {
                Ok(_) => {
                    self.durable.extend(mappings.iter().map(|(_, d)| d.as_str().to_string()));
                    commit_result(Ok(Vec::new()))
                }
                Err(e) => commit_result(Err(e)),
            },
            RpcOp::Renew { tenant, id, ttl_seconds } => renew_result(self.own(&tenant, id).map(|w| {
                w.lease.expires_at_ms += ttl_seconds * 1000;
                w.lease.duplicate()
            })),
            RpcOp::Release { tenant, id } => match self.own(&tenant, id) {
                Ok(_) => {
                    self.workspaces.retain(|(_, w)| w.id != id);
                    release_result(Ok(()))
                }
                Err(e) => release_result(Err(e)),
            },
            RpcOp::GetWorkspace { tenant, id, text } => {
                workspace_result(&text, Ok(self.own(&tenant, id).ok().map(|w| view(w.id.bytes[0]))))
            }
            RpcOp::ListWorkspaces { tenant } => {
                let mine = self.workspaces.iter().filter(|(t, _)| *t == tenant);
                list_result(Ok(mine.map(|(_, w)| view(w.id.bytes[0])).collect()))
            }
            _ => panic!("no work on workspaces"),
        })
    }
}

fn view(byte: u8) -> WorkspaceInfo {
    WorkspaceInfo { id: WorkspaceId::from_bytes([byte; 16]), lease: lease(byte), refs: Vec::new() }
}

fn fork(node: &mut Node, tenant: &str) -> String {
    let sources = vec![b"refs/heads/main".to_vec()];
    match node.dispatch(tenant, &RawRequest::Fork { sources, ttl_seconds: 3600 }) {
        Response::Workspace(w) => w.id,
        _ => panic!("expected workspace from fork"),
    }
}

fn get(ws: &str) -> RawRequest {
    RawRequest::GetWorkspace { workspace_id: ws.as_bytes().to_vec() }
}

fn renew(ws: &str, ttl_seconds: u64) -> RawRequest {
    RawRequest::Renew { workspace_id: ws.as_bytes().to_vec(), ttl_seconds }
}

fn release(ws: &str) -> RawRequest {
    RawRequest::Release { workspace_id: ws.as_bytes().to_vec() }
}

#[test]
fn cross_tenant_workspace_ops_are_isolated() {
    let mut node = Node::new();
    let ws_id = fork(&mut node, "acme");
    assert!(matches!(node.dispatch("globex", &get(&ws_id)), Response::Error(_)));
    assert!(matches!(node.dispatch("globex", &renew(&ws_id, 60)), Response::Error(_)));
    let ws_ref = format!("refs/workspaces/{ws_id}/heads/main");
    let commit = RawRequest::Commit {
        workspace_id: ws_id.as_bytes().to_vec(),
        mappings: vec![(ws_ref.into_bytes(), b"refs/heads/feature".to_vec())],
    };
    assert!(matches!(node.dispatch("globex", &commit), Response::Error(_)));
    assert!(node.durable.is_empty());
    assert!(matches!(node.dispatch("globex", &release(&ws_id)), Response::Error(_)));
    match node.dispatch("acme", &get(&ws_id)) {
        Response::Workspace(w) => {
            assert_eq!(w.id, ws_id);
            assert_eq!(w.expires_at_ms, 10_000);
        }
        _ => panic!("acme must retain its workspace"),
    }
}

#[test]
fn same_tenant_workspace_ops_succeed() {
    let mut node = Node::new();
    let ws_id = fork(&mut node, "acme");
    assert!(matches!(node.dispatch("acme", &renew(&ws_id, 3600)), Response::Lease(_)));
    assert!(matches!(node.dispatch("acme", &release(&ws_id)), Response::Done));
}

#[test]
fn list_workspaces_is_tenant_scoped() {
    let mut node = Node::new();
    let acme_ws = fork(&mut node, "acme");
    let globex_ws = fork(&mut node, "globex");
    assert_ne!(acme_ws, globex_ws);
    match node.dispatch("acme", &RawRequest::ListWorkspaces) {
        Response::WorkspaceList(list) => {
            assert_eq!(list.len(), 1, "acme sees only its own");
            assert_eq!(list[0].id, acme_ws);
        }
        _ => panic!("expected workspaceList"),
    }
    match node.dispatch("globex", &RawRequest::ListWorkspaces) {
        Response::WorkspaceList(list) => {
            assert_eq!(list.len(), 1, "globex sees only its own");
            assert_eq!(list[0].id, globex_ws);
        }
        _ => panic!("expected workspaceList"),
    }
}

#[test]
fn every_workspace_operation_carries_the_tenant() {
    let ws = "0a".repeat(16);
    let id = WorkspaceId::from_bytes([0x0a; 16]);
    let requests = vec![
        DecodedRequest::Fork { sources: vec!["refs/heads/main".into()], ttl_seconds: 0 },
        DecodedRequest::Commit { workspace_id: ws.clone(), mappings: vec![] },
        DecodedRequest::Renew { workspace_id: ws.clone(), ttl_seconds: 5 },
        DecodedRequest::Release { workspace_id: ws.clone() },
        DecodedRequest::GetWorkspace { workspace_id: ws },
        DecodedRequest::ListWorkspaces,
    ];
    for req in &requests {
        for want in ["acme", "globex"] {
            let (tenant, named) = match plan(req, want, 3600) {
                Ok(RpcOp::Fork { tenant, .. }) => (tenant, id),
                Ok(RpcOp::Commit { tenant, id, .. }) => (tenant, id),
                Ok(RpcOp::Renew { tenant, id, .. }) => (tenant, id),
                Ok(RpcOp::Release { tenant, id }) => (tenant, id),
                Ok(RpcOp::GetWorkspace { tenant, id, text }) => {
                    assert_eq!(text, id.to_hex());
                    (tenant, id)
                }
                Ok(RpcOp::ListWorkspaces { tenant }) => (tenant, id),
                _ => panic!("expected work on workspaces"),
            };
            assert_eq!(tenant, want);
            assert_eq!(named, id);
        }
    }
}

#[test]
fn refusals_of_the_service_are_errors() {
    let refused = || LedgeError::Unavailable;
    let results = vec![
        fork_result(Err(refused())),
        commit_result(Err(refused())),
        renew_result(Err(refused())),
        release_result(Err(refused())),
        list_result(Err(refused())),
        gc_result(Err(refused())),
    ];
    for r in results {
        assert!(matches!(encode_response(r), Response::Error(RpcFault::Store(LedgeError::Unavailable))));
    }
    let stats = GcStats { scanned: 1, reachable: 0, reclaimed: 1, bytes_freed: 30 };
    assert!(matches!(gc_result(Ok(stats)), DispatchResult::GcStats(s) if s == stats));
    let moved = CommitOutcome::Moved { target: "refs/heads/feature".into(), entry: entry(1, 2, 3) };
    assert!(matches!(commit_result(Ok(vec![moved])), DispatchResult::CommitOutcomes(v) if v.len() == 1));
}
