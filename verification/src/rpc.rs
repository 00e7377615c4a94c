//! Requests of the control plane: what a message holds, what is to be done for it,
//! and what is answered. Failures of the work itself are answers too; only a message
//! that cannot be understood is refused.

use vstd::prelude::*;
use crate::codec::copy_bytes;
use crate::disk;
use crate::disk::DiskObjectStore;
use crate::hexcode;
use crate::leases::{Lease, WorkspaceId};
use crate::object_file::id_at;
use crate::types;
use crate::types::{Corruption, LedgeError, ObjectId, RefEntry, RefName};

verus! {

/// A request as the message gives it: texts and addresses are bytes.
pub enum RawRequest {
    WriteObject { git_type: u8, content: Vec<u8> },
    ReadObject { id: Vec<u8> },
    Fork { sources: Vec<Vec<u8>>, ttl_seconds: u64 },
    Commit { workspace_id: Vec<u8>, mappings: Vec<(Vec<u8>, Vec<u8>)> },
    Renew { workspace_id: Vec<u8>, ttl_seconds: u64 },
    Release { workspace_id: Vec<u8> },
    GetWorkspace { workspace_id: Vec<u8> },
    ListWorkspaces,
    RunGc,
}

/// A request that was understood.
pub enum DecodedRequest {
    WriteObject { git_type: u8, content: Vec<u8> },
    ReadObject { id: ObjectId },
    Fork { sources: Vec<String>, ttl_seconds: u64 },
    Commit { workspace_id: String, mappings: Vec<(String, String)> },
    Renew { workspace_id: String, ttl_seconds: u64 },
    Release { workspace_id: String },
    GetWorkspace { workspace_id: String },
    ListWorkspaces,
    RunGc,
}

/// The work that a request asks for. Work on workspaces is done for a tenant, which
/// sees its own workspaces alone.
#[allow(inconsistent_fields)]
pub enum RpcOp {
    WriteObject { git_type: u8, content: Vec<u8> },
    ReadObject { id: ObjectId },
    Fork { tenant: String, sources: Vec<RefName>, ttl_seconds: u64 },
    Commit { tenant: String, id: WorkspaceId, mappings: Vec<(RefName, RefName)> },
    Renew { tenant: String, id: WorkspaceId, ttl_seconds: u64 },
    Release { tenant: String, id: WorkspaceId },
    /// Carries the text by which the request names the workspace.
    GetWorkspace { tenant: String, id: WorkspaceId, text: String },
    ListWorkspaces { tenant: String },
    RunGc,
}

/// The name of a request, for metrics. A message that cannot be read is unknown.
pub fn method_name(request: Option<&RawRequest>) -> (r: &'static str)
    ensures
        r@ == match request {
            None => "unknown"@,
            Some(RawRequest::WriteObject { .. }) => "writeObject"@,
            Some(RawRequest::ReadObject { .. }) => "readObject"@,
            Some(RawRequest::Fork { .. }) => "fork"@,
            Some(RawRequest::Commit { .. }) => "commit"@,
            Some(RawRequest::Renew { .. }) => "renew"@,
            Some(RawRequest::Release { .. }) => "release"@,
            Some(RawRequest::GetWorkspace { .. }) => "getWorkspace"@,
            Some(RawRequest::ListWorkspaces) => "listWorkspaces"@,
            Some(RawRequest::RunGc) => "runGc"@,
        },
{
    match request {
        None => "unknown",
        Some(RawRequest::WriteObject { .. }) => "writeObject",
        Some(RawRequest::ReadObject { .. }) => "readObject",
        Some(RawRequest::Fork { .. }) => "fork",
        Some(RawRequest::Commit { .. }) => "commit",
        Some(RawRequest::Renew { .. }) => "renew",
        Some(RawRequest::Release { .. }) => "release",
        Some(RawRequest::GetWorkspace { .. }) => "getWorkspace",
        Some(RawRequest::ListWorkspaces) => "listWorkspaces",
        Some(RawRequest::RunGc) => "runGc",
    }
}

// ---------------------------------------------------------------------------
// Understanding a message
// ---------------------------------------------------------------------------

/// `s` is the text with the given bytes.
pub open spec fn text_is(s: String, bytes: Seq<u8>) -> bool {
    vstd::utf8::encode_utf8(s@) == bytes
}

/// All texts are UTF-8.
pub open spec fn texts_ok(v: Seq<Vec<u8>>) -> bool {
    forall|i: int| 0 <= i < v.len() ==> vstd::utf8::valid_utf8(#[trigger] v[i]@)
}

/// All texts of the mappings are UTF-8.
pub open spec fn pairs_ok(v: Seq<(Vec<u8>, Vec<u8>)>) -> bool {
    forall|i: int|
        0 <= i < v.len() ==> vstd::utf8::valid_utf8((#[trigger] v[i]).0@)
            && vstd::utf8::valid_utf8(v[i].1@)
}

/// Why a message cannot be understood, if it cannot.
pub open spec fn message_fault(raw: RawRequest) -> Option<Corruption> {
    match raw {
        RawRequest::WriteObject { .. } => None,
        RawRequest::ReadObject { id } => if id@.len() == 32 {
            None
        } else {
            Some(Corruption::RequestAddress)
        },
        RawRequest::Fork { sources, .. } => if texts_ok(sources@) {
            None
        } else {
            Some(Corruption::RequestText)
        },
        RawRequest::Commit { workspace_id, mappings } => if vstd::utf8::valid_utf8(workspace_id@)
            && pairs_ok(mappings@) {
            None
        } else {
            Some(Corruption::RequestText)
        },
        RawRequest::Renew { workspace_id, .. } => text_fault(workspace_id@),
        RawRequest::Release { workspace_id } => text_fault(workspace_id@),
        RawRequest::GetWorkspace { workspace_id } => text_fault(workspace_id@),
        RawRequest::ListWorkspaces => None,
        RawRequest::RunGc => None,
    }
}

/// Why a text cannot be understood, if it cannot.
pub open spec fn text_fault(bytes: Seq<u8>) -> Option<Corruption> {
    if vstd::utf8::valid_utf8(bytes) {
        None
    } else {
        Some(Corruption::RequestText)
    }
}

/// `d` is what the message says.
pub open spec fn understood(raw: RawRequest, d: DecodedRequest) -> bool {
    match (raw, d) {
        (
            RawRequest::WriteObject { git_type, content },
            DecodedRequest::WriteObject { git_type: t, content: c },
        ) => t == git_type && c@ == content@,
        (RawRequest::ReadObject { id }, DecodedRequest::ReadObject { id: i }) => i.bytes@ == id@,
        (
            RawRequest::Fork { sources, ttl_seconds },
            DecodedRequest::Fork { sources: s, ttl_seconds: t },
        ) => t == ttl_seconds && s@.len() == sources@.len() && forall|i: int|
            0 <= i < s@.len() ==> text_is(#[trigger] s@[i], sources@[i]@),
        (
            RawRequest::Commit { workspace_id, mappings },
            DecodedRequest::Commit { workspace_id: w, mappings: m },
        ) => text_is(w, workspace_id@) && m@.len() == mappings@.len() && forall|i: int|
            0 <= i < m@.len() ==> text_is((#[trigger] m@[i]).0, mappings@[i].0@) && text_is(
                m@[i].1,
                mappings@[i].1@,
            ),
        (
            RawRequest::Renew { workspace_id, ttl_seconds },
            DecodedRequest::Renew { workspace_id: w, ttl_seconds: t },
        ) => t == ttl_seconds && text_is(w, workspace_id@),
        (
            RawRequest::Release { workspace_id },
            DecodedRequest::Release { workspace_id: w },
        ) => text_is(w, workspace_id@),
        (
            RawRequest::GetWorkspace { workspace_id },
            DecodedRequest::GetWorkspace { workspace_id: w },
        ) => text_is(w, workspace_id@),
        (RawRequest::ListWorkspaces, DecodedRequest::ListWorkspaces) => true,
        (RawRequest::RunGc, DecodedRequest::RunGc) => true,
        _ => false,
    }
}

fn read_text(bytes: &Vec<u8>) -> (r: Result<String, LedgeError>)
    ensures
        match r {
            Ok(s) => vstd::utf8::valid_utf8(bytes@) && text_is(s, bytes@),
            Err(e) => !vstd::utf8::valid_utf8(bytes@) && e == LedgeError::Corruption(
                Corruption::RequestText,
            ),
        },
{
    match types::string_from_utf8(copy_bytes(bytes.as_slice())) {
        Some(s) => Ok(s),
        None => Err(LedgeError::Corruption(Corruption::RequestText)),
    }
}

fn read_texts(v: &Vec<Vec<u8>>) -> (r: Result<Vec<String>, LedgeError>)
    ensures
        match r {
            Ok(s) => texts_ok(v@) && s.len() == v.len() && forall|i: int|
                0 <= i < s.len() ==> text_is(#[trigger] s@[i], v@[i]@),
            Err(e) => !texts_ok(v@) && e == LedgeError::Corruption(Corruption::RequestText),
        },
{
    let mut out: Vec<String> = Vec::new();
    let mut i: usize = 0;
    while i < v.len()
        invariant
            i <= v.len(),
            out.len() == i,
            forall|j: int| 0 <= j < i ==> vstd::utf8::valid_utf8(#[trigger] v@[j]@),
            forall|j: int| 0 <= j < i ==> text_is(#[trigger] out@[j], v@[j]@),
        decreases v.len() - i,
    {
        match read_text(&v[i]) {
            Ok(s) => {
                out.push(s);
            },
            Err(e) => {
                assert(!vstd::utf8::valid_utf8(v@[i as int]@));
                return Err(e);
            },
        }
        i += 1;
    }
    Ok(out)
}

fn read_pairs(v: &Vec<(Vec<u8>, Vec<u8>)>) -> (r: Result<Vec<(String, String)>, LedgeError>)
    ensures
        match r {
            Ok(s) => pairs_ok(v@) && s.len() == v.len() && forall|i: int|
                0 <= i < s.len() ==> text_is((#[trigger] s@[i]).0, v@[i].0@) && text_is(
                    s@[i].1,
                    v@[i].1@,
                ),
            Err(e) => !pairs_ok(v@) && e == LedgeError::Corruption(Corruption::RequestText),
        },
{
    let mut out: Vec<(String, String)> = Vec::new();
    let mut i: usize = 0;
    while i < v.len()
        invariant
            i <= v.len(),
            out.len() == i,
            forall|j: int|
                0 <= j < i ==> vstd::utf8::valid_utf8((#[trigger] v@[j]).0@)
                    && vstd::utf8::valid_utf8(v@[j].1@),
            forall|j: int|
                0 <= j < i ==> text_is((#[trigger] out@[j]).0, v@[j].0@) && text_is(
                    out@[j].1,
                    v@[j].1@,
                ),
        decreases v.len() - i,
    {
        let a = match read_text(&v[i].0) {
            Ok(s) => s,
            Err(e) => {
                assert(!vstd::utf8::valid_utf8(v@[i as int].0@));
                return Err(e);
            },
        };
        let b = match read_text(&v[i].1) {
            Ok(s) => s,
            Err(e) => {
                assert(!vstd::utf8::valid_utf8(v@[i as int].1@));
                return Err(e);
            },
        };
        out.push((a, b));
        i += 1;
    }
    Ok(out)
}

/// The address in a message, which takes exactly 32 bytes.
pub fn read_object_id(bytes: &Vec<u8>) -> (r: Result<ObjectId, LedgeError>)
    ensures
        match r {
            Ok(id) => id.bytes@ == bytes@,
            Err(e) => bytes.len() != 32 && e == LedgeError::Corruption(Corruption::RequestAddress),
        },
{
    if bytes.len() != 32 {
        return Err(LedgeError::Corruption(Corruption::RequestAddress));
    }
    let id = id_at(bytes.as_slice(), 0);
    assert(id.bytes@ =~= bytes@);
    Ok(id)
}

/// Understands a message.
#[verifier::rlimit(40)]
pub fn decode_request(raw: &RawRequest) -> (r: Result<DecodedRequest, LedgeError>)
    ensures
        match r {
            Ok(d) => message_fault(*raw) is None && understood(*raw, d),
            Err(e) => message_fault(*raw) matches Some(c) && e == LedgeError::Corruption(c),
        },
        match *raw {
            RawRequest::WriteObject { git_type, content } => {
                r matches Ok(DecodedRequest::WriteObject { git_type: t, content: c }) && t == git_type
                    && c@ == content@
            },
            RawRequest::ReadObject { id } => {
                &&& r is Ok <==> id@.len() == 32
                &&& r matches Ok(d) ==> (d matches DecodedRequest::ReadObject { id: i } && i.bytes@
                    == id@)
            },
            RawRequest::Fork { sources, ttl_seconds } => {
                &&& r is Ok <==> forall|i: int|
                    0 <= i < sources@.len() ==> vstd::utf8::valid_utf8((#[trigger] sources@[i])@)
                &&& r matches Ok(d) ==> {
                    &&& d matches DecodedRequest::Fork { sources: s, ttl_seconds: t }
                    &&& t == ttl_seconds
                    &&& s@.len() == sources@.len()
                    &&& forall|i: int|
                        0 <= i < sources@.len() ==> vstd::utf8::encode_utf8((#[trigger] s@[i])@)
                            == sources@[i]@
                }
            },
            RawRequest::Commit { workspace_id, mappings } => {
                &&& r is Ok <==> vstd::utf8::valid_utf8(workspace_id@) && forall|i: int|
                    0 <= i < mappings@.len() ==> vstd::utf8::valid_utf8((#[trigger] mappings@[i]).0@)
                        && vstd::utf8::valid_utf8(mappings@[i].1@)
                &&& r matches Ok(d) ==> {
                    &&& d matches DecodedRequest::Commit { workspace_id: w, mappings: m }
                    &&& vstd::utf8::encode_utf8(w@) == workspace_id@
                    &&& m@.len() == mappings@.len()
                    &&& forall|i: int|
                        0 <= i < mappings@.len() ==> vstd::utf8::encode_utf8((#[trigger] m@[i]).0@)
                            == mappings@[i].0@ && vstd::utf8::encode_utf8(m@[i].1@) == mappings@[i].1@
                }
            },
            RawRequest::Renew { workspace_id, ttl_seconds } => {
                &&& r is Ok <==> vstd::utf8::valid_utf8(workspace_id@)
                &&& r matches Ok(d) ==> (d matches DecodedRequest::Renew {
                    workspace_id: w,
                    ttl_seconds: t,
                } && t == ttl_seconds && vstd::utf8::encode_utf8(w@) == workspace_id@)
            },
            RawRequest::Release { workspace_id } => {
                &&& r is Ok <==> vstd::utf8::valid_utf8(workspace_id@)
                &&& r matches Ok(d) ==> (d matches DecodedRequest::Release { workspace_id: w }
                    && vstd::utf8::encode_utf8(w@) == workspace_id@)
            },
            RawRequest::GetWorkspace { workspace_id } => {
                &&& r is Ok <==> vstd::utf8::valid_utf8(workspace_id@)
                &&& r matches Ok(d) ==> (d matches DecodedRequest::GetWorkspace { workspace_id: w }
                    && vstd::utf8::encode_utf8(w@) == workspace_id@)
            },
            RawRequest::ListWorkspaces => r matches Ok(d) && d is ListWorkspaces,
            RawRequest::RunGc => r matches Ok(d) && d is RunGc,
        },
        r is Err ==> r == Err::<DecodedRequest, LedgeError>(
            LedgeError::Corruption(
                if *raw is ReadObject {
                    Corruption::RequestAddress
                } else {
                    Corruption::RequestText
                },
            ),
        ),
{
    match raw {
        RawRequest::WriteObject { git_type, content } => Ok(
            DecodedRequest::WriteObject {
                git_type: *git_type,
                content: copy_bytes(content.as_slice()),
            },
        ),
        RawRequest::ReadObject { id } => match read_object_id(id) {
            Ok(id) => Ok(DecodedRequest::ReadObject { id }),
            Err(e) => Err(e),
        },
        RawRequest::Fork { sources, ttl_seconds } => match read_texts(sources) {
            Ok(sources) => Ok(DecodedRequest::Fork { sources, ttl_seconds: *ttl_seconds }),
            Err(e) => Err(e),
        },
        RawRequest::Commit { workspace_id, mappings } => match read_text(workspace_id) {
            Ok(workspace_id) => match read_pairs(mappings) {
                Ok(mappings) => Ok(DecodedRequest::Commit { workspace_id, mappings }),
                Err(e) => Err(e),
            },
            Err(e) => Err(e),
        },
        RawRequest::Renew { workspace_id, ttl_seconds } => match read_text(workspace_id) {
            Ok(workspace_id) => Ok(
                DecodedRequest::Renew { workspace_id, ttl_seconds: *ttl_seconds },
            ),
            Err(e) => Err(e),
        },
        RawRequest::Release { workspace_id } => match read_text(workspace_id) {
            Ok(workspace_id) => Ok(DecodedRequest::Release { workspace_id }),
            Err(e) => Err(e),
        },
        RawRequest::GetWorkspace { workspace_id } => match read_text(workspace_id) {
            Ok(workspace_id) => Ok(DecodedRequest::GetWorkspace { workspace_id }),
            Err(e) => Err(e),
        },
        RawRequest::ListWorkspaces => Ok(DecodedRequest::ListWorkspaces),
        RawRequest::RunGc => Ok(DecodedRequest::RunGc),
    }
}

// ---------------------------------------------------------------------------
// What is to be done
// ---------------------------------------------------------------------------

/// How long a lease is to last: what was asked for, or the default where nothing was.
pub open spec fn lease_seconds(default_ttl_secs: u64, ttl_seconds: u64) -> u64 {
    if ttl_seconds == 0 {
        default_ttl_secs
    } else {
        ttl_seconds
    }
}

/// How long a lease is to last, in seconds.
pub fn resolve_ttl(default_ttl_secs: u64, ttl_seconds: u64) -> (r: u64)
    ensures
        r == lease_seconds(default_ttl_secs, ttl_seconds),
        ttl_seconds == 0 ==> r == default_ttl_secs,
        ttl_seconds != 0 ==> r == ttl_seconds,
{
    if ttl_seconds == 0 {
        default_ttl_secs
    } else {
        ttl_seconds
    }
}

/// The text can be the name of a reference.
pub open spec fn names_ref(s: String) -> bool {
    types::nul_free(vstd::utf8::encode_utf8(s@))
}

/// The text names a workspace: thirty-two hexadecimal digits.
pub open spec fn names_workspace(s: String) -> bool {
    let d = hexcode::decoded(vstd::utf8::encode_utf8(s@));
    d is Some && d->0.len() == 16
}

/// Why a request is refused before any work, if it is: a workspace that is no
/// workspace, or else a name that is no name.
pub open spec fn request_fault(req: DecodedRequest) -> Option<LedgeError> {
    match req {
        DecodedRequest::Fork { sources, .. } => if forall|i: int|
            0 <= i < sources@.len() ==> names_ref(#[trigger] sources@[i]) {
            None
        } else {
            Some(LedgeError::InvalidName)
        },
        DecodedRequest::Commit { workspace_id, mappings } => if !names_workspace(workspace_id) {
            Some(LedgeError::InvalidId)
        } else if forall|i: int|
            0 <= i < mappings@.len() ==> names_ref((#[trigger] mappings@[i]).0) && names_ref(
                mappings@[i].1,
            ) {
            None
        } else {
            Some(LedgeError::InvalidName)
        },
        DecodedRequest::Renew { workspace_id, .. } => workspace_fault(workspace_id),
        DecodedRequest::Release { workspace_id } => workspace_fault(workspace_id),
        DecodedRequest::GetWorkspace { workspace_id } => workspace_fault(workspace_id),
        _ => None,
    }
}

/// Why a text does not name a workspace, if it does not.
pub open spec fn workspace_fault(s: String) -> Option<LedgeError> {
    if names_workspace(s) {
        None
    } else {
        Some(LedgeError::InvalidId)
    }
}

/// `id` is the workspace that the text names.
pub open spec fn workspace_is(id: WorkspaceId, s: String) -> bool {
    hexcode::decoded(vstd::utf8::encode_utf8(s@)) == Some(id.bytes@)
}

/// The tenant that work is done for, where it is work on workspaces.
pub open spec fn op_tenant(op: RpcOp) -> Option<Seq<char>> {
    match op {
        RpcOp::Fork { tenant, .. } => Some(tenant@),
        RpcOp::Commit { tenant, .. } => Some(tenant@),
        RpcOp::Renew { tenant, .. } => Some(tenant@),
        RpcOp::Release { tenant, .. } => Some(tenant@),
        RpcOp::GetWorkspace { tenant, .. } => Some(tenant@),
        RpcOp::ListWorkspaces { tenant } => Some(tenant@),
        _ => None,
    }
}

/// `op` is the work that the request of `tenant` asks for.
pub open spec fn asks_for(
    req: DecodedRequest,
    tenant: Seq<char>,
    default_ttl_secs: u64,
    op: RpcOp,
) -> bool {
    &&& op_tenant(op) matches Some(t) ==> t == tenant
    &&& match (req, op) {
        (
            DecodedRequest::WriteObject { git_type, content },
            RpcOp::WriteObject { git_type: t, content: c },
        ) => t == git_type && c@ == content@,
        (DecodedRequest::ReadObject { id }, RpcOp::ReadObject { id: i }) => i == id,
        (
            DecodedRequest::Fork { sources, ttl_seconds },
            RpcOp::Fork { sources: s, ttl_seconds: t, .. },
        ) => t == lease_seconds(default_ttl_secs, ttl_seconds) && s@.len() == sources@.len()
            && forall|i: int|
            0 <= i < s@.len() ==> (#[trigger] s@[i])@ == vstd::utf8::encode_utf8(sources@[i]@),
        (
            DecodedRequest::Commit { workspace_id, mappings },
            RpcOp::Commit { id, mappings: m, .. },
        ) => workspace_is(id, workspace_id) && m@.len() == mappings@.len() && forall|i: int|
            0 <= i < m@.len() ==> (#[trigger] m@[i]).0@ == vstd::utf8::encode_utf8(
                mappings@[i].0@,
            ) && m@[i].1@ == vstd::utf8::encode_utf8(mappings@[i].1@),
        (
            DecodedRequest::Renew { workspace_id, ttl_seconds },
            RpcOp::Renew { id, ttl_seconds: t, .. },
        ) => t == lease_seconds(default_ttl_secs, ttl_seconds) && workspace_is(id, workspace_id),
        (DecodedRequest::Release { workspace_id }, RpcOp::Release { id, .. }) => workspace_is(
            id,
            workspace_id,
        ),
        (
            DecodedRequest::GetWorkspace { workspace_id },
            RpcOp::GetWorkspace { id, text, .. },
        ) => workspace_is(id, workspace_id) && text@ == workspace_id@,
        (DecodedRequest::ListWorkspaces, RpcOp::ListWorkspaces { .. }) => true,
        (DecodedRequest::RunGc, RpcOp::RunGc) => true,
        _ => false,
    }
}

/// Work on workspaces is always for the tenant that made the request, and no other
/// tenant's request asks for the same work.
pub proof fn work_is_for_its_tenant(
    req: DecodedRequest,
    tenant: Seq<char>,
    other: Seq<char>,
    default_ttl_secs: u64,
    op: RpcOp,
)
    requires
        asks_for(req, tenant, default_ttl_secs, op),
        !(req is WriteObject || req is ReadObject || req is RunGc),
    ensures
        op_tenant(op) == Some(tenant),
        asks_for(req, other, default_ttl_secs, op) ==> other == tenant,
{
}

/// Reads names of references; the first that is none ends it.
pub fn parse_ref_names(sources: &Vec<String>) -> (r: Result<Vec<RefName>, LedgeError>)
    ensures
        match r {
            Ok(names) => {
                &&& forall|i: int| 0 <= i < sources.len() ==> names_ref(#[trigger] sources@[i])
                &&& names.len() == sources.len()
                &&& forall|i: int|
                    0 <= i < names.len() ==> (#[trigger] names@[i])@ == vstd::utf8::encode_utf8(
                        sources@[i]@,
                    )
            },
            Err(e) => e == LedgeError::InvalidName && !(forall|i: int|
                0 <= i < sources.len() ==> names_ref(#[trigger] sources@[i])),
        },
        r is Ok <==> forall|i: int|
            0 <= i < sources@.len() ==> !vstd::utf8::encode_utf8((#[trigger] sources@[i])@).contains(0u8),
{
    let mut names: Vec<RefName> = Vec::new();
    let mut i: usize = 0;
    while i < sources.len()
        invariant
            i <= sources.len(),
            names.len() == i,
            forall|j: int| 0 <= j < i ==> names_ref(#[trigger] sources@[j]),
            forall|j: int|
                0 <= j < i ==> (#[trigger] names@[j])@ == vstd::utf8::encode_utf8(sources@[j]@),
        decreases sources.len() - i,
    {
        match RefName::new(sources[i].as_str()) {
            Ok(n) => {
                names.push(n);
            },
            Err(e) => {
                assert(!names_ref(sources@[i as int]));
                return Err(e);
            },
        }
        i += 1;
    }
    Ok(names)
}

fn parse_mappings(mappings: &Vec<(String, String)>) -> (r: Result<
    Vec<(RefName, RefName)>,
    LedgeError,
>)
    ensures
        match r {
            Ok(m) => {
                &&& forall|i: int|
                    0 <= i < mappings.len() ==> names_ref((#[trigger] mappings@[i]).0)
                        && names_ref(mappings@[i].1)
                &&& m.len() == mappings.len()
                &&& forall|i: int|
                    0 <= i < m.len() ==> (#[trigger] m@[i]).0@ == vstd::utf8::encode_utf8(
                        mappings@[i].0@,
                    ) && m@[i].1@ == vstd::utf8::encode_utf8(mappings@[i].1@)
            },
            Err(e) => e == LedgeError::InvalidName && !(forall|i: int|
                0 <= i < mappings.len() ==> names_ref((#[trigger] mappings@[i]).0) && names_ref(
                    mappings@[i].1,
                )),
        },
{
    let mut out: Vec<(RefName, RefName)> = Vec::new();
    let mut i: usize = 0;
    while i < mappings.len()
        invariant
            i <= mappings.len(),
            out.len() == i,
            forall|j: int|
                0 <= j < i ==> names_ref((#[trigger] mappings@[j]).0) && names_ref(mappings@[j].1),
            forall|j: int|
                0 <= j < i ==> (#[trigger] out@[j]).0@ == vstd::utf8::encode_utf8(
                    mappings@[j].0@,
                ) && out@[j].1@ == vstd::utf8::encode_utf8(mappings@[j].1@),
        decreases mappings.len() - i,
    {
        let a = match RefName::new(mappings[i].0.as_str()) {
            Ok(n) => n,
            Err(e) => {
                assert(!names_ref(mappings@[i as int].0));
                return Err(e);
            },
        };
        let b = match RefName::new(mappings[i].1.as_str()) {
            Ok(n) => n,
            Err(e) => {
                assert(!names_ref(mappings@[i as int].1));
                return Err(e);
            },
        };
        out.push((a, b));
        i += 1;
    }
    Ok(out)
}

/// The work that a request of a tenant asks for, or why it is refused.
#[verifier::rlimit(40)]
pub fn plan(req: &DecodedRequest, tenant: &str, default_ttl_secs: u64) -> (r: Result<
    RpcOp,
    LedgeError,
>)
    ensures
        match r {
            Ok(op) => request_fault(*req) is None && asks_for(
                *req,
                tenant@,
                default_ttl_secs,
                op,
            ),
            Err(e) => request_fault(*req) == Some(e),
        },
        r matches Ok(op) ==> match *req {
            DecodedRequest::WriteObject { git_type, content } => {
                op matches RpcOp::WriteObject { git_type: t, content: c } && t == git_type && c@
                    == content@
            },
            DecodedRequest::ReadObject { id } => op == (RpcOp::ReadObject { id }),
            DecodedRequest::Fork { sources, ttl_seconds } => {
                &&& op matches RpcOp::Fork { tenant: who, sources: s, ttl_seconds: ttl }
                &&& who@ == tenant@
                &&& s@.len() == sources@.len()
                &&& forall|i: int|
                    0 <= i < sources@.len() ==> (#[trigger] s@[i])@ == vstd::utf8::encode_utf8(
                        sources@[i]@,
                    )
                &&& ttl_seconds == 0 ==> ttl == default_ttl_secs
                &&& ttl_seconds != 0 ==> ttl == ttl_seconds
            },
            DecodedRequest::Commit { workspace_id, mappings } => {
                &&& op matches RpcOp::Commit { tenant: who, id, mappings: m }
                &&& who@ == tenant@
                &&& hexcode::decoded(vstd::utf8::encode_utf8(workspace_id@)) == Some(id.bytes@)
                &&& m@.len() == mappings@.len()
                &&& forall|i: int|
                    0 <= i < mappings@.len() ==> {
                        &&& (#[trigger] m@[i]).0@ == vstd::utf8::encode_utf8(mappings@[i].0@)
                        &&& m@[i].1@ == vstd::utf8::encode_utf8(mappings@[i].1@)
                    }
            },
            DecodedRequest::Renew { workspace_id, ttl_seconds } => {
                &&& op matches RpcOp::Renew { tenant: who, id, ttl_seconds: ttl }
                &&& who@ == tenant@
                &&& hexcode::decoded(vstd::utf8::encode_utf8(workspace_id@)) == Some(id.bytes@)
                &&& ttl_seconds == 0 ==> ttl == default_ttl_secs
                &&& ttl_seconds != 0 ==> ttl == ttl_seconds
            },
            DecodedRequest::Release { workspace_id } => {
                &&& op matches RpcOp::Release { tenant: who, id }
                &&& who@ == tenant@
                &&& hexcode::decoded(vstd::utf8::encode_utf8(workspace_id@)) == Some(id.bytes@)
            },
            DecodedRequest::GetWorkspace { workspace_id } => {
                &&& op matches RpcOp::GetWorkspace { tenant: who, id, text }
                &&& who@ == tenant@
                &&& text@ == workspace_id@
                &&& hexcode::decoded(vstd::utf8::encode_utf8(workspace_id@)) == Some(id.bytes@)
            },
            DecodedRequest::ListWorkspaces => {
                op matches RpcOp::ListWorkspaces { tenant: who } && who@ == tenant@
            },
            DecodedRequest::RunGc => op is RunGc,
        },
        match *req {
            DecodedRequest::Fork { sources, .. } => {
                &&& r is Ok <==> forall|i: int|
                    0 <= i < sources@.len() ==> !vstd::utf8::encode_utf8(
                        (#[trigger] sources@[i])@,
                    ).contains(0u8)
                &&& r is Err ==> r == Err::<RpcOp, LedgeError>(LedgeError::InvalidName)
            },
            DecodedRequest::Commit { workspace_id, mappings } => {
                let id = hexcode::decoded(vstd::utf8::encode_utf8(workspace_id@));
                let named = id is Some && id->0.len() == 16;
                &&& !named ==> r == Err::<RpcOp, LedgeError>(LedgeError::InvalidId)
                &&& named ==> (r is Ok <==> forall|i: int|
                    0 <= i < mappings@.len() ==> !vstd::utf8::encode_utf8(
                        (#[trigger] mappings@[i]).0@,
                    ).contains(0u8) && !vstd::utf8::encode_utf8(mappings@[i].1@).contains(0u8))
                &&& named && r is Err ==> r == Err::<RpcOp, LedgeError>(LedgeError::InvalidName)
            },
            DecodedRequest::Renew { workspace_id, .. } => {
                let id = hexcode::decoded(vstd::utf8::encode_utf8(workspace_id@));
                &&& r is Ok <==> id is Some && id->0.len() == 16
                &&& r is Err ==> r == Err::<RpcOp, LedgeError>(LedgeError::InvalidId)
            },
            DecodedRequest::Release { workspace_id } => {
                let id = hexcode::decoded(vstd::utf8::encode_utf8(workspace_id@));
                &&& r is Ok <==> id is Some && id->0.len() == 16
                &&& r is Err ==> r == Err::<RpcOp, LedgeError>(LedgeError::InvalidId)
            },
            DecodedRequest::GetWorkspace { workspace_id } => {
                let id = hexcode::decoded(vstd::utf8::encode_utf8(workspace_id@));
                &&& r is Ok <==> id is Some && id->0.len() == 16
                &&& r is Err ==> r == Err::<RpcOp, LedgeError>(LedgeError::InvalidId)
            },
            _ => r is Ok,
        },
{
    match req {
        DecodedRequest::WriteObject { git_type, content } => Ok(
            RpcOp::WriteObject { git_type: *git_type, content: copy_bytes(content.as_slice()) },
        ),
        DecodedRequest::ReadObject { id } => Ok(RpcOp::ReadObject { id: *id }),
        DecodedRequest::Fork { sources, ttl_seconds } => match parse_ref_names(sources) {
            Ok(names) => Ok(
                RpcOp::Fork {
                    tenant: tenant.to_owned(),
                    sources: names,
                    ttl_seconds: resolve_ttl(default_ttl_secs, *ttl_seconds),
                },
            ),
            Err(e) => Err(e),
        },
        DecodedRequest::Commit { workspace_id, mappings } => match WorkspaceId::from_hex(
            workspace_id.as_str(),
        ) {
            Ok(id) => match parse_mappings(mappings) {
                Ok(m) => Ok(RpcOp::Commit { tenant: tenant.to_owned(), id, mappings: m }),
                Err(e) => Err(e),
            },
            Err(e) => Err(e),
        },
        DecodedRequest::Renew { workspace_id, ttl_seconds } => match WorkspaceId::from_hex(
            workspace_id.as_str(),
        ) {
            Ok(id) => Ok(
                RpcOp::Renew {
                    tenant: tenant.to_owned(),
                    id,
                    ttl_seconds: resolve_ttl(default_ttl_secs, *ttl_seconds),
                },
            ),
            Err(e) => Err(e),
        },
        DecodedRequest::Release { workspace_id } => match WorkspaceId::from_hex(
            workspace_id.as_str(),
        ) {
            Ok(id) => Ok(RpcOp::Release { tenant: tenant.to_owned(), id }),
            Err(e) => Err(e),
        },
        DecodedRequest::GetWorkspace { workspace_id } => match WorkspaceId::from_hex(
            workspace_id.as_str(),
        ) {
            Ok(id) => Ok(
                RpcOp::GetWorkspace {
                    tenant: tenant.to_owned(),
                    id,
                    text: workspace_id.as_str().to_owned(),
                },
            ),
            Err(e) => Err(e),
        },
        DecodedRequest::ListWorkspaces => Ok(
            RpcOp::ListWorkspaces { tenant: tenant.to_owned() },
        ),
        DecodedRequest::RunGc => Ok(RpcOp::RunGc),
    }
}

// ---------------------------------------------------------------------------
// What is answered
// ---------------------------------------------------------------------------

/// What became of one mapping of a commit.
pub enum CommitOutcome {
    /// The durable reference was moved; carries its new entry.
    Moved { target: String, entry: RefEntry },
    /// The durable reference stands elsewhere; carries its entry.
    Conflict { target: String, current: RefEntry },
}

/// A workspace, as it is shown.
pub struct WorkspaceInfo {
    pub id: WorkspaceId,
    pub lease: Lease,
    pub refs: Vec<(RefName, RefEntry)>,
}

/// What a collection pass did.
#[derive(Clone, Copy, Debug, PartialEq, Eq)]
pub struct GcStats {
    pub scanned: usize,
    pub reachable: usize,
    pub reclaimed: usize,
    pub bytes_freed: u64,
}

/// Why the work of a request failed.
pub enum RpcFault {
    Store(LedgeError),
    /// There is no workspace under the text by which a request named one.
    UnknownWorkspace(String),
}

impl RpcFault {
    /// What is answered about a workspace that is not there: that it is unknown, and
    /// how the request named it. A fault of the stores has the text of its error.
    pub fn unknown_workspace_text(&self) -> (r: Option<String>)
        ensures
            match (self, r) {
                (RpcFault::UnknownWorkspace(name), Some(s)) => s@ == "unknown workspace "@ + name@,
                (RpcFault::Store(_), None) => true,
                _ => false,
            },
    {
        match self {
            RpcFault::UnknownWorkspace(name) => {
                let mut s: String = "unknown workspace ".to_owned();
                s.append(name.as_str());
                Some(s)
            },
            RpcFault::Store(_) => None,
        }
    }
}

/// The result of a request.
pub enum DispatchResult {
    Error(RpcFault),
    ObjectId(ObjectId),
    ObjectContent(Vec<u8>),
    Workspace(WorkspaceInfo),
    CommitOutcomes(Vec<CommitOutcome>),
    Lease(Lease),
    Done,
    WorkspaceList(Vec<WorkspaceInfo>),
    GcStats(GcStats),
}

/// Writes or reads an object. The other requests are not for the object store.
pub fn execute_object(store: &mut DiskObjectStore, op: &RpcOp) -> (r: Option<DispatchResult>)
    ensures
        match op {
            RpcOp::WriteObject { git_type, content } => match r {
                Some(DispatchResult::ObjectId(id)) => {
                    &&& crate::object_file::known_type(*git_type)
                    &&& id.bytes@ == crate::digest::blake3_sum(content@)
                    &&& final(store)@ == disk::written_object(old(store)@, *git_type, content@)
                    &&& final(store).kept_names() is None
                    &&& content@.len() <= crate::object_file::MAX_DECOMPRESSED
                        ==> disk::content_of(final(store)@, id.bytes@) == Ok::<
                        Seq<u8>,
                        disk::ReadFail,
                    >(content@)
                },
                Some(DispatchResult::Error(RpcFault::Store(e))) => {
                    &&& !crate::object_file::known_type(*git_type)
                    &&& e == LedgeError::Corruption(Corruption::ObjectType)
                    &&& *final(store) == *old(store)
                },
                _ => false,
            },
            RpcOp::ReadObject { id } => *final(store) == *old(store) && match (
                r,
                disk::content_of(old(store)@, id.bytes@),
            ) {
                (Some(DispatchResult::ObjectContent(c)), Ok(content)) => c@ == content,
                (Some(DispatchResult::Error(RpcFault::Store(e))), Err(f)) => disk::reports(e, f),
                _ => false,
            },
            _ => r is None && *final(store) == *old(store),
        },
{
    match op {
        RpcOp::WriteObject { git_type, content } => match store.write_git_object(
            *git_type,
            content.as_slice(),
        ) {
            Ok(id) => Some(DispatchResult::ObjectId(id)),
            Err(e) => Some(DispatchResult::Error(RpcFault::Store(e))),
        },
        RpcOp::ReadObject { id } => match store.read(*id) {
            Ok(content) => Some(DispatchResult::ObjectContent(content)),
            Err(e) => Some(DispatchResult::Error(RpcFault::Store(e))),
        },
        _ => None,
    }
}

/// The result of asking for a workspace, which the request named by `text`.
pub fn workspace_result(
    text: &str,
    found: Result<Option<WorkspaceInfo>, LedgeError>,
) -> (r: DispatchResult)
    ensures
        match found {
            Ok(Some(view)) => r == DispatchResult::Workspace(view),
            Ok(None) => r matches DispatchResult::Error(RpcFault::UnknownWorkspace(t)) && t@
                == text@,
            Err(e) => r == DispatchResult::Error(RpcFault::Store(e)),
        },
{
    match found {
        Ok(Some(view)) => DispatchResult::Workspace(view),
        Ok(None) => DispatchResult::Error(RpcFault::UnknownWorkspace(text.to_owned())),
        Err(e) => DispatchResult::Error(RpcFault::Store(e)),
    }
}

/// The result of a fork: the new workspace, or why there is none.
pub fn fork_result(done: Result<WorkspaceInfo, LedgeError>) -> (r: DispatchResult)
    ensures
        r == match done {
            Ok(x) => DispatchResult::Workspace(x),
            Err(e) => DispatchResult::Error(RpcFault::Store(e)),
        },
{
    match done {
        Ok(x) => DispatchResult::Workspace(x),
        Err(e) => DispatchResult::Error(RpcFault::Store(e)),
    }
}

/// The result of a commit: what became of each mapping, or why nothing was done.
pub fn commit_result(done: Result<Vec<CommitOutcome>, LedgeError>) -> (r: DispatchResult)
    ensures
        r == match done {
            Ok(x) => DispatchResult::CommitOutcomes(x),
            Err(e) => DispatchResult::Error(RpcFault::Store(e)),
        },
{
    match done {
        Ok(x) => DispatchResult::CommitOutcomes(x),
        Err(e) => DispatchResult::Error(RpcFault::Store(e)),
    }
}

/// The result of a renewal: the lease, or why it was not renewed.
pub fn renew_result(done: Result<Lease, LedgeError>) -> (r: DispatchResult)
    ensures
        r == match done {
            Ok(x) => DispatchResult::Lease(x),
            Err(e) => DispatchResult::Error(RpcFault::Store(e)),
        },
{
    match done {
        Ok(x) => DispatchResult::Lease(x),
        Err(e) => DispatchResult::Error(RpcFault::Store(e)),
    }
}

/// The result of a release: nothing more to say, or why it was refused.
pub fn release_result(done: Result<(), LedgeError>) -> (r: DispatchResult)
    ensures
        r == match done {
            Ok(_) => DispatchResult::Done,
            Err(e) => DispatchResult::Error(RpcFault::Store(e)),
        },
{
    match done {
        Ok(_) => DispatchResult::Done,
        Err(e) => DispatchResult::Error(RpcFault::Store(e)),
    }
}

/// The result of listing workspaces, or why they cannot be listed.
pub fn list_result(done: Result<Vec<WorkspaceInfo>, LedgeError>) -> (r: DispatchResult)
    ensures
        r == match done {
            Ok(x) => DispatchResult::WorkspaceList(x),
            Err(e) => DispatchResult::Error(RpcFault::Store(e)),
        },
{
    match done {
        Ok(x) => DispatchResult::WorkspaceList(x),
        Err(e) => DispatchResult::Error(RpcFault::Store(e)),
    }
}

/// The result of a collection pass, or why it failed.
pub fn gc_result(done: Result<GcStats, LedgeError>) -> (r: DispatchResult)
    ensures
        r == match done {
            Ok(x) => DispatchResult::GcStats(x),
            Err(e) => DispatchResult::Error(RpcFault::Store(e)),
        },
{
    match done {
        Ok(x) => DispatchResult::GcStats(x),
        Err(e) => DispatchResult::Error(RpcFault::Store(e)),
    }
}

/// What became of one mapping, as the message gives it.
pub struct CommitOutcomeMsg {
    pub target: String,
    pub ok: bool,
    pub version: u64,
}

/// The message about one mapping: whether the reference was moved, and the version
/// of its new entry, or of the one that is in the way.
pub fn encode_commit_outcome(outcome: &CommitOutcome) -> (r: CommitOutcomeMsg)
    ensures
        match outcome {
            CommitOutcome::Moved { target, entry } => r.ok && r.target@ == target@ && r.version
                == entry.version,
            CommitOutcome::Conflict { target, current } => !r.ok && r.target@ == target@
                && r.version == current.version,
        },
{
    match outcome {
        CommitOutcome::Moved { target, entry } => CommitOutcomeMsg {
            target: target.as_str().to_owned(),
            ok: true,
            version: entry.version,
        },
        CommitOutcome::Conflict { target, current } => CommitOutcomeMsg {
            target: target.as_str().to_owned(),
            ok: false,
            version: current.version,
        },
    }
}

/// A workspace, as the message gives it.
pub struct WorkspaceMsg {
    pub id: String,
    pub expires_at_ms: u64,
    pub refs: Vec<(String, RefEntry)>,
}

/// `m` shows the workspace: its identifier in hexadecimal, when it expires, and its
/// references in order.
pub open spec fn shows_workspace(m: WorkspaceMsg, view: WorkspaceInfo) -> bool {
    &&& vstd::utf8::encode_utf8(m.id@) == hexcode::encoded(view.id.bytes@)
    &&& m.expires_at_ms == view.lease.expires_at_ms
    &&& m.refs@.len() == view.refs@.len()
    &&& forall|i: int|
        0 <= i < m.refs@.len() ==> vstd::utf8::encode_utf8((#[trigger] m.refs@[i]).0@)
            == view.refs@[i].0@ && m.refs@[i].1 == view.refs@[i].1
}

/// The message about a workspace.
pub fn write_workspace_info(view: &WorkspaceInfo) -> (r: WorkspaceMsg)
    ensures
        shows_workspace(r, *view),
        vstd::utf8::encode_utf8(r.id@) == hexcode::encoded(view.id.bytes@),
        r.expires_at_ms == view.lease.expires_at_ms,
        r.refs@.len() == view.refs@.len(),
        forall|i: int|
            0 <= i < view.refs@.len() ==> vstd::utf8::encode_utf8((#[trigger] r.refs@[i]).0@)
                == view.refs@[i].0@ && r.refs@[i].1 == view.refs@[i].1,
{
    let mut refs: Vec<(String, RefEntry)> = Vec::new();
    let mut i: usize = 0;
    while i < view.refs.len()
        invariant
            i <= view.refs.len(),
            refs.len() == i,
            forall|j: int|
                0 <= j < i ==> vstd::utf8::encode_utf8((#[trigger] refs@[j]).0@)
                    == view.refs@[j].0@ && refs@[j].1 == view.refs@[j].1,
        decreases view.refs.len() - i,
    {
        let (name, entry) = &view.refs[i];
        refs.push((name.as_str().to_owned(), *entry));
        i += 1;
    }
    WorkspaceMsg { id: view.id.to_hex(), expires_at_ms: view.lease.expires_at_ms, refs }
}

/// A lease, as the message gives it.
pub struct LeaseMsg {
    pub id: String,
    pub expires_at_ms: u64,
    pub created_at_ms: u64,
    pub generation: u64,
}

/// A response, as the message gives it.
pub enum Response {
    Error(RpcFault),
    ObjectId(ObjectId),
    ObjectContent(Vec<u8>),
    Workspace(WorkspaceMsg),
    CommitOutcomes(Vec<CommitOutcomeMsg>),
    Lease(LeaseMsg),
    Done,
    WorkspaceList(Vec<WorkspaceMsg>),
    GcStats { scanned: u64, reachable: u64, reclaimed: u64, bytes_freed: u64 },
}

/// `m` tells what became of the mapping.
pub open spec fn tells_outcome(m: CommitOutcomeMsg, outcome: CommitOutcome) -> bool {
    match outcome {
        CommitOutcome::Moved { target, entry } => m.ok && m.target@ == target@ && m.version
            == entry.version,
        CommitOutcome::Conflict { target, current } => !m.ok && m.target@ == target@ && m.version
            == current.version,
    }
}

/// `m` answers with the result.
pub open spec fn answers(m: Response, result: DispatchResult) -> bool {
    match (result, m) {
        (DispatchResult::Error(f), Response::Error(g)) => f == g,
        (DispatchResult::ObjectId(a), Response::ObjectId(b)) => a == b,
        (DispatchResult::ObjectContent(a), Response::ObjectContent(b)) => a@ == b@,
        (DispatchResult::Workspace(v), Response::Workspace(w)) => shows_workspace(w, v),
        (DispatchResult::CommitOutcomes(a), Response::CommitOutcomes(b)) => a@.len() == b@.len()
            && forall|i: int| 0 <= i < b@.len() ==> tells_outcome(#[trigger] b@[i], a@[i]),
        (DispatchResult::Lease(a), Response::Lease(b)) => {
            &&& vstd::utf8::encode_utf8(b.id@) == hexcode::encoded(a.id.bytes@)
            &&& b.expires_at_ms == a.expires_at_ms
            &&& b.created_at_ms == a.created_at_ms
            &&& b.generation == a.generation
        },
        (DispatchResult::Done, Response::Done) => true,
        (DispatchResult::WorkspaceList(a), Response::WorkspaceList(b)) => a@.len() == b@.len()
            && forall|i: int| 0 <= i < b@.len() ==> shows_workspace(#[trigger] b@[i], a@[i]),
        (
            DispatchResult::GcStats(s),
            Response::GcStats { scanned, reachable, reclaimed, bytes_freed },
        ) => scanned == s.scanned && reachable == s.reachable && reclaimed == s.reclaimed
            && bytes_freed == s.bytes_freed,
        _ => false,
    }
}

/// The response to a request.
#[verifier::rlimit(40)]
pub fn encode_response(result: DispatchResult) -> (r: Response)
    ensures
        answers(r, result),
        match result {
            DispatchResult::Error(f) => r == Response::Error(f),
            DispatchResult::ObjectId(id) => r == Response::ObjectId(id),
            DispatchResult::ObjectContent(c) => r matches Response::ObjectContent(d) && d@ == c@,
            DispatchResult::Workspace(v) => {
                &&& r matches Response::Workspace(w)
                &&& vstd::utf8::encode_utf8(w.id@) == hexcode::encoded(v.id.bytes@)
                &&& w.expires_at_ms == v.lease.expires_at_ms
                &&& w.refs@.len() == v.refs@.len()
                &&& forall|j: int|
                    0 <= j < v.refs@.len() ==> vstd::utf8::encode_utf8((#[trigger] w.refs@[j]).0@)
                        == v.refs@[j].0@ && w.refs@[j].1 == v.refs@[j].1
            },
            DispatchResult::CommitOutcomes(a) => {
                &&& r matches Response::CommitOutcomes(b)
                &&& b@.len() == a@.len()
                &&& forall|i: int|
                    0 <= i < a@.len() ==> match #[trigger] a@[i] {
                        CommitOutcome::Moved { target, entry } => b@[i].ok && b@[i].target@ == target@
                            && b@[i].version == entry.version,
                        CommitOutcome::Conflict { target, current } => !b@[i].ok && b@[i].target@
                            == target@ && b@[i].version == current.version,
                    }
            },
            DispatchResult::Lease(a) => {
                &&& r matches Response::Lease(b)
                &&& vstd::utf8::encode_utf8(b.id@) == hexcode::encoded(a.id.bytes@)
                &&& b.expires_at_ms == a.expires_at_ms
                &&& b.created_at_ms == a.created_at_ms
                &&& b.generation == a.generation
            },
            DispatchResult::Done => r is Done,
            DispatchResult::WorkspaceList(a) => {
                &&& r matches Response::WorkspaceList(b)
                &&& b@.len() == a@.len()
                &&& forall|i: int|
                    0 <= i < a@.len() ==> {
                        let v = #[trigger] a@[i];
                        let w = b@[i];
                        &&& vstd::utf8::encode_utf8(w.id@) == hexcode::encoded(v.id.bytes@)
                        &&& w.expires_at_ms == v.lease.expires_at_ms
                        &&& w.refs@.len() == v.refs@.len()
                        &&& forall|j: int|
                            0 <= j < v.refs@.len() ==> vstd::utf8::encode_utf8(
                                (#[trigger] w.refs@[j]).0@,
                            ) == v.refs@[j].0@ && w.refs@[j].1 == v.refs@[j].1
                    }
            },
            DispatchResult::GcStats(s) => {
                r matches Response::GcStats { scanned, reachable, reclaimed, bytes_freed } && scanned
                    == s.scanned && reachable == s.reachable && reclaimed == s.reclaimed
                    && bytes_freed == s.bytes_freed
            },
        },
{
    match result {
        DispatchResult::Error(f) => Response::Error(f),
        DispatchResult::ObjectId(id) => Response::ObjectId(id),
        DispatchResult::ObjectContent(content) => Response::ObjectContent(content),
        DispatchResult::Workspace(view) => Response::Workspace(write_workspace_info(&view)),
        DispatchResult::CommitOutcomes(outcomes) => {
            let mut out: Vec<CommitOutcomeMsg> = Vec::new();
            let mut i: usize = 0;
            while i < outcomes.len()
                invariant
                    i <= outcomes.len(),
                    out.len() == i,
                    forall|j: int|
                        0 <= j < i ==> tells_outcome(#[trigger] out@[j], outcomes@[j]),
                decreases outcomes.len() - i,
            {
                out.push(encode_commit_outcome(&outcomes[i]));
                i += 1;
            }
            Response::CommitOutcomes(out)
        },
        DispatchResult::Lease(lease) => Response::Lease(
            LeaseMsg {
                id: lease.id.to_hex(),
                expires_at_ms: lease.expires_at_ms,
                created_at_ms: lease.created_at_ms,
                generation: lease.generation,
            },
        ),
        DispatchResult::Done => Response::Done,
        DispatchResult::WorkspaceList(views) => {
            let mut out: Vec<WorkspaceMsg> = Vec::new();
            let mut i: usize = 0;
            while i < views.len()
                invariant
                    i <= views.len(),
                    out.len() == i,
                    forall|j: int|
                        0 <= j < i ==> shows_workspace(#[trigger] out@[j], views@[j]),
                decreases views.len() - i,
            {
                out.push(write_workspace_info(&views[i]));
                i += 1;
            }
            Response::WorkspaceList(out)
        },
        DispatchResult::GcStats(s) => Response::GcStats {
            scanned: s.scanned as u64,
            reachable: s.reachable as u64,
            reclaimed: s.reclaimed as u64,
            bytes_freed: s.bytes_freed,
        },
    }
}

} // verus!
