//! The commands of the replicated log and what applying them returns.

use vstd::prelude::*;
use crate::leases::{Lease, WorkspaceId};
use crate::store::{AppliedOp, AppliedOutcome};
use crate::types;
use crate::types::{LedgeError, ObjectId, RefEntry, RefName, TxnId};

verus! {

/// A replicated command. Logical times are assigned by the leader, so that every
/// replica applies the same.
#[allow(inconsistent_fields)]
pub enum LedgeOp {
    /// Create or update a reference under compare-and-swap.
    RefUpdate {
        name: String,
        target_bytes: [u8; 32],
        expected_bytes: Option<[u8; 32]>,
        hlc: u64,
    },
    /// Delete a reference under compare-and-swap.
    RefDelete { name: String, expected_bytes: [u8; 32], hlc: u64 },
    /// Store a lease.
    LeasePut { lease: Lease },
    /// Remove a lease.
    LeaseTombstone { id: WorkspaceId, hlc: u64 },
    /// Record that a cross-shard transaction has begun.
    TxnBegin { txn_id: TxnId, participants: Vec<u32> },
    /// Record the decision on a cross-shard transaction.
    TxnDecide { txn_id: TxnId, commit: bool },
    /// Forget a cross-shard transaction.
    TxnEnd { txn_id: TxnId },
}

/// The state of a cross-shard transaction.
#[derive(Clone, Copy, Debug, PartialEq, Eq, Structural)]
pub enum TxnDecision {
    Pending,
    Commit,
    Abort,
}

/// What applying a command returns.
#[derive(Clone, Copy, Debug, PartialEq, Eq)]
pub enum LedgeResp {
    /// The reference was created or updated.
    RefUpdated(RefEntry),
    /// The precondition failed; carries what is there.
    Conflict(RefEntry),
    /// The reference does not exist.
    NotFound,
    /// The reference was deleted.
    Deleted,
    /// A lease command was applied.
    LeaseOk,
    /// An entry without a command was applied.
    Noop,
    /// The state of the transaction now; `None` where it is not known.
    TxnState(Option<TxnDecision>),
}

/// The object identifiers of some optional bytes.
pub open spec fn expected_id(bytes: Option<[u8; 32]>) -> Option<ObjectId> {
    match bytes {
        Some(b) => Some(ObjectId { bytes: b }),
        None => None,
    }
}

/// The name in a command of a reference is one.
pub open spec fn op_ok(op: LedgeOp) -> bool {
    match op {
        LedgeOp::RefUpdate { name, .. } => types::nul_free(vstd::utf8::encode_utf8(name@)),
        LedgeOp::RefDelete { name, .. } => types::nul_free(vstd::utf8::encode_utf8(name@)),
        _ => true,
    }
}

impl LedgeOp {
    /// The operation on the reference store, for the commands that are one.
    pub fn to_applied(&self) -> (r: Option<Result<AppliedOp, LedgeError>>)
        ensures
            match self {
                LedgeOp::RefUpdate { name, target_bytes, expected_bytes, hlc } => match r {
                    Some(Ok(AppliedOp::Update { name: n, target, expected, hlc: h })) => {
                        &&& op_ok(*self)
                        &&& n@ == vstd::utf8::encode_utf8(name@)
                        &&& target.bytes == *target_bytes
                        &&& expected == expected_id(*expected_bytes)
                        &&& h == *hlc
                    },
                    Some(Err(e)) => !op_ok(*self) && e == LedgeError::InvalidName,
                    _ => false,
                },
                LedgeOp::RefDelete { name, expected_bytes, hlc } => match r {
                    Some(Ok(AppliedOp::Delete { name: n, expected, hlc: h })) => {
                        &&& op_ok(*self)
                        &&& n@ == vstd::utf8::encode_utf8(name@)
                        &&& expected.bytes == *expected_bytes
                        &&& h == *hlc
                    },
                    Some(Err(e)) => !op_ok(*self) && e == LedgeError::InvalidName,
                    _ => false,
                },
                _ => r is None,
            },
            match self {
                LedgeOp::RefUpdate { name, target_bytes, expected_bytes, hlc } => {
                    &&& r is Some
                    &&& r->0 is Err <==> vstd::utf8::encode_utf8(name@).contains(0u8)
                    &&& r matches Some(Ok(op)) ==> (op matches AppliedOp::Update {
                        name: n,
                        target,
                        expected,
                        hlc: h,
                    } && n@ == vstd::utf8::encode_utf8(name@) && target.bytes == *target_bytes && h
                        == *hlc && (expected is Some <==> *expected_bytes is Some) && (expected is Some
                        ==> expected->0.bytes == (*expected_bytes)->0))
                },
                LedgeOp::RefDelete { name, expected_bytes, hlc } => {
                    &&& r is Some
                    &&& r->0 is Err <==> vstd::utf8::encode_utf8(name@).contains(0u8)
                },
                _ => true,
            },
    {
        match self {
            LedgeOp::RefUpdate { name, target_bytes, expected_bytes, hlc } => {
                match RefName::new(name.as_str()) {
                    Ok(n) => {
                        let expected: Option<ObjectId> = match expected_bytes {
                            Some(b) => Some(ObjectId::from_bytes(*b)),
                            None => None,
                        };
                        Some(
                            Ok(
                                AppliedOp::Update {
                                    name: n,
                                    target: ObjectId::from_bytes(*target_bytes),
                                    expected,
                                    hlc: *hlc,
                                },
                            ),
                        )
                    },
                    Err(e) => Some(Err(e)),
                }
            },
            LedgeOp::RefDelete { name, expected_bytes, hlc } => {
                match RefName::new(name.as_str()) {
                    Ok(n) => Some(
                        Ok(
                            AppliedOp::Delete {
                                name: n,
                                expected: ObjectId::from_bytes(*expected_bytes),
                                hlc: *hlc,
                            },
                        ),
                    ),
                    Err(e) => Some(Err(e)),
                }
            },
            _ => None,
        }
    }
}

/// The outcomes that a single write has.
pub open spec fn single_write(outcome: AppliedOutcome) -> bool {
    outcome is Updated || outcome is Conflict || outcome is NotFound || outcome is Deleted
}

/// The response to the outcome of a single write.
pub open spec fn resp_of(outcome: AppliedOutcome) -> LedgeResp {
    match outcome {
        AppliedOutcome::Updated(e) => LedgeResp::RefUpdated(e),
        AppliedOutcome::Conflict(e) => LedgeResp::Conflict(e),
        AppliedOutcome::NotFound => LedgeResp::NotFound,
        _ => LedgeResp::Deleted,
    }
}

/// The response to the outcome of a single write.
pub fn outcome_to_resp(outcome: AppliedOutcome) -> (r: LedgeResp)
    requires
        single_write(outcome),
    ensures
        r == resp_of(outcome),
        outcome matches AppliedOutcome::Updated(e) ==> r == LedgeResp::RefUpdated(e),
        outcome matches AppliedOutcome::Conflict(e) ==> r == LedgeResp::Conflict(e),
        outcome is NotFound ==> r is NotFound,
        outcome is Deleted ==> r is Deleted,
{
    match outcome {
        AppliedOutcome::Updated(e) => LedgeResp::RefUpdated(e),
        AppliedOutcome::Conflict(e) => LedgeResp::Conflict(e),
        AppliedOutcome::NotFound => LedgeResp::NotFound,
        _ => LedgeResp::Deleted,
    }
}

} // verus!
