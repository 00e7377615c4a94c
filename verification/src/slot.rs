//! The value stored for one reference: its committed entry and, while a
//! two-phase commit holds the reference, the staged write.

use vstd::prelude::*;
use crate::types::{ObjectId, RefEntry, TxnId};

verus! {

/// A write that a transaction has prepared and not yet committed. It locks the
/// reference.
#[derive(Clone, Copy, Debug)]
pub struct PreparedIntent {
    /// The transaction that holds the lock.
    pub txn_id: TxnId,
    /// The shard whose log holds the decision on the transaction.
    pub coord_shard: u32,
    /// What the reference will point to.
    pub staged_target: ObjectId,
    /// The logical time that the committed entry will carry.
    pub staged_hlc: u64,
}

/// The state of one reference. A committed entry of version 0 stands for a
/// reference that does not exist yet.
#[derive(Clone, Copy, Debug)]
pub struct RefSlot {
    pub committed: RefEntry,
    pub prepared: Option<PreparedIntent>,
}

/// A slot with the given entry and no lock.
pub open spec fn unlocked(entry: RefEntry) -> RefSlot {
    RefSlot { committed: entry, prepared: None }
}

impl RefSlot {
    /// A slot with the given entry and no lock.
    pub fn committed(entry: RefEntry) -> (r: Self)
        ensures
            r == unlocked(entry),
    {
        RefSlot { committed: entry, prepared: None }
    }

    /// Whether a transaction other than `txn` holds the lock.
    pub fn locked_by_other(&self, txn: &TxnId) -> (r: bool)
        ensures
            r == (self.prepared is Some && self.prepared->0.txn_id != *txn),
    {
        match &self.prepared {
            Some(p) => p.txn_id != *txn,
            None => false,
        }
    }
}

/// What readers see of a slot: its committed entry, unless that is of version 0.
pub open spec fn visible(slot: Option<RefSlot>) -> Option<RefEntry> {
    match slot {
        Some(s) => if s.committed.version != 0 {
            Some(s.committed)
        } else {
            None
        },
        None => None,
    }
}

/// What readers see of a slot.
pub fn visible_entry(slot: &Option<RefSlot>) -> (r: Option<RefEntry>)
    ensures
        r == visible(*slot),
{
    match slot {
        Some(s) => if s.committed.version != 0 {
            Some(s.committed)
        } else {
            None
        },
        None => None,
    }
}

} // verus!
