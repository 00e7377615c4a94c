//! The write-ahead log of the reference store: what recovery keeps of a log file
//! and what it replays.

use vstd::prelude::*;
use crate::frame;
use crate::frame::{encode_frame, FrameScan, ScanEnd};
use crate::store;
use crate::store::WalEntry;
use crate::store_laws;
use crate::types::{Corruption, LedgeError};

verus! {

/// The position of the last checkpoint; 0 where there is none.
pub open spec fn last_checkpoint(log: Seq<WalEntry>) -> int
    decreases log.len(),
{
    if log.len() == 0 {
        0
    } else if log.last() is Checkpoint {
        log.len() - 1
    } else {
        last_checkpoint(log.drop_last())
    }
}

proof fn lemma_last_checkpoint(log: Seq<WalEntry>)
    ensures
        0 <= last_checkpoint(log) <= log.len(),
        log.len() > 0 ==> last_checkpoint(log) < log.len(),
        last_checkpoint(log) > 0 ==> log[last_checkpoint(log)] is Checkpoint,
    decreases log.len(),
{
    if log.len() > 0 && !(log.last() is Checkpoint) {
        lemma_last_checkpoint(log.drop_last());
    }
}

/// What of a log is replayed: everything from its last checkpoint on.
pub open spec fn replayed(log: Seq<WalEntry>) -> Seq<WalEntry> {
    log.subrange(last_checkpoint(log), log.len() as int)
}

/// Replaying from the last checkpoint gives what replaying the whole log gives.
pub proof fn replayed_is_enough(log: Seq<WalEntry>)
    ensures
        store::replay(Map::empty(), replayed(log)) == store::replay(Map::empty(), log),
{
    lemma_last_checkpoint(log);
    if last_checkpoint(log) == 0 {
        assert(replayed(log) =~= log);
    } else {
        store_laws::replay_from_checkpoint(Map::empty(), log, last_checkpoint(log));
    }
}

/// The records that decoded.
pub open spec fn decoded(entries: Seq<Option<WalEntry>>) -> Seq<WalEntry> {
    Seq::new(entries.len(), |i: int| entries[i]->0)
}

/// A log file that is open for appending; `len` bytes of it are in use.
pub struct Wal {
    pub len: u64,
}

impl Wal {
    /// Decides what to keep and what to replay of a log file, given the scan of
    /// its frames and, for each frame, the record that its payload decodes to,
    /// if it does. A frame that was cut short at the end is dropped; a damaged
    /// one, and a payload that does not decode, are errors.
    pub fn open(scan: &FrameScan, entries: Vec<Option<WalEntry>>) -> (r: Result<
        (Self, Vec<WalEntry>),
        LedgeError,
    >)
        ensures
            match r {
                Ok((wal, log)) => {
                    &&& forall|i: int|
                        0 <= i < entries.len() ==> (#[trigger] entries@[i]) is Some
                    &&& !(scan.end is Damaged)
                    &&& wal.len == scan.valid_len
                    &&& log@ == replayed(decoded(entries@))
                },
                Err(e) => {
                    ||| e == LedgeError::Corruption(Corruption::FramePayload) && exists|i: int|
                        0 <= i < entries.len() && (#[trigger] entries@[i]) is None
                    ||| e == LedgeError::Corruption(Corruption::FrameChecksum) && scan.end
                        is Damaged && forall|i: int|
                        0 <= i < entries.len() ==> (#[trigger] entries@[i]) is Some
                },
            },
            r matches Ok((wal, log)) ==> {
                &&& log@.len() <= entries@.len()
                &&& forall|i: int|
                    0 <= i < log@.len() ==> entries@[entries@.len() - log@.len() + i] == Some(
                        #[trigger] log@[i],
                    )
                &&& forall|i: int| 0 < i < log@.len() ==> !((#[trigger] log@[i]) is Checkpoint)
                &&& log@.len() < entries@.len() ==> log@.len() > 0 && log@[0] is Checkpoint
            },
    {
        let ghost all = decoded(entries@);
        let ghost given = entries@;
        let mut i: usize = 0;
        let mut start: usize = 0;
        assert(all.subrange(0, 0) =~= Seq::<WalEntry>::empty());
        while i < entries.len()
            invariant
                i <= entries.len(),
                entries@ == given,
                all == decoded(given),
                forall|j: int| 0 <= j < i ==> (#[trigger] entries@[j]) is Some,
                start == last_checkpoint(all.subrange(0, i as int)),
                start <= i,
            decreases entries.len() - i,
        {
            let ghost now = all.subrange(0, i + 1);
            assert(now.drop_last() =~= all.subrange(0, i as int));
            match &entries[i] {
                None => {
                    assert(given[i as int] is None);
                    return Err(LedgeError::Corruption(Corruption::FramePayload));
                },
                Some(e) => {
                    assert(now.last() == *e);
                    if let WalEntry::Checkpoint { .. } = e {
                        start = i;
                    }
                },
            }
            i += 1;
        }
        assert(all.subrange(0, i as int) =~= all);
        if let ScanEnd::Damaged = scan.end {
            return Err(LedgeError::Corruption(Corruption::FrameChecksum));
        }
        let mut entries = entries;
        let mut log: Vec<WalEntry> = Vec::new();
        let mut j: usize = start;
        while j < entries.len()
            invariant
                start <= j <= entries.len(),
                entries.len() == given.len(),
                all == decoded(given),
                forall|x: int| 0 <= x < given.len() ==> (#[trigger] given[x]) is Some,
                forall|x: int| j <= x < given.len() ==> #[trigger] entries@[x] == given[x],
                log@ == all.subrange(start as int, j as int),
            decreases entries.len() - j,
        {
            let mut taken: Option<WalEntry> = None;
            std::mem::swap(&mut taken, &mut entries[j]);
            match taken {
                Some(e) => {
                    log.push(e);
                },
                None => {},
            }
            j += 1;
            assert(log@ =~= all.subrange(start as int, j as int));
        }
        proof {
            assert(log@ =~= replayed(all));
            assert forall|i: int| 0 < i < log@.len() implies !((#[trigger] log@[i])
                is Checkpoint) by {
                replay_starts_at_last_checkpoint(all, i);
            }
            replay_starts_at_last_checkpoint(all, 0);
            assert forall|i: int| 0 <= i < log@.len() implies given[given.len() - log@.len() + i]
                == Some(#[trigger] log@[i]) by {
                assert(log@[i] == all[all.len() - log@.len() + i]);
                assert(given[given.len() - log@.len() + i] is Some);
            }
        }
        Ok((Wal { len: scan.valid_len as u64 }, log))
    }

    /// The length of the file.
    pub fn file_size_bytes(&self) -> (r: u64)
        ensures
            r == self.len,
    {
        self.len
    }

    /// The bytes to append for a record with the given payload.
    pub fn append(&mut self, payload: &[u8]) -> (r: Vec<u8>)
        requires
            payload@.len() <= u32::MAX,
            old(self).len + payload@.len() + 8 <= u64::MAX,
        ensures
            r@ == frame::frame(payload@),
            final(self).len == old(self).len + r@.len(),
    {
        let r = encode_frame(payload);
        self.len = self.len + r.len() as u64;
        r
    }

    /// The bytes that replace the whole file when it is compacted to one
    /// checkpoint record with the given payload.
    pub fn compact(&mut self, payload: &[u8]) -> (r: Vec<u8>)
        requires
            payload@.len() <= u32::MAX,
        ensures
            r@ == frame::frame(payload@),
            final(self).len == r@.len(),
    {
        let r = encode_frame(payload);
        self.len = r.len() as u64;
        r
    }
}

/// A log is replayed from its last checkpoint on: no checkpoint stands behind the
/// first record that is replayed, and what is left out ends right before one.
pub proof fn replay_starts_at_last_checkpoint(log: Seq<WalEntry>, i: int)
    ensures
        replayed(log).len() <= log.len(),
        replayed(log) == log.subrange(log.len() - replayed(log).len(), log.len() as int),
        0 < i < replayed(log).len() ==> !(replayed(log)[i] is Checkpoint),
        replayed(log).len() < log.len() ==> replayed(log).len() > 0 && replayed(log)[0] is Checkpoint,
        0 <= i < log.len() && log[i] is Checkpoint ==> replayed(log).len() <= log.len() - i,
    decreases log.len(),
{
    if log.len() > 0 && !(log.last() is Checkpoint) {
        let front = log.drop_last();
        let all = replayed(log);
        replay_starts_at_last_checkpoint(front, i);
        assert(last_checkpoint(log) == last_checkpoint(front));
        lemma_last_checkpoint_in(front);
        assert(all =~= replayed(front).push(log.last()));
        if 0 <= i < front.len() {
            assert(front[i] == log[i]);
        }
    }
}

proof fn lemma_last_checkpoint_in(log: Seq<WalEntry>)
    ensures
        0 <= last_checkpoint(log) <= log.len(),
    decreases log.len(),
{
    if log.len() > 0 && !(log.last() is Checkpoint) {
        lemma_last_checkpoint_in(log.drop_last());
    }
}

} // verus!
