//! Storage of the replicated log: entries by index, the vote, the committed
//! position and the purged prefix; in memory, and as a log file of records.

use vstd::prelude::*;
use crate::codec::copy_bytes;

verus! {

/// The identity of a log entry: the leader that proposed it and its index.
#[derive(Clone, Copy, Debug, PartialEq, Eq, Structural)]
pub struct LogId {
    pub term: u64,
    pub node_id: u64,
    pub index: u64,
}

/// The vote that a node has given.
#[derive(Clone, Copy, Debug, PartialEq, Eq, Structural)]
pub struct Vote {
    pub term: u64,
    pub node_id: u64,
    pub committed: bool,
}

/// A log entry in its encoded form.
#[derive(Debug)]
pub struct StoredEntry {
    pub log_id: LogId,
    pub bytes: Vec<u8>,
}

/// What a stored entry holds.
pub struct EntryView {
    pub log_id: LogId,
    pub bytes: Seq<u8>,
}

impl View for StoredEntry {
    type V = EntryView;

    open spec fn view(&self) -> EntryView {
        EntryView { log_id: self.log_id, bytes: self.bytes@ }
    }
}

impl StoredEntry {
    /// A copy of the entry.
    pub fn duplicate(&self) -> (r: Self)
        ensures
            r@ == self@,
    {
        StoredEntry { log_id: self.log_id, bytes: copy_bytes(self.bytes.as_slice()) }
    }
}

/// The state of the log storage.
pub struct LogState {
    /// The entries by index.
    pub log: Map<u64, EntryView>,
    /// The last entry that was purged.
    pub last_purged: Option<LogId>,
    pub vote: Option<Vote>,
    pub committed: Option<LogId>,
}

/// Nothing stored.
pub open spec fn empty_state() -> LogState {
    LogState { log: Map::empty(), last_purged: None, vote: None, committed: None }
}

/// With the entry at `index` set.
pub open spec fn with_entry(s: LogState, index: u64, e: EntryView) -> LogState {
    LogState { log: s.log.insert(index, e), ..s }
}

/// With the given entries appended, each at its own index.
pub open spec fn with_appended(s: LogState, es: Seq<EntryView>) -> LogState
    decreases es.len(),
{
    if es.len() == 0 {
        s
    } else {
        with_entry(with_appended(s, es.drop_last()), es.last().log_id.index, es.last())
    }
}

/// The entries in front of `at`.
pub open spec fn log_before(log: Map<u64, EntryView>, at: u64) -> Map<u64, EntryView> {
    Map::new(|k: u64| log.contains_key(k) && k < at, |k: u64| log[k])
}

/// The entries behind `up_to`.
pub open spec fn log_after(log: Map<u64, EntryView>, up_to: u64) -> Map<u64, EntryView> {
    Map::new(|k: u64| log.contains_key(k) && k > up_to, |k: u64| log[k])
}

/// Without the entries from `at` on.
pub open spec fn truncated(s: LogState, at: u64) -> LogState {
    LogState { log: log_before(s.log, at), ..s }
}

/// Without the entries up to and including `up_to`.
pub open spec fn purged(s: LogState, up_to: LogId) -> LogState {
    LogState { log: log_after(s.log, up_to.index), last_purged: Some(up_to), ..s }
}

/// `id` is that of the entry with the greatest index, or the last purged one
/// where no entry is left.
pub open spec fn is_last_log_id(s: LogState, id: Option<LogId>) -> bool {
    if s.log.dom() == Set::<u64>::empty() {
        id == s.last_purged
    } else {
        exists|k: u64|
            {
                &&& #[trigger] s.log.contains_key(k)
                &&& id == Some(s.log[k].log_id)
                &&& forall|j: u64| #[trigger] s.log.contains_key(j) ==> j <= k
            }
    }
}

/// The entries of a sorted sequence, by index.
pub open spec fn log_map(v: Seq<(u64, StoredEntry)>) -> Map<u64, EntryView> {
    Map::new(
        |k: u64| exists|i: int| 0 <= i < v.len() && (#[trigger] v[i]).0 == k,
        |k: u64|
            {
                let i = choose|i: int| 0 <= i < v.len() && (#[trigger] v[i]).0 == k;
                v[i].1@
            },
    )
}

/// Strictly ascending by index.
pub open spec fn ascending(v: Seq<(u64, StoredEntry)>) -> bool {
    forall|i: int, j: int| 0 <= i < j < v.len() ==> (#[trigger] v[i]).0 < (#[trigger] v[j]).0
}

pub proof fn lemma_log_map(v: Seq<(u64, StoredEntry)>, i: int)
    requires
        ascending(v),
        0 <= i < v.len(),
    ensures
        log_map(v).contains_key(v[i].0),
        log_map(v)[v[i].0] == v[i].1@,
{
    let j = choose|j: int| 0 <= j < v.len() && (#[trigger] v[j]).0 == v[i].0;
    assert(v[i].0 == v[i].0);
    assert(0 <= j < v.len() && v[j].0 == v[i].0);
    if i < j {
        assert(v[i].0 < v[j].0);
    } else if j < i {
        assert(v[j].0 < v[i].0);
    }
}

/// Two sorted sequences that agree entry by entry with a map describe it.
pub proof fn lemma_same_map(v: Seq<(u64, StoredEntry)>, m: Map<u64, EntryView>)
    requires
        ascending(v),
        forall|i: int|
            0 <= i < v.len() ==> m.contains_key((#[trigger] v[i]).0) && m[v[i].0] == v[i].1@,
        forall|k: u64| #[trigger]
            m.contains_key(k) ==> exists|i: int| 0 <= i < v.len() && (#[trigger] v[i]).0 == k,
    ensures
        log_map(v) == m,
{
    assert forall|k: u64| #[trigger]
        log_map(v).contains_key(k) == m.contains_key(k) && (m.contains_key(k) ==> log_map(v)[k]
            == m[k]) by {
        if m.contains_key(k) {
            let i = choose|i: int| 0 <= i < v.len() && (#[trigger] v[i]).0 == k;
            lemma_log_map(v, i);
        }
        if log_map(v).contains_key(k) {
            let i = choose|i: int| 0 <= i < v.len() && (#[trigger] v[i]).0 == k;
            assert(m.contains_key(v[i].0));
        }
    }
    assert(log_map(v) =~= m);
}

/// Log storage in memory.
pub struct LogStore {
    entries: Vec<(u64, StoredEntry)>,
    last_purged: Option<LogId>,
    vote: Option<Vote>,
    committed: Option<LogId>,
}

impl View for LogStore {
    type V = LogState;

    closed spec fn view(&self) -> LogState {
        LogState {
            log: log_map(self.entries@),
            last_purged: self.last_purged,
            vote: self.vote,
            committed: self.committed,
        }
    }
}

/// The ends of the log: the last purged and the last present entry.
#[derive(Clone, Copy, Debug, PartialEq, Eq, Structural)]
pub struct LogEnds {
    pub last_purged_log_id: Option<LogId>,
    pub last_log_id: Option<LogId>,
}

impl LogStore {
    #[verifier::type_invariant]
    closed spec fn inv(self) -> bool {
        ascending(self.entries@)
    }

    /// Nothing stored.
    pub fn new() -> (r: Self)
        ensures
            r@ == empty_state(),
    {
        let r = LogStore { entries: Vec::new(), last_purged: None, vote: None, committed: None };
        assert(log_map(r.entries@) =~= Map::<u64, EntryView>::empty());
        r
    }

    /// Sets the entry at `index`.
    pub(crate) fn set_entry(&mut self, index: u64, e: StoredEntry)
        ensures
            final(self)@ == with_entry(old(self)@, index, e@),
    {
        proof {
            use_type_invariant(&*self);
        }
        let mut v: Vec<(u64, StoredEntry)> = Vec::new();
        std::mem::swap(&mut v, &mut self.entries);
        let ghost before = v@;
        let ghost ev = e@;
        let mut pos: usize = v.len();
        while pos > 0 && v[pos - 1].0 > index
            invariant
                pos <= v.len(),
                v@ == before,
                ascending(before),
                forall|i: int| pos <= i < v.len() ==> (#[trigger] before[i]).0 > index,
            decreases pos,
        {
            pos -= 1;
        }
        let ghost m = log_map(before).insert(index, ev);
        if pos > 0 && v[pos - 1].0 == index {
            v.set(pos - 1, (index, e));
            proof {
                assert forall|i: int| 0 <= i < v.len() implies m.contains_key((#[trigger] v@[i]).0)
                    && m[v@[i].0] == v@[i].1@ by {
                    lemma_log_map(before, i);
                    if i != pos - 1 {
                        assert(before[i].0 != before[pos - 1].0);
                    }
                }
                assert forall|k: u64| #[trigger] m.contains_key(k) implies exists|i: int|
                    0 <= i < v.len() && (#[trigger] v@[i]).0 == k by {
                    if k == index {
                        assert(v@[pos - 1].0 == k);
                    } else {
                        let i = choose|i: int| 0 <= i < before.len() && (#[trigger] before[i]).0 == k;
                        assert(v@[i].0 == k);
                    }
                }
                lemma_same_map(v@, m);
            }
        } else {
            proof {
                assert forall|i: int| 0 <= i < pos implies (#[trigger] before[i]).0 < index by {
                    if i < pos - 1 {
                        assert(before[i].0 < before[pos - 1].0);
                    }
                }
            }
            v.insert(pos, (index, e));
            proof {
                assert forall|i: int, j: int| 0 <= i < j < v.len() implies (#[trigger] v@[i]).0 < (
                #[trigger] v@[j]).0 by {
                    let i0 = if i < pos {
                        i
                    } else {
                        i - 1
                    };
                    let j0 = if j < pos {
                        j
                    } else {
                        j - 1
                    };
                    if i != pos {
                        assert(v@[i] == before[i0]);
                    }
                    if j != pos {
                        assert(v@[j] == before[j0]);
                    }
                }
                assert forall|i: int| 0 <= i < v.len() implies m.contains_key((#[trigger] v@[i]).0)
                    && m[v@[i].0] == v@[i].1@ by {
                    if i < pos {
                        assert(v@[i] == before[i]);
                        lemma_log_map(before, i);
                    } else if i > pos {
                        assert(v@[i] == before[i - 1]);
                        lemma_log_map(before, i - 1);
                    }
                }
                assert forall|k: u64| #[trigger] m.contains_key(k) implies exists|i: int|
                    0 <= i < v.len() && (#[trigger] v@[i]).0 == k by {
                    if k == index {
                        assert(v@[pos as int].0 == k);
                    } else {
                        let i = choose|i: int| 0 <= i < before.len() && (#[trigger] before[i]).0 == k;
                        if i < pos {
                            assert(v@[i].0 == k);
                        } else {
                            assert(v@[i + 1].0 == k);
                        }
                    }
                }
                lemma_same_map(v@, m);
            }
        }
        self.entries = v;
    }

    /// Stores the given entries, each at its own index, over what is there.
    #[verifier::rlimit(40)]
    pub fn append(&mut self, entries: &Vec<StoredEntry>)
        ensures
            final(self)@ == with_appended(old(self)@, entry_views(entries@)),
            final(self)@.vote == old(self)@.vote,
            final(self)@.committed == old(self)@.committed,
            final(self)@.last_purged == old(self)@.last_purged,
            forall|k: u64|
                (forall|i: int| 0 <= i < entries@.len() ==> (#[trigger] entries@[i]).log_id.index != k)
                    ==> {
                    &&& #[trigger] final(self)@.log.contains_key(k) <==> old(self)@.log.contains_key(k)
                    &&& old(self)@.log.contains_key(k) ==> final(self)@.log[k] == old(self)@.log[k]
                },
            forall|i: int|
                0 <= i < entries@.len() && (forall|j: int|
                    i < j < entries@.len() ==> (#[trigger] entries@[j]).log_id.index != (
                    #[trigger] entries@[i]).log_id.index) ==> {
                    &&& final(self)@.log.contains_key(entries@[i].log_id.index)
                    &&& final(self)@.log[entries@[i].log_id.index] == entries@[i]@
                },
    {
        let ghost s = self@;
        let ghost all = entry_views(entries@);
        let mut i: usize = 0;
        assert(all.subrange(0, 0) =~= Seq::<EntryView>::empty());
        while i < entries.len()
            invariant
                i <= entries.len(),
                all == entry_views(entries@),
                self@ == with_appended(s, all.subrange(0, i as int)),
            decreases entries.len() - i,
        {
            let ghost now = all.subrange(0, i + 1);
            assert(now.drop_last() =~= all.subrange(0, i as int));
            self.set_entry(entries[i].log_id.index, entries[i].duplicate());
            i += 1;
        }
        assert(all.subrange(0, i as int) =~= all);
        proof {
            appended_keep_rest(s, all);
            assert forall|k: u64|
                (forall|i: int|
                    0 <= i < entries@.len() ==> (#[trigger] entries@[i]).log_id.index
                        != k) implies ((#[trigger] self@.log.contains_key(k))
                <==> s.log.contains_key(k)) && (s.log.contains_key(k) ==> self@.log[k]
                == s.log[k]) by {
                assert forall|i: int| 0 <= i < all.len() implies (#[trigger] all[i]).log_id.index
                    != k by {
                    assert(entries@[i].log_id.index != k);
                }
                unnamed_indexes_stay(s, all, k);
            }
            assert forall|i: int|
                0 <= i < entries@.len() && (forall|j: int|
                    i < j < entries@.len() ==> (#[trigger] entries@[j]).log_id.index != (
                    #[trigger] entries@[i]).log_id.index) implies self@.log.contains_key(
                entries@[i].log_id.index,
            ) && self@.log[entries@[i].log_id.index] == entries@[i]@ by {
                assert forall|j: int| i < j < all.len() implies (#[trigger] all[j]).log_id.index
                    != all[i].log_id.index by {
                    assert(entries@[j].log_id.index != entries@[i].log_id.index);
                }
                last_appended_stays(s, all, i);
            }
        }
    }

    /// The entries with an index in `from..to` (to the end where `to` is
    /// `None`), ascending.
    pub fn try_get_log_entries(&self, from: u64, to: Option<u64>) -> (r: Vec<(u64, StoredEntry)>)
        ensures
            ascending(r@),
            log_map(r@) == log_range(self@.log, from, to),
            forall|i: int|
                0 <= i < r@.len() ==> {
                    &&& self@.log.contains_key((#[trigger] r@[i]).0)
                    &&& self@.log[r@[i].0] == r@[i].1@
                    &&& from <= r@[i].0
                    &&& to is Some ==> r@[i].0 < to->0
                },
            forall|k: u64| #[trigger]
                self@.log.contains_key(k) && from <= k && (to is Some ==> k < to->0) ==> exists|i: int|
                    0 <= i < r@.len() && (#[trigger] r@[i]).0 == k,
            forall|i: int, j: int| 0 <= i < j < r@.len() ==> (#[trigger] r@[i]).0 < (#[trigger] r@[j]).0,
    {
        proof {
            use_type_invariant(self);
        }
        let mut r: Vec<(u64, StoredEntry)> = Vec::new();
        let mut i: usize = 0;
        let ghost v = self.entries@;
        let ghost m = log_range(self@.log, from, to);
        while i < self.entries.len()
            invariant
                i <= self.entries.len(),
                v == self.entries@,
                ascending(v),
                m == log_range(log_map(v), from, to),
                ascending(r@),
                forall|x: int|
                    0 <= x < r.len() ==> m.contains_key((#[trigger] r@[x]).0) && m[r@[x].0]
                        == r@[x].1@,
                forall|x: int|
                    0 <= x < r.len() && i < v.len() ==> (#[trigger] r@[x]).0 < v[i as int].0,
                forall|y: int|
                    0 <= y < i && in_range((#[trigger] v[y]).0, from, to) ==> exists|x: int|
                        0 <= x < r.len() && (#[trigger] r@[x]).0 == v[y].0,
            decreases self.entries.len() - i,
        {
            let index: u64 = self.entries[i].0;
            let ghost before = r@;
            let keep: bool = from <= index && match to {
                Some(t) => index < t,
                None => true,
            };
            proof {
                lemma_log_map(v, i as int);
            }
            if keep {
                r.push((index, self.entries[i].1.duplicate()));
                assert(r@[before.len() as int].0 == v[i as int].0);
            }
            proof {
                assert forall|y: int|
                    0 <= y < i + 1 && in_range((#[trigger] v[y]).0, from, to) implies exists|x: int|
                    0 <= x < r.len() && (#[trigger] r@[x]).0 == v[y].0 by {
                    if y < i {
                        let x = choose|x: int|
                            0 <= x < before.len() && (#[trigger] before[x]).0 == v[y].0;
                        assert(r@[x].0 == v[y].0);
                    } else {
                        assert(r@[before.len() as int].0 == v[y].0);
                    }
                }
                if i + 1 < v.len() {
                    assert(v[i as int].0 < v[i + 1].0);
                }
            }
            i += 1;
        }
        proof {
            assert forall|k: u64| #[trigger] m.contains_key(k) implies exists|x: int|
                0 <= x < r.len() && (#[trigger] r@[x]).0 == k by {
                let y = choose|y: int| 0 <= y < v.len() && (#[trigger] v[y]).0 == k;
                let x = choose|x: int| 0 <= x < r.len() && (#[trigger] r@[x]).0 == v[y].0;
                assert(r@[x].0 == k);
            }
            lemma_same_map(r@, m);
        }
        r
    }

    /// The last purged entry and the last entry of the log; where no entry is
    /// left, the last one is the last purged one.
    pub fn get_log_state(&self) -> (r: LogEnds)
        ensures
            r.last_purged_log_id == self@.last_purged,
            is_last_log_id(self@, r.last_log_id),
            (forall|k: u64| !#[trigger] self@.log.contains_key(k)) ==> r.last_log_id == self@.last_purged,
            forall|k: u64| #[trigger]
                self@.log.contains_key(k) && (forall|j: u64| #[trigger]
                    self@.log.contains_key(j) ==> j <= k) ==> r.last_log_id == Some(self@.log[k].log_id),
    {
        proof {
            use_type_invariant(self);
        }
        let n: usize = self.entries.len();
        let last: Option<LogId> = if n == 0 {
            assert(self@.log.dom() =~= Set::<u64>::empty());
            self.last_purged
        } else {
            proof {
                let v = self.entries@;
                let k = v[n - 1].0;
                lemma_log_map(v, n - 1);
                assert(self@.log.dom().contains(k));
                assert forall|j: u64| #[trigger] self@.log.contains_key(j) implies j <= k by {
                    let i = choose|i: int| 0 <= i < v.len() && (#[trigger] v[i]).0 == j;
                    if i < n - 1 {
                        assert(v[i].0 < v[n - 1].0);
                    }
                }
            }
            Some(self.entries[n - 1].1.log_id)
        };
        LogEnds { last_purged_log_id: self.last_purged, last_log_id: last }
    }

    pub fn save_vote(&mut self, vote: Vote)
        ensures
            final(self)@ == (LogState { vote: Some(vote), ..old(self)@ }),
            final(self)@.vote == Some(vote),
            final(self)@.log == old(self)@.log,
            final(self)@.last_purged == old(self)@.last_purged,
            final(self)@.committed == old(self)@.committed,
    {
        proof {
            use_type_invariant(&*self);
        }
        self.vote = Some(vote);
    }

    pub fn read_vote(&self) -> (r: Option<Vote>)
        ensures
            r == self@.vote,
    {
        self.vote
    }

    pub fn save_committed(&mut self, committed: Option<LogId>)
        ensures
            final(self)@ == (LogState { committed, ..old(self)@ }),
            final(self)@.committed == committed,
            final(self)@.log == old(self)@.log,
            final(self)@.last_purged == old(self)@.last_purged,
            final(self)@.vote == old(self)@.vote,
    {
        proof {
            use_type_invariant(&*self);
        }
        self.committed = committed;
    }

    pub fn read_committed(&self) -> (r: Option<LogId>)
        ensures
            r == self@.committed,
    {
        self.committed
    }

    /// Removes the entries from index `at` on.
    pub(crate) fn cut_from(&mut self, at: u64)
        ensures
            final(self)@ == truncated(old(self)@, at),
    {
        proof {
            use_type_invariant(&*self);
        }
        let mut v: Vec<(u64, StoredEntry)> = Vec::new();
        std::mem::swap(&mut v, &mut self.entries);
        let ghost before = v@;
        let mut n: usize = v.len();
        while n > 0 && v[n - 1].0 >= at
            invariant
                n <= v.len(),
                v@ == before,
                forall|i: int| n <= i < v.len() ==> (#[trigger] before[i]).0 >= at,
            decreases n,
        {
            n -= 1;
        }
        v.truncate(n);
        proof {
            let m = log_before(log_map(before), at);
            assert forall|i: int| 0 <= i < v.len() implies m.contains_key((#[trigger] v@[i]).0)
                && m[v@[i].0] == v@[i].1@ by {
                assert(v@[i] == before[i]);
                lemma_log_map(before, i);
                if i < n - 1 {
                    assert(before[i].0 < before[n - 1].0);
                }
            }
            assert forall|k: u64| #[trigger] m.contains_key(k) implies exists|i: int|
                0 <= i < v.len() && (#[trigger] v@[i]).0 == k by {
                let i = choose|i: int| 0 <= i < before.len() && (#[trigger] before[i]).0 == k;
                assert(v@[i].0 == k);
            }
            assert(ascending(v@)) by {
                assert forall|i: int, j: int| 0 <= i < j < v.len() implies (#[trigger] v@[i]).0 < (
                #[trigger] v@[j]).0 by {
                    assert(v@[i] == before[i] && v@[j] == before[j]);
                }
            }
            lemma_same_map(v@, m);
        }
        self.entries = v;
    }

    /// Sets the last purged entry, the log left as it is.
    pub(crate) fn set_purged(&mut self, last_purged: Option<LogId>)
        ensures
            final(self)@ == (LogState { last_purged, ..old(self)@ }),
    {
        proof {
            use_type_invariant(&*self);
        }
        self.last_purged = last_purged;
    }

    /// Removes the entries from that of `log_id` on.
    pub fn truncate(&mut self, log_id: LogId)
        ensures
            final(self)@ == truncated(old(self)@, log_id.index),
            forall|k: u64|
                {
                    &&& #[trigger] final(self)@.log.contains_key(k) <==> old(self)@.log.contains_key(k)
                        && k < log_id.index
                    &&& final(self)@.log.contains_key(k) ==> final(self)@.log[k] == old(self)@.log[k]
                },
            final(self)@.last_purged == old(self)@.last_purged,
            final(self)@.vote == old(self)@.vote,
            final(self)@.committed == old(self)@.committed,
    {
        self.cut_from(log_id.index);
    }

    /// Removes the entries up to and including that of `log_id`.
    pub fn purge(&mut self, log_id: LogId)
        ensures
            final(self)@ == purged(old(self)@, log_id),
            forall|k: u64|
                {
                    &&& #[trigger] final(self)@.log.contains_key(k) <==> old(self)@.log.contains_key(k)
                        && k > log_id.index
                    &&& final(self)@.log.contains_key(k) ==> final(self)@.log[k] == old(self)@.log[k]
                },
            final(self)@.last_purged == Some(log_id),
            final(self)@.vote == old(self)@.vote,
            final(self)@.committed == old(self)@.committed,
    {
        proof {
            use_type_invariant(&*self);
        }
        let mut v: Vec<(u64, StoredEntry)> = Vec::new();
        std::mem::swap(&mut v, &mut self.entries);
        let ghost before = v@;
        let mut n: usize = 0;
        while n < v.len() && v[n].0 <= log_id.index
            invariant
                n <= v.len(),
                v@ == before,
                forall|i: int| 0 <= i < n ==> (#[trigger] before[i]).0 <= log_id.index,
            decreases v.len() - n,
        {
            n += 1;
        }
        let rest = v.split_off(n);
        proof {
            let m = log_after(log_map(before), log_id.index);
            assert forall|i: int| 0 <= i < rest.len() implies m.contains_key(
                (#[trigger] rest@[i]).0,
            ) && m[rest@[i].0] == rest@[i].1@ by {
                assert(rest@[i] == before[n + i]);
                lemma_log_map(before, n + i);
                if i > 0 {
                    assert(before[n as int].0 < before[n + i].0);
                }
            }
            assert forall|k: u64| #[trigger] m.contains_key(k) implies exists|i: int|
                0 <= i < rest.len() && (#[trigger] rest@[i]).0 == k by {
                let i = choose|i: int| 0 <= i < before.len() && (#[trigger] before[i]).0 == k;
                assert(rest@[i - n].0 == k);
            }
            assert(ascending(rest@)) by {
                assert forall|i: int, j: int| 0 <= i < j < rest.len() implies (
                #[trigger] rest@[i]).0 < (#[trigger] rest@[j]).0 by {
                    assert(rest@[i] == before[n + i] && rest@[j] == before[n + j]);
                }
            }
            lemma_same_map(rest@, m);
        }
        self.entries = rest;
        self.last_purged = Some(log_id);
    }
}

/// The contents of some entries.
pub open spec fn entry_views(v: Seq<StoredEntry>) -> Seq<EntryView> {
    Seq::new(v.len(), |i: int| v[i]@)
}

/// `index` lies in `from..to`.
pub open spec fn in_range(index: u64, from: u64, to: Option<u64>) -> bool {
    from <= index && (to matches Some(t) ==> index < t)
}

/// The entries with an index in `from..to`.
pub open spec fn log_range(log: Map<u64, EntryView>, from: u64, to: Option<u64>) -> Map<
    u64,
    EntryView,
> {
    Map::new(|k: u64| log.contains_key(k) && in_range(k, from, to), |k: u64| log[k])
}

/// Appending touches nothing but the entries.
pub proof fn appended_keep_rest(s: LogState, es: Seq<EntryView>)
    ensures
        with_appended(s, es).vote == s.vote,
        with_appended(s, es).committed == s.committed,
        with_appended(s, es).last_purged == s.last_purged,
    decreases es.len(),
{
    if es.len() > 0 {
        appended_keep_rest(s, es.drop_last());
    }
}

/// Indexes that no appended entry has keep what they had.
pub proof fn unnamed_indexes_stay(s: LogState, es: Seq<EntryView>, k: u64)
    requires
        forall|i: int| 0 <= i < es.len() ==> (#[trigger] es[i]).log_id.index != k,
    ensures
        with_appended(s, es).log.contains_key(k) <==> s.log.contains_key(k),
        s.log.contains_key(k) ==> with_appended(s, es).log[k] == s.log[k],
    decreases es.len(),
{
    if es.len() > 0 {
        let front = es.drop_last();
        assert forall|i: int| 0 <= i < front.len() implies (#[trigger] front[i]).log_id.index
            != k by {
            assert(es[i].log_id.index != k);
        }
        unnamed_indexes_stay(s, front, k);
        assert(es[es.len() - 1].log_id.index != k);
    }
}

/// Of the entries appended at one index the last one stays.
pub proof fn last_appended_stays(s: LogState, es: Seq<EntryView>, i: int)
    requires
        0 <= i < es.len(),
        forall|j: int| i < j < es.len() ==> (#[trigger] es[j]).log_id.index != es[i].log_id.index,
    ensures
        with_appended(s, es).log.contains_key(es[i].log_id.index),
        with_appended(s, es).log[es[i].log_id.index] == es[i],
    decreases es.len(),
{
    if i < es.len() - 1 {
        let front = es.drop_last();
        assert(front[i] == es[i]);
        assert forall|j: int| i < j < front.len() implies (#[trigger] front[j]).log_id.index
            != front[i].log_id.index by {
            assert(es[j].log_id.index != es[i].log_id.index);
        }
        last_appended_stays(s, front, i);
        assert(es[es.len() - 1].log_id.index != es[i].log_id.index);
    }
}

} // verus!
