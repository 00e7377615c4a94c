//! Durable storage of the replicated log: every change is a record of a log
//! file, and replaying the records rebuilds the state.

use vstd::prelude::*;
use crate::frame::FrameScan;
use crate::log_store;
use crate::log_store::{LogEnds, LogId, LogStore, StoredEntry, Vote};
use crate::types::{Corruption, LedgeError};

verus! {

/// One record of the log file.
#[allow(inconsistent_fields)]
pub enum WalRec {
    /// The entry at `index`.
    Entry { index: u64, entry: StoredEntry },
    /// The vote.
    Vote { vote: Vote },
    /// The committed position.
    Committed { committed: Option<LogId> },
    /// The entries from `at` on were removed.
    Truncate { at: u64 },
    /// The entries up to and including `up_to` were removed.
    Purge { up_to: LogId },
    /// The whole state; what stands before it is superseded.
    Snapshot {
        entries: Vec<(u64, StoredEntry)>,
        vote: Option<Vote>,
        committed: Option<LogId>,
        purged: Option<LogId>,
    },
}

/// What a record holds.
#[allow(inconsistent_fields)]
pub enum RecView {
    Entry { index: u64, entry: log_store::EntryView },
    Vote { vote: Vote },
    Committed { committed: Option<LogId> },
    Truncate { at: u64 },
    Purge { up_to: LogId },
    Snapshot {
        entries: Seq<(u64, log_store::EntryView)>,
        vote: Option<Vote>,
        committed: Option<LogId>,
        purged: Option<LogId>,
    },
}

/// The contents of some indexed entries.
pub open spec fn pair_views(v: Seq<(u64, StoredEntry)>) -> Seq<(u64, log_store::EntryView)> {
    Seq::new(v.len(), |i: int| (v[i].0, v[i].1@))
}

impl View for WalRec {
    type V = RecView;

    open spec fn view(&self) -> RecView {
        match self {
            WalRec::Entry { index, entry } => RecView::Entry { index: *index, entry: entry@ },
            WalRec::Vote { vote } => RecView::Vote { vote: *vote },
            WalRec::Committed { committed } => RecView::Committed { committed: *committed },
            WalRec::Truncate { at } => RecView::Truncate { at: *at },
            WalRec::Purge { up_to } => RecView::Purge { up_to: *up_to },
            WalRec::Snapshot { entries, vote, committed, purged } => RecView::Snapshot {
                entries: pair_views(entries@),
                vote: *vote,
                committed: *committed,
                purged: *purged,
            },
        }
    }
}

/// `m` with the given entries put in, one after the other.
pub open spec fn with_pairs(
    m: Map<u64, log_store::EntryView>,
    items: Seq<(u64, log_store::EntryView)>,
) -> Map<u64, log_store::EntryView>
    decreases items.len(),
{
    if items.len() == 0 {
        m
    } else {
        with_pairs(m, items.drop_last()).insert(items.last().0, items.last().1)
    }
}

/// The state after one more record.
pub open spec fn apply_rec(s: log_store::LogState, r: RecView) -> log_store::LogState {
    match r {
        RecView::Entry { index, entry } => log_store::with_entry(s, index, entry),
        RecView::Vote { vote } => log_store::LogState { vote: Some(vote), ..s },
        RecView::Committed { committed } => log_store::LogState { committed, ..s },
        RecView::Truncate { at } => log_store::truncated(s, at),
        RecView::Purge { up_to } => log_store::purged(s, up_to),
        RecView::Snapshot { entries, vote, committed, purged } => log_store::LogState {
            log: with_pairs(Map::empty(), entries),
            last_purged: purged,
            vote,
            committed,
        },
    }
}

/// The state that some records describe, starting from `s`.
pub open spec fn replay_recs(s: log_store::LogState, recs: Seq<RecView>) -> log_store::LogState
    decreases recs.len(),
{
    if recs.len() == 0 {
        s
    } else {
        apply_rec(replay_recs(s, recs.drop_last()), recs.last())
    }
}

/// A snapshot supersedes what stands before it: replaying from it gives what
/// replaying all records gives.
pub proof fn replay_from_snapshot(
    s: log_store::LogState,
    recs: Seq<RecView>,
    i: int,
)
    requires
        0 <= i < recs.len(),
        recs[i] is Snapshot,
    ensures
        replay_recs(s, recs) == replay_recs(
            log_store::empty_state(),
            recs.subrange(i, recs.len() as int),
        ),
    decreases recs.len(),
{
    let tail = recs.subrange(i, recs.len() as int);
    if recs.len() == i + 1 {
        assert(tail =~= seq![recs[i]]);
        reveal_with_fuel(replay_recs, 2);
        assert(tail.drop_last() =~= Seq::<RecView>::empty());
    } else {
        replay_from_snapshot(s, recs.drop_last(), i);
        assert(recs.drop_last().subrange(i, recs.len() - 1) =~= tail.drop_last());
        assert(tail.last() == recs.last());
    }
}

/// What the payload of a frame decodes to.
pub enum FrameRecord {
    /// Nothing.
    Unreadable,
    /// A record one of whose encoded parts does not decode.
    BrokenPart { snapshot: bool },
    /// A record.
    Record(WalRec),
}

/// Records written to a file in parts give what they give written at once: opening
/// the file shows the state that was left behind.
pub proof fn replay_in_parts(s: log_store::LogState, first: Seq<RecView>, rest: Seq<RecView>)
    ensures
        replay_recs(s, first + rest) == replay_recs(replay_recs(s, first), rest),
    decreases rest.len(),
{
    if rest.len() == 0 {
        assert(first + rest =~= first);
    } else {
        assert((first + rest).drop_last() =~= first + rest.drop_last());
        replay_in_parts(s, first, rest.drop_last());
    }
}

/// Whether the frame holds a snapshot record.
pub open spec fn is_snapshot(f: FrameRecord) -> bool {
    match f {
        FrameRecord::Unreadable => false,
        FrameRecord::BrokenPart { snapshot } => snapshot,
        FrameRecord::Record(r) => r is Snapshot,
    }
}

/// The number of frames in front of the first unreadable one.
pub open spec fn readable(frames: Seq<FrameRecord>) -> int
    decreases frames.len(),
{
    if frames.len() == 0 || frames[0] is Unreadable {
        0
    } else {
        1 + readable(frames.subrange(1, frames.len() as int))
    }
}

proof fn lemma_readable(frames: Seq<FrameRecord>, n: int)
    requires
        0 <= n <= frames.len(),
        forall|i: int| 0 <= i < n ==> !((#[trigger] frames[i]) is Unreadable),
        n < frames.len() ==> frames[n] is Unreadable,
    ensures
        readable(frames) == n,
    decreases n,
{
    if n > 0 {
        let rest = frames.subrange(1, frames.len() as int);
        assert(forall|i: int| 0 <= i < rest.len() ==> rest[i] == frames[i + 1]);
        assert(!(frames[0] is Unreadable));
        lemma_readable(rest, n - 1);
    }
}

/// The position of the last snapshot; 0 where there is none.
pub open spec fn last_snapshot(frames: Seq<FrameRecord>) -> int
    decreases frames.len(),
{
    if frames.len() == 0 {
        0
    } else if is_snapshot(frames.last()) {
        frames.len() - 1
    } else {
        last_snapshot(frames.drop_last())
    }
}

proof fn lemma_last_snapshot(frames: Seq<FrameRecord>)
    ensures
        0 <= last_snapshot(frames) <= frames.len(),
        last_snapshot(frames) > 0 ==> last_snapshot(frames) < frames.len() && is_snapshot(
            frames[last_snapshot(frames)],
        ),
    decreases frames.len(),
{
    if frames.len() > 0 && !is_snapshot(frames.last()) {
        lemma_last_snapshot(frames.drop_last());
    }
}

/// The records that decoded.
pub open spec fn records(frames: Seq<FrameRecord>) -> Seq<RecView> {
    Seq::new(frames.len(), |i: int| frames[i]->Record_0@)
}

/// The frames that recovery replays: from the last snapshot on, up to the first
/// unreadable one.
pub open spec fn replayed(frames: Seq<FrameRecord>) -> Seq<FrameRecord> {
    let kept = frames.subrange(0, readable(frames));
    kept.subrange(last_snapshot(kept), kept.len() as int)
}

/// Where every readable frame decodes in full, replaying from the last snapshot
/// gives what replaying all of them gives.
pub proof fn replayed_is_enough(frames: Seq<FrameRecord>)
    requires
        forall|i: int| 0 <= i < frames.len() ==> (#[trigger] frames[i]) is Record,
    ensures
        replay_recs(log_store::empty_state(), records(replayed(frames))) == replay_recs(
            log_store::empty_state(),
            records(frames),
        ),
{
    lemma_readable(frames, frames.len() as int);
    let kept = frames.subrange(0, readable(frames));
    assert(kept =~= frames);
    lemma_last_snapshot(frames);
    let i = last_snapshot(frames);
    if i == 0 {
        assert(replayed(frames) =~= frames);
    } else {
        assert(records(frames)[i] is Snapshot);
        replay_from_snapshot(log_store::empty_state(), records(frames), i);
        assert(records(replayed(frames)) =~= records(frames).subrange(i, frames.len() as int));
    }
}

/// Durable log storage: the state, and the records of the changes that have not
/// been written to the file yet, oldest first.
pub struct WalLogStore {
    state: LogStore,
    pending: Vec<WalRec>,
}

/// The contents of some records.
pub open spec fn rec_views(v: Seq<WalRec>) -> Seq<RecView> {
    Seq::new(v.len(), |i: int| v[i]@)
}

/// The records of appending some entries.
pub open spec fn append_recs(es: Seq<log_store::EntryView>) -> Seq<RecView> {
    Seq::new(
        es.len(),
        |i: int| RecView::Entry { index: es[i].log_id.index, entry: es[i] },
    )
}

proof fn lemma_append_recs(s: log_store::LogState, es: Seq<log_store::EntryView>)
    ensures
        log_store::with_appended(s, es) == replay_recs(s, append_recs(es)),
    decreases es.len(),
{
    if es.len() > 0 {
        lemma_append_recs(s, es.drop_last());
        assert(append_recs(es).drop_last() =~= append_recs(es.drop_last()));
    }
}

impl View for WalLogStore {
    type V = log_store::LogState;

    closed spec fn view(&self) -> log_store::LogState {
        self.state@
    }
}

impl WalLogStore {
    /// The records that have not been written to the file yet.
    pub closed spec fn pending(&self) -> Seq<RecView> {
        rec_views(self.pending@)
    }

    /// Rebuilds the storage from a log file, given the scan of its frames and
    /// what each of them decodes to. Returns it with the number of bytes of the
    /// file to keep: what stands behind the last readable frame is dropped.
    pub fn open(scan: &FrameScan, frames: &Vec<FrameRecord>) -> (r: Result<
        (Self, usize),
        LedgeError,
    >)
        requires
            frames.len() == scan.spans.len(),
        ensures
            match r {
                Ok((s, keep)) => {
                    &&& forall|i: int|
                        0 <= i < replayed(frames@).len() ==> (#[trigger] replayed(frames@)[i])
                            is Record
                    &&& s@ == replay_recs(
                        log_store::empty_state(),
                        records(replayed(frames@)),
                    )
                    &&& s.pending() == Seq::<RecView>::empty()
                    &&& keep == if readable(frames@) == 0 {
                        0
                    } else {
                        scan.spans@[readable(frames@) - 1].1
                    }
                },
                Err(e) => {
                    &&& e == LedgeError::Corruption(Corruption::RecordPart)
                    &&& exists|i: int|
                        0 <= i < replayed(frames@).len() && (#[trigger] replayed(frames@)[i])
                            is BrokenPart
                },
            },
    {
        let mut n: usize = 0;
        let mut start: usize = 0;
        assert(frames@.subrange(0, 0) =~= Seq::<FrameRecord>::empty());
        let mut stop: bool = false;
        while n < frames.len() && !stop
            invariant
                n <= frames.len(),
                forall|i: int| 0 <= i < n ==> !((#[trigger] frames@[i]) is Unreadable),
                stop ==> n < frames.len() && frames@[n as int] is Unreadable,
                start == last_snapshot(frames@.subrange(0, n as int)),
                start <= n,
            decreases frames.len() - n, if stop { 0int } else { 1int },
        {
            let ghost now = frames@.subrange(0, n + 1);
            assert(now.drop_last() =~= frames@.subrange(0, n as int));
            assert(now.last() == frames@[n as int]);
            let snapshot: bool = match &frames[n] {
                FrameRecord::Unreadable => {
                    stop = true;
                    false
                },
                FrameRecord::BrokenPart { snapshot } => *snapshot,
                FrameRecord::Record(WalRec::Snapshot { .. }) => true,
                FrameRecord::Record(_) => false,
            };
            if !stop {
                if snapshot {
                    start = n;
                }
                n += 1;
            }
        }
        proof {
            lemma_readable(frames@, n as int);
        }
        let ghost rep = replayed(frames@);
        assert(rep =~= frames@.subrange(start as int, n as int));
        let mut state = LogStore::new();
        let mut i: usize = start;
        assert(records(rep).subrange(0, 0) =~= Seq::<RecView>::empty());
        while i < n
            invariant
                start <= i <= n <= frames.len(),
                rep == frames@.subrange(start as int, n as int),
                rep == replayed(frames@),
                forall|i: int| 0 <= i < n ==> !((#[trigger] frames@[i]) is Unreadable),
                forall|j: int| 0 <= j < i - start ==> (#[trigger] rep[j]) is Record,
                state@ == replay_recs(
                    log_store::empty_state(),
                    records(rep).subrange(0, i - start),
                ),
            decreases n - i,
        {
            let ghost now = records(rep).subrange(0, i + 1 - start);
            assert(now.drop_last() =~= records(rep).subrange(0, i - start));
            assert(rep[i - start] == frames@[i as int]);
            match &frames[i] {
                FrameRecord::Record(rec) => {
                    assert(now.last() == rec@);
                    apply_record(&mut state, rec);
                },
                FrameRecord::BrokenPart { .. } => {
                    assert(rep[i - start] is BrokenPart);
                    return Err(LedgeError::Corruption(Corruption::RecordPart));
                },
                FrameRecord::Unreadable => {},
            }
            i += 1;
        }
        assert(records(rep).subrange(0, n - start) =~= records(rep));
        let keep: usize = if n == 0 {
            0
        } else {
            scan.spans[n - 1].1
        };
        let r = WalLogStore { state, pending: Vec::new() };
        assert(r.pending() =~= Seq::<RecView>::empty());
        Ok((r, keep))
    }

    fn log(&mut self, rec: WalRec)
        ensures
            final(self)@ == old(self)@,
            final(self).pending() == old(self).pending().push(rec@),
    {
        let ghost before = self.pending@;
        self.pending.push(rec);
        assert(rec_views(self.pending@) =~= rec_views(before).push(rec@));
    }

    /// Hands out the records of the changes since the last call.
    pub fn take_pending(&mut self) -> (r: Vec<WalRec>)
        ensures
            rec_views(r@) == old(self).pending(),
            final(self)@ == old(self)@,
            final(self).pending() == Seq::<RecView>::empty(),
    {
        let mut pending: Vec<WalRec> = Vec::new();
        std::mem::swap(&mut pending, &mut self.pending);
        assert(self.pending() =~= Seq::<RecView>::empty());
        pending
    }

    /// Stores the given entries, each at its own index, over what is there.
    pub fn append(&mut self, entries: &Vec<StoredEntry>)
        ensures
            final(self)@ == log_store::with_appended(
                old(self)@,
                log_store::entry_views(entries@),
            ),
            final(self)@ == replay_recs(
                old(self)@,
                append_recs(log_store::entry_views(entries@)),
            ),
            final(self).pending() == old(self).pending() + append_recs(
                log_store::entry_views(entries@),
            ),
            final(self)@.vote == old(self)@.vote,
            final(self)@.committed == old(self)@.committed,
            final(self)@.last_purged == old(self)@.last_purged,
            forall|k: u64|
                (forall|i: int| 0 <= i < entries@.len() ==> (#[trigger] entries@[i]).log_id.index != k)
                    ==> {
                    &&& #[trigger] final(self)@.log.contains_key(k) <==> old(self)@.log.contains_key(k)
                    &&& old(self)@.log.contains_key(k) ==> final(self)@.log[k] == old(self)@.log[k]
                },
            forall|i: int|
                0 <= i < entries@.len() && (forall|j: int|
                    i < j < entries@.len() ==> (#[trigger] entries@[j]).log_id.index != (
                    #[trigger] entries@[i]).log_id.index) ==> {
                    &&& final(self)@.log.contains_key(entries@[i].log_id.index)
                    &&& final(self)@.log[entries@[i].log_id.index] == entries@[i]@
                },
    {
        let ghost s = self@;
        let ghost before = self.pending();
        let ghost all = append_recs(log_store::entry_views(entries@));
        let mut i: usize = 0;
        assert(all.subrange(0, 0) =~= Seq::<RecView>::empty());
        assert(before + all.subrange(0, 0) =~= before);
        while i < entries.len()
            invariant
                i <= entries.len(),
                self@ == s,
                all == append_recs(log_store::entry_views(entries@)),
                self.pending() == before + all.subrange(0, i as int),
            decreases entries.len() - i,
        {
            let e = &entries[i];
            self.log(WalRec::Entry { index: e.log_id.index, entry: e.duplicate() });
            i += 1;
            assert(before + all.subrange(0, i as int) =~= (before + all.subrange(0, i - 1)).push(
                all[i - 1],
            ));
        }
        assert(all.subrange(0, i as int) =~= all);
        self.state.append(entries);
        proof {
            lemma_append_recs(s, log_store::entry_views(entries@));
        }
    }

    pub fn save_vote(&mut self, vote: Vote)
        ensures
            final(self)@ == apply_rec(old(self)@, (RecView::Vote { vote })),
            final(self).pending() == old(self).pending().push((RecView::Vote { vote })),
            final(self)@.vote == Some(vote),
            final(self)@.log == old(self)@.log,
            final(self)@.last_purged == old(self)@.last_purged,
            final(self)@.committed == old(self)@.committed,
    {
        self.log(WalRec::Vote { vote });
        self.state.save_vote(vote);
    }

    pub fn save_committed(&mut self, committed: Option<LogId>)
        ensures
            final(self)@ == apply_rec(old(self)@, (RecView::Committed { committed })),
            final(self).pending() == old(self).pending().push((RecView::Committed { committed })),
            final(self)@.committed == committed,
            final(self)@.log == old(self)@.log,
            final(self)@.last_purged == old(self)@.last_purged,
            final(self)@.vote == old(self)@.vote,
    {
        self.log(WalRec::Committed { committed });
        self.state.save_committed(committed);
    }

    /// Removes the entries from that of `log_id` on.
    pub fn truncate(&mut self, log_id: LogId)
        ensures
            final(self)@ == apply_rec(old(self)@, (RecView::Truncate { at: log_id.index })),
            final(self).pending() == old(self).pending().push(
                (RecView::Truncate { at: log_id.index }),
            ),
            forall|k: u64|
                {
                    &&& #[trigger] final(self)@.log.contains_key(k) <==> old(self)@.log.contains_key(k)
                        && k < log_id.index
                    &&& final(self)@.log.contains_key(k) ==> final(self)@.log[k] == old(self)@.log[k]
                },
            final(self)@.last_purged == old(self)@.last_purged,
            final(self)@.vote == old(self)@.vote,
            final(self)@.committed == old(self)@.committed,
    {
        self.log(WalRec::Truncate { at: log_id.index });
        self.state.truncate(log_id);
    }

    /// Removes the entries up to and including that of `log_id`.
    pub fn purge(&mut self, log_id: LogId)
        ensures
            final(self)@ == apply_rec(old(self)@, (RecView::Purge { up_to: log_id })),
            final(self).pending() == old(self).pending().push((RecView::Purge { up_to: log_id })),
            forall|k: u64|
                {
                    &&& #[trigger] final(self)@.log.contains_key(k) <==> old(self)@.log.contains_key(k)
                        && k > log_id.index
                    &&& final(self)@.log.contains_key(k) ==> final(self)@.log[k] == old(self)@.log[k]
                },
            final(self)@.last_purged == Some(log_id),
            final(self)@.vote == old(self)@.vote,
            final(self)@.committed == old(self)@.committed,
    {
        self.log(WalRec::Purge { up_to: log_id });
        self.state.purge(log_id);
    }

    pub fn read_vote(&self) -> (r: Option<Vote>)
        ensures
            r == self@.vote,
    {
        self.state.read_vote()
    }

    pub fn read_committed(&self) -> (r: Option<LogId>)
        ensures
            r == self@.committed,
    {
        self.state.read_committed()
    }

    pub fn get_log_state(&self) -> (r: LogEnds)
        ensures
            r.last_purged_log_id == self@.last_purged,
            log_store::is_last_log_id(self@, r.last_log_id),
            (forall|k: u64| !#[trigger] self@.log.contains_key(k)) ==> r.last_log_id == self@.last_purged,
            forall|k: u64| #[trigger]
                self@.log.contains_key(k) && (forall|j: u64| #[trigger]
                    self@.log.contains_key(j) ==> j <= k) ==> r.last_log_id == Some(self@.log[k].log_id),
    {
        self.state.get_log_state()
    }

    /// The entries with an index in `from..to`, ascending.
    pub fn try_get_log_entries(&self, from: u64, to: Option<u64>) -> (r: Vec<(u64, StoredEntry)>)
        ensures
            log_store::ascending(r@),
            log_store::log_map(r@) == log_store::log_range(self@.log, from, to),
            forall|i: int|
                0 <= i < r@.len() ==> {
                    &&& self@.log.contains_key((#[trigger] r@[i]).0)
                    &&& self@.log[r@[i].0] == r@[i].1@
                    &&& from <= r@[i].0
                    &&& to is Some ==> r@[i].0 < to->0
                },
            forall|k: u64| #[trigger]
                self@.log.contains_key(k) && from <= k && (to is Some ==> k < to->0) ==> exists|i: int|
                    0 <= i < r@.len() && (#[trigger] r@[i]).0 == k,
            forall|i: int, j: int| 0 <= i < j < r@.len() ==> (#[trigger] r@[i]).0 < (#[trigger] r@[j]).0,
    {
        self.state.try_get_log_entries(from, to)
    }

    /// The one record that can stand for the whole file: the current state.
    pub fn rewrite_snapshot(&self) -> (r: WalRec)
        ensures
            r is Snapshot,
            forall|s: log_store::LogState| #[trigger] apply_rec(s, r@) == self@,
    {
        let entries = self.state.try_get_log_entries(0, None);
        proof {
            assert(log_store::log_range(self@.log, 0, None) =~= self@.log);
            lemma_pairs_of_ascending(entries@);
        }
        let ends = self.state.get_log_state();
        WalRec::Snapshot {
            entries,
            vote: self.state.read_vote(),
            committed: self.state.read_committed(),
            purged: ends.last_purged_log_id,
        }
    }
}

proof fn lemma_pairs_of_ascending(v: Seq<(u64, StoredEntry)>)
    requires
        log_store::ascending(v),
    ensures
        with_pairs(Map::empty(), pair_views(v)) == log_store::log_map(v),
    decreases v.len(),
{
    if v.len() == 0 {
        assert(log_store::log_map(v) =~= Map::<u64, log_store::EntryView>::empty());
    } else {
        let short = v.drop_last();
        let n = v.len() - 1;
        assert(log_store::ascending(short)) by {
            assert forall|i: int, j: int| 0 <= i < j < short.len() implies (#[trigger] short[i]).0
                < (#[trigger] short[j]).0 by {
                assert(short[i] == v[i] && short[j] == v[j]);
            }
        }
        lemma_pairs_of_ascending(short);
        assert(pair_views(v).drop_last() =~= pair_views(short));
        let m = log_store::log_map(short).insert(v[n].0, v[n].1@);
        assert forall|i: int| 0 <= i < v.len() implies m.contains_key((#[trigger] v[i]).0)
            && m[v[i].0] == v[i].1@ by {
            if i < n {
                assert(short[i] == v[i]);
                log_store::lemma_log_map(short, i);
                assert(v[i].0 < v[n].0);
            }
        }
        assert forall|k: u64| #[trigger] m.contains_key(k) implies exists|i: int|
            0 <= i < v.len() && (#[trigger] v[i]).0 == k by {
            if k == v[n].0 {
                assert(v[n].0 == k);
            } else {
                let i = choose|i: int| 0 <= i < short.len() && (#[trigger] short[i]).0 == k;
                assert(v[i].0 == k);
            }
        }
        log_store::lemma_same_map(v, m);
    }
}

/// Applies one record to the storage.
fn apply_record(state: &mut LogStore, rec: &WalRec)
    ensures
        final(state)@ == apply_rec(old(state)@, rec@),
{
    match rec {
        WalRec::Entry { index, entry } => {
            state.set_entry(*index, entry.duplicate());
        },
        WalRec::Vote { vote } => {
            state.save_vote(*vote);
        },
        WalRec::Committed { committed } => {
            state.save_committed(*committed);
        },
        WalRec::Truncate { at } => {
            state.cut_from(*at);
        },
        WalRec::Purge { up_to } => {
            state.purge(*up_to);
        },
        WalRec::Snapshot { entries, vote, committed, purged } => {
            let mut fresh = LogStore::new();
            let ghost all = pair_views(entries@);
            let mut i: usize = 0;
            assert(all.subrange(0, 0) =~= Seq::<(u64, log_store::EntryView)>::empty());
            while i < entries.len()
                invariant
                    i <= entries.len(),
                    all == pair_views(entries@),
                    fresh@ == (log_store::LogState {
                        log: with_pairs(Map::empty(), all.subrange(0, i as int)),
                        ..log_store::empty_state()
                    }),
                decreases entries.len() - i,
            {
                let ghost now = all.subrange(0, i + 1);
                assert(now.drop_last() =~= all.subrange(0, i as int));
                fresh.set_entry(entries[i].0, entries[i].1.duplicate());
                i += 1;
            }
            assert(all.subrange(0, i as int) =~= all);
            fresh.set_purged(*purged);
            if let Some(v) = vote {
                fresh.save_vote(*v);
            }
            fresh.save_committed(*committed);
            *state = fresh;
        },
    }
}

// ---------------------------------------------------------------------------
// Restarts
// ---------------------------------------------------------------------------

/// A call that changes the storage or rewrites its file.
pub enum LogCall {
    Append { entries: Seq<log_store::EntryView> },
    SaveVote { vote: Vote },
    SaveCommitted { committed: Option<LogId> },
    Truncate { log_id: LogId },
    Purge { log_id: LogId },
    /// The file is replaced by the one record.
    Rewrite { record: RecView },
}

/// The records that a call adds to the file, or that replace it.
pub open spec fn call_records(call: LogCall) -> Seq<RecView> {
    match call {
        LogCall::Append { entries } => append_recs(entries),
        LogCall::SaveVote { vote } => seq![RecView::Vote { vote }],
        LogCall::SaveCommitted { committed } => seq![RecView::Committed { committed }],
        LogCall::Truncate { log_id } => seq![RecView::Truncate { at: log_id.index }],
        LogCall::Purge { log_id } => seq![RecView::Purge { up_to: log_id }],
        LogCall::Rewrite { record } => seq![record],
    }
}

/// The state after a call.
pub open spec fn call_state(s: log_store::LogState, call: LogCall) -> log_store::LogState {
    match call {
        LogCall::Append { entries } => log_store::with_appended(s, entries),
        LogCall::SaveVote { vote } => log_store::LogState { vote: Some(vote), ..s },
        LogCall::SaveCommitted { committed } => log_store::LogState { committed, ..s },
        LogCall::Truncate { log_id } => log_store::truncated(s, log_id.index),
        LogCall::Purge { log_id } => log_store::purged(s, log_id),
        LogCall::Rewrite { record } => s,
    }
}

/// The state after some calls.
pub open spec fn calls_state(calls: Seq<LogCall>) -> log_store::LogState
    decreases calls.len(),
{
    if calls.len() == 0 {
        log_store::empty_state()
    } else {
        call_state(calls_state(calls.drop_last()), calls.last())
    }
}

/// The records in the file after some calls.
pub open spec fn calls_file(calls: Seq<LogCall>) -> Seq<RecView>
    decreases calls.len(),
{
    if calls.len() == 0 {
        Seq::empty()
    } else if calls.last() is Rewrite {
        call_records(calls.last())
    } else {
        calls_file(calls.drop_last()) + call_records(calls.last())
    }
}

/// The file is only ever replaced by a record of the state at that time.
pub open spec fn rewrites_right(calls: Seq<LogCall>) -> bool {
    forall|i: int|
        0 <= i < calls.len() ==> ((#[trigger] calls[i]) matches LogCall::Rewrite { record }
            ==> forall|s: log_store::LogState| #[trigger]
            apply_rec(s, record) == calls_state(calls.subrange(0, i)))
}

proof fn lemma_one_rec(s: log_store::LogState, r: RecView)
    ensures
        replay_recs(s, seq![r]) == apply_rec(s, r),
{
    assert(seq![r].drop_last() =~= Seq::<RecView>::empty());
    reveal_with_fuel(replay_recs, 2);
}

/// Replaying the file gives the state, whatever mix of calls has been made.
pub proof fn file_describes_calls(calls: Seq<LogCall>)
    requires
        rewrites_right(calls),
    ensures
        replay_recs(log_store::empty_state(), calls_file(calls)) == calls_state(calls),
    decreases calls.len(),
{
    if calls.len() > 0 {
        let short = calls.drop_last();
        let last = calls.last();
        let s = calls_state(short);
        assert(short =~= calls.subrange(0, calls.len() - 1));
        if let LogCall::Rewrite { record } = last {
            assert(calls[calls.len() - 1] == last);
            lemma_one_rec(log_store::empty_state(), record);
        } else {
            assert forall|i: int| 0 <= i < short.len() implies ((#[trigger] short[i]) matches
                LogCall::Rewrite { record } ==> forall|s: log_store::LogState| #[trigger]
            apply_rec(s, record) == calls_state(short.subrange(0, i))) by {
                assert(short[i] == calls[i]);
                assert(short.subrange(0, i) =~= calls.subrange(0, i));
            }
            file_describes_calls(short);
            replay_in_parts(log_store::empty_state(), calls_file(short), call_records(last));
            match last {
                LogCall::Append { entries } => {
                    lemma_append_recs(s, entries);
                },
                _ => {
                    lemma_one_rec(s, call_records(last)[0]);
                },
            }
        }
    }
}

/// A restart loses nothing: opening a file whose frames are the records of some calls
/// gives the state that the calls left, whatever their mix.
pub proof fn restart_recovers(calls: Seq<LogCall>, frames: Seq<FrameRecord>)
    requires
        rewrites_right(calls),
        forall|i: int| 0 <= i < frames.len() ==> (#[trigger] frames[i]) is Record,
        records(frames) == calls_file(calls),
    ensures
        replay_recs(log_store::empty_state(), records(replayed(frames))) == calls_state(calls),
{
    file_describes_calls(calls);
    replayed_is_enough(frames);
}

/// Where the last frame was cut short, only its record is missing: opening the file
/// gives what the records before it describe.
pub proof fn torn_restart_recovers(calls: Seq<LogCall>, frames: Seq<FrameRecord>)
    requires
        rewrites_right(calls),
        forall|i: int| 0 <= i < frames.len() ==> (#[trigger] frames[i]) is Record,
        calls_file(calls).len() > 0,
        records(frames) == calls_file(calls).drop_last(),
    ensures
        ({
            let opened = replay_recs(log_store::empty_state(), records(replayed(frames)));
            &&& opened == replay_recs(log_store::empty_state(), calls_file(calls).drop_last())
            &&& apply_rec(opened, calls_file(calls).last()) == calls_state(calls)
        }),
{
    file_describes_calls(calls);
    replayed_is_enough(frames);
}

/// What a record does to the state.
#[verifier::rlimit(30)]
pub proof fn records_take_effect(
    s: log_store::LogState,
    recs: Seq<RecView>,
    r: RecView,
    k: u64,
)
    ensures
        replay_recs(s, Seq::empty()) == s,
        ({
            let a = replay_recs(s, recs);
            let b = replay_recs(s, recs.push(r));
            match r {
                RecView::Entry { index, entry } => {
                    &&& b.log == a.log.insert(index, entry)
                    &&& b.vote == a.vote && b.committed == a.committed && b.last_purged
                        == a.last_purged
                },
                RecView::Vote { vote } => {
                    &&& b.vote == Some(vote)
                    &&& b.log == a.log && b.committed == a.committed && b.last_purged
                        == a.last_purged
                },
                RecView::Committed { committed } => {
                    &&& b.committed == committed
                    &&& b.log == a.log && b.vote == a.vote && b.last_purged == a.last_purged
                },
                RecView::Truncate { at } => {
                    &&& b.log.contains_key(k) <==> a.log.contains_key(k) && k < at
                    &&& b.log.contains_key(k) ==> b.log[k] == a.log[k]
                    &&& b.vote == a.vote && b.committed == a.committed && b.last_purged
                        == a.last_purged
                },
                RecView::Purge { up_to } => {
                    &&& b.log.contains_key(k) <==> a.log.contains_key(k) && k > up_to.index
                    &&& b.log.contains_key(k) ==> b.log[k] == a.log[k]
                    &&& b.last_purged == Some(up_to)
                    &&& b.vote == a.vote && b.committed == a.committed
                },
                RecView::Snapshot { entries, vote, committed, purged } => {
                    &&& b.log == with_pairs(Map::empty(), entries)
                    &&& b.vote == vote && b.committed == committed && b.last_purged == purged
                },
            }
        }),
{
    assert(recs.push(r).drop_last() =~= recs);
}

/// Entries are put in one after the other.
pub proof fn pairs_take_effect(
    m: Map<u64, log_store::EntryView>,
    items: Seq<(u64, log_store::EntryView)>,
    index: u64,
    entry: log_store::EntryView,
)
    ensures
        with_pairs(m, Seq::empty()) == m,
        with_pairs(m, items.push((index, entry))) == with_pairs(m, items).insert(index, entry),
{
    assert(items.push((index, entry)).drop_last() =~= items);
}

/// What is replayed of a file ends right before its first unreadable frame and starts
/// at the last snapshot before that, where there is one.
#[verifier::rlimit(30)]
pub proof fn replay_runs_to_unreadable(frames: Seq<FrameRecord>, i: int)
    ensures
        ({
            let n = readable(frames);
            &&& 0 <= n <= frames.len()
            &&& 0 <= i < n ==> !(frames[i] is Unreadable)
            &&& n < frames.len() ==> frames[n] is Unreadable
            &&& replayed(frames).len() <= n
            &&& replayed(frames) == frames.subrange(n - replayed(frames).len(), n)
            &&& 0 < i < replayed(frames).len() ==> !is_snapshot(replayed(frames)[i])
            &&& replayed(frames).len() < n ==> replayed(frames).len() > 0 && is_snapshot(
                replayed(frames)[0],
            )
        }),
{
    lemma_readable_ends(frames, i);
    let kept = frames.subrange(0, readable(frames));
    lemma_last_snapshot_at(kept, i + last_snapshot(kept));
    assert(replayed(frames) =~= frames.subrange(last_snapshot(kept), readable(frames)));
}

proof fn lemma_readable_ends(frames: Seq<FrameRecord>, i: int)
    ensures
        0 <= readable(frames) <= frames.len(),
        0 <= i < readable(frames) ==> !(frames[i] is Unreadable),
        readable(frames) < frames.len() ==> frames[readable(frames)] is Unreadable,
    decreases frames.len(),
{
    if frames.len() > 0 && !(frames[0] is Unreadable) {
        let rest = frames.subrange(1, frames.len() as int);
        lemma_readable_ends(rest, i - 1);
        if 0 < i <= rest.len() {
            assert(rest[i - 1] == frames[i]);
        }
    }
}

proof fn lemma_last_snapshot_at(frames: Seq<FrameRecord>, i: int)
    ensures
        0 <= last_snapshot(frames) <= frames.len(),
        last_snapshot(frames) < i < frames.len() ==> !is_snapshot(frames[i]),
        last_snapshot(frames) > 0 ==> last_snapshot(frames) < frames.len() && is_snapshot(
            frames[last_snapshot(frames)],
        ),
    decreases frames.len(),
{
    if frames.len() > 0 && !is_snapshot(frames.last()) {
        let front = frames.drop_last();
        lemma_last_snapshot_at(front, i);
        if 0 <= i < front.len() {
            assert(front[i] == frames[i]);
        }
    }
}

/// A frame counts as a snapshot where its record is one, or where it is a snapshot one
/// part of which does not decode.
pub proof fn snapshots_are_told(f: FrameRecord)
    ensures
        is_snapshot(f) <==> (f matches FrameRecord::Record(r) && r is Snapshot) || (
        f matches FrameRecord::BrokenPart { snapshot } && snapshot),
{
}

/// An appended entry is recorded at its own index.
pub proof fn appends_are_recorded(es: Seq<log_store::EntryView>, i: int)
    requires
        0 <= i < es.len(),
    ensures
        append_recs(es).len() == es.len(),
        append_recs(es)[i] == (RecView::Entry { index: es[i].log_id.index, entry: es[i] }),
{
}

} // verus!
