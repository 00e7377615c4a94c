//! Atomic promotion of several references at once.

use vstd::prelude::*;
use crate::codec::push_all;
use crate::decimal;
use crate::decimal::to_decimal;
use crate::store;
use crate::store::{BatchWrite, RefStoreImpl};
use crate::types;
use crate::types::{ObjectId, RefEntry, RefName};

verus! {

/// One reference to promote: its name, the target, and what is expected there
/// now (`None`: nothing).
pub type Mapping = (RefName, ObjectId, Option<ObjectId>);

/// What came of an atomic commit.
pub enum AtomicCommitResult {
    /// Every reference advanced; carries the new entries in the order given.
    Committed(Vec<(RefName, RefEntry)>),
    /// No reference advanced; names those whose precondition failed.
    Aborted { conflicts: Vec<RefName>, reason: String },
}

/// The writes that some mappings ask for, each at its own logical time.
pub open spec fn writes_of(mappings: Seq<Mapping>, hlcs: Seq<u64>) -> Seq<BatchWrite> {
    Seq::new(
        mappings.len(),
        |i: int| (mappings[i].0, mappings[i].1, mappings[i].2, hlcs[i]),
    )
}

/// The names alone.
pub open spec fn names_alone(items: Seq<(RefName, RefEntry)>) -> Seq<RefName> {
    Seq::new(items.len(), |i: int| items[i].0)
}

/// `" ref precondition(s) failed"`.
pub open spec fn failed_text() -> Seq<u8> {
    seq![
        32u8, 114, 101, 102, 32, 112, 114, 101, 99, 111, 110, 100, 105, 116, 105, 111, 110, 40, 115,
        41, 32, 102, 97, 105, 108, 101, 100,
    ]
}

/// Atomic commits on a single node: one batch on its reference store.
pub struct LocalAtomicCommit {
    pub store: RefStoreImpl,
}

/// `n` followed by the text that says that so many preconditions failed.
fn failure_reason(n: usize) -> (r: String)
    ensures
        vstd::utf8::encode_utf8(r@) == decimal::digits(n as nat) + failed_text(),
{
    let mut text = to_decimal(n as u64);
    let tail: [u8; 27] = [
        32, 114, 101, 102, 32, 112, 114, 101, 99, 111, 110, 100, 105, 116, 105, 111, 110, 40, 115,
        41, 32, 102, 97, 105, 108, 101, 100,
    ];
    push_all(&mut text, tail.as_slice());
    proof {
        assert(tail@ =~= failed_text());
        decimal::digits_value(n as nat);
        types::lemma_ascii_is_utf8(text@);
    }
    match types::string_from_utf8(text) {
        Some(s) => s,
        None => String::new(),
    }
}

impl LocalAtomicCommit {
    /// Wraps a reference store.
    pub fn new(store: RefStoreImpl) -> (r: Self)
        ensures
            r.store == store,
    {
        LocalAtomicCommit { store }
    }

    /// Promotes all mappings or none, each at the logical time given for it.
    #[verifier::rlimit(40)]
    pub fn commit_atomic(&mut self, mappings: Vec<Mapping>, hlcs: &Vec<u64>) -> (r:
        AtomicCommitResult)
        requires
            hlcs.len() == mappings.len(),
            forall|i: int|
                0 <= i < mappings.len() ==> store::write_room(
                    store::slot_at(old(self).store@, (#[trigger] mappings@[i]).0@),
                    mappings@[i].2,
                ),
        ensures
            ({
                let m = old(self).store@;
                let ops = writes_of(mappings@, hlcs@);
                match r {
                    AtomicCommitResult::Committed(done) => {
                        &&& store::batch_conflicts(m, ops).len() == 0
                        &&& done@ == store::batch_updates(m, ops)
                        &&& final(self).store@ == store::with_slots(
                            m,
                            store::batch_updates(m, ops),
                        )
                        &&& mappings.len() == 0 ==> final(self).store.pending()
                            == old(self).store.pending()
                        &&& mappings.len() > 0 ==> {
                            &&& final(self).store.pending().drop_last()
                                == old(self).store.pending()
                            &&& final(self).store.pending().len()
                                == old(self).store.pending().len() + 1
                            &&& final(self).store.pending().last() matches store::WalEntry::Batch {
                                updates,
                            } && updates@ == store::batch_updates(m, ops)
                        }
                    },
                    AtomicCommitResult::Aborted { conflicts, reason } => {
                        &&& store::batch_conflicts(m, ops).len() > 0
                        &&& conflicts@ == names_alone(store::batch_conflicts(m, ops))
                        &&& vstd::utf8::encode_utf8(reason@) == decimal::digits(
                            store::batch_conflicts(m, ops).len(),
                        ) + failed_text()
                        &&& *final(self) == *old(self)
                    },
                }
            }),
            r is Committed <==> forall|i: int|
                0 <= i < mappings@.len() ==> {
                    let w = #[trigger] mappings@[i];
                    let m = old(self).store@;
                    let there = m.contains_key(w.0@) && m[w.0@].committed.version != 0;
                    &&& !(m.contains_key(w.0@) && m[w.0@].prepared is Some)
                    &&& w.2 is None ==> !there
                    &&& w.2 is Some ==> there && m[w.0@].committed.target == w.2->0
                },
            r matches AtomicCommitResult::Committed(done) ==> {
                let m = old(self).store@;
                let after = final(self).store@;
                &&& done@.len() == mappings@.len()
                &&& forall|i: int|
                    0 <= i < mappings@.len() ==> {
                        let w = #[trigger] mappings@[i];
                        &&& done@[i].0 == w.0
                        &&& done@[i].1.target == w.1
                        &&& done@[i].1.hlc == hlcs@[i]
                        &&& done@[i].1.version == if m.contains_key(w.0@)
                            && m[w.0@].committed.version != 0 {
                            m[w.0@].committed.version + 1
                        } else {
                            1
                        }
                        &&& (forall|j: int|
                            i < j < mappings@.len() ==> (#[trigger] mappings@[j]).0@ != w.0@) ==> {
                            &&& after.contains_key(w.0@)
                            &&& after[w.0@].committed == done@[i].1
                            &&& after[w.0@].prepared is None
                        }
                    }
                &&& forall|k: Seq<u8>|
                    (forall|i: int| 0 <= i < mappings@.len() ==> (#[trigger] mappings@[i]).0@ != k) ==> {
                        &&& #[trigger] after.contains_key(k) <==> m.contains_key(k)
                        &&& m.contains_key(k) ==> after[k] == m[k]
                    }
            },
            r matches AtomicCommitResult::Aborted { conflicts, reason } ==> {
                let m = old(self).store@;
                &&& conflicts@ == mappings@.filter(
                    |w: Mapping|
                        {
                            let there = m.contains_key(w.0@) && m[w.0@].committed.version != 0;
                            ||| m.contains_key(w.0@) && m[w.0@].prepared is Some
                            ||| w.2 is None && there
                            ||| w.2 is Some && !(there && m[w.0@].committed.target == w.2->0)
                        },
                ).map_values(|w: Mapping| w.0)
                &&& vstd::utf8::encode_utf8(reason@) == decimal::digits(conflicts@.len()) + seq![
                    32u8, 114, 101, 102, 32, 112, 114, 101, 99, 111, 110, 100, 105, 116, 105, 111, 110, 40,
                    115, 41, 32, 102, 97, 105, 108, 101, 100,
                ]
                &&& *final(self) == *old(self)
            },
    {
        let ghost m = self.store@;
        let ghost want = writes_of(mappings@, hlcs@);
        let mut ops: Vec<BatchWrite> = Vec::new();
        let mut i: usize = 0;
        while i < mappings.len()
            invariant
                i <= mappings.len(),
                hlcs.len() == mappings.len(),
                want == writes_of(mappings@, hlcs@),
                ops@ == want.subrange(0, i as int),
            decreases mappings.len() - i,
        {
            let w = &mappings[i];
            ops.push((w.0.clone(), w.1, w.2, hlcs[i]));
            i += 1;
            assert(ops@ =~= want.subrange(0, i as int));
        }
        assert(ops@ =~= want);
        assert forall|i: int| 0 <= i < ops.len() implies store::write_room(
            store::slot_at(m, (#[trigger] ops@[i]).0@),
            ops@[i].2,
        ) by {
            assert(ops@[i].0 == mappings@[i].0);
        }
        proof {
            commit_fails_at_unmet(m, mappings@, hlcs@);
            assert forall|i: int| 0 <= i < mappings@.len() implies (#[trigger] ops@[i]).0
                == mappings@[i].0 && ops@[i].1 == mappings@[i].1 && ops@[i].2 == mappings@[i].2
                && ops@[i].3 == hlcs@[i] by {}
        }
        match self.store.commit_batch(&ops) {
            Ok(applied) => {
                let ghost updates = store::batch_updates(m, want);
                let mut done: Vec<(RefName, RefEntry)> = Vec::new();
                let mut j: usize = 0;
                while j < mappings.len()
                    invariant
                        j <= mappings.len(),
                        hlcs.len() == mappings.len(),
                        want == writes_of(mappings@, hlcs@),
                        updates == store::batch_updates(m, want),
                        applied@ == store::entries_alone(updates),
                        done@ == updates.subrange(0, j as int),
                    decreases mappings.len() - j,
                {
                    done.push((mappings[j].0.clone(), applied[j]));
                    j += 1;
                    assert(done@ =~= updates.subrange(0, j as int));
                }
                assert(done@ =~= updates);
                proof {
                    let after = self.store@;
                    assert forall|i: int| 0 <= i < mappings@.len() implies {
                        let w = #[trigger] mappings@[i];
                        let there = m.contains_key(w.0@) && m[w.0@].committed.version != 0;
                        &&& !(m.contains_key(w.0@) && m[w.0@].prepared is Some)
                        &&& w.2 is None ==> !there
                        &&& w.2 is Some ==> there && m[w.0@].committed.target == w.2->0
                        &&& done@[i].1 == applied@[i]
                        &&& done@[i].1.target == w.1
                        &&& done@[i].1.hlc == hlcs@[i]
                    } by {
                        assert(ops@[i].0 == mappings@[i].0);
                    }
                    assert forall|i: int|
                        0 <= i < mappings@.len() && (forall|j: int|
                            i < j < mappings@.len() ==> (#[trigger] mappings@[j]).0@ != (
                            #[trigger] mappings@[i]).0@) implies after.contains_key(
                        mappings@[i].0@,
                    ) && after[mappings@[i].0@].committed == done@[i].1
                        && after[mappings@[i].0@].prepared is None by {
                        assert forall|j: int| i < j < ops@.len() implies (#[trigger] ops@[j]).0@
                            != ops@[i].0@ by {
                            assert(mappings@[j].0@ != mappings@[i].0@);
                        }
                        assert(ops@[i].0 == mappings@[i].0);
                    }
                    assert forall|k: Seq<u8>|
                        (forall|i: int|
                            0 <= i < mappings@.len() ==> (#[trigger] mappings@[i]).0@ != k) implies ((
                    #[trigger] after.contains_key(k)) <==> m.contains_key(k)) && (m.contains_key(k)
                        ==> after[k] == m[k]) by {
                        assert forall|i: int| 0 <= i < ops@.len() implies (#[trigger] ops@[i]).0@
                            != k by {
                            assert(mappings@[i].0@ != k);
                        }
                    }
                }
                AtomicCommitResult::Committed(done)
            },
            Err(failed) => {
                let mut conflicts: Vec<RefName> = Vec::new();
                let mut j: usize = 0;
                while j < failed.len()
                    invariant
                        j <= failed.len(),
                        conflicts@ == names_alone(failed@).subrange(0, j as int),
                    decreases failed.len() - j,
                {
                    conflicts.push(failed[j].0.clone());
                    j += 1;
                    assert(conflicts@ =~= names_alone(failed@).subrange(0, j as int));
                }
                assert(conflicts@ =~= names_alone(failed@));
                let reason = failure_reason(conflicts.len());
                proof {
                    if forall|i: int|
                        0 <= i < mappings@.len() ==> {
                            let w = #[trigger] mappings@[i];
                            let there = m.contains_key(w.0@) && m[w.0@].committed.version != 0;
                            &&& !(m.contains_key(w.0@) && m[w.0@].prepared is Some)
                            &&& w.2 is None ==> !there
                            &&& w.2 is Some ==> there && m[w.0@].committed.target == w.2->0
                        } {
                        assert forall|i: int| 0 <= i < ops@.len() implies {
                            let w = #[trigger] ops@[i];
                            let there = m.contains_key(w.0@) && m[w.0@].committed.version != 0;
                            &&& !(m.contains_key(w.0@) && m[w.0@].prepared is Some)
                            &&& w.2 is None ==> !there
                            &&& w.2 is Some ==> there && m[w.0@].committed.target == w.2->0
                        } by {
                            assert(mappings@[i].0 == ops@[i].0);
                        }
                    }
                }
                AtomicCommitResult::Aborted { conflicts, reason }
            },
        }
    }
}

/// A commit fails at those of its mappings, in their order, whose reference is locked
/// or is not what the mapping expects.
#[verifier::rlimit(30)]
pub proof fn commit_fails_at_unmet(
    m: Map<Seq<u8>, crate::slot::RefSlot>,
    mappings: Seq<Mapping>,
    hlcs: Seq<u64>,
)
    requires
        hlcs.len() == mappings.len(),
    ensures
        names_alone(store::batch_conflicts(m, writes_of(mappings, hlcs))) == mappings.filter(
            |w: Mapping|
                {
                    let there = m.contains_key(w.0@) && m[w.0@].committed.version != 0;
                    ||| m.contains_key(w.0@) && m[w.0@].prepared is Some
                    ||| w.2 is None && there
                    ||| w.2 is Some && !(there && m[w.0@].committed.target == w.2->0)
                },
        ).map_values(|w: Mapping| w.0),
    decreases mappings.len(),
{
    reveal(Seq::filter);
    let unmet = |w: Mapping|
        {
            let there = m.contains_key(w.0@) && m[w.0@].committed.version != 0;
            ||| m.contains_key(w.0@) && m[w.0@].prepared is Some
            ||| w.2 is None && there
            ||| w.2 is Some && !(there && m[w.0@].committed.target == w.2->0)
        };
    let ops = writes_of(mappings, hlcs);
    let name = |w: Mapping| w.0;
    if mappings.len() > 0 {
        let front = mappings.drop_last();
        commit_fails_at_unmet(m, front, hlcs.drop_last());
        assert(ops.drop_last() =~= writes_of(front, hlcs.drop_last()));
        let before = store::batch_conflicts(m, ops.drop_last());
        if unmet(mappings.last()) {
            assert(mappings.filter(unmet) =~= front.filter(unmet).push(mappings.last()));
            assert(front.filter(unmet).push(mappings.last()).map_values(name)
                =~= front.filter(unmet).map_values(name).push(mappings.last().0));
            assert(names_alone(store::batch_conflicts(m, ops)) =~= names_alone(before).push(
                mappings.last().0,
            ));
        }
    } else {
        assert(mappings.filter(unmet).map_values(name) =~= Seq::<RefName>::empty());
        assert(names_alone(store::batch_conflicts(m, ops)) =~= Seq::<RefName>::empty());
    }
}

} // verus!
