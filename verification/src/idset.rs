//! Sets of addresses.

use vstd::prelude::*;
use crate::git_pack_file;
use crate::keytable;
use crate::keytable::KeyTable;
use crate::types::ObjectId;

verus! {

/// A set of addresses.
pub struct IdSet {
    table: KeyTable<32, bool>,
}

impl View for IdSet {
    type V = Set<Seq<u8>>;

    closed spec fn view(&self) -> Set<Seq<u8>> {
        self.table@.dom()
    }
}

impl IdSet {
    /// The empty set.
    pub fn new() -> (r: Self)
        ensures
            r@ == Set::<Seq<u8>>::empty(),
    {
        let r = IdSet { table: KeyTable::new() };
        assert(r@ =~= Set::<Seq<u8>>::empty());
        r
    }

    /// Whether an address is in the set.
    pub fn contains(&self, id: &ObjectId) -> (r: bool)
        ensures
            r == self@.contains(id.bytes@),
    {
        self.table.get(&id.bytes).is_some()
    }

    /// Puts an address in, and says whether it is new.
    pub fn insert(&mut self, id: ObjectId) -> (r: bool)
        ensures
            final(self)@ == old(self)@.insert(id.bytes@),
            r == !old(self)@.contains(id.bytes@),
    {
        let fresh: bool = self.table.get(&id.bytes).is_none();
        let ghost before = self.table@;
        self.table.insert(id.bytes, true);
        assert(self.table@.dom() =~= before.dom().insert(id.bytes@));
        fresh
    }

    /// The set is finite.
    pub proof fn lemma_finite(&self)
        ensures
            self@.finite(),
    {
        self.table.lemma_finite();
    }

    /// The addresses, ascending.
    pub fn to_vec(&self) -> (r: Vec<ObjectId>)
        ensures
            git_pack_file::lists_ids(r@, self@),
            forall|i: int| 0 <= i < r@.len() ==> self@.contains((#[trigger] r@[i]).bytes@),
            forall|k: Seq<u8>| #[trigger]
                self@.contains(k) ==> exists|i: int| 0 <= i < r@.len() && (#[trigger] r@[i]).bytes@ == k,
            forall|i: int, j: int|
                0 <= i < j < r@.len() ==> (#[trigger] r@[i]).bytes@ != (#[trigger] r@[j]).bytes@,
    {
        let n: usize = self.table.len();
        let ghost rows = self.table.rows();
        let mut out: Vec<ObjectId> = Vec::new();
        let mut i: usize = 0;
        while i < n
            invariant
                i <= n == rows.len(),
                rows == self.table.rows(),
                keytable::keys_ascending(rows),
                out.len() == i,
                forall|j: int| 0 <= j < i ==> (#[trigger] out@[j]).bytes == rows[j].0,
            decreases n - i,
        {
            let (key, _) = self.table.row(i);
            out.push(ObjectId::from_bytes(*key));
            i += 1;
        }
        proof {
            assert forall|j: int| 0 <= j < out.len() implies self@.contains(
                (#[trigger] out@[j]).bytes@,
            ) by {
                keytable::lemma_row(rows, j);
            }
            assert forall|a: int, b: int| 0 <= a < b < out.len() implies keytable::key_less(
                (#[trigger] out@[a]).bytes@,
                (#[trigger] out@[b]).bytes@,
            ) by {
                assert(keytable::key_less(rows[a].0@, rows[b].0@));
            }
            assert forall|k: Seq<u8>| self@.contains(k) implies #[trigger] git_pack_file::has_id(
                out@,
                k,
            ) by {
                let j = choose|j: int| 0 <= j < rows.len() && (#[trigger] rows[j]).0@ == k;
                assert(out@[j].bytes@ == k);
            }
        }
        assert forall|k: Seq<u8>| #[trigger] self@.contains(k) implies exists|i: int|
            0 <= i < out@.len() && (#[trigger] out@[i]).bytes@ == k by {
            assert(git_pack_file::has_id(out@, k));
        }
        out
    }
}

} // verus!
