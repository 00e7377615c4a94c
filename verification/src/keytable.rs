//! Tables keyed by identifiers of a fixed width, kept in ascending key order.

use vstd::prelude::*;

verus! {

/// `a` and `b` differ first at position `i`.
pub open spec fn first_difference(a: Seq<u8>, b: Seq<u8>, i: int) -> bool {
    &&& 0 <= i < a.len()
    &&& i < b.len()
    &&& forall|j: int| 0 <= j < i ==> a[j] == b[j]
    &&& a[i] != b[i]
}

/// `a` comes before `b`, byte by byte.
pub open spec fn key_less(a: Seq<u8>, b: Seq<u8>) -> bool {
    exists|i: int| #[trigger] first_difference(a, b, i) && a[i] < b[i]
}

/// The order of keys is transitive.
pub proof fn key_less_transitive(a: Seq<u8>, b: Seq<u8>, c: Seq<u8>)
    requires
        key_less(a, b),
        key_less(b, c),
        a.len() == b.len() == c.len(),
    ensures
        key_less(a, c),
{
    let i = choose|i: int| #[trigger] first_difference(a, b, i) && a[i] < b[i];
    let j = choose|j: int| #[trigger] first_difference(b, c, j) && b[j] < c[j];
    let k = if i < j {
        i
    } else {
        j
    };
    assert(first_difference(a, c, k));
}

/// No key comes before itself, nor two keys before each other.
pub proof fn key_less_antisymmetric(a: Seq<u8>, b: Seq<u8>)
    requires
        key_less(a, b),
    ensures
        a != b,
        !key_less(b, a),
{
    let i = choose|i: int| #[trigger] first_difference(a, b, i) && a[i] < b[i];
    if key_less(b, a) {
        let j = choose|j: int| #[trigger] first_difference(b, a, j) && b[j] < a[j];
        assert(i == j) by {
            if i < j {
                assert(b[i] == a[i]);
            }
            if j < i {
                assert(a[j] == b[j]);
            }
        }
    }
}

/// Of two different keys of one width, one comes before the other.
pub proof fn key_less_total(a: Seq<u8>, b: Seq<u8>)
    requires
        a.len() == b.len(),
    ensures
        a == b || key_less(a, b) || key_less(b, a),
    decreases a.len(),
{
    if a.len() > 0 && a != b {
        let a2 = a.drop_last();
        let b2 = b.drop_last();
        let n = a.len() - 1;
        if a2 == b2 {
            assert(forall|j: int| 0 <= j < n ==> a[j] == a2[j] && b[j] == b2[j]);
            if a[n] == b[n] {
                assert(a =~= b);
            }
            assert(first_difference(a, b, n as int));
            assert(first_difference(b, a, n as int));
        } else {
            key_less_total(a2, b2);
            if key_less(a2, b2) {
                let i = choose|i: int| #[trigger] first_difference(a2, b2, i) && a2[i] < b2[i];
                assert(first_difference(a, b, i)) by {
                    assert(forall|j: int| 0 <= j < i ==> a2[j] == a[j] && b2[j] == b[j]);
                }
            } else {
                let i = choose|i: int| #[trigger] first_difference(b2, a2, i) && b2[i] < a2[i];
                assert(first_difference(b, a, i)) by {
                    assert(forall|j: int| 0 <= j < i ==> a2[j] == a[j] && b2[j] == b[j]);
                }
            }
        }
    } else if a.len() == 0 {
        assert(a =~= b);
    }
}

/// How two keys compare.
#[derive(Clone, Copy, Debug, PartialEq, Eq, Structural)]
pub enum KeyOrder {
    Before,
    Same,
    After,
}

/// Compares two keys.
pub fn key_order<const N: usize>(a: &[u8; N], b: &[u8; N]) -> (r: KeyOrder)
    ensures
        match r {
            KeyOrder::Before => key_less(a@, b@),
            KeyOrder::Same => a@ == b@,
            KeyOrder::After => key_less(b@, a@),
        },
{
    let mut i: usize = 0;
    while i < N
        invariant
            i <= N,
            forall|j: int| 0 <= j < i ==> a@[j] == b@[j],
        decreases N - i,
    {
        if a[i] != b[i] {
            assert(first_difference(a@, b@, i as int));
            assert(first_difference(b@, a@, i as int));
            return if a[i] < b[i] {
                KeyOrder::Before
            } else {
                KeyOrder::After
            };
        }
        i += 1;
    }
    assert(a@ =~= b@);
    KeyOrder::Same
}

/// Ascending by key.
pub open spec fn keys_ascending<const N: usize, T>(v: Seq<([u8; N], T)>) -> bool {
    forall|i: int, j: int|
        0 <= i < j < v.len() ==> key_less((#[trigger] v[i]).0@, (#[trigger] v[j]).0@)
}

/// One of the rows has the key `k`.
pub open spec fn has_key<const N: usize, T>(v: Seq<([u8; N], T)>, k: Seq<u8>) -> bool {
    exists|i: int| 0 <= i < v.len() && (#[trigger] v[i]).0@ == k
}

/// The rows of an ascending sequence, by key.
pub open spec fn row_map<const N: usize, T>(v: Seq<([u8; N], T)>) -> Map<Seq<u8>, T> {
    Map::new(
        |k: Seq<u8>| exists|i: int| 0 <= i < v.len() && (#[trigger] v[i]).0@ == k,
        |k: Seq<u8>|
            {
                let i = choose|i: int| 0 <= i < v.len() && (#[trigger] v[i]).0@ == k;
                v[i].1
            },
    )
}

pub proof fn lemma_row<const N: usize, T>(v: Seq<([u8; N], T)>, i: int)
    requires
        keys_ascending(v),
        0 <= i < v.len(),
    ensures
        row_map(v).contains_key(v[i].0@),
        row_map(v)[v[i].0@] == v[i].1,
{
    assert(v[i].0@ == v[i].0@);
    let j = choose|j: int| 0 <= j < v.len() && (#[trigger] v[j]).0@ == v[i].0@;
    assert(0 <= j < v.len() && v[j].0@ == v[i].0@);
    if i < j {
        key_less_antisymmetric(v[i].0@, v[j].0@);
    } else if j < i {
        key_less_antisymmetric(v[j].0@, v[i].0@);
    }
}

/// An ascending sequence that agrees with a map row by row describes it.
pub proof fn lemma_rows<const N: usize, T>(v: Seq<([u8; N], T)>, m: Map<Seq<u8>, T>)
    requires
        keys_ascending(v),
        forall|i: int|
            0 <= i < v.len() ==> m.contains_key((#[trigger] v[i]).0@) && m[v[i].0@] == v[i].1,
        forall|k: Seq<u8>| #[trigger]
            m.contains_key(k) ==> exists|i: int| 0 <= i < v.len() && (#[trigger] v[i]).0@ == k,
    ensures
        row_map(v) == m,
{
    assert forall|k: Seq<u8>| #[trigger]
        row_map(v).contains_key(k) == m.contains_key(k) && (m.contains_key(k) ==> row_map(v)[k]
            == m[k]) by {
        if m.contains_key(k) {
            let i = choose|i: int| 0 <= i < v.len() && (#[trigger] v[i]).0@ == k;
            lemma_row(v, i);
        }
        if row_map(v).contains_key(k) {
            let i = choose|i: int| 0 <= i < v.len() && (#[trigger] v[i]).0@ == k;
            assert(m.contains_key(v[i].0@));
        }
    }
    assert(row_map(v) =~= m);
}

/// The order of the rows follows from the keys: two ascending sequences with the
/// same keys have them in the same places.
pub proof fn rows_are_canonical<const N: usize, T, U>(v: Seq<([u8; N], T)>, w: Seq<([u8; N], U)>)
    requires
        keys_ascending(v),
        keys_ascending(w),
        forall|k: Seq<u8>| #[trigger] has_key(v, k) <==> has_key(w, k),
    ensures
        v.len() == w.len(),
        forall|i: int| 0 <= i < v.len() ==> (#[trigger] v[i]).0@ == w[i].0@,
    decreases v.len(),
{
    if v.len() == 0 {
        if w.len() > 0 {
            assert(w[0].0@ == w[0].0@);
            assert(has_key(w, w[0].0@));
            assert(has_key(v, w[0].0@));
        }
    } else {
        let x = v[v.len() - 1].0@;
        assert(v[v.len() - 1].0@ == x);
        assert(has_key(v, x));
        assert(has_key(w, x));
        let j = choose|j: int| 0 <= j < w.len() && (#[trigger] w[j]).0@ == x;
        let y = w[w.len() - 1].0@;
        assert(w[w.len() - 1].0@ == y);
        assert(has_key(w, y));
        assert(has_key(v, y));
        let i = choose|i: int| 0 <= i < v.len() && (#[trigger] v[i]).0@ == y;
        if j < w.len() - 1 {
            assert(key_less(w[j].0@, w[w.len() - 1].0@));
            key_less_antisymmetric(x, y);
            if i < v.len() - 1 {
                assert(key_less(v[i].0@, v[v.len() - 1].0@));
            }
            assert(false);
        }
        let v2 = v.drop_last();
        let w2 = w.drop_last();
        assert(keys_ascending(v2)) by {
            assert forall|a: int, b: int| 0 <= a < b < v2.len() implies key_less(
                (#[trigger] v2[a]).0@,
                (#[trigger] v2[b]).0@,
            ) by {
                assert(v2[a] == v[a] && v2[b] == v[b]);
            }
        }
        assert(keys_ascending(w2)) by {
            assert forall|a: int, b: int| 0 <= a < b < w2.len() implies key_less(
                (#[trigger] w2[a]).0@,
                (#[trigger] w2[b]).0@,
            ) by {
                assert(w2[a] == w[a] && w2[b] == w[b]);
            }
        }
        assert forall|k: Seq<u8>| #[trigger] has_key(v2, k) <==> has_key(w2, k) by {
            assert(has_key(v, k) <==> has_key(w, k));
            if has_key(v2, k) {
                let a = choose|i: int| 0 <= i < v2.len() && (#[trigger] v2[i]).0@ == k;
                assert(v[a].0@ == k);
                assert(key_less(v[a].0@, v[v.len() - 1].0@));
                key_less_antisymmetric(k, x);
                let b = choose|i: int| 0 <= i < w.len() && (#[trigger] w[i]).0@ == k;
                assert(w2[b].0@ == k);
            }
            if has_key(w2, k) {
                let a = choose|i: int| 0 <= i < w2.len() && (#[trigger] w2[i]).0@ == k;
                assert(w[a].0@ == k);
                assert(key_less(w[a].0@, w[w.len() - 1].0@));
                key_less_antisymmetric(k, y);
                let b = choose|i: int| 0 <= i < v.len() && (#[trigger] v[i]).0@ == k;
                assert(v2[b].0@ == k);
            }
        }
        rows_are_canonical(v2, w2);
        assert forall|i: int| 0 <= i < v.len() implies (#[trigger] v[i]).0@ == w[i].0@ by {
            if i < v.len() - 1 {
                assert(v2[i].0@ == w2[i].0@);
            }
        }
    }
}

/// A table with its rows in ascending key order.
pub struct KeyTable<const N: usize, T> {
    rows: Vec<([u8; N], T)>,
}

impl<const N: usize, T> View for KeyTable<N, T> {
    type V = Map<Seq<u8>, T>;

    closed spec fn view(&self) -> Map<Seq<u8>, T> {
        row_map(self.rows@)
    }
}

impl<const N: usize, T> KeyTable<N, T> {
    #[verifier::type_invariant]
    closed spec fn inv(self) -> bool {
        keys_ascending(self.rows@)
    }

    /// The rows, in ascending key order.
    pub closed spec fn rows(&self) -> Seq<([u8; N], T)> {
        self.rows@
    }

    /// An empty table.
    pub fn new() -> (r: Self)
        ensures
            r@ == Map::<Seq<u8>, T>::empty(),
    {
        let r = KeyTable { rows: Vec::new() };
        assert(row_map(r.rows@) =~= Map::<Seq<u8>, T>::empty());
        r
    }

    /// Where the key stands, or would have to be put.
    fn position(rows: &Vec<([u8; N], T)>, key: &[u8; N]) -> (r: (bool, usize))
        requires
            keys_ascending(rows@),
        ensures
            r.1 <= rows.len(),
            r.0 ==> r.1 < rows.len() && rows@[r.1 as int].0@ == key@,
            !r.0 ==> forall|i: int| 0 <= i < rows.len() ==> (#[trigger] rows@[i]).0@ != key@,
            forall|i: int| 0 <= i < r.1 ==> key_less((#[trigger] rows@[i]).0@, key@),
            forall|i: int|
                r.1 <= i < rows.len() ==> (#[trigger] rows@[i]).0@ == key@ || key_less(
                    key@,
                    rows@[i].0@,
                ),
    {
        let mut lo: usize = 0;
        let mut hi: usize = rows.len();
        while lo < hi
            invariant
                lo <= hi <= rows.len(),
                keys_ascending(rows@),
                forall|j: int| 0 <= j < lo ==> key_less((#[trigger] rows@[j]).0@, key@),
                forall|j: int| hi <= j < rows.len() ==> key_less(key@, (#[trigger] rows@[j]).0@),
            decreases hi - lo,
        {
            let mid: usize = lo + (hi - lo) / 2;
            match key_order(&rows[mid].0, key) {
                KeyOrder::Before => {
                    proof {
                        assert forall|j: int| 0 <= j <= mid implies key_less(
                            (#[trigger] rows@[j]).0@,
                            key@,
                        ) by {
                            if j < mid {
                                key_less_transitive(rows@[j].0@, rows@[mid as int].0@, key@);
                            }
                        }
                    }
                    lo = mid + 1;
                },
                KeyOrder::Same => {
                    return (true, mid);
                },
                KeyOrder::After => {
                    proof {
                        assert forall|j: int| mid <= j < rows.len() implies key_less(
                            key@,
                            (#[trigger] rows@[j]).0@,
                        ) by {
                            if j > mid {
                                key_less_transitive(key@, rows@[mid as int].0@, rows@[j].0@);
                            }
                        }
                    }
                    hi = mid;
                },
            }
        }
        proof {
            assert forall|j: int| 0 <= j < rows.len() implies (#[trigger] rows@[j]).0@ != key@ by {
                if j < lo {
                    key_less_antisymmetric(rows@[j].0@, key@);
                } else {
                    key_less_antisymmetric(key@, rows@[j].0@);
                }
            }
        }
        (false, lo)
    }

    /// The row of a key.
    pub fn get(&self, key: &[u8; N]) -> (r: Option<&T>)
        ensures
            match r {
                Some(t) => self@.contains_key(key@) && self@[key@] == *t,
                None => !self@.contains_key(key@),
            },
    {
        proof {
            use_type_invariant(self);
        }
        let (found, pos) = Self::position(&self.rows, key);
        if found {
            proof {
                lemma_row(self.rows@, pos as int);
            }
            Some(&self.rows[pos].1)
        } else {
            None
        }
    }

    /// Sets the row of a key.
    pub fn insert(&mut self, key: [u8; N], t: T)
        ensures
            final(self)@ == old(self)@.insert(key@, t),
    {
        proof {
            use_type_invariant(&*self);
        }
        let mut v: Vec<([u8; N], T)> = Vec::new();
        std::mem::swap(&mut v, &mut self.rows);
        let ghost before = v@;
        let ghost m = row_map(before).insert(key@, t);
        let (found, pos) = Self::position(&v, &key);
        if found {
            v.set(pos, (key, t));
            proof {
                assert(keys_ascending(v@)) by {
                    assert forall|i: int, j: int| 0 <= i < j < v.len() implies key_less(
                        (#[trigger] v@[i]).0@,
                        (#[trigger] v@[j]).0@,
                    ) by {
                        assert(v@[i].0@ == before[i].0@ && v@[j].0@ == before[j].0@);
                    }
                }
                assert forall|i: int| 0 <= i < v.len() implies m.contains_key((#[trigger] v@[i]).0@)
                    && m[v@[i].0@] == v@[i].1 by {
                    lemma_row(before, i);
                    if i < pos {
                        key_less_antisymmetric(before[i].0@, before[pos as int].0@);
                    } else if i > pos {
                        key_less_antisymmetric(before[pos as int].0@, before[i].0@);
                    }
                }
                assert forall|k: Seq<u8>| #[trigger] m.contains_key(k) implies exists|i: int|
                    0 <= i < v.len() && (#[trigger] v@[i]).0@ == k by {
                    if k == key@ {
                        assert(v@[pos as int].0@ == k);
                    } else {
                        let i = choose|i: int|
                            0 <= i < before.len() && (#[trigger] before[i]).0@ == k;
                        assert(v@[i].0@ == k);
                    }
                }
                lemma_rows(v@, m);
            }
        } else {
            v.insert(pos, (key, t));
            proof {
                assert(keys_ascending(v@)) by {
                    assert forall|i: int, j: int| 0 <= i < j < v.len() implies key_less(
                        (#[trigger] v@[i]).0@,
                        (#[trigger] v@[j]).0@,
                    ) by {
                        let i0 = if i < pos {
                            i
                        } else {
                            i - 1
                        };
                        let j0 = if j < pos {
                            j
                        } else {
                            j - 1
                        };
                        if i != pos {
                            assert(v@[i] == before[i0]);
                        }
                        if j != pos {
                            assert(v@[j] == before[j0]);
                        }
                    }
                }
                assert forall|i: int| 0 <= i < v.len() implies m.contains_key((#[trigger] v@[i]).0@)
                    && m[v@[i].0@] == v@[i].1 by {
                    if i < pos {
                        assert(v@[i] == before[i]);
                        lemma_row(before, i);
                    } else if i > pos {
                        assert(v@[i] == before[i - 1]);
                        lemma_row(before, i - 1);
                    }
                }
                assert forall|k: Seq<u8>| #[trigger] m.contains_key(k) implies exists|i: int|
                    0 <= i < v.len() && (#[trigger] v@[i]).0@ == k by {
                    if k == key@ {
                        assert(v@[pos as int].0@ == k);
                    } else {
                        let i = choose|i: int|
                            0 <= i < before.len() && (#[trigger] before[i]).0@ == k;
                        if i < pos {
                            assert(v@[i].0@ == k);
                        } else {
                            assert(v@[i + 1].0@ == k);
                        }
                    }
                }
                lemma_rows(v@, m);
            }
        }
        self.rows = v;
    }

    /// Takes the row of a key out.
    pub fn remove(&mut self, key: &[u8; N])
        ensures
            final(self)@ == old(self)@.remove(key@),
    {
        proof {
            use_type_invariant(&*self);
        }
        let mut v: Vec<([u8; N], T)> = Vec::new();
        std::mem::swap(&mut v, &mut self.rows);
        let ghost before = v@;
        let ghost m = row_map(before).remove(key@);
        let (found, pos) = Self::position(&v, key);
        if found {
            v.remove(pos);
            proof {
                assert(keys_ascending(v@)) by {
                    assert forall|i: int, j: int| 0 <= i < j < v.len() implies key_less(
                        (#[trigger] v@[i]).0@,
                        (#[trigger] v@[j]).0@,
                    ) by {
                        let i0 = if i < pos {
                            i
                        } else {
                            i + 1
                        };
                        let j0 = if j < pos {
                            j
                        } else {
                            j + 1
                        };
                        assert(v@[i] == before[i0] && v@[j] == before[j0]);
                    }
                }
                assert forall|i: int| 0 <= i < v.len() implies m.contains_key((#[trigger] v@[i]).0@)
                    && m[v@[i].0@] == v@[i].1 by {
                    if i < pos {
                        assert(v@[i] == before[i]);
                        lemma_row(before, i);
                        key_less_antisymmetric(before[i].0@, key@);
                    } else {
                        assert(v@[i] == before[i + 1]);
                        lemma_row(before, i + 1);
                        key_less_antisymmetric(before[pos as int].0@, before[i + 1].0@);
                    }
                }
                assert forall|k: Seq<u8>| #[trigger] m.contains_key(k) implies exists|i: int|
                    0 <= i < v.len() && (#[trigger] v@[i]).0@ == k by {
                    let i = choose|i: int| 0 <= i < before.len() && (#[trigger] before[i]).0@ == k;
                    if i < pos {
                        assert(v@[i].0@ == k);
                    } else {
                        assert(v@[i - 1].0@ == k);
                    }
                }
                lemma_rows(v@, m);
            }
        } else {
            assert(m =~= row_map(before));
        }
        self.rows = v;
    }

    /// The number of rows; they are ascending, and are those of the table.
    pub fn len(&self) -> (r: usize)
        ensures
            r == self.rows().len(),
            keys_ascending(self.rows()),
            row_map(self.rows()) == self@,
    {
        proof {
            use_type_invariant(self);
        }
        self.rows.len()
    }

    /// A table has as many keys as rows.
    pub fn count(&self) -> (r: usize)
        ensures
            r == self@.dom().len(),
            self@.dom().finite(),
    {
        proof {
            use_type_invariant(self);
            self.lemma_finite();
            let keys = self.rows@.map_values(|row: ([u8; N], T)| row.0@);
            assert(keys.no_duplicates()) by {
                assert forall|i: int, j: int| 0 <= i < j < keys.len() implies keys[i] != keys[j] by {
                    assert(key_less(self.rows@[i].0@, self.rows@[j].0@));
                    key_less_antisymmetric(keys[i], keys[j]);
                }
            }
            keys.unique_seq_to_set();
            assert(keys.to_set() =~= self@.dom()) by {
                assert forall|k: Seq<u8>| keys.to_set().contains(k) <==> self@.dom().contains(k) by {
                    if self@.dom().contains(k) {
                        let i = choose|i: int|
                            0 <= i < self.rows@.len() && (#[trigger] self.rows@[i]).0@ == k;
                        assert(keys[i] == k);
                    }
                    if keys.to_set().contains(k) {
                        let i = choose|i: int| 0 <= i < keys.len() && keys[i] == k;
                        assert(self.rows@[i].0@ == k);
                    }
                }
            }
        }
        self.rows.len()
    }

    /// A table has finitely many keys.
    pub proof fn lemma_finite(&self)
        ensures
            self@.dom().finite(),
    {
        let keys = self.rows@.map_values(|row: ([u8; N], T)| row.0@);
        vstd::seq_lib::seq_to_set_is_finite(keys);
        assert forall|k: Seq<u8>| self@.dom().contains(k) implies keys.to_set().contains(k) by {
            let i = choose|i: int| 0 <= i < self.rows@.len() && (#[trigger] self.rows@[i]).0@ == k;
            assert(keys[i] == k);
        }
        vstd::set_lib::lemma_set_subset_finite(keys.to_set(), self@.dom());
    }

    /// The row at a position, in ascending key order.
    pub fn row(&self, i: usize) -> (r: (&[u8; N], &T))
        requires
            i < self.rows().len(),
        ensures
            *r.0 == self.rows()[i as int].0,
            *r.1 == self.rows()[i as int].1,
    {
        (&self.rows[i].0, &self.rows[i].1)
    }
}

/// Keys are ordered by the first byte in which they differ.
pub proof fn first_difference_decides(a: Seq<u8>, b: Seq<u8>, i: int)
    requires
        0 <= i < a.len(),
        i < b.len(),
        forall|j: int| 0 <= j < i ==> a[j] == b[j],
        a[i] != b[i],
    ensures
        key_less(a, b) <==> a[i] < b[i],
{
    assert(first_difference(a, b, i));
    if key_less(a, b) {
        let k = choose|k: int| #[trigger] first_difference(a, b, k) && a[k] < b[k];
        if k < i {
            assert(a[k] == b[k]);
        }
        if i < k {
            assert(a[i] == b[i]);
        }
    }
}

} // verus!
