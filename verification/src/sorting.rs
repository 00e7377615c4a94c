//! Stable sorting by keys that carry their own order.

use vstd::prelude::*;

verus! {

/// A key with a strict order.
pub trait SortKey: Sized {
    /// `self` comes before `other`.
    spec fn before(self, other: Self) -> bool;

    /// No key comes before itself, nor two keys before each other.
    proof fn before_strict(a: Self, b: Self)
        ensures
            !(a.before(b) && b.before(a)),
    ;

    /// The order is transitive.
    proof fn before_transitive(a: Self, b: Self, c: Self)
        requires
            a.before(b),
            b.before(c),
        ensures
            a.before(c),
    ;

    /// Keys of which neither comes first are in the same place with regard to a
    /// third.
    proof fn before_weak(a: Self, b: Self, c: Self)
        requires
            a.before(c),
        ensures
            a.before(b) || b.before(c),
    ;

    /// Whether `self` comes before `other`.
    fn comes_before(&self, other: &Self) -> (r: bool)
        ensures
            r == self.before(*other),
    ;
}

/// Position `a` comes before position `b`: by key, and by place where the keys do
/// not decide.
pub open spec fn earlier<K: SortKey>(keys: Seq<K>, a: int, b: int) -> bool {
    keys[a].before(keys[b]) || (!keys[b].before(keys[a]) && a < b)
}

/// Ascending positions.
pub open spec fn ascending<K: SortKey>(keys: Seq<K>, order: Seq<usize>) -> bool {
    forall|i: int, j: int|
        0 <= i < j < order.len() ==> earlier(
            keys,
            #[trigger] order[i] as int,
            #[trigger] order[j] as int,
        )
}

/// `p` is among the positions.
pub open spec fn lists(order: Seq<usize>, p: int) -> bool {
    exists|i: int| 0 <= i < order.len() && #[trigger] order[i] == p
}

/// `order` holds the positions `lo` to `hi`, each of them, in ascending order.
pub open spec fn sorted_range<K: SortKey>(
    keys: Seq<K>,
    order: Seq<usize>,
    lo: int,
    hi: int,
) -> bool {
    &&& order.len() == hi - lo
    &&& ascending(keys, order)
    &&& forall|i: int| 0 <= i < order.len() ==> lo <= #[trigger] order[i] < hi
    &&& forall|p: int| lo <= p < hi ==> #[trigger] lists(order, p)
}

/// `order` holds all positions of the keys in ascending order.
pub open spec fn is_stable_order<K: SortKey>(keys: Seq<K>, order: Seq<usize>) -> bool {
    sorted_range(keys, order, 0, keys.len() as int)
}

/// All positions of the keys in ascending order.
pub open spec fn stable_order<K: SortKey>(keys: Seq<K>) -> Seq<usize> {
    choose|order: Seq<usize>| is_stable_order(keys, order)
}

proof fn lemma_earlier_strict<K: SortKey>(keys: Seq<K>, a: int, b: int)
    requires
        earlier(keys, a, b),
    ensures
        !earlier(keys, b, a),
        a != b,
{
    K::before_strict(keys[a], keys[b]);
    K::before_strict(keys[a], keys[a]);
}

proof fn lemma_earlier_transitive<K: SortKey>(keys: Seq<K>, a: int, b: int, c: int)
    requires
        earlier(keys, a, b),
        earlier(keys, b, c),
    ensures
        earlier(keys, a, c),
{
    let (x, y, z) = (keys[a], keys[b], keys[c]);
    K::before_strict(x, y);
    K::before_strict(y, z);
    K::before_strict(x, z);
    if x.before(y) {
        if y.before(z) {
            K::before_transitive(x, y, z);
        } else {
            K::before_weak(x, z, y);
        }
    } else if y.before(z) {
        K::before_weak(y, x, z);
    } else if z.before(x) {
        K::before_weak(z, y, x);
    }
}

/// No position is listed twice.
pub proof fn lemma_positions_differ<K: SortKey>(keys: Seq<K>, order: Seq<usize>, i: int, j: int)
    requires
        is_stable_order(keys, order),
        0 <= i < j < order.len(),
    ensures
        order[i] != order[j],
{
    lemma_earlier_strict(keys, order[i] as int, order[j] as int);
}

/// There is one stable order only.
pub proof fn stable_order_unique<K: SortKey>(
    keys: Seq<K>,
    v: Seq<usize>,
    w: Seq<usize>,
    lo: int,
    hi: int,
)
    requires
        sorted_range(keys, v, lo, hi),
        sorted_range(keys, w, lo, hi),
    ensures
        v == w,
{
    lemma_same_order(keys, v, w);
}

proof fn lemma_same_order<K: SortKey>(keys: Seq<K>, v: Seq<usize>, w: Seq<usize>)
    requires
        ascending(keys, v),
        ascending(keys, w),
        forall|p: int| #[trigger] lists(v, p) <==> lists(w, p),
    ensures
        v == w,
    decreases v.len(),
{
    if v.len() == 0 {
        if w.len() > 0 {
            assert(w[0] == w[0]);
            assert(lists(w, w[0] as int));
            assert(lists(v, w[0] as int));
        }
        assert(v =~= w);
    } else {
        let x = v.last();
        assert(v[v.len() - 1] == x);
        assert(lists(v, x as int));
        assert(lists(w, x as int));
        let j = choose|j: int| 0 <= j < w.len() && #[trigger] w[j] == x as int;
        let y = w.last();
        assert(w[w.len() - 1] == y);
        assert(lists(w, y as int));
        assert(lists(v, y as int));
        let i = choose|i: int| 0 <= i < v.len() && #[trigger] v[i] == y as int;
        if j < w.len() - 1 {
            assert(earlier(keys, w[j] as int, w[w.len() - 1] as int));
            lemma_earlier_strict(keys, x as int, y as int);
            if i < v.len() - 1 {
                assert(earlier(keys, v[i] as int, v[v.len() - 1] as int));
            }
            assert(false);
        }
        let v2 = v.drop_last();
        let w2 = w.drop_last();
        assert forall|a: int, b: int| 0 <= a < b < v2.len() implies earlier(
            keys,
            #[trigger] v2[a] as int,
            #[trigger] v2[b] as int,
        ) by {
            assert(v2[a] == v[a] && v2[b] == v[b]);
        }
        assert forall|a: int, b: int| 0 <= a < b < w2.len() implies earlier(
            keys,
            #[trigger] w2[a] as int,
            #[trigger] w2[b] as int,
        ) by {
            assert(w2[a] == w[a] && w2[b] == w[b]);
        }
        assert forall|p: int| #[trigger] lists(v2, p) <==> lists(w2, p) by {
            assert(lists(v, p) <==> lists(w, p));
            if lists(v2, p) {
                let a = choose|i: int| 0 <= i < v2.len() && #[trigger] v2[i] == p;
                assert(v[a] == p);
                assert(earlier(keys, v[a] as int, v[v.len() - 1] as int));
                lemma_earlier_strict(keys, p, x as int);
                let b = choose|i: int| 0 <= i < w.len() && #[trigger] w[i] == p;
                assert(w2[b] == p);
            }
            if lists(w2, p) {
                let a = choose|i: int| 0 <= i < w2.len() && #[trigger] w2[i] == p;
                assert(w[a] == p);
                assert(earlier(keys, w[a] as int, w[w.len() - 1] as int));
                lemma_earlier_strict(keys, p, y as int);
                let b = choose|i: int| 0 <= i < v.len() && #[trigger] v[i] == p;
                assert(v2[b] == p);
            }
        }
        lemma_same_order(keys, v2, w2);
        assert(v =~= v2.push(x));
        assert(w =~= w2.push(y));
    }
}

/// Where position `x` belongs among ascending positions.
proof fn lemma_place<K: SortKey>(keys: Seq<K>, order: Seq<usize>, x: int, p: int) -> (r: int)
    requires
        ascending(keys, order),
        0 <= p <= order.len(),
        forall|i: int| 0 <= i < order.len() ==> #[trigger] order[i] != x,
        forall|i: int| 0 <= i < p ==> earlier(keys, #[trigger] order[i] as int, x),
    ensures
        0 <= r <= order.len(),
        forall|i: int| 0 <= i < r ==> earlier(keys, #[trigger] order[i] as int, x),
        forall|i: int| r <= i < order.len() ==> earlier(keys, x, #[trigger] order[i] as int),
    decreases order.len() - p,
{
    if p == order.len() {
        p
    } else if earlier(keys, order[p] as int, x) {
        lemma_place(keys, order, x, p + 1)
    } else {
        assert(order[p] != x);
        K::before_strict(keys[order[p] as int], keys[x]);
        assert(earlier(keys, x, order[p] as int));
        assert forall|i: int| p <= i < order.len() implies earlier(
            keys,
            x,
            #[trigger] order[i] as int,
        ) by {
            if i > p {
                lemma_earlier_transitive(keys, x, order[p] as int, order[i] as int);
            }
        }
        p
    }
}

proof fn lemma_order_exists<K: SortKey>(keys: Seq<K>, hi: int) -> (order: Seq<usize>)
    requires
        0 <= hi <= keys.len(),
        keys.len() <= usize::MAX,
    ensures
        sorted_range(keys, order, 0, hi),
    decreases hi,
{
    if hi == 0 {
        Seq::empty()
    } else {
        let x = hi - 1;
        let o = lemma_order_exists(keys, x);
        let p = lemma_place(keys, o, x, 0);
        let order = o.insert(p, x as usize);
        assert forall|i: int, j: int| 0 <= i < j < order.len() implies earlier(
            keys,
            #[trigger] order[i] as int,
            #[trigger] order[j] as int,
        ) by {
            let i0 = if i < p {
                i
            } else {
                i - 1
            };
            let j0 = if j < p {
                j
            } else {
                j - 1
            };
            if i != p {
                assert(order[i] == o[i0]);
            }
            if j != p {
                assert(order[j] == o[j0]);
            }
        }
        assert forall|i: int| 0 <= i < order.len() implies 0 <= #[trigger] order[i] < hi by {
            if i < p {
                assert(order[i] == o[i]);
            } else if i > p {
                assert(order[i] == o[i - 1]);
            }
        }
        assert forall|q: int| 0 <= q < hi implies #[trigger] lists(order, q) by {
            if q == x {
                assert(order[p] == q);
            } else {
                assert(lists(o, q));
                let i = choose|i: int| 0 <= i < o.len() && #[trigger] o[i] == q;
                if i < p {
                    assert(order[i] == q);
                } else {
                    assert(order[i + 1] == q);
                }
            }
        }
        order
    }
}

/// Every sequence of keys has a stable order.
pub proof fn stable_order_exists<K: SortKey>(keys: Seq<K>)
    requires
        keys.len() <= usize::MAX,
    ensures
        is_stable_order(keys, stable_order(keys)),
{
    let order = lemma_order_exists(keys, keys.len() as int);
    assert(is_stable_order(keys, order));
}

/// Merges two sorted neighbouring ranges.
fn merge<K: SortKey>(
    keys: &Vec<K>,
    a: &Vec<usize>,
    b: &Vec<usize>,
    lo: usize,
    mid: usize,
    hi: usize,
) -> (r: Vec<usize>)
    requires
        lo <= mid <= hi <= keys.len(),
        sorted_range(keys@, a@, lo as int, mid as int),
        sorted_range(keys@, b@, mid as int, hi as int),
    ensures
        sorted_range(keys@, r@, lo as int, hi as int),
{
    let mut out: Vec<usize> = Vec::new();
    let mut i: usize = 0;
    let mut j: usize = 0;
    while i < a.len() || j < b.len()
        invariant
            lo <= mid <= hi <= keys.len(),
            sorted_range(keys@, a@, lo as int, mid as int),
            sorted_range(keys@, b@, mid as int, hi as int),
            i <= a.len(),
            j <= b.len(),
            out.len() == i + j,
            ascending(keys@, out@),
            forall|x: int| 0 <= x < out.len() ==> lo <= #[trigger] out@[x] < hi,
            forall|x: int, y: int|
                0 <= x < out.len() && i <= y < a.len() ==> earlier(
                    keys@,
                    #[trigger] out@[x] as int,
                    #[trigger] a@[y] as int,
                ),
            forall|x: int, y: int|
                0 <= x < out.len() && j <= y < b.len() ==> earlier(
                    keys@,
                    #[trigger] out@[x] as int,
                    #[trigger] b@[y] as int,
                ),
            forall|x: int| 0 <= x < i ==> lists(out@, #[trigger] a@[x] as int),
            forall|x: int| 0 <= x < j ==> lists(out@, #[trigger] b@[x] as int),
        decreases a.len() - i + b.len() - j,
    {
        let ghost before = out@;
        let take_left: bool = if i >= a.len() {
            false
        } else if j >= b.len() {
            true
        } else {
            !keys[b[j]].comes_before(&keys[a[i]])
        };
        let next: usize = if take_left {
            a[i]
        } else {
            b[j]
        };
        proof {
            if take_left && j < b.len() {
                assert(earlier(keys@, a@[i as int] as int, b@[j as int] as int));
            }
            if !take_left && i < a.len() {
                K::before_strict(keys@[a@[i as int] as int], keys@[b@[j as int] as int]);
                assert(earlier(keys@, b@[j as int] as int, a@[i as int] as int));
            }
        }
        out.push(next);
        proof {
            assert forall|x: int, y: int| 0 <= x < y < out.len() implies earlier(
                keys@,
                #[trigger] out@[x] as int,
                #[trigger] out@[y] as int,
            ) by {
                if y == out.len() - 1 {
                    assert(out@[x] == before[x]);
                } else {
                    assert(out@[x] == before[x] && out@[y] == before[y]);
                }
            }
            let ni = if take_left {
                i + 1
            } else {
                i as int
            };
            let nj = if take_left {
                j as int
            } else {
                j + 1
            };
            assert forall|x: int, y: int| 0 <= x < out.len() && ni <= y < a.len() implies earlier(
                keys@,
                #[trigger] out@[x] as int,
                #[trigger] a@[y] as int,
            ) by {
                if x == out.len() - 1 {
                    if !take_left {
                        if y > i {
                            lemma_earlier_transitive(
                                keys@,
                                next as int,
                                a@[i as int] as int,
                                a@[y] as int,
                            );
                        }
                    }
                } else {
                    assert(out@[x] == before[x]);
                }
            }
            assert forall|x: int, y: int| 0 <= x < out.len() && nj <= y < b.len() implies earlier(
                keys@,
                #[trigger] out@[x] as int,
                #[trigger] b@[y] as int,
            ) by {
                if x == out.len() - 1 {
                    if take_left {
                        if y > j {
                            lemma_earlier_transitive(
                                keys@,
                                next as int,
                                b@[j as int] as int,
                                b@[y] as int,
                            );
                        }
                    }
                } else {
                    assert(out@[x] == before[x]);
                }
            }
            assert forall|p: int| lists(before, p) implies #[trigger] lists(out@, p) by {
                let x = choose|x: int| 0 <= x < before.len() && #[trigger] before[x] == p;
                assert(out@[x] == p);
            }
            assert(out@[out.len() - 1] == next);
            assert(lists(out@, next as int));
        }
        if take_left {
            i += 1;
        } else {
            j += 1;
        }
    }
    proof {
        assert forall|p: int| lo <= p < hi implies #[trigger] lists(out@, p) by {
            if p < mid {
                assert(lists(a@, p));
                let x = choose|x: int| 0 <= x < a.len() && #[trigger] a@[x] == p;
                assert(lists(out@, a@[x] as int));
            } else {
                assert(lists(b@, p));
                let x = choose|x: int| 0 <= x < b.len() && #[trigger] b@[x] == p;
                assert(lists(out@, b@[x] as int));
            }
        }
    }
    out
}

fn sort_range<K: SortKey>(keys: &Vec<K>, lo: usize, hi: usize) -> (r: Vec<usize>)
    requires
        lo <= hi <= keys.len(),
    ensures
        sorted_range(keys@, r@, lo as int, hi as int),
    decreases hi - lo,
{
    if hi - lo <= 1 {
        let mut r: Vec<usize> = Vec::new();
        if lo < hi {
            r.push(lo);
            assert(r@[0] == lo);
        }
        assert forall|p: int| lo <= p < hi implies #[trigger] lists(r@, p) by {
            assert(r@[0] == p);
        }
        r
    } else {
        let mid: usize = lo + (hi - lo) / 2;
        let a = sort_range(keys, lo, mid);
        let b = sort_range(keys, mid, hi);
        merge(keys, &a, &b, lo, mid, hi)
    }
}

/// The positions of the keys in ascending order; keys of which neither comes first
/// stay in their order.
pub fn sort_positions<K: SortKey>(keys: &Vec<K>) -> (r: Vec<usize>)
    ensures
        r@ == stable_order(keys@),
        is_stable_order(keys@, r@),
{
    let r = sort_range(keys, 0, keys.len());
    proof {
        assert(is_stable_order(keys@, r@));
        stable_order_unique(keys@, r@, stable_order(keys@), 0, keys.len() as int);
    }
    r
}

} // verus!
