//! Adaptive radix tree with copy-on-write updates.
//!
//! Every operation is pure: an update returns a new root and leaves the old
//! tree as it was, sharing the subtrees that did not change. An inner node
//! keeps the bytes that all its keys share behind its position (`prefix`) and
//! tells its children apart by the next byte. A key that ends at an inner node
//! hangs under the byte 0x00. A node grows from 4 to 16, 48 and 256 children,
//! whenever a child no longer fits.

use vstd::prelude::*;
use std::sync::Arc;
use crate::codec;
use crate::codec::{bytes_equal, copy_bytes, copy_range, starts_with};

verus! {

/// A node of the tree.
pub enum ArtNode<V> {
    Leaf(LeafNode<V>),
    Node4(Node4<V>),
    Node16(Node16<V>),
    Node48(Box<Node48<V>>),
    Node256(Node256<V>),
}

/// A stored key, in full, with its entry.
pub struct LeafNode<V> {
    pub key: Vec<u8>,
    pub entry: V,
}

/// At most four children; `keys[i]` is the byte of `children[i]`, ascending.
pub struct Node4<V> {
    pub prefix: Vec<u8>,
    pub keys: Vec<u8>,
    pub children: Vec<Arc<ArtNode<V>>>,
}

/// At most sixteen children, laid out as in `Node4`.
pub struct Node16<V> {
    pub prefix: Vec<u8>,
    pub keys: Vec<u8>,
    pub children: Vec<Arc<ArtNode<V>>>,
}

/// At most 48 children. `key_index[b]` is the slot of the child for byte `b`,
/// 0xFF where there is none.
pub struct Node48<V> {
    pub prefix: Vec<u8>,
    pub count: u8,
    pub key_index: Vec<u8>,
    pub children: Vec<Option<Arc<ArtNode<V>>>>,
}

/// One slot for every byte.
pub struct Node256<V> {
    pub prefix: Vec<u8>,
    pub count: u16,
    pub children: Vec<Option<Arc<ArtNode<V>>>>,
}

// ---------------------------------------------------------------------------
// Model
// ---------------------------------------------------------------------------

/// The compressed prefix of an inner node; a leaf has none.
pub open spec fn node_prefix<V>(node: ArtNode<V>) -> Seq<u8> {
    match node {
        ArtNode::Leaf(l) => Seq::empty(),
        ArtNode::Node4(n) => n.prefix@,
        ArtNode::Node16(n) => n.prefix@,
        ArtNode::Node48(n) => n.prefix@,
        ArtNode::Node256(n) => n.prefix@,
    }
}

/// The node behind a pointer.
pub open spec fn node_at<V>(p: Arc<ArtNode<V>>) -> ArtNode<V> {
    *p
}

/// The node behind an optional pointer.
pub open spec fn pointee<V>(p: Option<Arc<ArtNode<V>>>) -> Option<ArtNode<V>> {
    match p {
        Some(c) => Some(*c),
        None => None,
    }
}

/// The child that two parallel sequences of bytes and children give for `b`.
pub open spec fn sorted_child<V>(
    keys: Seq<u8>,
    children: Vec<Arc<ArtNode<V>>>,
    b: u8,
) -> Option<ArtNode<V>> {
    if keys.contains(b) && keys.index_of(b) < children.len() {
        Some(*children[keys.index_of(b)])
    } else {
        None
    }
}

/// The child of an inner node under byte `b`.
pub open spec fn child<V>(node: ArtNode<V>, b: u8) -> Option<ArtNode<V>> {
    match node {
        ArtNode::Leaf(l) => None,
        ArtNode::Node4(n) => sorted_child(n.keys@, n.children, b),
        ArtNode::Node16(n) => sorted_child(n.keys@, n.children, b),
        ArtNode::Node48(n) => if b < n.key_index.len() && n.key_index[b as int]
            < n.children.len() {
            pointee(n.children[n.key_index[b as int] as int])
        } else {
            None
        },
        ArtNode::Node256(n) => if b < n.children.len() {
            pointee(n.children[b as int])
        } else {
            None
        },
    }
}

/// A child is structurally smaller than its node.
pub proof fn lemma_child_smaller<V>(node: ArtNode<V>, b: u8)
    requires
        child(node, b) is Some,
    ensures
        decreases_to!(node => child(node, b)->0),
{
    match node {
        ArtNode::Leaf(l) => {},
        ArtNode::Node4(n) => {
            assert(decreases_to!(n.children => n.children[n.keys@.index_of(b)]));
        },
        ArtNode::Node16(n) => {
            assert(decreases_to!(n.children => n.children[n.keys@.index_of(b)]));
        },
        ArtNode::Node48(n) => {
            assert(decreases_to!(n.children => n.children[n.key_index[b as int] as int]));
        },
        ArtNode::Node256(n) => {
            assert(decreases_to!(n.children => n.children[b as int]));
        },
    }
}

/// What the tree below `node` holds: each key with its entry.
pub open spec fn entries<V>(node: ArtNode<V>) -> Map<Seq<u8>, V>
    decreases node,
{
    match node {
        ArtNode::Leaf(l) => map![l.key@ => l.entry],
        _ => {
            proof {
                assert forall|b: u8| child(node, b) is Some implies #[trigger] decreases_to!(
                    node => child(node, b)->0) by {
                    lemma_child_smaller(node, b);
                }
            }
            Map::new(
                |k: Seq<u8>|
                    exists|b: u8|
                        (#[trigger] child(node, b)) is Some && entries(
                            child(node, b)->0,
                        ).contains_key(k),
                |k: Seq<u8>|
                    {
                        let b = choose|b: u8|
                            (#[trigger] child(node, b)) is Some && entries(
                                child(node, b)->0,
                            ).contains_key(k);
                        if child(node, b) is Some {
                            entries(child(node, b)->0)[k]
                        } else {
                            arbitrary()
                        }
                    },
            )
        },
    }
}

/// The byte that tells `k` apart behind its first `n` bytes: 0x00 where it ends.
pub open spec fn discriminant(k: Seq<u8>, n: int) -> u8 {
    if n < k.len() {
        k[n]
    } else {
        0u8
    }
}

/// Strictly ascending bytes, one for each child, at least one and at most `cap`.
pub open spec fn sorted_layout<V>(
    keys: Seq<u8>,
    children: Vec<Arc<ArtNode<V>>>,
    cap: int,
) -> bool {
    &&& 1 <= keys.len() <= cap
    &&& keys.len() == children.len()
    &&& forall|i: int, j: int| 0 <= i < j < keys.len() ==> keys[i] < keys[j]
}

/// How many of the slots are taken.
pub open spec fn taken<T>(slots: Seq<Option<T>>) -> nat
    decreases slots.len(),
{
    if slots.len() == 0 {
        0
    } else {
        taken(slots.drop_last()) + if slots.last() is Some {
            1nat
        } else {
            0nat
        }
    }
}

/// The representation invariant of one node, its children left aside.
pub open spec fn layout<V>(node: ArtNode<V>) -> bool {
    match node {
        ArtNode::Leaf(l) => true,
        ArtNode::Node4(n) => sorted_layout(n.keys@, n.children, 4),
        ArtNode::Node16(n) => sorted_layout(n.keys@, n.children, 16),
        ArtNode::Node48(n) => {
            &&& n.key_index.len() == 256
            &&& n.children.len() == 48
            &&& 1 <= n.count == taken(n.children@)
            &&& forall|b: int|
                0 <= b < 256 && #[trigger] n.key_index[b] != 0xFF ==> n.key_index[b] < 48
                    && n.children[n.key_index[b] as int] is Some
            &&& forall|b: int, c: int|
                0 <= b < c < 256 && #[trigger] n.key_index[b] != 0xFF ==> n.key_index[b]
                    != #[trigger] n.key_index[c]
            &&& forall|s: int|
                0 <= s < 48 && #[trigger] n.children[s] is Some ==> exists|b: int|
                    0 <= b < 256 && #[trigger] n.key_index[b] == s
        },
        ArtNode::Node256(n) => {
            &&& n.children.len() == 256
            &&& 1 <= n.count == taken(n.children@)
        },
    }
}

/// Whether `c` may hang under byte `b` of a node whose keys begin with `base`:
/// it is the leaf of the key `base` itself, under 0x00, or a tree of keys that
/// go on with `b`.
pub open spec fn child_fits<V>(c: ArtNode<V>, base: Seq<u8>, b: u8) -> bool
    decreases c, 1int,
{
    ||| b == 0 && c is Leaf && c->Leaf_0.key@ == base
    ||| well_formed(c, base.push(b))
}

/// The invariant of a tree whose keys all begin with `path`, the bytes that the
/// nodes above have consumed.
pub open spec fn well_formed<V>(node: ArtNode<V>, path: Seq<u8>) -> bool
    decreases node, 0int,
{
    match node {
        ArtNode::Leaf(l) => codec::has_prefix(l.key@, path),
        _ => {
            proof {
                assert forall|b: u8| child(node, b) is Some implies #[trigger] decreases_to!(
                    node => child(node, b)->0) by {
                    lemma_child_smaller(node, b);
                }
            }
            &&& layout(node)
            &&& forall|b: u8|
                (#[trigger] child(node, b)) is Some ==> child_fits(
                    child(node, b)->0,
                    path + node_prefix(node),
                    b,
                )
        },
    }
}

/// No key of the set goes on with 0x00 where another one ends, so that the byte
/// 0x00 can mark the end of a key.
pub open spec fn separable(keys: Set<Seq<u8>>) -> bool {
    forall|k1: Seq<u8>, k2: Seq<u8>|
        #![trigger keys.contains(k1), keys.contains(k2)]
        keys.contains(k1) && keys.contains(k2) ==> !codec::has_prefix(k2, k1.push(0u8))
}

/// What an optional root holds; no root holds nothing.
pub open spec fn entries_of<V>(root: Option<Arc<ArtNode<V>>>) -> Map<Seq<u8>, V> {
    match root {
        Some(n) => entries(*n),
        None => Map::empty(),
    }
}

/// The invariant of an optional root.
pub open spec fn root_ok<V>(root: Option<Arc<ArtNode<V>>>) -> bool {
    root matches Some(n) ==> well_formed(*n, Seq::empty())
}

// ---------------------------------------------------------------------------
// Lemmas on the model
// ---------------------------------------------------------------------------

proof fn lemma_prefix_trans(k: Seq<u8>, a: Seq<u8>, b: Seq<u8>)
    requires
        codec::has_prefix(k, a + b),
    ensures
        codec::has_prefix(k, a),
{
    assert(k.subrange(0, a.len() as int) =~= k.subrange(0, (a + b).len() as int).subrange(
        0,
        a.len() as int,
    ));
    assert((a + b).subrange(0, a.len() as int) =~= a);
}

proof fn lemma_prefix_push(k: Seq<u8>, a: Seq<u8>, b: u8)
    ensures
        codec::has_prefix(k, a.push(b)) <==> codec::has_prefix(k, a) && a.len() < k.len() && k[a.len() as int]
            == b,
{
    if codec::has_prefix(k, a.push(b)) {
        assert(a.push(b) =~= a + seq![b]);
        lemma_prefix_trans(k, a, seq![b]);
        assert(k[a.len() as int] == k.subrange(0, a.push(b).len() as int)[a.len() as int]);
    }
    if codec::has_prefix(k, a) && a.len() < k.len() && k[a.len() as int] == b {
        assert(k.subrange(0, a.len() as int + 1) =~= k.subrange(0, a.len() as int).push(b));
    }
}

/// The keys of a child that fits begin with `base`, and the byte behind it is
/// the child's.
proof fn lemma_child_keys<V>(c: ArtNode<V>, base: Seq<u8>, b: u8, k: Seq<u8>)
    requires
        child_fits(c, base, b),
        entries(c).contains_key(k),
    ensures
        codec::has_prefix(k, base),
        discriminant(k, base.len() as int) == b,
        !(c is Leaf && c->Leaf_0.key@ == base) ==> codec::has_prefix(k, base.push(b)),
    decreases c, 1int,
{
    if b == 0 && c is Leaf && c->Leaf_0.key@ == base {
        assert(k == base);
        assert(k.subrange(0, k.len() as int) =~= k);
    } else {
        lemma_keys_below(c, base.push(b), k);
        lemma_prefix_push(k, base, b);
    }
}

/// All keys of a well-formed tree begin with its path.
proof fn lemma_keys_below<V>(node: ArtNode<V>, path: Seq<u8>, k: Seq<u8>)
    requires
        well_formed(node, path),
        entries(node).contains_key(k),
    ensures
        codec::has_prefix(k, path),
    decreases node, 0int,
{
    if !(node is Leaf) {
        let b = choose|b: u8|
            (#[trigger] child(node, b)) is Some && entries(child(node, b)->0).contains_key(k);
        lemma_child_smaller(node, b);
        lemma_child_keys(child(node, b)->0, path + node_prefix(node), b, k);
        lemma_prefix_trans(k, path, node_prefix(node));
    }
}

/// Where an inner node holds `k`: behind the prefix, in the child of the byte
/// that follows.
proof fn lemma_descend<V>(node: ArtNode<V>, path: Seq<u8>, k: Seq<u8>)
    requires
        well_formed(node, path),
        !(node is Leaf),
    ensures
        ({
            let base = path + node_prefix(node);
            let c = child(node, discriminant(k, base.len() as int));
            &&& entries(node).contains_key(k) <==> codec::has_prefix(k, base) && c is Some && entries(
                c->0,
            ).contains_key(k)
            &&& entries(node).contains_key(k) ==> entries(node)[k] == entries(c->0)[k]
        }),
{
    let base = path + node_prefix(node);
    let d = discriminant(k, base.len() as int);
    assert forall|b: u8|
        (#[trigger] child(node, b)) is Some && entries(child(node, b)->0).contains_key(
            k,
        ) implies codec::has_prefix(k, base) && b == d by {
        lemma_child_keys(child(node, b)->0, base, b, k);
    }
    if entries(node).contains_key(k) {
        let b = choose|b: u8|
            (#[trigger] child(node, b)) is Some && entries(child(node, b)->0).contains_key(k);
        assert(b == d);
    }
}

proof fn lemma_taken_zero<T>(slots: Seq<Option<T>>)
    ensures
        taken(slots) == 0 <==> forall|i: int| 0 <= i < slots.len() ==> slots[i] is None,
        taken(slots) <= slots.len(),
        taken(slots) == slots.len() <==> forall|i: int| 0 <= i < slots.len() ==> slots[i] is Some,
    decreases slots.len(),
{
    if slots.len() > 0 {
        lemma_taken_zero(slots.drop_last());
        let n = slots.len() - 1;
        assert(forall|i: int| 0 <= i < n ==> slots.drop_last()[i] == slots[i]);
        if taken(slots) == 0 {
            assert forall|i: int| 0 <= i < slots.len() implies slots[i] is None by {
                if i < n {
                    assert(slots.drop_last()[i] is None);
                }
            }
        }
        if forall|i: int| 0 <= i < slots.len() ==> slots[i] is None {
            assert(forall|i: int| 0 <= i < n ==> slots.drop_last()[i] is None);
            assert(slots[n] is None);
        }
        if taken(slots) == slots.len() {
            assert forall|i: int| 0 <= i < slots.len() implies slots[i] is Some by {
                if i < n {
                    assert(slots.drop_last()[i] is Some);
                }
            }
        }
        if forall|i: int| 0 <= i < slots.len() ==> slots[i] is Some {
            assert(forall|i: int| 0 <= i < n ==> slots.drop_last()[i] is Some);
            assert(slots[n] is Some);
        }
    }
}

proof fn lemma_taken_update<T>(slots: Seq<Option<T>>, i: int, x: Option<T>)
    requires
        0 <= i < slots.len(),
    ensures
        taken(slots.update(i, x)) + (if slots[i] is Some { 1int } else { 0 }) == taken(slots) + (
        if x is Some { 1int } else { 0 }),
    decreases slots.len(),
{
    let n = slots.len() - 1;
    if i == n {
        assert(slots.update(i, x).drop_last() =~= slots.drop_last());
    } else {
        assert(slots.update(i, x).drop_last() =~= slots.drop_last().update(i, x));
        lemma_taken_update(slots.drop_last(), i, x);
    }
}

/// An inner node has a child.
proof fn lemma_has_child<V>(node: ArtNode<V>)
    requires
        layout(node),
        !(node is Leaf),
    ensures
        exists|b: u8| (#[trigger] child(node, b)) is Some,
{
    match node {
        ArtNode::Leaf(l) => {},
        ArtNode::Node4(n) => {
            assert(n.keys@.contains(n.keys@[0]));
            assert(child(node, n.keys@[0]) is Some);
        },
        ArtNode::Node16(n) => {
            assert(n.keys@.contains(n.keys@[0]));
            assert(child(node, n.keys@[0]) is Some);
        },
        ArtNode::Node48(n) => {
            lemma_taken_zero(n.children@);
            let s = choose|s: int| 0 <= s < 48 && !(n.children@[s] is None);
            assert(n.children[s] is Some);
            let b = choose|b: int| 0 <= b < 256 && #[trigger] n.key_index[b] == s;
            assert(child(node, b as u8) is Some);
        },
        ArtNode::Node256(n) => {
            lemma_taken_zero(n.children@);
            let s = choose|s: int| 0 <= s < 256 && !(n.children@[s] is None);
            assert(child(node, s as u8) is Some);
        },
    }
}

/// A well-formed tree is never empty.
pub proof fn lemma_nonempty<V>(node: ArtNode<V>, path: Seq<u8>)
    requires
        well_formed(node, path),
    ensures
        exists|k: Seq<u8>| #[trigger] entries(node).contains_key(k),
    decreases node,
{
    if node is Leaf {
        assert(entries(node).contains_key(node->Leaf_0.key@));
    } else {
        lemma_has_child(node);
        let b = choose|b: u8| (#[trigger] child(node, b)) is Some;
        let c = child(node, b)->0;
        lemma_child_smaller(node, b);
        assert(child_fits(c, path + node_prefix(node), b));
        if c is Leaf {
            assert(entries(c).contains_key(c->Leaf_0.key@));
            assert(entries(node).contains_key(c->Leaf_0.key@));
        } else {
            lemma_nonempty(c, (path + node_prefix(node)).push(b));
            let k = choose|k: Seq<u8>| #[trigger] entries(c).contains_key(k);
            assert(entries(node).contains_key(k));
        }
    }
}

// ---------------------------------------------------------------------------
// Nodes and their children
// ---------------------------------------------------------------------------

/// Another pointer to the same node. Calls `Arc::clone` of the standard
/// library, which is taken to return a pointer to the value that `a` points to.
#[verifier::external_body]
pub(crate) fn share<T>(a: &Arc<T>) -> (r: Arc<T>)
    ensures
        r == *a,
{
    Arc::clone(a)
}

fn share_all<V>(v: &Vec<Arc<ArtNode<V>>>) -> (r: Vec<Arc<ArtNode<V>>>)
    ensures
        r@ == v@,
{
    let mut r: Vec<Arc<ArtNode<V>>> = Vec::new();
    let mut i: usize = 0;
    while i < v.len()
        invariant
            i <= v.len(),
            r@ == v@.subrange(0, i as int),
        decreases v.len() - i,
    {
        r.push(share(&v[i]));
        i += 1;
        assert(r@ =~= v@.subrange(0, i as int));
    }
    assert(r@ =~= v@);
    r
}

fn share_slots<V>(v: &Vec<Option<Arc<ArtNode<V>>>>) -> (r: Vec<Option<Arc<ArtNode<V>>>>)
    ensures
        r@ == v@,
{
    let mut r: Vec<Option<Arc<ArtNode<V>>>> = Vec::new();
    let mut i: usize = 0;
    while i < v.len()
        invariant
            i <= v.len(),
            r@ == v@.subrange(0, i as int),
        decreases v.len() - i,
    {
        match &v[i] {
            Some(c) => r.push(Some(share(c))),
            None => r.push(None),
        }
        i += 1;
        assert(r@ =~= v@.subrange(0, i as int));
    }
    assert(r@ =~= v@);
    r
}

fn free_slots<V>(n: usize) -> (r: Vec<Option<Arc<ArtNode<V>>>>)
    ensures
        r.len() == n,
        forall|i: int| 0 <= i < n ==> r@[i] is None,
        taken(r@) == 0,
{
    let mut r: Vec<Option<Arc<ArtNode<V>>>> = Vec::new();
    let mut i: usize = 0;
    while i < n
        invariant
            i <= n,
            r.len() == i,
            forall|j: int| 0 <= j < i ==> r@[j] is None,
        decreases n - i,
    {
        r.push(None);
        i += 1;
    }
    proof {
        lemma_taken_zero(r@);
    }
    r
}

/// The length of the longest common prefix of `a` and `b`.
pub fn common_prefix_len(a: &[u8], b: &[u8]) -> (n: usize)
    ensures
        n <= a@.len(),
        n <= b@.len(),
        a@.subrange(0, n as int) == b@.subrange(0, n as int),
        n < a@.len() && n < b@.len() ==> a@[n as int] != b@[n as int],
{
    let mut n: usize = 0;
    while n < a.len() && n < b.len() && a[n] == b[n]
        invariant
            n <= a.len(),
            n <= b.len(),
            forall|i: int| 0 <= i < n ==> a@[i] == b@[i],
        decreases a.len() - n,
    {
        n += 1;
    }
    assert(a@.subrange(0, n as int) =~= b@.subrange(0, n as int));
    n
}

proof fn lemma_sorted_child<V>(keys: Seq<u8>, children: Vec<Arc<ArtNode<V>>>, b: u8)
    requires
        keys.len() == children.len(),
        forall|i: int, j: int| 0 <= i < j < keys.len() ==> keys[i] < keys[j],
    ensures
        forall|i: int|
            0 <= i < keys.len() && keys[i] == b ==> sorted_child(keys, children, b) == Some(
                *#[trigger] children@[i],
            ),
        (forall|i: int| 0 <= i < keys.len() ==> keys[i] != b) ==> sorted_child(keys, children, b)
            is None,
{
    if exists|i: int| 0 <= i < keys.len() && keys[i] == b {
        let i = choose|i: int| 0 <= i < keys.len() && keys[i] == b;
        assert(keys.contains(b));
        let j = keys.index_of(b);
        assert(0 <= j < keys.len() && keys[j] == b);
    }
}

/// The position of `b` among the ascending `keys`: where it stands, or where it
/// would have to be put.
fn key_position(keys: &Vec<u8>, b: u8) -> (r: (bool, usize))
    requires
        forall|i: int, j: int| 0 <= i < j < keys.len() ==> keys[i] < keys[j],
    ensures
        r.1 <= keys.len(),
        forall|i: int| 0 <= i < r.1 ==> keys@[i] < b,
        forall|i: int| r.1 <= i < keys.len() ==> b <= keys@[i],
        r.0 == (r.1 < keys.len() && keys@[r.1 as int] == b),
        r.0 == keys@.contains(b),
{
    let mut i: usize = 0;
    while i < keys.len() && keys[i] < b
        invariant
            i <= keys.len(),
            forall|j: int| 0 <= j < i ==> keys@[j] < b,
        decreases keys.len() - i,
    {
        i += 1;
    }
    assert(forall|j: int| i < j < keys.len() ==> keys@[i as int] < keys@[j]);
    if i < keys.len() && keys[i] == b {
        assert(keys@.contains(b));
        (true, i)
    } else {
        (false, i)
    }
}

/// The ascending layout with `kid` under `b`: replaced, or put in its place.
fn sorted_with<V>(
    keys: &Vec<u8>,
    children: &Vec<Arc<ArtNode<V>>>,
    b: u8,
    kid: Arc<ArtNode<V>>,
) -> (r: (Vec<u8>, Vec<Arc<ArtNode<V>>>))
    requires
        sorted_layout(keys@, *children, 16),
    ensures
        sorted_layout(r.0@, r.1, 17),
        r.0.len() == keys.len() + (if keys@.contains(b) { 0int } else { 1 }),
        forall|c: u8| #[trigger]
            sorted_child(r.0@, r.1, c) == if c == b {
                Some(*kid)
            } else {
                sorted_child(keys@, *children, c)
            },
{
    let (found, pos) = key_position(keys, b);
    let mut k2: Vec<u8> = copy_bytes(keys.as_slice());
    let mut c2: Vec<Arc<ArtNode<V>>> = share_all(children);
    if found {
        c2.set(pos, kid);
    } else {
        k2.insert(pos, b);
        c2.insert(pos, kid);
        assert forall|i: int, j: int| 0 <= i < j < k2.len() implies k2@[i] < k2@[j] by {}
    }
    proof {
        assert(k2@[pos as int] == b && c2@[pos as int] == kid);
        assert forall|c: u8| #[trigger]
            sorted_child(k2@, c2, c) == if c == b {
                Some(*kid)
            } else {
                sorted_child(keys@, *children, c)
            } by {
            lemma_sorted_child(keys@, *children, c);
            lemma_sorted_child(k2@, c2, c);
            if c != b {
                if exists|i: int| 0 <= i < keys.len() && keys@[i] == c {
                    let i = choose|i: int| 0 <= i < keys.len() && keys@[i] == c;
                    let j = if found || i < pos {
                        i
                    } else {
                        i + 1
                    };
                    assert(k2@[j] == c && c2@[j] == children@[i]);
                } else {
                    assert forall|j: int| 0 <= j < k2.len() implies k2@[j] != c by {
                        let i = if found || j < pos {
                            j
                        } else {
                            j - 1
                        };
                        if j != pos {
                            assert(k2@[j] == keys@[i]);
                        }
                    }
                }
            }
        }
    }
    (k2, c2)
}

/// `new` is `old` with the child under `b` set to `kid`.
pub open spec fn child_set<V>(
    old_node: ArtNode<V>,
    new_node: ArtNode<V>,
    b: u8,
    kid: Option<ArtNode<V>>,
) -> bool {
    &&& layout(new_node)
    &&& !(new_node is Leaf)
    &&& node_prefix(new_node) == node_prefix(old_node)
    &&& forall|c: u8| #[trigger]
        child(new_node, c) == if c == b {
            kid
        } else {
            child(old_node, c)
        }
}

fn node4_with_child<V>(n: &Node4<V>, b: u8, kid: Arc<ArtNode<V>>) -> (r: Arc<ArtNode<V>>)
    requires
        layout(ArtNode::Node4(*n)),
    ensures
        child_set(ArtNode::Node4(*n), *r, b, Some(*kid)),
{
    let (keys, children) = sorted_with(&n.keys, &n.children, b, kid);
    let prefix = copy_bytes(n.prefix.as_slice());
    if keys.len() <= 4 {
        Arc::new(ArtNode::Node4(Node4 { prefix, keys, children }))
    } else {
        Arc::new(ArtNode::Node16(Node16 { prefix, keys, children }))
    }
}

fn node16_with_child<V>(n: &Node16<V>, b: u8, kid: Arc<ArtNode<V>>) -> (r: Arc<ArtNode<V>>)
    requires
        layout(ArtNode::Node16(*n)),
    ensures
        child_set(ArtNode::Node16(*n), *r, b, Some(*kid)),
{
    let (found, pos) = key_position(&n.keys, b);
    if found || n.keys.len() < 16 {
        let (keys, children) = sorted_with(&n.keys, &n.children, b, kid);
        let prefix = copy_bytes(n.prefix.as_slice());
        return Arc::new(ArtNode::Node16(Node16 { prefix, keys, children }));
    }
    let mut key_index: Vec<u8> = vec![0xFFu8; 256];
    let mut children: Vec<Option<Arc<ArtNode<V>>>> = free_slots(48);
    let mut i: usize = 0;
    while i < 16
        invariant
            i <= 16,
            n.keys.len() == 16,
            layout(ArtNode::Node16(*n)),
            key_index.len() == 256,
            children.len() == 48,
            taken(children@) == i,
            forall|j: int| 0 <= j < i ==> children@[j] == Some(n.children@[j]),
            forall|j: int| i <= j < 48 ==> children@[j] is None,
            forall|j: int| 0 <= j < i ==> key_index@[n.keys@[j] as int] == j,
            forall|c: int|
                0 <= c < 256 && #[trigger] key_index@[c] != 0xFF ==> key_index@[c] < i
                    && n.keys@[key_index@[c] as int] == c,
        decreases 16 - i,
    {
        let k: u8 = n.keys[i];
        proof {
            lemma_taken_update(children@, i as int, Some(n.children@[i as int]));
        }
        key_index.set(k as usize, i as u8);
        children.set(i, Some(share(&n.children[i])));
        i += 1;
    }
    let grown = Node48 { prefix: copy_bytes(n.prefix.as_slice()), count: 16, key_index, children };
    proof {
        let new_node = ArtNode::Node48(Box::new(grown));
        assert forall|s: int| 0 <= s < 48 && #[trigger] grown.children[s] is Some implies exists|
            c: int,
        | 0 <= c < 256 && #[trigger] grown.key_index[c] == s by {
            assert(grown.key_index[n.keys@[s] as int] == s);
        }
        assert(layout(new_node));
        assert forall|c: u8| child(new_node, c) == child(ArtNode::Node16(*n), c) by {
            lemma_sorted_child(n.keys@, n.children, c);
            if exists|j: int| 0 <= j < 16 && n.keys@[j] == c {
                let j = choose|j: int| 0 <= j < 16 && n.keys@[j] == c;
                assert(grown.key_index@[c as int] == j);
                assert(n.children@[j] == n.children[j]);
            } else {
                assert(grown.key_index[c as int] == 0xFF);
            }
        }
        assert(child_set(ArtNode::Node16(*n), new_node, b, child(new_node, b)));
    }
    node48_with_child(&grown, b, kid)
}

fn node48_with_child<V>(n: &Node48<V>, b: u8, kid: Arc<ArtNode<V>>) -> (r: Arc<ArtNode<V>>)
    requires
        layout(ArtNode::Node48(Box::new(*n))),
    ensures
        child_set(ArtNode::Node48(Box::new(*n)), *r, b, Some(*kid)),
{
    let ghost old_node = ArtNode::Node48(Box::new(*n));
    let idx: u8 = n.key_index[b as usize];
    let mut children = share_slots(&n.children);
    let mut key_index: Vec<u8> = copy_bytes(n.key_index.as_slice());
    if idx != 0xFF {
        assert(n.key_index[b as int] < 48);
        proof {
            lemma_taken_update(children@, idx as int, Some(kid));
        }
        children.set(idx as usize, Some(kid));
        let new_n = Node48 {
            prefix: copy_bytes(n.prefix.as_slice()),
            count: n.count,
            key_index,
            children,
        };
        proof {
            assert forall|s: int| 0 <= s < 48 && #[trigger] new_n.children[s] is Some implies exists|
                c: int,
            | 0 <= c < 256 && #[trigger] new_n.key_index[c] == s by {
                assert(n.children[s] is Some);
                let c = choose|c: int| 0 <= c < 256 && #[trigger] n.key_index[c] == s;
                assert(new_n.key_index[c] == s);
            }
            assert forall|c: int|
                0 <= c < 256 && #[trigger] new_n.key_index[c] != 0xFF implies new_n.key_index[c]
                < 48 && new_n.children[new_n.key_index[c] as int] is Some by {
                assert(n.key_index[c] != 0xFF);
            }
            assert forall|c: int, d: int|
                0 <= c < d < 256 && #[trigger] new_n.key_index[c]
                    != 0xFF implies new_n.key_index[c] != #[trigger] new_n.key_index[d] by {
                assert(n.key_index[c] != n.key_index[d]);
            }
            let new_node = ArtNode::Node48(Box::new(new_n));
            assert forall|c: u8| #[trigger]
                child(new_node, c) == if c == b {
                    Some(*kid)
                } else {
                    child(old_node, c)
                } by {
                if c != b {
                    assert(n.key_index[c as int] == 0xFF || n.key_index[c as int]
                        != n.key_index[b as int]);
                }
            }
        }
        return Arc::new(ArtNode::Node48(Box::new(new_n)));
    }
    if n.count < 48 {
        let mut slot: usize = 0;
        while slot < 48 && children[slot].is_some()
            invariant
                slot <= 48,
                children.len() == 48,
                forall|s: int| 0 <= s < slot ==> children@[s] is Some,
            decreases 48 - slot,
        {
            slot += 1;
        }
        proof {
            lemma_taken_zero(children@);
            assert(slot < 48);
            lemma_taken_update(children@, slot as int, Some(kid));
        }
        key_index.set(b as usize, slot as u8);
        children.set(slot, Some(kid));
        let new_n = Node48 {
            prefix: copy_bytes(n.prefix.as_slice()),
            count: n.count + 1,
            key_index,
            children,
        };
        proof {
            assert(n.children[slot as int] is None);
            assert forall|c: int| 0 <= c < 256 implies #[trigger] n.key_index[c] != slot by {}
            assert forall|s: int| 0 <= s < 48 && #[trigger] new_n.children[s] is Some implies exists|
                c: int,
            | 0 <= c < 256 && #[trigger] new_n.key_index[c] == s by {
                if s == slot {
                    assert(new_n.key_index[b as int] == s);
                } else {
                    assert(n.children[s] is Some);
                    let c = choose|c: int| 0 <= c < 256 && #[trigger] n.key_index[c] == s;
                    assert(new_n.key_index[c] == s);
                }
            }
            assert forall|c: int|
                0 <= c < 256 && #[trigger] new_n.key_index[c] != 0xFF implies new_n.key_index[c]
                < 48 && new_n.children[new_n.key_index[c] as int] is Some by {
                if c != b {
                    assert(n.key_index[c] != 0xFF);
                }
            }
            assert forall|c: int, d: int|
                0 <= c < d < 256 && #[trigger] new_n.key_index[c]
                    != 0xFF implies new_n.key_index[c] != #[trigger] new_n.key_index[d] by {
                assert(n.key_index[c] != slot && n.key_index[d] != slot);
                if c != b && d != b {
                    assert(n.key_index[c] != n.key_index[d]);
                }
            }
            let new_node = ArtNode::Node48(Box::new(new_n));
            assert forall|c: u8| #[trigger]
                child(new_node, c) == if c == b {
                    Some(*kid)
                } else {
                    child(old_node, c)
                } by {
                if c != b {
                    assert(n.key_index[c as int] != slot);
                }
            }
        }
        return Arc::new(ArtNode::Node48(Box::new(new_n)));
    }
    let mut grown: Vec<Option<Arc<ArtNode<V>>>> = free_slots(256);
    let mut count: u16 = 0;
    let mut c: usize = 0;
    while c < 256
        invariant
            c <= 256,
            layout(old_node),
            old_node == ArtNode::Node48(Box::new(*n)),
            grown.len() == 256,
            count == taken(grown@),
            count <= c,
            forall|d: int| c <= d < 256 ==> grown@[d] is None,
            forall|d: int| 0 <= d < c ==> pointee(#[trigger] grown@[d]) == child(old_node, d as u8),
        decreases 256 - c,
    {
        let slot: u8 = n.key_index[c];
        if slot != 0xFF {
            assert(n.key_index[c as int] < 48);
            match &n.children[slot as usize] {
                Some(p) => {
                    proof {
                        lemma_taken_update(grown@, c as int, Some(*p));
                    }
                    grown.set(c, Some(share(p)));
                    count += 1;
                },
                None => {},
            }
        }
        c += 1;
    }
    let wide = Node256 { prefix: copy_bytes(n.prefix.as_slice()), count, children: grown };
    proof {
        lemma_has_child(old_node);
        let w = choose|w: u8| (#[trigger] child(old_node, w)) is Some;
        assert(grown@[w as int] is Some);
        lemma_taken_zero(grown@);
        assert forall|d: u8| child(ArtNode::Node256(wide), d) == child(old_node, d) by {
            assert(pointee(grown@[d as int]) == child(old_node, d));
        }
    }
    node256_with_child(&wide, b, kid)
}

fn node256_with_child<V>(n: &Node256<V>, b: u8, kid: Arc<ArtNode<V>>) -> (r: Arc<ArtNode<V>>)
    requires
        layout(ArtNode::Node256(*n)),
    ensures
        child_set(ArtNode::Node256(*n), *r, b, Some(*kid)),
{
    let mut children = share_slots(&n.children);
    proof {
        lemma_taken_update(children@, b as int, Some(kid));
        lemma_taken_zero(n.children@);
        lemma_taken_zero(n.children@.update(b as int, Some(kid)));
    }
    let fresh: bool = children[b as usize].is_none();
    children.set(b as usize, Some(kid));
    let count: u16 = if fresh {
        n.count + 1
    } else {
        n.count
    };
    Arc::new(
        ArtNode::Node256(Node256 { prefix: copy_bytes(n.prefix.as_slice()), count, children }),
    )
}

/// The child under byte `b`.
fn get_child<V>(node: &ArtNode<V>, b: u8) -> (r: Option<&Arc<ArtNode<V>>>)
    requires
        layout(*node),
    ensures
        match r {
            Some(c) => child(*node, b) == Some(**c),
            None => child(*node, b) is None,
        },
{
    match node {
        ArtNode::Leaf(_) => None,
        ArtNode::Node4(n) => {
            proof {
                lemma_sorted_child(n.keys@, n.children, b);
            }
            let (found, pos) = key_position(&n.keys, b);
            if found {
                Some(&n.children[pos])
            } else {
                None
            }
        },
        ArtNode::Node16(n) => {
            proof {
                lemma_sorted_child(n.keys@, n.children, b);
            }
            let (found, pos) = key_position(&n.keys, b);
            if found {
                Some(&n.children[pos])
            } else {
                None
            }
        },
        ArtNode::Node48(n) => {
            let idx: u8 = n.key_index[b as usize];
            if idx == 0xFF {
                None
            } else {
                assert(n.key_index[b as int] < 48);
                n.children[idx as usize].as_ref()
            }
        },
        ArtNode::Node256(n) => n.children[b as usize].as_ref(),
    }
}

/// The compressed prefix of a node.
fn get_prefix<V>(node: &ArtNode<V>) -> (r: &[u8])
    ensures
        r@ == node_prefix(*node),
{
    match node {
        ArtNode::Leaf(l) => vstd::slice::slice_subrange(l.key.as_slice(), 0, 0),
        ArtNode::Node4(n) => n.prefix.as_slice(),
        ArtNode::Node16(n) => n.prefix.as_slice(),
        ArtNode::Node48(n) => n.prefix.as_slice(),
        ArtNode::Node256(n) => n.prefix.as_slice(),
    }
}

/// A copy of the inner node with `kid` under byte `b`.
fn with_child<V>(node: &ArtNode<V>, b: u8, kid: Arc<ArtNode<V>>) -> (r: Arc<ArtNode<V>>)
    requires
        layout(*node),
        !(*node is Leaf),
    ensures
        child_set(*node, *r, b, Some(*kid)),
{
    match node {
        ArtNode::Leaf(_) => kid,
        ArtNode::Node4(n) => node4_with_child(n, b, kid),
        ArtNode::Node16(n) => node16_with_child(n, b, kid),
        ArtNode::Node48(n) => node48_with_child(&**n, b, kid),
        ArtNode::Node256(n) => node256_with_child(n, b, kid),
    }
}

/// The ascending layout without the entry at `pos`.
fn sorted_without<V>(
    keys: &Vec<u8>,
    children: &Vec<Arc<ArtNode<V>>>,
    pos: usize,
) -> (r: (Vec<u8>, Vec<Arc<ArtNode<V>>>))
    requires
        sorted_layout(keys@, *children, 16),
        pos < keys.len(),
    ensures
        keys.len() > 1 ==> sorted_layout(r.0@, r.1, keys.len() - 1),
        r.0.len() == keys.len() - 1,
        forall|c: u8| #[trigger]
            sorted_child(r.0@, r.1, c) == if c == keys@[pos as int] {
                None
            } else {
                sorted_child(keys@, *children, c)
            },
{
    let mut k2: Vec<u8> = copy_bytes(keys.as_slice());
    let mut c2: Vec<Arc<ArtNode<V>>> = share_all(children);
    k2.remove(pos);
    c2.remove(pos);
    proof {
        assert forall|i: int, j: int| 0 <= i < j < k2.len() implies k2@[i] < k2@[j] by {
            let i0 = if i < pos {
                i
            } else {
                i + 1
            };
            let j0 = if j < pos {
                j
            } else {
                j + 1
            };
            assert(k2@[i] == keys@[i0] && k2@[j] == keys@[j0]);
        }
        assert forall|c: u8| #[trigger]
            sorted_child(k2@, c2, c) == if c == keys@[pos as int] {
                None
            } else {
                sorted_child(keys@, *children, c)
            } by {
            lemma_sorted_child(keys@, *children, c);
            lemma_sorted_child(k2@, c2, c);
            if c != keys@[pos as int] && exists|i: int| 0 <= i < keys.len() && keys@[i] == c {
                let i = choose|i: int| 0 <= i < keys.len() && keys@[i] == c;
                let j = if i < pos {
                    i
                } else {
                    i - 1
                };
                assert(k2@[j] == c && c2@[j] == children@[i]);
            } else {
                assert forall|j: int| 0 <= j < k2.len() implies k2@[j] != c by {
                    let i = if j < pos {
                        j
                    } else {
                        j + 1
                    };
                    assert(k2@[j] == keys@[i]);
                    assert(keys@[i] != keys@[pos as int]);
                }
            }
        }
    }
    (k2, c2)
}

/// A copy of the inner node without the child under `b`, or nothing where that
/// was the only one.
fn without_child<V>(node: &ArtNode<V>, b: u8) -> (r: Option<Arc<ArtNode<V>>>)
    requires
        layout(*node),
        child(*node, b) is Some,
    ensures
        match r {
            Some(n) => child_set(*node, *n, b, None),
            None => forall|c: u8| c != b ==> (#[trigger] child(*node, c)) is None,
        },
{
    match node {
        ArtNode::Leaf(_) => None,
        ArtNode::Node4(n) => {
            let (found, pos) = key_position(&n.keys, b);
            let (keys, children) = sorted_without(&n.keys, &n.children, pos);
            proof {
                assert(child(*node, b) == sorted_child(n.keys@, n.children, b));
                if keys.len() == 0 {
                    assert forall|c: u8| c != b implies (#[trigger] child(*node, c)) is None by {
                        lemma_sorted_child(n.keys@, n.children, c);
                    }
                }
            }
            if keys.len() == 0 {
                None
            } else {
                Some(
                    Arc::new(
                        ArtNode::Node4(
                            Node4 { prefix: copy_bytes(n.prefix.as_slice()), keys, children },
                        ),
                    ),
                )
            }
        },
        ArtNode::Node16(n) => {
            let (found, pos) = key_position(&n.keys, b);
            let (keys, children) = sorted_without(&n.keys, &n.children, pos);
            proof {
                assert(child(*node, b) == sorted_child(n.keys@, n.children, b));
                if keys.len() == 0 {
                    assert forall|c: u8| c != b implies (#[trigger] child(*node, c)) is None by {
                        lemma_sorted_child(n.keys@, n.children, c);
                    }
                }
            }
            if keys.len() == 0 {
                None
            } else {
                Some(
                    Arc::new(
                        ArtNode::Node16(
                            Node16 { prefix: copy_bytes(n.prefix.as_slice()), keys, children },
                        ),
                    ),
                )
            }
        },
        ArtNode::Node48(n) => {
            let idx: u8 = n.key_index[b as usize];
            assert(n.key_index[b as int] < 48);
            let mut children = share_slots(&n.children);
            let mut key_index: Vec<u8> = copy_bytes(n.key_index.as_slice());
            proof {
                lemma_taken_update(children@, idx as int, None);
                lemma_taken_zero(children@.update(idx as int, None));
            }
            key_index.set(b as usize, 0xFF);
            children.set(idx as usize, None);
            let count: u8 = n.count - 1;
            let new_n = Node48 {
                prefix: copy_bytes(n.prefix.as_slice()),
                count,
                key_index,
                children,
            };
            proof {
                assert forall|s: int|
                    0 <= s < 48 && #[trigger] new_n.children[s] is Some implies exists|c: int|
                    0 <= c < 256 && #[trigger] new_n.key_index[c] == s by {
                    assert(n.children[s] is Some);
                    let c = choose|c: int| 0 <= c < 256 && #[trigger] n.key_index[c] == s;
                    assert(new_n.key_index[c] == s);
                }
                assert forall|c: int|
                    0 <= c < 256 && #[trigger] new_n.key_index[c] != 0xFF implies new_n.key_index[c]
                    < 48 && new_n.children[new_n.key_index[c] as int] is Some by {
                    assert(n.key_index[c] != 0xFF);
                    assert(n.key_index[c] != n.key_index[b as int]);
                }
                assert forall|c: int, d: int|
                    0 <= c < d < 256 && #[trigger] new_n.key_index[c]
                        != 0xFF implies new_n.key_index[c] != #[trigger] new_n.key_index[d] by {
                    assert(n.key_index[c] != n.key_index[d]);
                }
                let new_node = ArtNode::Node48(Box::new(new_n));
                assert forall|c: u8| #[trigger]
                    child(new_node, c) == if c == b {
                        None
                    } else {
                        child(*node, c)
                    } by {
                    if c != b {
                        assert(n.key_index[c as int] == 0xFF || n.key_index[c as int]
                            != n.key_index[b as int]);
                    }
                }
                if count == 0 {
                    assert forall|c: u8| c != b implies (#[trigger] child(*node, c)) is None by {
                        assert(child(new_node, c) == child(*node, c));
                        if n.key_index[c as int] != 0xFF {
                            assert(new_n.children@[n.key_index[c as int] as int] is None);
                        }
                    }
                }
            }
            if count == 0 {
                None
            } else {
                Some(Arc::new(ArtNode::Node48(Box::new(new_n))))
            }
        },
        ArtNode::Node256(n) => {
            let mut children = share_slots(&n.children);
            proof {
                lemma_taken_update(children@, b as int, None);
                lemma_taken_zero(children@.update(b as int, None));
            }
            children.set(b as usize, None);
            let count: u16 = n.count - 1;
            if count == 0 {
                proof {
                    assert forall|c: u8| c != b implies (#[trigger] child(*node, c)) is None by {
                        assert(children@[c as int] is None);
                    }
                }
                None
            } else {
                Some(
                    Arc::new(
                        ArtNode::Node256(
                            Node256 { prefix: copy_bytes(n.prefix.as_slice()), count, children },
                        ),
                    ),
                )
            }
        },
    }
}

/// A copy of the inner node with another compressed prefix.
fn with_prefix<V>(node: &ArtNode<V>, prefix: Vec<u8>) -> (r: Arc<ArtNode<V>>)
    requires
        layout(*node),
        !(*node is Leaf),
    ensures
        layout(*r),
        !(*r is Leaf),
        node_prefix(*r) == prefix@,
        forall|c: u8| #[trigger] child(*r, c) == child(*node, c),
{
    match node {
        ArtNode::Leaf(l) => Arc::new(
            ArtNode::Node4(Node4 { prefix, keys: Vec::new(), children: Vec::new() }),
        ),
        ArtNode::Node4(n) => {
            let keys = copy_bytes(n.keys.as_slice());
            let children = share_all(&n.children);
            Arc::new(ArtNode::Node4(Node4 { prefix, keys, children }))
        },
        ArtNode::Node16(n) => {
            let keys = copy_bytes(n.keys.as_slice());
            let children = share_all(&n.children);
            Arc::new(ArtNode::Node16(Node16 { prefix, keys, children }))
        },
        ArtNode::Node48(n) => {
            let key_index = copy_bytes(n.key_index.as_slice());
            let children = share_slots(&n.children);
            let r = Arc::new(
                ArtNode::Node48(Box::new(Node48 { prefix, count: n.count, key_index, children })),
            );
            assert(layout(*r)) by {
                let m = *(*r)->Node48_0;
                assert forall|s: int|
                    0 <= s < 48 && #[trigger] m.children[s] is Some implies exists|c: int|
                    0 <= c < 256 && #[trigger] m.key_index[c] == s by {
                    assert(n.children[s] is Some);
                    let c = choose|c: int| 0 <= c < 256 && #[trigger] n.key_index[c] == s;
                    assert(m.key_index[c] == s);
                }
                assert forall|c: int|
                    0 <= c < 256 && #[trigger] m.key_index[c] != 0xFF implies m.key_index[c] < 48
                    && m.children[m.key_index[c] as int] is Some by {
                    assert(n.key_index[c] != 0xFF);
                }
                assert forall|c: int, d: int|
                    0 <= c < d < 256 && #[trigger] m.key_index[c] != 0xFF implies m.key_index[c]
                    != #[trigger] m.key_index[d] by {
                    assert(n.key_index[c] != n.key_index[d]);
                }
            }
            r
        },
        ArtNode::Node256(n) => {
            let children = share_slots(&n.children);
            Arc::new(ArtNode::Node256(Node256 { prefix, count: n.count, children }))
        },
    }
}

// ---------------------------------------------------------------------------
// Lookup
// ---------------------------------------------------------------------------

proof fn lemma_rest(key: Seq<u8>, depth: int, pfx: Seq<u8>)
    requires
        0 <= depth <= key.len(),
    ensures
        codec::has_prefix(key.subrange(depth, key.len() as int), pfx) <==> codec::has_prefix(
            key,
            key.subrange(0, depth) + pfx,
        ),
        codec::has_prefix(key.subrange(depth, key.len() as int), pfx) ==> key.subrange(0, depth) + pfx
            == key.subrange(0, depth + pfx.len()),
{
    let rest = key.subrange(depth, key.len() as int);
    let base = key.subrange(0, depth) + pfx;
    if codec::has_prefix(rest, pfx) {
        assert(key.subrange(0, depth + pfx.len()) =~= key.subrange(0, depth) + rest.subrange(
            0,
            pfx.len() as int,
        ));
    }
    if codec::has_prefix(key, base) {
        assert(rest.subrange(0, pfx.len() as int) =~= key.subrange(0, base.len() as int).subrange(
            depth,
            base.len() as int,
        ));
        assert(base.subrange(depth, base.len() as int) =~= pfx);
    }
}

/// The entry of `key`, where the tree holds one. The first `depth` bytes of the
/// key have been consumed above `node`.
pub fn art_lookup<'a, V>(node: &'a ArtNode<V>, key: &[u8], depth: usize) -> (r: Option<&'a V>)
    requires
        depth <= key@.len(),
        well_formed(*node, key@.subrange(0, depth as int)),
    ensures
        match r {
            Some(v) => entries(*node).contains_key(key@) && entries(*node)[key@] == *v,
            None => !entries(*node).contains_key(key@),
        },
    decreases *node,
{
    if let ArtNode::Leaf(l) = node {
        return if bytes_equal(l.key.as_slice(), key) {
            Some(&l.entry)
        } else {
            None
        };
    }
    let ghost path = key@.subrange(0, depth as int);
    let pfx = get_prefix(node);
    let ghost base = path + pfx@;
    proof {
        lemma_descend(*node, path, key@);
        lemma_rest(key@, depth as int, pfx@);
    }
    if !starts_with(vstd::slice::slice_subrange(key, depth, key.len()), pfx) {
        return None;
    }
    let after: usize = depth + pfx.len();
    let b: u8 = if after >= key.len() {
        0
    } else {
        key[after]
    };
    match get_child(node, b) {
        None => None,
        Some(c) => {
            let ghost below = child(*node, b)->0;
            proof {
                lemma_child_smaller(*node, b);
                assert(child_fits(below, base, b));
            }
            if let ArtNode::Leaf(l) = &**c {
                return if bytes_equal(l.key.as_slice(), key) {
                    Some(&l.entry)
                } else {
                    None
                };
            }
            if after >= key.len() {
                proof {
                    if entries(below).contains_key(key@) {
                        lemma_child_keys(below, base, b, key@);
                    }
                }
                return None;
            }
            assert(base.push(b) =~= key@.subrange(0, after + 1));
            art_lookup(&**c, key, after + 1)
        },
    }
}

// ---------------------------------------------------------------------------
// Insert
// ---------------------------------------------------------------------------

/// Replacing the child under `b` by one that fits keeps the invariant.
proof fn lemma_set_ok<V>(
    old_node: ArtNode<V>,
    new_node: ArtNode<V>,
    path: Seq<u8>,
    b: u8,
    kid: Option<ArtNode<V>>,
)
    requires
        well_formed(old_node, path),
        !(old_node is Leaf),
        child_set(old_node, new_node, b, kid),
        kid matches Some(c) ==> child_fits(c, path + node_prefix(old_node), b),
    ensures
        well_formed(new_node, path),
{
    assert forall|c: u8| (#[trigger] child(new_node, c)) is Some implies child_fits(
        child(new_node, c)->0,
        path + node_prefix(new_node),
        c,
    ) by {
        if c != b {
            assert(child(old_node, c) is Some);
        }
    }
}

/// Changing what the child on the key's way holds, at the key only, changes
/// what the node holds, at the key only.
proof fn lemma_set_entries<V>(
    old_node: ArtNode<V>,
    new_node: ArtNode<V>,
    path: Seq<u8>,
    kid: Option<ArtNode<V>>,
    key: Seq<u8>,
)
    requires
        well_formed(old_node, path),
        well_formed(new_node, path),
        !(old_node is Leaf),
        codec::has_prefix(key, path + node_prefix(old_node)),
        child_set(
            old_node,
            new_node,
            discriminant(key, (path + node_prefix(old_node)).len() as int),
            kid,
        ),
        ({
            let b = discriminant(key, (path + node_prefix(old_node)).len() as int);
            let before = below(child(old_node, b));
            let after = below(kid);
            forall|k: Seq<u8>|
                k != key ==> (#[trigger] after.contains_key(k) <==> before.contains_key(k)) && (
                after.contains_key(k) ==> after[k] == before[k])
        }),
    ensures
        forall|k: Seq<u8>|
            k != key ==> (#[trigger] entries(new_node).contains_key(k) <==> entries(
                old_node,
            ).contains_key(k)) && (entries(new_node).contains_key(k) ==> entries(new_node)[k]
                == entries(old_node)[k]),
        entries(new_node).contains_key(key) <==> below(kid).contains_key(key),
        entries(new_node).contains_key(key) ==> entries(new_node)[key] == below(kid)[key],
{
    assert forall|k: Seq<u8>| k != key implies (#[trigger] entries(new_node).contains_key(k)
        <==> entries(old_node).contains_key(k)) && (entries(new_node).contains_key(k) ==> entries(
        new_node,
    )[k] == entries(old_node)[k]) by {
        lemma_descend(old_node, path, k);
        lemma_descend(new_node, path, k);
        let b = discriminant(key, (path + node_prefix(old_node)).len() as int);
        assert(below(kid).contains_key(k) <==> below(child(old_node, b)).contains_key(k));
    }
    lemma_descend(new_node, path, key);
}

/// What an optional child holds.
pub open spec fn below<V>(kid: Option<ArtNode<V>>) -> Map<Seq<u8>, V> {
    match kid {
        Some(c) => entries(c),
        None => Map::empty(),
    }
}

/// A node with two children, each of which fits, holds what the two hold.
proof fn lemma_two_children<V>(
    node: ArtNode<V>,
    path: Seq<u8>,
    b1: u8,
    n1: ArtNode<V>,
    b2: u8,
    n2: ArtNode<V>,
)
    requires
        layout(node),
        !(node is Leaf),
        b1 != b2,
        forall|c: u8| #[trigger]
            child(node, c) == if c == b1 {
                Some(n1)
            } else if c == b2 {
                Some(n2)
            } else {
                None
            },
        child_fits(n1, path + node_prefix(node), b1),
        child_fits(n2, path + node_prefix(node), b2),
    ensures
        well_formed(node, path),
        entries(node) == entries(n1).union_prefer_right(entries(n2)),
{
    let base = path + node_prefix(node);
    assert(well_formed(node, path));
    let u = entries(n1).union_prefer_right(entries(n2));
    assert forall|k: Seq<u8>|
        (#[trigger] entries(node).contains_key(k)) == u.contains_key(k) && (u.contains_key(k)
            ==> entries(node)[k] == u[k]) by {
        lemma_descend(node, path, k);
        if entries(n1).contains_key(k) {
            lemma_child_keys(n1, base, b1, k);
        }
        if entries(n2).contains_key(k) {
            lemma_child_keys(n2, base, b2, k);
        }
    }
    assert(entries(node) =~= u);
}

/// An inner node with the given prefix and two children.
fn two_children<V>(
    prefix: Vec<u8>,
    b1: u8,
    kid1: Arc<ArtNode<V>>,
    b2: u8,
    kid2: Arc<ArtNode<V>>,
) -> (r: Arc<ArtNode<V>>)
    requires
        b1 != b2,
    ensures
        layout(*r),
        !(*r is Leaf),
        node_prefix(*r) == prefix@,
        forall|c: u8| #[trigger]
            child(*r, c) == if c == b1 {
                Some(*kid1)
            } else if c == b2 {
                Some(*kid2)
            } else {
                None
            },
{
    let ghost (g1, g2) = (node_at(kid1), node_at(kid2));
    let mut keys: Vec<u8> = Vec::new();
    let mut children: Vec<Arc<ArtNode<V>>> = Vec::new();
    if b1 < b2 {
        keys.push(b1);
        children.push(kid1);
        keys.push(b2);
        children.push(kid2);
    } else {
        keys.push(b2);
        children.push(kid2);
        keys.push(b1);
        children.push(kid1);
    }
    proof {
        assert forall|c: u8| #[trigger]
            sorted_child(keys@, children, c) == if c == b1 {
                Some(g1)
            } else if c == b2 {
                Some(g2)
            } else {
                None
            } by {
            lemma_sorted_child(keys@, children, c);
            let i1: int = if b1 < b2 {
                0
            } else {
                1
            };
            assert(keys@[i1] == b1 && node_at(children@[i1]) == g1);
            assert(keys@[1 - i1] == b2 && node_at(children@[1 - i1]) == g2);
        }
    }
    Arc::new(ArtNode::Node4(Node4 { prefix, keys, children }))
}

fn new_leaf<V>(key: &[u8], entry: V) -> (r: Arc<ArtNode<V>>)
    ensures
        *r is Leaf,
        (*r)->Leaf_0.key@ == key@,
        entries(*r) == map![key@ => entry],
{
    Arc::new(ArtNode::Leaf(LeafNode { key: copy_bytes(key), entry }))
}

/// Puts a new leaf beside a leaf with another key.
fn split_leaf<V>(node: &Arc<ArtNode<V>>, key: &[u8], entry: V, depth: usize) -> (r: Arc<
    ArtNode<V>,
>)
    requires
        **node is Leaf,
        depth <= key@.len(),
        well_formed(**node, key@.subrange(0, depth as int)),
        (**node)->Leaf_0.key@ != key@,
        separable(entries(**node).dom().insert(key@)),
    ensures
        well_formed(*r, key@.subrange(0, depth as int)),
        entries(*r) == entries(**node).insert(key@, entry),
{
    let ghost path = key@.subrange(0, depth as int);
    let ghost old_node = node_at(*node);
    match &**node {
        ArtNode::Leaf(l) => {
            let existing = l.key.as_slice();
            let cp: usize = common_prefix_len(
                vstd::slice::slice_subrange(existing, depth, existing.len()),
                vstd::slice::slice_subrange(key, depth, key.len()),
            );
            let at: usize = depth + cp;
            let common = copy_range(key, depth, at);
            let ghost base = path + common@;
            let b_old: u8 = if at >= existing.len() {
                0
            } else {
                existing[at]
            };
            let b_new: u8 = if at >= key.len() {
                0
            } else {
                key[at]
            };
            proof {
                assert(entries(old_node).contains_key(existing@));
                assert(base =~= key@.subrange(0, at as int));
                assert(existing@.subrange(0, at as int) =~= existing@.subrange(0, depth as int)
                    + existing@.subrange(depth as int, existing@.len() as int).subrange(
                    0,
                    cp as int,
                ));
                assert(key@.subrange(0, at as int) =~= path + key@.subrange(
                    depth as int,
                    key@.len() as int,
                ).subrange(0, cp as int));
                assert(codec::has_prefix(existing@, base) && codec::has_prefix(key@, base));
                lemma_prefix_push(existing@, base, b_old);
                lemma_prefix_push(key@, base, b_new);
                lemma_prefix_push(key@, existing@, 0);
                lemma_prefix_push(existing@, key@, 0);
                assert(existing@.subrange(0, existing@.len() as int) =~= existing@);
                assert(key@.subrange(0, key@.len() as int) =~= key@);
                if at >= existing.len() {
                    assert(existing@ == base);
                }
                if at >= key.len() {
                    assert(key@ == base);
                }
                let keys = entries(old_node).dom().insert(key@);
                assert(keys.contains(key@) && keys.contains(existing@));
                if at < existing.len() && at < key.len() {
                    assert(existing@[at as int] == existing@.subrange(
                        depth as int,
                        existing@.len() as int,
                    )[cp as int]);
                    assert(key@[at as int] == key@.subrange(
                        depth as int,
                        key@.len() as int,
                    )[cp as int]);
                }
                assert(b_old != b_new);
            }
            let leaf = new_leaf(key, entry);
            let ghost fresh = node_at(leaf);
            let r = two_children(common, b_old, share(node), b_new, leaf);
            proof {
                lemma_two_children(node_at(r), path, b_old, old_node, b_new, fresh);
                assert(entries(*r) =~= entries(old_node).insert(key@, entry));
            }
            r
        },
        _ => share(node),
    }
}

/// Puts a new leaf beside an inner node whose compressed prefix agrees with the
/// key in its first `cp` bytes only.
fn split_inner<V>(node: &ArtNode<V>, key: &[u8], entry: V, depth: usize, cp: usize) -> (r: Arc<
    ArtNode<V>,
>)
    requires
        !(*node is Leaf),
        depth <= key@.len(),
        well_formed(*node, key@.subrange(0, depth as int)),
        cp < node_prefix(*node).len(),
        depth + cp <= key.len(),
        node_prefix(*node).subrange(0, cp as int) == key@.subrange(depth as int, depth + cp),
        depth + cp < key@.len() ==> node_prefix(*node)[cp as int] != key@[depth + cp],
        separable(entries(*node).dom().insert(key@)),
    ensures
        well_formed(*r, key@.subrange(0, depth as int)),
        entries(*r) == entries(*node).insert(key@, entry),
{
    let ghost path = key@.subrange(0, depth as int);
    let pfx = get_prefix(node);
    let common = copy_range(pfx, 0, cp);
    let ghost base = path + common@;
    let at: usize = depth + cp;
    let b_old: u8 = pfx[cp];
    let b_new: u8 = if at >= key.len() {
        0
    } else {
        key[at]
    };
    let trimmed = with_prefix(node, copy_range(pfx, cp + 1, pfx.len()));
    let ghost low = node_at(trimmed);
    proof {
        let low_path = base.push(b_old);
        assert(low_path + node_prefix(low) =~= path + node_prefix(*node));
        assert forall|c: u8| (#[trigger] child(low, c)) is Some implies child_fits(
            child(low, c)->0,
            low_path + node_prefix(low),
            c,
        ) by {
            assert(child(*node, c) is Some);
        }
        assert(well_formed(low, low_path));
        assert forall|k: Seq<u8>|
            (#[trigger] entries(low).contains_key(k)) == entries(*node).contains_key(k) && (entries(
                low,
            ).contains_key(k) ==> entries(low)[k] == entries(*node)[k]) by {
            lemma_descend(low, low_path, k);
            lemma_descend(*node, path, k);
        }
        assert(entries(low) =~= entries(*node));
        assert(base =~= key@.subrange(0, at as int));
        assert(codec::has_prefix(key@, base));
        lemma_prefix_push(key@, base, b_new);
        if at >= key.len() {
            assert(key@ =~= base);
            lemma_nonempty(low, low_path);
            let k = choose|k: Seq<u8>| #[trigger] entries(low).contains_key(k);
            lemma_keys_below(low, low_path, k);
            let keys = entries(*node).dom().insert(key@);
            assert(keys.contains(key@) && keys.contains(k));
            assert(b_old != 0);
        }
    }
    let leaf = new_leaf(key, entry);
    let ghost fresh = node_at(leaf);
    let r = two_children(common, b_old, trimmed, b_new, leaf);
    proof {
        lemma_two_children(node_at(r), path, b_old, low, b_new, fresh);
        assert(entries(*r) =~= entries(*node).insert(key@, entry));
    }
    r
}

fn insert_into<V>(node: &Arc<ArtNode<V>>, key: &[u8], entry: V, depth: usize) -> (r: Arc<
    ArtNode<V>,
>)
    requires
        depth <= key@.len(),
        well_formed(**node, key@.subrange(0, depth as int)),
        separable(entries(**node).dom().insert(key@)),
    ensures
        well_formed(*r, key@.subrange(0, depth as int)),
        entries(*r) == entries(**node).insert(key@, entry),
    decreases **node,
{
    let ghost path = key@.subrange(0, depth as int);
    let ghost old_node = node_at(*node);
    if let ArtNode::Leaf(l) = &**node {
        if bytes_equal(l.key.as_slice(), key) {
            let r = new_leaf(key, entry);
            proof {
                lemma_rest(key@, depth as int, Seq::empty());
                assert(path + Seq::<u8>::empty() =~= path);
                assert(entries(*r) =~= entries(old_node).insert(key@, entry));
            }
            return r;
        }
        return split_leaf(node, key, entry, depth);
    }
    let inner: &ArtNode<V> = &**node;
    let pfx = get_prefix(inner);
    let rest = vstd::slice::slice_subrange(key, depth, key.len());
    let cp: usize = common_prefix_len(pfx, rest);
    if cp < pfx.len() {
        assert(rest@.subrange(0, cp as int) =~= key@.subrange(depth as int, depth + cp));
        return split_inner(inner, key, entry, depth, cp);
    }
    let after: usize = depth + pfx.len();
    let ghost base = path + pfx@;
    proof {
        assert(pfx@.subrange(0, cp as int) =~= pfx@);
        assert(codec::has_prefix(rest@, pfx@));
        lemma_rest(key@, depth as int, pfx@);
    }
    let ghost keys = entries(old_node).dom().insert(key@);
    if after >= key.len() {
        let leaf = new_leaf(key, entry);
        let ghost fresh = node_at(leaf);
        assert(key@ =~= base);
        proof {
            if child(old_node, 0) is Some {
                let c = child(old_node, 0)->0;
                assert(child_fits(c, base, 0));
                if !(c is Leaf && c->Leaf_0.key@ == base) {
                    lemma_nonempty(c, base.push(0));
                    let k = choose|k: Seq<u8>| #[trigger] entries(c).contains_key(k);
                    lemma_child_keys(c, base, 0, k);
                    lemma_descend(old_node, path, k);
                    assert(keys.contains(key@) && keys.contains(k));
                    assert(false);
                }
            }
        }
        let r = with_child(inner, 0, leaf);
        proof {
            lemma_set_ok(old_node, node_at(r), path, 0, Some(fresh));
            lemma_set_entries(old_node, node_at(r), path, Some(fresh), key@);
            assert(entries(*r) =~= entries(old_node).insert(key@, entry));
        }
        return r;
    }
    let b: u8 = key[after];
    assert(base.push(b) =~= key@.subrange(0, after + 1));
    let kid = match get_child(inner, b) {
        None => {
            let leaf = new_leaf(key, entry);
            assert(well_formed(*leaf, base.push(b)));
            leaf
        },
        Some(c) => {
            let ghost low = child(old_node, b)->0;
            proof {
                lemma_child_smaller(old_node, b);
                assert(child_fits(low, base, b));
                lemma_prefix_push(key@, base, b);
                if low is Leaf && low->Leaf_0.key@ == base {
                    assert(entries(low).contains_key(base));
                    lemma_child_keys(low, base, b, base);
                    lemma_descend(old_node, path, base);
                    assert(entries(old_node).contains_key(base));
                    assert(keys.contains(key@) && keys.contains(base));
                    assert(false);
                }
                assert forall|k1: Seq<u8>, k2: Seq<u8>|
                    #![trigger entries(low).dom().insert(key@).contains(k1), entries(low).dom().insert(key@).contains(k2)]
                    entries(low).dom().insert(key@).contains(k1) && entries(low).dom().insert(
                        key@,
                    ).contains(k2) implies !codec::has_prefix(k2, k1.push(0u8)) by {
                    if k1 != key@ {
                        assert(entries(old_node).contains_key(k1));
                    }
                    if k2 != key@ {
                        assert(entries(old_node).contains_key(k2));
                    }
                    assert(keys.contains(k1) && keys.contains(k2));
                }
            }
            insert_into(c, key, entry, after + 1)
        },
    };
    let ghost fresh = node_at(kid);
    let r = with_child(inner, b, kid);
    proof {
        assert(child_fits(fresh, base, b));
        lemma_set_ok(old_node, node_at(r), path, b, Some(fresh));
        lemma_set_entries(old_node, node_at(r), path, Some(fresh), key@);
        assert(entries(*r) =~= entries(old_node).insert(key@, entry));
    }
    r
}

/// The tree with `entry` under `key`, in place of what it held there before.
/// The old tree stays as it was. The first `depth` bytes of the key have been
/// consumed above the node.
pub fn art_insert<V>(
    node: Option<Arc<ArtNode<V>>>,
    key: &[u8],
    entry: V,
    depth: usize,
) -> (r: Arc<ArtNode<V>>)
    requires
        depth <= key@.len(),
        node matches Some(n) ==> well_formed(*n, key@.subrange(0, depth as int)),
        separable(entries_of(node).dom().insert(key@)),
    ensures
        well_formed(*r, key@.subrange(0, depth as int)),
        entries(*r) == entries_of(node).insert(key@, entry),
{
    match node {
        None => {
            let r = new_leaf(key, entry);
            proof {
                lemma_rest(key@, depth as int, Seq::empty());
                assert(key@.subrange(0, depth as int) + Seq::<u8>::empty() =~= key@.subrange(
                    0,
                    depth as int,
                ));
                assert(entries(*r) =~= entries_of(node).insert(key@, entry));
            }
            r
        },
        Some(n) => insert_into(&n, key, entry, depth),
    }
}

// ---------------------------------------------------------------------------
// Delete
// ---------------------------------------------------------------------------

fn delete_from<V>(node: &Arc<ArtNode<V>>, key: &[u8], depth: usize) -> (r: Option<
    Arc<ArtNode<V>>,
>)
    requires
        depth <= key@.len(),
        well_formed(**node, key@.subrange(0, depth as int)),
    ensures
        r matches Some(n) ==> well_formed(*n, key@.subrange(0, depth as int)),
        entries_of(r) == entries(**node).remove(key@),
    decreases **node,
{
    let ghost path = key@.subrange(0, depth as int);
    let ghost old_node = node_at(*node);
    if let ArtNode::Leaf(l) = &**node {
        return if bytes_equal(l.key.as_slice(), key) {
            assert(Map::<Seq<u8>, V>::empty() =~= entries(old_node).remove(key@));
            None
        } else {
            assert(entries(old_node) =~= entries(old_node).remove(key@));
            Some(share(node))
        };
    }
    let inner: &ArtNode<V> = &**node;
    let pfx = get_prefix(inner);
    let ghost base = path + pfx@;
    proof {
        lemma_descend(old_node, path, key@);
        lemma_rest(key@, depth as int, pfx@);
        if !entries(old_node).contains_key(key@) {
            assert(entries(old_node) =~= entries(old_node).remove(key@));
        }
    }
    if !starts_with(vstd::slice::slice_subrange(key, depth, key.len()), pfx) {
        return Some(share(node));
    }
    let after: usize = depth + pfx.len();
    let b: u8 = if after >= key.len() {
        0
    } else {
        key[after]
    };
    let new_child: Option<Arc<ArtNode<V>>> = match get_child(inner, b) {
        None => {
            return Some(share(node));
        },
        Some(c) => {
            let ghost low = child(old_node, b)->0;
            proof {
                lemma_child_smaller(old_node, b);
                assert(child_fits(low, base, b));
            }
            if let ArtNode::Leaf(l) = &**c {
                if !bytes_equal(l.key.as_slice(), key) {
                    return Some(share(node));
                }
                assert(entries(low).remove(key@) =~= Map::<Seq<u8>, V>::empty());
                None
            } else if after >= key.len() {
                proof {
                    if entries(low).contains_key(key@) {
                        lemma_child_keys(low, base, b, key@);
                    }
                }
                return Some(share(node));
            } else {
                assert(base.push(b) =~= key@.subrange(0, after + 1));
                delete_from(c, key, after + 1)
            }
        },
    };
    let ghost low = child(old_node, b)->0;
    let ghost kid: Option<ArtNode<V>> = pointee(new_child);
    assert(below(kid) =~= entries(low).remove(key@));
    let r = match new_child {
        Some(nc) => Some(with_child(inner, b, nc)),
        None => without_child(inner, b),
    };
    proof {
        match pointee(r) {
            Some(n) => {
                lemma_set_ok(old_node, n, path, b, kid);
                lemma_set_entries(old_node, n, path, kid, key@);
                assert(entries(n) =~= entries(old_node).remove(key@));
            },
            None => {
                assert forall|k: Seq<u8>| !entries(old_node).remove(key@).contains_key(k) by {
                    lemma_descend(old_node, path, k);
                    if entries(old_node).contains_key(k) && k != key@ {
                        assert(entries(low).remove(key@).contains_key(k));
                    }
                }
                assert(entries(old_node).remove(key@) =~= Map::<Seq<u8>, V>::empty());
            },
        }
    }
    r
}

/// The tree without `key`, or nothing where no key is left. The old tree stays
/// as it was. The first `depth` bytes of the key have been consumed above the
/// node.
pub fn art_delete<V>(node: Arc<ArtNode<V>>, key: &[u8], depth: usize) -> (r: Option<
    Arc<ArtNode<V>>,
>)
    requires
        depth <= key@.len(),
        well_formed(*node, key@.subrange(0, depth as int)),
    ensures
        r matches Some(n) ==> well_formed(*n, key@.subrange(0, depth as int)),
        entries_of(r) == entries(*node).remove(key@),
        r is None <==> entries(*node).remove(key@).dom() == Set::<Seq<u8>>::empty(),
{
    let r = delete_from(&node, key, depth);
    proof {
        match pointee(r) {
            Some(n) => {
                lemma_nonempty(n, key@.subrange(0, depth as int));
                let k = choose|k: Seq<u8>| #[trigger] entries(n).contains_key(k);
                assert(entries(*node).remove(key@).dom().contains(k));
            },
            None => {
                assert(entries(*node).remove(key@).dom() =~= Set::<Seq<u8>>::empty());
            },
        }
    }
    r
}

// ---------------------------------------------------------------------------
// Prefix iteration
// ---------------------------------------------------------------------------

/// The entries of `m` whose key begins with `p`.
pub open spec fn matching<V>(m: Map<Seq<u8>, V>, p: Seq<u8>) -> Map<Seq<u8>, V> {
    Map::new(|k: Seq<u8>| m.contains_key(k) && codec::has_prefix(k, p), |k: Seq<u8>| m[k])
}

/// `items` lists `m`: every entry, once each.
pub open spec fn lists<V>(items: Seq<(Vec<u8>, V)>, m: Map<Seq<u8>, V>) -> bool {
    &&& forall|i: int|
        0 <= i < items.len() ==> m.contains_key((#[trigger] items[i]).0@) && m[items[i].0@]
            == items[i].1
    &&& forall|i: int, j: int|
        0 <= i < j < items.len() ==> (#[trigger] items[i]).0@ != (#[trigger] items[j]).0@
    &&& forall|k: Seq<u8>| #[trigger]
        m.contains_key(k) ==> exists|i: int| 0 <= i < items.len() && (#[trigger] items[i]).0@ == k
}

/// The keys of a listing are in lexicographic order.
pub open spec fn in_order<V>(items: Seq<(Vec<u8>, V)>) -> bool {
    forall|i: int, j: int|
        0 <= i < j < items.len() ==> codec::lex_less(
            (#[trigger] items[i]).0@,
            (#[trigger] items[j]).0@,
        )
}

/// Keys that part behind `base` are ordered by the byte that follows it, the end
/// of a key coming first.
proof fn lemma_parted_order(k1: Seq<u8>, k2: Seq<u8>, base: Seq<u8>)
    requires
        codec::has_prefix(k1, base),
        codec::has_prefix(k2, base),
        discriminant(k1, base.len() as int) < discriminant(k2, base.len() as int),
    ensures
        codec::lex_less(k1, k2),
{
    let n = base.len() as int;
    assert forall|j: int| 0 <= j < n implies k1[j] == k2[j] by {
        assert(k1.subrange(0, n)[j] == k2.subrange(0, n)[j]);
    }
    assert(codec::less_at(k1, k2, n));
}

proof fn lemma_key_len<V>(node: ArtNode<V>, k: Seq<u8>)
    requires
        entries(node).contains_key(k),
    ensures
        k.len() <= usize::MAX,
    decreases node,
{
    match node {
        ArtNode::Leaf(l) => {
            assert(l.key.len() == l.key@.len());
        },
        _ => {
            let b = choose|b: u8|
                (#[trigger] child(node, b)) is Some && entries(child(node, b)->0).contains_key(k);
            lemma_child_smaller(node, b);
            lemma_key_len(child(node, b)->0, k);
        },
    }
}

/// The bytes under which an inner node has children, ascending.
fn child_bytes<V>(node: &ArtNode<V>) -> (r: Vec<u8>)
    requires
        layout(*node),
    ensures
        forall|i: int, j: int| 0 <= i < j < r.len() ==> r@[i] < r@[j],
        forall|b: u8| #[trigger] r@.contains(b) <==> child(*node, b) is Some,
{
    match node {
        ArtNode::Node4(n) => {
            let r = copy_bytes(n.keys.as_slice());
            assert forall|b: u8| #[trigger] r@.contains(b) <==> child(*node, b) is Some by {
                lemma_sorted_child(n.keys@, n.children, b);
            }
            r
        },
        ArtNode::Node16(n) => {
            let r = copy_bytes(n.keys.as_slice());
            assert forall|b: u8| #[trigger] r@.contains(b) <==> child(*node, b) is Some by {
                lemma_sorted_child(n.keys@, n.children, b);
            }
            r
        },
        _ => {
            let mut r: Vec<u8> = Vec::new();
            let mut c: u16 = 0;
            while c < 256
                invariant
                    c <= 256,
                    layout(*node),
                    forall|i: int, j: int| 0 <= i < j < r.len() ==> r@[i] < r@[j],
                    forall|i: int| 0 <= i < r.len() ==> r@[i] < c,
                    forall|b: u8| b < c ==> (#[trigger] r@.contains(b) <==> child(*node, b) is Some),
                decreases 256 - c,
            {
                let b: u8 = c as u8;
                let ghost before = r@;
                if get_child(node, b).is_some() {
                    r.push(b);
                    assert(r@[before.len() as int] == b);
                }
                assert forall|d: u8| d < c + 1 implies (#[trigger] r@.contains(d) <==> child(
                    *node,
                    d,
                ) is Some) by {
                    if d < c {
                        assert(before.contains(d) <==> child(*node, d) is Some);
                        if before.contains(d) {
                            let i = before.index_of(d);
                            assert(r@[i] == d);
                        }
                    } else if child(*node, d) is Some {
                        assert(r@.contains(d));
                    }
                }
                c += 1;
            }
            r
        },
    }
}

/// Whether the keys below a node can begin with `search_prefix`, as far as the
/// node's own prefix tells. `depth` bytes have been consumed above the node.
pub fn node_prefix_compatible(node_prefix: &[u8], search_prefix: &[u8], depth: usize) -> (r: bool)
    ensures
        r == (forall|i: int|
            0 <= i < node_prefix@.len() && depth + i < search_prefix@.len() ==> node_prefix@[i]
                == search_prefix@[depth + i]),
{
    if depth >= search_prefix.len() {
        return true;
    }
    let mut i: usize = 0;
    while i < node_prefix.len() && i < search_prefix.len() - depth
        invariant
            depth < search_prefix.len(),
            i <= node_prefix.len(),
            i <= search_prefix.len() - depth,
            forall|j: int| 0 <= j < i ==> node_prefix@[j] == search_prefix@[depth + j],
        decreases node_prefix.len() - i,
    {
        if node_prefix[i] != search_prefix[depth + i] {
            return false;
        }
        i += 1;
    }
    true
}

fn collect_prefix<V: Copy>(
    node: &ArtNode<V>,
    prefix: &[u8],
    depth: usize,
    Ghost(path): Ghost<Seq<u8>>,
) -> (r: Vec<(Vec<u8>, V)>)
    requires
        *node is Leaf || (well_formed(*node, path) && path.len() == depth),
    ensures
        lists(r@, matching(entries(*node), prefix@)),
        in_order(r@),
    decreases *node,
{
    let mut out: Vec<(Vec<u8>, V)> = Vec::new();
    if let ArtNode::Leaf(l) = node {
        if starts_with(l.key.as_slice(), prefix) {
            out.push((copy_bytes(l.key.as_slice()), l.entry));
            assert(out@[0].0@ == l.key@);
        }
        return out;
    }
    let pfx = get_prefix(node);
    let ghost base = path + pfx@;
    let ghost want = matching(entries(*node), prefix@);
    if !node_prefix_compatible(pfx, prefix, depth) {
        proof {
            assert forall|k: Seq<u8>| !(#[trigger] want.contains_key(k)) by {
                if want.contains_key(k) {
                    lemma_descend(*node, path, k);
                    let i = choose|i: int|
                        0 <= i < pfx@.len() && depth + i < prefix@.len() && pfx@[i]
                            != prefix@[depth + i];
                    assert(k[depth + i] == k.subrange(0, base.len() as int)[depth + i]);
                    assert(k[depth + i] == k.subrange(0, prefix@.len() as int)[depth + i]);
                }
            }
        }
        return out;
    }
    let bytes = child_bytes(node);
    let mut i: usize = 0;
    while i < bytes.len()
        invariant
            i <= bytes.len(),
            !(*node is Leaf),
            well_formed(*node, path),
            path.len() == depth,
            pfx@ == node_prefix(*node),
            base == path + pfx@,
            want == matching(entries(*node), prefix@),
            forall|i: int, j: int| 0 <= i < j < bytes.len() ==> bytes@[i] < bytes@[j],
            forall|b: u8| #[trigger] bytes@.contains(b) <==> child(*node, b) is Some,
            forall|x: int|
                0 <= x < out.len() ==> want.contains_key((#[trigger] out@[x]).0@)
                    && want[out@[x].0@] == out@[x].1 && bytes@.subrange(0, i as int).contains(
                    discriminant(out@[x].0@, base.len() as int),
                ),
            forall|x: int, y: int|
                0 <= x < y < out.len() ==> (#[trigger] out@[x]).0@ != (#[trigger] out@[y]).0@,
            in_order(out@),
            forall|k: Seq<u8>| #[trigger]
                want.contains_key(k) && bytes@.subrange(0, i as int).contains(
                    discriminant(k, base.len() as int),
                ) ==> exists|x: int| 0 <= x < out.len() && (#[trigger] out@[x]).0@ == k,
        decreases bytes.len() - i,
    {
        let b: u8 = bytes[i];
        assert(bytes@.contains(b));
        let ghost low = child(*node, b)->0;
        let ghost before = out@;
        let ghost part = matching(entries(low), prefix@);
        let mut more: Vec<(Vec<u8>, V)> = match get_child(node, b) {
            Some(c) => {
                proof {
                    lemma_child_smaller(*node, b);
                    assert(child_fits(low, base, b));
                }
                if let ArtNode::Leaf(_) = &**c {
                    collect_prefix(&**c, prefix, depth, Ghost(path))
                } else {
                    proof {
                        lemma_nonempty(low, base.push(b));
                        let k = choose|k: Seq<u8>| #[trigger] entries(low).contains_key(k);
                        lemma_keys_below(low, base.push(b), k);
                        lemma_key_len(low, k);
                    }
                    collect_prefix(
                        &**c,
                        prefix,
                        depth + pfx.len() + 1,
                        Ghost(base.push(b)),
                    )
                }
            },
            None => Vec::new(),
        };
        let ghost added = more@;
        out.append(&mut more);
        proof {
            assert(lists(added, part));
            assert forall|k: Seq<u8>| #[trigger] part.contains_key(k) implies want.contains_key(k)
                && want[k] == part[k] && discriminant(k, base.len() as int) == b by {
                lemma_child_keys(low, base, b, k);
                lemma_descend(*node, path, k);
            }
            let seen = bytes@.subrange(0, i + 1);
            assert(seen[i as int] == b);
            assert forall|x: int| 0 <= x < out.len() implies want.contains_key(
                (#[trigger] out@[x]).0@,
            ) && want[out@[x].0@] == out@[x].1 && seen.contains(
                discriminant(out@[x].0@, base.len() as int),
            ) by {
                if x < before.len() {
                    assert(out@[x] == before[x]);
                    let d = discriminant(before[x].0@, base.len() as int);
                    let y = bytes@.subrange(0, i as int).index_of(d);
                    assert(seen[y] == d);
                } else {
                    assert(out@[x] == added[x - before.len()]);
                    assert(part.contains_key(added[x - before.len()].0@));
                }
            }
            assert forall|x: int, y: int| 0 <= x < y < out.len() implies codec::lex_less(
                (#[trigger] out@[x]).0@,
                (#[trigger] out@[y]).0@,
            ) by {
                if x < before.len() {
                    assert(out@[x] == before[x]);
                    if y < before.len() {
                        assert(out@[y] == before[y]);
                    } else {
                        assert(out@[y] == added[y - before.len()]);
                        assert(part.contains_key(added[y - before.len()].0@));
                        let d = discriminant(before[x].0@, base.len() as int);
                        let z = bytes@.subrange(0, i as int).index_of(d);
                        assert(bytes@[z] == d && bytes@[z] < bytes@[i as int]);
                        lemma_descend(*node, path, out@[x].0@);
                        lemma_descend(*node, path, out@[y].0@);
                        lemma_parted_order(out@[x].0@, out@[y].0@, base);
                    }
                } else {
                    assert(out@[x] == added[x - before.len()]);
                    assert(out@[y] == added[y - before.len()]);
                }
            }
            assert forall|x: int, y: int| 0 <= x < y < out.len() implies (#[trigger] out@[x]).0@
                != (#[trigger] out@[y]).0@ by {
                codec::lex_less_strict(out@[x].0@, out@[y].0@);
            }
            assert forall|k: Seq<u8>| #[trigger]
                want.contains_key(k) && seen.contains(
                    discriminant(k, base.len() as int),
                ) implies exists|x: int| 0 <= x < out.len() && (#[trigger] out@[x]).0@ == k by {
                let d = discriminant(k, base.len() as int);
                let z = seen.index_of(d);
                if z < i {
                    assert(bytes@.subrange(0, i as int)[z] == d);
                    let x = choose|x: int| 0 <= x < before.len() && (#[trigger] before[x]).0@ == k;
                    assert(out@[x] == before[x]);
                } else {
                    lemma_descend(*node, path, k);
                    assert(part.contains_key(k));
                    let x = choose|x: int| 0 <= x < added.len() && (#[trigger] added[x]).0@ == k;
                    assert(out@[before.len() + x] == added[x]);
                }
            }
        }
        i += 1;
    }
    proof {
        assert(bytes@.subrange(0, i as int) =~= bytes@);
        assert forall|k: Seq<u8>| #[trigger] want.contains_key(k) implies exists|x: int|
            0 <= x < out.len() && (#[trigger] out@[x]).0@ == k by {
            lemma_descend(*node, path, k);
            assert(bytes@.contains(discriminant(k, base.len() as int)));
        }
    }
    out
}

/// Every key that begins with `prefix`, with its entry, in lexicographic order.
/// `depth` bytes have been consumed above the node.
pub fn art_prefix_iter<V: Copy>(node: &ArtNode<V>, prefix: &[u8], depth: usize) -> (r: Vec<
    (Vec<u8>, V),
>)
    requires
        exists|path: Seq<u8>| path.len() == depth && #[trigger] well_formed(*node, path),
    ensures
        lists(r@, matching(entries(*node), prefix@)),
        in_order(r@),
{
    let ghost path = choose|path: Seq<u8>|
        path.len() == depth && #[trigger] well_formed(*node, path);
    collect_prefix(node, prefix, depth, Ghost(path))
}

} // verus!
