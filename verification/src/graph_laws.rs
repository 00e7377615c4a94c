//! What the walk over the objects of a repository reaches, and what has to be kept.

use vstd::prelude::*;
use crate::disk;
use crate::format_laws;
use crate::graph;
use crate::types::ObjectId;

verus! {

/// Every root is reached.
pub proof fn roots_are_reached(
    s: disk::StoreView,
    index: Map<Seq<u8>, ObjectId>,
    roots: Set<Seq<u8>>,
    id: Seq<u8>,
)
    requires
        roots.contains(id),
    ensures
        graph::reachable(s, index, roots, id),
{
    assert(graph::reached_in(s, index, roots, id, 0));
}

/// Whatever a reached object refers to is reached, where it has an address.
pub proof fn references_are_reached(
    s: disk::StoreView,
    index: Map<Seq<u8>, ObjectId>,
    roots: Set<Seq<u8>>,
    from: Seq<u8>,
    git_type: u8,
    content: Seq<u8>,
    name: Seq<u8>,
)
    requires
        graph::reachable(s, index, roots, from),
        disk::content_of(s, from) == Ok::<Seq<u8>, disk::ReadFail>(content),
        disk::type_of(s, from) == Ok::<u8, disk::ReadFail>(git_type),
        graph::children(git_type, content).contains(name),
        index.contains_key(name),
    ensures
        graph::reachable(s, index, roots, index[name].bytes@),
{
    let names = graph::children(git_type, content);
    let i = choose|i: int| 0 <= i < names.len() && names[i] == name;
    assert(index.contains_key(names[i]));
    assert(graph::resolves(index, names, index[name].bytes@));
    assert(graph::refers_to(s, index, from, index[name].bytes@));
    graph::reachable_is_closed(s, index, roots, from, index[name].bytes@);
}

/// What is reached and is no root is referred to by something that is reached and can
/// be read.
#[verifier::rlimit(30)]
pub proof fn reached_for_a_reason(
    s: disk::StoreView,
    index: Map<Seq<u8>, ObjectId>,
    roots: Set<Seq<u8>>,
    id: Seq<u8>,
) -> (why: (Seq<u8>, Seq<u8>))
    requires
        graph::reachable(s, index, roots, id),
        !roots.contains(id),
    ensures
        graph::reachable(s, index, roots, why.0),
        disk::content_of(s, why.0) is Ok,
        disk::type_of(s, why.0) is Ok,
        graph::children(
            disk::type_of(s, why.0)->Ok_0,
            disk::content_of(s, why.0)->Ok_0,
        ).contains(why.1),
        index.contains_key(why.1),
        index[why.1].bytes@ == id,
{
    let n = choose|n: nat| #[trigger] graph::reached_in(s, index, roots, id, n);
    let from = choose|from: Seq<u8>|
        graph::reached_in(s, index, roots, from, (n - 1) as nat) && #[trigger] graph::refers_to(
            s,
            index,
            from,
            id,
        );
    let names = graph::children(disk::type_of(s, from)->Ok_0, disk::content_of(s, from)->Ok_0);
    assert(graph::resolves(index, names, id));
    let i = choose|i: int|
        0 <= i < names.len() && index.contains_key(#[trigger] names[i]) && index[names[i]].bytes@
            == id;
    assert(names.contains(names[i]));
    (from, names[i])
}

/// The object of every entry of a reached tree is reached, whatever the mode of the
/// entry.
#[verifier::rlimit(30)]
pub proof fn tree_entries_are_reached(
    s: disk::StoreView,
    index: Map<Seq<u8>, ObjectId>,
    roots: Set<Seq<u8>>,
    tree: Seq<u8>,
    entries: Seq<(Seq<u8>, Seq<u8>, Seq<u8>)>,
    i: int,
)
    requires
        graph::reachable(s, index, roots, tree),
        disk::type_of(s, tree) == Ok::<u8, disk::ReadFail>(2),
        disk::content_of(s, tree) == Ok::<Seq<u8>, disk::ReadFail>(
            entries.map_values(
                |e: (Seq<u8>, Seq<u8>, Seq<u8>)| e.0 + seq![32u8] + e.1 + seq![0u8] + e.2,
            ).flatten(),
        ),
        forall|j: int, k: int|
            0 <= j < entries.len() && 0 <= k < (#[trigger] entries[j]).0.len()
                ==> #[trigger] entries[j].0[k] != 0 && entries[j].0[k] != 32,
        forall|j: int, k: int|
            0 <= j < entries.len() && 0 <= k < (#[trigger] entries[j]).1.len()
                ==> #[trigger] entries[j].1[k] != 0,
        forall|j: int| 0 <= j < entries.len() ==> (#[trigger] entries[j]).2.len() == 20,
        0 <= i < entries.len(),
        index.contains_key(entries[i].2),
    ensures
        graph::reachable(s, index, roots, index[entries[i].2].bytes@),
{
    format_laws::tree_names_all_entries(entries);
    let content = disk::content_of(s, tree)->Ok_0;
    assert(graph::children(2, content)[i] == entries[i].2);
    references_are_reached(s, index, roots, tree, 2, content, entries[i].2);
}

/// To read an object its base has to be kept, and the base of that, and so on; nothing
/// else has.
#[verifier::rlimit(30)]
pub proof fn bases_are_needed(s: disk::StoreView, set: Set<Seq<u8>>, id: Seq<u8>, base: Seq<u8>)
    ensures
        set.contains(id) ==> graph::needed(s, set, id),
        graph::needed(s, set, id) && disk::base_in(s, id) == Ok::<
            Option<Seq<u8>>,
            disk::ReadFail,
        >(Some(base)) ==> graph::needed(s, set, base),
        graph::needed(s, set, id) && !set.contains(id) ==> exists|d: Seq<u8>|
            graph::needed(s, set, d) && #[trigger] disk::base_in(s, d) == Ok::<
                Option<Seq<u8>>,
                disk::ReadFail,
            >(Some(id)),
{
    if set.contains(id) {
        assert(graph::base_within(s, set, id, 0));
    }
    if graph::needed(s, set, id) {
        let n = choose|n: nat| #[trigger] graph::base_within(s, set, id, n);
        if graph::is_base(s, id, base) {
            assert(graph::base_within(s, set, base, n + 1));
        }
        if !set.contains(id) {
            let d = choose|d: Seq<u8>|
                graph::base_within(s, set, d, (n - 1) as nat) && #[trigger] graph::is_base(
                    s,
                    d,
                    id,
                );
            assert(graph::needed(s, set, d));
            assert(disk::base_in(s, d) == Ok::<Option<Seq<u8>>, disk::ReadFail>(Some(id)));
        }
    }
}

/// Sets of addresses are what the lists hold.
pub proof fn ids_are_listed(v: Seq<ObjectId>, i: int, id: Seq<u8>)
    ensures
        0 <= i < v.len() ==> graph::id_set(v).contains(v[i].bytes@),
        graph::id_set(v).contains(id) ==> exists|j: int|
            0 <= j < v.len() && (#[trigger] v[j]).bytes@ == id,
{
}

/// White space around a header value does not matter: tab, line feed, form feed,
/// carriage return and space. What is left is a name where it is forty hexadecimal
/// digits.
pub proof fn header_values(s: Seq<u8>, c: u8)
    ensures
        c == 9 || c == 10 || c == 12 || c == 13 || c == 32 ==> graph::trimmed(seq![c] + s)
            == graph::trimmed(s),
        s.len() > 0 && !graph::is_space(s[0]) && (c == 9 || c == 10 || c == 12 || c == 13 || c
            == 32) ==> graph::trimmed(s.push(c)) == graph::trimmed(s),
        graph::is_space(c) <==> c == 9 || c == 10 || c == 12 || c == 13 || c == 32,
        s.len() > 0 && !graph::is_space(s[0]) && !graph::is_space(s.last()) ==> graph::trimmed(s)
            == s,
        graph::trimmed(s).len() == 40 ==> graph::sha1_value(s) == crate::hexcode::decoded(
            graph::trimmed(s),
        ),
        graph::trimmed(s).len() != 40 ==> graph::sha1_value(s) is None,
{
    let t = seq![c] + s;
    assert(t.subrange(1, t.len() as int) =~= s);
    let u = s.push(c);
    assert(u.drop_last() =~= s);
}

/// The walk goes on to each object that a name leads to, in order, unless it was seen.
pub proof fn walk_goes_on(
    index: Map<Seq<u8>, ObjectId>,
    names: Seq<Seq<u8>>,
    name: Seq<u8>,
    seen: Set<Seq<u8>>,
)
    ensures
        graph::fresh(index, Seq::empty(), seen).len() == 0,
        index.contains_key(name) && !seen.contains(index[name].bytes@) ==> graph::fresh(
            index,
            names.push(name),
            seen,
        ) == graph::fresh(index, names, seen).push(index[name]),
        !index.contains_key(name) || seen.contains(index[name].bytes@) ==> graph::fresh(
            index,
            names.push(name),
            seen,
        ) == graph::fresh(index, names, seen),
{
    assert(names.push(name).drop_last() =~= names);
}

} // verus!
