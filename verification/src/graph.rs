//! Parsing of git commits, tags and trees, and reachability over them.

use std::collections::VecDeque;
use vstd::prelude::*;
use crate::codec;
use crate::codec::{bytes_equal, starts_with};
use crate::disk;
use crate::disk::DiskObjectStore;
use crate::git_pack_file;
use crate::hexcode;
use crate::idset::IdSet;
use crate::keytable::KeyTable;
use crate::types::{LedgeError, ObjectId};

verus! {

/// A git object name: the SHA-1 of the object.
pub type Sha1 = [u8; 20];

/// ASCII white space: tab, line feed, form feed, carriage return and space.
pub open spec fn is_space(c: u8) -> bool {
    c == 9 || c == 10 || c == 12 || c == 13 || c == 32
}

/// `s` without the white space at both ends.
pub open spec fn trimmed(s: Seq<u8>) -> Seq<u8>
    decreases s.len(),
{
    if s.len() == 0 {
        s
    } else if is_space(s[0]) {
        trimmed(s.subrange(1, s.len() as int))
    } else if is_space(s.last()) {
        trimmed(s.drop_last())
    } else {
        s
    }
}

/// The object name that a header value spells: forty hexadecimal digits, white
/// space around them aside.
pub open spec fn sha1_value(value: Seq<u8>) -> Option<Seq<u8>> {
    if trimmed(value).len() == 40 {
        hexcode::decoded(trimmed(value))
    } else {
        None
    }
}

/// Where the first line of `s` ends: at its first line feed, or at its end.
pub open spec fn line_end(s: Seq<u8>) -> int
    decreases s.len(),
{
    if s.len() == 0 || s[0] == 10 {
        0
    } else {
        1 + line_end(s.subrange(1, s.len() as int))
    }
}

pub proof fn lemma_line_end(s: Seq<u8>)
    ensures
        0 <= line_end(s) <= s.len(),
        forall|i: int| 0 <= i < line_end(s) ==> s[i] != 10,
        line_end(s) < s.len() ==> s[line_end(s)] == 10,
    decreases s.len(),
{
    if s.len() != 0 && s[0] != 10 {
        let t = s.subrange(1, s.len() as int);
        lemma_line_end(t);
        assert forall|i: int| 0 <= i < line_end(s) implies s[i] != 10 by {
            if i > 0 {
                assert(s[i] == t[i - 1]);
            }
        }
    }
}

/// What follows the first line of `s`.
pub open spec fn after_line(s: Seq<u8>) -> Seq<u8> {
    if line_end(s) < s.len() {
        s.subrange(line_end(s) + 1, s.len() as int)
    } else {
        Seq::empty()
    }
}

/// The header lines of a commit or tag: those before the first empty line.
pub open spec fn header_lines(content: Seq<u8>) -> Seq<Seq<u8>>
    decreases content.len(),
{
    if line_end(content) <= 0 || line_end(content) > content.len() {
        Seq::empty()
    } else {
        seq![content.subrange(0, line_end(content))] + header_lines(after_line(content))
    }
}

/// The value of the first header line that begins with `key`.
pub open spec fn first_value(lines: Seq<Seq<u8>>, key: Seq<u8>) -> Option<Seq<u8>>
    decreases lines.len(),
{
    if lines.len() == 0 {
        None
    } else if codec::has_prefix(lines[0], key) {
        Some(lines[0].subrange(key.len() as int, lines[0].len() as int))
    } else {
        first_value(lines.subrange(1, lines.len() as int), key)
    }
}

/// The object names in all header lines that begin with `key`, in order.
pub open spec fn all_sha1_values(lines: Seq<Seq<u8>>, key: Seq<u8>) -> Seq<Seq<u8>>
    decreases lines.len(),
{
    if lines.len() == 0 {
        Seq::empty()
    } else {
        let rest = all_sha1_values(lines.subrange(1, lines.len() as int), key);
        if codec::has_prefix(lines[0], key) {
            match sha1_value(lines[0].subrange(key.len() as int, lines[0].len() as int)) {
                Some(v) => seq![v] + rest,
                None => rest,
            }
        } else {
            rest
        }
    }
}

/// `"tree "`.
pub open spec fn tree_key() -> Seq<u8> {
    seq![116u8, 114, 101, 101, 32]
}

/// `"parent "`.
pub open spec fn parent_key() -> Seq<u8> {
    seq![112u8, 97, 114, 101, 110, 116, 32]
}

/// `"object "`.
pub open spec fn object_key() -> Seq<u8> {
    seq![111u8, 98, 106, 101, 99, 116, 32]
}

/// The tree that a commit names.
pub open spec fn commit_tree(content: Seq<u8>) -> Option<Seq<u8>> {
    match first_value(header_lines(content), tree_key()) {
        Some(v) => sha1_value(v),
        None => None,
    }
}

/// The parents that a commit names.
pub open spec fn commit_parents(content: Seq<u8>) -> Seq<Seq<u8>> {
    all_sha1_values(header_lines(content), parent_key())
}

/// The object that a tag names.
pub open spec fn tag_object(content: Seq<u8>) -> Option<Seq<u8>> {
    match first_value(header_lines(content), object_key()) {
        Some(v) => sha1_value(v),
        None => None,
    }
}

/// The bytes of each of some object names.
pub open spec fn names_view(v: Seq<Sha1>) -> Seq<Seq<u8>> {
    Seq::new(v.len(), |i: int| v[i]@)
}

/// A copy of the twenty bytes at `pos`.
pub(crate) fn sha1_at(s: &[u8], pos: usize) -> (r: Sha1)
    requires
        pos + 20 <= s.len(),
    ensures
        r@ == s@.subrange(pos as int, pos + 20),
{
    let mut r: [u8; 20] = [0u8; 20];
    let mut i: usize = 0;
    while i < 20
        invariant
            i <= 20,
            pos + 20 <= s.len(),
            forall|j: int| 0 <= j < i ==> r@[j] == s@[pos + j],
        decreases 20 - i,
    {
        r[i] = s[pos + i];
        i += 1;
    }
    assert(r@ =~= s@.subrange(pos as int, pos + 20));
    r
}

fn space(c: u8) -> (r: bool)
    ensures
        r == is_space(c),
{
    c == 9 || c == 10 || c == 12 || c == 13 || c == 32
}

/// The object name that a header value spells.
fn parse_hex_sha1_bytes(value: &[u8]) -> (r: Option<Sha1>)
    ensures
        match r {
            Some(v) => sha1_value(value@) == Some(v@),
            None => sha1_value(value@) is None,
        },
{
    let mut from: usize = 0;
    let mut to: usize = value.len();
    assert(value@.subrange(0, to as int) =~= value@);
    while from < to && space(value[from])
        invariant
            from <= to == value.len(),
            trimmed(value@.subrange(from as int, to as int)) == trimmed(value@),
        decreases to - from,
    {
        let ghost s = value@.subrange(from as int, to as int);
        assert(s.subrange(1, s.len() as int) =~= value@.subrange(from + 1, to as int));
        from += 1;
    }
    while from < to && space(value[to - 1])
        invariant
            from <= to <= value.len(),
            from < to ==> !is_space(value@[from as int]),
            trimmed(value@.subrange(from as int, to as int)) == trimmed(value@),
        decreases to - from,
    {
        let ghost s = value@.subrange(from as int, to as int);
        assert(s.drop_last() =~= value@.subrange(from as int, to - 1));
        to -= 1;
    }
    let t = vstd::slice::slice_subrange(value, from, to);
    assert(trimmed(t@) == t@);
    if t.len() != 40 {
        return None;
    }
    match hexcode::decode(t) {
        None => None,
        Some(bytes) => {
            let r = sha1_at(bytes.as_slice(), 0);
            assert(r@ =~= bytes@);
            Some(r)
        },
    }
}

/// Decodes forty hexadecimal digits into an object name.
pub fn parse_hex_sha1(hex_str: &str) -> (r: Option<Sha1>)
    ensures
        match r {
            Some(v) => vstd::utf8::encode_utf8(hex_str@).len() == 40 && hexcode::decoded(
                vstd::utf8::encode_utf8(hex_str@),
            ) == Some(v@),
            None => vstd::utf8::encode_utf8(hex_str@).len() != 40 || hexcode::decoded(
                vstd::utf8::encode_utf8(hex_str@),
            ) is None,
        },
{
    let s = hex_str.as_bytes();
    if s.len() != 40 {
        return None;
    }
    match hexcode::decode(s) {
        None => None,
        Some(bytes) => {
            let r = sha1_at(bytes.as_slice(), 0);
            assert(r@ =~= bytes@);
            Some(r)
        },
    }
}

/// The end of the line that begins at `pos`.
fn find_line_end(content: &[u8], pos: usize) -> (r: usize)
    requires
        pos <= content.len(),
    ensures
        pos <= r <= content.len(),
        r - pos == line_end(content@.subrange(pos as int, content@.len() as int)),
{
    let ghost s = content@.subrange(pos as int, content@.len() as int);
    let mut i: usize = pos;
    while i < content.len() && content[i] != 10
        invariant
            pos <= i <= content.len(),
            s == content@.subrange(pos as int, content@.len() as int),
            forall|j: int| pos <= j < i ==> content@[j] != 10,
        decreases content.len() - i,
    {
        i += 1;
    }
    proof {
        lemma_line_end(s);
        let e = line_end(s);
        if e < i - pos {
            assert(s[e] == content@[pos + e]);
        }
        if e > i - pos {
            assert(s[i - pos] == content@[i as int]);
        }
    }
    i
}

/// The value of the first header line that begins with `key`, read as an object
/// name.
fn first_header_sha1(content: &[u8], key: &[u8]) -> (r: Option<Sha1>)
    ensures
        ({
            let want = match first_value(header_lines(content@), key@) {
                Some(v) => sha1_value(v),
                None => None,
            };
            match r {
                Some(v) => want == Some(v@),
                None => want is None,
            }
        }),
{
    let mut pos: usize = 0;
    assert(content@.subrange(0, content@.len() as int) =~= content@);
    while pos < content.len()
        invariant
            pos <= content.len(),
            first_value(
                header_lines(content@.subrange(pos as int, content@.len() as int)),
                key@,
            ) == first_value(header_lines(content@), key@),
        decreases content.len() - pos,
    {
        let ghost s = content@.subrange(pos as int, content@.len() as int);
        let end: usize = find_line_end(content, pos);
        proof {
            lemma_line_end(s);
        }
        if end == pos {
            return None;
        }
        let line = vstd::slice::slice_subrange(content, pos, end);
        proof {
            assert(line@ =~= s.subrange(0, line_end(s)));
            let lines = header_lines(s);
            assert(lines[0] == line@);
            assert(lines.subrange(1, lines.len() as int) =~= header_lines(after_line(s)));
        }
        if starts_with(line, key) {
            return parse_hex_sha1_bytes(
                vstd::slice::slice_subrange(line, key.len(), line.len()),
            );
        }
        if end >= content.len() {
            assert(first_value(header_lines(after_line(s)), key@) is None);
            return None;
        }
        assert(after_line(s) =~= content@.subrange(end + 1, content@.len() as int));
        pos = end + 1;
    }
    None
}

/// The tree that a commit names in its header.
pub fn commit_tree_sha1(content: &[u8]) -> (r: Option<Sha1>)
    ensures
        match r {
            Some(v) => commit_tree(content@) == Some(v@),
            None => commit_tree(content@) is None,
        },
{
    let key: [u8; 5] = [116, 114, 101, 101, 32];
    assert(key@ =~= tree_key());
    first_header_sha1(content, key.as_slice())
}

/// The object that an annotated tag names in its header.
pub fn tag_object_sha1(content: &[u8]) -> (r: Option<Sha1>)
    ensures
        match r {
            Some(v) => tag_object(content@) == Some(v@),
            None => tag_object(content@) is None,
        },
{
    let key: [u8; 7] = [111, 98, 106, 101, 99, 116, 32];
    assert(key@ =~= object_key());
    first_header_sha1(content, key.as_slice())
}

/// The parents that a commit names in its header, in order.
pub fn commit_parent_sha1s(content: &[u8]) -> (r: Vec<Sha1>)
    ensures
        names_view(r@) == commit_parents(content@),
        r@.len() == commit_parents(content@).len(),
        forall|i: int| 0 <= i < r@.len() ==> (#[trigger] r@[i])@ == commit_parents(content@)[i],
{
    let key: [u8; 7] = [112, 97, 114, 101, 110, 116, 32];
    assert(key@ =~= parent_key());
    let mut parents: Vec<Sha1> = Vec::new();
    let mut pos: usize = 0;
    assert(content@.subrange(0, content@.len() as int) =~= content@);
    assert(names_view(parents@) + commit_parents(content@) =~= commit_parents(content@));
    while pos < content.len()
        invariant
            pos <= content.len(),
            key@ == parent_key(),
            names_view(parents@) + commit_parents(
                content@.subrange(pos as int, content@.len() as int),
            ) == commit_parents(content@),
        decreases content.len() - pos,
    {
        let ghost s = content@.subrange(pos as int, content@.len() as int);
        let ghost before = parents@;
        let end: usize = find_line_end(content, pos);
        proof {
            lemma_line_end(s);
        }
        if end == pos {
            assert(commit_parents(s) =~= Seq::<Seq<u8>>::empty());
            assert(names_view(parents@) =~= commit_parents(content@));
            return parents;
        }
        let line = vstd::slice::slice_subrange(content, pos, end);
        proof {
            assert(line@ =~= s.subrange(0, line_end(s)));
            let lines = header_lines(s);
            assert(lines[0] == line@);
            assert(lines.subrange(1, lines.len() as int) =~= header_lines(after_line(s)));
        }
        if starts_with(line, key.as_slice()) {
            if let Some(sha1) = parse_hex_sha1_bytes(
                vstd::slice::slice_subrange(line, key.len(), line.len()),
            ) {
                parents.push(sha1);
                assert(names_view(parents@) =~= names_view(before) + seq![sha1@]);
            }
        }
        assert(names_view(parents@) + commit_parents(after_line(s)) =~= names_view(before)
            + commit_parents(s));
        if end >= content.len() {
            assert(commit_parents(after_line(s)) =~= Seq::<Seq<u8>>::empty());
            assert(names_view(parents@) =~= commit_parents(content@));
            return parents;
        }
        assert(after_line(s) =~= content@.subrange(end + 1, content@.len() as int));
        pos = end + 1;
    }
    assert(commit_parents(content@.subrange(pos as int, content@.len() as int)) =~= Seq::<
        Seq<u8>,
    >::empty());
    assert(names_view(parents@) =~= commit_parents(content@));
    parents
}

// ---------------------------------------------------------------------------
// Trees
// ---------------------------------------------------------------------------

/// One entry of a tree: its header `<mode> SP <name>` and the object name.
pub struct TreeItem {
    pub header: Seq<u8>,
    pub sha1: Seq<u8>,
}

/// Where the first byte `c` of `s` stands; the length where there is none.
pub open spec fn find(s: Seq<u8>, c: u8) -> int
    decreases s.len(),
{
    if s.len() == 0 || s[0] == c {
        0
    } else {
        1 + find(s.subrange(1, s.len() as int), c)
    }
}

pub proof fn lemma_find(s: Seq<u8>, c: u8)
    ensures
        0 <= find(s, c) <= s.len(),
        forall|i: int| 0 <= i < find(s, c) ==> s[i] != c,
        find(s, c) < s.len() ==> s[find(s, c)] == c,
    decreases s.len(),
{
    if s.len() != 0 && s[0] != c {
        let t = s.subrange(1, s.len() as int);
        lemma_find(t, c);
        assert forall|i: int| 0 <= i < find(s, c) implies s[i] != c by {
            if i > 0 {
                assert(s[i] == t[i - 1]);
            }
        }
    }
}

/// The entries of a tree, `<mode> SP <name> NUL <20 bytes>` each; one that is
/// cut short ends the list.
pub open spec fn tree_items(content: Seq<u8>) -> Seq<TreeItem>
    decreases content.len(),
{
    let nul = find(content, 0);
    if nul < 0 || nul + 21 > content.len() {
        Seq::empty()
    } else {
        seq![
            TreeItem {
                header: content.subrange(0, nul),
                sha1: content.subrange(nul + 1, nul + 21),
            },
        ] + tree_items(content.subrange(nul + 21, content.len() as int))
    }
}

/// The mode of an entry: its header up to the first space.
pub open spec fn item_mode(item: TreeItem) -> Seq<u8> {
    item.header.subrange(0, find(item.header, 32))
}

/// The name of an entry: its header behind the first space, all of it where
/// there is none.
pub open spec fn item_name(item: TreeItem) -> Seq<u8> {
    if find(item.header, 32) < item.header.len() {
        item.header.subrange(find(item.header, 32) + 1, item.header.len() as int)
    } else {
        item.header
    }
}

/// `"160000"`, the mode of a submodule.
pub open spec fn gitlink_mode() -> Seq<u8> {
    seq![49u8, 54, 48, 48, 48, 48]
}

/// The object names of the entries.
pub open spec fn item_sha1s(items: Seq<TreeItem>) -> Seq<Seq<u8>> {
    Seq::new(items.len(), |i: int| items[i].sha1)
}

/// The object names of the entries that are no submodules, in order.
pub open spec fn in_repo_sha1s(items: Seq<TreeItem>) -> Seq<Seq<u8>>
    decreases items.len(),
{
    if items.len() == 0 {
        Seq::empty()
    } else {
        let rest = in_repo_sha1s(items.subrange(1, items.len() as int));
        if item_mode(items[0]) == gitlink_mode() {
            rest
        } else {
            seq![items[0].sha1] + rest
        }
    }
}

fn find_byte(s: &[u8], c: u8) -> (r: usize)
    ensures
        r == find(s@, c),
        r <= s@.len(),
{
    let mut i: usize = 0;
    while i < s.len() && s[i] != c
        invariant
            i <= s.len(),
            forall|j: int| 0 <= j < i ==> s@[j] != c,
        decreases s.len() - i,
    {
        i += 1;
    }
    proof {
        lemma_find(s@, c);
        let e = find(s@, c);
        if e < i {
            assert(s@[e] == c);
        }
    }
    i
}

/// The length of the first entry's header in `rest`, where the entry is whole.
fn next_item(rest: &[u8]) -> (r: Option<usize>)
    ensures
        match r {
            Some(nul) => nul + 21 <= rest@.len() && nul == find(rest@, 0),
            None => tree_items(rest@) == Seq::<TreeItem>::empty(),
        },
{
    let nul: usize = find_byte(rest, 0);
    if nul >= rest.len() || rest.len() - nul < 21 {
        None
    } else {
        Some(nul)
    }
}

/// The object names in a tree, in order.
pub fn tree_child_sha1s(content: &[u8]) -> (r: Vec<Sha1>)
    ensures
        names_view(r@) == item_sha1s(tree_items(content@)),
        r@.len() == item_sha1s(tree_items(content@)).len(),
        forall|i: int| 0 <= i < r@.len() ==> (#[trigger] r@[i])@ == item_sha1s(tree_items(content@))[i],
{
    let mut children: Vec<Sha1> = Vec::new();
    let mut pos: usize = 0;
    assert(content@.subrange(0, content@.len() as int) =~= content@);
    assert(names_view(children@) + item_sha1s(tree_items(content@)) =~= item_sha1s(
        tree_items(content@),
    ));
    while pos < content.len()
        invariant
            pos <= content.len(),
            names_view(children@) + item_sha1s(
                tree_items(content@.subrange(pos as int, content@.len() as int)),
            ) == item_sha1s(tree_items(content@)),
        decreases content.len() - pos,
    {
        let rest = vstd::slice::slice_subrange(content, pos, content.len());
        let ghost before = children@;
        match next_item(rest) {
            None => {
                assert(names_view(children@) =~= item_sha1s(tree_items(content@)));
                return children;
            },
            Some(nul) => {
                let sha1 = sha1_at(rest, nul + 1);
                children.push(sha1);
                pos = pos + nul + 21;
                proof {
                    assert(names_view(children@) =~= names_view(before) + seq![sha1@]);
                    assert(rest@.subrange(nul + 21, rest@.len() as int) =~= content@.subrange(
                        pos as int,
                        content@.len() as int,
                    ));
                    let tail = tree_items(content@.subrange(pos as int, content@.len() as int));
                    assert(item_sha1s(tree_items(rest@)) =~= seq![sha1@] + item_sha1s(tail));
                    assert(names_view(children@) + item_sha1s(tail) =~= names_view(before)
                        + item_sha1s(tree_items(rest@)));
                }
            },
        }
    }
    assert(names_view(children@) =~= item_sha1s(tree_items(content@)));
    children
}

/// The object names in a tree that must be in this repository, in order: all
/// but those of submodules.
pub fn tree_child_sha1s_in_repo(content: &[u8]) -> (r: Vec<Sha1>)
    ensures
        names_view(r@) == in_repo_sha1s(tree_items(content@)),
        r@.len() == in_repo_sha1s(tree_items(content@)).len(),
        forall|i: int| 0 <= i < r@.len() ==> (#[trigger] r@[i])@ == in_repo_sha1s(tree_items(content@))[i],
{
    let gitlink: [u8; 6] = [49, 54, 48, 48, 48, 48];
    assert(gitlink@ =~= gitlink_mode());
    let mut children: Vec<Sha1> = Vec::new();
    let mut pos: usize = 0;
    assert(content@.subrange(0, content@.len() as int) =~= content@);
    assert(names_view(children@) + in_repo_sha1s(tree_items(content@)) =~= in_repo_sha1s(
        tree_items(content@),
    ));
    while pos < content.len()
        invariant
            pos <= content.len(),
            gitlink@ == gitlink_mode(),
            names_view(children@) + in_repo_sha1s(
                tree_items(content@.subrange(pos as int, content@.len() as int)),
            ) == in_repo_sha1s(tree_items(content@)),
        decreases content.len() - pos,
    {
        let rest = vstd::slice::slice_subrange(content, pos, content.len());
        let ghost before = children@;
        match next_item(rest) {
            None => {
                assert(names_view(children@) =~= in_repo_sha1s(tree_items(content@)));
                return children;
            },
            Some(nul) => {
                let header = vstd::slice::slice_subrange(rest, 0, nul);
                let sp: usize = find_byte(header, 32);
                let mode = vstd::slice::slice_subrange(header, 0, sp);
                let sha1 = sha1_at(rest, nul + 1);
                let kept: bool = !bytes_equal(mode, gitlink.as_slice());
                if kept {
                    children.push(sha1);
                    assert(names_view(children@) =~= names_view(before) + seq![sha1@]);
                }
                pos = pos + nul + 21;
                proof {
                    assert(rest@.subrange(nul + 21, rest@.len() as int) =~= content@.subrange(
                        pos as int,
                        content@.len() as int,
                    ));
                    let items = tree_items(rest@);
                    let tail = tree_items(content@.subrange(pos as int, content@.len() as int));
                    assert(items[0].header == header@ && items[0].sha1 == sha1@);
                    assert(items.subrange(1, items.len() as int) =~= tail);
                    assert(names_view(children@) + in_repo_sha1s(tail) =~= names_view(before)
                        + in_repo_sha1s(items));
                }
            },
        }
    }
    assert(names_view(children@) =~= in_repo_sha1s(tree_items(content@)));
    children
}

/// The names and object names of the entries of a tree, in order.
pub fn tree_entries(content: &[u8]) -> (r: Vec<(Vec<u8>, Sha1)>)
    ensures
        r@.len() == tree_items(content@).len(),
        forall|i: int|
            0 <= i < r@.len() ==> (#[trigger] r@[i]).0@ == item_name(tree_items(content@)[i])
                && r@[i].1@ == tree_items(content@)[i].sha1,
{
    let mut out: Vec<(Vec<u8>, Sha1)> = Vec::new();
    let mut pos: usize = 0;
    let ghost all = tree_items(content@);
    assert(content@.subrange(0, content@.len() as int) =~= content@);
    assert(all.subrange(0, all.len() as int) =~= all);
    while pos < content.len()
        invariant
            pos <= content.len(),
            all == tree_items(content@),
            out@.len() <= all.len(),
            all.subrange(out@.len() as int, all.len() as int) == tree_items(
                content@.subrange(pos as int, content@.len() as int),
            ),
            forall|i: int|
                0 <= i < out@.len() ==> (#[trigger] out@[i]).0@ == item_name(all[i]) && out@[i].1@
                    == all[i].sha1,
        decreases content.len() - pos,
    {
        let rest = vstd::slice::slice_subrange(content, pos, content.len());
        match next_item(rest) {
            None => {
                return out;
            },
            Some(nul) => {
                let header = vstd::slice::slice_subrange(rest, 0, nul);
                let sp: usize = find_byte(header, 32);
                let name = if sp < header.len() {
                    codec::copy_range(header, sp + 1, header.len())
                } else {
                    codec::copy_bytes(header)
                };
                let sha1 = sha1_at(rest, nul + 1);
                let ghost n = out@.len();
                proof {
                    let items = tree_items(rest@);
                    assert(items.len() >= 1);
                    assert(items[0].header == header@ && items[0].sha1 == sha1@);
                    assert(items == all.subrange(n as int, all.len() as int));
                    assert(n < all.len());
                    assert(all[n as int] == all.subrange(n as int, all.len() as int)[0]);
                }
                out.push((name, sha1));
                pos = pos + nul + 21;
                proof {
                    let items = tree_items(rest@);
                    assert(rest@.subrange(nul + 21, rest@.len() as int) =~= content@.subrange(
                        pos as int,
                        content@.len() as int,
                    ));
                    let tail = tree_items(content@.subrange(pos as int, content@.len() as int));
                    assert(items.subrange(1, items.len() as int) =~= tail);
                    assert(all.subrange(n as int + 1, all.len() as int) =~= items.subrange(
                        1,
                        items.len() as int,
                    ));
                }
            },
        }
    }
    assert(tree_items(content@.subrange(pos as int, content@.len() as int)) =~= Seq::<
        TreeItem,
    >::empty());
    out
}

// ---------------------------------------------------------------------------
// Reachability
// ---------------------------------------------------------------------------

/// The names that an object refers to: a commit to its tree and its parents, a tree
/// to its entries, an annotated tag to the tagged object, a blob to nothing.
pub open spec fn children(git_type: u8, content: Seq<u8>) -> Seq<Seq<u8>> {
    if git_type == 1 {
        match commit_tree(content) {
            Some(tree) => seq![tree] + commit_parents(content),
            None => commit_parents(content),
        }
    } else if git_type == 2 {
        item_sha1s(tree_items(content))
    } else if git_type == 4 {
        match tag_object(content) {
            Some(object) => seq![object],
            None => Seq::empty(),
        }
    } else {
        Seq::empty()
    }
}

/// The names that an object refers to.
pub fn child_sha1s(git_type: u8, content: &[u8]) -> (r: Vec<Sha1>)
    ensures
        names_view(r@) == children(git_type, content@),
        r@.len() == children(git_type, content@).len(),
        forall|i: int| 0 <= i < r@.len() ==> (#[trigger] r@[i])@ == children(git_type, content@)[i],
{
    if git_type == 1 {
        let mut names: Vec<Sha1> = Vec::new();
        if let Some(tree) = commit_tree_sha1(content) {
            names.push(tree);
        }
        let ghost head = names_view(names@);
        let parents = commit_parent_sha1s(content);
        let mut i: usize = 0;
        assert(names_view(parents@).subrange(0, 0) =~= Seq::<Seq<u8>>::empty());
        assert(names_view(names@) =~= head + names_view(parents@).subrange(0, 0));
        while i < parents.len()
            invariant
                i <= parents.len(),
                names_view(names@) == head + names_view(parents@).subrange(0, i as int),
            decreases parents.len() - i,
        {
            let ghost before = names@;
            names.push(parents[i]);
            proof {
                assert(names_view(names@) =~= names_view(before).push(parents@[i as int]@));
                assert(names_view(names@) =~= head + names_view(parents@).subrange(0, i + 1));
            }
            i += 1;
        }
        assert(names_view(parents@).subrange(0, i as int) =~= names_view(parents@));
        assert(names_view(names@) =~= children(git_type, content@));
        names
    } else if git_type == 2 {
        tree_child_sha1s(content)
    } else {
        let mut names: Vec<Sha1> = Vec::new();
        if git_type == 4 {
            if let Some(object) = tag_object_sha1(content) {
                names.push(object);
            }
        }
        assert(names_view(names@) =~= children(git_type, content@));
        names
    }
}

/// One of the names leads to `id`.
pub open spec fn resolves(
    index: Map<Seq<u8>, ObjectId>,
    names: Seq<Seq<u8>>,
    id: Seq<u8>,
) -> bool {
    exists|i: int|
        0 <= i < names.len() && index.contains_key(#[trigger] names[i])
            && index[names[i]].bytes@ == id
}

/// The object `from` can be read and refers to `to`.
pub open spec fn refers_to(
    s: disk::StoreView,
    index: Map<Seq<u8>, ObjectId>,
    from: Seq<u8>,
    to: Seq<u8>,
) -> bool {
    match (disk::content_of(s, from), disk::type_of(s, from)) {
        (Ok(content), Ok(git_type)) => resolves(index, children(git_type, content), to),
        _ => false,
    }
}

/// `id` is a root, or is reached from one in at most `n` steps.
pub open spec fn reached_in(
    s: disk::StoreView,
    index: Map<Seq<u8>, ObjectId>,
    roots: Set<Seq<u8>>,
    id: Seq<u8>,
    n: nat,
) -> bool
    decreases n,
{
    roots.contains(id) || (n > 0 && exists|from: Seq<u8>|
        reached_in(s, index, roots, from, (n - 1) as nat) && #[trigger] refers_to(
            s,
            index,
            from,
            id,
        ))
}

/// `id` is reached from the roots.
pub open spec fn reachable(
    s: disk::StoreView,
    index: Map<Seq<u8>, ObjectId>,
    roots: Set<Seq<u8>>,
    id: Seq<u8>,
) -> bool {
    exists|n: nat| #[trigger] reached_in(s, index, roots, id, n)
}

/// The addresses of some objects.
pub open spec fn id_set(v: Seq<ObjectId>) -> Set<Seq<u8>> {
    Set::new(|k: Seq<u8>| git_pack_file::has_id(v, k))
}

/// The objects that the names lead to, in order, without those seen before.
pub open spec fn fresh(
    index: Map<Seq<u8>, ObjectId>,
    names: Seq<Seq<u8>>,
    seen: Set<Seq<u8>>,
) -> Seq<ObjectId>
    decreases names.len(),
{
    if names.len() == 0 {
        Seq::empty()
    } else {
        let front = fresh(index, names.drop_last(), seen);
        if index.contains_key(names.last()) && !seen.contains(index[names.last()].bytes@) {
            front.push(index[names.last()])
        } else {
            front
        }
    }
}

proof fn lemma_fresh(index: Map<Seq<u8>, ObjectId>, names: Seq<Seq<u8>>, seen: Set<Seq<u8>>)
    ensures
        forall|i: int|
            0 <= i < fresh(index, names, seen).len() ==> resolves(
                index,
                names,
                (#[trigger] fresh(index, names, seen)[i]).bytes@,
            ),
        forall|id: Seq<u8>| #[trigger]
            resolves(index, names, id) ==> seen.contains(id) || git_pack_file::has_id(
                fresh(index, names, seen),
                id,
            ),
    decreases names.len(),
{
    let f = fresh(index, names, seen);
    if names.len() > 0 {
        let short = names.drop_last();
        let front = fresh(index, short, seen);
        lemma_fresh(index, short, seen);
        assert forall|i: int| 0 <= i < f.len() implies resolves(
            index,
            names,
            (#[trigger] f[i]).bytes@,
        ) by {
            if i < front.len() {
                assert(f[i] == front[i]);
                let j = choose|j: int|
                    0 <= j < short.len() && index.contains_key(#[trigger] short[j])
                        && index[short[j]].bytes@ == front[i].bytes@;
                assert(names[j] == short[j]);
            } else {
                assert(names[names.len() - 1] == names.last());
            }
        }
        assert forall|id: Seq<u8>| #[trigger] resolves(index, names, id) implies seen.contains(id)
            || git_pack_file::has_id(f, id) by {
            let j = choose|j: int|
                0 <= j < names.len() && index.contains_key(#[trigger] names[j])
                    && index[names[j]].bytes@ == id;
            if j < short.len() {
                assert(short[j] == names[j]);
                assert(resolves(index, short, id));
                if !seen.contains(id) {
                    let x = choose|x: int|
                        0 <= x < front.len() && (#[trigger] front[x]).bytes@ == id;
                    assert(f[x].bytes@ == id);
                }
            } else if !seen.contains(id) {
                assert(f[f.len() - 1].bytes@ == id);
            }
        }
    }
}

/// A walk over the objects that some roots lead to. It hands out each object once;
/// what the object refers to is told to it in turn.
pub struct Walk {
    queue: VecDeque<ObjectId>,
    visited: IdSet,
}

impl Walk {
    /// The objects that were handed out.
    pub closed spec fn seen(&self) -> Set<Seq<u8>> {
        self.visited@
    }

    /// The objects that wait to be handed out, some of them perhaps seen before.
    pub closed spec fn pending(&self) -> Seq<ObjectId> {
        self.queue@
    }

    /// A walk from the given roots.
    pub fn new(roots: &Vec<ObjectId>) -> (r: Self)
        ensures
            r.seen() == Set::<Seq<u8>>::empty(),
            r.pending() == roots@,
    {
        let mut queue: VecDeque<ObjectId> = VecDeque::new();
        let mut i: usize = 0;
        while i < roots.len()
            invariant
                i <= roots.len(),
                queue@ == roots@.subrange(0, i as int),
            decreases roots.len() - i,
        {
            queue.push_back(roots[i]);
            assert(queue@ =~= roots@.subrange(0, i + 1));
            i += 1;
        }
        assert(queue@ =~= roots@);
        Walk { queue, visited: IdSet::new() }
    }

    /// The next object that was not handed out yet.
    pub fn next(&mut self) -> (r: Option<ObjectId>)
        ensures
            match r {
                Some(id) => {
                    &&& !old(self).seen().contains(id.bytes@)
                    &&& final(self).seen() == old(self).seen().insert(id.bytes@)
                    &&& exists|k: int|
                        0 <= k < old(self).pending().len() && #[trigger] old(self).pending()[k]
                            == id && final(self).pending() == old(self).pending().subrange(
                            k + 1,
                            old(self).pending().len() as int,
                        ) && forall|j: int|
                            0 <= j < k ==> old(self).seen().contains(
                                (#[trigger] old(self).pending()[j]).bytes@,
                            )
                },
                None => {
                    &&& final(self).seen() == old(self).seen()
                    &&& final(self).pending() == Seq::<ObjectId>::empty()
                    &&& forall|j: int|
                        0 <= j < old(self).pending().len() ==> old(self).seen().contains(
                            (#[trigger] old(self).pending()[j]).bytes@,
                        )
                },
            },
    {
        let ghost q0 = self.queue@;
        let ghost v0 = self.visited@;
        let ghost mut k: int = 0;
        assert(q0.subrange(0, q0.len() as int) =~= q0);
        while self.queue.len() > 0
            invariant
                0 <= k <= q0.len(),
                self.queue@ == q0.subrange(k, q0.len() as int),
                self.visited@ == v0,
                forall|j: int| 0 <= j < k ==> v0.contains((#[trigger] q0[j]).bytes@),
                q0 == old(self).pending(),
                v0 == old(self).seen(),
            decreases self.queue@.len(),
        {
            let ghost before = self.queue@;
            if let Some(id) = self.queue.pop_front() {
                proof {
                    assert(before[0] == q0[k]);
                    assert(self.queue@ =~= q0.subrange(k + 1, q0.len() as int));
                }
                if self.visited.insert(id) {
                    assert(old(self).pending()[k] == id);
                    return Some(id);
                }
                proof {
                    assert(v0.insert(id.bytes@) =~= v0);
                    k = k + 1;
                }
            }
        }
        assert(self.queue@ =~= Seq::<ObjectId>::empty());
        None
    }

    /// Tells the walk what the object that was handed out last refers to. A name
    /// that leads nowhere is passed over.
    pub fn expand(&mut self, names: &Vec<Sha1>, index: &KeyTable<20, ObjectId>)
        ensures
            final(self).seen() == old(self).seen(),
            final(self).pending() == old(self).pending() + fresh(
                index@,
                names_view(names@),
                old(self).seen(),
            ),
    {
        let ghost q0 = self.queue@;
        let ghost all = names_view(names@);
        let mut i: usize = 0;
        assert(all.subrange(0, 0) =~= Seq::<Seq<u8>>::empty());
        assert(q0 + fresh(index@, all.subrange(0, 0), self.visited@) =~= q0);
        while i < names.len()
            invariant
                i <= names.len(),
                all == names_view(names@),
                self.visited@ == old(self).seen(),
                self.queue@ == q0 + fresh(index@, all.subrange(0, i as int), self.visited@),
            decreases names.len() - i,
        {
            let ghost now = all.subrange(0, i + 1);
            let ghost front = fresh(index@, all.subrange(0, i as int), self.visited@);
            proof {
                assert(now.drop_last() =~= all.subrange(0, i as int));
                assert(now.last() == names@[i as int]@);
            }
            if let Some(id) = index.get(&names[i]) {
                if !self.visited.contains(id) {
                    self.queue.push_back(*id);
                    assert((q0 + front).push(*id) =~= q0 + front.push(*id));
                }
            }
            i += 1;
        }
        assert(all.subrange(0, i as int) =~= all);
    }

    /// Ends the walk and gives what was handed out.
    pub fn into_seen(self) -> (r: IdSet)
        ensures
            r@ == self.seen(),
    {
        self.visited
    }
}

/// What the roots and an index can lead to.
spec fn universe(roots: Seq<ObjectId>, index: Map<Seq<u8>, ObjectId>) -> Set<Seq<u8>> {
    roots.map_values(|id: ObjectId| id.bytes@).to_set().union(
        index.dom().map(|k: Seq<u8>| index[k].bytes@),
    )
}

/// What a reached object refers to is reached.
pub proof fn reachable_is_closed(
    s: disk::StoreView,
    index: Map<Seq<u8>, ObjectId>,
    roots: Set<Seq<u8>>,
    from: Seq<u8>,
    to: Seq<u8>,
)
    requires
        reachable(s, index, roots, from),
        refers_to(s, index, from, to),
    ensures
        reachable(s, index, roots, to),
{
    let n = choose|n: nat| #[trigger] reached_in(s, index, roots, from, n);
    assert(reached_in(s, index, roots, from, ((n + 1) - 1) as nat));
    assert(reached_in(s, index, roots, to, n + 1));
}

proof fn lemma_closed(
    s: disk::StoreView,
    index: Map<Seq<u8>, ObjectId>,
    roots: Set<Seq<u8>>,
    seen: Set<Seq<u8>>,
    id: Seq<u8>,
    n: nat,
)
    requires
        forall|k: Seq<u8>| #[trigger] roots.contains(k) ==> seen.contains(k),
        forall|from: Seq<u8>, to: Seq<u8>|
            seen.contains(from) && #[trigger] refers_to(s, index, from, to) ==> seen.contains(to),
        reached_in(s, index, roots, id, n),
    ensures
        seen.contains(id),
    decreases n,
{
    if !roots.contains(id) {
        let from = choose|from: Seq<u8>|
            reached_in(s, index, roots, from, (n - 1) as nat) && #[trigger] refers_to(
                s,
                index,
                from,
                id,
            );
        lemma_closed(s, index, roots, seen, from, (n - 1) as nat);
    }
}

/// Nothing is reached but what has to be: a set with the roots in it that holds
/// whatever its objects refer to holds everything that is reached.
pub proof fn reachable_is_least(
    s: disk::StoreView,
    index: Map<Seq<u8>, ObjectId>,
    roots: Set<Seq<u8>>,
    set: Set<Seq<u8>>,
    id: Seq<u8>,
)
    requires
        roots.subset_of(set),
        forall|from: Seq<u8>, to: Seq<u8>|
            set.contains(from) && #[trigger] refers_to(s, index, from, to) ==> set.contains(to),
        reachable(s, index, roots, id),
    ensures
        set.contains(id),
{
    let n = choose|n: nat| #[trigger] reached_in(s, index, roots, id, n);
    lemma_closed(s, index, roots, set, id, n);
}

/// The objects that the roots lead to, the roots among them. `index` gives the
/// address for each name. An object that cannot be read leads nowhere.
#[verifier::rlimit(40)]
pub fn reachable_with(
    store: &DiskObjectStore,
    index: &KeyTable<20, ObjectId>,
    roots: &Vec<ObjectId>,
) -> (r: IdSet)
    ensures
        forall|id: Seq<u8>| #[trigger]
            r@.contains(id) <==> reachable(store@, index@, id_set(roots@), id),
        forall|i: int| 0 <= i < roots@.len() ==> r@.contains((#[trigger] roots@[i]).bytes@),
        forall|from: Seq<u8>, name: Seq<u8>|
            r@.contains(from) && disk::content_of(store@, from) is Ok && disk::type_of(
                store@,
                from,
            ) is Ok && #[trigger] children(
                disk::type_of(store@, from)->Ok_0,
                disk::content_of(store@, from)->Ok_0,
            ).contains(name) && index@.contains_key(name) ==> r@.contains(index@[name].bytes@),
{
    let mut walk = Walk::new(roots);
    let ghost s = store@;
    let ghost ix = index@;
    let ghost rs = id_set(roots@);
    let ghost u = universe(roots@, ix);
    proof {
        index.lemma_finite();
        vstd::seq_lib::seq_to_set_is_finite(roots@.map_values(|id: ObjectId| id.bytes@));
        ix.dom().lemma_map_finite(|k: Seq<u8>| ix[k].bytes@);
        assert forall|i: int| 0 <= i < roots.len() implies #[trigger] u.contains(
            walk.pending()[i].bytes@,
        ) && reachable(s, ix, rs, walk.pending()[i].bytes@) by {
            let m = roots@.map_values(|id: ObjectId| id.bytes@);
            assert(m[i] == roots@[i].bytes@);
            assert(git_pack_file::has_id(roots@, roots@[i].bytes@));
            assert(reached_in(s, ix, rs, roots@[i].bytes@, 0));
        }
        assert(u.difference(walk.seen()) =~= u);
    }
    let mut done: bool = false;
    while !done
        invariant
            s == store@,
            ix == index@,
            rs == id_set(roots@),
            u == universe(roots@, ix),
            u.finite(),
            walk.seen().subset_of(u),
            forall|k: Seq<u8>| #[trigger] walk.seen().contains(k) ==> reachable(s, ix, rs, k),
            forall|i: int|
                0 <= i < walk.pending().len() ==> u.contains((#[trigger] walk.pending()[i]).bytes@)
                    && reachable(s, ix, rs, walk.pending()[i].bytes@),
            forall|k: Seq<u8>| #[trigger]
                rs.contains(k) ==> walk.seen().contains(k) || git_pack_file::has_id(
                    walk.pending(),
                    k,
                ),
            forall|from: Seq<u8>, to: Seq<u8>|
                walk.seen().contains(from) && #[trigger] refers_to(s, ix, from, to)
                    ==> walk.seen().contains(to) || git_pack_file::has_id(walk.pending(), to),
            done ==> walk.pending() == Seq::<ObjectId>::empty(),
        decreases u.difference(walk.seen()).len(), if done {
            0int
        } else {
            1int
        },
    {
        let ghost seen0 = walk.seen();
        let ghost pend0 = walk.pending();
        match walk.next() {
            None => {
                proof {
                    assert forall|k: Seq<u8>| git_pack_file::has_id(
                        pend0,
                        k,
                    ) implies seen0.contains(k) by {
                        let j = choose|j: int|
                            0 <= j < pend0.len() && (#[trigger] pend0[j]).bytes@ == k;
                        assert(seen0.contains(pend0[j].bytes@));
                    }
                }
                done = true;
            },
            Some(id) => {
                let ghost pend1 = walk.pending();
                let ghost seen1 = walk.seen();
                proof {
                    let k = choose|k: int|
                        0 <= k < pend0.len() && #[trigger] pend0[k] == id && pend1
                            == pend0.subrange(k + 1, pend0.len() as int) && forall|j: int|
                            0 <= j < k ==> seen0.contains((#[trigger] pend0[j]).bytes@);
                    assert forall|x: Seq<u8>| git_pack_file::has_id(
                        pend0,
                        x,
                    ) implies seen1.contains(x) || #[trigger] git_pack_file::has_id(pend1, x) by {
                        let j = choose|j: int|
                            0 <= j < pend0.len() && (#[trigger] pend0[j]).bytes@ == x;
                        if j > k {
                            assert(pend1[j - k - 1].bytes@ == x);
                        }
                    }
                    assert forall|i: int| 0 <= i < pend1.len() implies u.contains(
                        (#[trigger] pend1[i]).bytes@,
                    ) && reachable(s, ix, rs, pend1[i].bytes@) by {
                        assert(pend1[i] == pend0[k + 1 + i]);
                    }
                    assert(u.contains(pend0[k].bytes@));
                    assert(u.difference(seen1) =~= u.difference(seen0).remove(id.bytes@));
                }
                let ghost mut names: Seq<Seq<u8>> = Seq::empty();
                if let Ok(content) = store.read(id) {
                    if let Ok(git_type) = store.git_type_of(id) {
                        let found = child_sha1s(git_type, content.as_slice());
                        walk.expand(&found, index);
                        proof {
                            names = names_view(found@);
                            lemma_fresh(ix, names, seen1);
                        }
                    }
                }
                proof {
                    let pend2 = walk.pending();
                    let add = fresh(ix, names, seen1);
                    assert(pend2 =~= pend1 + add);
                    assert forall|to: Seq<u8>| #[trigger] refers_to(
                        s,
                        ix,
                        id.bytes@,
                        to,
                    ) <==> resolves(ix, names, to) by {}
                    assert forall|x: Seq<u8>|
                        git_pack_file::has_id(pend1, x) || git_pack_file::has_id(
                            add,
                            x,
                        ) implies #[trigger] git_pack_file::has_id(pend2, x) by {
                        if git_pack_file::has_id(pend1, x) {
                            let j = choose|j: int|
                                0 <= j < pend1.len() && (#[trigger] pend1[j]).bytes@ == x;
                            assert(pend2[j].bytes@ == x);
                        } else {
                            let j = choose|j: int|
                                0 <= j < add.len() && (#[trigger] add[j]).bytes@ == x;
                            assert(pend2[pend1.len() + j].bytes@ == x);
                        }
                    }
                    assert forall|i: int| 0 <= i < pend2.len() implies u.contains(
                        (#[trigger] pend2[i]).bytes@,
                    ) && reachable(s, ix, rs, pend2[i].bytes@) by {
                        if i < pend1.len() {
                            assert(pend2[i] == pend1[i]);
                        } else {
                            let e = add[i - pend1.len()];
                            assert(resolves(ix, names, e.bytes@));
                            let j = choose|j: int|
                                0 <= j < names.len() && ix.contains_key(#[trigger] names[j])
                                    && ix[names[j]].bytes@ == e.bytes@;
                            assert(ix.dom().map(|k: Seq<u8>| ix[k].bytes@).contains(
                                ix[names[j]].bytes@,
                            ));
                            assert(refers_to(s, ix, id.bytes@, e.bytes@));
                            reachable_is_closed(s, ix, rs, id.bytes@, e.bytes@);
                        }
                    }
                }
            },
        }
    }
    proof {
        let seen = walk.seen();
        let none = Seq::<ObjectId>::empty();
        assert forall|k: Seq<u8>| !git_pack_file::has_id(none, k) by {}
        assert forall|id: Seq<u8>| #[trigger] seen.contains(id) <==> reachable(s, ix, rs, id) by {
            if reachable(s, ix, rs, id) {
                let n = choose|n: nat| #[trigger] reached_in(s, ix, rs, id, n);
                lemma_closed(s, ix, rs, seen, id, n);
            }
        }
        assert forall|i: int| 0 <= i < roots@.len() implies seen.contains(
            (#[trigger] roots@[i]).bytes@,
        ) by {
            crate::graph_laws::ids_are_listed(roots@, i, roots@[i].bytes@);
            crate::graph_laws::roots_are_reached(s, ix, rs, roots@[i].bytes@);
        }
        assert forall|from: Seq<u8>, name: Seq<u8>|
            seen.contains(from) && disk::content_of(s, from) is Ok && disk::type_of(s, from) is Ok
                && #[trigger] children(
                disk::type_of(s, from)->Ok_0,
                disk::content_of(s, from)->Ok_0,
            ).contains(name) && ix.contains_key(name) implies seen.contains(ix[name].bytes@) by {
            crate::graph_laws::references_are_reached(
                s,
                ix,
                rs,
                from,
                disk::type_of(s, from)->Ok_0,
                disk::content_of(s, from)->Ok_0,
                name,
            );
        }
    }
    walk.into_seen()
}

/// The objects that the roots lead to, the roots among them, by the index of names
/// that the store keeps or builds.
pub fn reachable_from(store: &mut DiskObjectStore, roots: &Vec<ObjectId>) -> (r: IdSet)
    ensures
        final(store)@ == old(store)@,
        roots.len() == 0 ==> *final(store) == *old(store) && r@ == Set::<Seq<u8>>::empty(),
        roots.len() > 0 ==> (final(store).kept_names() matches Some(index) && {
            &&& old(store).kept_names() matches Some(kept) ==> index == kept
            &&& old(store).names_fresh() ==> disk::indexes_names(index, old(store)@)
            &&& disk::covers_names(index, old(store)@)
            &&& forall|id: Seq<u8>|
                r@.contains(id) <==> #[trigger] reachable(old(store)@, index, id_set(roots@), id)
        }),
{
    if roots.len() == 0 {
        return IdSet::new();
    }
    let index = store.sha1_index();
    reachable_with(store, &index, roots)
}

// ---------------------------------------------------------------------------
// Bases of deltas
// ---------------------------------------------------------------------------

/// `id` is in the set, or is a base at most `n` deltas away from something in it.
pub open spec fn base_within(s: disk::StoreView, set: Set<Seq<u8>>, id: Seq<u8>, n: nat) -> bool
    decreases n,
{
    set.contains(id) || (n > 0 && exists|d: Seq<u8>|
        base_within(s, set, d, (n - 1) as nat) && #[trigger] is_base(s, d, id))
}

/// `base` is the base of `id`.
pub open spec fn is_base(s: disk::StoreView, id: Seq<u8>, base: Seq<u8>) -> bool {
    disk::base_in(s, id) == Ok::<Option<Seq<u8>>, disk::ReadFail>(Some(base))
}

/// `id` has to be kept so that everything in the set can be read.
pub open spec fn needed(s: disk::StoreView, set: Set<Seq<u8>>, id: Seq<u8>) -> bool {
    exists|n: nat| #[trigger] base_within(s, set, id, n)
}

proof fn lemma_needed_step(s: disk::StoreView, set: Set<Seq<u8>>, id: Seq<u8>, base: Seq<u8>)
    requires
        needed(s, set, id),
        is_base(s, id, base),
    ensures
        needed(s, set, base),
{
    let n = choose|n: nat| #[trigger] base_within(s, set, id, n);
    assert(base_within(s, set, id, ((n + 1) - 1) as nat));
    assert(base_within(s, set, base, n + 1));
}

proof fn lemma_bases_closed(
    s: disk::StoreView,
    set: Set<Seq<u8>>,
    keep: Set<Seq<u8>>,
    id: Seq<u8>,
    n: nat,
)
    requires
        set.subset_of(keep),
        forall|d: Seq<u8>, b: Seq<u8>|
            keep.contains(d) && #[trigger] is_base(s, d, b) ==> keep.contains(b),
        base_within(s, set, id, n),
    ensures
        keep.contains(id),
    decreases n,
{
    if !set.contains(id) {
        let d = choose|d: Seq<u8>|
            base_within(s, set, d, (n - 1) as nat) && #[trigger] is_base(s, d, id);
        lemma_bases_closed(s, set, keep, d, (n - 1) as nat);
    }
}

/// A set that grows by the bases of the deltas in it. It hands out each object once;
/// the base of the object is told to it in turn.
pub struct BaseWalk {
    keep: IdSet,
    frontier: Vec<ObjectId>,
}

impl BaseWalk {
    /// The set as it has grown so far.
    pub closed spec fn kept(&self) -> Set<Seq<u8>> {
        self.keep@
    }

    /// The objects whose bases are still to be asked for.
    pub closed spec fn frontier(&self) -> Seq<ObjectId> {
        self.frontier@
    }

    /// Begins with the given set.
    pub fn new(set: IdSet) -> (r: Self)
        ensures
            r.kept() == set@,
            git_pack_file::lists_ids(r.frontier(), set@),
    {
        let frontier = set.to_vec();
        BaseWalk { keep: set, frontier }
    }

    /// An object whose base was not asked for yet.
    pub fn next(&mut self) -> (r: Option<ObjectId>)
        ensures
            final(self).kept() == old(self).kept(),
            match r {
                Some(id) => old(self).frontier() == final(self).frontier().push(id),
                None => old(self).frontier().len() == 0 && final(self).frontier().len() == 0,
            },
    {
        let ghost before = self.frontier@;
        let r = self.frontier.pop();
        proof {
            if let Some(id) = r {
                assert(before =~= self.frontier@.push(id));
            }
        }
        r
    }

    /// Takes a base in.
    pub fn found(&mut self, base: ObjectId)
        ensures
            final(self).kept() == old(self).kept().insert(base.bytes@),
            final(self).frontier() == if old(self).kept().contains(base.bytes@) {
                old(self).frontier()
            } else {
                old(self).frontier().push(base)
            },
    {
        if self.keep.insert(base) {
            self.frontier.push(base);
        }
    }

    /// Ends the walk and gives the set.
    pub fn into_kept(self) -> (r: IdSet)
        ensures
            r@ == self.kept(),
    {
        self.keep
    }
}

/// Adds to a set, for everything in it that is stored as a delta, the base, and so
/// on. Without the base the delta could not be read.
pub fn close_under_delta_bases(store: &DiskObjectStore, set: IdSet) -> (r: Result<
    IdSet,
    LedgeError,
>)
    ensures
        match r {
            Ok(keep) => {
                &&& forall|id: Seq<u8>| #[trigger]
                    keep@.contains(id) <==> needed(store@, set@, id)
                &&& forall|id: Seq<u8>| #[trigger]
                    keep@.contains(id) ==> disk::base_in(store@, id) is Ok
            },
            Err(e) => exists|id: Seq<u8>|
                #[trigger] needed(store@, set@, id) && disk::base_in(store@, id) is Err
                    && disk::reports(e, disk::base_in(store@, id)->Err_0),
        },
{
    let ghost s = store@;
    let ghost given = set@;
    let ghost base_fn = |k: Seq<u8>|
        match disk::base_in(s, k) {
            Ok(Some(b)) => b,
            _ => k,
        };
    let ghost u = given.union(disk::all_ids(s).map(base_fn));
    proof {
        set.lemma_finite();
        store.lemma_finite();
        disk::all_ids(s).lemma_map_finite(base_fn);
        assert forall|k: Seq<u8>| given.contains(k) implies #[trigger] needed(s, given, k) by {
            assert(base_within(s, given, k, 0));
        }
    }
    let mut walk = BaseWalk::new(set);
    let mut done: bool = false;
    proof {
        assert forall|i: int| 0 <= i < walk.frontier().len() implies walk.kept().contains(
            (#[trigger] walk.frontier()[i]).bytes@,
        ) by {}
    }
    while !done
        invariant
            s == store@,
            given == set@,
            base_fn == |k: Seq<u8>|
                match disk::base_in(s, k) {
                    Ok(Some(b)) => b,
                    _ => k,
                },
            u == given.union(disk::all_ids(s).map(base_fn)),
            u.finite(),
            given.subset_of(walk.kept()),
            walk.kept().subset_of(u),
            forall|k: Seq<u8>| #[trigger] walk.kept().contains(k) ==> needed(s, given, k),
            forall|i: int|
                0 <= i < walk.frontier().len() ==> walk.kept().contains(
                    (#[trigger] walk.frontier()[i]).bytes@,
                ),
            forall|k: Seq<u8>| #[trigger]
                walk.kept().contains(k) ==> git_pack_file::has_id(walk.frontier(), k)
                    || settled(s, walk.kept(), k),
            done ==> walk.frontier().len() == 0,
        decreases
            u.difference(walk.kept()).len(),
            walk.frontier().len(),
            if done {
                0int
            } else {
                1int
            },
    {
        let ghost keep0 = walk.kept();
        let ghost front0 = walk.frontier();
        match walk.next() {
            None => {
                done = true;
            },
            Some(id) => {
                let ghost front1 = walk.frontier();
                proof {
                    assert(front0[front0.len() - 1] == id);
                    assert forall|i: int| 0 <= i < front1.len() implies keep0.contains(
                        (#[trigger] front1[i]).bytes@,
                    ) by {
                        assert(front0[i] == front1[i]);
                    }
                    assert forall|k: Seq<u8>| git_pack_file::has_id(front0, k) && k
                        != id.bytes@ implies #[trigger] git_pack_file::has_id(front1, k) by {
                        let j = choose|j: int|
                            0 <= j < front0.len() && (#[trigger] front0[j]).bytes@ == k;
                        assert(front1[j].bytes@ == k);
                    }
                }
                match store.delta_base_of(id) {
                    Ok(Some(base)) => {
                        proof {
                            assert(is_base(s, id.bytes@, base.bytes@));
                            lemma_needed_step(s, given, id.bytes@, base.bytes@);
                            assert(disk::all_ids(s).contains(id.bytes@));
                            assert(base_fn(id.bytes@) == base.bytes@);
                            assert(u.contains(base.bytes@));
                        }
                        walk.found(base);
                        proof {
                            let keep1 = walk.kept();
                            let front2 = walk.frontier();
                            if keep0.contains(base.bytes@) {
                                assert(keep1 =~= keep0);
                            } else {
                                assert(u.difference(keep1) =~= u.difference(keep0).remove(
                                    base.bytes@,
                                ));
                            }
                            assert forall|k: Seq<u8>| git_pack_file::has_id(
                                front1,
                                k,
                            ) implies #[trigger] git_pack_file::has_id(front2, k) by {
                                let j = choose|j: int|
                                    0 <= j < front1.len() && (#[trigger] front1[j]).bytes@ == k;
                                assert(front2[j].bytes@ == k);
                            }
                            assert forall|k: Seq<u8>| #[trigger] keep1.contains(
                                k,
                            ) implies git_pack_file::has_id(front2, k) || settled(s, keep1, k) by {
                                if k == base.bytes@ && !keep0.contains(k) {
                                    assert(front2[front2.len() - 1].bytes@ == k);
                                } else if k == id.bytes@ {
                                    assert(settled(s, keep1, k));
                                } else if settled(s, keep0, k) {
                                    assert(settled(s, keep1, k));
                                } else {
                                    assert(git_pack_file::has_id(front0, k));
                                    assert(git_pack_file::has_id(front1, k));
                                }
                            }
                        }
                    },
                    Ok(None) => {
                        proof {
                            assert(settled(s, keep0, id.bytes@));
                            assert forall|k: Seq<u8>| #[trigger] keep0.contains(
                                k,
                            ) implies git_pack_file::has_id(front1, k) || settled(s, keep0, k) by {
                                if k != id.bytes@ && !settled(s, keep0, k) {
                                    assert(git_pack_file::has_id(front0, k));
                                }
                            }
                        }
                    },
                    Err(e) => {
                        assert(keep0.contains(id.bytes@));
                        assert(needed(s, given, id.bytes@));
                        return Err(e);
                    },
                }
            },
        }
    }
    proof {
        let keep = walk.kept();
        assert forall|k: Seq<u8>| !git_pack_file::has_id(walk.frontier(), k) by {}
        assert forall|d: Seq<u8>, b: Seq<u8>| keep.contains(d) && #[trigger] is_base(
            s,
            d,
            b,
        ) implies keep.contains(b) by {
            assert(settled(s, keep, d));
        }
        assert forall|id: Seq<u8>| #[trigger] keep.contains(id) <==> needed(s, given, id) by {
            if needed(s, given, id) {
                let n = choose|n: nat| #[trigger] base_within(s, given, id, n);
                lemma_bases_closed(s, given, keep, id, n);
            }
        }
        assert forall|id: Seq<u8>| #[trigger] keep.contains(id) implies disk::base_in(
            s,
            id,
        ) is Ok by {
            assert(settled(s, keep, id));
        }
    }
    Ok(walk.into_kept())
}

/// The base of `id`, if it has one, is in the set.
spec fn settled(s: disk::StoreView, keep: Set<Seq<u8>>, id: Seq<u8>) -> bool {
    match disk::base_in(s, id) {
        Ok(Some(b)) => keep.contains(b),
        Ok(None) => true,
        Err(_) => false,
    }
}

/// Collecting garbage loses nothing that is live: a store swept down to the live
/// objects and the bases that they need reads each live object as before.
pub proof fn collection_keeps_live(s: disk::StoreView, live: Set<Seq<u8>>, id: Seq<u8>)
    requires
        live.contains(id),
        disk::content_of(s, id) is Ok,
    ensures
        disk::content_of(disk::swept(s, Set::new(|k: Seq<u8>| needed(s, live, k))), id)
            == disk::content_of(s, id),
{
    let keep = Set::new(|k: Seq<u8>| needed(s, live, k));
    assert(base_within(s, live, id, 0));
    assert forall|k: Seq<u8>| #[trigger] keep.contains(k) implies (disk::base_in(s, k) matches Ok(
        Some(b),
    ) ==> keep.contains(b)) by {
        if let Ok(Some(b)) = disk::base_in(s, k) {
            lemma_needed_step(s, live, k, b);
        }
    }
    disk::sweep_keeps_readable(s, keep, id, 0);
}

} // verus!
