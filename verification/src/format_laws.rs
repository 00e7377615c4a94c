//! The byte formats in plain numbers: what stands where, spelled out.

use vstd::prelude::*;
use crate::codec;
use crate::decimal;
use crate::digest;
use crate::frame;
use crate::git_pack;
use crate::graph;
use crate::hexcode;
use crate::object_file;
use crate::varint;
use crate::zlib;

verus! {

// ---------------------------------------------------------------------------
// Numbers
// ---------------------------------------------------------------------------

/// Four little-endian bytes weigh 1, 256, 65536 and 16777216, four big-endian ones the
/// other way round.
pub proof fn bytes_weigh_number(x: u32)
    ensures
        codec::le32(x).len() == 4,
        codec::le32(x)[0] + 256 * codec::le32(x)[1] + 65536 * codec::le32(x)[2] + 16777216
            * codec::le32(x)[3] == x,
        codec::be32(x).len() == 4,
        codec::be32(x)[3] + 256 * codec::be32(x)[2] + 65536 * codec::be32(x)[1] + 16777216
            * codec::be32(x)[0] == x,
{
}

/// Eight little-endian bytes are those of the low and of the high half.
pub proof fn bytes_weigh_long_number(x: u64)
    ensures
        codec::le64(x).len() == 8,
        codec::le64(x)[0] + 256 * codec::le64(x)[1] + 65536 * codec::le64(x)[2] + 16777216
            * codec::le64(x)[3] + 4294967296 * (codec::le64(x)[4] + 256 * codec::le64(x)[5] + 65536
            * codec::le64(x)[6] + 16777216 * codec::le64(x)[7]) == x,
{
    bytes_weigh_number((x % 4294967296) as u32);
    bytes_weigh_number((x / 4294967296) as u32);
}

/// Bytes are ordered as words are: the empty word comes first, and otherwise the first
/// byte decides, or the rest where the first bytes agree.
#[verifier::spinoff_prover]
#[verifier::rlimit(30)]
pub proof fn words_are_ordered(x: u8, a: Seq<u8>, y: u8, b: Seq<u8>)
    ensures
        codec::lex_less(Seq::empty(), seq![y] + b),
        !codec::lex_less(a, Seq::empty()),
        codec::lex_less(seq![x] + a, seq![y] + b) <==> x < y || x == y && codec::lex_less(a, b),
{
    let none = Seq::<u8>::empty();
    let s = seq![x] + a;
    let t = seq![y] + b;
    assert(codec::less_at(none, t, 0));
    if x < y {
        assert(codec::less_at(s, t, 0));
    }
    if codec::lex_less(a, b) && x == y {
        let i = choose|i: int| codec::less_at(a, b, i);
        assert forall|j: int| 0 <= j < i + 1 implies s[j] == t[j] by {
            if j > 0 {
                assert(a[j - 1] == b[j - 1]);
            }
        }
        assert(codec::less_at(s, t, i + 1));
    }
    if codec::lex_less(s, t) {
        let i = choose|i: int| codec::less_at(s, t, i);
        if i > 0 {
            assert(s[0] == t[0]);
            assert forall|j: int| 0 <= j < i - 1 implies a[j] == b[j] by {
                assert(s[j + 1] == t[j + 1]);
            }
            assert(codec::less_at(a, b, i - 1));
        }
    }
}

/// What begins with `p` is `p` and something behind it, and likewise at the end.
pub proof fn ends_are_ends(s: Seq<u8>, p: Seq<u8>)
    ensures
        codec::has_prefix(p + s, p),
        codec::has_suffix(s + p, p),
        codec::has_prefix(s, p) ==> s == p + s.subrange(p.len() as int, s.len() as int),
        codec::has_suffix(s, p) ==> s == s.subrange(0, s.len() - p.len()) + p,
{
    assert((p + s).subrange(0, p.len() as int) =~= p);
    assert((s + p).subrange(s.len() as int, (s + p).len() as int) =~= p);
}

/// A number below ten is one digit; ten times a number and a digit is the number and
/// the digit.
pub proof fn decimal_shifts(n: nat, d: nat)
    requires
        d < 10,
    ensures
        decimal::digits(d) == seq![(48 + d) as u8],
        n > 0 ==> decimal::digits(10 * n + d) == decimal::digits(n).push((48 + d) as u8),
{
}

/// A byte is spelled by the digit of its high half and that of its low half: 0 to 9,
/// and a to f for 10 to 15.
#[verifier::spinoff_prover]
#[verifier::rlimit(30)]
pub proof fn hex_spells_halves(s: Seq<u8>, i: int)
    requires
        0 <= i < s.len(),
    ensures
        hexcode::encoded(s).len() == 2 * s.len(),
        ({
            let high = hexcode::encoded(s)[2 * i];
            let low = hexcode::encoded(s)[2 * i + 1];
            &&& 48 <= high <= 57 && s[i] as int / 16 == high - 48 || 97 <= high <= 102 && s[i] as int
                / 16 == high - 87
            &&& 48 <= low <= 57 && s[i] as int % 16 == low - 48 || 97 <= low <= 102 && s[i] as int
                % 16 == low - 87
        }),
{
    assert((2 * i) / 2 == i && (2 * i + 1) / 2 == i);
}

/// Only an even number of hexadecimal digits, in either case, spells bytes.
pub proof fn hex_takes_digits_only(s: Seq<u8>)
    ensures
        hexcode::decoded(s) is Some <==> s.len() % 2 == 0 && forall|i: int|
            0 <= i < s.len() ==> (48 <= #[trigger] s[i] <= 57 || 65 <= s[i] <= 70 || 97 <= s[i]
                <= 102),
        hexcode::decoded(s) is Some ==> hexcode::decoded(s)->0.len() == s.len() / 2,
{
    if s.len() % 2 == 0 && forall|i: int|
        0 <= i < s.len() ==> (48 <= #[trigger] s[i] <= 57 || 65 <= s[i] <= 70 || 97 <= s[i]
            <= 102) {
        assert forall|i: int| 0 <= i < s.len() implies #[trigger] hexcode::is_digit(s[i]) by {}
    }
    if hexcode::decoded(s) is Some {
        assert forall|i: int| 0 <= i < s.len() implies (48 <= #[trigger] s[i] <= 57 || 65 <= s[i]
            <= 70 || 97 <= s[i] <= 102) by {
            assert(hexcode::is_digit(s[i]));
        }
    }
}

/// Numbers of variable length: seven bits a byte, the lowest first, and the top bit
/// set on all bytes but the last.
pub proof fn varint_groups_of_seven(n: nat)
    ensures
        varint::varint(n).len() >= 1,
        varint::varint(n)[0] as int % 128 == n % 128,
        n < 128 ==> varint::varint(n).len() == 1 && varint::varint(n)[0] < 128,
        n >= 128 ==> varint::varint(n)[0] >= 128 && varint::varint(n).subrange(
            1,
            varint::varint(n).len() as int,
        ) == varint::varint(n / 128),
{
    if n >= 128 {
        assert(varint::varint(n).subrange(1, varint::varint(n).len() as int) =~= varint::varint(
            n / 128,
        ));
    }
}

// ---------------------------------------------------------------------------
// Objects
// ---------------------------------------------------------------------------

/// Git's name for an object is the SHA-1 of the word for its type, a space, the length
/// of the content in decimal, a zero byte and the content. The words are "commit",
/// "tree", "blob" and "tag".
pub proof fn names_are_gits(content: Seq<u8>)
    ensures
        ({
            let tail = seq![32u8] + decimal::digits(content.len()) + seq![0u8] + content;
            &&& object_file::git_name(1, content) == digest::sha1_sum(
                seq![99u8, 111, 109, 109, 105, 116] + tail,
            )
            &&& object_file::git_name(2, content) == digest::sha1_sum(
                seq![116u8, 114, 101, 101] + tail,
            )
            &&& object_file::git_name(3, content) == digest::sha1_sum(
                seq![98u8, 108, 111, 98] + tail,
            )
            &&& object_file::git_name(4, content) == digest::sha1_sum(
                seq![116u8, 97, 103] + tail,
            )
        }),
{
    let tail = seq![32u8] + decimal::digits(content.len()) + seq![0u8] + content;
    assert(object_file::git_image(1, content) =~= seq![99u8, 111, 109, 109, 105, 116] + tail);
    assert(object_file::git_image(2, content) =~= seq![116u8, 114, 101, 101] + tail);
    assert(object_file::git_image(3, content) =~= seq![98u8, 108, 111, 98] + tail);
    assert(object_file::git_image(4, content) =~= seq![116u8, 97, 103] + tail);
}

/// The file of an object: twenty bytes of name, the type, 0 or 1 for a raw or a
/// compressed body, two zero bytes, and the body. It is compressed exactly where that
/// makes it shorter.
pub proof fn object_file_layout(git_type: u8, content: Seq<u8>)
    requires
        object_file::git_name(git_type, content).len() == 20,
    ensures
        ({
            let raw = object_file::object_image(git_type, content);
            let shorter = zlib::deflated(content).len() < content.len();
            &&& raw.subrange(0, 20) == object_file::git_name(git_type, content)
            &&& raw[20] == git_type
            &&& raw[21] == if shorter {
                1u8
            } else {
                0u8
            }
            &&& raw[22] == 0 && raw[23] == 0
            &&& raw.subrange(24, raw.len() as int) == if shorter {
                zlib::deflated(content)
            } else {
                content
            }
        }),
{
    let body = if zlib::deflated(content).len() < content.len() {
        zlib::deflated(content)
    } else {
        content
    };
    object_file::header_reads_back(
        object_file::git_name(git_type, content),
        git_type,
        if zlib::deflated(content).len() < content.len() {
            1
        } else {
            0
        },
        body,
    );
}

/// The file of an object stored as a delta: the same header with 2 for the encoding,
/// the 32 bytes of the address of the base, and the compressed delta.
pub proof fn delta_file_layout(name: Seq<u8>, git_type: u8, base: Seq<u8>, d: Seq<u8>)
    requires
        name.len() == 20,
        base.len() == 32,
    ensures
        ({
            let raw = object_file::delta_image(name, git_type, base, d);
            &&& raw.subrange(0, 20) == name
            &&& raw[20] == git_type && raw[21] == 2 && raw[22] == 0 && raw[23] == 0
            &&& raw.subrange(24, 56) == base
            &&& raw.subrange(56, raw.len() as int) == zlib::deflated(d)
            &&& object_file::file_base(raw) == Some(base)
        }),
{
    let raw = object_file::delta_image(name, git_type, base, d);
    object_file::header_reads_back(name, git_type, 2, base + zlib::deflated(d));
    assert(raw.subrange(24, 56) =~= base);
    assert(raw.subrange(56, raw.len() as int) =~= zlib::deflated(d));
}

/// A file names a base exactly where it is at least 56 bytes long and byte 21 is 2.
pub proof fn only_deltas_have_bases(raw: Seq<u8>)
    ensures
        object_file::file_base(raw) is Some <==> raw.len() >= 56 && raw[21] == 2,
        object_file::file_base(raw) is Some ==> object_file::file_base(raw)->0 == raw.subrange(
            24,
            56,
        ),
{
}

/// A compressed body expands to at most 2 GiB.
pub proof fn expansion_is_bounded(stream: Seq<u8>)
    ensures
        object_file::expanded(stream) matches Ok(out) ==> out.len() <= 2147483648
            && zlib::inflated(stream, 2147483649) == Some(out),
        zlib::inflated(stream, 2147483649) matches Some(out) ==> (out.len() <= 2147483648
            <==> object_file::expanded(stream) is Ok),
        zlib::inflated(stream, 2147483649) is None ==> object_file::expanded(stream) is Err,
{
}

/// The header of a packed object: three bits of type and the low four bits of the
/// length in the first byte, whose top bit says whether more of the length follows.
pub proof fn packed_header_layout(git_type: u8, size: nat)
    requires
        git_type < 8,
    ensures
        ({
            let h = git_pack::obj_header(git_type, size);
            &&& h[0] as int % 16 == size % 16
            &&& h[0] as int / 16 % 8 == git_type
            &&& h[0] >= 128 <==> size >= 16
            &&& size < 16 ==> h.len() == 1
            &&& size >= 16 ==> h.subrange(1, h.len() as int) == varint::varint(size / 16)
        }),
{
    let h = git_pack::obj_header(git_type, size);
    if size >= 16 {
        assert(h.subrange(1, h.len() as int) =~= varint::varint(size / 16));
    }
}

// ---------------------------------------------------------------------------
// Log frames
// ---------------------------------------------------------------------------

/// A frame is four bytes of length, four bytes of checksum, both little-endian, and
/// the payload.
pub proof fn frame_layout(payload: Seq<u8>)
    requires
        payload.len() <= u32::MAX,
    ensures
        ({
            let f = frame::frame(payload);
            &&& f.len() == 8 + payload.len()
            &&& f[0] + 256 * f[1] + 65536 * f[2] + 16777216 * f[3] == payload.len()
            &&& f[4] + 256 * f[5] + 65536 * f[6] + 16777216 * f[7] == frame::crc32(payload)
            &&& f.subrange(8, f.len() as int) == payload
        }),
{
    let f = frame::frame(payload);
    bytes_weigh_number(payload.len() as u32);
    bytes_weigh_number(frame::crc32(payload));
    assert(f.subrange(8, f.len() as int) =~= payload);
}

// ---------------------------------------------------------------------------
// Trees
// ---------------------------------------------------------------------------

proof fn lemma_find_at(s: Seq<u8>, c: u8, n: int)
    requires
        0 <= n < s.len(),
        s[n] == c,
        forall|i: int| 0 <= i < n ==> s[i] != c,
    ensures
        graph::find(s, c) == n,
{
    graph::lemma_find(s, c);
    let e = graph::find(s, c);
    if e < n {
        assert(s[e] == c);
    }
    if e > n {
        assert(s[n] != c);
    }
}

#[verifier::spinoff_prover]
#[verifier::rlimit(30)]
proof fn lemma_first_item(mode: Seq<u8>, name: Seq<u8>, sha1: Seq<u8>, rest: Seq<u8>)
    requires
        forall|i: int| 0 <= i < mode.len() ==> mode[i] != 0 && mode[i] != 32,
        forall|i: int| 0 <= i < name.len() ==> name[i] != 0,
        sha1.len() == 20,
    ensures
        ({
            let items = graph::tree_items(mode + seq![32u8] + name + seq![0u8] + sha1 + rest);
            let more = graph::tree_items(rest);
            &&& items.len() == 1 + more.len()
            &&& items[0].sha1 == sha1
            &&& items.subrange(1, items.len() as int) == more
            &&& graph::item_mode(items[0]) == mode
            &&& graph::item_name(items[0]) == name
        }),
{
    let content = mode + seq![32u8] + name + seq![0u8] + sha1 + rest;
    let nul: int = mode.len() + 1 + name.len() as int;
    assert forall|i: int| 0 <= i < nul implies content[i] != 0 by {
        if i < mode.len() {
            assert(content[i] == mode[i]);
        } else if i > mode.len() {
            assert(content[i] == name[i - mode.len() - 1]);
        }
    }
    lemma_find_at(content, 0, nul);
    let header = content.subrange(0, nul);
    assert(header =~= mode + seq![32u8] + name);
    assert forall|i: int| 0 <= i < mode.len() implies header[i] != 32 by {
        assert(header[i] == mode[i]);
    }
    lemma_find_at(header, 32, mode.len() as int);
    assert(content.subrange(nul + 1, nul + 21) =~= sha1);
    assert(content.subrange(nul + 21, content.len() as int) =~= rest);
    let items = graph::tree_items(content);
    assert(items.subrange(1, items.len() as int) =~= graph::tree_items(rest));
    assert(header.subrange(0, mode.len() as int) =~= mode);
    assert(header.subrange(mode.len() as int + 1, header.len() as int) =~= name);
}

/// A tree refers to the object of every entry, whatever its mode: an entry in front of
/// other entries adds its own twenty bytes, and takes none away.
#[verifier::spinoff_prover]
#[verifier::rlimit(30)]
pub proof fn tree_refers_to_every_entry(
    mode: Seq<u8>,
    name: Seq<u8>,
    sha1: Seq<u8>,
    rest: Seq<u8>,
)
    requires
        forall|i: int| 0 <= i < mode.len() ==> mode[i] != 0 && mode[i] != 32,
        forall|i: int| 0 <= i < name.len() ==> name[i] != 0,
        sha1.len() == 20,
    ensures
        graph::children(2, mode + seq![32u8] + name + seq![0u8] + sha1 + rest) == seq![sha1]
            + graph::children(2, rest),
        graph::item_sha1s(
            graph::tree_items(mode + seq![32u8] + name + seq![0u8] + sha1 + rest),
        ) == seq![sha1] + graph::item_sha1s(graph::tree_items(rest)),
{
    lemma_first_item(mode, name, sha1, rest);
    let items = graph::tree_items(mode + seq![32u8] + name + seq![0u8] + sha1 + rest);
    let more = graph::tree_items(rest);
    assert forall|i: int| 0 <= i < more.len() implies items[i + 1] == more[i] by {
        assert(items.subrange(1, items.len() as int)[i] == more[i]);
    }
    assert(graph::item_sha1s(items) =~= seq![sha1] + graph::item_sha1s(more));
}

/// A tree made of entries refers to the object of each of them, in order, whatever
/// their modes.
#[verifier::spinoff_prover]
#[verifier::rlimit(30)]
pub proof fn tree_names_all_entries(entries: Seq<(Seq<u8>, Seq<u8>, Seq<u8>)>)
    requires
        forall|j: int, k: int|
            0 <= j < entries.len() && 0 <= k < (#[trigger] entries[j]).0.len()
                ==> #[trigger] entries[j].0[k] != 0 && entries[j].0[k] != 32,
        forall|j: int, k: int|
            0 <= j < entries.len() && 0 <= k < (#[trigger] entries[j]).1.len()
                ==> #[trigger] entries[j].1[k] != 0,
        forall|j: int| 0 <= j < entries.len() ==> (#[trigger] entries[j]).2.len() == 20,
    ensures
        graph::children(
            2,
            entries.map_values(
                |e: (Seq<u8>, Seq<u8>, Seq<u8>)| e.0 + seq![32u8] + e.1 + seq![0u8] + e.2,
            ).flatten(),
        ) == entries.map_values(|e: (Seq<u8>, Seq<u8>, Seq<u8>)| e.2),
    decreases entries.len(),
{
    let image = |e: (Seq<u8>, Seq<u8>, Seq<u8>)| e.0 + seq![32u8] + e.1 + seq![0u8] + e.2;
    let parts = entries.map_values(image);
    if entries.len() > 0 {
        let more = entries.drop_first();
        assert forall|j: int, k: int|
            0 <= j < more.len() && 0 <= k < (#[trigger] more[j]).0.len() implies #[trigger] more[j].0[k]
            != 0 && more[j].0[k] != 32 by {
            assert(more[j] == entries[j + 1]);
            assert(entries[j + 1].0[k] != 0);
        }
        assert forall|j: int, k: int|
            0 <= j < more.len() && 0 <= k < (#[trigger] more[j]).1.len() implies #[trigger] more[j].1[k]
            != 0 by {
            assert(more[j] == entries[j + 1]);
            assert(entries[j + 1].1[k] != 0);
        }
        assert forall|j: int| 0 <= j < more.len() implies (#[trigger] more[j]).2.len() == 20 by {
            assert(more[j] == entries[j + 1]);
        }
        tree_names_all_entries(more);
        assert(parts.drop_first() =~= more.map_values(image));
        let first = entries[0];
        assert forall|k: int| 0 <= k < first.0.len() implies first.0[k] != 0 && first.0[k]
            != 32 by {
            assert(entries[0].0[k] != 0);
        }
        assert forall|k: int| 0 <= k < first.1.len() implies first.1[k] != 0 by {
            assert(entries[0].1[k] != 0);
        }
        let rest = more.map_values(image).flatten();
        tree_refers_to_every_entry(first.0, first.1, first.2, rest);
        assert(parts.flatten() =~= first.0 + seq![32u8] + first.1 + seq![0u8] + first.2 + rest);
        assert(entries.map_values(|e: (Seq<u8>, Seq<u8>, Seq<u8>)| e.2) =~= seq![first.2]
            + more.map_values(|e: (Seq<u8>, Seq<u8>, Seq<u8>)| e.2));
    } else {
        assert(parts.flatten() =~= Seq::<u8>::empty());
        cut_trees_end(Seq::empty());
        assert(entries.map_values(|e: (Seq<u8>, Seq<u8>, Seq<u8>)| e.2)
            =~= Seq::<Seq<u8>>::empty());
    }
}

/// Of the entries of a tree those of mode 160000, and no others, point out of the
/// repository.
pub proof fn only_submodules_are_elsewhere(
    mode: Seq<u8>,
    name: Seq<u8>,
    sha1: Seq<u8>,
    rest: Seq<u8>,
)
    requires
        forall|i: int| 0 <= i < mode.len() ==> mode[i] != 0 && mode[i] != 32,
        forall|i: int| 0 <= i < name.len() ==> name[i] != 0,
        sha1.len() == 20,
    ensures
        ({
            let here = graph::in_repo_sha1s(
                graph::tree_items(mode + seq![32u8] + name + seq![0u8] + sha1 + rest),
            );
            let more = graph::in_repo_sha1s(graph::tree_items(rest));
            here == if mode == seq![49u8, 54, 48, 48, 48, 48] {
                more
            } else {
                seq![sha1] + more
            }
        }),
{
    lemma_first_item(mode, name, sha1, rest);
}

/// The entries of a tree carry the names that stand between the space and the zero
/// byte.
pub proof fn tree_lists_every_entry(
    mode: Seq<u8>,
    name: Seq<u8>,
    sha1: Seq<u8>,
    rest: Seq<u8>,
)
    requires
        forall|i: int| 0 <= i < mode.len() ==> mode[i] != 0 && mode[i] != 32,
        forall|i: int| 0 <= i < name.len() ==> name[i] != 0,
        sha1.len() == 20,
    ensures
        ({
            let items = graph::tree_items(mode + seq![32u8] + name + seq![0u8] + sha1 + rest);
            &&& items.len() == 1 + graph::tree_items(rest).len()
            &&& graph::item_name(items[0]) == name && items[0].sha1 == sha1
            &&& forall|i: int|
                0 <= i < graph::tree_items(rest).len() ==> items[i + 1]
                    == #[trigger] graph::tree_items(rest)[i]
        }),
{
    lemma_first_item(mode, name, sha1, rest);
    let items = graph::tree_items(mode + seq![32u8] + name + seq![0u8] + sha1 + rest);
    let more = graph::tree_items(rest);
    assert forall|i: int| 0 <= i < more.len() implies items[i + 1] == #[trigger] more[i] by {
        assert(items.subrange(1, items.len() as int)[i] == more[i]);
    }
}

/// What is no whole entry is no entry: no zero byte, or fewer than twenty bytes behind
/// the first one.
pub proof fn cut_trees_end(content: Seq<u8>)
    requires
        forall|i: int| 0 <= i < content.len() - 20 ==> content[i] != 0,
    ensures
        graph::children(2, content) == Seq::<Seq<u8>>::empty(),
        graph::tree_items(content).len() == 0,
{
    graph::lemma_find(content, 0);
    let e = graph::find(content, 0);
    if e + 21 <= content.len() {
        assert(content[e] == 0);
    }
    assert(graph::tree_items(content) =~= Seq::<graph::TreeItem>::empty());
    assert(graph::item_sha1s(graph::tree_items(content)) =~= Seq::<Seq<u8>>::empty());
}

// ---------------------------------------------------------------------------
// Commits and tags
// ---------------------------------------------------------------------------

proof fn lemma_first_line(line: Seq<u8>, rest: Seq<u8>)
    requires
        line.len() > 0,
        forall|i: int| 0 <= i < line.len() ==> line[i] != 10,
    ensures
        graph::header_lines(line + seq![10u8] + rest) == seq![line] + graph::header_lines(rest),
{
    let content = line + seq![10u8] + rest;
    graph::lemma_line_end(content);
    let e = graph::line_end(content);
    if e < line.len() {
        assert(content[e] == line[e]);
    }
    if e > line.len() {
        assert(content[line.len() as int] == 10);
    }
    assert(content.subrange(0, e) =~= line);
    assert(graph::after_line(content) =~= rest);
}

proof fn lemma_trimmed_digits(s: Seq<u8>)
    requires
        s.len() > 0,
        !graph::is_space(s[0]),
        !graph::is_space(s.last()),
    ensures
        graph::trimmed(s) == s,
{
}

#[verifier::spinoff_prover]
#[verifier::rlimit(30)]
proof fn lemma_spelled_name(sha1: Seq<u8>)
    requires
        sha1.len() == 20,
    ensures
        graph::sha1_value(hexcode::encoded(sha1)) == Some(sha1),
        forall|i: int|
            0 <= i < hexcode::encoded(sha1).len() ==> #[trigger] hexcode::encoded(sha1)[i] != 10,
{
    let h = hexcode::encoded(sha1);
    assert forall|i: int| 0 <= i < h.len() implies 48 <= #[trigger] h[i] <= 102 by {
        hex_spells_halves(sha1, i / 2);
        if i % 2 == 0 {
            assert(2 * (i / 2) == i);
        } else {
            assert(2 * (i / 2) + 1 == i);
        }
    }
    assert(h.len() == 40);
    assert(48 <= h[0] <= 102 && 48 <= h[39] <= 102);
    lemma_trimmed_digits(h);
    hexcode::encode_decode(sha1);
}

#[verifier::spinoff_prover]
#[verifier::rlimit(30)]
proof fn lemma_keyed_line(key: Seq<u8>, sha1: Seq<u8>)
    requires
        sha1.len() == 20,
        key.len() > 0,
        forall|i: int| 0 <= i < key.len() ==> key[i] != 10,
    ensures
        ({
            let line = key + hexcode::encoded(sha1);
            &&& line.len() > 0
            &&& forall|i: int| 0 <= i < line.len() ==> line[i] != 10
            &&& codec::has_prefix(line, key)
            &&& graph::sha1_value(line.subrange(key.len() as int, line.len() as int)) == Some(sha1)
        }),
{
    let line = key + hexcode::encoded(sha1);
    lemma_spelled_name(sha1);
    assert(line.subrange(0, key.len() as int) =~= key);
    assert(line.subrange(key.len() as int, line.len() as int) =~= hexcode::encoded(sha1));
    assert forall|i: int| 0 <= i < line.len() implies line[i] != 10 by {
        if i >= key.len() {
            assert(line[i] == hexcode::encoded(sha1)[i - key.len()]);
        }
    }
}

/// The first header line "tree" and forty digits names the tree of a commit, whatever
/// follows; another line in front of it does not matter.
#[verifier::spinoff_prover]
#[verifier::rlimit(30)]
pub proof fn commit_names_its_tree(sha1: Seq<u8>, line: Seq<u8>, rest: Seq<u8>)
    requires
        sha1.len() == 20,
        line.len() > 0,
        forall|i: int| 0 <= i < line.len() ==> line[i] != 10,
        !codec::has_prefix(line, seq![116u8, 114, 101, 101, 32]),
    ensures
        graph::commit_tree(
            seq![116u8, 114, 101, 101, 32] + hexcode::encoded(sha1) + seq![10u8] + rest,
        ) == Some(sha1),
        graph::commit_tree(line + seq![10u8] + rest) == graph::commit_tree(rest),
        graph::commit_tree(seq![10u8] + rest) is None,
{
    let key = seq![116u8, 114, 101, 101, 32];
    lemma_keyed_line(key, sha1);
    lemma_first_line(key + hexcode::encoded(sha1), rest);
    lemma_first_line(line, rest);
    assert(key =~= graph::tree_key());
    let a = seq![key + hexcode::encoded(sha1)] + graph::header_lines(rest);
    assert(a[0] == key + hexcode::encoded(sha1));
    let b = seq![line] + graph::header_lines(rest);
    assert(b[0] == line);
    assert(b.subrange(1, b.len() as int) =~= graph::header_lines(rest));
    lemma_empty_line(rest);
}

proof fn lemma_empty_line(rest: Seq<u8>)
    ensures
        graph::header_lines(seq![10u8] + rest) == Seq::<Seq<u8>>::empty(),
        graph::header_lines(Seq::<u8>::empty()) == Seq::<Seq<u8>>::empty(),
{
    let content = seq![10u8] + rest;
    assert(content[0] == 10);
}

/// Every header line "parent" and forty digits names a parent of a commit, in order.
/// The header ends at the first empty line.
#[verifier::spinoff_prover]
#[verifier::rlimit(30)]
pub proof fn commit_names_every_parent(sha1: Seq<u8>, line: Seq<u8>, rest: Seq<u8>)
    requires
        sha1.len() == 20,
        line.len() > 0,
        forall|i: int| 0 <= i < line.len() ==> line[i] != 10,
        !codec::has_prefix(line, seq![112u8, 97, 114, 101, 110, 116, 32]),
    ensures
        graph::commit_parents(
            seq![112u8, 97, 114, 101, 110, 116, 32] + hexcode::encoded(sha1) + seq![10u8] + rest,
        ) == seq![sha1] + graph::commit_parents(rest),
        graph::commit_parents(line + seq![10u8] + rest) == graph::commit_parents(rest),
        graph::commit_parents(seq![10u8] + rest) == Seq::<Seq<u8>>::empty(),
        graph::commit_parents(Seq::<u8>::empty()) == Seq::<Seq<u8>>::empty(),
{
    let key = seq![112u8, 97, 114, 101, 110, 116, 32];
    lemma_keyed_line(key, sha1);
    lemma_first_line(key + hexcode::encoded(sha1), rest);
    lemma_first_line(line, rest);
    assert(key =~= graph::parent_key());
    let a = seq![key + hexcode::encoded(sha1)] + graph::header_lines(rest);
    assert(a[0] == key + hexcode::encoded(sha1));
    assert(a.subrange(1, a.len() as int) =~= graph::header_lines(rest));
    let b = seq![line] + graph::header_lines(rest);
    assert(b[0] == line);
    assert(b.subrange(1, b.len() as int) =~= graph::header_lines(rest));
    lemma_empty_line(rest);
}

/// The first header line "object" and forty digits names what a tag is for.
#[verifier::spinoff_prover]
#[verifier::rlimit(30)]
pub proof fn tag_names_its_object(sha1: Seq<u8>, line: Seq<u8>, rest: Seq<u8>)
    requires
        sha1.len() == 20,
        line.len() > 0,
        forall|i: int| 0 <= i < line.len() ==> line[i] != 10,
        !codec::has_prefix(line, seq![111u8, 98, 106, 101, 99, 116, 32]),
    ensures
        graph::tag_object(
            seq![111u8, 98, 106, 101, 99, 116, 32] + hexcode::encoded(sha1) + seq![10u8] + rest,
        ) == Some(sha1),
        graph::tag_object(line + seq![10u8] + rest) == graph::tag_object(rest),
        graph::tag_object(seq![10u8] + rest) is None,
{
    let key = seq![111u8, 98, 106, 101, 99, 116, 32];
    lemma_keyed_line(key, sha1);
    lemma_first_line(key + hexcode::encoded(sha1), rest);
    lemma_first_line(line, rest);
    assert(key =~= graph::object_key());
    let a = seq![key + hexcode::encoded(sha1)] + graph::header_lines(rest);
    assert(a[0] == key + hexcode::encoded(sha1));
    let b = seq![line] + graph::header_lines(rest);
    assert(b[0] == line);
    assert(b.subrange(1, b.len() as int) =~= graph::header_lines(rest));
    lemma_empty_line(rest);
}

/// A commit refers to its tree and to each of its parents, a tag to its object, and a
/// blob to nothing.
pub proof fn objects_refer_to_what_they_name(content: Seq<u8>, name: Seq<u8>)
    ensures
        graph::children(1, content).contains(name) <==> graph::commit_tree(content) == Some(name)
            || graph::commit_parents(content).contains(name),
        graph::children(4, content).contains(name) <==> graph::tag_object(content) == Some(name),
        graph::children(3, content).len() == 0,
{
    let c = graph::children(1, content);
    let parents = graph::commit_parents(content);
    if let Some(tree) = graph::commit_tree(content) {
        assert(c[0] == tree);
        assert(c =~= seq![tree] + parents);
        if parents.contains(name) {
            let i = choose|i: int| 0 <= i < parents.len() && parents[i] == name;
            assert(c[i + 1] == name);
        }
        if c.contains(name) {
            let i = choose|i: int| 0 <= i < c.len() && c[i] == name;
            if i > 0 {
                assert(parents[i - 1] == name);
            }
        }
    }
    if let Some(object) = graph::tag_object(content) {
        assert(graph::children(4, content)[0] == object);
    }
}

/// What stands at the beginning of a log: nothing whole where the eight bytes of the
/// header or the announced bytes of payload are not all there; damage where the
/// checksum is not that of the payload; and otherwise the payload.
pub proof fn heads_are_told(data: Seq<u8>)
    ensures
        data.len() < 8 ==> frame::head(data) is Torn,
        data.len() >= 8 ==> ({
            let n = data[0] + 256 * data[1] + 65536 * data[2] + 16777216 * data[3];
            let sum = data[4] + 256 * data[5] + 65536 * data[6] + 16777216 * data[7];
            let payload = data.subrange(8, 8 + n);
            &&& frame::head(data) is Torn <==> data.len() < 8 + n
            &&& frame::head(data) is Damaged <==> data.len() >= 8 + n && frame::crc32(payload) != sum
            &&& data.len() >= 8 + n && frame::crc32(payload) == sum ==> frame::head(data)
                == frame::Head::Frame(payload)
        }),
{
}

/// Two digits spell a byte: sixteen times the first and the second. Upper case and
/// lower case are the same.
pub proof fn hex_reads_digits(s: Seq<u8>, i: int)
    requires
        hexcode::decoded(s) is Some,
        0 <= i < s.len() / 2,
    ensures
        ({
            let b = hexcode::decoded(s)->0[i];
            let high = s[2 * i];
            let low = s[2 * i + 1];
            &&& 48 <= high <= 57 ==> b as int / 16 == high - 48
            &&& 65 <= high <= 70 ==> b as int / 16 == high - 55
            &&& 97 <= high <= 102 ==> b as int / 16 == high - 87
            &&& 48 <= low <= 57 ==> b as int % 16 == low - 48
            &&& 65 <= low <= 70 ==> b as int % 16 == low - 55
            &&& 97 <= low <= 102 ==> b as int % 16 == low - 87
        }),
{
    assert(hexcode::is_digit(s[2 * i]));
    assert(hexcode::is_digit(s[2 * i + 1]));
}

/// A commit refers to its tree first and then to its parents, in order; an object that
/// is neither commit, tree nor tag refers to nothing.
pub proof fn references_are_in_order(git_type: u8, content: Seq<u8>)
    ensures
        graph::commit_tree(content) matches Some(tree) ==> graph::children(1, content) == seq![tree]
            + graph::commit_parents(content),
        graph::commit_tree(content) is None ==> graph::children(1, content)
            == graph::commit_parents(content),
        graph::tag_object(content) matches Some(object) ==> graph::children(4, content)
            == seq![object],
        graph::tag_object(content) is None ==> graph::children(4, content).len() == 0,
        git_type != 1 && git_type != 2 && git_type != 4 ==> graph::children(git_type, content).len()
            == 0,
{
}

/// What cannot be expanded is told from what expands to too much.
pub proof fn expansion_faults(stream: Seq<u8>)
    ensures
        object_file::expanded(stream) == Err::<Seq<u8>, crate::types::Corruption>(
            crate::types::Corruption::Inflate,
        ) <==> zlib::inflated(stream, 2147483649) is None,
        object_file::expanded(stream) == Err::<Seq<u8>, crate::types::Corruption>(
            crate::types::Corruption::TooLarge,
        ) <==> (zlib::inflated(stream, 2147483649) matches Some(out) && out.len() > 2147483648),
{
}

} // verus!
