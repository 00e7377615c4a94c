//! Packs, their indexes and deltas, byte by byte.

use vstd::prelude::*;
use crate::codec;
use crate::delta;
use crate::digest;
use crate::format_laws;
use crate::git_pack;
use crate::git_pack::{IndexRow, PackObject};
use crate::git_pack_file;
use crate::git_pack_file::LidxEntry;
use crate::keytable;
use crate::pack;
use crate::pack::Record;
use crate::sorting;
use crate::types::Corruption;
use crate::varint;
use crate::zlib;

verus! {

// ---------------------------------------------------------------------------
// Deltas
// ---------------------------------------------------------------------------

/// The low four bits of a copy instruction say which bytes of the place follow, the
/// next three which bytes of the length; a length of zero stands for 65536.
#[verifier::spinoff_prover]
#[verifier::rlimit(40)]
pub proof fn copy_instruction(op: u8, s: Seq<u8>, p: int)
    requires
        0 <= p,
        p + 7 <= s.len(),
    ensures
        ({
            let p1 = p + op as int % 2;
            let p2 = p1 + op as int / 2 % 2;
            let p3 = p2 + op as int / 4 % 2;
            let p4 = p3 + op as int / 8 % 2;
            let p5 = p4 + op as int / 16 % 2;
            let p6 = p5 + op as int / 32 % 2;
            let p7 = p6 + op as int / 64 % 2;
            let at = op as int % 2 * s[p] + 256 * (op as int / 2 % 2 * s[p1]) + 65536 * (op as int / 4
                % 2 * s[p2]) + 16777216 * (op as int / 8 % 2 * s[p3]);
            let len = op as int / 16 % 2 * s[p4] + 256 * (op as int / 32 % 2 * s[p5]) + 65536 * (
            op as int / 64 % 2 * s[p6]);
            delta::copy_arguments(op, s, p) == (
                at,
                if len == 0 {
                    65536
                } else {
                    len
                },
                p7,
            )
        }),
{
    reveal(delta::copy_arguments);
    reveal_with_fuel(delta::number_at, 5);
    let f = op as int;
    let p1 = p + f % 2;
    let p2 = p1 + f / 2 % 2;
    let p3 = p2 + f / 4 % 2;
    let p4 = p3 + f / 8 % 2;
    let p5 = p4 + f / 16 % 2;
    let p6 = p5 + f / 32 % 2;
    let g = f / 16;
    lemma_bit_times(f % 2, s[p] as int);
    lemma_bit_times(f / 2 % 2, s[p1] as int);
    lemma_bit_times(f / 4 % 2, s[p2] as int);
    lemma_bit_times(f / 8 % 2, s[p3] as int);
    lemma_bit_times(f / 16 % 2, s[p4] as int);
    lemma_bit_times(f / 32 % 2, s[p5] as int);
    lemma_bit_times(f / 64 % 2, s[p6] as int);
    assert(f / 2 / 2 == f / 4);
    assert(f / 4 / 2 == f / 8);
    assert(g / 2 == f / 32);
    assert(f / 32 / 2 == f / 64);
    assert(delta::number_at(f, s, p, 4).1 == p4);
    assert(delta::number_at(f / 8, s, p3, 1).0 == f / 8 % 2 * s[p3]);
    assert(delta::number_at(f / 4, s, p2, 2).0 == f / 4 % 2 * s[p2] + 256 * (f / 8 % 2 * s[p3]));
    assert(delta::number_at(f / 2, s, p1, 3).0 == f / 2 % 2 * s[p1] + 256 * (f / 4 % 2 * s[p2]
        + 256 * (f / 8 % 2 * s[p3])));
    assert(delta::number_at(g / 4, s, p6, 1).0 == f / 64 % 2 * s[p6]);
    assert(delta::number_at(g / 2, s, p5, 2).0 == f / 32 % 2 * s[p5] + 256 * (f / 64 % 2 * s[p6]));
}

proof fn lemma_bit_times(bit: int, x: int)
    requires
        bit == 0 || bit == 1,
    ensures
        bit * x == if bit == 1 {
            x
        } else {
            0
        },
{
    assert(bit * x == if bit == 1 {
        x
    } else {
        0
    }) by (nonlinear_arith)
        requires
            bit == 0 || bit == 1,
    ;
}

/// What an instruction produces: from 128 on it copies from the base, from 1 to 127 it
/// inserts that many bytes that follow, and 0 is none.
pub proof fn delta_instructions(base: Seq<u8>, s: Seq<u8>, p: int)
    requires
        0 <= p <= s.len(),
    ensures
        ({
            let r = delta::produced(base, s, p);
            &&& p == s.len() ==> r == Some(Seq::<u8>::empty())
            &&& p < s.len() && s[p] == 0 ==> r is None
            &&& p < s.len() && 1 <= s[p] < 128 ==> {
                let next = p + 1 + s[p];
                let rest = delta::produced(base, s, next);
                &&& next > s.len() ==> r is None
                &&& next <= s.len() ==> (r is Some <==> rest is Some)
                &&& next <= s.len() && rest is Some ==> r->0 == s.subrange(p + 1, next) + rest->0
            }
            &&& p < s.len() && s[p] >= 128 ==> {
                let (at, len, next) = delta::copy_arguments(s[p], s, p + 1);
                let rest = delta::produced(base, s, next);
                &&& next > s.len() || at + len > base.len() ==> r is None
                &&& next <= s.len() && at + len <= base.len() && next > p ==> (r is Some
                    <==> rest is Some)
                &&& next <= s.len() && at + len <= base.len() && next > p && rest is Some ==> r->0
                    == base.subrange(at, at + len) + rest->0
            }
        }),
{
}

/// A delta begins with the lengths of the base and of what it produces, and is refused
/// where either is not right.
#[verifier::rlimit(30)]
pub proof fn delta_lengths(base: Seq<u8>, n: nat, m: nat, rest: Seq<u8>)
    requires
        n <= u64::MAX,
        m <= u64::MAX,
    ensures
        ({
            let d = varint::varint(n) + varint::varint(m) + rest;
            let out = delta::produced(
                base,
                d,
                (varint::varint(n).len() + varint::varint(m).len()) as int,
            );
            &&& delta::applied(base, d) is Some <==> n == base.len() && out is Some && out->0.len()
                == m
            &&& delta::applied(base, d) is Some ==> delta::applied(base, d)->0 == out->0
        }),
{
    let d = varint::varint(n) + varint::varint(m) + rest;
    varint::lemma_fits(n);
    varint::lemma_fits(m);
    varint::varint_roundtrip(n, 10, Seq::empty(), varint::varint(m) + rest);
    varint::varint_roundtrip(m, 10, varint::varint(n), rest);
    assert(Seq::<u8>::empty() + varint::varint(n) + (varint::varint(m) + rest) =~= d);
}

/// What a delta takes from the base at the start is all that the two have in common
/// there.
pub proof fn common_start_is_longest(a: Seq<u8>, b: Seq<u8>, i: int)
    requires
        0 <= i <= a.len(),
        i <= b.len(),
    ensures
        ({
            let n = delta::common_start(a, b, i);
            &&& 0 <= n <= a.len() - i
            &&& n <= b.len() - i
            &&& forall|j: int| i <= j < i + n ==> a[j] == b[j]
            &&& i + n < a.len() && i + n < b.len() ==> a[i + n] != b[i + n]
        }),
    decreases a.len() - i,
{
    if i < a.len() && i < b.len() && a[i] == b[i] {
        common_start_is_longest(a, b, i + 1);
    }
}

/// What it takes at the end is all that the two have in common there, within the limit
/// that keeps start and end apart.
pub proof fn common_end_is_longest(a: Seq<u8>, b: Seq<u8>, limit: int)
    requires
        0 <= limit <= a.len(),
        limit <= b.len(),
    ensures
        ({
            let n = delta::common_end(a, b, limit);
            &&& 0 <= n <= limit
            &&& forall|j: int| 0 < j <= n ==> a[a.len() - j] == #[trigger] b[b.len() - j]
            &&& n < limit ==> a[a.len() - n - 1] != b[b.len() - n - 1]
        }),
    decreases limit,
{
    if limit > 0 && a.last() == b.last() {
        let x = a.drop_last();
        let y = b.drop_last();
        common_end_is_longest(x, y, limit - 1);
        let n = delta::common_end(a, b, limit);
        assert forall|j: int| 0 < j <= n implies a[a.len() - j] == #[trigger] b[b.len() - j] by {
            if j > 1 {
                assert(x[x.len() - (j - 1)] == y[y.len() - (j - 1)]);
            }
        }
    }
}

/// The start and the end that a delta copies. A base of more than four gigabytes is
/// not copied from.
pub proof fn deltas_share_ends(base: Seq<u8>, target: Seq<u8>)
    ensures
        base.len() > 4294967295 ==> delta::shared(base, target) == (0int, 0int),
        base.len() <= 4294967295 ==> ({
            let (start, end) = delta::shared(base, target);
            &&& 0 <= start && 0 <= end
            &&& start + end <= base.len() && start + end <= target.len()
            &&& forall|i: int| 0 <= i < start ==> base[i] == target[i]
            &&& forall|i: int| 0 < i <= end ==> base[base.len() - i] == #[trigger] target[target.len()
                - i]
            &&& start < base.len() && start < target.len() ==> base[start] != target[start]
            &&& start + end < base.len() && start + end < target.len() ==> base[base.len() - end
                - 1] != target[target.len() - end - 1]
        }),
{
    if base.len() <= 4294967295 {
        common_start_is_longest(base, target, 0);
        let start = delta::common_start(base, target, 0);
        let room = if base.len() <= target.len() {
            base.len() - start
        } else {
            target.len() - start
        };
        common_end_is_longest(base, target, room);
    }
}

/// How long the parts of a delta are: eight bytes for every copy of up to 16777215
/// bytes, and one byte for every 127 that are inserted.
#[verifier::rlimit(30)]
pub proof fn delta_parts_len(at: int, len: int, bytes: Seq<u8>)
    requires
        0 <= len,
    ensures
        delta::copies(at, len).len() == 8 * ((len + 16777214) / 16777215),
        delta::inserts(bytes).len() == bytes.len() + (bytes.len() + 126) / 127,
    decreases len + bytes.len(),
{
    if len > 0 {
        let n = if len <= 16777215 {
            len
        } else {
            16777215
        };
        delta_parts_len(at + n, len - n, Seq::empty());
    }
    if bytes.len() > 0 {
        let n = if bytes.len() <= 127 {
            bytes.len() as int
        } else {
            127
        };
        delta_parts_len(at, 0, bytes.subrange(n, bytes.len() as int));
    }
}

/// A delta spends bytes only on what is not shared.
pub proof fn delta_len(base: Seq<u8>, target: Seq<u8>)
    ensures
        ({
            let (start, end) = delta::shared(base, target);
            let between = target.len() - start - end;
            delta::delta_of(base, target).len() == varint::varint(base.len()).len()
                + varint::varint(target.len()).len() + 8 * ((start + 16777214) / 16777215) + between
                + (between + 126) / 127 + 8 * ((end + 16777214) / 16777215)
        }),
{
    deltas_share_ends(base, target);
    let (start, end) = delta::shared(base, target);
    let middle = target.subrange(start, target.len() - end);
    delta_parts_len(0, start, middle);
    delta_parts_len(base.len() - end, end, Seq::empty());
}

// ---------------------------------------------------------------------------
// Git packs
// ---------------------------------------------------------------------------

/// A pack begins with "PACK", the number 2 and the number of its objects, and ends with
/// the SHA-1 of all that precedes.
#[verifier::spinoff_prover]
#[verifier::rlimit(40)]
pub proof fn pack_ends(
    objects: Seq<PackObject>,
    window: int,
    pack: Seq<u8>,
    idx: Seq<u8>,
    offsets: Seq<u64>,
)
    requires
        git_pack::pack_written(objects, window, pack, idx, offsets),
        objects.len() <= 4294967295,
    ensures
        pack.len() >= 32,
        pack.subrange(0, 8) == seq![80u8, 65, 67, 75, 0, 0, 0, 2],
        pack[11] + 256 * pack[10] + 65536 * pack[9] + 16777216 * pack[8] == objects.len(),
        pack.subrange(pack.len() - 20, pack.len() as int) == digest::sha1_sum(
            pack.subrange(0, pack.len() - 20),
        ),
        offsets.len() == objects.len(),
        forall|i: int| 0 <= i < offsets.len() ==> 12 <= #[trigger] offsets[i] < 2147483648,
{
    reveal(git_pack::pack_written);
    reveal(git_pack::offsets_given);
    reveal(git_pack::too_large);
    let body = git_pack::pack_body(objects, window);
    let n = objects.len() as u32;
    format_laws::bytes_weigh_number(n);
    let head = git_pack::pack_head(objects.len());
    assert(head.len() == 12);
    assert(forall|i: int| 0 <= i < 12 ==> body[i] == head[i]);
    assert(forall|i: int| 0 <= i < 12 ==> pack[i] == head[i]);
    assert(pack.subrange(0, 8) =~= seq![80u8, 65, 67, 75, 0, 0, 0, 2]);
    assert(head[8] == codec::be32(n)[0] && head[9] == codec::be32(n)[1] && head[10] == codec::be32(
        n,
    )[2] && head[11] == codec::be32(n)[3]);
    assert(pack.subrange(0, pack.len() - 20) =~= body);
    assert(pack.subrange(pack.len() - 20, pack.len() as int) =~= digest::sha1_sum(body));
    assert(usize::MAX >= 4294967295);
    sorting::stable_order_exists(git_pack::ranks(objects));
    let order = git_pack::write_order(objects);
    assert forall|i: int| 0 <= i < offsets.len() implies 12 <= #[trigger] offsets[i]
        < 2147483648 by {
        assert(sorting::lists(order, i));
        let k = choose|k: int| 0 <= k < order.len() && #[trigger] order[k] == i;
        assert(offsets[order[k] as int] == git_pack::offset_at(objects, window, k));
    }
}

/// Objects are packed by type, ascending, and within a type the longest first; of
/// equals the one that was given first. Each is packed once.
pub proof fn pack_order(objects: Seq<PackObject>, a: int, b: int, i: int)
    requires
        objects.len() <= usize::MAX,
        0 <= a < b < objects.len(),
        0 <= i < objects.len(),
    ensures
        ({
            let order = git_pack::write_order(objects);
            let x = git_pack::written(objects, a);
            let y = git_pack::written(objects, b);
            &&& order.len() == objects.len()
            &&& order[a] < objects.len() && order[a] != order[b]
            &&& x == objects[order[a] as int] && y == objects[order[b] as int]
            &&& exists|k: int| 0 <= k < order.len() && #[trigger] order[k] == i
            &&& x.git_type <= y.git_type
            &&& x.git_type == y.git_type ==> x.content@.len() >= y.content@.len()
            &&& x.git_type == y.git_type && x.content@.len() == y.content@.len() ==> order[a]
                < order[b]
        }),
{
    let keys = git_pack::ranks(objects);
    sorting::stable_order_exists(keys);
    let order = git_pack::write_order(objects);
    assert(sorting::earlier(keys, order[a] as int, order[b] as int));
    sorting::lemma_positions_differ(keys, order, a, b);
    assert(sorting::lists(order, i));
}

/// An object is stored as a delta against the best of the objects in the window before
/// it: one of its type that stands on fewer than fifty deltas, whose delta is shorter
/// than the content, no longer than that of any other and shorter than that of any
/// nearer one. Where there is none, every such delta is at least as long as the
/// content.
#[verifier::rlimit(30)]
pub proof fn best_base_is_best(objects: Seq<PackObject>, window: int, k: int, low: int, i: int)
    requires
        0 <= low <= k,
        low <= i < k,
        git_pack::written(objects, i).git_type == git_pack::written(objects, k).git_type,
        git_pack::depth_at(objects, window, i) < 50,
    ensures
        ({
            let best = git_pack::best_base(objects, window, k, low);
            let d = git_pack::delta_between(objects, i, k);
            &&& best is None ==> d.len() >= git_pack::written(objects, k).content@.len()
            &&& best matches Some(j) ==> {
                let e = git_pack::delta_between(objects, j, k);
                &&& low <= j < k
                &&& git_pack::written(objects, j).git_type == git_pack::written(objects, k).git_type
                &&& git_pack::depth_at(objects, window, j) < 50
                &&& e.len() < git_pack::written(objects, k).content@.len()
                &&& e.len() <= d.len()
                &&& i > j ==> e.len() < d.len()
            }
        }),
    decreases k - low,
{
    git_pack::lemma_best_base(objects, window, k, low);
    if i > low {
        best_base_is_best(objects, window, k, low + 1, i);
        git_pack::lemma_best_base(objects, window, k, low + 1);
    } else {
        git_pack::lemma_best_base(objects, window, k, low + 1);
    }
}

/// The delta is used where it is shorter than the content also once both are
/// compressed.
pub proof fn deltas_are_used(objects: Seq<PackObject>, window: int, k: int)
    requires
        0 <= k,
        0 <= window,
    ensures
        ({
            let low = if k <= window {
                0
            } else {
                k - window
            };
            let best = git_pack::best_base(objects, window, k, low);
            let base = git_pack::base_of(objects, window, k);
            &&& best is None ==> base is None
            &&& best matches Some(j) ==> {
                let shorter = zlib::deflated(git_pack::delta_between(objects, j, k)).len()
                    < zlib::deflated(git_pack::written(objects, k).content@).len();
                &&& shorter ==> base == Some(j)
                &&& !shorter ==> base is None
            }
            &&& base is None ==> git_pack::depth_at(objects, window, k) == 0
            &&& base matches Some(j) ==> git_pack::depth_at(objects, window, k)
                == git_pack::depth_at(objects, window, j) + 1
        }),
{
    git_pack::base_precedes(objects, window, k);
}

/// A packed object is a header with its type and the length of its content, and the
/// compressed content; one stored as a delta has the type 7, the length of the delta,
/// the name of the base and the compressed delta.
pub proof fn packed_entry(objects: Seq<PackObject>, window: int, k: int)
    ensures
        match git_pack::base_of(objects, window, k) {
            None => {
                let o = git_pack::written(objects, k);
                git_pack::entry_at(objects, window, k) == git_pack::obj_header(
                    o.git_type,
                    o.content@.len(),
                ) + zlib::deflated(o.content@)
            },
            Some(j) => {
                let d = delta::delta_of(
                    git_pack::written(objects, j).content@,
                    git_pack::written(objects, k).content@,
                );
                git_pack::entry_at(objects, window, k) == git_pack::obj_header(7, d.len())
                    + git_pack::written(objects, j).sha1@ + zlib::deflated(d)
            },
        },
{
}

/// How an object is read from a pack: the types 1 to 4 are stored whole, and type 7 is
/// a delta against the object of the name that follows the header. Fifty deltas may
/// follow each other, and no more.
#[verifier::rlimit(30)]
pub proof fn packed_objects_read(pack: Seq<u8>, bases: Map<Seq<u8>, u64>, offset: u64, depth: nat)
    ensures
        ({
            let r = git_pack_file::packed_at(pack, bases, offset, depth);
            let head = git_pack_file::header_at(pack, offset as int);
            &&& depth > 50 ==> r == Err::<Seq<u8>, Corruption>(Corruption::ChainTooDeep)
            &&& depth <= 50 && offset <= pack.len() && head is None ==> r == Err::<
                Seq<u8>,
                Corruption,
            >(Corruption::PackObjectHeader)
            &&& depth <= 50 && offset <= pack.len() && head is Some ==> {
                let (git_type, _, next) = head->0;
                let name = pack.subrange(next, next + 20);
                let whole = zlib::inflated(pack.subrange(next, pack.len() as int), u64::MAX);
                let d = zlib::inflated(pack.subrange(next + 20, pack.len() as int), u64::MAX);
                &&& 1 <= git_type <= 4 ==> (r is Ok <==> whole is Some)
                &&& 1 <= git_type <= 4 && whole is Some ==> r->Ok_0 == whole->0
                &&& git_type == 0 || git_type == 5 || git_type == 6 ==> r == Err::<
                    Seq<u8>,
                    Corruption,
                >(Corruption::PackObjectType)
                &&& git_type == 7 && r is Ok ==> {
                    let base = git_pack_file::packed_at(pack, bases, bases[name], depth + 1);
                    &&& next + 20 <= pack.len() && bases.contains_key(name)
                    &&& d is Some && base is Ok
                    &&& delta::applied(base->Ok_0, d->0) == Some(r->Ok_0)
                }
                &&& git_type == 7 && next + 20 <= pack.len() && bases.contains_key(name)
                    && d is Some ==> {
                    let base = git_pack_file::packed_at(pack, bases, bases[name], depth + 1);
                    base is Ok && delta::applied(base->Ok_0, d->0) is Some ==> r == Ok::<
                        Seq<u8>,
                        Corruption,
                    >(delta::applied(base->Ok_0, d->0)->0)
                }
            }
        }),
{
    reveal_with_fuel(git_pack_file::packed_at, 2);
}

/// The header of a packed object, where its length takes one byte: three bits of type
/// and four of length.
pub proof fn short_headers(pack: Seq<u8>, p: int)
    requires
        0 <= p < pack.len(),
        pack[p] < 128,
    ensures
        git_pack_file::header_at(pack, p) == Some(
            ((pack[p] / 16) as u8, pack[p] as int % 16, p + 1),
        ),
{
}

// ---------------------------------------------------------------------------
// Indexes
// ---------------------------------------------------------------------------

/// The part at position `i` of parts of one width.
proof fn lemma_part(parts: Seq<Seq<u8>>, width: int, i: int)
    requires
        forall|j: int| 0 <= j < parts.len() ==> (#[trigger] parts[j]).len() == width,
        0 <= i < parts.len(),
        0 <= width,
    ensures
        codec::join(parts).len() == width * parts.len(),
        0 <= width * i,
        width * i + width <= width * parts.len(),
        codec::join(parts).subrange(width * i, width * i + width) == parts[i],
{
    codec::lemma_join_width(parts, width);
    codec::lemma_join_split(parts, i);
    let front = parts.subrange(0, i);
    assert forall|j: int| 0 <= j < front.len() implies (#[trigger] front[j]).len() == width by {
        assert(front[j] == parts[j]);
    }
    codec::lemma_join_width(front, width);
    assert(front.len() == i);
    assert(0 <= width * i && width * i + width <= width * parts.len()) by (nonlinear_arith)
        requires
            0 <= i < parts.len(),
            0 <= width,
    ;
    assert(parts[i].len() == width);
    assert(codec::join(parts).subrange(width * i, width * i + width) =~= parts[i]);
}

/// The index by address: four bytes for the number of rows, and 61 bytes for each row:
/// the address, the name, the type and eight bytes for the offset.
#[verifier::spinoff_prover]
#[verifier::rlimit(40)]
pub proof fn lidx_layout(entries: Seq<LidxEntry>, i: int)
    requires
        entries.len() <= 4294967295,
        0 <= i < entries.len(),
    ensures
        ({
            let data = git_pack_file::lidx_image(entries);
            let p = 4 + 61 * i;
            &&& data.len() == 4 + 61 * entries.len()
            &&& data[0] + 256 * data[1] + 65536 * data[2] + 16777216 * data[3] == entries.len()
            &&& data.subrange(p, p + 32) == entries[i].oid.bytes@
            &&& data.subrange(p + 32, p + 52) == entries[i].sha1@
            &&& data[p + 52] == entries[i].git_type
            &&& data.subrange(p + 53, p + 61) == codec::le64(entries[i].offset)
        }),
{
    let data = git_pack_file::lidx_image(entries);
    let rows = git_pack_file::lidx_rows(entries);
    assert forall|j: int| 0 <= j < rows.len() implies (#[trigger] rows[j]).len() == 61 by {
        format_laws::bytes_weigh_long_number(entries[j].offset);
    }
    lemma_part(rows, 61, i);
    format_laws::bytes_weigh_number(entries.len() as u32);
    format_laws::bytes_weigh_long_number(entries[i].offset);
    let p = 4 + 61 * i;
    let row = git_pack_file::lidx_row(entries[i]);
    assert(data.subrange(p, p + 61) =~= codec::join(rows).subrange(61 * i, 61 * i + 61));
    assert(data.subrange(p, p + 61) == row);
    assert(data.subrange(p, p + 32) =~= row.subrange(0, 32));
    assert(row.subrange(0, 32) =~= entries[i].oid.bytes@);
    assert(data.subrange(p + 32, p + 52) =~= row.subrange(32, 52));
    assert(row.subrange(32, 52) =~= entries[i].sha1@);
    assert(data[p + 52] == row[52]);
    assert(data.subrange(p + 53, p + 61) =~= row.subrange(53, 61));
    assert(row.subrange(53, 61) =~= codec::le64(entries[i].offset));
}

/// An index by address is read where it holds the rows that it announces, and its rows
/// are read at their places.
#[verifier::spinoff_prover]
#[verifier::rlimit(40)]
pub proof fn lidx_rows_read(data: Seq<u8>, v: Seq<LidxEntry>, i: int)
    requires
        data.len() >= 4,
    ensures
        ({
            let n = data[0] + 256 * data[1] + 65536 * data[2] + 16777216 * data[3];
            let p = 4 + 61 * i;
            &&& git_pack_file::lidx_ok(data) <==> data.len() >= 4 + 61 * n
            &&& git_pack_file::lidx_holds(data, v) ==> v.len() == n
            &&& git_pack_file::lidx_holds(data, v) && 0 <= i < n && data.len() >= 4 + 61 * n ==> {
                &&& v[i].oid.bytes@ == data.subrange(p, p + 32)
                &&& v[i].sha1@ == data.subrange(p + 32, p + 52)
                &&& v[i].git_type == data[p + 52]
                &&& v[i].offset == data[p + 53] + 256 * data[p + 54] + 65536 * data[p + 55]
                    + 16777216 * data[p + 56] + 4294967296 * (data[p + 57] + 256 * data[p + 58]
                    + 65536 * data[p + 59] + 16777216 * data[p + 60])
            }
        }),
{
    let n = data[0] + 256 * data[1] + 65536 * data[2] + 16777216 * data[3];
    let p = 4 + 61 * i;
    assert(git_pack_file::lidx_count(data) == n);
    if git_pack_file::lidx_holds(data, v) && 0 <= i < n && data.len() >= 4 + 61 * n {
        assert(git_pack_file::lidx_row_is(data, i, v[i]));
        let o = data.subrange(p + 53, p + 61);
        assert(o.subrange(0, 4)[0] == data[p + 53] && o.subrange(0, 4)[1] == data[p + 54]
            && o.subrange(0, 4)[2] == data[p + 55] && o.subrange(0, 4)[3] == data[p + 56]);
        assert(o.subrange(4, 8)[0] == data[p + 57] && o.subrange(4, 8)[1] == data[p + 58]
            && o.subrange(4, 8)[2] == data[p + 59] && o.subrange(4, 8)[3] == data[p + 60]);
    }
}

/// Rows say where an object is, later rows over earlier ones.
pub proof fn rows_are_taken_over(entries: Seq<LidxEntry>, e: LidxEntry)
    ensures
        ({
            let v = git_pack_file::view_of(entries);
            let w = git_pack_file::view_of(entries.push(e));
            &&& w.by_oid == v.by_oid.insert(e.oid.bytes@, (e.git_type, e.offset))
            &&& w.sha1_to_offset == v.sha1_to_offset.insert(e.sha1@, e.offset)
            &&& w.sha1_to_oid == v.sha1_to_oid.insert(e.sha1@, e.oid)
            &&& w.oid_to_sha1 == v.oid_to_sha1.insert(e.oid.bytes@, e.sha1)
        }),
{
    assert(entries.push(e).drop_last() =~= entries);
}

/// How many names begin with a byte up to another is counted one by one.
pub proof fn fanout_counts(rows: Seq<IndexRow>, row: IndexRow, b: int)
    ensures
        git_pack::count_upto(Seq::empty(), b) == 0,
        git_pack::count_upto(rows.push(row), b) == git_pack::count_upto(rows, b) + if row.sha1@[0]
            <= b {
            1nat
        } else {
            0nat
        },
{
    assert(rows.push(row).drop_last() =~= rows);
}

/// The index by name: eight bytes of head, 256 numbers of four bytes, and for each row,
/// in the order of the names, the name, then the checksums, then the offsets; behind
/// them the checksum of the pack and that of the index.
#[verifier::spinoff_prover]
#[verifier::rlimit(40)]
pub proof fn idx_layout(rows: Seq<IndexRow>, pack_sha: Seq<u8>, b: int, i: int)
    requires
        pack_sha.len() == 20,
        digest::sha1_sum(git_pack::index_body(rows, pack_sha)).len() == 20,
        0 <= b < 256,
        0 <= i < rows.len(),
        rows.len() <= usize::MAX,
    ensures
        ({
            let idx = git_pack::index_image(rows, pack_sha);
            let row = git_pack::by_name(rows)[i];
            let n = rows.len() as int;
            &&& idx.len() == 1072 + 28 * n
            &&& idx.subrange(0, 8) == seq![255u8, 116, 79, 99, 0, 0, 0, 2]
            &&& idx.subrange(8 + 4 * b, 12 + 4 * b) == codec::be32(
                git_pack::count_upto(rows, b) as u32,
            )
            &&& idx.subrange(1032 + 20 * i, 1052 + 20 * i) == row.sha1@
            &&& idx.subrange(1032 + 20 * n + 4 * i, 1036 + 20 * n + 4 * i) == codec::be32(row.crc)
            &&& idx.subrange(1032 + 24 * n + 4 * i, 1036 + 24 * n + 4 * i) == codec::be32(
                row.offset as u32,
            )
            &&& idx.subrange(idx.len() - 40, idx.len() - 20) == pack_sha
            &&& idx.subrange(idx.len() - 20, idx.len() as int) == digest::sha1_sum(
                idx.subrange(0, idx.len() - 20),
            )
        }),
{
    reveal(git_pack::index_image);
    let idx = git_pack::index_image(rows, pack_sha);
    let body = git_pack::index_body(rows, pack_sha);
    let sorted = git_pack::by_name(rows);
    let n = rows.len() as int;
    let fan = git_pack::fanout(rows);
    let names = Seq::new(rows.len(), |i: int| sorted[i].sha1@);
    let crcs = Seq::new(rows.len(), |i: int| codec::be32(sorted[i].crc));
    let offs = Seq::new(rows.len(), |i: int| codec::be32(sorted[i].offset as u32));
    let head = seq![0xffu8, 0x74, 0x4f, 0x63] + codec::be32(2);
    let sum = digest::sha1_sum(body);
    assert forall|j: int| 0 <= j < fan.len() implies (#[trigger] fan[j]).len() == 4 by {}
    assert forall|j: int| 0 <= j < names.len() implies (#[trigger] names[j]).len() == 20 by {}
    assert forall|j: int| 0 <= j < crcs.len() implies (#[trigger] crcs[j]).len() == 4 by {}
    assert forall|j: int| 0 <= j < offs.len() implies (#[trigger] offs[j]).len() == 4 by {}
    lemma_part(fan, 4, b);
    lemma_part(names, 20, i);
    lemma_part(crcs, 4, i);
    lemma_part(offs, 4, i);
    assert(head =~= seq![255u8, 116, 79, 99, 0, 0, 0, 2]);
    let a1 = codec::join(fan);
    let a2 = codec::join(names);
    let a3 = codec::join(crcs);
    let a4 = codec::join(offs);
    lemma_parts_in_row(head, a1, a2, a3, a4, pack_sha, sum);
    lemma_inner(idx, 8, 1032, 4 * b, 4 * b + 4);
    lemma_inner(idx, 1032, 1032 + 20 * n, 20 * i, 20 * i + 20);
    lemma_inner(idx, 1032 + 20 * n, 1032 + 24 * n, 4 * i, 4 * i + 4);
    lemma_inner(idx, 1032 + 24 * n, 1032 + 28 * n, 4 * i, 4 * i + 4);
}

proof fn lemma_inner(s: Seq<u8>, from: int, to: int, a: int, b: int)
    requires
        0 <= from <= to <= s.len(),
        0 <= a <= b <= to - from,
    ensures
        s.subrange(from + a, from + b) == s.subrange(from, to).subrange(a, b),
{
    assert(s.subrange(from + a, from + b) =~= s.subrange(from, to).subrange(a, b));
}

proof fn lemma_middle(front: Seq<u8>, part: Seq<u8>, back: Seq<u8>)
    ensures
        (front + part + back).subrange(front.len() as int, (front.len() + part.len()) as int)
            == part,
{
    assert((front + part + back).subrange(
        front.len() as int,
        (front.len() + part.len()) as int,
    ) =~= part);
}

/// Parts that stand in a row are found where the lengths of those before them say.
#[verifier::spinoff_prover]
#[verifier::rlimit(40)]
proof fn lemma_parts_in_row(
    h: Seq<u8>,
    a: Seq<u8>,
    b: Seq<u8>,
    c: Seq<u8>,
    d: Seq<u8>,
    e: Seq<u8>,
    f: Seq<u8>,
)
    ensures
        ({
            let s = h + a + b + c + d + e + f;
            let p1 = h.len() as int;
            let p2 = p1 + a.len();
            let p3 = p2 + b.len();
            let p4 = p3 + c.len();
            let p5 = p4 + d.len();
            let p6 = p5 + e.len();
            &&& s.len() == p6 + f.len()
            &&& s.subrange(0, p1) == h
            &&& s.subrange(p1, p2) == a
            &&& s.subrange(p2, p3) == b
            &&& s.subrange(p3, p4) == c
            &&& s.subrange(p4, p5) == d
            &&& s.subrange(p5, p6) == e
            &&& s.subrange(p6, s.len() as int) == f
            &&& s.subrange(0, p6) == h + a + b + c + d + e
        }),
{
    let none = Seq::<u8>::empty();
    let s = h + a + b + c + d + e + f;
    let t6 = e + f;
    let t5 = d + t6;
    let t4 = c + t5;
    let t3 = b + t4;
    let t2 = a + t3;
    assert(s =~= h + a + b + c + d + t6);
    assert(s =~= h + a + b + c + t5);
    assert(s =~= h + a + b + t4);
    assert(s =~= h + a + t3);
    assert(s =~= none + h + t2);
    assert(s =~= (h + a + b + c + d + e) + f + none);
    assert(s =~= none + (h + a + b + c + d + e) + f);
    lemma_middle(none, h, t2);
    lemma_middle(h, a, t3);
    lemma_middle(h + a, b, t4);
    lemma_middle(h + a + b, c, t5);
    lemma_middle(h + a + b + c, d, t6);
    lemma_middle(h + a + b + c + d, e, f);
    lemma_middle(h + a + b + c + d + e, f, none);
    lemma_middle(none, h + a + b + c + d + e, f);
}

/// The rows of the index by name are those of the objects, in the order of their names.
#[verifier::rlimit(30)]
pub proof fn idx_order(rows: Seq<IndexRow>, a: int, b: int, i: int)
    requires
        rows.len() <= usize::MAX,
        0 <= a < b < rows.len(),
        0 <= i < rows.len(),
    ensures
        ({
            let sorted = git_pack::by_name(rows);
            &&& sorted.len() == rows.len()
            &&& !keytable::key_less(sorted[b].sha1@, sorted[a].sha1@)
            &&& sorted.contains(rows[i])
            &&& rows.contains(sorted[a])
        }),
{
    let keys = git_pack::row_ranks(rows);
    sorting::stable_order_exists(keys);
    let order = sorting::stable_order(keys);
    let sorted = git_pack::by_name(rows);
    let x = order[a] as int;
    let y = order[b] as int;
    assert(sorting::earlier(keys, x, y));
    if keytable::key_less(sorted[a].sha1@, sorted[b].sha1@) {
        keytable::key_less_antisymmetric(sorted[a].sha1@, sorted[b].sha1@);
    }
    assert(sorting::lists(order, i));
    let k = choose|k: int| 0 <= k < order.len() && #[trigger] order[k] == i;
    assert(sorted[k] == rows[i]);
    assert(rows[x] == sorted[a]);
}

/// The index of a pack has a row for each object, in the order in which they are
/// written: the name, where it begins, and the checksum of its bytes.
pub proof fn idx_rows_of_objects(objects: Seq<PackObject>, window: int, k: int)
    requires
        0 <= k < objects.len(),
    ensures
        ({
            let row = git_pack::index_rows(objects, window)[k];
            &&& git_pack::index_rows(objects, window).len() == objects.len()
            &&& row.sha1 == git_pack::written(objects, k).sha1
            &&& row.offset == git_pack::offset_at(objects, window, k) as u64
            &&& row.crc == zlib::crc_sum(git_pack::entry_at(objects, window, k))
        }),
{
}

/// Objects begin where the ones before them end; the first behind the twelve bytes of
/// the head.
#[verifier::spinoff_prover]
#[verifier::rlimit(40)]
pub proof fn offsets_add_up(objects: Seq<PackObject>, window: int, k: int)
    requires
        0 <= k < objects.len(),
    ensures
        git_pack::offset_at(objects, window, 0) == 12,
        git_pack::offset_at(objects, window, k + 1) == git_pack::offset_at(objects, window, k)
            + git_pack::entry_at(objects, window, k).len(),
        git_pack::pack_image(objects, window).subrange(
            git_pack::offset_at(objects, window, k) as int,
            git_pack::offset_at(objects, window, k + 1) as int,
        ) == git_pack::entry_at(objects, window, k),
{
    let all = git_pack::entries(objects, window);
    assert(all.subrange(0, 0) =~= Seq::<Seq<u8>>::empty());
    git_pack::lemma_pack_step(objects, window, k);
    codec::lemma_join_split(all, k);
    let head = git_pack::pack_head(objects.len());
    let body = git_pack::pack_body(objects, window);
    assert(all.subrange(0, objects.len() as int) =~= all);
    assert(body =~= git_pack::pack_upto(objects, window, k) + all[k] + codec::join(
        all.subrange(k + 1, all.len() as int),
    ));
    assert(all[k] == git_pack::entry_at(objects, window, k));
    assert(git_pack::pack_image(objects, window).subrange(
        git_pack::offset_at(objects, window, k) as int,
        git_pack::offset_at(objects, window, k + 1) as int,
    ) =~= all[k]);
}

// ---------------------------------------------------------------------------
// Record packs
// ---------------------------------------------------------------------------

/// A pack of records begins with "PACKL", a zero byte and the number 1; each record is
/// four bytes of length and its bytes.
#[verifier::spinoff_prover]
#[verifier::rlimit(40)]
pub proof fn record_pack_layout(records: Seq<Record>, k: int)
    requires
        0 <= k < records.len(),
        records[k].bytes@.len() <= 4294967295,
    ensures
        ({
            let data = pack::pack_image(records);
            let at = pack::pack_upto(records, k).len() as int;
            let bytes = records[k].bytes@;
            &&& data.subrange(0, 10) == seq![80u8, 65, 67, 75, 76, 0, 1, 0, 0, 0]
            &&& 10 <= at
            &&& k == 0 ==> at == 10
            &&& at + 4 + bytes.len() <= data.len()
            &&& data[at] + 256 * data[at + 1] + 65536 * data[at + 2] + 16777216 * data[at + 3]
                == bytes.len()
            &&& data.subrange(at + 4, at + 4 + bytes.len()) == bytes
        }),
{
    let images = pack::record_images(records);
    let data = pack::pack_image(records);
    let at = pack::pack_upto(records, k).len() as int;
    let bytes = records[k].bytes@;
    format_laws::bytes_weigh_number(1);
    format_laws::bytes_weigh_number(bytes.len() as u32);
    assert(images.subrange(0, records.len() as int) =~= images);
    codec::lemma_join_split(images, k);
    let head = pack::magic() + codec::le32(1);
    let tail = codec::join(images.subrange(k + 1, images.len() as int));
    assert(head =~= seq![80u8, 65, 67, 75, 76, 0, 1, 0, 0, 0]);
    assert(data.subrange(0, 10) =~= head);
    let image = images[k];
    let width = codec::le32(bytes.len() as u32);
    assert(data =~= pack::pack_upto(records, k) + image + tail);
    lemma_middle(pack::pack_upto(records, k), image, tail);
    let found = data.subrange(at, at + image.len());
    assert(image == width + bytes);
    assert(found[0] == width[0] && found[1] == width[1] && found[2] == width[2] && found[3]
        == width[3]);
    assert(found.subrange(4, found.len() as int) =~= bytes);
    lemma_inner(data, at, at + image.len(), 4, image.len() as int);
    if k == 0 {
        assert(images.subrange(0, 0) =~= Seq::<Seq<u8>>::empty());
    }
}

/// The index of a pack of records has four bytes for the number of rows, and 60 bytes
/// for each row: the address, the name and eight bytes for where the record begins.
#[verifier::spinoff_prover]
#[verifier::rlimit(40)]
pub proof fn record_index_layout(records: Seq<Record>, k: int)
    requires
        records.len() <= 4294967295,
        0 <= k < records.len(),
    ensures
        ({
            let idx = pack::index_image(records);
            let at = pack::pack_upto(records, k).len();
            let bytes = records[k].bytes@;
            let p = 4 + 60 * k;
            &&& idx.len() == 4 + 60 * records.len()
            &&& idx[0] + 256 * idx[1] + 65536 * idx[2] + 16777216 * idx[3] == records.len()
            &&& idx.subrange(p, p + 32) == records[k].id.bytes@
            &&& bytes.len() >= 20 ==> idx.subrange(p + 32, p + 52) == bytes.subrange(0, 20)
            &&& bytes.len() < 20 ==> idx.subrange(p + 32, p + 52) == Seq::new(20, |j: int| 0u8)
            &&& idx.subrange(p + 52, p + 60) == codec::le64(at as u64)
        }),
{
    let idx = pack::index_image(records);
    let at = pack::pack_upto(records, k).len();
    let bytes = records[k].bytes@;
    let p = 4 + 60 * k;
    format_laws::bytes_weigh_number(records.len() as u32);
    format_laws::bytes_weigh_long_number(at as u64);
    let rows = pack::index_rows(records);
    assert forall|j: int| 0 <= j < rows.len() implies (#[trigger] rows[j]).len() == 60 by {
        format_laws::bytes_weigh_long_number(pack::pack_upto(records, j).len() as u64);
    }
    lemma_part(rows, 60, k);
    let row = pack::index_row(records, k);
    assert(idx.subrange(p, p + 60) =~= codec::join(rows).subrange(60 * k, 60 * k + 60));
    assert(idx.subrange(p, p + 60) == row);
    assert(idx.subrange(p, p + 32) =~= row.subrange(0, 32));
    assert(row.subrange(0, 32) =~= records[k].id.bytes@);
    assert(idx.subrange(p + 32, p + 52) =~= row.subrange(32, 52));
    assert(row.subrange(32, 52) =~= pack::record_name(bytes));
    assert(idx.subrange(p + 52, p + 60) =~= row.subrange(52, 60));
    assert(row.subrange(52, 60) =~= codec::le64(at as u64));
}

/// A pack of records is opened where it begins as one does and its index is made of the
/// rows that it announces.
pub proof fn record_packs_open(data: Seq<u8>, idx: Seq<u8>)
    ensures
        pack::head_ok(data) <==> data.len() >= 10 && data[0] == 80 && data[1] == 65 && data[2] == 67
            && data[3] == 75 && data[4] == 76 && data[5] == 0,
        idx.len() >= 4 ==> (pack::index_ok(idx) <==> (idx.len() - 4) % 60 == 0 && idx.len() >= 4
            + 60 * (idx[0] + 256 * idx[1] + 65536 * idx[2] + 16777216 * idx[3])),
        idx.len() < 4 ==> !pack::index_ok(idx),
{
    if data.len() >= 10 {
        let head = data.subrange(0, 6);
        assert(head[0] == data[0] && head[1] == data[1] && head[2] == data[2] && head[3] == data[3]
            && head[4] == data[4] && head[5] == data[5]);
        if data[0] == 80 && data[1] == 65 && data[2] == 67 && data[3] == 75 && data[4] == 76
            && data[5] == 0 {
            assert(head =~= pack::magic());
        }
    }
}

/// An object of a pack is read from where the index says that it begins, and the bases
/// of deltas are found by their names.
pub proof fn packs_are_read_by_index(v: git_pack_file::PackView, data: Seq<u8>, id: Seq<u8>)
    ensures
        ({
            let r = git_pack_file::pack_read(v, data, id);
            let c = git_pack_file::packed_at(data, v.sha1_to_offset, v.by_oid[id].1, 0);
            &&& !v.by_oid.contains_key(id) ==> r == Ok::<Option<Seq<u8>>, Corruption>(None)
            &&& v.by_oid.contains_key(id) && c is Ok ==> r == Ok::<Option<Seq<u8>>, Corruption>(
                Some(c->Ok_0),
            )
            &&& v.by_oid.contains_key(id) && c is Err ==> r == Err::<Option<Seq<u8>>, Corruption>(
                c->Err_0,
            )
        }),
        ({
            let r = git_pack_file::pack_base(v, data, id);
            let offset = v.by_oid[id].1;
            let head = git_pack_file::header_at(data, offset as int);
            &&& !v.by_oid.contains_key(id) ==> r is Ok && r->Ok_0 is None
            &&& v.by_oid.contains_key(id) && offset <= data.len() && head is Some ==> {
                let (git_type, _, next) = head->0;
                let name = data.subrange(next, next + 20);
                &&& git_type != 7 ==> r is Ok && r->Ok_0 is None
                &&& git_type == 7 && next + 20 <= data.len() && v.sha1_to_oid.contains_key(name)
                    ==> r == Ok::<Option<crate::types::ObjectId>, Corruption>(
                    Some(v.sha1_to_oid[name]),
                )
                &&& git_type == 7 && next + 20 <= data.len() && !v.sha1_to_oid.contains_key(name)
                    ==> r is Ok && r->Ok_0 is None
            }
        }),
{
}

/// The rows of the index of a pack of records, later rows over earlier ones.
pub proof fn record_rows_read(idx: Seq<u8>, n: nat)
    ensures
        pack::rows_view(idx, 0).index == Map::<Seq<u8>, u64>::empty(),
        ({
            let v = pack::rows_view(idx, n);
            let w = pack::rows_view(idx, n + 1);
            let p: int = 4 + 60 * n as int;
            &&& w.index == v.index.insert(
                idx.subrange(p, p + 32),
                codec::from_le64(idx.subrange(p + 52, p + 60)) as u64,
            )
            &&& w.sha1_to_id == v.sha1_to_id.insert(
                idx.subrange(p + 32, p + 52),
                idx.subrange(p, p + 32),
            )
        }),
{
}

/// The body of a pack is at least twelve bytes long and begins with "PACK".
pub proof fn packs_begin_with_magic(data: Seq<u8>)
    ensures
        git_pack_file::has_pack_magic(data) <==> data.len() >= 12 && data[0] == 80 && data[1] == 65
            && data[2] == 67 && data[3] == 75,
{
    if data.len() >= 12 {
        let head = data.subrange(0, 4);
        assert(head[0] == data[0] && head[1] == data[1] && head[2] == data[2] && head[3]
            == data[3]);
        if data[0] == 80 && data[1] == 65 && data[2] == 67 && data[3] == 75 {
            assert(head =~= seq![80u8, 65, 67, 75]);
        }
    }
}

/// A record is four bytes of length and that many bytes; there is none where the pack
/// ends before.
pub proof fn records_are_read(data: Seq<u8>, offset: u64)
    ensures
        offset + 4 > data.len() ==> pack::record_at(data, offset) is None,
        offset + 4 <= data.len() ==> ({
            let p = offset as int;
            let n = data[p] + 256 * data[p + 1] + 65536 * data[p + 2] + 16777216 * data[p + 3];
            &&& pack::record_at(data, offset) is Some <==> p + 4 + n <= data.len()
            &&& p + 4 + n <= data.len() ==> pack::record_at(data, offset)->0 == data.subrange(
                p + 4,
                p + 4 + n,
            )
        }),
{
    if offset + 4 <= data.len() {
        let p = offset as int;
        let head = data.subrange(p, p + 4);
        assert(head[0] == data[p] && head[1] == data[p + 1] && head[2] == data[p + 2] && head[3]
            == data[p + 3]);
    }
}

/// A pack is too large exactly where an object would begin at two gigabytes or behind.
pub proof fn too_large_packs(objects: Seq<PackObject>, window: int)
    ensures
        git_pack::too_large(objects, window) <==> exists|k: int|
            0 <= k < objects.len() && #[trigger] git_pack::offset_at(objects, window, k)
                >= 2147483648,
{
    reveal(git_pack::too_large);
}

/// The index that is written with a pack has the rows of its objects and ends with the
/// checksum of the pack; the offsets are those of the objects in the order in which they
/// were given.
pub proof fn idx_belongs_to_pack(
    objects: Seq<PackObject>,
    window: int,
    data: Seq<u8>,
    idx: Seq<u8>,
    offsets: Seq<u64>,
    k: int,
)
    requires
        git_pack::pack_written(objects, window, data, idx, offsets),
        0 <= k < objects.len(),
    ensures
        data == git_pack::pack_image(objects, window),
        idx == git_pack::index_image(
            git_pack::index_rows(objects, window),
            data.subrange(data.len() - 20, data.len() as int),
        ),
        offsets[git_pack::write_order(objects)[k] as int] == git_pack::offset_at(
            objects,
            window,
            k,
        ),
{
    reveal(git_pack::pack_written);
    reveal(git_pack::offsets_given);
    let body = git_pack::pack_body(objects, window);
    assert(data.subrange(data.len() - 20, data.len() as int) =~= digest::sha1_sum(body));
    assert(offsets[git_pack::write_order(objects)[k] as int] == git_pack::offset_at(
        objects,
        window,
        k,
    ));
}

} // verus!
