//! Deltas: how to rebuild one byte string from another. A delta holds the length
//! of the base, the length of the result, and instructions that copy from the base
//! or insert bytes. This is the form in which git packs hold them.

use vstd::prelude::*;
use crate::codec::push_all;
use crate::types::Corruption;
use crate::varint;
use crate::varint::{read_varint, write_varint};

verus! {

/// How many bytes a length may take.
pub const LENGTH_BYTES: u32 = 10;

/// The longest copy of one instruction.
pub const MAX_COPY: usize = 0xff_ffff;

/// The longest insertion of one instruction.
pub const MAX_INSERT: usize = 127;

/// The argument byte at `p`, if the instruction has it, and the position behind
/// it.
pub open spec fn argument(s: Seq<u8>, p: int, present: bool) -> (int, int) {
    if present {
        (
            if 0 <= p < s.len() {
                s[p] as int
            } else {
                0
            },
            p + 1,
        )
    } else {
        (0, p)
    }
}

/// The number whose `k` bytes follow from `p` on, least significant first; those
/// whose flag is not set are zero and left out. Also the position behind it.
pub open spec fn number_at(flags: int, s: Seq<u8>, p: int, k: nat) -> (int, int)
    decreases k,
{
    if k == 0 {
        (0, p)
    } else {
        let low = argument(s, p, flags % 2 == 1);
        let high = number_at(flags / 2, s, low.1, (k - 1) as nat);
        (low.0 + 256 * high.0, high.1)
    }
}

/// What a copy instruction with the arguments from `p` on copies: the place in the
/// base, the length, and the position behind the instruction. The low seven bits
/// of `op` say which bytes of the two numbers are there.
#[verifier::opaque]
pub open spec fn copy_arguments(op: u8, s: Seq<u8>, p: int) -> (int, int, int) {
    let at = number_at(op as int, s, p, 4);
    let len = number_at(op as int / 16, s, at.1, 3);
    (
        at.0,
        if len.0 == 0 {
            65536
        } else {
            len.0
        },
        len.1,
    )
}

/// What the instructions of `s` from `p` on produce.
pub open spec fn produced(base: Seq<u8>, s: Seq<u8>, p: int) -> Option<Seq<u8>>
    decreases s.len() - p,
{
    if p < 0 || p >= s.len() {
        Some(Seq::empty())
    } else if s[p] >= 128 {
        let (at, len, next) = copy_arguments(s[p], s, p + 1);
        if next > s.len() || at + len > base.len() || next <= p {
            None
        } else {
            match produced(base, s, next) {
                Some(rest) => Some(base.subrange(at, at + len) + rest),
                None => None,
            }
        }
    } else if s[p] == 0 || p + 1 + s[p] > s.len() {
        None
    } else {
        match produced(base, s, p + 1 + s[p]) {
            Some(rest) => Some(s.subrange(p + 1, p + 1 + s[p]) + rest),
            None => None,
        }
    }
}

/// What a delta makes of a base; nothing where the delta is malformed, was made
/// for a base of another length, or does not produce the announced length.
pub open spec fn applied(base: Seq<u8>, delta: Seq<u8>) -> Option<Seq<u8>> {
    match varint::varint_at(delta, 0, LENGTH_BYTES as nat) {
        Some((base_len, p)) => match varint::varint_at(delta, p, LENGTH_BYTES as nat) {
            Some((len, q)) => match produced(base, delta, q) {
                Some(out) => if base_len == base.len() && len == out.len() {
                    Some(out)
                } else {
                    None
                },
                None => None,
            },
            None => None,
        },
        None => None,
    }
}

fn read_argument(s: &[u8], p: usize, present: bool) -> (r: Option<(u64, usize)>)
    requires
        p <= s.len(),
    ensures
        match r {
            Some((v, next)) => argument(s@, p as int, present) == (v as int, next as int)
                && v < 256 && p <= next <= s.len(),
            None => present && p == s.len(),
        },
{
    if !present {
        Some((0, p))
    } else if p < s.len() {
        Some((s[p] as u64, p + 1))
    } else {
        None
    }
}

/// 256 to the power `k`.
spec fn byte_range(k: nat) -> nat
    decreases k,
{
    if k == 0 {
        1
    } else {
        256 * byte_range((k - 1) as nat)
    }
}

proof fn lemma_number_at(flags: int, s: Seq<u8>, p: int, k: nat)
    ensures
        number_at(flags, s, p, k).1 >= p,
    decreases k,
{
    if k > 0 {
        lemma_number_at(flags / 2, s, argument(s, p, flags % 2 == 1).1, (k - 1) as nat);
    }
}

fn read_number(flags: u8, s: &[u8], p: usize, k: u32) -> (r: Option<(u64, usize)>)
    requires
        p <= s.len(),
        k <= 4,
    ensures
        match r {
            Some((v, next)) => number_at(flags as int, s@, p as int, k as nat) == (
                v as int,
                next as int,
            ) && v < byte_range(k as nat) && p <= next <= s.len(),
            None => number_at(flags as int, s@, p as int, k as nat).1 > s.len(),
        },
    decreases k,
{
    proof {
        reveal_with_fuel(byte_range, 5);
    }
    if k == 0 {
        return Some((0, p));
    }
    let (low, next) = match read_argument(s, p, flags % 2 == 1) {
        Some(x) => x,
        None => {
            proof {
                lemma_number_at(flags as int / 2, s@, p + 1, (k - 1) as nat);
            }
            return None;
        },
    };
    match read_number(flags / 2, s, next, k - 1) {
        Some((high, end)) => Some((low + 256 * high, end)),
        None => None,
    }
}

fn read_copy(op: u8, s: &[u8], p: usize) -> (r: Option<(u64, u64, usize)>)
    requires
        p <= s.len(),
    ensures
        match r {
            Some((at, n, next)) => copy_arguments(op, s@, p as int) == (
                at as int,
                n as int,
                next as int,
            ) && p <= next <= s.len(),
            None => copy_arguments(op, s@, p as int).2 > s.len(),
        },
{
    reveal(copy_arguments);
    match read_number(op, s, p, 4) {
        Some((at, q)) => match read_number(op / 16, s, q, 3) {
            Some((len, next)) => Some(
                (
                    at,
                    if len == 0 {
                        65536
                    } else {
                        len
                    },
                    next,
                ),
            ),
            None => None,
        },
        None => {
            proof {
                let at = number_at(op as int, s@, p as int, 4);
                lemma_number_at(op as int / 16, s@, at.1, 3);
            }
            None
        },
    }
}

/// Carries out the instructions from position `q` on.
fn produce(base: &[u8], delta: &[u8], q: usize) -> (r: Option<Vec<u8>>)
    requires
        q <= delta.len(),
    ensures
        match r {
            Some(out) => produced(base@, delta@, q as int) == Some(out@),
            None => produced(base@, delta@, q as int) is None,
        },
{
    let mut out: Vec<u8> = Vec::new();
    let mut i: usize = q;
    proof {
        if let Some(rest) = produced(base@, delta@, i as int) {
            assert(out@ + rest =~= rest);
        }
    }
    while i < delta.len()
        invariant
            q <= i <= delta.len(),
            match produced(base@, delta@, i as int) {
                Some(rest) => produced(base@, delta@, q as int) == Some(out@ + rest),
                None => produced(base@, delta@, q as int) is None,
            },
        decreases delta.len() - i,
    {
        let op: u8 = delta[i];
        let ghost before = out@;
        if op >= 128 {
            let (at, n, next) = match read_copy(op, delta, i + 1) {
                Some(x) => x,
                None => {
                    return None;
                },
            };
            if n > base.len() as u64 || at > base.len() as u64 - n {
                return None;
            }
            let from: usize = at as usize;
            let to: usize = from + n as usize;
            push_all(&mut out, vstd::slice::slice_subrange(base, from, to));
            proof {
                if let Some(rest) = produced(base@, delta@, next as int) {
                    assert(before + (base@.subrange(from as int, to as int) + rest) =~= out@
                        + rest);
                }
            }
            i = next;
        } else {
            let n: usize = op as usize;
            if n == 0 || n > delta.len() - i - 1 {
                return None;
            }
            push_all(&mut out, vstd::slice::slice_subrange(delta, i + 1, i + 1 + n));
            proof {
                if let Some(rest) = produced(base@, delta@, i + 1 + n) {
                    assert(before + (delta@.subrange(i + 1, i + 1 + n) + rest) =~= out@ + rest);
                }
            }
            i = i + 1 + n;
        }
    }
    proof {
        assert(out@ + Seq::<u8>::empty() =~= out@);
    }
    Some(out)
}

/// Rebuilds a byte string from its base and a delta.
pub fn apply_delta(base: &[u8], delta: &[u8]) -> (r: Result<Vec<u8>, Corruption>)
    ensures
        match r {
            Ok(out) => applied(base@, delta@) == Some(out@),
            Err(e) => e == Corruption::Delta && applied(base@, delta@) is None,
        },
{
    let (base_len, p) = match read_varint(delta, 0, LENGTH_BYTES) {
        Some(x) => x,
        None => {
            return Err(Corruption::Delta);
        },
    };
    let (len, q) = match read_varint(delta, p, LENGTH_BYTES) {
        Some(x) => x,
        None => {
            return Err(Corruption::Delta);
        },
    };
    proof {
        varint::lemma_varint_at(delta@, p as int, LENGTH_BYTES as nat);
    }
    match produce(base, delta, q) {
        Some(out) => {
            if base_len != base.len() as u128 || len != out.len() as u128 {
                return Err(Corruption::Delta);
            }
            Ok(out)
        },
        None => Err(Corruption::Delta),
    }
}

// ---------------------------------------------------------------------------
// Making deltas
// ---------------------------------------------------------------------------

/// How many bytes `a` and `b` have in common at the start, from position `i` on.
pub open spec fn common_start(a: Seq<u8>, b: Seq<u8>, i: int) -> int
    decreases a.len() - i,
{
    if 0 <= i < a.len() && i < b.len() && a[i] == b[i] {
        1 + common_start(a, b, i + 1)
    } else {
        0
    }
}

/// How many bytes `a` and `b` have in common at the end, at most `limit`.
pub open spec fn common_end(a: Seq<u8>, b: Seq<u8>, limit: int) -> int
    decreases limit,
{
    if limit > 0 && a.len() > 0 && b.len() > 0 && a.last() == b.last() {
        1 + common_end(a.drop_last(), b.drop_last(), limit - 1)
    } else {
        0
    }
}

/// The instructions that copy `len` bytes from `at` on.
pub open spec fn copies(at: int, len: int) -> Seq<u8>
    decreases len,
{
    if len <= 0 {
        Seq::empty()
    } else {
        let n = if len <= MAX_COPY {
            len
        } else {
            MAX_COPY as int
        };
        copy_op(at, n) + copies(at + n, len - n)
    }
}

/// One copy instruction.
pub open spec fn copy_op(at: int, n: int) -> Seq<u8> {
    seq![
        255u8,
        (at % 256) as u8,
        (at / 256 % 256) as u8,
        (at / 65536 % 256) as u8,
        (at / 16777216 % 256) as u8,
        (n % 256) as u8,
        (n / 256 % 256) as u8,
        (n / 65536 % 256) as u8,
    ]
}

/// The instructions that insert `bytes`.
pub open spec fn inserts(bytes: Seq<u8>) -> Seq<u8>
    decreases bytes.len(),
{
    if bytes.len() == 0 {
        Seq::empty()
    } else {
        let n = if bytes.len() <= MAX_INSERT {
            bytes.len() as int
        } else {
            MAX_INSERT as int
        };
        seq![n as u8] + bytes.subrange(0, n) + inserts(bytes.subrange(n, bytes.len() as int))
    }
}

/// The start and the end that a delta copies from the base, in bytes. A base whose
/// places do not fit in four bytes is not copied from.
pub open spec fn shared(base: Seq<u8>, target: Seq<u8>) -> (int, int) {
    if base.len() > u32::MAX {
        (0, 0)
    } else {
        let start = common_start(base, target, 0);
        let room = if base.len() <= target.len() {
            base.len() - start
        } else {
            target.len() - start
        };
        (start, common_end(base, target, room))
    }
}

/// The delta from `base` to `target`: it copies what the two have in common at the
/// start and at the end, and inserts what lies between.
pub open spec fn delta_of(base: Seq<u8>, target: Seq<u8>) -> Seq<u8> {
    let (start, end) = shared(base, target);
    varint::varint(base.len()) + varint::varint(target.len()) + copies(0, start) + inserts(
        target.subrange(start, target.len() - end),
    ) + copies(base.len() - end, end)
}

proof fn lemma_common_start(a: Seq<u8>, b: Seq<u8>, i: int)
    requires
        0 <= i <= a.len(),
        i <= b.len(),
    ensures
        0 <= common_start(a, b, i) <= a.len() - i,
        common_start(a, b, i) <= b.len() - i,
        forall|j: int| i <= j < i + common_start(a, b, i) ==> a[j] == b[j],
    decreases a.len() - i,
{
    if i < a.len() && i < b.len() && a[i] == b[i] {
        lemma_common_start(a, b, i + 1);
    }
}

proof fn lemma_common_end(a: Seq<u8>, b: Seq<u8>, limit: int)
    requires
        0 <= limit <= a.len(),
        limit <= b.len(),
    ensures
        0 <= common_end(a, b, limit) <= limit,
        forall|j: int|
            0 <= j < common_end(a, b, limit) ==> a[a.len() - 1 - j] == #[trigger] b[b.len() - 1
                - j],
    decreases limit,
{
    if limit > 0 && a.last() == b.last() {
        let a2 = a.drop_last();
        let b2 = b.drop_last();
        lemma_common_end(a2, b2, limit - 1);
        assert forall|j: int| 0 <= j < common_end(a, b, limit) implies a[a.len() - 1 - j]
            == #[trigger] b[b.len() - 1 - j] by {
            if j > 0 {
                assert(b2[b2.len() - 1 - (j - 1)] == b[b.len() - 1 - j]);
                assert(a2[a2.len() - 1 - (j - 1)] == a[a.len() - 1 - j]);
            }
        }
    }
}

proof fn lemma_copy_op(at: int, n: int, before: Seq<u8>, rest: Seq<u8>)
    requires
        0 <= at <= u32::MAX,
        0 < n <= MAX_COPY,
    ensures
        copy_arguments(255, before + copy_op(at, n) + rest, before.len() as int + 1) == (
            at,
            n,
            before.len() as int + 8,
        ),
        (before + copy_op(at, n) + rest)[before.len() as int] == 255,
{
    reveal(copy_arguments);
    reveal_with_fuel(number_at, 5);
    let s = before + copy_op(at, n) + rest;
    let p = before.len() as int;
    let op = copy_op(at, n);
    assert forall|i: int| 0 <= i < 8 implies s[p + i] == #[trigger] op[i] by {}
    assert(s[p + 1] == op[1] && s[p + 2] == op[2] && s[p + 3] == op[3] && s[p + 4] == op[4]);
    assert(s[p + 5] == op[5] && s[p + 6] == op[6] && s[p + 7] == op[7]);
}

proof fn lemma_copies(base: Seq<u8>, at: int, len: int, before: Seq<u8>, rest: Seq<u8>)
    requires
        0 <= at,
        0 <= len,
        at + len <= base.len() <= u32::MAX,
    ensures
        match produced(base, before + copies(at, len) + rest, (before + copies(at, len)).len() as int)
        {
            Some(out) => produced(base, before + copies(at, len) + rest, before.len() as int)
                == Some(base.subrange(at, at + len) + out),
            None => true,
        },
    decreases len,
{
    let s = before + copies(at, len) + rest;
    let p = before.len() as int;
    let q = (before + copies(at, len)).len() as int;
    if len == 0 {
        assert(before + copies(at, len) =~= before);
        if let Some(out) = produced(base, s, q) {
            assert(base.subrange(at, at + len) + out =~= out);
        }
    } else {
        let n = if len <= MAX_COPY {
            len
        } else {
            MAX_COPY as int
        };
        let op = copy_op(at, n);
        let tail = copies(at + n, len - n);
        assert(s =~= before + op + (tail + rest));
        lemma_copy_op(at, n, before, tail + rest);
        lemma_copies(base, at + n, len - n, before + op, rest);
        assert((before + op) + tail + rest =~= s);
        assert((before + op + tail).len() == q);
        if let Some(out) = produced(base, s, q) {
            assert(base.subrange(at, at + n) + (base.subrange(at + n, at + len) + out)
                =~= base.subrange(at, at + len) + out);
        }
    }
}

proof fn lemma_inserts(base: Seq<u8>, bytes: Seq<u8>, before: Seq<u8>, rest: Seq<u8>)
    ensures
        match produced(base, before + inserts(bytes) + rest, (before + inserts(bytes)).len() as int)
        {
            Some(out) => produced(base, before + inserts(bytes) + rest, before.len() as int)
                == Some(bytes + out),
            None => true,
        },
    decreases bytes.len(),
{
    let s = before + inserts(bytes) + rest;
    let p = before.len() as int;
    let q = (before + inserts(bytes)).len() as int;
    if bytes.len() == 0 {
        assert(before + inserts(bytes) =~= before);
        if let Some(out) = produced(base, s, q) {
            assert(bytes + out =~= out);
        }
    } else {
        let n = if bytes.len() <= MAX_INSERT {
            bytes.len() as int
        } else {
            MAX_INSERT as int
        };
        let head = seq![n as u8] + bytes.subrange(0, n);
        let more = bytes.subrange(n, bytes.len() as int);
        let tail = inserts(more);
        assert(s =~= (before + head) + tail + rest);
        assert(s[p] == n);
        assert(s.subrange(p + 1, p + 1 + n) =~= bytes.subrange(0, n));
        lemma_inserts(base, more, before + head, rest);
        assert((before + head + tail).len() == q);
        if let Some(out) = produced(base, s, q) {
            assert(bytes.subrange(0, n) + (more + out) =~= bytes + out);
        }
    }
}

/// A delta rebuilds what it was made for.
pub proof fn delta_roundtrip(base: Seq<u8>, target: Seq<u8>)
    requires
        base.len() <= u64::MAX,
        target.len() <= u64::MAX,
    ensures
        applied(base, delta_of(base, target)) == Some(target),
{
    let (start, end) = shared(base, target);
    lemma_shared(base, target);
    let v1 = varint::varint(base.len());
    let v2 = varint::varint(target.len());
    let c1 = copies(0, start);
    let middle = target.subrange(start, target.len() - end);
    let ins = inserts(middle);
    let c2 = copies(base.len() - end, end);
    let d = delta_of(base, target);
    let none = Seq::<u8>::empty();
    varint::lemma_fits(base.len());
    varint::lemma_fits(target.len());
    varint::varint_roundtrip(base.len(), LENGTH_BYTES as nat, none, v2 + c1 + ins + c2);
    assert(d =~= none + v1 + (v2 + c1 + ins + c2));
    varint::varint_roundtrip(target.len(), LENGTH_BYTES as nat, v1, c1 + ins + c2);
    assert(d =~= v1 + v2 + (c1 + ins + c2));
    let h = v1 + v2;
    let q = h.len() as int;
    assert(d =~= h + c1 + (ins + c2));
    assert(d =~= (h + c1) + ins + c2);
    assert(d =~= (h + c1 + ins) + c2 + none);
    assert(produced(base, d, d.len() as int) == Some(none));
    if base.len() <= u32::MAX {
        lemma_copies(base, base.len() - end, end, h + c1 + ins, none);
        lemma_copies(base, 0, start, h, ins + c2);
    }
    lemma_inserts(base, middle, h + c1, c2);
    let tail = base.subrange(base.len() - end, base.len() as int);
    assert(tail + none =~= tail);
    assert(produced(base, d, (h + c1 + ins).len() as int) == Some(tail)) by {
        if base.len() > u32::MAX {
            assert(c2 =~= none);
            assert(tail =~= none);
        }
    }
    assert(produced(base, d, (h + c1).len() as int) == Some(middle + tail));
    assert(produced(base, d, q) == Some(base.subrange(0, start) + (middle + tail))) by {
        if base.len() > u32::MAX {
            assert(c1 =~= none);
            assert(base.subrange(0, start) + (middle + tail) =~= middle + tail);
        }
    }
    assert(base.subrange(0, start) + (middle + tail) =~= target) by {
        assert forall|i: int| 0 <= i < target.len() implies (base.subrange(0, start) + (middle
            + tail))[i] == target[i] by {
            if i >= target.len() - end {
                let j = target.len() - 1 - i;
                assert(target[target.len() - 1 - j] == base[base.len() - 1 - j]);
            }
        }
    }
}

proof fn lemma_shared(base: Seq<u8>, target: Seq<u8>)
    ensures
        ({
            let (start, end) = shared(base, target);
            &&& 0 <= start
            &&& 0 <= end
            &&& start + end <= base.len()
            &&& start + end <= target.len()
            &&& forall|j: int| 0 <= j < start ==> base[j] == target[j]
            &&& forall|j: int|
                0 <= j < end ==> base[base.len() - 1 - j] == #[trigger] target[target.len() - 1 - j]
            &&& base.len() > u32::MAX ==> start == 0 && end == 0
        }),
{
    if base.len() <= u32::MAX {
        lemma_common_start(base, target, 0);
        let start = common_start(base, target, 0);
        let room = if base.len() <= target.len() {
            base.len() - start
        } else {
            target.len() - start
        };
        lemma_common_end(base, target, room);
    }
}

fn count_common_start(a: &[u8], b: &[u8]) -> (r: usize)
    ensures
        r as int == common_start(a@, b@, 0),
        r <= a.len(),
        r <= b.len(),
{
    let mut i: usize = 0;
    while i < a.len() && i < b.len() && a[i] == b[i]
        invariant
            i <= a.len(),
            i <= b.len(),
            common_start(a@, b@, 0) == i + common_start(a@, b@, i as int),
        decreases a.len() - i,
    {
        i += 1;
    }
    i
}

fn count_common_end(a: &[u8], b: &[u8], limit: usize) -> (r: usize)
    requires
        limit <= a.len(),
        limit <= b.len(),
    ensures
        r as int == common_end(a@, b@, limit as int),
        r <= limit,
{
    let mut k: usize = 0;
    proof {
        assert(a@.subrange(0, a.len() as int) =~= a@);
        assert(b@.subrange(0, b.len() as int) =~= b@);
    }
    while k < limit && a[a.len() - 1 - k] == b[b.len() - 1 - k]
        invariant
            k <= limit <= a.len(),
            limit <= b.len(),
            common_end(a@, b@, limit as int) == k + common_end(
                a@.subrange(0, a.len() - k),
                b@.subrange(0, b.len() - k),
                limit - k,
            ),
        decreases limit - k,
    {
        proof {
            let a1 = a@.subrange(0, a.len() - k);
            let b1 = b@.subrange(0, b.len() - k);
            assert(a1.drop_last() =~= a@.subrange(0, a.len() - k - 1));
            assert(b1.drop_last() =~= b@.subrange(0, b.len() - k - 1));
        }
        k += 1;
    }
    k
}

fn push_copies(out: &mut Vec<u8>, at: usize, len: usize)
    requires
        at + len <= u32::MAX,
    ensures
        final(out)@ == old(out)@ + copies(at as int, len as int),
{
    let ghost start = out@;
    let mut from: usize = at;
    let mut left: usize = len;
    while left > 0
        invariant
            from + left <= u32::MAX,
            start + copies(at as int, len as int) == out@ + copies(from as int, left as int),
        decreases left,
    {
        let n: usize = if left <= MAX_COPY {
            left
        } else {
            MAX_COPY
        };
        let ghost so_far = out@;
        out.push(255);
        out.push((from % 256) as u8);
        out.push((from / 256 % 256) as u8);
        out.push((from / 65536 % 256) as u8);
        out.push((from / 16777216 % 256) as u8);
        out.push((n % 256) as u8);
        out.push((n / 256 % 256) as u8);
        out.push((n / 65536 % 256) as u8);
        proof {
            let f = from as int;
            let l = left as int;
            assert(out@ =~= so_far + copy_op(f, n as int));
            assert(so_far + copies(f, l) =~= out@ + copies(f + n, l - n));
        }
        from = from + n;
        left = left - n;
    }
    assert(out@ + copies(from as int, 0) =~= out@);
}

fn push_inserts(out: &mut Vec<u8>, bytes: &[u8], from: usize, to: usize)
    requires
        from <= to <= bytes.len(),
    ensures
        final(out)@ == old(out)@ + inserts(bytes@.subrange(from as int, to as int)),
{
    let ghost start = out@;
    let ghost all = bytes@.subrange(from as int, to as int);
    let mut at: usize = from;
    while at < to
        invariant
            from <= at <= to <= bytes.len(),
            start + inserts(all) == out@ + inserts(bytes@.subrange(at as int, to as int)),
        decreases to - at,
    {
        let n: usize = if to - at <= MAX_INSERT {
            to - at
        } else {
            MAX_INSERT
        };
        let ghost so_far = out@;
        let ghost left = bytes@.subrange(at as int, to as int);
        out.push(n as u8);
        push_all(out, vstd::slice::slice_subrange(bytes, at, at + n));
        proof {
            assert(left.subrange(0, n as int) =~= bytes@.subrange(at as int, at + n));
            assert(left.subrange(n as int, left.len() as int) =~= bytes@.subrange(
                at + n,
                to as int,
            ));
            assert(so_far + inserts(left) =~= out@ + inserts(bytes@.subrange(at + n, to as int)));
        }
        at = at + n;
    }
    proof {
        assert(bytes@.subrange(at as int, to as int) =~= Seq::<u8>::empty());
        assert(out@ + inserts(Seq::<u8>::empty()) =~= out@);
    }
}

/// Makes the delta from `base` to `target`. Applying it to `base` gives `target`.
pub fn encode_delta(base: &[u8], target: &[u8]) -> (r: Vec<u8>)
    ensures
        r@ == delta_of(base@, target@),
        applied(base@, r@) == Some(target@),
{
    let mut start: usize = 0;
    let mut end: usize = 0;
    if base.len() as u64 <= u32::MAX as u64 {
        start = count_common_start(base, target);
        let room: usize = if base.len() <= target.len() {
            base.len() - start
        } else {
            target.len() - start
        };
        end = count_common_end(base, target, room);
    }
    proof {
        lemma_shared(base@, target@);
        delta_roundtrip(base@, target@);
    }
    let mut out: Vec<u8> = Vec::new();
    write_varint(&mut out, base.len() as u64);
    write_varint(&mut out, target.len() as u64);
    assert(out@ =~= varint::varint(base@.len()) + varint::varint(target@.len()));
    if start > 0 {
        push_copies(&mut out, 0, start);
    }
    assert(out@ =~= varint::varint(base@.len()) + varint::varint(target@.len()) + copies(
        0,
        start as int,
    ));
    push_inserts(&mut out, target, start, target.len() - end);
    let ghost so_far = out@;
    if end > 0 {
        push_copies(&mut out, base.len() - end, end);
    }
    assert(out@ =~= so_far + copies(base.len() - end, end as int));
    out
}

} // verus!
