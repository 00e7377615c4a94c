//! Byte-sequence primitives: comparison, slicing and fixed-width integers.

use vstd::prelude::*;

verus! {

/// `p` is a prefix of `s`.
pub open spec fn has_prefix(s: Seq<u8>, p: Seq<u8>) -> bool {
    p.len() <= s.len() && s.subrange(0, p.len() as int) == p
}

/// `p` is a suffix of `s`.
pub open spec fn has_suffix(s: Seq<u8>, p: Seq<u8>) -> bool {
    p.len() <= s.len() && s.subrange(s.len() - p.len(), s.len() as int) == p
}

/// `a` and `b` agree in their first `i` bytes, and `a` ends there or goes on with
/// the smaller byte.
pub open spec fn less_at(a: Seq<u8>, b: Seq<u8>, i: int) -> bool {
    &&& 0 <= i <= a.len()
    &&& i < b.len()
    &&& forall|j: int| 0 <= j < i ==> a[j] == b[j]
    &&& i < a.len() ==> a[i] < b[i]
}

/// `a` comes before `b` in lexicographic order.
pub open spec fn lex_less(a: Seq<u8>, b: Seq<u8>) -> bool {
    exists|i: int| less_at(a, b, i)
}

/// Lexicographic order is strict.
pub proof fn lex_less_strict(a: Seq<u8>, b: Seq<u8>)
    requires
        lex_less(a, b),
    ensures
        a != b,
        !lex_less(b, a),
{
    let i = choose|i: int| less_at(a, b, i);
    if lex_less(b, a) {
        let j = choose|j: int| less_at(b, a, j);
        if i < j {
            assert(b[i] == a[i]);
        }
        if j < i {
            assert(a[j] == b[j]);
        }
    }
}

/// The four bytes of `x`, least significant first.
pub open spec fn le32(x: u32) -> Seq<u8> {
    seq![
        (x % 256) as u8,
        (x / 256 % 256) as u8,
        (x / 65536 % 256) as u8,
        (x / 16777216) as u8,
    ]
}

/// The number written by four bytes, least significant first.
pub open spec fn from_le32(s: Seq<u8>) -> int {
    s[0] + s[1] * 256 + s[2] * 65536 + s[3] * 16777216
}

/// The four bytes of `x`, most significant first.
pub open spec fn be32(x: u32) -> Seq<u8> {
    seq![
        (x / 16777216) as u8,
        (x / 65536 % 256) as u8,
        (x / 256 % 256) as u8,
        (x % 256) as u8,
    ]
}

/// The eight bytes of `x`, least significant first.
pub open spec fn le64(x: u64) -> Seq<u8> {
    le32((x % 4294967296) as u32) + le32((x / 4294967296) as u32)
}

/// The number written by eight bytes, least significant first.
pub open spec fn from_le64(s: Seq<u8>) -> int {
    from_le32(s.subrange(0, 4)) + from_le32(s.subrange(4, 8)) * 4294967296
}

/// Reading back four little-endian bytes gives the number that was written.
pub proof fn le32_roundtrip(x: u32)
    ensures
        le32(x).len() == 4,
        from_le32(le32(x)) == x,
{
}

/// Reading back eight little-endian bytes gives the number that was written.
pub proof fn le64_roundtrip(x: u64)
    ensures
        le64(x).len() == 8,
        from_le64(le64(x)) == x,
{
    let lo: u32 = (x % 4294967296) as u32;
    let hi: u32 = (x / 4294967296) as u32;
    le32_roundtrip(lo);
    le32_roundtrip(hi);
    assert(lo + hi * 4294967296 == x);
    lemma_halves(le32(lo), le32(hi));
}

proof fn lemma_halves(a: Seq<u8>, b: Seq<u8>)
    requires
        a.len() == 4,
        b.len() == 4,
    ensures
        (a + b).subrange(0, 4) == a,
        (a + b).subrange(4, 8) == b,
{
    assert((a + b).subrange(0, 4) =~= a);
    assert((a + b).subrange(4, 8) =~= b);
}

/// Whether the two slices hold the same bytes.
pub fn bytes_equal(a: &[u8], b: &[u8]) -> (r: bool)
    ensures
        r == (a@ == b@),
{
    if a.len() != b.len() {
        return false;
    }
    let mut i: usize = 0;
    while i < a.len()
        invariant
            i <= a.len(),
            a.len() == b.len(),
            forall|j: int| 0 <= j < i ==> a@[j] == b@[j],
        decreases a.len() - i,
    {
        if a[i] != b[i] {
            return false;
        }
        i += 1;
    }
    assert(a@ =~= b@);
    true
}

/// Whether `s` ends with `p`.
pub fn ends_with(s: &[u8], p: &[u8]) -> (r: bool)
    ensures
        r == has_suffix(s@, p@),
{
    s.len() >= p.len() && bytes_equal(
        vstd::slice::slice_subrange(s, s.len() - p.len(), s.len()),
        p,
    )
}

/// Whether `s` begins with `p`.
pub fn starts_with(s: &[u8], p: &[u8]) -> (r: bool)
    ensures
        r == has_prefix(s@, p@),
{
    if s.len() < p.len() {
        return false;
    }
    bytes_equal(vstd::slice::slice_subrange(s, 0, p.len()), p)
}

/// Appends the bytes of `s` to `out`.
pub fn push_all(out: &mut Vec<u8>, s: &[u8])
    ensures
        final(out)@ == old(out)@ + s@,
{
    let ghost before = out@;
    out.extend_from_slice(s);
    assert(out@ =~= before + s@);
}

/// A copy of `s[from..to]`.
pub fn copy_range(s: &[u8], from: usize, to: usize) -> (r: Vec<u8>)
    requires
        from <= to <= s@.len(),
    ensures
        r@ == s@.subrange(from as int, to as int),
{
    vstd::slice::slice_to_vec(vstd::slice::slice_subrange(s, from, to))
}

/// A copy of `s`.
pub fn copy_bytes(s: &[u8]) -> (r: Vec<u8>)
    ensures
        r@ == s@,
{
    vstd::slice::slice_to_vec(s)
}

/// Appends `x` in four bytes, least significant first.
pub fn push_le32(out: &mut Vec<u8>, x: u32)
    ensures
        final(out)@ == old(out)@ + le32(x),
{
    let ghost before = out@;
    out.push((x % 256) as u8);
    out.push((x / 256 % 256) as u8);
    out.push((x / 65536 % 256) as u8);
    out.push((x / 16777216) as u8);
    assert(out@ =~= before + le32(x));
}

/// Appends `x` in four bytes, most significant first.
pub fn push_be32(out: &mut Vec<u8>, x: u32)
    ensures
        final(out)@ == old(out)@ + be32(x),
{
    let ghost before = out@;
    out.push((x / 16777216) as u8);
    out.push((x / 65536 % 256) as u8);
    out.push((x / 256 % 256) as u8);
    out.push((x % 256) as u8);
    assert(out@ =~= before + be32(x));
}

/// Appends `x` in eight bytes, least significant first.
pub fn push_le64(out: &mut Vec<u8>, x: u64)
    ensures
        final(out)@ == old(out)@ + le64(x),
{
    let ghost before = out@;
    push_le32(out, (x % 4294967296) as u32);
    push_le32(out, (x / 4294967296) as u32);
    assert(out@ =~= before + le64(x));
}

/// Reads the four little-endian bytes at `pos`.
pub fn read_le32(s: &[u8], pos: usize) -> (x: u32)
    requires
        pos + 4 <= s.len(),
    ensures
        x == from_le32(s@.subrange(pos as int, pos + 4)),
{
    s[pos] as u32 + s[pos + 1] as u32 * 256 + s[pos + 2] as u32 * 65536 + s[pos + 3] as u32
        * 16777216
}

/// Reads the eight little-endian bytes at `pos`.
pub fn read_le64(s: &[u8], pos: usize) -> (x: u64)
    requires
        pos + 8 <= s.len(),
    ensures
        x == from_le64(s@.subrange(pos as int, pos + 8)),
{
    let lo: u32 = read_le32(s, pos);
    let hi: u32 = read_le32(s, pos + 4);
    assert(s@.subrange(pos as int, pos + 8).subrange(0, 4) =~= s@.subrange(
        pos as int,
        pos + 4,
    ));
    assert(s@.subrange(pos as int, pos + 8).subrange(4, 8) =~= s@.subrange(pos + 4, pos + 8));
    lo as u64 + hi as u64 * 4294967296
}

/// Byte strings, one behind the other.
pub open spec fn join(parts: Seq<Seq<u8>>) -> Seq<u8>
    decreases parts.len(),
{
    if parts.len() == 0 {
        Seq::empty()
    } else {
        join(parts.drop_last()) + parts.last()
    }
}

/// The first `k + 1` parts are the first `k` and one more.
pub proof fn lemma_join_step(parts: Seq<Seq<u8>>, k: int)
    requires
        0 <= k < parts.len(),
    ensures
        join(parts.subrange(0, k + 1)) == join(parts.subrange(0, k)) + parts[k],
{
    assert(parts.subrange(0, k + 1).drop_last() =~= parts.subrange(0, k));
}

/// Each part stands behind those before it and in front of the others.
pub proof fn lemma_join_split(parts: Seq<Seq<u8>>, k: int)
    requires
        0 <= k < parts.len(),
    ensures
        join(parts) == join(parts.subrange(0, k)) + parts[k] + join(
            parts.subrange(k + 1, parts.len() as int),
        ),
    decreases parts.len(),
{
    let n = parts.len() as int;
    if k == n - 1 {
        assert(parts.drop_last() =~= parts.subrange(0, k));
        assert(parts.subrange(k + 1, n) =~= Seq::<Seq<u8>>::empty());
        assert(join(parts) =~= join(parts.subrange(0, k)) + parts[k] + join(
            parts.subrange(k + 1, n),
        ));
    } else {
        let short = parts.drop_last();
        lemma_join_split(short, k);
        assert(short.subrange(0, k) =~= parts.subrange(0, k));
        let tail = parts.subrange(k + 1, n);
        assert(tail.drop_last() =~= short.subrange(k + 1, n - 1));
        assert(tail.last() == parts.last());
        assert(join(parts) =~= join(parts.subrange(0, k)) + parts[k] + join(tail));
    }
}

/// Parts of one width make up that width times their number.
pub proof fn lemma_join_width(parts: Seq<Seq<u8>>, width: int)
    requires
        forall|i: int| 0 <= i < parts.len() ==> (#[trigger] parts[i]).len() == width,
    ensures
        join(parts).len() == width * parts.len(),
    decreases parts.len(),
{
    if parts.len() > 0 {
        let short = parts.drop_last();
        assert forall|i: int| 0 <= i < short.len() implies (#[trigger] short[i]).len() == width by {
            assert(short[i] == parts[i]);
        }
        lemma_join_width(short, width);
        assert(parts.last().len() == width);
        assert(width * parts.len() == width * (parts.len() - 1) + width) by (nonlinear_arith);
    }
}

} // verus!
