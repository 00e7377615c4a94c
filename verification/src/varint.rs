//! Numbers in groups of seven bits, least significant group first; every byte but
//! the last has its high bit set.

use vstd::prelude::*;

verus! {

/// The bytes that write `n`.
pub open spec fn varint(n: nat) -> Seq<u8>
    decreases n,
{
    if n < 128 {
        seq![n as u8]
    } else {
        seq![(n % 128 + 128) as u8] + varint(n / 128)
    }
}

/// The number written in `s` from position `p`, and the position behind it; none
/// where `s` ends too early or the number takes more than `fuel` bytes.
pub open spec fn varint_at(s: Seq<u8>, p: int, fuel: nat) -> Option<(nat, int)>
    decreases fuel,
{
    if fuel == 0 || p < 0 || p >= s.len() {
        None
    } else if s[p] < 128 {
        Some((s[p] as nat, p + 1))
    } else {
        match varint_at(s, p + 1, (fuel - 1) as nat) {
            Some((high, next)) => Some(((s[p] - 128) as nat + 128 * high, next)),
            None => None,
        }
    }
}

/// 128 to the power `n`.
pub open spec fn groups(n: nat) -> nat
    decreases n,
{
    if n == 0 {
        1
    } else {
        128 * groups((n - 1) as nat)
    }
}

/// What is read lies behind `p`, inside `s`, and fits in `fuel` groups.
pub proof fn lemma_varint_at(s: Seq<u8>, p: int, fuel: nat)
    ensures
        varint_at(s, p, fuel) matches Some((n, next)) ==> n < groups(fuel) && p < next <= s.len()
            && next <= p + fuel,
    decreases fuel,
{
    if fuel > 0 && 0 <= p < s.len() {
        if s[p] < 128 {
            assert(groups((fuel - 1) as nat) >= 1) by {
                lemma_groups((fuel - 1) as nat);
            }
        } else {
            lemma_varint_at(s, p + 1, (fuel - 1) as nat);
        }
    }
}

proof fn lemma_groups(n: nat)
    ensures
        groups(n) >= 1,
    decreases n,
{
    if n > 0 {
        lemma_groups((n - 1) as nat);
    }
}

/// A number that was written is read back, whatever follows it.
pub proof fn varint_roundtrip(n: nat, fuel: nat, before: Seq<u8>, rest: Seq<u8>)
    requires
        1 <= fuel,
        n < groups(fuel),
    ensures
        varint_at(before + varint(n) + rest, before.len() as int, fuel) == Some(
            (n, (before.len() + varint(n).len()) as int),
        ),
    decreases n,
{
    let s = before + varint(n) + rest;
    assert(s[before.len() as int] == varint(n)[0]);
    if n >= 128 {
        let head = seq![(n % 128 + 128) as u8];
        assert(s =~= (before + head) + varint(n / 128) + rest);
        if fuel == 1 {
            assert(groups(0) == 1);
        }
        varint_roundtrip(n / 128, (fuel - 1) as nat, before + head, rest);
    }
}

/// Ten groups fit in 70 bits.
pub proof fn lemma_group_bounds(n: nat)
    requires
        n <= 10,
    ensures
        groups(n) <= 0x40_0000_0000_0000_0000,
{
    reveal_with_fuel(groups, 11);
}

/// Appends a number.
pub fn write_varint(out: &mut Vec<u8>, n: u64)
    ensures
        final(out)@ == old(out)@ + varint(n as nat),
{
    let mut left: u64 = n;
    let ghost start = out@;
    while left >= 128
        invariant
            start + varint(n as nat) == out@ + varint(left as nat),
        decreases left,
    {
        let ghost so_far = out@;
        out.push((left % 128 + 128) as u8);
        assert(so_far + varint(left as nat) =~= out@ + varint((left / 128) as nat));
        left = left / 128;
    }
    let ghost so_far = out@;
    out.push(left as u8);
    assert(out@ =~= so_far + varint(left as nat));
}

/// Reads a number of at most `fuel` bytes, and the position behind it.
pub fn read_varint(s: &[u8], pos: usize, fuel: u32) -> (r: Option<(u128, usize)>)
    requires
        fuel <= 10,
    ensures
        match r {
            Some((n, next)) => varint_at(s@, pos as int, fuel as nat) == Some(
                (n as nat, next as int),
            ) && n < groups(fuel as nat),
            None => varint_at(s@, pos as int, fuel as nat) is None,
        },
    decreases fuel,
{
    proof {
        lemma_varint_at(s@, pos as int, fuel as nat);
        lemma_group_bounds(fuel as nat);
    }
    if fuel == 0 || pos >= s.len() {
        return None;
    }
    let b: u8 = s[pos];
    if b < 128 {
        return Some((b as u128, pos + 1));
    }
    proof {
        lemma_group_bounds((fuel - 1) as nat);
    }
    match read_varint(s, pos + 1, fuel - 1) {
        Some((high, next)) => Some(((b - 128) as u128 + 128 * high, next)),
        None => None,
    }
}

/// Every number of 64 bits takes at most ten bytes.
pub proof fn lemma_fits(n: nat)
    requires
        n <= u64::MAX,
    ensures
        n < groups(10),
{
    reveal_with_fuel(groups, 11);
}

} // verus!
