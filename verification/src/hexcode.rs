//! Hexadecimal spelling of bytes.

use vstd::prelude::*;

verus! {

/// `c` is a hexadecimal digit, in lower or upper case.
pub open spec fn is_digit(c: u8) -> bool {
    48 <= c <= 57 || 65 <= c <= 70 || 97 <= c <= 102
}

/// The value of a hexadecimal digit.
pub open spec fn digit_value(c: u8) -> int {
    if c <= 57 {
        c - 48
    } else if c <= 70 {
        c - 55
    } else {
        c - 87
    }
}

/// The bytes that `s` spells, two digits each, where `s` is an even number of
/// hexadecimal digits.
pub open spec fn decoded(s: Seq<u8>) -> Option<Seq<u8>> {
    if s.len() % 2 == 0 && forall|i: int| 0 <= i < s.len() ==> #[trigger] is_digit(s[i]) {
        Some(
            Seq::new(
                s.len() / 2,
                |i: int| (16 * digit_value(s[2 * i]) + digit_value(s[2 * i + 1])) as u8,
            ),
        )
    } else {
        None
    }
}

/// The lower-case digit of `n < 16`.
pub open spec fn digit_of(n: int) -> u8 {
    if n < 10 {
        (48 + n) as u8
    } else {
        (87 + n) as u8
    }
}

/// The lower-case spelling of `s`.
pub open spec fn encoded(s: Seq<u8>) -> Seq<u8> {
    Seq::new(
        2 * s.len(),
        |i: int| if i % 2 == 0 {
            digit_of(s[i / 2] as int / 16)
        } else {
            digit_of(s[i / 2] as int % 16)
        },
    )
}

/// Calls `hex::decode`, which is taken to succeed on exactly the even-length
/// strings of hexadecimal digits in either case, and to return the bytes that
/// they spell.
#[verifier::external_body]
pub(crate) fn decode(s: &[u8]) -> (r: Option<Vec<u8>>)
    ensures
        match r {
            Some(v) => decoded(s@) == Some(v@),
            None => decoded(s@) is None,
        },
{
    hex::decode(s).ok()
}

/// The lower-case spelling of `s`, in ASCII bytes.
pub fn encode(s: &[u8]) -> (r: Vec<u8>)
    ensures
        r@ == encoded(s@),
{
    let mut r: Vec<u8> = Vec::new();
    let mut i: usize = 0;
    while i < s.len()
        invariant
            i <= s.len(),
            r.len() == 2 * i,
            forall|j: int| 0 <= j < r.len() ==> r@[j] == encoded(s@)[j],
        decreases s.len() - i,
    {
        let hi: u8 = s[i] / 16;
        let lo: u8 = s[i] % 16;
        r.push(if hi < 10 { 48 + hi } else { 87 + hi });
        r.push(if lo < 10 { 48 + lo } else { 87 + lo });
        i += 1;
    }
    assert(r@ =~= encoded(s@));
    r
}

/// Decoding the spelling of some bytes gives the bytes back.
pub proof fn encode_decode(s: Seq<u8>)
    ensures
        decoded(encoded(s)) == Some(s),
{
    let e = encoded(s);
    assert(forall|i: int| 0 <= i < e.len() ==> #[trigger] is_digit(e[i]));
    assert forall|i: int| 0 <= i < s.len() implies #[trigger] (16 * digit_value(e[2 * i])
        + digit_value(e[2 * i + 1])) as u8 == s[i] by {
        assert((2 * i + 1) / 2 == i);
    }
    assert(decoded(e)->0 =~= s);
}

} // verus!
