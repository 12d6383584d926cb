//! Hexadecimal text.

use crate::utf8::lossy_text;
use vstd::prelude::*;
use vstd::utf8::{
    decode_utf8_encode_utf8, encode_utf8, is_leading_byte_width_1,
    partial_valid_utf8_extend_ascii_block, valid_utf8,
};

verus! {

/// The number that the hexadecimal digit `c` stands for, in either case.
pub open spec fn hex_value(c: u8) -> Option<u8> {
    if 0x30 <= c <= 0x39 {
        Some((c - 0x30) as u8)
    } else if 0x41 <= c <= 0x46 {
        Some((c - 0x41 + 10) as u8)
    } else if 0x61 <= c <= 0x66 {
        Some((c - 0x61 + 10) as u8)
    } else {
        None
    }
}

/// Whether every byte of `s` is a hexadecimal digit.
pub open spec fn all_hex(s: Seq<u8>) -> bool {
    forall|i: int| 0 <= i < s.len() ==> hex_value(#[trigger] s[i]).is_some()
}

/// The lower-case hexadecimal digit for a number below sixteen.
pub open spec fn hex_digit(n: u8) -> u8 {
    if n < 10 {
        (0x30 + n) as u8
    } else {
        (0x61 + n - 10) as u8
    }
}

/// The hexadecimal text of `s`: two lower-case digits for each byte, the
/// high half first.
pub open spec fn hex_text(s: Seq<u8>) -> Seq<u8> {
    Seq::new(
        2 * s.len(),
        |i: int|
            if i % 2 == 0 {
                hex_digit(s[i / 2] / 16)
            } else {
                hex_digit(s[i / 2] % 16)
            },
    )
}

/// The byte that two hexadecimal digits spell.
pub open spec fn hex_pair(hi: u8, lo: u8) -> u8 {
    (hex_value(hi).unwrap() * 16 + hex_value(lo).unwrap()) as u8
}

/// The number that the hexadecimal digit `c` stands for.
pub fn hex_to_int(c: u8) -> (r: Option<u8>)
    ensures
        r == hex_value(c),
        r matches Some(v) ==> v < 16,
{
    if c >= 0x30 && c <= 0x39 {
        Some(c - 0x30)
    } else if c >= 0x41 && c <= 0x46 {
        Some(c - 0x41 + 10)
    } else if c >= 0x61 && c <= 0x66 {
        Some(c - 0x61 + 10)
    } else {
        None
    }
}

/// Whether `s` consists of hexadecimal digits only.
pub fn is_hex(s: &[u8]) -> (r: bool)
    ensures
        r == all_hex(s@),
{
    let mut i: usize = 0;
    while i < s.len()
        invariant
            0 <= i <= s.len(),
            forall|j: int| 0 <= j < i ==> hex_value(#[trigger] s@[j]).is_some(),
        decreases s.len() - i,
    {
        if hex_to_int(s[i]).is_none() {
            return false;
        }
        i += 1;
    }
    true
}

/// How many pairs of hexadecimal digits stand in `s` one after the other,
/// from the pair with the index `k` on.
pub open spec fn pairs_from(s: Seq<u8>, k: nat) -> nat
    decreases s.len() - 2 * k,
{
    if 2 * k + 1 < s.len() && hex_value(s[2 * k as int]).is_some() && hex_value(
        s[2 * k as int + 1],
    ).is_some() {
        1 + pairs_from(s, k + 1)
    } else {
        0
    }
}

/// Where the first `k` pairs of `s` are pairs of hexadecimal digits, the
/// pairs that `s` starts with are these and those that follow them.
pub proof fn lemma_pairs_from(s: Seq<u8>, k: nat)
    requires
        2 * k <= s.len(),
        forall|j: int| 0 <= j < 2 * k ==> hex_value(#[trigger] s[j]).is_some(),
    ensures
        pairs_from(s, 0) == k + pairs_from(s, k),
    decreases k,
{
    if k > 0 {
        let before = (k - 1) as nat;
        lemma_pairs_from(s, before);
        assert(hex_value(s[2 * before as int]).is_some());
        assert(hex_value(s[2 * before as int + 1]).is_some());
    }
}

/// Reads pairs of hexadecimal digits from `s` into the front of `out`, as
/// many as `s` starts with, and leaves the rest of `out` as it was.
/// Succeeds where `s` holds an even number of hexadecimal digits and
/// nothing else.
pub fn from_hex(s: &[u8], out: &mut [u8]) -> (r: bool)
    requires
        s@.len() / 2 <= old(out)@.len(),
    ensures
        final(out)@.len() == old(out)@.len(),
        r == (s@.len() % 2 == 0 && all_hex(s@)),
        r ==> pairs_from(s@, 0) == s@.len() / 2,
        forall|j: int|
            0 <= j < pairs_from(s@, 0) ==> final(out)@[j] == hex_pair(s@[2 * j], s@[2 * j + 1]),
        forall|j: int| pairs_from(s@, 0) <= j < old(out)@.len() ==> final(out)@[j] == old(out)@[j],
{
    let mut i: usize = 0;
    while i < s.len()
        invariant
            0 <= i <= s.len(),
            i % 2 == 0,
            s@.len() / 2 <= old(out)@.len(),
            out@.len() == old(out)@.len(),
            forall|j: int| 0 <= j < i ==> hex_value(#[trigger] s@[j]).is_some(),
            forall|j: int| 0 <= j < i / 2 ==> out@[j] == hex_pair(s@[2 * j], s@[2 * j + 1]),
            forall|j: int| i / 2 <= j < out@.len() ==> out@[j] == old(out)@[j],
        decreases s.len() - i,
    {
        proof {
            lemma_pairs_from(s@, (i / 2) as nat);
        }
        let hi: u8 = match hex_to_int(s[i]) {
            Some(v) => v,
            None => {
                return false;
            },
        };
        if i + 1 == s.len() {
            return false;
        }
        let lo: u8 = match hex_to_int(s[i + 1]) {
            Some(v) => v,
            None => {
                return false;
            },
        };
        out[i / 2] = hi * 16 + lo;
        i += 2;
    }
    proof {
        lemma_pairs_from(s@, (i / 2) as nat);
    }
    true
}

/// The bytes of the hexadecimal text of `s`.
pub fn to_hex_bytes(s: &[u8]) -> (r: Vec<u8>)
    ensures
        r@ == hex_text(s@),
{
    let mut v: Vec<u8> = Vec::new();
    let mut i: usize = 0;
    while i < s.len()
        invariant
            0 <= i <= s.len(),
            v@.len() == 2 * i,
            forall|j: int| 0 <= j < 2 * i ==> v@[j] == hex_text(s@)[j],
        decreases s.len() - i,
    {
        let c: u8 = s[i];
        let hi: u8 = c / 16;
        let lo: u8 = c % 16;
        v.push(if hi < 10 {
            0x30 + hi
        } else {
            0x61 + hi - 10
        });
        v.push(if lo < 10 {
            0x30 + lo
        } else {
            0x61 + lo - 10
        });
        i += 1;
    }
    proof {
        assert(v@ =~= hex_text(s@));
    }
    v
}

/// Hexadecimal text is plain ASCII and so valid UTF-8.
pub proof fn lemma_hex_text_is_text(s: Seq<u8>)
    ensures
        valid_utf8(hex_text(s)),
{
    let t = hex_text(s);
    assert forall|i: int| 0 <= i < t.len() implies #[trigger] is_leading_byte_width_1(t[i]) by {
        let d = t[i];
        assert(d < 0x80);
    }
    assert(t.subrange(0, 0) =~= Seq::<u8>::empty());
    partial_valid_utf8_extend_ascii_block(t, 0, t.len() as int);
    assert(t.subrange(0, t.len() as int) =~= t);
}

/// The hexadecimal text of `s`, in lower case.
pub fn to_hex(s: &[u8]) -> (r: String)
    ensures
        encode_utf8(r@) == hex_text(s@),
{
    let v = to_hex_bytes(s);
    proof {
        lemma_hex_text_is_text(s@);
        decode_utf8_encode_utf8(v@);
    }
    lossy_text(v.as_slice())
}

} // verus!
