//! Helpers for byte strings: splitting, trimming, and the escapes and the
//! base 32 of magnet links.

use crate::hex::{hex_to_int, hex_value};
use crate::text::{all_digits, digits_value, parse_digits};
use crate::utf8::text_of;
use vstd::prelude::*;
use vstd::utf8::valid_utf8;

verus! {

/// Why a link or one of its parts is not accepted.
#[derive(Debug, Clone, Copy, PartialEq, Eq)]
pub enum Error {
    InvalidUrl,
    UnsupportedUrlProtocol,
    InvalidEscapedString,
    InvalidInfoHash,
    ParseInt,
    ParseString,
    ParseEndpoint,
    InvalidPort,
    ExpectedCloseBracketInAddr,
    MissingInfoHash,
}

/// The first index from `from` on at which `s` holds `b`, or the length of
/// `s` where there is none.
pub open spec fn index_from(s: Seq<u8>, from: int, b: u8) -> int
    decreases s.len() - from,
{
    if from < 0 || from >= s.len() {
        s.len() as int
    } else if s[from] == b {
        from
    } else {
        index_from(s, from + 1, b)
    }
}

/// Where the search for the separator starts: at the quote that closes a
/// quoted start, at the last byte where the quote is not closed, and at the
/// front where `s` does not start with a quote or the quote is itself the
/// separator.
pub open spec fn quote_skip(s: Seq<u8>, separator: u8) -> int {
    if s.len() > 0 && s[0] == 0x22 && separator != 0x22 {
        if index_from(s, 1, 0x22) < s.len() {
            index_from(s, 1, 0x22)
        } else {
            s.len() - 1
        }
    } else {
        0
    }
}

/// Where `s` is split: at the first separator that does not stand in a
/// quoted start.
pub open spec fn split_point(s: Seq<u8>, separator: u8) -> int {
    index_from(s, quote_skip(s, separator), separator)
}

fn find_from(s: &[u8], from: usize, b: u8) -> (r: usize)
    requires
        from <= s@.len(),
    ensures
        r == index_from(s@, from as int, b),
        from <= r <= s@.len(),
{
    let mut i: usize = from;
    while i < s.len()
        invariant
            from <= i <= s@.len(),
            index_from(s@, from as int, b) == index_from(s@, i as int, b),
        decreases s@.len() - i,
    {
        if s[i] == b {
            return i;
        }
        i += 1;
    }
    i
}

/// Splits `s` at the first `separator` that does not stand in a quoted
/// start: what stands before it, and what stands after it. Without such a
/// separator the second part is empty.
pub fn split_string(s: &[u8], separator: u8) -> (r: (&[u8], &[u8]))
    ensures
        r.0@ == s@.take(split_point(s@, separator)),
        r.1@ == if split_point(s@, separator) < s@.len() {
            s@.skip(split_point(s@, separator) + 1)
        } else {
            Seq::<u8>::empty()
        },
{
    if s.len() == 0 {
        proof {
            assert(s@.take(0) =~= s@);
        }
        return (s, s);
    }
    let mut pos: usize = 0;
    if s[0] == 0x22 && separator != 0x22 {
        let q = find_from(s, 1, 0x22);
        pos = if q < s.len() {
            q
        } else {
            s.len() - 1
        };
    }
    let p = find_from(s, pos, separator);
    let found_sep: usize = if p < s.len() {
        1
    } else {
        0
    };
    let head = vstd::slice::slice_subrange(s, 0, p);
    let tail = vstd::slice::slice_subrange(s, p + found_sep, s.len());
    proof {
        assert(head@ =~= s@.take(p as int));
        if p < s@.len() {
            assert(tail@ =~= s@.skip(p + 1));
        } else {
            assert(tail@ =~= Seq::<u8>::empty());
        }
    }
    (head, tail)
}

/// The bytes that an escaped string stands for, from `from` on: a plus sign
/// stands for a blank, a percent sign with two hexadecimal digits for the
/// byte that they spell, every other byte for itself. `None` where a
/// percent sign lacks its two digits.
pub open spec fn unescaped(s: Seq<u8>, from: int) -> Option<Seq<u8>>
    decreases s.len() - from,
{
    if from < 0 || from >= s.len() {
        Some(Seq::empty())
    } else if s[from] == 0x2b {
        match unescaped(s, from + 1) {
            Some(r) => Some(seq![0x20u8] + r),
            None => None,
        }
    } else if s[from] != 0x25 {
        match unescaped(s, from + 1) {
            Some(r) => Some(seq![s[from]] + r),
            None => None,
        }
    } else if from + 2 >= s.len() || hex_value(s[from + 1]).is_none() || hex_value(
        s[from + 2],
    ).is_none() {
        None
    } else {
        match unescaped(s, from + 3) {
            Some(r) => Some(
                seq![(hex_value(s[from + 1]).unwrap() * 16 + hex_value(s[from + 2]).unwrap()) as u8]
                    + r,
            ),
            None => None,
        }
    }
}

/// The bytes that the escaped string `s` stands for.
pub fn unescape_bytes(s: &[u8]) -> (r: Result<Vec<u8>, Error>)
    ensures
        match unescaped(s@, 0) {
            Some(bytes) => r.is_ok() && r.unwrap()@ == bytes,
            None => r == Err::<Vec<u8>, Error>(Error::InvalidEscapedString),
        },
{
    let mut v: Vec<u8> = Vec::new();
    let mut i: usize = 0;
    while i < s.len()
        invariant
            0 <= i <= s@.len(),
            unescaped(s@, 0) == match unescaped(s@, i as int) {
                Some(rest) => Some(v@ + rest),
                None => None,
            },
        decreases s@.len() - i,
    {
        let ghost before = v@;
        let c = s[i];
        if c == 0x2b {
            v.push(0x20);
            proof {
                if unescaped(s@, i + 1).is_some() {
                    let rest = unescaped(s@, i + 1).unwrap();
                    assert(before + (seq![0x20u8] + rest) =~= v@ + rest);
                }
            }
            i += 1;
        } else if c != 0x25 {
            v.push(c);
            proof {
                if unescaped(s@, i + 1).is_some() {
                    let rest = unescaped(s@, i + 1).unwrap();
                    assert(before + (seq![c] + rest) =~= v@ + rest);
                }
            }
            i += 1;
        } else {
            if s.len() - i < 3 {
                return Err(Error::InvalidEscapedString);
            }
            let hi = match hex_to_int(s[i + 1]) {
                Some(h) => h,
                None => {
                    return Err(Error::InvalidEscapedString);
                },
            };
            let lo = match hex_to_int(s[i + 2]) {
                Some(l) => l,
                None => {
                    return Err(Error::InvalidEscapedString);
                },
            };
            v.push(hi * 16 + lo);
            proof {
                if unescaped(s@, i + 3).is_some() {
                    let rest = unescaped(s@, i + 3).unwrap();
                    assert(before + (seq![(hi * 16 + lo) as u8] + rest) =~= v@ + rest);
                }
            }
            i += 3;
        }
    }
    proof {
        assert(v@ + Seq::<u8>::empty() =~= v@);
    }
    Ok(v)
}

/// The text that the escaped string `s` stands for. It fails where the
/// escapes are malformed or the bytes are no valid UTF-8.
pub fn unescape_string(s: &[u8]) -> (r: Result<String, Error>)
    ensures
        match unescaped(s@, 0) {
            Some(bytes) => if valid_utf8(bytes) {
                r.is_ok() && vstd::utf8::encode_utf8(r.unwrap()@) == bytes
            } else {
                r == Err::<String, Error>(Error::InvalidEscapedString)
            },
            None => r == Err::<String, Error>(Error::InvalidEscapedString),
        },
{
    let v = match unescape_bytes(s) {
        Ok(v) => v,
        Err(e) => {
            return Err(e);
        },
    };
    match text_of(v.as_slice()) {
        Some(t) => Ok(t.to_owned()),
        None => Err(Error::InvalidEscapedString),
    }
}

/// The upper-case form of an ASCII letter; every other byte as it is.
pub fn to_upper(c: u8) -> (r: u8)
    ensures
        r == if 0x61 <= c <= 0x7a {
            (c - 0x20) as u8
        } else {
            c
        },
{
    if c >= 0x61 && c <= 0x7a {
        c - 0x61 + 0x41
    } else {
        c
    }
}

/// Whether `c` is an ASCII digit.
pub fn is_digit(c: u8) -> (r: bool)
    ensures
        r == (0x30 <= c <= 0x39),
{
    c >= 0x30 && c <= 0x39
}

/// Whether `c` is a blank, a carriage return, a line feed or a tab.
pub open spec fn is_space(c: u8) -> bool {
    c == 0x20 || c == 0x0d || c == 0x0a || c == 0x09
}

/// Whether `c` is a blank, a carriage return, a line feed or a tab.
pub fn is_whitespace(c: u8) -> (r: bool)
    ensures
        r == is_space(c),
{
    c == 0x20 || c == 0x0d || c == 0x0a || c == 0x09
}

/// The number that the text `s` denotes: an optional sign, then one or more
/// digits, within the range of the machine's signed word.
pub open spec fn signed_of_text(s: Seq<u8>) -> Option<isize> {
    let signed = s.len() > 0 && (s[0] == 0x2d || s[0] == 0x2b);
    let negative = s.len() > 0 && s[0] == 0x2d;
    let d = if signed {
        s.skip(1)
    } else {
        s
    };
    if d.len() == 0 || !all_digits(d) {
        None
    } else if negative {
        if digits_value(d) <= -(isize::MIN as int) {
            Some((-(digits_value(d) as int)) as isize)
        } else {
            None
        }
    } else {
        if digits_value(d) <= isize::MAX {
            Some(digits_value(d) as isize)
        } else {
            None
        }
    }
}

/// The number that the text `s` denotes.
pub fn parse_int(s: &[u8]) -> (r: Result<isize, Error>)
    ensures
        r == match signed_of_text(s@) {
            Some(n) => Ok::<isize, Error>(n),
            None => Err::<isize, Error>(Error::ParseInt),
        },
{
    if s.len() == 0 {
        return Err(Error::ParseInt);
    }
    let negative = s[0] == 0x2d;
    let signed = negative || s[0] == 0x2b;
    let d: &[u8] = if signed {
        vstd::slice::slice_subrange(s, 1, s.len())
    } else {
        s
    };
    proof {
        if signed {
            assert(d@ =~= s@.skip(1));
        }
    }
    let most: u64 = isize::MAX as u64;
    if negative {
        match parse_digits(d, most + 1) {
            Some(m) => {
                if m == most + 1 {
                    Ok(isize::MIN)
                } else {
                    Ok(-(m as isize))
                }
            },
            None => Err(Error::ParseInt),
        }
    } else {
        match parse_digits(d, most) {
            Some(m) => Ok(m as isize),
            None => Err(Error::ParseInt),
        }
    }
}

/// The first index from `from` on at which `s` holds no white space, or
/// the length of `s`.
pub open spec fn first_kept(s: Seq<u8>, from: int) -> int
    decreases s.len() - from,
{
    if from < 0 || from >= s.len() {
        s.len() as int
    } else if !is_space(s[from]) {
        from
    } else {
        first_kept(s, from + 1)
    }
}

/// The end of what is kept of the first `upto` bytes of `s`: the index
/// after the last byte that is no white space, or zero.
pub open spec fn end_kept(s: Seq<u8>, upto: int) -> int
    decreases upto,
{
    if upto <= 0 || upto > s.len() {
        0
    } else if !is_space(s[upto - 1]) {
        upto
    } else {
        end_kept(s, upto - 1)
    }
}

/// The bytes of `s` without the white space at both ends.
pub fn trim(s: &[u8]) -> (r: &[u8])
    ensures
        r@ == if first_kept(s@, 0) >= s@.len() {
            Seq::<u8>::empty()
        } else {
            s@.subrange(first_kept(s@, 0), end_kept(s@, s@.len() as int))
        },
{
    let mut a: usize = 0;
    while a < s.len() && is_whitespace(s[a])
        invariant
            0 <= a <= s@.len(),
            first_kept(s@, 0) == first_kept(s@, a as int),
        decreases s@.len() - a,
    {
        a += 1;
    }
    if a == s.len() {
        let r = vstd::slice::slice_subrange(s, 0, 0);
        proof {
            assert(r@ =~= Seq::<u8>::empty());
        }
        return r;
    }
    let mut b: usize = s.len();
    while b > a + 1 && is_whitespace(s[b - 1])
        invariant
            a < b <= s@.len(),
            !is_space(s@[a as int]),
            end_kept(s@, s@.len() as int) == end_kept(s@, b as int),
        decreases b,
    {
        b -= 1;
    }
    vstd::slice::slice_subrange(s, a, b)
}

/// The number that a letter or digit of base 32 stands for; 32 for the
/// padding sign, and `None` for anything else. A one is read as the letter
/// I, and the case of a letter does not count.
pub open spec fn base32_value(c: u8) -> Option<u8> {
    let u = if 0x61 <= c <= 0x7a {
        (c - 0x20) as u8
    } else {
        c
    };
    if 0x41 <= u <= 0x5a {
        Some((u - 0x41) as u8)
    } else if 0x32 <= u <= 0x37 {
        Some((u - 0x32 + 26) as u8)
    } else if u == 0x3d {
        Some(32u8)
    } else if u == 0x31 {
        Some(8u8)
    } else {
        None
    }
}

/// How many bytes a group holds in which the padding starts at `pad_start`,
/// zero standing for a group without padding.
pub open spec fn group_bytes(pad_start: int) -> int {
    if pad_start == 0 || pad_start == 8 {
        5
    } else if pad_start <= 2 {
        1
    } else if pad_start <= 4 {
        2
    } else if pad_start == 5 {
        3
    } else {
        4
    }
}

/// The five bytes that eight numbers below 32 spell.
pub open spec fn group_of(n: Seq<u8>) -> Seq<u8> {
    seq![
        (n[0] << 3) | (n[1] >> 2),
        ((n[1] & 0x3) << 6) | (n[2] << 1) | ((n[3] & 0x10) >> 4),
        ((n[3] & 0x0f) << 4) | ((n[4] & 0x1e) >> 1),
        ((n[4] & 0x01) << 7) | ((n[5] & 0x1f) << 2) | ((n[6] & 0x18) >> 3),
        ((n[6] & 0x07) << 5) | n[7],
    ]
}

/// The numbers of the `available` signs of `s` from `from` on, with zeros
/// in place of the padding and up to eight in all; `None` where a sign is
/// not of base 32.
pub open spec fn group_values(s: Seq<u8>, from: int, available: int, upto: int) -> Option<Seq<u8>>
    decreases upto,
{
    if upto <= 0 {
        Some(Seq::new(8, |i: int| 0u8))
    } else {
        match (group_values(s, from, available, upto - 1), base32_value(s[from + upto - 1])) {
            (Some(n), Some(v)) => Some(
                n.update(
                    upto - 1,
                    if v == 32 {
                        0u8
                    } else {
                        v
                    },
                ),
            ),
            _ => None,
        }
    }
}

/// Where the padding of a group starts: at the number of the signs where
/// fewer than eight are left, else at the first padding sign behind the
/// first place, and zero where there is none.
pub open spec fn pad_start_of(s: Seq<u8>, from: int, available: int, upto: int) -> int
    decreases upto,
{
    if upto <= 0 {
        if available < 8 {
            available
        } else {
            0
        }
    } else {
        let before = pad_start_of(s, from, available, upto - 1);
        if before == 0 && base32_value(s[from + upto - 1]) == Some(32u8) {
            upto - 1
        } else {
            before
        }
    }
}

/// The bytes that the base 32 text `s` stands for, from `from` on; `None`
/// where a sign is not of base 32.
pub open spec fn base32_bytes(s: Seq<u8>, from: int) -> Option<Seq<u8>>
    decreases s.len() - from,
{
    if from < 0 || from >= s.len() {
        Some(Seq::empty())
    } else {
        let available = if s.len() - from < 8 {
            s.len() - from
        } else {
            8
        };
        match (group_values(s, from, available, available), base32_bytes(s, from + available)) {
            (Some(n), Some(rest)) => Some(
                group_of(n).take(group_bytes(pad_start_of(s, from, available, available))) + rest,
            ),
            _ => None,
        }
    }
}

/// The bytes that the base 32 text `s` stands for, and nothing where a
/// sign is not of base 32.
pub fn base32_decode(s: &[u8]) -> (r: Vec<u8>)
    ensures
        r@ == match base32_bytes(s@, 0) {
            Some(bytes) => bytes,
            None => Seq::<u8>::empty(),
        },
{
    let mut v: Vec<u8> = Vec::new();
    let mut i: usize = 0;
    while i < s.len()
        invariant
            0 <= i <= s@.len(),
            base32_bytes(s@, 0) == match base32_bytes(s@, i as int) {
                Some(rest) => Some(v@ + rest),
                None => None,
            },
        decreases s@.len() - i,
    {
        let available: usize = if s.len() - i < 8 {
            s.len() - i
        } else {
            8
        };
        let mut pad_start: usize = if available < 8 {
            available
        } else {
            0
        };
        let mut n: [u8; 8] = [0;8];
        let mut j: usize = 0;
        proof {
            assert(n@ =~= Seq::new(8, |i: int| 0u8));
        }
        while j < available
            invariant
                0 <= j <= available <= 8,
                i + available <= s@.len() <= usize::MAX,
                i < s@.len(),
                available == (if s@.len() - i < 8 {
                    s@.len() - i
                } else {
                    8
                }),
                base32_bytes(s@, 0) == match base32_bytes(s@, i as int) {
                    Some(rest) => Some(v@ + rest),
                    None => None,
                },
                group_values(s@, i as int, available as int, j as int) == Some(n@),
                pad_start == pad_start_of(s@, i as int, available as int, j as int),
                0 <= pad_start <= 8,
                forall|x: int| 0 <= x < 8 ==> n@[x] < 32,
            decreases available - j,
        {
            let c = to_upper(s[i + j]);
            let value: u8 = if c >= 0x41 && c <= 0x5a {
                c - 0x41
            } else if c >= 0x32 && c <= 0x37 {
                c - 0x32 + 26
            } else if c == 0x3d {
                if pad_start == 0 {
                    pad_start = j;
                }
                0
            } else if c == 0x31 {
                8
            } else {
                proof {
                    assert(base32_value(s@[i + j]).is_none());
                    lemma_group_fails(s@, i as int, available as int, j + 1, available as int);
                }
                return Vec::new();
            };
            n[j] = value;
            j += 1;
        }
        let out: [u8; 5] = [
            (n[0] << 3) | (n[1] >> 2),
            ((n[1] & 0x3) << 6) | (n[2] << 1) | ((n[3] & 0x10) >> 4),
            ((n[3] & 0x0f) << 4) | ((n[4] & 0x1e) >> 1),
            ((n[4] & 0x01) << 7) | ((n[5] & 0x1f) << 2) | ((n[6] & 0x18) >> 3),
            ((n[6] & 0x07) << 5) | n[7],
        ];
        let num_out: usize = if pad_start == 0 || pad_start == 8 {
            5
        } else if pad_start <= 2 {
            1
        } else if pad_start <= 4 {
            2
        } else if pad_start == 5 {
            3
        } else {
            4
        };
        let ghost before = v@;
        let mut k: usize = 0;
        while k < num_out
            invariant
                0 <= k <= num_out <= 5,
                v@ == before + out@.take(k as int),
            decreases num_out - k,
        {
            v.push(out[k]);
            k += 1;
            proof {
                assert(v@ =~= before + out@.take(k as int));
            }
        }
        proof {
            assert(out@ =~= group_of(n@));
            if base32_bytes(s@, i + available).is_some() {
                let rest = base32_bytes(s@, i + available).unwrap();
                assert(before + (group_of(n@).take(num_out as int) + rest) =~= v@ + rest);
            }
        }
        i += available;
    }
    proof {
        assert(v@ + Seq::<u8>::empty() =~= v@);
    }
    v
}

/// A group with a sign that is not of base 32 has no numbers.
pub proof fn lemma_group_fails(s: Seq<u8>, from: int, available: int, bad: int, upto: int)
    requires
        0 < bad <= upto,
        group_values(s, from, available, bad).is_none(),
    ensures
        group_values(s, from, available, upto).is_none(),
    decreases upto - bad,
{
    if bad < upto {
        lemma_group_fails(s, from, available, bad, upto - 1);
    }
}

} // verus!
