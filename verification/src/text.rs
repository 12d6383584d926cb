//! Decimal text: the digits that carry integers and lengths on the wire.

use vstd::prelude::*;

verus! {

/// Whether `b` is one of the ASCII digits `0` to `9`.
pub open spec fn is_digit_byte(b: u8) -> bool {
    0x30 <= b <= 0x39
}

/// Whether every byte of `s` is an ASCII digit.
pub open spec fn all_digits(s: Seq<u8>) -> bool {
    forall|i: int| 0 <= i < s.len() ==> is_digit_byte(#[trigger] s[i])
}

/// The number that a run of ASCII digits denotes in base ten.
pub open spec fn digits_value(s: Seq<u8>) -> nat
    decreases s.len(),
{
    if s.len() == 0 {
        0
    } else {
        digits_value(s.drop_last()) * 10 + (s.last() - 0x30) as nat
    }
}

/// The shortest run of ASCII digits that denotes `n`.
pub open spec fn decimal(n: nat) -> Seq<u8>
    decreases n,
{
    if n < 10 {
        seq![(0x30 + n) as u8]
    } else {
        decimal(n / 10).push((0x30 + n % 10) as u8)
    }
}

/// The text of a signed integer: an optional minus sign, then `decimal`.
pub open spec fn integer_text(n: int) -> Seq<u8> {
    if n < 0 {
        seq![0x2du8] + decimal((-n) as nat)
    } else {
        decimal(n as nat)
    }
}

/// The length that a length prefix denotes: one or more digits whose value
/// fits a signed 64-bit integer. Leading zeros are allowed here.
pub open spec fn length_of_text(s: Seq<u8>) -> Option<u64> {
    if s.len() > 0 && all_digits(s) && digits_value(s) <= i64::MAX {
        Some(digits_value(s) as u64)
    } else {
        None
    }
}

/// The integer that an integer body denotes: an optional minus sign, then one
/// or more digits without surplus leading zeros, within the signed 64-bit
/// range. A plus sign is never accepted.
pub open spec fn integer_of_text(s: Seq<u8>) -> Option<i64> {
    let negative = s.len() > 0 && s[0] == 0x2d;
    let d = if negative { s.skip(1) } else { s };
    if d.len() == 0 || !all_digits(d) || (d.len() > 1 && d[0] == 0x30) {
        None
    } else if negative {
        if digits_value(d) <= 0x8000_0000_0000_0000 {
            Some((-(digits_value(d) as int)) as i64)
        } else {
            None
        }
    } else {
        if digits_value(d) <= i64::MAX {
            Some(digits_value(d) as i64)
        } else {
            None
        }
    }
}

/// A longer run of digits never denotes less than its prefix.
pub proof fn lemma_digits_value_prefix(s: Seq<u8>, i: int)
    requires
        all_digits(s),
        0 <= i <= s.len(),
    ensures
        digits_value(s.take(i)) <= digits_value(s),
    decreases s.len() - i,
{
    if i == s.len() {
        assert(s.take(i) =~= s);
    } else {
        lemma_digits_value_prefix(s, i + 1);
        let t = s.take(i + 1);
        assert(t.drop_last() =~= s.take(i));
        assert(is_digit_byte(s[i]));
        assert(t.last() == s[i]);
    }
}

/// `decimal` yields digits only, at least one, and no surplus leading zero.
pub proof fn lemma_decimal_shape(n: nat)
    ensures
        decimal(n).len() >= 1,
        all_digits(decimal(n)),
        decimal(n).len() > 1 ==> decimal(n)[0] != 0x30,
        n > 0 ==> decimal(n)[0] != 0x30,
    decreases n,
{
    if n >= 10 {
        lemma_decimal_shape(n / 10);
        let p = decimal(n / 10);
        let last = (0x30 + n % 10) as u8;
        assert(decimal(n) == p.push(last));
        assert(is_digit_byte(last));
        assert forall|i: int| 0 <= i < decimal(n).len() implies is_digit_byte(
            #[trigger] decimal(n)[i],
        ) by {
            if i < p.len() {
                assert(decimal(n)[i] == p[i]);
            }
        }
        assert(decimal(n)[0] == p[0]);
    } else {
        assert(decimal(n) == seq![(0x30 + n) as u8]);
        assert(decimal(n)[0] == (0x30 + n) as u8);
    }
}

/// Reading back what `decimal` wrote gives the number again.
pub proof fn lemma_decimal_value(n: nat)
    ensures
        digits_value(decimal(n)) == n,
    decreases n,
{
    if n >= 10 {
        lemma_decimal_value(n / 10);
        let p = decimal(n / 10);
        let last = (0x30 + n % 10) as u8;
        assert(decimal(n) == p.push(last));
        assert(decimal(n).drop_last() =~= p);
        assert(decimal(n).last() == last);
    } else {
        let s = decimal(n);
        assert(s == seq![(0x30 + n) as u8]);
        assert(s.drop_last() =~= Seq::<u8>::empty());
        assert(digits_value(s.drop_last()) == 0);
        assert(s.last() == (0x30 + n) as u8);
    }
}

/// A length prefix written by `decimal` reads back as the same length.
pub proof fn lemma_length_text_round_trip(n: nat)
    requires
        n <= i64::MAX,
    ensures
        length_of_text(decimal(n)) == Some(n as u64),
{
    lemma_decimal_shape(n);
    lemma_decimal_value(n);
}

/// An integer written by `integer_text` reads back as the same integer.
pub proof fn lemma_integer_text_round_trip(n: i64)
    ensures
        integer_of_text(integer_text(n as int)) == Some(n),
{
    if n < 0 {
        let m = (-(n as int)) as nat;
        lemma_decimal_shape(m);
        lemma_decimal_value(m);
        let s = integer_text(n as int);
        assert(s[0] == 0x2d);
        assert(s.skip(1) =~= decimal(m));
    } else {
        let m = n as nat;
        lemma_decimal_shape(m);
        lemma_decimal_value(m);
        let s = integer_text(n as int);
        assert(s == decimal(m));
        assert(is_digit_byte(s[0]));
    }
}

/// Reads a run of digits as a number no larger than `limit`.
pub fn parse_digits(s: &[u8], limit: u64) -> (r: Option<u64>)
    ensures
        r == (if s@.len() > 0 && all_digits(s@) && digits_value(s@) <= limit {
            Some(digits_value(s@) as u64)
        } else {
            None
        }),
{
    if s.len() == 0 {
        return None;
    }
    let mut acc: u64 = 0;
    let mut i: usize = 0;
    while i < s.len()
        invariant
            0 <= i <= s.len(),
            all_digits(s@.take(i as int)),
            acc == digits_value(s@.take(i as int)),
            acc <= limit,
        decreases s.len() - i,
    {
        let b: u8 = s[i];
        if b < 0x30 || b > 0x39 {
            proof {
                assert(!is_digit_byte(s@[i as int]));
            }
            return None;
        }
        let d: u64 = (b - 0x30) as u64;
        proof {
            let t = s@.take(i + 1);
            assert(t.drop_last() =~= s@.take(i as int));
            assert(t.last() == b);
            assert(digits_value(t) == acc * 10 + d);
            assert forall|j: int| 0 <= j < t.len() implies is_digit_byte(#[trigger] t[j]) by {
                if j < i {
                    assert(t[j] == s@.take(i as int)[j]);
                }
            }
            if all_digits(s@) {
                lemma_digits_value_prefix(s@, i + 1);
            }
        }
        if acc > limit / 10 {
            return None;
        }
        let shifted: u64 = acc * 10;
        if d > limit - shifted {
            return None;
        }
        acc = shifted + d;
        i += 1;
    }
    proof {
        assert(s@.take(i as int) =~= s@);
    }
    Some(acc)
}

/// Reads a length prefix.
pub fn parse_length(s: &[u8]) -> (r: Option<u64>)
    ensures
        r == length_of_text(s@),
{
    parse_digits(s, 0x7fff_ffff_ffff_ffff)
}

/// Reads an integer body.
pub fn parse_integer(s: &[u8]) -> (r: Option<i64>)
    ensures
        r == integer_of_text(s@),
{
    if s.len() == 0 {
        return None;
    }
    let negative = s[0] == 0x2d;
    let d: &[u8] = if negative {
        vstd::slice::slice_subrange(s, 1, s.len())
    } else {
        s
    };
    proof {
        if negative {
            assert(d@ =~= s@.skip(1));
        }
    }
    if d.len() == 0 {
        return None;
    }
    if d.len() > 1 && d[0] == 0x30 {
        return None;
    }
    if negative {
        match parse_digits(d, 0x8000_0000_0000_0000) {
            Some(m) => {
                if m == 0x8000_0000_0000_0000 {
                    Some(i64::MIN)
                } else {
                    Some(-(m as i64))
                }
            },
            None => None,
        }
    } else {
        match parse_digits(d, 0x7fff_ffff_ffff_ffff) {
            Some(m) => Some(m as i64),
            None => None,
        }
    }
}

/// Appends the decimal digits of `n` to `out`.
pub fn push_decimal(out: &mut Vec<u8>, n: u64)
    ensures
        final(out)@ == old(out)@ + decimal(n as nat),
    decreases n,
{
    if n >= 10 {
        push_decimal(out, n / 10);
    }
    out.push(0x30 + (n % 10) as u8);
    proof {
        if n >= 10 {
            assert(final(out)@ =~= old(out)@ + decimal(n as nat));
        } else {
            assert(final(out)@ =~= old(out)@ + decimal(n as nat));
        }
    }
}

/// Appends the text of the signed integer `n` to `out`.
pub fn push_integer(out: &mut Vec<u8>, n: i64)
    ensures
        final(out)@ == old(out)@ + integer_text(n as int),
{
    if n < 0 {
        out.push(0x2d);
        let magnitude: u64 = (-(n + 1)) as u64 + 1;
        push_decimal(out, magnitude);
        proof {
            assert(final(out)@ =~= old(out)@ + integer_text(n as int));
        }
    } else {
        push_decimal(out, n as u64);
    }
}

} // verus!
