//! Byte strings read as numbers, the most significant byte first.

use crate::order::{bytes_lt, common_prefix, lemma_bytes_lt_asymmetric, lemma_bytes_lt_total};
use vstd::arithmetic::power2::{lemma2_to64, lemma_pow2_adds, pow2};
use vstd::prelude::*;

verus! {

/// The number that `s` denotes, the first byte being the most significant.
pub open spec fn be_value(s: Seq<u8>) -> nat
    decreases s.len(),
{
    if s.len() == 0 {
        0
    } else {
        be_value(s.drop_last()) * 256 + s.last() as nat
    }
}

/// A string of `n` bytes denotes a number below `2^(8n)`.
pub proof fn lemma_be_value_bound(s: Seq<u8>)
    ensures
        be_value(s) < pow2(8 * s.len()),
    decreases s.len(),
{
    lemma2_to64();
    if s.len() > 0 {
        lemma_be_value_bound(s.drop_last());
        lemma_pow2_adds(8 * (s.len() - 1) as nat, 8);
        let p = pow2(8 * (s.len() - 1) as nat);
        assert(be_value(s.drop_last()) + 1 <= p);
        assert((be_value(s.drop_last()) + 1) * 256 <= p * 256) by (nonlinear_arith)
            requires
                be_value(s.drop_last()) + 1 <= p,
        ;
    }
}

/// The value of two strings put together.
pub proof fn lemma_be_value_concat(a: Seq<u8>, b: Seq<u8>)
    ensures
        be_value(a + b) == be_value(a) * pow2(8 * b.len()) + be_value(b),
    decreases b.len(),
{
    lemma2_to64();
    if b.len() == 0 {
        assert(a + b =~= a);
        assert(pow2(0) == 1);
        assert(be_value(b) == 0);
        assert(be_value(a) * 1 == be_value(a));
    } else {
        lemma_be_value_concat(a, b.drop_last());
        assert((a + b).drop_last() =~= a + b.drop_last());
        assert((a + b).last() == b.last());
        lemma_pow2_adds(8 * (b.len() - 1) as nat, 8);
        let p = pow2(8 * (b.len() - 1) as nat);
        assert(pow2(8 * b.len()) == p * 256);
        let va = be_value(a);
        let vb = be_value(b.drop_last());
        assert(be_value(a + b.drop_last()) == va * p + vb);
        assert(be_value(a + b) == (va * p + vb) * 256 + b.last() as nat);
        assert(be_value(b) == vb * 256 + b.last() as nat);
        assert((va * p + vb) * 256 == va * (p * 256) + vb * 256) by (nonlinear_arith);
    }
}

/// Strings of zero bytes denote zero.
pub proof fn lemma_be_value_zeros(s: Seq<u8>)
    requires
        forall|i: int| 0 <= i < s.len() ==> s[i] == 0,
    ensures
        be_value(s) == 0,
    decreases s.len(),
{
    if s.len() > 0 {
        lemma_be_value_zeros(s.drop_last());
    }
}

/// Strings of `0xff` bytes denote the largest number of their length.
pub proof fn lemma_be_value_ones(s: Seq<u8>)
    requires
        forall|i: int| 0 <= i < s.len() ==> s[i] == 0xff,
    ensures
        be_value(s) + 1 == pow2(8 * s.len()),
    decreases s.len(),
{
    lemma2_to64();
    if s.len() > 0 {
        lemma_be_value_ones(s.drop_last());
        lemma_pow2_adds(8 * (s.len() - 1) as nat, 8);
    }
}

/// Among strings of one length the byte order is the order of the numbers.
pub proof fn lemma_be_value_order(a: Seq<u8>, b: Seq<u8>)
    requires
        a.len() == b.len(),
    ensures
        bytes_lt(a, b) <==> be_value(a) < be_value(b),
        a == b <==> be_value(a) == be_value(b),
{
    lemma_bytes_lt_total(a, b);
    lemma_bytes_lt_asymmetric(a, b);
    if bytes_lt(a, b) {
        lemma_be_value_less(a, b);
    }
    if bytes_lt(b, a) {
        lemma_be_value_less(b, a);
    }
}

proof fn lemma_be_value_less(a: Seq<u8>, b: Seq<u8>)
    requires
        a.len() == b.len(),
        bytes_lt(a, b),
    ensures
        be_value(a) < be_value(b),
{
    let i = choose|i: int| #[trigger]
        common_prefix(a, b, i) && i < b.len() && (i == a.len() || a[i] < b[i]);
    let pa = a.take(i + 1);
    let ra = a.skip(i + 1);
    let pb = b.take(i + 1);
    let rb = b.skip(i + 1);
    assert(a =~= pa + ra);
    assert(b =~= pb + rb);
    lemma_be_value_concat(pa, ra);
    lemma_be_value_concat(pb, rb);
    assert(pa.drop_last() =~= pb.drop_last());
    assert(be_value(pa) + 1 <= be_value(pb));
    lemma_be_value_bound(ra);
    let p = pow2(8 * ra.len());
    assert((be_value(pa) + 1) * p <= be_value(pb) * p) by (nonlinear_arith)
        requires
            be_value(pa) + 1 <= be_value(pb),
    ;
    assert((be_value(pa) + 1) * p == be_value(pa) * p + p) by (nonlinear_arith);
}

/// The last twenty bytes of `s`, with zero bytes in front where `s` has
/// fewer.
pub open spec fn last_twenty(s: Seq<u8>) -> Seq<u8> {
    Seq::new(
        20,
        |i: int|
            if i + s.len() >= 20 {
                s[i + s.len() - 20]
            } else {
                0u8
            },
    )
}

/// The last twenty bytes of a string denote the number that the string
/// denotes, where that number can be written in twenty bytes.
pub proof fn lemma_last_twenty(s: Seq<u8>)
    requires
        be_value(s) < pow2(160),
    ensures
        be_value(last_twenty(s)) == be_value(s),
{
    let r = last_twenty(s);
    if s.len() <= 20 {
        let zeros = Seq::new((20 - s.len()) as nat, |i: int| 0u8);
        assert(r =~= zeros + s);
        lemma_be_value_concat(zeros, s);
        lemma_be_value_zeros(zeros);
        assert(0 * pow2(8 * s.len()) == 0);
    } else {
        let head = s.take(s.len() - 20);
        assert(s =~= head + r);
        lemma_be_value_concat(head, r);
        let h = be_value(head);
        let p = pow2(160);
        assert(8 * r.len() == 160);
        assert(h == 0) by (nonlinear_arith)
            requires
                h * p + be_value(r) < p,
                p > 0,
        {
            if h >= 1 {
                assert(h * p >= p);
            }
        }
    }
}

/// The last twenty bytes of `bytes`, with zero bytes in front where there
/// are fewer: the same number, where it can be written in twenty bytes.
pub fn pad_to_twenty(bytes: &[u8]) -> (r: [u8; 20])
    ensures
        r@ == last_twenty(bytes@),
        be_value(bytes@) < pow2(160) ==> be_value(r@) == be_value(bytes@),
{
    let len: usize = bytes.len();
    let mut buf: [u8; 20] = [0;20];
    let mut i: usize = 0;
    while i < 20
        invariant
            0 <= i <= 20,
            len == bytes@.len(),
            forall|j: int| 0 <= j < i ==> buf@[j] == last_twenty(bytes@)[j],
        decreases 20 - i,
    {
        if len >= 20 {
            buf[i] = bytes[len - 20 + i];
        } else if i >= 20 - len {
            buf[i] = bytes[i - (20 - len)];
        } else {
            buf[i] = 0;
        }
        i += 1;
    }
    proof {
        assert(buf@ =~= last_twenty(bytes@));
        if be_value(bytes@) < pow2(160) {
            lemma_last_twenty(bytes@);
        }
    }
    buf
}

} // verus!
