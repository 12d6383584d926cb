//! The ranges that halving the space of ids reaches, and the distance
//! between their two ends.

use crate::bigend::{be_value, lemma_be_value_bound, lemma_be_value_order, lemma_be_value_zeros};
use crate::node::xor_bytes;
use crate::routing::{halved_range, is_split, split_at, Bucket, RoutingTable};
use vstd::arithmetic::div_mod::{
    lemma_fundamental_div_mod, lemma_fundamental_div_mod_converse_div,
    lemma_fundamental_div_mod_converse_mod, lemma_mod_multiples_basic,
};
use vstd::arithmetic::power2::{lemma2_to64, lemma_pow2_adds, lemma_pow2_pos, pow2};
use vstd::prelude::*;

verus! {

/// A range that halving reaches after the space of `2^160` ids has been
/// halved `160 - m` times: it holds `2^m` ids and starts at a multiple of
/// `2^m`.
pub open spec fn halved(lower: nat, upper: nat, m: nat) -> bool {
    &&& upper + 1 == lower + pow2(m)
    &&& lower % pow2(m) == 0
}

/// The XOR of two byte strings of one length, byte by byte.
pub open spec fn xor_seq(a: Seq<u8>, b: Seq<u8>) -> Seq<u8> {
    Seq::new(a.len(), |i: int| a[i] ^ b[i])
}

/// Where a range holds `P * 256` ids and starts at a multiple of that, the
/// last bytes of its two ends are `0x00` and `0xff`, and what stands before
/// them is a range of `P` ids that starts at a multiple of `P`.
proof fn lemma_whole_byte(a1: int, al: int, b1: int, bl: int, p: int)
    requires
        0 <= al < 256,
        0 <= bl < 256,
        0 <= a1,
        0 <= b1,
        0 < p,
        (a1 * 256 + al) % (p * 256) == 0,
        b1 * 256 + bl + 1 == a1 * 256 + al + p * 256,
    ensures
        al == 0,
        bl == 255,
        a1 % p == 0,
        b1 + 1 == a1 + p,
{
    let a = a1 * 256 + al;
    let d = p * 256;
    let q = a / d;
    lemma_fundamental_div_mod(a, d);
    assert(a == d * q);
    assert(d * q == (q * p) * 256) by (nonlinear_arith)
        requires
            d == p * 256,
    ;
    lemma_fundamental_div_mod_converse_mod(a, 256, q * p, 0);
    lemma_fundamental_div_mod_converse_mod(a, 256, a1, al);
    lemma_fundamental_div_mod_converse_div(a, 256, q * p, 0);
    lemma_fundamental_div_mod_converse_div(a, 256, a1, al);
    assert(a1 == q * p);
    lemma_mod_multiples_basic(q, p);
    let b = b1 * 256 + bl;
    assert(b == (a1 + p - 1) * 256 + 255) by (nonlinear_arith)
        requires
            b + 1 == a1 * 256 + al + p * 256,
            al == 0,
    ;
    lemma_fundamental_div_mod_converse_mod(b, 256, a1 + p - 1, 255);
    lemma_fundamental_div_mod_converse_mod(b, 256, b1, bl);
    lemma_fundamental_div_mod_converse_div(b, 256, a1 + p - 1, 255);
    lemma_fundamental_div_mod_converse_div(b, 256, b1, bl);
}

/// Where a range holds fewer than 256 ids and starts at a multiple of
/// their number, its two ends differ in their last bytes only, and these
/// differ in the bits below that number, which are clear in the one and
/// set in the other.
proof fn lemma_part_byte(a1: int, al: u8, b1: int, bl: u8, n: int)
    requires
        0 <= a1,
        0 <= b1,
        n == 1 || n == 2 || n == 4 || n == 8 || n == 16 || n == 32 || n == 64 || n == 128,
        (a1 * 256 + al) % n == 0,
        b1 * 256 + bl + 1 == a1 * 256 + al + n,
    ensures
        a1 == b1,
        (al ^ bl) == n - 1,
{
    let wide_a: u16 = al as u16;
    let wide_b: u16 = bl as u16;
    let wide_n: u16 = n as u16;
    assert(al as int % n == 0) by {
        if n == 1 {
        } else if n == 2 {
        } else if n == 4 {
        } else if n == 8 {
        } else if n == 16 {
        } else if n == 32 {
        } else if n == 64 {
        } else {
        }
    }
    assert(al + n - 1 < 256);
    assert(wide_a ^ wide_b == wide_n - 1) by (bit_vector)
        requires
            wide_n == 1 || wide_n == 2 || wide_n == 4 || wide_n == 8 || wide_n == 16 || wide_n
                == 32 || wide_n == 64 || wide_n == 128,
            wide_a < 256,
            wide_a % wide_n == 0,
            wide_b == wide_a + wide_n - 1,
    ;
    assert((al ^ bl) as u16 == wide_a ^ wide_b) by (bit_vector)
        requires
            wide_a == al as u16,
            wide_b == bl as u16,
    ;
}

/// The XOR of the two ends of a halved range is the number of its ids
/// less one: the bits in which the ends differ are the low bits, all of
/// them.
pub proof fn lemma_xor_of_halved(a: Seq<u8>, b: Seq<u8>, m: nat)
    requires
        a.len() == b.len(),
        m <= 8 * a.len(),
        halved(be_value(a), be_value(b), m),
    ensures
        be_value(xor_seq(a, b)) + 1 == pow2(m),
    decreases a.len(),
{
    lemma2_to64();
    let x = xor_seq(a, b);
    if a.len() == 0 {
        assert(m == 0);
    } else {
        let a1 = a.drop_last();
        let b1 = b.drop_last();
        let x1 = xor_seq(a1, b1);
        assert(x.drop_last() =~= x1);
        assert(x.last() == a.last() ^ b.last());
        if m >= 8 {
            let rest = (m - 8) as nat;
            lemma_pow2_adds(rest, 8);
            lemma_pow2_pos(rest);
            lemma_whole_byte(
                be_value(a1) as int,
                a.last() as int,
                be_value(b1) as int,
                b.last() as int,
                pow2(rest) as int,
            );
            lemma_xor_of_halved(a1, b1, rest);
            let al = a.last();
            let bl = b.last();
            assert(al ^ bl == 255) by (bit_vector)
                requires
                    al == 0,
                    bl == 255,
            ;
        } else {
            let n = pow2(m) as int;
            assert(n == 1 || n == 2 || n == 4 || n == 8 || n == 16 || n == 32 || n == 64 || n
                == 128) by {
                if m == 0 {
                } else if m == 1 {
                } else if m == 2 {
                } else if m == 3 {
                } else if m == 4 {
                } else if m == 5 {
                } else if m == 6 {
                } else {
                    assert(m == 7);
                }
            }
            lemma_part_byte(be_value(a1) as int, a.last(), be_value(b1) as int, b.last(), n);
            lemma_be_value_order(a1, b1);
            assert forall|i: int| 0 <= i < x1.len() implies x1[i] == 0 by {
                let v = a1[i];
                assert(v ^ v == 0) by (bit_vector);
            }
            lemma_be_value_zeros(x1);
        }
    }
}

/// The whole space of ids is the range that has not been halved yet.
pub proof fn lemma_whole_space()
    ensures
        halved(0, (pow2(160) - 1) as nat, 160),
{
    lemma_pow2_pos(160);
}

/// The two halves of a halved range are halved ranges: the middle is the
/// last id of the lower half.
pub proof fn lemma_halves_are_halved(lower: nat, upper: nat, m: nat)
    requires
        halved(lower, upper, m),
        m >= 1,
    ensures
        halved(lower, (lower + (upper - lower) / 2) as nat, (m - 1) as nat),
        halved((lower + (upper - lower) / 2 + 1) as nat, upper, (m - 1) as nat),
{
    let h = (m - 1) as nat;
    lemma_pow2_adds(h, 1);
    lemma2_to64();
    lemma_pow2_pos(h);
    let p = pow2(h) as int;
    assert(pow2(m) == p * 2);
    let q = lower as int / (p * 2);
    lemma_fundamental_div_mod(lower as int, p * 2);
    assert(lower == (q * 2) * p) by (nonlinear_arith)
        requires
            lower == (p * 2) * q,
    ;
    lemma_mod_multiples_basic(q * 2, p);
    assert(lower + p == (q * 2 + 1) * p) by (nonlinear_arith)
        requires
            lower == (q * 2) * p,
    ;
    lemma_mod_multiples_basic(q * 2 + 1, p);
    assert((upper - lower) / 2 == p - 1);
}

/// In a bucket whose range is a halved one the XOR distance between the
/// two ends is the number of ids between them, so that the middle at which
/// `split` divides the range lies halfway between the ends.
pub proof fn lemma_middle_is_halfway(b: Bucket, m: nat)
    requires
        halved(b.lower.value(), b.upper.value(), m),
    ensures
        be_value(xor_bytes(b.lower@, b.upper@)) == b.upper.value() - b.lower.value(),
        b.middle() == b.lower.value() + (b.upper.value() - b.lower.value()) / 2,
{
    lemma_be_value_bound(b.upper@);
    lemma_pow2_pos(m);
    if m > 160 {
        vstd::arithmetic::power2::lemma_pow2_strictly_increases(160, m);
    }
    assert(xor_bytes(b.lower@, b.upper@) =~= xor_seq(b.lower@, b.upper@));
    lemma_xor_of_halved(b.lower@, b.upper@, m);
}

/// The two halves that `split` makes of a bucket whose range is a halved
/// one have halved ranges.
pub proof fn lemma_split_keeps_halved(parent: Bucket, left: Bucket, right: Bucket, m: nat)
    requires
        is_split(parent, left, right),
        halved(parent.lower.value(), parent.upper.value(), m),
        m >= 1,
    ensures
        halved(left.lower.value(), left.upper.value(), (m - 1) as nat),
        halved(right.lower.value(), right.upper.value(), (m - 1) as nat),
{
    reveal(is_split);
    lemma_middle_is_halfway(parent, m);
    lemma_halves_are_halved(parent.lower.value(), parent.upper.value(), m);
}

/// Splitting a bucket of buckets with halved ranges leaves buckets with
/// halved ranges.
pub proof fn lemma_split_halved(before: Seq<Bucket>, after: Seq<Bucket>, index: int)
    requires
        split_at(before, after, index),
        before[index].lower.value() < before[index].upper.value(),
        forall|i: int|
            0 <= i < before.len() ==> halved_range((#[trigger] before[i]).lower, before[i].upper),
    ensures
        forall|i: int|
            0 <= i < after.len() ==> halved_range((#[trigger] after[i]).lower, after[i].upper),
{
    reveal(halved_range);
    let parent = before[index];
    assert(halved_range(parent.lower, parent.upper));
    let m = choose|m: nat| halved(parent.lower.value(), parent.upper.value(), m);
    lemma2_to64();
    assert(m >= 1);
    lemma_split_keeps_halved(parent, after[index], after[index + 1], m);
    assert forall|i: int| 0 <= i < after.len() implies halved_range(
        (#[trigger] after[i]).lower,
        after[i].upper,
    ) by {
        if i < index {
            assert(after[i] == before[i]);
            assert(halved_range(before[i].lower, before[i].upper));
        } else if i > index + 1 {
            assert(after[(i - 1) + 1] == before[i - 1]);
            assert(halved_range(before[i - 1].lower, before[i - 1].upper));
        } else if i == index {
            assert(halved(after[i].lower.value(), after[i].upper.value(), (m - 1) as nat));
        } else {
            assert(halved(after[i].lower.value(), after[i].upper.value(), (m - 1) as nat));
        }
    }
}

/// The range from the least id to the greatest is the whole space.
pub proof fn lemma_whole_range(lower: crate::node::NodeId, upper: crate::node::NodeId)
    requires
        lower.value() == 0,
        upper.value() + 1 == pow2(160),
    ensures
        halved_range(lower, upper),
{
    reveal(halved_range);
    lemma_whole_space();
    assert(halved(lower.value(), upper.value(), 160));
}

/// The middle at which a bucket of a routing table is split lies halfway
/// between the two ends of its range, and before the upper end where the
/// range holds more than one id.
pub proof fn lemma_table_middle(table: RoutingTable, i: int)
    requires
        table.well_formed(),
        0 <= i < table.buckets@.len(),
    ensures
        table.buckets@[i].middle() == table.buckets@[i].lower.value() + (
        table.buckets@[i].upper.value() - table.buckets@[i].lower.value()) / 2,
        table.buckets@[i].lower.value() < table.buckets@[i].upper.value()
            ==> table.buckets@[i].middle() < table.buckets@[i].upper.value(),
{
    reveal(halved_range);
    let b = table.buckets@[i];
    assert(halved_range(b.lower, b.upper));
    let m = choose|m: nat| halved(b.lower.value(), b.upper.value(), m);
    lemma_middle_is_halfway(b, m);
}

} // verus!
