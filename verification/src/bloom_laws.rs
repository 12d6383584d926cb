//! What the zero bits of a Bloom filter tell of the keys that were put in.

use crate::bloom_filter::{bit_at, key_bits, key_index, ones_of, with_bit, zero_bits};
use vstd::prelude::*;

verus! {

/// The bit field of `size` zero bytes.
pub open spec fn empty_bits(size: nat) -> Seq<u8> {
    Seq::new(size, |i: int| 0u8)
}

/// The bit field of an empty filter of `size` bytes after the keys of
/// `keys` have been put in, one after the other.
pub open spec fn filled(size: nat, keys: Seq<Seq<u8>>) -> Seq<u8>
    decreases keys.len(),
{
    if keys.len() == 0 {
        empty_bits(size)
    } else {
        key_bits(filled(size, keys.drop_last()), keys.last())
    }
}

/// The bits that the keys of `keys` select in a filter of `size` bytes: two
/// for each key, in the order of the keys.
pub open spec fn selected(size: nat, keys: Seq<Seq<u8>>) -> Seq<int>
    decreases keys.len(),
{
    if keys.len() == 0 {
        Seq::empty()
    } else {
        selected(size, keys.drop_last()).push(
            key_index(keys.last()[0], keys.last()[1], size as int * 8),
        ).push(key_index(keys.last()[2], keys.last()[3], size as int * 8))
    }
}

/// A byte has at most eight bits set, and the zero byte none.
pub proof fn lemma_ones_bound(b: u8)
    ensures
        ones_of(b) <= 8,
        ones_of(0) == 0,
{
    assert((b & 1) + ((b >> 1) & 1) + ((b >> 2) & 1) + ((b >> 3) & 1) + ((b >> 4) & 1) + ((b >> 5)
        & 1) + ((b >> 6) & 1) + ((b >> 7) & 1) <= 8) by (bit_vector);
    assert((0u8 & 1) + ((0u8 >> 1) & 1) + ((0u8 >> 2) & 1) + ((0u8 >> 3) & 1) + ((0u8 >> 4) & 1) + ((
    0u8 >> 5) & 1) + ((0u8 >> 6) & 1) + ((0u8 >> 7) & 1) == 0) by (bit_vector);
}

/// Setting a bit of a byte adds one to the bits that are set where the bit
/// was clear, and nothing where it was set.
pub proof fn lemma_ones_with(b: u8, s: u8)
    requires
        s < 8,
    ensures
        ones_of(b | (1u8 << s)) == ones_of(b) + (if b & (1u8 << s) != 0 {
            0nat
        } else {
            1nat
        }),
{
    let c = b | (1u8 << s);
    let add: u8 = if b & (1u8 << s) != 0 {
        0
    } else {
        1
    };
    assert((c & 1) + ((c >> 1) & 1) + ((c >> 2) & 1) + ((c >> 3) & 1) + ((c >> 4) & 1) + ((c >> 5)
        & 1) + ((c >> 6) & 1) + ((c >> 7) & 1) == (b & 1) + ((b >> 1) & 1) + ((b >> 2) & 1) + ((b
        >> 3) & 1) + ((b >> 4) & 1) + ((b >> 5) & 1) + ((b >> 6) & 1) + ((b >> 7) & 1) + add)
        by (bit_vector)
        requires
            s < 8,
            c == b | (1u8 << s),
            add == (if b & (1u8 << s) != 0 {
                0u8
            } else {
                1u8
            }),
    ;
    lemma_ones_bound(b);
    lemma_ones_bound(c);
}

/// Replacing a byte changes the count of the zero bits by what the two
/// bytes differ in set bits.
pub proof fn lemma_zero_bits_update(s: Seq<u8>, j: int, b: u8)
    requires
        0 <= j < s.len(),
    ensures
        zero_bits(s.update(j, b)) + ones_of(b) == zero_bits(s) + ones_of(s[j]),
    decreases s.len(),
{
    let t = s.update(j, b);
    lemma_ones_bound(b);
    lemma_ones_bound(s[j]);
    lemma_ones_bound(s.last());
    if j == s.len() - 1 {
        assert(t.drop_last() =~= s.drop_last());
    } else {
        assert(t.drop_last() =~= s.drop_last().update(j, b));
        assert(t.last() == s.last());
        lemma_zero_bits_update(s.drop_last(), j, b);
    }
}

/// Setting a bit takes one from the zero bits where the bit was clear, and
/// nothing where it was set.
pub proof fn lemma_zero_bits_with_bit(bits: Seq<u8>, n: int)
    requires
        0 <= n < 8 * bits.len(),
    ensures
        zero_bits(with_bit(bits, n)) + (if bit_at(bits, n) {
            0nat
        } else {
            1nat
        }) == zero_bits(bits),
{
    let s = (n % 8) as u8;
    lemma_ones_with(bits[n / 8], s);
    lemma_zero_bits_update(bits, n / 8, bits[n / 8] | (1u8 << s));
}

/// Setting a bit leaves every other bit as it was.
pub proof fn lemma_other_bits(bits: Seq<u8>, n: int, m: int)
    requires
        0 <= n < 8 * bits.len(),
        0 <= m < 8 * bits.len(),
        m != n,
    ensures
        bit_at(with_bit(bits, n), m) == bit_at(bits, m),
{
    if m / 8 == n / 8 {
        let b = bits[n / 8];
        let s = (n % 8) as u8;
        let t = (m % 8) as u8;
        assert(((b | (1u8 << s)) & (1u8 << t) != 0) == (b & (1u8 << t) != 0)) by (bit_vector)
            requires
                s < 8,
                t < 8,
                s != t,
        ;
    }
}

/// An empty bit field has no bit set: all its bits are zero bits.
pub proof fn lemma_empty_bits(size: nat)
    ensures
        zero_bits(empty_bits(size)) == 8 * size,
        forall|n: int| 0 <= n < 8 * size ==> !bit_at(empty_bits(size), n),
    decreases size,
{
    lemma_ones_bound(0);
    if size > 0 {
        assert(empty_bits(size).drop_last() =~= empty_bits((size - 1) as nat));
        lemma_empty_bits((size - 1) as nat);
    }
    assert forall|n: int| 0 <= n < 8 * size implies !bit_at(empty_bits(size), n) by {
        let s = (n % 8) as u8;
        assert(0u8 & (1u8 << s) == 0) by (bit_vector);
    }
}

/// What holds of a bit field and the bits that were set in it: the bits
/// that are set are those that were selected, and the zero bits are the rest.
pub open spec fn tells(bits: Seq<u8>, chosen: Seq<int>) -> bool {
    &&& forall|i: int| 0 <= i < chosen.len() ==> 0 <= #[trigger] chosen[i] < 8 * bits.len()
    &&& forall|n: int| 0 <= n < 8 * bits.len() ==> (bit_at(bits, n) <==> chosen.to_set().contains(n))
    &&& zero_bits(bits) + chosen.to_set().len() == 8 * bits.len()
}

/// Setting one more bit keeps the bit field and the bits that were set in
/// step.
pub proof fn lemma_tells_with_bit(bits: Seq<u8>, chosen: Seq<int>, n: int)
    requires
        tells(bits, chosen),
        0 <= n < 8 * bits.len(),
    ensures
        tells(with_bit(bits, n), chosen.push(n)),
{
    let after = with_bit(bits, n);
    let more = chosen.push(n);
    chosen.lemma_push_to_set_commute(n);
    vstd::seq_lib::seq_to_set_is_finite(chosen);
    vstd::set::axiom_set_insert_len(chosen.to_set(), n);
    lemma_zero_bits_with_bit(bits, n);
    crate::bloom_filter::lemma_with_bit(bits, n, n);
    assert forall|i: int| 0 <= i < more.len() implies 0 <= #[trigger] more[i] < 8 * after.len() by {
        if i < chosen.len() {
            assert(more[i] == chosen[i]);
        }
    }
    assert forall|m: int| 0 <= m < 8 * after.len() implies (bit_at(after, m)
        <==> more.to_set().contains(m)) by {
        if m != n {
            lemma_other_bits(bits, n, m);
        }
    }
}

/// The bit field of a filled filter and the bits that its keys select are
/// in step.
pub proof fn lemma_filled_tells(size: nat, keys: Seq<Seq<u8>>)
    requires
        size > 0,
        forall|i: int| 0 <= i < keys.len() ==> (#[trigger] keys[i]).len() >= 4,
    ensures
        filled(size, keys).len() == size,
        selected(size, keys).len() == 2 * keys.len(),
        tells(filled(size, keys), selected(size, keys)),
    decreases keys.len(),
{
    let total = size as int * 8;
    if keys.len() == 0 {
        lemma_empty_bits(size);
        assert(selected(size, keys).to_set() =~= Set::<int>::empty());
    } else {
        let front = keys.drop_last();
        let k = keys.last();
        assert forall|i: int| 0 <= i < front.len() implies (#[trigger] front[i]).len() >= 4 by {
            assert(front[i] == keys[i]);
        }
        lemma_filled_tells(size, front);
        let bits = filled(size, front);
        let chosen = selected(size, front);
        let n1 = key_index(k[0], k[1], total);
        let n2 = key_index(k[2], k[3], total);
        lemma_tells_with_bit(bits, chosen, n1);
        lemma_tells_with_bit(with_bit(bits, n1), chosen.push(n1), n2);
    }
}

/// The zero bits of a filter into which keys were put are the bits that no
/// key selects. So at most two bits for each key are missing from the zero
/// bits, and exactly two for each key where no bit was selected twice.
pub proof fn lemma_zero_bits_of_filled(size: nat, keys: Seq<Seq<u8>>)
    requires
        size > 0,
        forall|i: int| 0 <= i < keys.len() ==> (#[trigger] keys[i]).len() >= 4,
    ensures
        zero_bits(filled(size, keys)) == 8 * size - selected(size, keys).to_set().len(),
        8 * size - 2 * keys.len() <= zero_bits(filled(size, keys)) <= 8 * size,
        zero_bits(filled(size, keys)) == 8 * size - 2 * keys.len() <==> selected(size, keys).no_duplicates(),
{
    lemma_filled_tells(size, keys);
    let chosen = selected(size, keys);
    chosen.lemma_cardinality_of_set();
    if chosen.no_duplicates() {
        chosen.unique_seq_to_set();
    }
    if chosen.to_set().len() == chosen.len() {
        chosen.lemma_no_dup_set_cardinality();
    }
}

/// A bit that is set stays set whatever keys are put in afterwards.
pub proof fn lemma_set_bits_stay(bits: Seq<u8>, key: Seq<u8>, n: int)
    requires
        0 < bits.len(),
        key.len() >= 4,
        0 <= n < 8 * bits.len(),
        bit_at(bits, n),
    ensures
        bit_at(key_bits(bits, key), n),
{
    let total = bits.len() as int * 8;
    let n1 = key_index(key[0], key[1], total);
    let n2 = key_index(key[2], key[3], total);
    crate::bloom_filter::lemma_with_bit(bits, n1, n);
    crate::bloom_filter::lemma_with_bit(with_bit(bits, n1), n2, n);
}

} // verus!
