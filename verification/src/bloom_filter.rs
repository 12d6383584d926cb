//! A Bloom filter that sets two bits for each key.

use crate::sha1::Sha1Hash;
use vstd::prelude::*;

verus! {

/// The index of the bit that a pair of key bytes selects among `total` bits:
/// the two bytes read as a little-endian number, reduced modulo `total`.
pub open spec fn key_index(lo: u8, hi: u8, total: int) -> int {
    (lo as int + 256 * hi as int) % total
}

/// Whether bit `n` is set in `bits`; within a byte the lowest bit is first.
pub open spec fn bit_at(bits: Seq<u8>, n: int) -> bool {
    bits[n / 8] & (1u8 << ((n % 8) as u8)) != 0
}

/// `bits` with bit `n` set.
pub open spec fn with_bit(bits: Seq<u8>, n: int) -> Seq<u8> {
    bits.update(n / 8, bits[n / 8] | (1u8 << ((n % 8) as u8)))
}

/// The bit field `bits` with the two bits of `key` set.
pub open spec fn key_bits(bits: Seq<u8>, key: Seq<u8>) -> Seq<u8> {
    with_bit(
        with_bit(bits, key_index(key[0], key[1], bits.len() as int * 8)),
        key_index(key[2], key[3], bits.len() as int * 8),
    )
}

/// How many of the eight bits of `b` are set.
pub open spec fn ones_of(b: u8) -> nat {
    ((b & 1) + ((b >> 1) & 1) + ((b >> 2) & 1) + ((b >> 3) & 1) + ((b >> 4) & 1) + ((b >> 5) & 1)
        + ((b >> 6) & 1) + ((b >> 7) & 1)) as nat
}

/// How many bits of `s` are zero.
pub open spec fn zero_bits(s: Seq<u8>) -> nat
    decreases s.len(),
{
    if s.len() == 0 {
        0
    } else {
        zero_bits(s.drop_last()) + (8 - ones_of(s.last())) as nat
    }
}

/// How many of the four bits of a number below sixteen are zero.
fn nibble_zero_bits(n: u8) -> (r: usize)
    requires
        n < 16,
    ensures
        r <= 4,
        r == 4 - ((n & 1) + ((n >> 1) & 1) + ((n >> 2) & 1) + ((n >> 3) & 1)),
{
    let r: usize = match n {
        0 => 4,
        1 | 2 | 4 | 8 => 3,
        3 | 5 | 6 | 9 | 10 | 12 => 2,
        7 | 11 | 13 | 14 => 1,
        _ => 0,
    };
    proof {
        let ones: u8 = if n == 0 {
            0
        } else if n == 1 || n == 2 || n == 4 || n == 8 {
            1
        } else if n == 3 || n == 5 || n == 6 || n == 9 || n == 10 || n == 12 {
            2
        } else if n == 7 || n == 11 || n == 13 || n == 14 {
            3
        } else {
            4
        };
        assert((n & 1) + ((n >> 1) & 1) + ((n >> 2) & 1) + ((n >> 3) & 1) == ones) by (bit_vector)
            requires
                n < 16,
                ones == (if n == 0 {
                    0u8
                } else if n == 1 || n == 2 || n == 4 || n == 8 {
                    1u8
                } else if n == 3 || n == 5 || n == 6 || n == 9 || n == 10 || n == 12 {
                    2u8
                } else if n == 7 || n == 11 || n == 13 || n == 14 {
                    3u8
                } else {
                    4u8
                }),
        ;
    }
    r
}

/// How many of the eight bits of `b` are zero.
fn byte_zero_bits(b: u8) -> (r: usize)
    ensures
        r == 8 - ones_of(b),
        r <= 8,
{
    let lo: u8 = b & 0xf;
    let hi: u8 = (b >> 4) & 0xf;
    proof {
        assert(lo < 16 && hi < 16 && (lo & 1) + ((lo >> 1) & 1) + ((lo >> 2) & 1) + ((lo >> 3) & 1)
            == (b & 1) + ((b >> 1) & 1) + ((b >> 2) & 1) + ((b >> 3) & 1) && (hi & 1) + ((hi >> 1)
            & 1) + ((hi >> 2) & 1) + ((hi >> 3) & 1) == ((b >> 4) & 1) + ((b >> 5) & 1) + ((b >> 6)
            & 1) + ((b >> 7) & 1)) by (bit_vector)
            requires
                lo == b & 0xf,
                hi == (b >> 4) & 0xf,
        ;
    }
    nibble_zero_bits(lo) + nibble_zero_bits(hi)
}

/// Whether the two bits that `key` selects among `len * 8` bits are set.
pub fn has_bits(key: &[u8], bits: &[u8], len: usize) -> (r: bool)
    requires
        key@.len() >= 4,
        0 < len,
        len * 8 <= usize::MAX,
        key_index(key@[0], key@[1], len * 8) / 8 < bits@.len(),
        key_index(key@[2], key@[3], len * 8) / 8 < bits@.len(),
    ensures
        r == (bit_at(bits@, key_index(key@[0], key@[1], len * 8)) && bit_at(
            bits@,
            key_index(key@[2], key@[3], len * 8),
        )),
{
    let idx1: usize = (key[0] as usize + 256 * (key[1] as usize)) % (len * 8);
    let idx2: usize = (key[2] as usize + 256 * (key[3] as usize)) % (len * 8);
    let m1: u8 = 1u8 << ((idx1 % 8) as u8);
    let m2: u8 = 1u8 << ((idx2 % 8) as u8);
    bits[idx1 / 8] & m1 != 0 && bits[idx2 / 8] & m2 != 0
}

/// Sets the two bits that `key` selects among `len * 8` bits.
pub fn set_bits(key: &[u8], bits: &mut [u8], len: usize)
    requires
        key@.len() >= 4,
        0 < len,
        len * 8 <= usize::MAX,
        key_index(key@[0], key@[1], len * 8) / 8 < old(bits)@.len(),
        key_index(key@[2], key@[3], len * 8) / 8 < old(bits)@.len(),
    ensures
        final(bits)@ == with_bit(
            with_bit(old(bits)@, key_index(key@[0], key@[1], len * 8)),
            key_index(key@[2], key@[3], len * 8),
        ),
{
    let idx1: usize = (key[0] as usize + 256 * (key[1] as usize)) % (len * 8);
    let idx2: usize = (key[2] as usize + 256 * (key[3] as usize)) % (len * 8);
    let m1: u8 = 1u8 << ((idx1 % 8) as u8);
    let m2: u8 = 1u8 << ((idx2 % 8) as u8);
    let b1: u8 = bits[idx1 / 8];
    bits[idx1 / 8] = b1 | m1;
    let b2: u8 = bits[idx2 / 8];
    bits[idx2 / 8] = b2 | m2;
    proof {
        assert(bits@ =~= with_bit(with_bit(old(bits)@, idx1 as int), idx2 as int));
    }
}

/// How many of the bits of the first `len` bytes of `bits` are zero.
pub fn count_zero_bits(bits: &[u8], len: usize) -> (r: usize)
    requires
        len <= bits@.len(),
        len * 8 <= usize::MAX,
    ensures
        r == zero_bits(bits@.take(len as int)),
        r <= len * 8,
{
    let mut ret: usize = 0;
    let mut i: usize = 0;
    proof {
        assert(bits@.take(0) =~= Seq::<u8>::empty());
    }
    while i < len
        invariant
            0 <= i <= len <= bits@.len(),
            len * 8 <= usize::MAX,
            ret == zero_bits(bits@.take(i as int)),
            ret <= i * 8,
        decreases len - i,
    {
        let z = byte_zero_bits(bits[i]);
        proof {
            assert(bits@.take(i + 1).drop_last() =~= bits@.take(i as int));
            assert(bits@.take(i + 1).last() == bits@[i as int]);
        }
        ret += z;
        i += 1;
    }
    ret
}

/// A set bit stays set when another is set, and the bit that was asked for
/// is set afterwards.
pub proof fn lemma_with_bit(bits: Seq<u8>, n: int, m: int)
    requires
        0 <= n < 8 * bits.len(),
        0 <= m < 8 * bits.len(),
    ensures
        bit_at(with_bit(bits, n), n),
        bit_at(bits, m) ==> bit_at(with_bit(bits, n), m),
        with_bit(bits, n).len() == bits.len(),
{
    let b = bits[n / 8];
    let s = (n % 8) as u8;
    assert((b | (1u8 << s)) & (1u8 << s) != 0) by (bit_vector)
        requires
            s < 8,
    ;
    if m / 8 == n / 8 {
        let t = (m % 8) as u8;
        assert(b & (1u8 << t) != 0 ==> (b | (1u8 << s)) & (1u8 << t) != 0) by (bit_vector)
            requires
                s < 8,
                t < 8,
        ;
    }
}

/// A set of keys in which each key stands for two bits of a bit field. A
/// key that was put in is always found; a key that was not may be found
/// too.
pub struct BloomFilter {
    bits: Vec<u8>,
}

impl View for BloomFilter {
    type V = Seq<u8>;

    closed spec fn view(&self) -> Seq<u8> {
        self.bits@
    }
}

impl BloomFilter {
    /// The filter has at least one byte, and the number of its bits fits the
    /// machine's word.
    pub open spec fn well_formed(&self) -> bool {
        0 < self@.len() && self@.len() * 8 <= usize::MAX
    }

    /// The first of the two bits that `key` selects.
    pub open spec fn first_bit(&self, key: &Sha1Hash) -> int {
        key_index(key@[0], key@[1], self@.len() as int * 8)
    }

    /// The second of the two bits that `key` selects.
    pub open spec fn second_bit(&self, key: &Sha1Hash) -> int {
        key_index(key@[2], key@[3], self@.len() as int * 8)
    }

    /// Whether the filter reports `key` as present.
    pub open spec fn holds(&self, key: &Sha1Hash) -> bool {
        bit_at(self@, self.first_bit(key)) && bit_at(self@, self.second_bit(key))
    }

    /// An empty filter of `size` bytes.
    pub fn new(size: usize) -> (r: BloomFilter)
        requires
            0 < size,
            size * 8 <= usize::MAX,
        ensures
            r@ == Seq::new(size as nat, |i: int| 0u8),
            r.well_formed(),
    {
        let mut bits: Vec<u8> = Vec::new();
        let mut i: usize = 0;
        while i < size
            invariant
                0 <= i <= size,
                bits@ == Seq::new(i as nat, |j: int| 0u8),
            decreases size - i,
        {
            bits.push(0);
            i += 1;
            proof {
                assert(bits@ =~= Seq::new(i as nat, |j: int| 0u8));
            }
        }
        BloomFilter { bits }
    }

    /// The filter whose bit field is `bits`.
    pub fn from_bytes(bits: Vec<u8>) -> (r: BloomFilter)
        ensures
            r@ == bits@,
    {
        BloomFilter { bits }
    }

    /// Whether both bits of `key` are set.
    pub fn find(&self, key: &Sha1Hash) -> (r: bool)
        requires
            self.well_formed(),
        ensures
            r == self.holds(key),
    {
        has_bits(key.data.as_slice(), self.bits.as_slice(), self.bits.len())
    }

    /// Sets both bits of `key`. No bit that is set is cleared.
    pub fn set(&mut self, key: &Sha1Hash)
        requires
            old(self).well_formed(),
        ensures
            final(self)@ == with_bit(
                with_bit(old(self)@, old(self).first_bit(key)),
                old(self).second_bit(key),
            ),
            final(self)@ == key_bits(old(self)@, key@),
            final(self).well_formed(),
            final(self).holds(key),
            forall|other: Sha1Hash| old(self).holds(&other) ==> final(self).holds(&other),
            forall|n: int|
                0 <= n < 8 * old(self)@.len() && bit_at(old(self)@, n) ==> bit_at(final(self)@, n),
    {
        let len = self.bits.len();
        let ghost before = self.bits@;
        set_bits(key.data.as_slice(), self.bits.as_mut_slice(), len);
        proof {
            let n1 = old(self).first_bit(key);
            let n2 = old(self).second_bit(key);
            let mid = with_bit(before, n1);
            lemma_with_bit(before, n1, n1);
            lemma_with_bit(mid, n2, n1);
            lemma_with_bit(mid, n2, n2);
            assert forall|n: int|
                0 <= n < 8 * old(self)@.len() && bit_at(old(self)@, n) implies bit_at(
                final(self)@,
                n,
            ) by {
                lemma_with_bit(before, n1, n);
                lemma_with_bit(mid, n2, n);
            }
            assert forall|other: Sha1Hash| old(self).holds(&other) implies final(self).holds(
                &other,
            ) by {
                let o1 = old(self).first_bit(&other);
                let o2 = old(self).second_bit(&other);
                lemma_with_bit(before, n1, o1);
                lemma_with_bit(before, n1, o2);
                lemma_with_bit(mid, n2, o1);
                lemma_with_bit(mid, n2, o2);
            }
        }
    }

    /// Clears every bit.
    pub fn clear(&mut self)
        ensures
            final(self)@ == Seq::new(old(self)@.len(), |i: int| 0u8),
    {
        let mut i: usize = 0;
        while i < self.bits.len()
            invariant
                0 <= i <= self.bits@.len(),
                self.bits@.len() == old(self).bits@.len(),
                forall|j: int| 0 <= j < i ==> self.bits@[j] == 0,
            decreases self.bits@.len() - i,
        {
            self.bits[i] = 0;
            i += 1;
        }
        proof {
            assert(self.bits@ =~= Seq::new(old(self)@.len(), |i: int| 0u8));
        }
    }

    /// The bit field.
    pub fn as_bytes(&self) -> (r: &[u8])
        ensures
            r@ == self@,
    {
        self.bits.as_slice()
    }

    /// How many bits are zero.
    pub fn count_zeros_bits(&self) -> (r: usize)
        requires
            self.well_formed(),
        ensures
            r == zero_bits(self@),
            r <= self@.len() * 8,
    {
        proof {
            assert(self.bits@.take(self.bits@.len() as int) =~= self.bits@);
        }
        count_zero_bits(self.bits.as_slice(), self.bits.len())
    }

    /// The number of zero bits that the size estimate works with: the count
    /// of zero bits, but at most one less than the number of bits.
    pub fn estimate_zero_bits(&self) -> (r: usize)
        requires
            self.well_formed(),
        ensures
            r == if zero_bits(self@) < self@.len() * 8 - 1 {
                zero_bits(self@) as int
            } else {
                self@.len() * 8 - 1
            },
    {
        let c = self.count_zeros_bits();
        let m = self.bits.len() * 8 - 1;
        if c < m {
            c
        } else {
            m
        }
    }
}

} // verus!
