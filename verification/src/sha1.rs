//! The 160-bit identifier: a SHA-1 digest, a node id, an infohash.

use crate::bigend::{
    be_value, lemma_be_value_bound, lemma_be_value_concat, lemma_be_value_ones,
    lemma_be_value_order, lemma_be_value_zeros,
};
use crate::order::{bytes_lt, key_order, KeyOrder};
use vstd::arithmetic::div_mod::{
    lemma_div_denominator, lemma_fundamental_div_mod_converse, lemma_mod_multiples_basic,
    lemma_mul_mod_noop_right, lemma_small_mod, lemma_truncate_middle,
};
use vstd::arithmetic::power2::{lemma2_to64, lemma_pow2_adds, lemma_pow2_pos, lemma_pow2_unfold,
    pow2};
use vstd::prelude::*;

verus! {

/// The number of bytes of an identifier.
pub const SIZE: usize = 20;

/// The SHA-1 digest of a byte string, as the digest crate computes it.
pub uninterp spec fn sha1_digest(bytes: Seq<u8>) -> Seq<u8>;

/// The SHA-1 digest of `bytes`.
///
/// Calls `Sha1::new`, `Sha1::update` and `Sha1::digest` of the crate `sha1`
/// and takes the digest's twenty bytes. The digest is a function of the
/// input alone; the contract gives it the name `sha1_digest` and claims
/// nothing else of it.
#[verifier::external_body]
fn digest_of(bytes: &[u8]) -> (r: [u8; 20])
    ensures
        r@ == sha1_digest(bytes@),
{
    let mut h = ::sha1::Sha1::new();
    h.update(bytes);
    h.digest().bytes()
}

/// A 160-bit identifier, held as twenty bytes with the most significant
/// first. Identifiers are ordered as the numbers they denote.
#[derive(Debug, PartialEq, Eq, PartialOrd, Ord, Hash, Clone, Copy)]
pub struct Sha1Hash {
    pub data: [u8; 20],
}

impl View for Sha1Hash {
    type V = Seq<u8>;

    open spec fn view(&self) -> Seq<u8> {
        self.data@
    }
}

/// How many leading zero bits a byte has.
pub open spec fn byte_leading_zeros(b: u8) -> nat {
    if b >= 0x80 {
        0
    } else if b >= 0x40 {
        1
    } else if b >= 0x20 {
        2
    } else if b >= 0x10 {
        3
    } else if b >= 0x08 {
        4
    } else if b >= 0x04 {
        5
    } else if b >= 0x02 {
        6
    } else if b >= 0x01 {
        7
    } else {
        8
    }
}

/// How many zero bits stand before the first one bit of `s`, counted from
/// index `from` on.
pub open spec fn leading_zero_bits(s: Seq<u8>, from: int) -> nat
    decreases s.len() - from,
{
    if from < 0 || from >= s.len() {
        0
    } else if s[from] == 0 {
        8 + leading_zero_bits(s, from + 1)
    } else {
        byte_leading_zeros(s[from])
    }
}

impl Sha1Hash {
    /// The number that the identifier denotes.
    pub open spec fn value(&self) -> nat {
        be_value(self@)
    }

    /// How many zero bits stand before the first one bit.
    pub open spec fn zeros(&self) -> nat {
        leading_zero_bits(self@, 0)
    }

    /// The identifier of all zero bits.
    pub fn new() -> (r: Self)
        ensures
            r@ == Seq::new(20, |i: int| 0u8),
            r.value() == 0,
    {
        Self::min()
    }

    /// The largest identifier: all one bits.
    pub fn max() -> (r: Self)
        ensures
            r@ == Seq::new(20, |i: int| 0xffu8),
            r.value() + 1 == pow2(160),
    {
        let r = Sha1Hash { data: [0xff;20] };
        proof {
            assert(r@ =~= Seq::new(20, |i: int| 0xffu8));
            lemma_be_value_ones(r@);
        }
        r
    }

    /// The smallest identifier: all zero bits.
    pub fn min() -> (r: Self)
        ensures
            r@ == Seq::new(20, |i: int| 0u8),
            r.value() == 0,
    {
        let r = Sha1Hash { data: [0;20] };
        proof {
            assert(r@ =~= Seq::new(20, |i: int| 0u8));
            lemma_be_value_zeros(r@);
        }
        r
    }

    /// The SHA-1 digest of `bytes`.
    pub fn update(bytes: &[u8]) -> (r: Self)
        ensures
            r@ == sha1_digest(bytes@),
    {
        Sha1Hash { data: digest_of(bytes) }
    }

    /// The SHA-1 digest of the octets of an address.
    pub fn from_address(addr: &crate::detail::IpAddress) -> (r: Self)
        ensures
            r@ == sha1_digest(addr.octets()),
    {
        Sha1Hash::update(addr.as_bytes())
    }

    /// The identifier that holds the twenty bytes of `bytes`.
    pub fn from_bytes(bytes: &[u8]) -> (r: Self)
        requires
            bytes@.len() == 20,
        ensures
            r@ == bytes@,
    {
        let mut buf: [u8; 20] = [0;20];
        let mut i: usize = 0;
        while i < 20
            invariant
                0 <= i <= 20,
                bytes@.len() == 20,
                forall|j: int| 0 <= j < i ==> buf@[j] == bytes@[j],
            decreases 20 - i,
        {
            buf[i] = bytes[i];
            i += 1;
        }
        proof {
            assert(buf@ =~= bytes@);
        }
        Sha1Hash { data: buf }
    }

    /// The identifier that holds the bytes of `data`.
    pub fn from_array(data: [u8; 20]) -> (r: Self)
        ensures
            r.data == data,
    {
        Sha1Hash { data }
    }

    /// The twenty bytes.
    pub fn data(&self) -> (r: &[u8; 20])
        ensures
            *r == self.data,
    {
        &self.data
    }

    /// The twenty bytes, for changing.
    pub fn data_mut(&mut self) -> (r: &mut [u8; 20])
        ensures
            *r == old(self).data,
            final(self).data == *final(r),
    {
        &mut self.data
    }

    /// The identifier as forty lower-case hexadecimal digits.
    pub fn to_string(&self) -> (r: String)
        ensures
            vstd::utf8::encode_utf8(r@) == crate::hex::hex_text(self@),
    {
        crate::hex::to_hex(self.data.as_slice())
    }

    /// The twenty bytes, one after another, the most significant first.
    pub fn iter(&self) -> (r: Vec<u8>)
        ensures
            r@ == self@,
    {
        vstd::slice::slice_to_vec(self.data.as_slice())
    }

    /// The twenty bytes as a slice, for changing them one after another.
    pub fn iter_mut(&mut self) -> (r: &mut [u8])
        ensures
            r@ == old(self)@,
            final(self)@ == final(r)@,
    {
        &mut self.data
    }

    /// The twenty bytes as a slice.
    pub fn as_bytes(&self) -> (r: &[u8])
        ensures
            r@ == self@,
    {
        self.data.as_slice()
    }

    /// The byte at `index`.
    pub fn index(&self, index: usize) -> (r: u8)
        requires
            index < 20,
        ensures
            r == self@[index as int],
    {
        self.data[index]
    }

    /// Whether the bit at `index` is set, the first bit being the most
    /// significant.
    pub fn bit(&self, index: usize) -> (r: bool)
        requires
            index < 160,
        ensures
            r == ((self@[index as int / 8] >> ((7 - index % 8) as u8)) & 1u8 == 1u8),
    {
        let byte: u8 = self.data[index / 8];
        let shift: u8 = (7 - index % 8) as u8;
        (byte >> shift) & 1 == 1
    }

    /// The byte at `index`, for changing.
    pub fn index_mut(&mut self, index: usize) -> (r: &mut u8)
        requires
            index < 20,
        ensures
            *r == old(self)@[index as int],
            final(self)@ == old(self)@.update(index as int, *final(r)),
    {
        &mut self.data[index]
    }

    /// Sets every bit to zero.
    pub fn clear(&mut self)
        ensures
            final(self)@ == Seq::new(20, |i: int| 0u8),
            final(self).value() == 0,
    {
        let mut i: usize = 0;
        while i < 20
            invariant
                0 <= i <= 20,
                forall|j: int| 0 <= j < i ==> self.data@[j] == 0,
            decreases 20 - i,
        {
            self.data[i] = 0;
            i += 1;
        }
        proof {
            assert(self@ =~= Seq::new(20, |i: int| 0u8));
            lemma_be_value_zeros(self@);
        }
    }

    /// Whether every bit is zero.
    pub fn all_zeroes(&self) -> (r: bool)
        ensures
            r == (self@ == Seq::new(20, |i: int| 0u8)),
            r == (self.value() == 0),
    {
        let mut i: usize = 0;
        while i < 20
            invariant
                0 <= i <= 20,
                forall|j: int| 0 <= j < i ==> self.data@[j] == 0,
            decreases 20 - i,
        {
            if self.data[i] != 0 {
                proof {
                    let z = Seq::new(20, |i: int| 0u8);
                    assert(z[i as int] == 0);
                    lemma_be_value_zeros(z);
                    lemma_be_value_order(self@, z);
                }
                return false;
            }
            i += 1;
        }
        proof {
            assert(self@ =~= Seq::new(20, |i: int| 0u8));
            lemma_be_value_zeros(self@);
        }
        true
    }

    /// How many zero bits stand before the first one bit, 160 where there is
    /// none.
    pub fn leading_zeros(&self) -> (r: usize)
        ensures
            r == self.zeros(),
            r <= 160,
            self.value() < pow2((160 - r) as nat),
            r < 160 ==> self.value() >= pow2((159 - r) as nat),
    {
        let mut count: usize = 0;
        let mut i: usize = 0;
        while i < 20
            invariant
                0 <= i <= 20,
                count == 8 * i,
                forall|j: int| 0 <= j < i ==> self.data@[j] == 0,
                self.zeros() == count + leading_zero_bits(self@, i as int),
            decreases 20 - i,
        {
            let v: u8 = self.data[i];
            if v == 0 {
                count += 8;
            } else {
                let z: usize = if v >= 0x80 {
                    0
                } else if v >= 0x40 {
                    1
                } else if v >= 0x20 {
                    2
                } else if v >= 0x10 {
                    3
                } else if v >= 0x08 {
                    4
                } else if v >= 0x04 {
                    5
                } else if v >= 0x02 {
                    6
                } else {
                    7
                };
                proof {
                    lemma_leading_byte(self@, i as int);
                }
                return count + z;
            }
            i += 1;
        }
        proof {
            lemma_be_value_zeros(self@);
            lemma2_to64();
        }
        count
    }

    /// Whether this identifier is smaller than `other`.
    pub fn lt(&self, other: &Sha1Hash) -> (r: bool)
        ensures
            r == (self.value() < other.value()),
            r == bytes_lt(self@, other@),
    {
        proof {
            lemma_be_value_order(self@, other@);
        }
        match key_order(self.data.as_slice(), other.data.as_slice()) {
            KeyOrder::Less => true,
            _ => false,
        }
    }

    /// Whether this identifier is at most `other`.
    pub fn le(&self, other: &Sha1Hash) -> (r: bool)
        ensures
            r == (self.value() <= other.value()),
    {
        proof {
            lemma_be_value_order(self@, other@);
        }
        match key_order(self.data.as_slice(), other.data.as_slice()) {
            KeyOrder::Greater => false,
            _ => true,
        }
    }

    /// Whether the two identifiers are the same.
    pub fn same(&self, other: &Sha1Hash) -> (r: bool)
        ensures
            r == (*self == *other),
            r == (self@ == other@),
            r == (self.value() == other.value()),
    {
        proof {
            lemma_be_value_order(self@, other@);
            if self@ == other@ {
                assert(self.data@ =~= other.data@);
                assert(self.data =~= other.data);
            }
        }
        match key_order(self.data.as_slice(), other.data.as_slice()) {
            KeyOrder::Equal => true,
            _ => false,
        }
    }

    /// The identifier with every bit flipped.
    pub fn not(self) -> (r: Sha1Hash)
        ensures
            forall|i: int| 0 <= i < 20 ==> r@[i] == !self@[i],
    {
        let mut out = self;
        let mut i: usize = 0;
        while i < 20
            invariant
                0 <= i <= 20,
                forall|j: int| 0 <= j < i ==> out.data@[j] == !self.data@[j],
                forall|j: int| i <= j < 20 ==> out.data@[j] == self.data@[j],
            decreases 20 - i,
        {
            out.data[i] = !out.data[i];
            i += 1;
        }
        out
    }

    /// The identifier whose bits are the exclusive or of the bits of both.
    pub fn bitxor(&self, other: &Sha1Hash) -> (r: Sha1Hash)
        ensures
            forall|i: int| 0 <= i < 20 ==> r@[i] == self@[i] ^ other@[i],
    {
        let mut out = *self;
        let mut i: usize = 0;
        while i < 20
            invariant
                0 <= i <= 20,
                forall|j: int| 0 <= j < i ==> out.data@[j] == self.data@[j] ^ other.data@[j],
                forall|j: int| i <= j < 20 ==> out.data@[j] == self.data@[j],
            decreases 20 - i,
        {
            out.data[i] = out.data[i] ^ other.data[i];
            i += 1;
        }
        out
    }

    /// The identifier whose bits are set where they are set in both.
    pub fn bitand(&self, other: &Sha1Hash) -> (r: Sha1Hash)
        ensures
            forall|i: int| 0 <= i < 20 ==> r@[i] == self@[i] & other@[i],
    {
        let mut out = *self;
        let mut i: usize = 0;
        while i < 20
            invariant
                0 <= i <= 20,
                forall|j: int| 0 <= j < i ==> out.data@[j] == self.data@[j] & other.data@[j],
                forall|j: int| i <= j < 20 ==> out.data@[j] == self.data@[j],
            decreases 20 - i,
        {
            out.data[i] = out.data[i] & other.data[i];
            i += 1;
        }
        out
    }

    /// The identifier whose bits are set where they are set in either.
    pub fn bitor(&self, other: &Sha1Hash) -> (r: Sha1Hash)
        ensures
            forall|i: int| 0 <= i < 20 ==> r@[i] == self@[i] | other@[i],
    {
        let mut out = *self;
        let mut i: usize = 0;
        while i < 20
            invariant
                0 <= i <= 20,
                forall|j: int| 0 <= j < i ==> out.data@[j] == self.data@[j] | other.data@[j],
                forall|j: int| i <= j < 20 ==> out.data@[j] == self.data@[j],
            decreases 20 - i,
        {
            out.data[i] = out.data[i] | other.data[i];
            i += 1;
        }
        out
    }

    /// Replaces this identifier by its exclusive or with `other`.
    pub fn bitxor_assign(&mut self, other: &Sha1Hash)
        ensures
            forall|i: int| 0 <= i < 20 ==> final(self)@[i] == old(self)@[i] ^ other@[i],
    {
        let r = self.bitxor(other);
        *self = r;
    }

    /// Replaces this identifier by its bitwise and with `other`.
    pub fn bitand_assign(&mut self, other: &Sha1Hash)
        ensures
            forall|i: int| 0 <= i < 20 ==> final(self)@[i] == old(self)@[i] & other@[i],
    {
        let r = self.bitand(other);
        *self = r;
    }

    /// Replaces this identifier by its bitwise or with `other`.
    pub fn bitor_assign(&mut self, other: &Sha1Hash)
        ensures
            forall|i: int| 0 <= i < 20 ==> final(self)@[i] == old(self)@[i] | other@[i],
    {
        let r = self.bitor(other);
        *self = r;
    }
}

/// `(256 a + b) mod (256 m)` for a byte `b`.
proof fn lemma_mod_shift_byte(a: int, b: int, m: int)
    requires
        0 <= a,
        0 <= b < 256,
        0 < m,
    ensures
        (256 * a + b) % (256 * m) == 256 * (a % m) + b,
{
    lemma_truncate_middle(a, 256, m);
    let q = a / m;
    let r = a % m;
    vstd::arithmetic::div_mod::lemma_fundamental_div_mod(a, m);
    assert(0 <= r < m) by {
        vstd::arithmetic::div_mod::lemma_mod_bound(a, m);
    }
    assert(256 * a + b == q * (256 * m) + (256 * r + b)) by (nonlinear_arith)
        requires
            a == m * q + r,
    ;
    assert(256 * r + b < 256 * m) by (nonlinear_arith)
        requires
            r < m,
            b < 256,
            r >= 0,
    ;
    lemma_fundamental_div_mod_converse(256 * a + b, 256 * m, q, 256 * r + b);
}

impl Sha1Hash {
    /// Moves every byte `k` places toward the front and fills with zeros.
    fn shift_bytes_left(&mut self, k: usize)
        requires
            0 < k < 20,
        ensures
            final(self).value() == (old(self).value() * pow2((8 * k) as nat)) % pow2(160),
    {
        let ghost d0 = self@;
        let mut i: usize = 0;
        while i < 20
            invariant
                0 <= i <= 20,
                0 < k < 20,
                self@.len() == 20,
                d0.len() == 20,
                forall|j: int| 0 <= j < i ==> self@[j] == (if j + k < 20 {
                    d0[j + k]
                } else {
                    0u8
                }),
                forall|j: int| i <= j < 20 ==> self@[j] == d0[j],
            decreases 20 - i,
        {
            if i + k < 20 {
                self.data[i] = self.data[i + k];
            } else {
                self.data[i] = 0;
            }
            i += 1;
        }
        proof {
            let zeros = Seq::new(k as nat, |j: int| 0u8);
            let low = d0.skip(k as int);
            let high = d0.take(k as int);
            assert(self@ =~= low + zeros);
            assert(d0 =~= high + low);
            lemma_be_value_concat(low, zeros);
            lemma_be_value_concat(high, low);
            lemma_be_value_zeros(zeros);
            lemma_be_value_bound(low);
            let a = pow2((8 * (20 - k)) as nat);
            let b = pow2((8 * k) as nat);
            lemma_pow2_pos((8 * (20 - k)) as nat);
            lemma_pow2_pos((8 * k) as nat);
            lemma_pow2_adds((8 * k) as nat, (8 * (20 - k)) as nat);
            let v = be_value(d0) as int;
            lemma_fundamental_div_mod_converse(
                v,
                a as int,
                be_value(high) as int,
                be_value(low) as int,
            );
            lemma_truncate_middle(v, b as int, a as int);
            assert(v * b == b * v) by (nonlinear_arith);
        }
    }

    /// Moves every byte `k` places toward the back and fills with zeros.
    fn shift_bytes_right(&mut self, k: usize)
        requires
            0 < k < 20,
        ensures
            final(self).value() == old(self).value() / pow2((8 * k) as nat),
    {
        let ghost d0 = self@;
        let mut i: usize = 20;
        while i > 0
            invariant
                0 <= i <= 20,
                0 < k < 20,
                self@.len() == 20,
                d0.len() == 20,
                forall|j: int| i <= j < 20 ==> self@[j] == (if j >= k {
                    d0[j - k]
                } else {
                    0u8
                }),
                forall|j: int| 0 <= j < i ==> self@[j] == d0[j],
            decreases i,
        {
            i -= 1;
            if i >= k {
                self.data[i] = self.data[i - k];
            } else {
                self.data[i] = 0;
            }
        }
        proof {
            let zeros = Seq::new(k as nat, |j: int| 0u8);
            let high = d0.take(20 - k);
            let low = d0.skip(20 - k);
            assert(self@ =~= zeros + high);
            assert(d0 =~= high + low);
            lemma_be_value_concat(zeros, high);
            lemma_be_value_concat(high, low);
            lemma_be_value_zeros(zeros);
            lemma_be_value_bound(low);
            let b = pow2((8 * k) as nat);
            lemma_pow2_pos((8 * k) as nat);
            assert(0 * pow2(8 * high.len()) == 0);
            lemma_fundamental_div_mod_converse(
                be_value(d0) as int,
                b as int,
                be_value(high) as int,
                be_value(low) as int,
            );
        }
    }

    /// Shifts by one bit toward the front; the first bit is lost.
    fn shift_bit_left(&mut self)
        ensures
            final(self).value() == (2 * old(self).value()) % pow2(160),
    {
        let ghost d0 = self@;
        let mut i: usize = 0;
        proof {
            lemma2_to64();
            assert(self@.take(0) =~= Seq::<u8>::empty());
            assert(d0.take(0) =~= Seq::<u8>::empty());
        }
        while i < 20
            invariant
                0 <= i <= 20,
                self@.len() == 20,
                d0.len() == 20,
                forall|j: int| i <= j < 20 ==> self@[j] == d0[j],
                be_value(self@.take(i as int)) == (2 * be_value(d0.take(i as int)) + (if i < 20 {
                    (d0[i as int] >> 7) as nat
                } else {
                    0nat
                })) % pow2((8 * i) as nat),
            decreases 20 - i,
        {
            let x: u8 = self.data[i];
            let t: u8 = if i + 1 < 20 {
                self.data[i + 1] >> 7
            } else {
                0
            };
            let y: u8 = (x << 1) | t;
            let ghost before = self@;
            self.data[i] = y;
            proof {
                let m = pow2((8 * i) as nat);
                lemma_pow2_pos((8 * i) as nat);
                lemma_pow2_adds(8, (8 * i) as nat);
                lemma2_to64();
                let v = be_value(d0.take(i as int)) as int;
                let top = (x >> 7) as int;
                assert(t <= 1) by (bit_vector)
                    requires
                        t == 0 || exists|z: u8| t == z >> 7,
                ;
                assert(y as int == (2 * (x as int)) % 256 + t as int && 2 * (x as int) == 256 * ((x
                    >> 7) as int) + (2 * (x as int)) % 256) by (bit_vector)
                    requires
                        y == (x << 1) | t,
                        t <= 1,
                ;
                assert(self@.take(i + 1).drop_last() =~= before.take(i as int));
                assert(self@.take(i + 1).last() == y);
                assert(d0.take(i + 1).drop_last() =~= d0.take(i as int));
                assert(d0.take(i + 1).last() == x);
                let a = 2 * v + top;
                let b = (2 * (x as int)) % 256 + t as int;
                lemma_mod_shift_byte(a, b, m as int);
                assert(2 * (256 * v + x as int) + t as int == 256 * a + b);
                assert(pow2((8 * (i + 1)) as nat) == 256 * m);
            }
            i += 1;
        }
        proof {
            assert(self@.take(20) =~= self@);
            assert(d0.take(20) =~= d0);
        }
    }

    /// Shifts by one bit toward the back; the last bit is lost.
    fn shift_bit_right(&mut self)
        ensures
            final(self).value() == old(self).value() / 2,
    {
        let ghost d0 = self@;
        let mut i: usize = 0;
        let mut carry: u8 = 0;
        proof {
            assert(self@.take(0) =~= Seq::<u8>::empty());
            assert(d0.take(0) =~= Seq::<u8>::empty());
        }
        while i < 20
            invariant
                0 <= i <= 20,
                self@.len() == 20,
                d0.len() == 20,
                forall|j: int| i <= j < 20 ==> self@[j] == d0[j],
                be_value(self@.take(i as int)) == be_value(d0.take(i as int)) / 2,
                carry as nat == (be_value(d0.take(i as int)) % 2) * 128,
            decreases 20 - i,
        {
            let x: u8 = self.data[i];
            let y: u8 = (x >> 1) | carry;
            let next: u8 = (x & 1) << 7;
            let ghost before = self@;
            self.data[i] = y;
            proof {
                assert(y as int == (x as int) / 2 + carry as int && next as int == ((x as int) % 2)
                    * 128) by (bit_vector)
                    requires
                        y == (x >> 1) | carry,
                        next == (x & 1) << 7,
                        carry == 0 || carry == 128,
                ;
                assert(self@.take(i + 1).drop_last() =~= before.take(i as int));
                assert(self@.take(i + 1).last() == y);
                assert(d0.take(i + 1).drop_last() =~= d0.take(i as int));
                assert(d0.take(i + 1).last() == x);
            }
            carry = next;
            i += 1;
        }
        proof {
            assert(self@.take(20) =~= self@);
            assert(d0.take(20) =~= d0);
        }
    }

    /// Shifts the identifier `shift` bits toward the front, as a 160-bit
    /// number is multiplied by a power of two. Bits that leave at the front
    /// are lost; a shift by 160 or more leaves zero.
    pub fn shl_assign(&mut self, shift: usize)
        ensures
            final(self).value() == (old(self).value() * pow2(shift as nat)) % pow2(160),
            shift >= 160 ==> final(self)@ == Seq::new(20, |i: int| 0u8),
    {
        let ghost v = self.value();
        let shift_bytes: usize = shift / 8;
        if shift_bytes >= 20 {
            self.clear();
            proof {
                lemma_pow2_adds(160, (shift - 160) as nat);
                lemma_pow2_pos(160);
                let q = pow2((shift - 160) as nat);
                assert(v * (pow2(160) * q) == (v * q) * pow2(160)) by (nonlinear_arith);
                lemma_mod_multiples_basic((v * q) as int, pow2(160) as int);
            }
            return ;
        }
        if shift_bytes > 0 {
            self.shift_bytes_left(shift_bytes);
        } else {
            proof {
                lemma2_to64();
                lemma_be_value_bound(self@);
                lemma_small_mod(v, pow2(160));
                assert(v * 1 == v);
            }
        }
        let bits: usize = shift % 8;
        let mut j: usize = 0;
        while j < bits
            invariant
                0 <= j <= bits < 8,
                shift == 8 * shift_bytes + bits,
                self.value() == (v * pow2((8 * shift_bytes + j) as nat)) % pow2(160),
            decreases bits - j,
        {
            self.shift_bit_left();
            proof {
                let e = (8 * shift_bytes + j) as nat;
                lemma_pow2_pos(160);
                lemma_pow2_unfold(e + 1);
                lemma_mul_mod_noop_right(2, (v * pow2(e)) as int, pow2(160) as int);
                assert(2 * (v * pow2(e)) == v * (2 * pow2(e))) by (nonlinear_arith);
            }
            j += 1;
        }
    }

    /// Shifts the identifier `shift` bits toward the back, as a number is
    /// divided by a power of two. A shift by 160 or more leaves zero.
    pub fn shr_assign(&mut self, shift: usize)
        ensures
            final(self).value() == old(self).value() / pow2(shift as nat),
            shift >= 160 ==> final(self)@ == Seq::new(20, |i: int| 0u8),
    {
        let ghost v = self.value();
        let shift_bytes: usize = shift / 8;
        if shift_bytes >= 20 {
            proof {
                lemma_be_value_bound(self@);
                lemma_pow2_adds(160, (shift - 160) as nat);
                lemma_pow2_pos((shift - 160) as nat);
                let q = pow2((shift - 160) as nat);
                assert(pow2(160) <= pow2(160) * q) by (nonlinear_arith)
                    requires
                        q >= 1,
                ;
                vstd::arithmetic::div_mod::lemma_basic_div(v as int, pow2(shift as nat) as int);
            }
            self.clear();
            return ;
        }
        if shift_bytes > 0 {
            self.shift_bytes_right(shift_bytes);
        } else {
            proof {
                lemma2_to64();
                assert(pow2(0) == 1);
                assert(v as int / 1 == v);
            }
        }
        let bits: usize = shift % 8;
        let mut j: usize = 0;
        while j < bits
            invariant
                0 <= j <= bits < 8,
                shift == 8 * shift_bytes + bits,
                self.value() == v / pow2((8 * shift_bytes + j) as nat),
            decreases bits - j,
        {
            self.shift_bit_right();
            proof {
                let e = (8 * shift_bytes + j) as nat;
                lemma_pow2_pos(e);
                lemma_pow2_unfold(e + 1);
                lemma_div_denominator(v as int, pow2(e) as int, 2);
                assert(pow2(e) * 2 == 2 * pow2(e));
            }
            j += 1;
        }
    }
}

/// The value of a string is that of its first byte, raised by the length of
/// the rest, and of the rest.
pub proof fn lemma_be_value_first(s: Seq<u8>)
    requires
        s.len() > 0,
    ensures
        be_value(s) == s[0] as nat * pow2((8 * (s.len() - 1)) as nat) + be_value(s.skip(1)),
{
    let head = s.take(1);
    assert(s =~= head + s.skip(1));
    lemma_be_value_concat(head, s.skip(1));
    assert(head.drop_last() =~= Seq::<u8>::empty());
    assert(be_value(head) == s[0] as nat) by {
        assert(be_value(head.drop_last()) == 0);
        assert(head.last() == s[0]);
    }
}

impl Sha1Hash {
    /// The sum of the two identifiers as 160-bit numbers; a carry out of the
    /// first bit is lost.
    pub fn add(&self, other: &Sha1Hash) -> (r: Sha1Hash)
        ensures
            r.value() == (self.value() + other.value()) % pow2(160),
            self.value() + other.value() < pow2(160) ==> r.value() == self.value() + other.value(),
    {
        let mut out = Sha1Hash { data: [0;20] };
        let mut carry: u16 = 0;
        let mut i: usize = 20;
        proof {
            lemma2_to64();
            assert(out@.skip(20) =~= Seq::<u8>::empty());
            assert(self@.skip(20) =~= Seq::<u8>::empty());
            assert(other@.skip(20) =~= Seq::<u8>::empty());
        }
        while i > 0
            invariant
                0 <= i <= 20,
                carry <= 1,
                be_value(out@.skip(i as int)) + carry as nat * pow2((8 * (20 - i)) as nat)
                    == be_value(self@.skip(i as int)) + be_value(other@.skip(i as int)),
            decreases i,
        {
            i -= 1;
            let sum: u16 = self.data[i] as u16 + other.data[i] as u16 + carry;
            let ghost before = out@;
            out.data[i] = (sum % 256) as u8;
            proof {
                let p = pow2((8 * (19 - i)) as nat);
                lemma_pow2_adds(8, (8 * (19 - i)) as nat);
                lemma2_to64();
                lemma_be_value_first(out@.skip(i as int));
                lemma_be_value_first(self@.skip(i as int));
                lemma_be_value_first(other@.skip(i as int));
                assert(out@.skip(i as int).skip(1) =~= before.skip(i + 1));
                assert(self@.skip(i as int).skip(1) =~= self@.skip(i + 1));
                assert(other@.skip(i as int).skip(1) =~= other@.skip(i + 1));
                let a = self@[i as int] as int;
                let b = other@[i as int] as int;
                let c = carry as int;
                let lo = (sum % 256) as int;
                let hi = (sum / 256) as int;
                assert(a + b + c == hi * 256 + lo);
                assert((a + b + c) * p == hi * (256 * p) + lo * p) by (nonlinear_arith)
                    requires
                        a + b + c == hi * 256 + lo,
                ;
                assert((a + b + c) * p == a * p + b * p + c * p) by (nonlinear_arith);
            }
            carry = sum / 256;
        }
        proof {
            assert(out@.skip(0) =~= out@);
            assert(self@.skip(0) =~= self@);
            assert(other@.skip(0) =~= other@);
            lemma_be_value_bound(out@);
            lemma_pow2_pos(160);
            let total = (self.value() + other.value()) as int;
            let m = pow2(160) as int;
            if carry == 0 {
                lemma_small_mod(total as nat, m as nat);
            } else {
                lemma_fundamental_div_mod_converse(total, m, 1, out.value() as int);
            }
        }
        out
    }

    /// The difference of the two identifiers as 160-bit numbers; where
    /// `other` is the larger the difference wraps around.
    pub fn sub(&self, other: &Sha1Hash) -> (r: Sha1Hash)
        ensures
            r.value() == (self.value() - other.value()) % (pow2(160) as int),
            self.value() >= other.value() ==> r.value() == self.value() - other.value(),
    {
        let mut out = Sha1Hash { data: [0;20] };
        let mut borrow: u16 = 0;
        let mut i: usize = 20;
        proof {
            lemma2_to64();
            assert(out@.skip(20) =~= Seq::<u8>::empty());
            assert(self@.skip(20) =~= Seq::<u8>::empty());
            assert(other@.skip(20) =~= Seq::<u8>::empty());
        }
        while i > 0
            invariant
                0 <= i <= 20,
                borrow <= 1,
                be_value(out@.skip(i as int)) + be_value(other@.skip(i as int)) == be_value(
                    self@.skip(i as int),
                ) + borrow as nat * pow2((8 * (20 - i)) as nat),
            decreases i,
        {
            i -= 1;
            let need: u16 = other.data[i] as u16 + borrow;
            let have: u16 = self.data[i] as u16;
            let ghost before = out@;
            let next: u16 = if have < need {
                1
            } else {
                0
            };
            let digit: u16 = have + 256 * next - need;
            out.data[i] = digit as u8;
            proof {
                let p = pow2((8 * (19 - i)) as nat);
                lemma_pow2_adds(8, (8 * (19 - i)) as nat);
                lemma2_to64();
                lemma_be_value_first(out@.skip(i as int));
                lemma_be_value_first(self@.skip(i as int));
                lemma_be_value_first(other@.skip(i as int));
                assert(out@.skip(i as int).skip(1) =~= before.skip(i + 1));
                assert(self@.skip(i as int).skip(1) =~= self@.skip(i + 1));
                assert(other@.skip(i as int).skip(1) =~= other@.skip(i + 1));
                let a = self@[i as int] as int;
                let b = other@[i as int] as int;
                let c = borrow as int;
                let d = digit as int;
                let n = next as int;
                assert(d + b + c == a + 256 * n);
                assert((d + b + c) * p == a * p + n * (256 * p)) by (nonlinear_arith)
                    requires
                        d + b + c == a + 256 * n,
                ;
                assert((d + b + c) * p == d * p + b * p + c * p) by (nonlinear_arith);
            }
            borrow = next;
        }
        proof {
            assert(out@.skip(0) =~= out@);
            assert(self@.skip(0) =~= self@);
            assert(other@.skip(0) =~= other@);
            lemma_be_value_bound(out@);
            lemma_be_value_bound(self@);
            lemma_be_value_bound(other@);
            lemma_pow2_pos(160);
            let diff = self.value() as int - other.value() as int;
            let m = pow2(160) as int;
            if borrow == 0 {
                lemma_small_mod(diff as nat, m as nat);
            } else {
                lemma_fundamental_div_mod_converse(diff, m, -1, out.value() as int);
            }
        }
        out
    }

    /// The identifier that denotes the next number; the largest identifier
    /// is followed by zero.
    pub fn successor(&self) -> (r: Sha1Hash)
        ensures
            r.value() == (self.value() + 1) % pow2(160),
            self.value() + 1 < pow2(160) ==> r.value() == self.value() + 1,
    {
        let mut one = Sha1Hash { data: [0;20] };
        one.data[19] = 1;
        proof {
            lemma2_to64();
            let z = one@.drop_last();
            lemma_be_value_zeros(z);
            assert(one@.last() == 1);
        }
        self.add(&one)
    }
}

/// Where the first byte that is not zero stands at `m`, the number lies
/// between the powers of two that the byte's leading zeros give.
proof fn lemma_leading_byte(s: Seq<u8>, m: int)
    requires
        s.len() == 20,
        0 <= m < 20,
        forall|j: int| 0 <= j < m ==> s[j] == 0,
        s[m] != 0,
    ensures
        be_value(s) < pow2((160 - (8 * m + byte_leading_zeros(s[m]))) as nat),
        be_value(s) >= pow2((159 - (8 * m + byte_leading_zeros(s[m]))) as nat),
{
    lemma2_to64();
    let head = s.take(m);
    let mid = s.subrange(m, m + 1);
    let rest = s.skip(m + 1);
    assert(s =~= head + mid + rest);
    lemma_be_value_zeros(head);
    lemma_be_value_concat(head, mid);
    lemma_be_value_concat(head + mid, rest);
    lemma_be_value_bound(rest);
    assert(mid.drop_last() =~= Seq::<u8>::empty());
    assert(be_value(mid) == s[m] as nat) by {
        assert(be_value(mid.drop_last()) == 0);
        assert(mid.last() == s[m]);
    }
    let k = (8 * (19 - m)) as nat;
    assert(rest.len() == 19 - m);
    let p = pow2(k);
    let z = byte_leading_zeros(s[m]);
    let b = s[m] as nat;
    assert(be_value(head + mid) == b) by {
        assert(0 * pow2(8 * mid.len()) == 0);
    }
    assert(be_value(s) == b * p + be_value(rest));
    lemma_pow2_adds((7 - z) as nat, k);
    lemma_pow2_adds((8 - z) as nat, k);
    assert(pow2((7 - z) as nat) <= b < pow2((8 - z) as nat));
    assert(pow2((7 - z) as nat) * p <= b * p) by (nonlinear_arith)
        requires
            pow2((7 - z) as nat) <= b,
    ;
    assert((b + 1) * p <= pow2((8 - z) as nat) * p) by (nonlinear_arith)
        requires
            b + 1 <= pow2((8 - z) as nat),
    ;
    assert((b + 1) * p == b * p + p) by (nonlinear_arith);
    assert((7 - z) as nat + k == (159 - (8 * m + z)) as nat);
    assert((8 - z) as nat + k == (160 - (8 * m + z)) as nat);
}

/// Taking the exclusive or with the same identifier twice gives the first
/// identifier back.
pub proof fn lemma_xor_twice(a: Sha1Hash, b: Sha1Hash, ab: Sha1Hash, abb: Sha1Hash)
    requires
        forall|i: int| 0 <= i < 20 ==> ab@[i] == a@[i] ^ b@[i],
        forall|i: int| 0 <= i < 20 ==> abb@[i] == ab@[i] ^ b@[i],
    ensures
        abb == a,
{
    assert forall|i: int| 0 <= i < 20 implies abb.data@[i] == a.data@[i] by {
        let x = a@[i];
        let y = b@[i];
        assert((x ^ y) ^ y == x) by (bit_vector);
        assert(ab@[i] == x ^ y);
        assert(abb@[i] == ab@[i] ^ y);
    }
    assert(abb.data@.len() == 20);
    assert(a.data@.len() == 20);
    assert(abb.data@ =~= a.data@);
    assert(abb.data =~= a.data);
}

/// The identifier of all zero bits has 160 leading zeros, the identifier of
/// all one bits has none.
pub proof fn lemma_leading_zeros_of_ends(zero: Sha1Hash, ones: Sha1Hash)
    requires
        zero@ == Seq::new(20, |i: int| 0u8),
        ones@ == Seq::new(20, |i: int| 0xffu8),
    ensures
        zero.zeros() == 160,
        ones.zeros() == 0,
{
    reveal_with_fuel(leading_zero_bits, 21);
}

impl core::convert::From<[u8; 20]> for Sha1Hash {
    fn from(data: [u8; 20]) -> (r: Sha1Hash) {
        Sha1Hash { data }
    }
}

impl vstd::std_specs::convert::FromSpecImpl<[u8; 20]> for Sha1Hash {
    open spec fn obeys_from_spec() -> bool {
        true
    }

    open spec fn from_spec(data: [u8; 20]) -> Sha1Hash {
        Sha1Hash { data }
    }
}

} // verus!
