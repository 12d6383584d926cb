//! Ids that are drawn at random, and ids at a given distance.

use crate::bigend::{be_value, lemma_be_value_bound, pad_to_twenty};
use crate::hex::to_hex;
use crate::node::xor_bytes;
use crate::random::fill_bytes;
use crate::sha1::{leading_zero_bits, Sha1Hash};
use num_bigint::{BigUint, RandBigInt};
use vstd::prelude::*;
use vstd::string::StringSliceAdditionalSpecFns;

verus! {

/// A 160-bit id, held as twenty bytes with the most significant first.
#[derive(Debug, PartialEq, Eq, PartialOrd, Ord, Hash, Default, Clone, Copy)]
pub struct Id(pub [u8; 20]);

/// Why a text is no id.
#[derive(Debug, Clone, Copy, PartialEq, Eq)]
pub struct ParseError {
    /// How many bytes an id has.
    pub expected: usize,
    /// How many bytes the text has.
    pub actual: usize,
}

impl View for Id {
    type V = Seq<u8>;

    open spec fn view(&self) -> Seq<u8> {
        self.0@
    }
}

/// The bytes of the number `2^bits - 1`: the last `bits` bits are set.
pub open spec fn low_mask(bits: int) -> Seq<u8> {
    Seq::new(
        20,
        |i: int|
            if i > (160 - bits) / 8 {
                0xffu8
            } else if i == (160 - bits) / 8 {
                if bits % 8 == 0 {
                    0xffu8
                } else {
                    0xffu8 >> ((8 - bits % 8) as u8)
                }
            } else {
                0u8
            },
    )
}

/// The bytes of a number from `lo` up to but not including `hi`, drawn at
/// random, the most significant byte first.
///
/// Calls `RandBigInt::gen_biguint_range` of the crate `num-bigint` on the
/// generator of the thread, after `BigUint::from_bytes_be` has made numbers
/// of the two bounds; `BigUint::to_bytes_be` gives the bytes of the
/// outcome. The crate documents that the lower bound is inclusive and the
/// upper bound exclusive, and that the call fails where the upper bound is
/// not the greater. Nothing else is known of the outcome.
#[verifier::external_body]
fn random_between(lo: &[u8; 20], hi: &[u8; 20]) -> (r: Vec<u8>)
    requires
        be_value(lo@) < be_value(hi@),
    ensures
        be_value(lo@) <= be_value(r@) < be_value(hi@),
{
    let lo = BigUint::from_bytes_be(lo);
    let hi = BigUint::from_bytes_be(hi);
    rand::thread_rng().gen_biguint_range(&lo, &hi).to_bytes_be()
}

impl Id {
    /// The number that the id denotes.
    pub open spec fn value(&self) -> nat {
        be_value(self@)
    }

    /// An id drawn at random.
    pub fn new() -> (r: Id) {
        let mut buf: [u8; 20] = [0;20];
        fill_bytes(&mut buf);
        Id(buf)
    }

    /// The id that holds the bytes of `data`.
    pub fn from_array(data: [u8; 20]) -> (r: Id)
        ensures
            r.0 == data,
    {
        Id(data)
    }

    /// The id with the bytes of the identifier `h`.
    pub fn from_hash(h: &Sha1Hash) -> (r: Id)
        ensures
            r@ == h@,
            r.0 == h.data,
    {
        Id(h.data)
    }

    /// The identifier with the bytes of this id.
    pub fn to_hash(&self) -> (r: Sha1Hash)
        ensures
            r@ == self@,
            r.data == self.0,
    {
        Sha1Hash { data: self.0 }
    }

    /// An id drawn at random from `lo` up to but not including `hi`.
    pub fn ranged_random(lo: &Id, hi: &Id) -> (r: Id)
        requires
            lo.value() < hi.value(),
        ensures
            lo.value() <= r.value() < hi.value(),
    {
        let drawn = random_between(&lo.0, &hi.0);
        proof {
            lemma_be_value_bound(hi@);
        }
        Id(pad_to_twenty(drawn.as_slice()))
    }

    /// The id whose last `bits` bits differ from those of this id, and
    /// whose other bits are the same.
    pub fn at_dist(&self, bits: usize) -> (r: Id)
        requires
            0 < bits < 160,
        ensures
            r@ == xor_bytes(self@, low_mask(bits as int)),
    {
        let mut buf: [u8; 20] = [0;20];
        let idx: usize = (160 - bits) / 8;
        let clear_bits: u8 = 8 - (bits % 8) as u8;
        let mut byte: u8 = 0xff;
        if clear_bits < 8 {
            byte = byte >> clear_bits;
        }
        buf[idx] = byte;
        let mut i: usize = idx + 1;
        while i < 20
            invariant
                idx < i <= 20,
                buf@[idx as int] == byte,
                forall|j: int| 0 <= j < idx ==> buf@[j] == 0,
                forall|j: int| idx < j < i ==> buf@[j] == 0xff,
            decreases 20 - i,
        {
            buf[i] = 0xff;
            i += 1;
        }
        proof {
            assert(buf@ =~= low_mask(bits as int));
        }
        let mut out: [u8; 20] = [0;20];
        let mut k: usize = 0;
        while k < 20
            invariant
                0 <= k <= 20,
                forall|j: int| 0 <= j < k ==> out@[j] == self.0@[j] ^ buf@[j],
            decreases 20 - k,
        {
            out[k] = self.0[k] ^ buf[k];
            k += 1;
        }
        proof {
            assert(out@ =~= xor_bytes(self@, low_mask(bits as int)));
        }
        Id(out)
    }

    /// How far the two ids are apart: 160 less the number of the leading
    /// bits that they share.
    pub fn dist_to(&self, to: &Id) -> (r: usize)
        ensures
            r == 160 - leading_zero_bits(xor_bytes(self@, to@), 0),
    {
        let a = self.to_hash();
        let b = to.to_hash();
        let d = crate::node::distance(&a, &b);
        160 - d.leading_zeros()
    }

    /// The id as forty lower-case hexadecimal digits.
    pub fn to_string(&self) -> (r: String)
        ensures
            vstd::utf8::encode_utf8(r@) == crate::hex::hex_text(self@),
    {
        to_hex(self.0.as_slice())
    }

    /// The id whose bytes are those of the text `s`, which must have twenty.
    pub fn parse(s: &str) -> (r: Result<Id, ParseError>)
        ensures
            match r {
                Ok(id) => s.spec_bytes().len() == 20 && id@ == s.spec_bytes(),
                Err(e) => s.spec_bytes().len() != 20 && e == (ParseError {
                    expected: 20,
                    actual: s.spec_bytes().len() as usize,
                }),
            },
    {
        let bytes = s.as_bytes();
        if bytes.len() != 20 {
            return Err(ParseError { expected: 20, actual: bytes.len() });
        }
        let h = Sha1Hash::from_bytes(bytes);
        Ok(Id(h.data))
    }
}

impl core::str::FromStr for Id {
    type Err = ParseError;

    /// The id whose bytes are those of the text `s`, which must have twenty.
    fn from_str(s: &str) -> (r: Result<Id, ParseError>)
        ensures
            match r {
                Ok(id) => s.spec_bytes().len() == 20 && id@ == s.spec_bytes(),
                Err(e) => s.spec_bytes().len() != 20 && e == (ParseError {
                    expected: 20,
                    actual: s.spec_bytes().len() as usize,
                }),
            },
    {
        Id::parse(s)
    }
}

impl core::convert::From<[u8; 20]> for Id {
    fn from(buf: [u8; 20]) -> (r: Id) {
        Id(buf)
    }
}

impl vstd::std_specs::convert::FromSpecImpl<[u8; 20]> for Id {
    open spec fn obeys_from_spec() -> bool {
        true
    }

    open spec fn from_spec(buf: [u8; 20]) -> Id {
        Id(buf)
    }
}

} // verus!
