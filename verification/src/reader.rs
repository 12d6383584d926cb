//! A cursor over an input buffer.

use crate::error::Error;
use crate::text::{integer_of_text, parse_integer};
use vstd::prelude::*;

verus! {

/// `k` is the first index at or after `from` at which `s` holds `stop`.
pub open spec fn is_first_at(s: Seq<u8>, from: int, stop: u8, k: int) -> bool {
    &&& 0 <= from <= k < s.len()
    &&& s[k] == stop
    &&& forall|j: int| from <= j < k ==> s[j] != stop
}

/// Whether `s` holds `stop` at or after `from`.
pub open spec fn has_stop(s: Seq<u8>, from: int, stop: u8) -> bool {
    exists|k: int| is_first_at(s, from, stop, k)
}

/// The first index at or after `from` at which `s` holds `stop`.
pub open spec fn stop_index(s: Seq<u8>, from: int, stop: u8) -> int {
    choose|k: int| is_first_at(s, from, stop, k)
}

/// What reading up to `stop` yields at position `pos`: the bytes before the
/// stop byte and the position just behind it. At the end of the input the
/// failure is `EOF`; with no stop byte ahead it is `ExpectedChar`.
pub open spec fn scan(s: Seq<u8>, pos: int, stop: u8) -> Result<(Seq<u8>, int), Error> {
    if pos >= s.len() {
        Err(Error::EOF)
    } else if !has_stop(s, pos, stop) {
        Err(Error::ExpectedChar(stop))
    } else {
        Ok((s.subrange(pos, stop_index(s, pos, stop)), stop_index(s, pos, stop) + 1))
    }
}

/// The first occurrence is unique.
pub proof fn lemma_stop_index(s: Seq<u8>, from: int, stop: u8, k: int)
    requires
        is_first_at(s, from, stop, k),
    ensures
        has_stop(s, from, stop),
        stop_index(s, from, stop) == k,
{
    let c = stop_index(s, from, stop);
    assert(is_first_at(s, from, stop, c));
    if c < k {
    } else if k < c {
    }
}

/// A cursor over a borrowed buffer. The position never passes the end.
pub struct Reader<'a> {
    buf: &'a [u8],
    curr_idx: usize,
}

impl<'a> Reader<'a> {
    /// The bytes of the buffer.
    pub closed spec fn bytes(&self) -> Seq<u8> {
        self.buf@
    }

    /// How many bytes have been consumed.
    pub closed spec fn position(&self) -> int {
        self.curr_idx as int
    }

    /// The position lies within the buffer or at its end.
    pub closed spec fn well_formed(&self) -> bool {
        self.curr_idx <= self.buf@.len()
    }

    /// A well-formed cursor stands within its buffer.
    pub proof fn lemma_in_bounds(&self)
        requires
            self.well_formed(),
        ensures
            0 <= self.position() <= self.bytes().len(),
    {
    }

    /// A cursor at the start of `buf`.
    pub fn new(buf: &'a [u8]) -> (r: Reader<'a>)
        ensures
            r.bytes() == buf@,
            r.position() == 0,
            r.well_formed(),
    {
        Reader { buf, curr_idx: 0 }
    }

    /// How many bytes have been consumed.
    pub fn consumed(&self) -> (r: usize)
        ensures
            r == self.position(),
    {
        self.curr_idx
    }

    /// Takes the next byte, if the input has not ended.
    pub fn next_byte(&mut self) -> (r: Option<u8>)
        requires
            old(self).well_formed(),
        ensures
            final(self).well_formed(),
            final(self).bytes() == old(self).bytes(),
            old(self).position() < old(self).bytes().len() ==> r == Some(
                old(self).bytes()[old(self).position()],
            ) && final(self).position() == old(self).position() + 1,
            old(self).position() >= old(self).bytes().len() ==> r.is_none()
                && final(self).position() == old(self).position(),
    {
        if self.curr_idx < self.buf.len() {
            let byte = self.buf[self.curr_idx];
            self.curr_idx += 1;
            Some(byte)
        } else {
            None
        }
    }

    /// Steps back over the byte that was taken last.
    pub fn move_back(&mut self)
        requires
            old(self).well_formed(),
            old(self).position() > 0,
        ensures
            final(self).well_formed(),
            final(self).bytes() == old(self).bytes(),
            final(self).position() == old(self).position() - 1,
    {
        self.curr_idx -= 1;
    }

    /// Reads up to the next `stop_byte` and steps over it. On `EOF` the
    /// cursor stands at the end; on `ExpectedChar` it has not moved.
    pub fn read_until(&mut self, stop_byte: u8) -> (r: Result<&'a [u8], Error>)
        requires
            old(self).well_formed(),
        ensures
            final(self).well_formed(),
            final(self).bytes() == old(self).bytes(),
            match scan(old(self).bytes(), old(self).position(), stop_byte) {
                Ok((text, next)) => r.is_ok() && r.unwrap()@ == text && final(self).position()
                    == next,
                Err(Error::EOF) => r == Err::<&[u8], Error>(Error::EOF) && final(self).position()
                    == old(self).bytes().len(),
                Err(e) => r == Err::<&[u8], Error>(e)
                    && final(self).position() == old(self).position(),
            },
    {
        if self.curr_idx >= self.buf.len() {
            self.curr_idx = self.buf.len();
            return Err(Error::EOF);
        }
        let buf: &'a [u8] = self.buf;
        let start: usize = self.curr_idx;
        let mut k: usize = start;
        while k < buf.len()
            invariant
                *self == *old(self),
                buf == self.buf,
                start == self.curr_idx,
                start <= k <= buf@.len(),
                forall|j: int| start <= j < k ==> buf@[j] != stop_byte,
            decreases buf.len() - k,
        {
            if buf[k] == stop_byte {
                proof {
                    lemma_stop_index(buf@, start as int, stop_byte, k as int);
                }
                self.curr_idx = k + 1;
                return Ok(vstd::slice::slice_subrange(buf, start, k));
            }
            k += 1;
        }
        proof {
            if has_stop(buf@, start as int, stop_byte) {
                let c = stop_index(buf@, start as int, stop_byte);
                assert(is_first_at(buf@, start as int, stop_byte, c));
            }
        }
        Err(Error::ExpectedChar(stop_byte))
    }

    /// Reads an integer body up to the next `stop_byte`.
    pub fn read_int_until(&mut self, stop_byte: u8) -> (r: Result<i64, Error>)
        requires
            old(self).well_formed(),
        ensures
            final(self).well_formed(),
            final(self).bytes() == old(self).bytes(),
            match scan(old(self).bytes(), old(self).position(), stop_byte) {
                Ok((text, next)) => final(self).position() == next && r == match integer_of_text(
                    text,
                ) {
                    Some(n) => Ok::<i64, Error>(n),
                    None => Err::<i64, Error>(Error::ParseInt),
                },
                Err(Error::EOF) => r == Err::<i64, Error>(Error::EOF) && final(self).position()
                    == old(self).bytes().len(),
                Err(e) => r == Err::<i64, Error>(e)
                    && final(self).position() == old(self).position(),
            },
    {
        match self.read_until(stop_byte) {
            Ok(text) => match parse_integer(text) {
                Some(n) => Ok(n),
                None => Err(Error::ParseInt),
            },
            Err(e) => Err(e),
        }
    }

    /// Reads exactly `len` bytes. Where fewer are left the failure is `EOF`
    /// and the cursor stands at the end.
    pub fn read_exact(&mut self, len: usize) -> (r: Result<&'a [u8], Error>)
        requires
            old(self).well_formed(),
        ensures
            final(self).well_formed(),
            final(self).bytes() == old(self).bytes(),
            old(self).position() + len <= old(self).bytes().len() ==> r.is_ok() && r.unwrap()@
                == old(self).bytes().subrange(old(self).position(), old(self).position() + len)
                && final(self).position() == old(self).position() + len,
            old(self).position() + len > old(self).bytes().len() ==> r == Err::<&[u8], Error>(
                Error::EOF,
            ) && final(self).position() == old(self).bytes().len(),
    {
        if len > self.buf.len() - self.curr_idx {
            self.curr_idx = self.buf.len();
            return Err(Error::EOF);
        }
        let start: usize = self.curr_idx;
        let end_index: usize = start + len;
        self.curr_idx = end_index;
        Ok(vstd::slice::slice_subrange(self.buf, start, end_index))
    }
}

} // verus!
