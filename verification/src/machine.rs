//! What decoding means: a machine with a stack of open containers and a
//! stack of finished values, which reads one token of the input at a time.

use crate::error::Error;
use crate::model::{dict_insert, Bencode};
use crate::reader::scan;
use crate::text::{integer_of_text, is_digit_byte, length_of_text};
use vstd::prelude::*;
use vstd::utf8::valid_utf8;

verus! {

/// An open container: its kind, and how many finished values stood on the
/// value stack when it was opened.
pub struct Frame {
    pub dict: bool,
    pub base: nat,
}

/// The state of the decoder between two tokens.
pub struct Machine {
    /// How many bytes of the input have been consumed.
    pub pos: int,
    /// The containers that are open, the innermost last.
    pub frames: Seq<Frame>,
    /// The finished values, the latest last.
    pub values: Seq<Bencode>,
    /// How many items have been counted.
    pub items: nat,
}

/// What one token leads to: the next state, or the end of decoding.
pub enum Outcome {
    Next(Machine),
    Done(Result<Bencode, Error>),
}

/// The dictionary that a closing `e` makes of the values collected since its
/// `d`: keys and values in turn. The pairs are taken from the last to the
/// first, so that of two pairs with one key the earlier one stays. `None`
/// where a key slot holds no byte string or no valid UTF-8.
pub open spec fn dict_of_flat(flat: Seq<Bencode>) -> Option<Seq<(Seq<u8>, Bencode)>>
    decreases flat.len(),
{
    if flat.len() < 2 {
        Some(Seq::empty())
    } else {
        match (flat[0], dict_of_flat(flat.skip(2))) {
            (Bencode::Bytes(k), Some(rest)) => if valid_utf8(k) {
                Some(dict_insert(rest, k, flat[1]))
            } else {
                None
            },
            _ => None,
        }
    }
}

/// The start state.
pub open spec fn initial() -> Machine {
    Machine { pos: 0, frames: Seq::empty(), values: Seq::empty(), items: 0 }
}

/// Closing the innermost container on `e`.
pub open spec fn close(m: Machine) -> Outcome {
    if m.frames.len() == 0 {
        Outcome::Done(Err(Error::InvalidChar(0x65)))
    } else {
        let top = m.frames.last();
        let kept = m.values.take(top.base as int);
        let tail = m.values.skip(top.base as int);
        if !top.dict {
            Outcome::Next(
                Machine {
                    pos: m.pos + 1,
                    frames: m.frames.drop_last(),
                    values: kept.push(Bencode::List(tail)),
                    items: m.items,
                },
            )
        } else if tail.len() % 2 != 0 {
            Outcome::Done(Err(Error::ParseDict))
        } else {
            match dict_of_flat(tail) {
                Some(d) => Outcome::Next(
                    Machine {
                        pos: m.pos + 1,
                        frames: m.frames.drop_last(),
                        values: kept.push(Bencode::Dict(d)),
                        items: m.items,
                    },
                ),
                None => Outcome::Done(Err(Error::ParseDict)),
            }
        }
    }
}

/// Reading a byte string whose length prefix starts at `m.pos`.
pub open spec fn read_string(bytes: Seq<u8>, m: Machine) -> Outcome {
    match scan(bytes, m.pos, 0x3a) {
        Err(e) => Outcome::Done(Err(e)),
        Ok((text, after)) => match length_of_text(text) {
            None => Outcome::Done(Err(Error::ParseInt)),
            Some(n) => if after + n > bytes.len() {
                Outcome::Done(Err(Error::EOF))
            } else {
                Outcome::Next(
                    Machine {
                        pos: after + n,
                        frames: m.frames,
                        values: m.values.push(Bencode::Bytes(bytes.subrange(after, after + n))),
                        items: m.items + 1,
                    },
                )
            },
        },
    }
}

/// Reading an integer whose `i` stands at `m.pos`.
pub open spec fn read_integer(bytes: Seq<u8>, m: Machine) -> Outcome {
    match scan(bytes, m.pos + 1, 0x65) {
        Err(e) => Outcome::Done(Err(e)),
        Ok((text, after)) => match integer_of_text(text) {
            None => Outcome::Done(Err(Error::ParseInt)),
            Some(n) => Outcome::Next(
                Machine {
                    pos: after,
                    frames: m.frames,
                    values: m.values.push(Bencode::Int(n)),
                    items: m.items + 1,
                },
            ),
        },
    }
}

/// Opening a list or a dictionary.
pub open spec fn open(m: Machine, dict: bool) -> Outcome {
    Outcome::Next(
        Machine {
            pos: m.pos + 1,
            frames: m.frames.push(Frame { dict, base: m.values.len() }),
            values: m.values,
            items: m.items + 1,
        },
    )
}

/// One token. At the end of the input exactly one finished value and no open
/// container must be left: an input that ends inside a dictionary fails with
/// `ParseDict`, any other that ends too early with `EOF`. Whatever follows
/// the value at the top level is refused with `EOF`. A container is refused
/// with `DepthLimit` where it would be nested deeper than the limit, and an
/// item with `ItemLimit` where more than `item_limit` items were counted
/// before it.
pub open spec fn step(
    bytes: Seq<u8>,
    depth_limit: Option<usize>,
    item_limit: Option<usize>,
    m: Machine,
) -> Outcome {
    if m.pos < 0 || m.pos >= bytes.len() {
        if m.frames.len() == 0 && m.values.len() == 1 {
            Outcome::Done(Ok(m.values[0]))
        } else if m.frames.len() > 0 && m.frames.last().dict {
            Outcome::Done(Err(Error::ParseDict))
        } else {
            Outcome::Done(Err(Error::EOF))
        }
    } else {
        let b = bytes[m.pos];
        if m.frames.len() == 0 && m.values.len() > 0 {
            Outcome::Done(Err(Error::EOF))
        } else if b == 0x65 {
            close(m)
        } else if (b == 0x6c || b == 0x64) && depth_limit.is_some() && m.frames.len()
            >= depth_limit.unwrap() {
            Outcome::Done(Err(Error::DepthLimit))
        } else if item_limit.is_some() && m.items > item_limit.unwrap() {
            Outcome::Done(Err(Error::ItemLimit))
        } else if is_digit_byte(b) {
            read_string(bytes, m)
        } else if b == 0x69 {
            read_integer(bytes, m)
        } else if b == 0x6c {
            open(m, false)
        } else if b == 0x64 {
            open(m, true)
        } else {
            Outcome::Done(Err(Error::InvalidChar(b)))
        }
    }
}

/// The machine run to its end from the state `m`.
pub open spec fn run(
    bytes: Seq<u8>,
    depth_limit: Option<usize>,
    item_limit: Option<usize>,
    m: Machine,
) -> Result<Bencode, Error>
    decreases bytes.len() - m.pos,
{
    match step(bytes, depth_limit, item_limit, m) {
        Outcome::Done(r) => r,
        Outcome::Next(n) => if m.pos < n.pos <= bytes.len() {
            run(bytes, depth_limit, item_limit, n)
        } else {
            Err(Error::IO)
        },
    }
}

/// The result of decoding `bytes` under the two limits.
pub open spec fn decoding(bytes: Seq<u8>, depth_limit: Option<usize>, item_limit: Option<usize>)
    -> Result<Bencode, Error> {
    run(bytes, depth_limit, item_limit, initial())
}

/// The bases of the open containers ascend and none passes the value stack.
pub open spec fn frames_fit(m: Machine) -> bool {
    &&& forall|i: int| 0 <= i < m.frames.len() ==> (#[trigger] m.frames[i]).base <= m.values.len()
    &&& forall|i: int, j: int|
        0 <= i < j < m.frames.len()
            ==> (#[trigger] m.frames[i]).base <= (#[trigger] m.frames[j]).base
}

/// Every token consumes input, so `run` never takes its last branch, and the
/// open containers keep fitting the value stack.
pub proof fn lemma_step_advances(
    bytes: Seq<u8>,
    depth_limit: Option<usize>,
    item_limit: Option<usize>,
    m: Machine,
)
    requires
        0 <= m.pos,
        frames_fit(m),
    ensures
        step(bytes, depth_limit, item_limit, m) matches Outcome::Next(n) ==> m.pos < n.pos
            <= bytes.len() && frames_fit(n) && n.items <= m.items + 1,
{
    match step(bytes, depth_limit, item_limit, m) {
        Outcome::Next(n) => {
            let b = bytes[m.pos];
            if b == 0x65 {
                let top = m.frames.last();
                assert(m.frames[m.frames.len() - 1].base <= m.values.len());
                assert forall|i: int| 0 <= i < n.frames.len() implies (#[trigger] n.frames[i]).base
                    <= n.values.len() by {
                    assert(n.frames[i] == m.frames[i]);
                    assert(m.frames[i].base <= m.frames[m.frames.len() - 1].base);
                }
                assert forall|i: int, j: int| 0 <= i < j < n.frames.len() implies (
                #[trigger] n.frames[i]).base <= (#[trigger] n.frames[j]).base by {
                    assert(n.frames[i] == m.frames[i]);
                    assert(n.frames[j] == m.frames[j]);
                }
            } else if is_digit_byte(b) {
                let k = crate::reader::stop_index(bytes, m.pos, 0x3a);
                assert(crate::reader::is_first_at(bytes, m.pos, 0x3a, k));
            } else if b == 0x69 {
                let k = crate::reader::stop_index(bytes, m.pos + 1, 0x65);
                assert(crate::reader::is_first_at(bytes, m.pos + 1, 0x65, k));
            } else {
                assert forall|i: int, j: int| 0 <= i < j < n.frames.len() implies (
                #[trigger] n.frames[i]).base <= (#[trigger] n.frames[j]).base by {
                    if j < m.frames.len() {
                        assert(n.frames[i] == m.frames[i]);
                        assert(n.frames[j] == m.frames[j]);
                    } else {
                        assert(n.frames[i] == m.frames[i]);
                    }
                }
            }
        },
        Outcome::Done(_) => {},
    }
}

} // verus!
