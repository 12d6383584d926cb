//! The borrowing tree: byte strings and keys are slices of the input buffer.

use crate::codec_laws::lemma_decoded_well_formed;
use crate::error::Error;
use crate::machine::{decoding, dict_of_flat, initial, lemma_step_advances, frames_fit, run, step,
    Frame, Machine};
use crate::model::{
    dict_from_pairs, dict_get, dict_index, dict_insert, entries_encoding, is_first_with_key,
    is_rank, items_encoding, keys_sorted, lemma_dict_index, lemma_dict_insert_sorted,
    lemma_dict_sorted, lemma_list_sorted, lemma_pairs_deep_sorted, lemma_rank_unique,
    lemma_well_formed_sorted, string_encoding, Bencode,
};
use crate::order::{bytes_lt, key_order, lemma_bytes_lt_transitive, KeyOrder};
use crate::reader::Reader;
use crate::text::{parse_length, push_decimal, push_integer};
use crate::utf8::{lossy_text, text_of};
use vstd::prelude::*;
use vstd::string::StringSliceAdditionalSpecFns;
use vstd::utf8::valid_utf8;

verus! {

/// A bencoded value whose byte strings and dictionary keys borrow from the
/// buffer it was decoded from. A dictionary holds its entries in the order
/// in which they are written out.
#[derive(Debug, PartialEq)]
pub enum ValueRef<'a> {
    Int(i64),
    Bytes(&'a [u8]),
    List(Vec<ValueRef<'a>>),
    Dict(Vec<(&'a [u8], ValueRef<'a>)>),
}

impl<'a> ValueRef<'a> {
    /// The mathematical tree that this value stands for.
    pub open spec fn model(&self) -> Bencode
        decreases self,
    {
        match self {
            ValueRef::Int(n) => Bencode::Int(*n),
            ValueRef::Bytes(b) => Bencode::Bytes(b@),
            ValueRef::List(l) => Bencode::List(
                Seq::new(
                    l@.len(),
                    |i: int|
                        if 0 <= i < l@.len() {
                            l@[i].model()
                        } else {
                            Bencode::Int(0)
                        },
                ),
            ),
            ValueRef::Dict(d) => Bencode::Dict(
                Seq::new(
                    d@.len(),
                    |i: int|
                        if 0 <= i < d@.len() {
                            (d@[i].0@, d@[i].1.model())
                        } else {
                            (Seq::empty(), Bencode::Int(0))
                        },
                ),
            ),
        }
    }
}

impl<'a> View for ValueRef<'a> {
    type V = Bencode;

    open spec fn view(&self) -> Bencode {
        self.model()
    }
}

/// The models of a sequence of values.
pub open spec fn values_view<'a>(s: Seq<ValueRef<'a>>) -> Seq<Bencode> {
    Seq::new(s.len(), |i: int| s[i]@)
}

/// The models of a sequence of entries.
pub open spec fn entries_view<'a>(s: Seq<(&'a [u8], ValueRef<'a>)>) -> Seq<(Seq<u8>, Bencode)> {
    Seq::new(s.len(), |i: int| (s[i].0@, s[i].1@))
}

/// The model of a list is the list of the models.
pub proof fn lemma_list_view<'a>(l: Vec<ValueRef<'a>>)
    ensures
        ValueRef::List(l)@ == Bencode::List(values_view(l@)),
{
    let v = ValueRef::List(l);
    assert(v@ is List);
    let s = v@->List_0;
    assert(s.len() == l@.len());
    assert forall|i: int| 0 <= i < s.len() implies s[i] == values_view(l@)[i] by {}
    assert(s =~= values_view(l@));
}

/// The model of a dictionary is the sequence of the models of its entries.
pub proof fn lemma_dict_view<'a>(d: Vec<(&'a [u8], ValueRef<'a>)>)
    ensures
        ValueRef::Dict(d)@ == Bencode::Dict(entries_view(d@)),
{
    let v = ValueRef::Dict(d);
    assert(v@ is Dict);
    let s = v@->Dict_0;
    assert(s.len() == d@.len());
    assert forall|i: int| 0 <= i < s.len() implies s[i] == entries_view(d@)[i] by {}
    assert(s =~= entries_view(d@));
}

/// Gives `key` the value `value` among sorted entries: replaces the entry
/// with that key, or puts a new entry at the key's place.
pub fn insert_entry<'a>(
    entries: &mut Vec<(&'a [u8], ValueRef<'a>)>,
    key: &'a [u8],
    value: ValueRef<'a>,
)
    requires
        keys_sorted(entries_view(old(entries)@)),
    ensures
        entries_view(final(entries)@) == dict_insert(entries_view(old(entries)@), key@, value@),
        keys_sorted(entries_view(final(entries)@)),
{
    let ghost d = entries_view(entries@);
    let mut i: usize = 0;
    let mut found: bool = false;
    while i < entries.len()
        invariant_except_break
            !found,
        invariant
            *entries == *old(entries),
            d == entries_view(entries@),
            0 <= i <= entries.len(),
            forall|j: int| 0 <= j < i ==> bytes_lt(#[trigger] d[j].0, key@),
        ensures
            0 <= i <= entries.len(),
            forall|j: int| 0 <= j < i ==> bytes_lt(#[trigger] d[j].0, key@),
            i < entries.len() ==> !bytes_lt(d[i as int].0, key@),
            found == (i < entries.len() && d[i as int].0 == key@),
        decreases entries.len() - i,
    {
        match key_order(entries[i].0, key) {
            KeyOrder::Less => {
                i += 1;
            },
            KeyOrder::Equal => {
                found = true;
                break ;
            },
            KeyOrder::Greater => {
                break ;
            },
        }
    }
    proof {
        assert forall|j: int| i <= j < d.len() implies !bytes_lt(#[trigger] d[j].0, key@) by {
            if j > i && bytes_lt(d[j].0, key@) {
                assert(bytes_lt(d[i as int].0, d[j].0));
                lemma_bytes_lt_transitive(d[i as int].0, d[j].0, key@);
            }
        }
        assert(is_rank(d, key@, i as int));
        lemma_rank_unique(d, key@, i as int);
        lemma_dict_insert_sorted(d, key@, value@);
    }
    if found {
        entries[i] = (key, value);
        proof {
            assert(entries_view(entries@) =~= dict_insert(d, key@, value@));
        }
    } else {
        entries.insert(i, (key, value));
        proof {
            assert(entries_view(entries@) =~= dict_insert(d, key@, value@));
        }
    }
}

/// Pairs up the keys and values that were collected for a dictionary.
/// `None` where a key slot holds no byte string or no valid UTF-8.
fn build_dict<'a>(flat: Vec<ValueRef<'a>>) -> (r: Option<Vec<(&'a [u8], ValueRef<'a>)>>)
    requires
        flat@.len() % 2 == 0,
    ensures
        match dict_of_flat(values_view(flat@)) {
            Some(d) => r.is_some() && entries_view(r.unwrap()@) == d,
            None => r.is_none(),
        },
{
    let ghost all = values_view(flat@);
    let mut rest = flat;
    assert(values_view(rest@) =~= all.take(rest@.len() as int));
    let mut entries: Vec<(&'a [u8], ValueRef<'a>)> = Vec::new();
    proof {
        assert(all.skip(all.len() as int) =~= Seq::<Bencode>::empty());
    }
    while rest.len() > 0
        invariant
            all == values_view(flat@),
            all.len() % 2 == 0,
            rest@.len() % 2 == 0,
            rest@.len() <= all.len(),
            values_view(rest@) == all.take(rest@.len() as int),
            dict_of_flat(all.skip(rest@.len() as int)) == Some(entries_view(entries@)),
            keys_sorted(entries_view(entries@)),
        decreases rest.len(),
    {
        let ghost n = rest@.len() as int;
        let ghost before = rest@;
        let value = rest.pop().unwrap();
        let key = rest.pop().unwrap();
        proof {
            assert(value@ == values_view(before)[n - 1]);
            assert(key@ == values_view(before)[n - 2]);
            assert(value@ == all[n - 1]);
            assert(key@ == all[n - 2]);
            assert(values_view(rest@) =~= all.take(n - 2));
            let rest = all.skip(n - 2);
            assert(rest.skip(2) =~= all.skip(n));
            assert(rest[0] == key@ && rest[1] == value@);
        }
        let accepted: Option<&'a [u8]> = match key {
            ValueRef::Bytes(k) => if text_of(k).is_some() {
                Some(k)
            } else {
                None
            },
            _ => None,
        };
        match accepted {
            Some(k) => {
                insert_entry(&mut entries, k, value);
            },
            None => {
                proof {
                    assert(dict_of_flat(all.skip(n - 2)).is_none());
                    lemma_dict_of_flat_none(all, n - 2);
                }
                return None;
            },
        }
    }
    proof {
        assert(all.skip(0) =~= all);
    }
    Some(entries)
}

/// Once a key slot is refused, the whole dictionary is.
pub proof fn lemma_dict_of_flat_none(flat: Seq<Bencode>, m: int)
    requires
        0 <= m <= flat.len(),
        m % 2 == 0,
        flat.len() % 2 == 0,
        dict_of_flat(flat.skip(m)).is_none(),
    ensures
        dict_of_flat(flat).is_none(),
    decreases m,
{
    if m == 0 {
        assert(flat.skip(0) =~= flat);
    } else {
        let s = flat.skip(m - 2);
        assert(s.skip(2) =~= flat.skip(m));
        assert(s.len() >= 2);
        assert(dict_of_flat(s).is_none());
        lemma_dict_of_flat_none(flat, m - 2);
    }
}

/// An open container of the decoder: its kind, and the height of the value
/// stack when it was opened.
pub(crate) enum Kind {
    Dict(usize),
    List(usize),
}

pub(crate) open spec fn frame_of(k: Kind) -> Frame {
    match k {
        Kind::Dict(base) => Frame { dict: true, base: base as nat },
        Kind::List(base) => Frame { dict: false, base: base as nat },
    }
}

spec fn machine_of<'a>(pos: int, c: Seq<Kind>, v: Seq<ValueRef<'a>>, items: nat) -> Machine {
    Machine { pos, frames: Seq::new(c.len(), |i: int| frame_of(c[i])), values: values_view(v),
        items }
}

/// The model of a decoding result.
pub open spec fn result_view<'a>(r: Result<ValueRef<'a>, Error>) -> Result<Bencode, Error> {
    match r {
        Ok(v) => Ok(v@),
        Err(e) => Err(e),
    }
}

impl<'a> ValueRef<'a> {
    /// Decodes `bytes` without limits.
    pub fn decode(bytes: &'a [u8]) -> (r: Result<ValueRef<'a>, Error>)
        ensures
            result_view(r) == decoding(bytes@, None, None),
            r matches Ok(v) ==> v@.well_formed() && v@.sorted(),
    {
        Self::decode_with_limits(bytes, None, None)
    }

    /// Decodes `bytes`. Containers may be nested `depth_limit` deep and no
    /// deeper; an item is refused where more than `item_limit` items were
    /// counted before it. `None` sets no limit.
    pub fn decode_with_limits(
        bytes: &'a [u8],
        depth_limit: Option<usize>,
        item_limit: Option<usize>,
    ) -> (r: Result<ValueRef<'a>, Error>)
        ensures
            result_view(r) == decoding(bytes@, depth_limit, item_limit),
            r matches Ok(v) ==> v@.well_formed() && v@.sorted(),
    {
        let mut c_stack: Vec<Kind> = Vec::new();
        let mut v_stack: Vec<ValueRef<'a>> = Vec::new();
        let mut items: usize = 0;
        let mut rdr = Reader::new(bytes);
        let total: usize = bytes.len();
        proof {
            assert(machine_of(0, c_stack@, v_stack@, 0).frames =~= initial().frames);
            assert(machine_of(0, c_stack@, v_stack@, 0).values =~= initial().values);
        }
        loop
            invariant
                total == bytes@.len(),
                rdr.well_formed(),
                rdr.bytes() == bytes@,
                0 <= rdr.position() <= bytes@.len(),
                items <= rdr.position(),
                frames_fit(machine_of(rdr.position(), c_stack@, v_stack@, items as nat)),
                run(
                    bytes@,
                    depth_limit,
                    item_limit,
                    machine_of(rdr.position(), c_stack@, v_stack@, items as nat),
                ) == decoding(bytes@, depth_limit, item_limit),
            decreases bytes@.len() - rdr.position(),
        {
            let ghost m = machine_of(rdr.position(), c_stack@, v_stack@, items as nat);
            proof {
                lemma_step_advances(bytes@, depth_limit, item_limit, m);
            }
            proof {
                rdr.lemma_in_bounds();
            }
            let b: u8 = match rdr.next_byte() {
                Some(b) => b,
                None => {
                    if c_stack.len() == 0 && v_stack.len() == 1 {
                        let v = v_stack.pop().unwrap();
                        proof {
                            lemma_decoded_well_formed(bytes@, depth_limit, item_limit);
                            lemma_well_formed_sorted(v@);
                        }
                        return Ok(v);
                    }
                    let in_dict = c_stack.len() > 0 && match c_stack[c_stack.len() - 1] {
                        Kind::Dict(_) => true,
                        Kind::List(_) => false,
                    };
                    if in_dict {
                        return Err(Error::ParseDict);
                    } else {
                        return Err(Error::EOF);
                    }
                },
            };
            proof {
                rdr.lemma_in_bounds();
            }
            if c_stack.len() == 0 && v_stack.len() > 0 {
                return Err(Error::EOF);
            }
            if b == 0x65 {
                match c_stack.pop() {
                    None => {
                        return Err(Error::InvalidChar(0x65));
                    },
                    Some(Kind::List(base)) => {
                        assert(m.frames.last() == Frame { dict: false, base: base as nat });
                        let ghost before = v_stack@;
                        let tail = v_stack.split_off(base);
                        proof {
                            lemma_list_view(tail);
                            assert(values_view(tail@) =~= m.values.skip(base as int));
                        }
                        v_stack.push(ValueRef::List(tail));
                        proof {
                            let n = step(bytes@, depth_limit, item_limit, m)->Next_0;
                            let now = machine_of(rdr.position(), c_stack@, v_stack@, items as nat);
                            assert(now.values =~= n.values);
                            assert(now.frames =~= n.frames);
                            assert(now == n);
                        }
                    },
                    Some(Kind::Dict(base)) => {
                        assert(m.frames.last() == Frame { dict: true, base: base as nat });
                        let tail = v_stack.split_off(base);
                        proof {
                            assert(values_view(tail@) =~= m.values.skip(base as int));
                        }
                        if tail.len() % 2 != 0 {
                            return Err(Error::ParseDict);
                        }
                        match build_dict(tail) {
                            Some(d) => {
                                proof {
                                    lemma_dict_view(d);
                                }
                                v_stack.push(ValueRef::Dict(d));
                                proof {
                                    let n = step(bytes@, depth_limit, item_limit, m)->Next_0;
                                    let now = machine_of(
                                        rdr.position(),
                                        c_stack@,
                                        v_stack@,
                                        items as nat,
                                    );
                                    assert(now.values =~= n.values);
                                    assert(now.frames =~= n.frames);
                                    assert(now == n);
                                }
                            },
                            None => {
                                return Err(Error::ParseDict);
                            },
                        }
                    },
                }
            } else {
                if b == 0x6c || b == 0x64 {
                    match depth_limit {
                        Some(limit) => {
                            if c_stack.len() >= limit {
                                return Err(Error::DepthLimit);
                            }
                        },
                        None => {},
                    }
                }
                match item_limit {
                    Some(limit) => {
                        if items > limit {
                            return Err(Error::ItemLimit);
                        }
                    },
                    None => {},
                }
                items += 1;
                if b >= 0x30 && b <= 0x39 {
                    rdr.move_back();
                    let text = match rdr.read_until(0x3a) {
                        Ok(t) => t,
                        Err(e) => {
                            return Err(e);
                        },
                    };
                    let len: u64 = match parse_length(text) {
                        Some(n) => n,
                        None => {
                            return Err(Error::ParseInt);
                        },
                    };
                    if len > (total - rdr.consumed()) as u64 {
                        return Err(Error::EOF);
                    }
                    let value = match rdr.read_exact(len as usize) {
                        Ok(v) => v,
                        Err(e) => {
                            return Err(e);
                        },
                    };
                    v_stack.push(ValueRef::Bytes(value));
                    proof {
                        let n = step(bytes@, depth_limit, item_limit, m)->Next_0;
                        let now = machine_of(rdr.position(), c_stack@, v_stack@, items as nat);
                        assert(now.values =~= n.values);
                        assert(now.frames =~= n.frames);
                        assert(now == n);
                    }
                } else if b == 0x69 {
                    let n = match rdr.read_int_until(0x65) {
                        Ok(n) => n,
                        Err(e) => {
                            return Err(e);
                        },
                    };
                    v_stack.push(ValueRef::Int(n));
                    proof {
                        let n = step(bytes@, depth_limit, item_limit, m)->Next_0;
                        let now = machine_of(rdr.position(), c_stack@, v_stack@, items as nat);
                        assert(now.values =~= n.values);
                        assert(now.frames =~= n.frames);
                        assert(now == n);
                    }
                } else if b == 0x6c {
                    c_stack.push(Kind::List(v_stack.len()));
                    proof {
                        let n = step(bytes@, depth_limit, item_limit, m)->Next_0;
                        let now = machine_of(rdr.position(), c_stack@, v_stack@, items as nat);
                        assert(now.values =~= n.values);
                        assert(now.frames =~= n.frames);
                        assert(now == n);
                    }
                } else if b == 0x64 {
                    c_stack.push(Kind::Dict(v_stack.len()));
                    proof {
                        let n = step(bytes@, depth_limit, item_limit, m)->Next_0;
                        let now = machine_of(rdr.position(), c_stack@, v_stack@, items as nat);
                        assert(now.values =~= n.values);
                        assert(now.frames =~= n.frames);
                        assert(now == n);
                    }
                } else {
                    return Err(Error::InvalidChar(b));
                }
            }
        }
    }
}

/// Appends `bytes` to `out`.
pub fn push_bytes(out: &mut Vec<u8>, bytes: &[u8])
    ensures
        final(out)@ == old(out)@ + bytes@,
{
    let mut i: usize = 0;
    while i < bytes.len()
        invariant
            0 <= i <= bytes.len(),
            out@ == old(out)@ + bytes@.take(i as int),
        decreases bytes.len() - i,
    {
        out.push(bytes[i]);
        i += 1;
        proof {
            assert(out@ =~= old(out)@ + bytes@.take(i as int));
        }
    }
    proof {
        assert(bytes@.take(i as int) =~= bytes@);
    }
}

/// Appends the wire form of the byte string `bytes` to `out`.
pub fn push_string(out: &mut Vec<u8>, bytes: &[u8])
    ensures
        final(out)@ == old(out)@ + string_encoding(bytes@),
{
    push_decimal(out, bytes.len() as u64);
    out.push(0x3a);
    push_bytes(out, bytes);
    proof {
        assert(final(out)@ =~= old(out)@ + string_encoding(bytes@));
    }
}

/// The index of the first entry with the key `key`.
fn find_entry<'a>(entries: &Vec<(&'a [u8], ValueRef<'a>)>, key: &[u8]) -> (r: Option<usize>)
    ensures
        match r {
            Some(i) => i < entries@.len() && dict_index(entries_view(entries@), key@) == Some(
                i as int,
            ),
            None => dict_index(entries_view(entries@), key@) is None,
        },
{
    let ghost d = entries_view(entries@);
    let mut i: usize = 0;
    while i < entries.len()
        invariant
            d == entries_view(entries@),
            0 <= i <= entries.len(),
            forall|j: int| 0 <= j < i ==> #[trigger] d[j].0 != key@,
        decreases entries.len() - i,
    {
        match key_order(entries[i].0, key) {
            KeyOrder::Equal => {
                proof {
                    assert(is_first_with_key(d, key@, i as int));
                    lemma_dict_index(d, key@, i as int);
                }
                return Some(i);
            },
            _ => {
                proof {
                    crate::order::lemma_bytes_lt_asymmetric(key@, key@);
                }
            },
        }
        i += 1;
    }
    None
}

/// A unit of work of the encoder: a value, a dictionary key, or the end of
/// a container.
enum Token<'t, 'a> {
    B(&'t ValueRef<'a>),
    S(&'a [u8]),
    E,
}

spec fn token_bytes<'t, 'a>(t: Token<'t, 'a>) -> Seq<u8> {
    match t {
        Token::B(v) => v@.encoding(),
        Token::S(k) => string_encoding(k@),
        Token::E => seq![0x65u8],
    }
}

/// What the tokens on the work stack will emit, the top of the stack first.
spec fn pending<'t, 'a>(stack: Seq<Token<'t, 'a>>) -> Seq<u8>
    decreases stack.len(),
{
    if stack.len() == 0 {
        Seq::empty()
    } else {
        token_bytes(stack.last()) + pending(stack.drop_last())
    }
}

proof fn lemma_pending_push<'t, 'a>(stack: Seq<Token<'t, 'a>>, t: Token<'t, 'a>)
    ensures
        pending(stack.push(t)) == token_bytes(t) + pending(stack),
{
    assert(stack.push(t).drop_last() =~= stack);
}

/// Puts the items of `l` on the work stack, the first item on top.
fn push_items<'t, 'a>(stack: &mut Vec<Token<'t, 'a>>, l: &'t Vec<ValueRef<'a>>)
    ensures
        pending(final(stack)@) == items_encoding(values_view(l@), 0) + pending(old(stack)@),
{
    let ghost lm = values_view(l@);
    let ghost rest = stack@;
    let mut j: usize = l.len();
    proof {
        assert(pending(stack@) =~= items_encoding(lm, j as nat) + pending(rest));
    }
    while j > 0
        invariant
            0 <= j <= l@.len(),
            lm == values_view(l@),
            pending(stack@) == items_encoding(lm, j as nat) + pending(rest),
        decreases j,
    {
        j -= 1;
        proof {
            lemma_pending_push(stack@, Token::B(&l[j as int]));
        }
        stack.push(Token::B(&l[j]));
        proof {
            assert(lm[j as int] == l@[j as int]@);
            assert(pending(stack@) =~= items_encoding(lm, j as nat) + pending(rest));
        }
    }
}

/// Puts the entries of `d` on the work stack, the first key on top.
fn push_entries<'t, 'a>(stack: &mut Vec<Token<'t, 'a>>, d: &'t Vec<(&'a [u8], ValueRef<'a>)>)
    ensures
        pending(final(stack)@) == entries_encoding(entries_view(d@), 0) + pending(old(stack)@),
{
    let ghost dm = entries_view(d@);
    let ghost rest = stack@;
    let mut j: usize = d.len();
    proof {
        assert(pending(stack@) =~= entries_encoding(dm, j as nat) + pending(rest));
    }
    while j > 0
        invariant
            0 <= j <= d@.len(),
            dm == entries_view(d@),
            pending(stack@) == entries_encoding(dm, j as nat) + pending(rest),
        decreases j,
    {
        j -= 1;
        let ghost s0 = stack@;
        proof {
            lemma_pending_push(s0, Token::B(&d[j as int].1));
            lemma_pending_push(s0.push(Token::B(&d[j as int].1)), Token::S(d[j as int].0));
        }
        stack.push(Token::B(&d[j].1));
        stack.push(Token::S(d[j].0));
        proof {
            assert(dm[j as int] == (d@[j as int].0@, d@[j as int].1@));
            assert(pending(stack@) =~= entries_encoding(dm, j as nat) + pending(rest));
        }
    }
}

/// Emits what one token stands for, and puts on the work stack what it
/// leaves to be done.
fn emit_token<'t, 'a>(out: &mut Vec<u8>, stack: &mut Vec<Token<'t, 'a>>, token: Token<'t, 'a>)
    ensures
        final(out)@ + pending(final(stack)@) == old(out)@ + token_bytes(token) + pending(
            old(stack)@,
        ),
        final(out)@.len() > old(out)@.len(),
        old(out)@.len() + token_bytes(token).len() + pending(old(stack)@).len()
            == final(out)@.len() + pending(final(stack)@).len(),
{
    let ghost before = out@;
    let ghost rest = stack@;
    match token {
        Token::B(v) => match v {
            ValueRef::Int(n) => {
                out.push(0x69);
                push_integer(out, *n);
                out.push(0x65);
                proof {
                    assert(out@ =~= before + v@.encoding());
                }
            },
            ValueRef::Bytes(b) => {
                push_string(out, *b);
            },
            ValueRef::List(l) => {
                out.push(0x6c);
                proof {
                    lemma_list_view(*l);
                    lemma_pending_push(rest, Token::E);
                }
                stack.push(Token::E);
                push_items(stack, l);
                proof {
                    assert(out@ + pending(stack@) =~= before + v@.encoding() + pending(rest));
                }
            },
            ValueRef::Dict(d) => {
                out.push(0x64);
                proof {
                    lemma_dict_view(*d);
                    lemma_pending_push(rest, Token::E);
                }
                stack.push(Token::E);
                push_entries(stack, d);
                proof {
                    assert(out@ + pending(stack@) =~= before + v@.encoding() + pending(rest));
                }
            },
        },
        Token::S(k) => {
            push_string(out, k);
            proof {
                crate::text::lemma_decimal_shape(k@.len());
            }
        },
        Token::E => {
            out.push(0x65);
        },
    }
    proof {
        assert((out@ + pending(stack@)).len() == (before + token_bytes(token) + pending(
            rest,
        )).len());
    }
}

impl<'a> ValueRef<'a> {
    /// An integer.
    pub fn with_int(v: i64) -> (r: Self)
        ensures
            r == ValueRef::<'a>::Int(v),
            r@ == Bencode::Int(v),
    {
        ValueRef::Int(v)
    }

    /// A byte string that holds the bytes of `s`.
    pub fn with_str(s: &'a str) -> (r: Self)
        ensures
            r@ == Bencode::Bytes(s.spec_bytes()),
    {
        ValueRef::Bytes(s.as_bytes())
    }

    /// A list of the given items.
    pub fn with_list(list: Vec<Self>) -> (r: Self)
        ensures
            r == ValueRef::List(list),
            r@ == Bencode::List(values_view(list@)),
            r@.sorted() == (forall|i: int| 0 <= i < list@.len() ==> (#[trigger] list@[i])@.sorted()),
    {
        proof {
            lemma_list_view(list);
            let l = values_view(list@);
            lemma_list_sorted(l);
            if forall|i: int| 0 <= i < list@.len() ==> (#[trigger] list@[i])@.sorted() {
                assert forall|i: int| 0 <= i < l.len() implies (#[trigger] l[i]).sorted() by {
                    assert(l[i] == list@[i]@);
                }
            }
            if Bencode::List(l).sorted() {
                assert forall|i: int| 0 <= i < list@.len() implies (#[trigger] list@[i])@.sorted() by {
                    assert(l[i] == list@[i]@);
                }
            }
        }
        ValueRef::List(list)
    }

    /// A dictionary in which each key of `pairs` has been given its value in
    /// turn; of two pairs with one key the later one stays. The entries are
    /// sorted by key.
    pub fn with_dict(pairs: Vec<(&'a str, Self)>) -> (r: Self)
        ensures
            r@ == Bencode::Dict(dict_from_pairs(text_pairs_view(pairs@))),
            r@ is Dict && keys_sorted(r@->Dict_0),
            (forall|i: int| 0 <= i < pairs@.len() ==> (#[trigger] pairs@[i]).1@.sorted())
                ==> r@.sorted(),
    {
        let ghost all = text_pairs_view(pairs@);
        proof {
            if forall|i: int| 0 <= i < pairs@.len() ==> (#[trigger] pairs@[i]).1@.sorted() {
                assert forall|i: int| 0 <= i < all.len() implies (#[trigger] all[i]).1.sorted() by {
                    assert(all[i].1 == pairs@[i].1@);
                }
                lemma_pairs_deep_sorted(all);
            }
        }
        let mut rest = pairs;
        let mut reversed: Vec<(&'a str, Self)> = Vec::new();
        while rest.len() > 0
            invariant
                all == text_pairs_view(pairs@),
                rest@.len() + reversed@.len() == all.len(),
                text_pairs_view(rest@) == all.take(rest@.len() as int),
                forall|j: int|
                    0 <= j < reversed@.len() ==> (
                    #[trigger] reversed@[j].0.spec_bytes(),
                    reversed@[j].1@,
                    ) == all[all.len() - 1 - j],
            decreases rest.len(),
        {
            let ghost n = rest@.len() as int;
            let ghost before = rest@;
            let pair = rest.pop().unwrap();
            proof {
                assert(text_pairs_view(before)[n - 1] == (pair.0.spec_bytes(), pair.1@));
                assert(text_pairs_view(rest@) =~= all.take(n - 1));
            }
            reversed.push(pair);
        }
        let mut entries: Vec<(&'a [u8], Self)> = Vec::new();
        proof {
            assert(all.take(0) =~= Seq::<(Seq<u8>, Bencode)>::empty());
        }
        while reversed.len() > 0
            invariant
                reversed@.len() <= all.len(),
                forall|j: int|
                    0 <= j < reversed@.len() ==> (
                    #[trigger] reversed@[j].0.spec_bytes(),
                    reversed@[j].1@,
                    ) == all[all.len() - 1 - j],
                entries_view(entries@) == dict_from_pairs(
                    all.take(all.len() - reversed@.len()),
                ),
                keys_sorted(entries_view(entries@)),
            decreases reversed.len(),
        {
            let ghost m = reversed@.len() as int;
            let pair = reversed.pop().unwrap();
            proof {
                let prefix = all.take(all.len() - m + 1);
                assert(prefix.drop_last() =~= all.take(all.len() - m));
                assert(prefix.last() == all[all.len() - m]);
                assert((pair.0.spec_bytes(), pair.1@) == all[all.len() - 1 - (m - 1)]);
            }
            insert_entry(&mut entries, pair.0.as_bytes(), pair.1);
        }
        proof {
            assert(all.take(all.len() as int) =~= all);
            lemma_dict_view(entries);
        }
        ValueRef::Dict(entries)
    }

    /// Whether this is a byte string.
    pub fn is_string(&self) -> (r: bool)
        ensures
            r == (self@ is Bytes),
    {
        match self {
            ValueRef::Bytes(_) => true,
            _ => false,
        }
    }

    /// Whether this is an integer.
    pub fn is_int(&self) -> (r: bool)
        ensures
            r == (self@ is Int),
    {
        match self {
            ValueRef::Int(_) => true,
            _ => false,
        }
    }

    /// Whether this is a list.
    pub fn is_list(&self) -> (r: bool)
        ensures
            r == (self@ is List),
    {
        match self {
            ValueRef::List(_) => true,
            _ => false,
        }
    }

    /// Whether this is a dictionary.
    pub fn is_dict(&self) -> (r: bool)
        ensures
            r == (self@ is Dict),
    {
        match self {
            ValueRef::Dict(_) => true,
            _ => false,
        }
    }

    /// The integer, if this is one.
    pub fn as_int(&self) -> (r: Option<i64>)
        ensures
            r == match self@ {
                Bencode::Int(n) => Some(n),
                _ => None,
            },
    {
        match self {
            ValueRef::Int(n) => Some(*n),
            _ => None,
        }
    }

    /// The bytes, if this is a byte string.
    pub fn as_bytes(&self) -> (r: Option<&'a [u8]>)
        ensures
            match self@ {
                Bencode::Bytes(b) => r.is_some() && r.unwrap()@ == b,
                _ => r.is_none(),
            },
    {
        match self {
            ValueRef::Bytes(b) => Some(*b),
            _ => None,
        }
    }

    /// The bytes, if this is a byte string.
    pub fn as_str_bytes(&self) -> (r: Option<&'a [u8]>)
        ensures
            match self@ {
                Bencode::Bytes(b) => r.is_some() && r.unwrap()@ == b,
                _ => r.is_none(),
            },
    {
        self.as_bytes()
    }

    /// The text, if this is a byte string that holds valid UTF-8.
    pub fn as_str(&self) -> (r: Option<&'a str>)
        ensures
            match self@ {
                Bencode::Bytes(b) => r.is_some() == valid_utf8(b) && (r matches Some(s)
                    ==> s.spec_bytes() == b),
                _ => r.is_none(),
            },
    {
        match self {
            ValueRef::Bytes(b) => text_of(*b),
            _ => None,
        }
    }

    /// The items, if this is a list.
    pub fn as_list(&self) -> (r: Option<&[Self]>)
        ensures
            match *self {
                ValueRef::List(l) => r.is_some() && r.unwrap()@ == l@,
                _ => r.is_none(),
            },
    {
        match self {
            ValueRef::List(l) => Some(l.as_slice()),
            _ => None,
        }
    }

    /// The items for changing, if this is a list.
    pub fn as_list_mut(&mut self) -> (r: Option<&mut Vec<Self>>)
        ensures
            match *old(self) {
                ValueRef::List(l) => r.is_some() && *r.unwrap() == l && *final(self)
                    == ValueRef::List(*final(r.unwrap())),
                _ => r.is_none() && *final(self) == *old(self),
            },
    {
        match self {
            ValueRef::List(l) => Some(l),
            _ => None,
        }
    }

    /// The items, if this is a list.
    pub fn into_list(self) -> (r: Option<Vec<Self>>)
        ensures
            r == match self {
                ValueRef::List(l) => Some(l),
                _ => None,
            },
    {
        match self {
            ValueRef::List(l) => Some(l),
            _ => None,
        }
    }

    /// The entries, if this is a dictionary.
    pub fn as_dict(&self) -> (r: Option<&Vec<(&'a [u8], Self)>>)
        ensures
            match *self {
                ValueRef::Dict(d) => r.is_some() && *r.unwrap() == d,
                _ => r.is_none(),
            },
    {
        match self {
            ValueRef::Dict(d) => Some(d),
            _ => None,
        }
    }

    /// The entries for changing, if this is a dictionary.
    pub fn as_dict_mut(&mut self) -> (r: Option<&mut Vec<(&'a [u8], Self)>>)
        ensures
            match *old(self) {
                ValueRef::Dict(d) => r.is_some() && *r.unwrap() == d && *final(self)
                    == ValueRef::Dict(*final(r.unwrap())),
                _ => r.is_none() && *final(self) == *old(self),
            },
    {
        match self {
            ValueRef::Dict(d) => Some(d),
            _ => None,
        }
    }

    /// The entries, if this is a dictionary.
    pub fn into_dict(self) -> (r: Option<Vec<(&'a [u8], Self)>>)
        ensures
            r == match self {
                ValueRef::Dict(d) => Some(d),
                _ => None,
            },
    {
        match self {
            ValueRef::Dict(d) => Some(d),
            _ => None,
        }
    }

    /// The wire form of this value.
    pub fn to_vec(&self) -> (r: Vec<u8>)
        requires
            self@.sorted(),
        ensures
            r@ == self@.encoding(),
    {
        let mut v: Vec<u8> = Vec::new();
        self.encode(&mut v);
        proof {
            assert(v@ =~= self@.encoding());
        }
        v
    }

    /// The wire form of this value as text, for display: where it is no
    /// valid UTF-8, the replacement character stands for what is invalid.
    pub fn to_string(&self) -> (r: String)
        requires
            self@.sorted(),
        ensures
            r@ == crate::utf8::lossy_of(self@.encoding()),
            valid_utf8(self@.encoding()) ==> r@ == vstd::utf8::decode_utf8(self@.encoding()),
    {
        let v = self.to_vec();
        lossy_text(v.as_slice())
    }

    /// The value under `key`, if this is a dictionary that holds the key.
    pub fn dict_find(&self, key: &str) -> (r: Option<&Self>)
        ensures
            match self@ {
                Bencode::Dict(d) => match dict_index(d, key.spec_bytes()) {
                    Some(i) => r.is_some() && *r.unwrap() == (self->Dict_0)@[i].1 && r.unwrap()@
                        == d[i].1,
                    None => r.is_none(),
                },
                _ => r.is_none(),
            },
    {
        match self {
            ValueRef::Dict(d) => {
                proof {
                    lemma_dict_view(*d);
                }
                match find_entry(d, key.as_bytes()) {
                    Some(i) => Some(&d[i].1),
                    None => None,
                }
            },
            _ => None,
        }
    }

    /// The value under `key`, if it is an integer.
    pub fn dict_find_int(&self, key: &str) -> (r: Option<&Self>)
        ensures
            match self@ {
                Bencode::Dict(d) => match dict_get(d, key.spec_bytes()) {
                    Some(Bencode::Int(n)) => r.is_some() && r.unwrap()@ == Bencode::Int(n),
                    _ => r.is_none(),
                },
                _ => r.is_none(),
            },
    {
        match self.dict_find(key) {
            Some(n) => if n.is_int() {
                Some(n)
            } else {
                None
            },
            None => None,
        }
    }

    /// The integer under `key`.
    pub fn dict_find_int_value(&self, key: &str) -> (r: Option<i64>)
        ensures
            r == match self@ {
                Bencode::Dict(d) => match dict_get(d, key.spec_bytes()) {
                    Some(Bencode::Int(n)) => Some(n),
                    _ => None,
                },
                _ => None,
            },
    {
        match self.dict_find_int(key) {
            Some(n) => n.as_int(),
            None => None,
        }
    }

    /// The value under `key`, if it is a byte string.
    pub fn dict_find_str(&self, key: &str) -> (r: Option<&Self>)
        ensures
            match self@ {
                Bencode::Dict(d) => match dict_get(d, key.spec_bytes()) {
                    Some(Bencode::Bytes(b)) => r.is_some() && r.unwrap()@ == Bencode::Bytes(b),
                    _ => r.is_none(),
                },
                _ => r.is_none(),
            },
    {
        match self.dict_find(key) {
            Some(n) => if n.is_string() {
                Some(n)
            } else {
                None
            },
            None => None,
        }
    }

    /// The text under `key`, if the value there is a byte string that holds
    /// valid UTF-8.
    pub fn dict_find_str_value(&self, key: &str) -> (r: Option<&'a str>)
        ensures
            match self@ {
                Bencode::Dict(d) => match dict_get(d, key.spec_bytes()) {
                    Some(Bencode::Bytes(b)) => r.is_some() == valid_utf8(b) && (r matches Some(s)
                        ==> s.spec_bytes() == b),
                    _ => r.is_none(),
                },
                _ => r.is_none(),
            },
    {
        match self.dict_find_str(key) {
            Some(n) => n.as_str(),
            None => None,
        }
    }

    /// The value under `key`, if it is a list.
    pub fn dict_find_list(&self, key: &str) -> (r: Option<&Self>)
        ensures
            match self@ {
                Bencode::Dict(d) => match dict_get(d, key.spec_bytes()) {
                    Some(Bencode::List(l)) => r.is_some() && r.unwrap()@ == Bencode::List(l),
                    _ => r.is_none(),
                },
                _ => r.is_none(),
            },
    {
        match self.dict_find(key) {
            Some(n) => if n.is_list() {
                Some(n)
            } else {
                None
            },
            None => None,
        }
    }

    /// The items of the list under `key`.
    pub fn dict_find_list_value(&self, key: &str) -> (r: Option<&[Self]>)
        ensures
            match self@ {
                Bencode::Dict(d) => match dict_get(d, key.spec_bytes()) {
                    Some(Bencode::List(l)) => r.is_some() && values_view(r.unwrap()@) == l,
                    _ => r.is_none(),
                },
                _ => r.is_none(),
            },
    {
        match self.dict_find_list(key) {
            Some(n) => {
                match n {
                    ValueRef::List(l) => {
                        proof {
                            lemma_list_view(*l);
                        }
                        Some(l.as_slice())
                    },
                    _ => None,
                }
            },
            None => None,
        }
    }

    /// The value under `key`, if it is a dictionary.
    pub fn dict_find_dict(&self, key: &str) -> (r: Option<&Self>)
        ensures
            match self@ {
                Bencode::Dict(d) => match dict_get(d, key.spec_bytes()) {
                    Some(Bencode::Dict(e)) => r.is_some() && r.unwrap()@ == Bencode::Dict(e),
                    _ => r.is_none(),
                },
                _ => r.is_none(),
            },
    {
        match self.dict_find(key) {
            Some(n) => if n.is_dict() {
                Some(n)
            } else {
                None
            },
            None => None,
        }
    }

    /// The number of entries, if this is a dictionary.
    pub fn dict_len(&self) -> (r: Option<usize>)
        ensures
            r == match self@ {
                Bencode::Dict(d) => Some(d.len() as usize),
                _ => None,
            },
    {
        match self {
            ValueRef::Dict(d) => Some(d.len()),
            _ => None,
        }
    }

    /// The item at `index`, if this is a list that long.
    pub fn list_at(&self, index: usize) -> (r: Option<&Self>)
        ensures
            match *self {
                ValueRef::List(l) => if index < l@.len() {
                    r.is_some() && *r.unwrap() == l@[index as int]
                } else {
                    r.is_none()
                },
                _ => r.is_none(),
            },
    {
        match self {
            ValueRef::List(l) => if index < l.len() {
                Some(&l[index])
            } else {
                None
            },
            _ => None,
        }
    }

    /// The text at `index`, if the item there is a byte string that holds
    /// valid UTF-8.
    pub fn list_string_value_at(&self, index: usize) -> (r: Option<&'a str>)
        ensures
            match self@ {
                Bencode::List(l) => if index < l.len() {
                    match l[index as int] {
                        Bencode::Bytes(b) => r.is_some() == valid_utf8(b) && (r matches Some(s)
                            ==> s.spec_bytes() == b),
                        _ => r.is_none(),
                    }
                } else {
                    r.is_none()
                },
                _ => r.is_none(),
            },
    {
        match self.list_at(index) {
            Some(v) => v.as_str(),
            None => None,
        }
    }

    /// The integer at `index`.
    pub fn list_int_value_at(&self, index: usize) -> (r: Option<i64>)
        ensures
            r == match self@ {
                Bencode::List(l) => if index < l.len() {
                    match l[index as int] {
                        Bencode::Int(n) => Some(n),
                        _ => None,
                    }
                } else {
                    None
                },
                _ => None,
            },
    {
        match self.list_at(index) {
            Some(v) => v.as_int(),
            None => None,
        }
    }

    /// The number of items, if this is a list.
    pub fn list_len(&self) -> (r: Option<usize>)
        ensures
            r == match self@ {
                Bencode::List(l) => Some(l.len() as usize),
                _ => None,
            },
    {
        match self {
            ValueRef::List(l) => Some(l.len()),
            _ => None,
        }
    }

    /// Appends the wire form of this value to `out`: the entries of every
    /// dictionary in the ascending order of their keys. The work is done
    /// with a stack of pending tokens in place of recursion.
    pub fn encode(&self, out: &mut Vec<u8>)
        requires
            self@.sorted(),
        ensures
            final(out)@ == old(out)@ + self@.encoding(),
    {
        let mut stack: Vec<Token<'_, 'a>> = Vec::new();
        proof {
            lemma_pending_push(stack@, Token::B(self));
        }
        stack.push(Token::B(self));
        proof {
            assert(out@ + pending(stack@) =~= old(out)@ + self@.encoding());
        }
        while stack.len() > 0
            invariant
                out@ + pending(stack@) == old(out)@ + self@.encoding(),
            decreases pending(stack@).len(),
        {
            let ghost before = out@;
            let ghost full = stack@;
            let token = stack.pop().unwrap();
            proof {
                assert(stack@ =~= full.drop_last());
                assert(pending(full) == token_bytes(token) + pending(stack@));
                assert(before + pending(full) =~= before + token_bytes(token) + pending(stack@));
            }
            emit_token(out, &mut stack, token);
        }
        proof {
            assert(pending(stack@) =~= Seq::<u8>::empty());
            assert(out@ =~= out@ + pending(stack@));
        }
    }
}

impl<'a> ValueRef<'a> {
    /// Whether the dictionaries at every level hold their keys in strictly
    /// ascending order.
    pub fn is_sorted(&self) -> (r: bool)
        ensures
            r == self@.sorted(),
        decreases self,
    {
        match self {
            ValueRef::Int(_) => true,
            ValueRef::Bytes(_) => true,
            ValueRef::List(l) => {
                proof {
                    lemma_list_view(*l);
                    lemma_list_sorted(values_view(l@));
                }
                let ghost lv = values_view(l@);
                let mut i: usize = 0;
                while i < l.len()
                    invariant
                        *self == ValueRef::List(*l),
                        self@ == Bencode::List(lv),
                        Bencode::List(lv).sorted() == (forall|j: int|
                            0 <= j < lv.len() ==> (#[trigger] lv[j]).sorted()),
                        lv == values_view(l@),
                        0 <= i <= l@.len(),
                        forall|j: int| 0 <= j < i ==> (#[trigger] lv[j]).sorted(),
                    decreases l@.len() - i,
                {
                    proof {
                        assert(decreases_to!(*self => self->List_0));
                        assert(self->List_0 == *l);
                        assert(decreases_to!(*l => l@));
                        assert(decreases_to!(l@ => l@[i as int]));
                    }
                    if !l[i].is_sorted() {
                        proof {
                            assert(lv[i as int] == l@[i as int]@);
                            assert(!lv[i as int].sorted());
                        }
                        return false;
                    }
                    proof {
                        assert(lv[i as int] == l@[i as int]@);
                    }
                    i += 1;
                }
                true
            },
            ValueRef::Dict(d) => {
                proof {
                    lemma_dict_view(*d);
                    lemma_dict_sorted(entries_view(d@));
                }
                let ghost dv = entries_view(d@);
                let mut i: usize = 0;
                while i < d.len()
                    invariant
                        *self == ValueRef::Dict(*d),
                        self@ == Bencode::Dict(dv),
                        Bencode::Dict(dv).sorted() == (keys_sorted(dv) && forall|j: int|
                            0 <= j < dv.len() ==> (#[trigger] dv[j]).1.sorted()),
                        dv == entries_view(d@),
                        0 <= i <= d@.len(),
                        forall|j: int| 0 <= j < i ==> (#[trigger] dv[j]).1.sorted(),
                        forall|a: int, b: int|
                            0 <= a < b < i ==> bytes_lt(#[trigger] dv[a].0, #[trigger] dv[b].0),
                    decreases d@.len() - i,
                {
                    proof {
                        assert(decreases_to!(*self => self->Dict_0));
                        assert(self->Dict_0 == *d);
                        assert(decreases_to!(*d => d@));
                        assert(decreases_to!(d@ => d@[i as int]));
                        assert(decreases_to!(d@[i as int] => d@[i as int].1));
                        assert(dv[i as int] == (d@[i as int].0@, d@[i as int].1@));
                    }
                    if i > 0 {
                        proof {
                            assert(dv[i - 1] == (d@[i - 1].0@, d@[i - 1].1@));
                        }
                        match key_order(d[i - 1].0, d[i].0) {
                            KeyOrder::Less => {},
                            _ => {
                                proof {
                                    assert(!bytes_lt(dv[i - 1].0, dv[i as int].0));
                                    assert(!keys_sorted(dv));
                                }
                                return false;
                            },
                        }
                        proof {
                            assert forall|a: int, b: int| 0 <= a < b < i + 1 implies bytes_lt(
                                #[trigger] dv[a].0,
                                #[trigger] dv[b].0,
                            ) by {
                                if b == i && a < i - 1 {
                                    lemma_bytes_lt_transitive(dv[a].0, dv[i - 1].0, dv[i as int].0);
                                }
                            }
                        }
                    }
                    if !d[i].1.is_sorted() {
                        proof {
                            assert(!dv[i as int].1.sorted());
                        }
                        return false;
                    }
                    i += 1;
                }
                true
            },
        }
    }
}

/// The models of a sequence of pairs whose keys are text.
pub open spec fn text_pairs_view<'a>(s: Seq<(&'a str, ValueRef<'a>)>) -> Seq<(Seq<u8>, Bencode)> {
    Seq::new(s.len(), |i: int| (s[i].0.spec_bytes(), s[i].1@))
}

} // verus!
