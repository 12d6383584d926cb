//! What holds of encoding and decoding together.

use crate::error::Error;
use crate::machine::{
    close, decoding, dict_of_flat, frames_fit, initial, lemma_step_advances, open, read_integer,
    read_string, run, step, Frame, Machine, Outcome,
};
use crate::model::{
    dict_insert, lemma_dict_insert_sorted, lemma_rank_exists, rank, entries_count,
        entries_encoding, is_rank, items_count, items_encoding,
    keys_are_text, keys_sorted, lemma_rank_unique, string_encoding, Bencode,
};
use crate::order::{bytes_lt, lemma_bytes_lt_asymmetric};
use crate::reader::{is_first_at, lemma_stop_index};
use crate::text::{decimal, integer_text, is_digit_byte, lemma_decimal_shape,
    lemma_integer_text_round_trip, lemma_length_text_round_trip};
use vstd::prelude::*;

verus! {

/// The bytes `x` stand in `bytes` at position `pos`.
pub open spec fn holds_at(bytes: Seq<u8>, pos: int, x: Seq<u8>) -> bool {
    &&& 0 <= pos
    &&& pos + x.len() <= bytes.len()
    &&& bytes.subrange(pos, pos + x.len()) == x
}

proof fn lemma_holds_split(bytes: Seq<u8>, pos: int, a: Seq<u8>, b: Seq<u8>)
    requires
        holds_at(bytes, pos, a + b),
    ensures
        holds_at(bytes, pos, a),
        holds_at(bytes, pos + a.len(), b),
{
    let whole = bytes.subrange(pos, pos + (a + b).len());
    assert forall|i: int| 0 <= i < a.len() implies bytes.subrange(pos, pos + a.len())[i]
        == a[i] by {
        assert(whole[i] == (a + b)[i]);
    }
    assert(bytes.subrange(pos, pos + a.len()) =~= a);
    assert forall|i: int| 0 <= i < b.len() implies bytes.subrange(
        pos + a.len(),
        pos + a.len() + b.len(),
    )[i] == b[i] by {
        assert(whole[a.len() + i] == (a + b)[a.len() + i]);
    }
    assert(bytes.subrange(pos + a.len(), pos + a.len() + b.len()) =~= b);
}

proof fn lemma_holds_byte(bytes: Seq<u8>, pos: int, x: Seq<u8>, i: int)
    requires
        holds_at(bytes, pos, x),
        0 <= i < x.len(),
    ensures
        bytes[pos + i] == x[i],
{
    assert(bytes.subrange(pos, pos + x.len())[i] == x[i]);
}

/// The keys and values of the entries of `d` from `from` on, in turn, as the
/// decoder collects them.
pub open spec fn flat_entries(d: Seq<(Seq<u8>, Bencode)>, from: nat) -> Seq<Bencode>
    decreases d.len() - from,
{
    if from >= d.len() {
        Seq::empty()
    } else {
        seq![Bencode::Bytes(d[from as int].0), d[from as int].1] + flat_entries(d, from + 1)
    }
}

proof fn lemma_flat_entries_len(d: Seq<(Seq<u8>, Bencode)>, from: nat)
    requires
        from <= d.len(),
    ensures
        flat_entries(d, from).len() == 2 * (d.len() - from),
    decreases d.len() - from,
{
    if from < d.len() {
        lemma_flat_entries_len(d, from + 1);
    }
}

/// Sorted text keys, collected in order, make the dictionary they came from.
proof fn lemma_dict_of_flat_sorted(d: Seq<(Seq<u8>, Bencode)>, from: nat)
    requires
        keys_sorted(d),
        keys_are_text(d),
        from <= d.len(),
    ensures
        dict_of_flat(flat_entries(d, from)) == Some(d.skip(from as int)),
    decreases d.len() - from,
{
    if from >= d.len() {
        assert(d.skip(from as int) =~= Seq::<(Seq<u8>, Bencode)>::empty());
    } else {
        lemma_dict_of_flat_sorted(d, from + 1);
        lemma_flat_entries_len(d, from + 1);
        let flat = flat_entries(d, from);
        let k = d[from as int].0;
        let v = d[from as int].1;
        let rest = d.skip(from as int + 1);
        assert(flat.skip(2) =~= flat_entries(d, from + 1));
        assert(flat[0] == Bencode::Bytes(k));
        assert(flat[1] == v);
        assert(is_rank(rest, k, 0)) by {
            assert forall|i: int| 0 <= i < rest.len() implies !bytes_lt(
                #[trigger] rest[i].0,
                k,
            ) by {
                assert(rest[i] == d[from as int + 1 + i]);
                assert(bytes_lt(d[from as int].0, d[from as int + 1 + i].0));
                lemma_bytes_lt_asymmetric(k, rest[i].0);
            }
        }
        lemma_rank_unique(rest, k, 0);
        if rest.len() > 0 {
            assert(rest[0] == d[from as int + 1]);
            assert(bytes_lt(d[from as int].0, d[from as int + 1].0));
            lemma_bytes_lt_asymmetric(k, k);
        }
        assert(dict_insert(rest, k, v) =~= d.skip(from as int));
        assert(valid_utf8_key(d, from as int));
    }
}

spec fn valid_utf8_key(d: Seq<(Seq<u8>, Bencode)>, i: int) -> bool {
    vstd::utf8::valid_utf8(d[i].0)
}

/// The state after the value `v` has been read in the state `m`.
pub open spec fn after_value(m: Machine, v: Bencode) -> Machine {
    Machine {
        pos: m.pos + v.encoding().len(),
        frames: m.frames,
        values: m.values.push(v),
        items: m.items + v.item_count(),
    }
}

proof fn lemma_run_step(bytes: Seq<u8>, m: Machine, n: Machine)
    requires
        0 <= m.pos,
        frames_fit(m),
        step(bytes, None, None, m) == Outcome::Next(n),
    ensures
        run(bytes, None, None, m) == run(bytes, None, None, n),
        frames_fit(n),
        m.pos < n.pos <= bytes.len(),
{
    lemma_step_advances(bytes, None, None, m);
}

proof fn lemma_read_string(bytes: Seq<u8>, m: Machine, s: Seq<u8>)
    requires
        s.len() <= i64::MAX,
        holds_at(bytes, m.pos, string_encoding(s)),
    ensures
        is_digit_byte(bytes[m.pos]),
        read_string(bytes, m) == Outcome::Next(
            Machine {
                pos: m.pos + string_encoding(s).len(),
                frames: m.frames,
                values: m.values.push(Bencode::Bytes(s)),
                items: m.items + 1,
            },
        ),
{
    let digits = decimal(s.len());
    let enc = string_encoding(s);
    lemma_decimal_shape(s.len());
    lemma_length_text_round_trip(s.len());
    let k = m.pos + digits.len();
    assert forall|j: int| m.pos <= j < k implies bytes[j] != 0x3a by {
        lemma_holds_byte(bytes, m.pos, enc, j - m.pos);
        assert(enc[j - m.pos] == digits[j - m.pos]);
        assert(is_digit_byte(digits[j - m.pos]));
    }
    lemma_holds_byte(bytes, m.pos, enc, digits.len() as int);
    assert(enc[digits.len() as int] == 0x3a);
    lemma_holds_byte(bytes, m.pos, enc, 0);
    assert(enc[0] == digits[0]);
    assert(is_first_at(bytes, m.pos, 0x3a, k));
    lemma_stop_index(bytes, m.pos, 0x3a, k);
    lemma_holds_split(bytes, m.pos, digits + seq![0x3au8], s);
    lemma_holds_split(bytes, m.pos, digits, seq![0x3au8]);
    assert(digits + seq![0x3au8] + s =~= enc);
    assert(bytes.subrange(m.pos, k) == digits);
    assert(bytes.subrange(k + 1, k + 1 + s.len()) == s);
}

proof fn lemma_read_integer(bytes: Seq<u8>, m: Machine, n: i64)
    requires
        holds_at(bytes, m.pos, Bencode::Int(n).encoding()),
    ensures
        bytes[m.pos] == 0x69,
        read_integer(bytes, m) == Outcome::Next(
            Machine {
                pos: m.pos + Bencode::Int(n).encoding().len(),
                frames: m.frames,
                values: m.values.push(Bencode::Int(n)),
                items: m.items + 1,
            },
        ),
{
    let text = integer_text(n as int);
    let enc = Bencode::Int(n).encoding();
    assert(enc =~= seq![0x69u8] + text + seq![0x65u8]);
    lemma_integer_text_round_trip(n);
    if n < 0 {
        lemma_decimal_shape((-(n as int)) as nat);
    } else {
        lemma_decimal_shape(n as nat);
    }
    let k = m.pos + 1 + text.len();
    assert forall|j: int| m.pos + 1 <= j < k implies bytes[j] != 0x65 by {
        lemma_holds_byte(bytes, m.pos, enc, j - m.pos);
        let t = j - m.pos - 1;
        assert(enc[j - m.pos] == text[t]);
        if n < 0 {
            let d = decimal((-(n as int)) as nat);
            if t > 0 {
                assert(text[t] == d[t - 1]);
                assert(is_digit_byte(d[t - 1]));
            }
        } else {
            assert(is_digit_byte(text[t]));
        }
    }
    lemma_holds_byte(bytes, m.pos, enc, 0);
    lemma_holds_byte(bytes, m.pos, enc, 1 + text.len() as int);
    assert(is_first_at(bytes, m.pos + 1, 0x65, k));
    lemma_stop_index(bytes, m.pos + 1, 0x65, k);
    lemma_holds_split(bytes, m.pos, seq![0x69u8] + text, seq![0x65u8]);
    lemma_holds_split(bytes, m.pos, seq![0x69u8], text);
    assert(bytes.subrange(m.pos + 1, k) == text);
}

/// Reading the encoding of a well-formed value leaves the value on the
/// stack, wherever a value may stand.
#[verifier::rlimit(40)]
proof fn lemma_value(bytes: Seq<u8>, m: Machine, v: Bencode)
    requires
        v.well_formed(),
        frames_fit(m),
        holds_at(bytes, m.pos, v.encoding()),
        !(m.frames.len() == 0 && m.values.len() > 0),
    ensures
        run(bytes, None, None, m) == run(bytes, None, None, after_value(m, v)),
        frames_fit(after_value(m, v)),
    decreases v, 0nat, 0nat,
{
    let enc = v.encoding();
    match v {
        Bencode::Int(n) => {
            lemma_read_integer(bytes, m, n);
            lemma_run_step(bytes, m, after_value(m, v));
        },
        Bencode::Bytes(s) => {
            lemma_read_string(bytes, m, s);
            lemma_run_step(bytes, m, after_value(m, v));
        },
        Bencode::List(l) => {
            let body = items_encoding(l, 0);
            assert(enc =~= seq![0x6cu8] + body + seq![0x65u8]);
            lemma_holds_byte(bytes, m.pos, enc, 0);
            let m1 = open(m, false)->Next_0;
            lemma_run_step(bytes, m, m1);
            lemma_holds_split(bytes, m.pos, seq![0x6cu8] + body, seq![0x65u8]);
            lemma_holds_split(bytes, m.pos, seq![0x6cu8], body);
            lemma_items(bytes, m1, l, 0);
            let m2 = Machine {
                pos: m1.pos + body.len(),
                frames: m1.frames,
                values: m1.values + l.skip(0),
                items: m1.items + items_count(l, 0),
            };
            assert(l.skip(0) =~= l);
            assert(bytes[m2.pos] == 0x65) by {
                lemma_holds_byte(bytes, m.pos, enc, 1 + body.len() as int);
            }
            assert(m2.frames.last() == Frame { dict: false, base: m.values.len() });
            assert(m2.values.take(m.values.len() as int) =~= m.values);
            assert(m2.values.skip(m.values.len() as int) =~= l);
            assert(m2.frames.drop_last() =~= m.frames);
            assert(step(bytes, None, None, m2) == Outcome::Next(after_value(m, v)));
            lemma_run_step(bytes, m2, after_value(m, v));
        },
        Bencode::Dict(d) => {
            let body = entries_encoding(d, 0);
            assert(enc =~= seq![0x64u8] + body + seq![0x65u8]);
            lemma_holds_byte(bytes, m.pos, enc, 0);
            let m1 = open(m, true)->Next_0;
            lemma_run_step(bytes, m, m1);
            lemma_holds_split(bytes, m.pos, seq![0x64u8] + body, seq![0x65u8]);
            lemma_holds_split(bytes, m.pos, seq![0x64u8], body);
            lemma_entries(bytes, m1, d, 0);
            let m2 = Machine {
                pos: m1.pos + body.len(),
                frames: m1.frames,
                values: m1.values + flat_entries(d, 0),
                items: m1.items + entries_count(d, 0),
            };
            assert(bytes[m2.pos] == 0x65) by {
                lemma_holds_byte(bytes, m.pos, enc, 1 + body.len() as int);
            }
            assert(m2.frames.last() == Frame { dict: true, base: m.values.len() });
            assert(m2.values.take(m.values.len() as int) =~= m.values);
            assert(m2.values.skip(m.values.len() as int) =~= flat_entries(d, 0));
            assert(m2.frames.drop_last() =~= m.frames);
            lemma_flat_entries_len(d, 0);
            lemma_dict_of_flat_sorted(d, 0);
            assert(d.skip(0) =~= d);
            assert(step(bytes, None, None, m2) == Outcome::Next(after_value(m, v)));
            lemma_run_step(bytes, m2, after_value(m, v));
        },
    }
}

/// Reading the encodings of the items of a list leaves the items on the
/// stack.
proof fn lemma_items(bytes: Seq<u8>, m: Machine, l: Seq<Bencode>, from: nat)
    requires
        forall|i: int| 0 <= i < l.len() ==> (#[trigger] l[i]).well_formed(),
        from <= l.len(),
        frames_fit(m),
        m.frames.len() > 0,
        holds_at(bytes, m.pos, items_encoding(l, from)),
    ensures
        run(bytes, None, None, m) == run(
            bytes,
            None,
            None,
            Machine {
                pos: m.pos + items_encoding(l, from).len(),
                frames: m.frames,
                values: m.values + l.skip(from as int),
                items: m.items + items_count(l, from),
            },
        ),
        frames_fit(
            Machine {
                pos: m.pos + items_encoding(l, from).len(),
                frames: m.frames,
                values: m.values + l.skip(from as int),
                items: m.items + items_count(l, from),
            },
        ),
    decreases l, 1nat, l.len() - from,
{
    if from >= l.len() {
        assert(m.values + l.skip(from as int) =~= m.values);
    } else {
        let v = l[from as int];
        lemma_holds_split(bytes, m.pos, v.encoding(), items_encoding(l, from + 1));
        lemma_value(bytes, m, v);
        let m1 = after_value(m, v);
        lemma_items(bytes, m1, l, from + 1);
        assert(m1.values + l.skip(from as int + 1) =~= m.values + l.skip(from as int));
    }
}

/// Reading the encodings of the entries of a dictionary leaves their keys
/// and values on the stack, in turn.
proof fn lemma_entries(bytes: Seq<u8>, m: Machine, d: Seq<(Seq<u8>, Bencode)>, from: nat)
    requires
        forall|i: int| 0 <= i < d.len() ==> (#[trigger] d[i]).1.well_formed(),
        forall|i: int| 0 <= i < d.len() ==> (#[trigger] d[i]).0.len() <= i64::MAX,
        from <= d.len(),
        frames_fit(m),
        m.frames.len() > 0,
        holds_at(bytes, m.pos, entries_encoding(d, from)),
    ensures
        run(bytes, None, None, m) == run(
            bytes,
            None,
            None,
            Machine {
                pos: m.pos + entries_encoding(d, from).len(),
                frames: m.frames,
                values: m.values + flat_entries(d, from),
                items: m.items + entries_count(d, from),
            },
        ),
        frames_fit(
            Machine {
                pos: m.pos + entries_encoding(d, from).len(),
                frames: m.frames,
                values: m.values + flat_entries(d, from),
                items: m.items + entries_count(d, from),
            },
        ),
    decreases d, 1nat, d.len() - from,
{
    if from >= d.len() {
        assert(m.values + flat_entries(d, from) =~= m.values);
    } else {
        let k = d[from as int].0;
        let v = d[from as int].1;
        let key = Bencode::Bytes(k);
        lemma_holds_split(
            bytes,
            m.pos,
            string_encoding(k) + v.encoding(),
            entries_encoding(d, from + 1),
        );
        lemma_holds_split(bytes, m.pos, string_encoding(k), v.encoding());
        assert(d[from as int].0.len() <= i64::MAX);
        lemma_read_string(bytes, m, k);
        let m1 = after_value(m, key);
        lemma_run_step(bytes, m, m1);
        lemma_value(bytes, m1, v);
        let m2 = after_value(m1, v);
        lemma_entries(bytes, m2, d, from + 1);
        assert(m2.values + flat_entries(d, from + 1) =~= m.values + flat_entries(d, from));
    }
}

/// Decoding the encoding of a well-formed value gives the value back.
pub proof fn lemma_decode_encode(v: Bencode)
    requires
        v.well_formed(),
    ensures
        decoding(v.encoding(), None, None) == Ok::<Bencode, Error>(v),
{
    let bytes = v.encoding();
    assert(bytes.subrange(0, bytes.len() as int) =~= bytes);
    lemma_value(bytes, initial(), v);
    let end = after_value(initial(), v);
    assert(end.values =~= seq![v]);
}

/// A dictionary is written with its entries in ascending byte order of their
/// keys: the encoding lists the entries in the order of the model, and in a
/// dictionary that the encoder takes that order ascends strictly.
pub proof fn lemma_encode_sorted(d: Seq<(Seq<u8>, Bencode)>)
    requires
        Bencode::Dict(d).sorted(),
    ensures
        Bencode::Dict(d).encoding() == seq![0x64u8] + entries_encoding(d, 0) + seq![0x65u8],
        forall|i: int, j: int|
            0 <= i < j < d.len() ==> bytes_lt(#[trigger] d[i].0, #[trigger] d[j].0),
{
}

/// `d` lists, one inside the other: the bytes of `d` opening `l` followed by
/// `d` closing `e`.
pub open spec fn nested_text(d: nat) -> Seq<u8> {
    Seq::new(
        2 * d,
        |i: int|
            if i < d {
                0x6cu8
            } else {
                0x65u8
            },
    )
}

/// `d` lists, one inside the other, the innermost being empty.
pub open spec fn nested_list(d: nat) -> Bencode
    decreases d,
{
    if d <= 1 {
        Bencode::List(Seq::empty())
    } else {
        Bencode::List(seq![nested_list((d - 1) as nat)])
    }
}

spec fn opened(i: nat) -> Machine {
    Machine {
        pos: i as int,
        frames: Seq::new(i, |j: int| Frame { dict: false, base: 0 }),
        values: Seq::empty(),
        items: i,
    }
}

spec fn closed(d: nat, j: nat) -> Machine {
    Machine {
        pos: (d + j) as int,
        frames: Seq::new((d - j) as nat, |k: int| Frame { dict: false, base: 0 }),
        values: if j == 0 {
            Seq::empty()
        } else {
            seq![nested_list(j)]
        },
        items: d,
    }
}

proof fn lemma_fit_opened(i: nat)
    ensures
        frames_fit(opened(i)),
{
}

proof fn lemma_fit_closed(d: nat, j: nat)
    requires
        j <= d,
    ensures
        frames_fit(closed(d, j)),
{
}

proof fn lemma_opening(d: nat, limit: usize, i: nat)
    requires
        i <= d,
        d > limit ==> i <= limit,
    ensures
        run(nested_text(d), Some(limit), None, opened(i)) == if d <= limit {
            run(nested_text(d), Some(limit), None, opened(d))
        } else {
            Err(Error::DepthLimit)
        },
    decreases d - i,
{
    let bytes = nested_text(d);
    if i < d {
        lemma_fit_opened(i);
        lemma_step_advances(bytes, Some(limit), None, opened(i));
        assert(bytes[i as int] == 0x6c);
        if i >= limit {
        } else {
            let n = open(opened(i), false)->Next_0;
            assert(n.frames =~= opened(i + 1).frames);
            assert(n == opened(i + 1));
            assert(step(bytes, Some(limit), None, opened(i)) == Outcome::Next(opened(i + 1)));
            lemma_opening(d, limit, i + 1);
        }
    }
}

proof fn lemma_closing(d: nat, limit: usize, j: nat)
    requires
        1 <= d,
        j <= d,
    ensures
        run(nested_text(d), Some(limit), None, closed(d, j)) == Ok::<Bencode, Error>(
            nested_list(d),
        ),
    decreases d - j,
{
    let bytes = nested_text(d);
    let m = closed(d, j);
    lemma_fit_closed(d, j);
    lemma_step_advances(bytes, Some(limit), None, m);
    if j < d {
        assert(bytes[(d + j) as int] == 0x65);
        let n = close(m)->Next_0;
        assert(m.frames.last() == Frame { dict: false, base: 0 });
        assert(m.values.take(0) =~= Seq::<Bencode>::empty());
        assert(m.values.skip(0) =~= m.values);
        assert(n.values =~= closed(d, j + 1).values);
        assert(n.frames =~= closed(d, j + 1).frames);
        assert(n == closed(d, j + 1));
        assert(step(bytes, Some(limit), None, m) == Outcome::Next(closed(d, j + 1)));
        lemma_closing(d, limit, j + 1);
    } else {
        assert(m.frames.len() == 0);
        assert(m.values.len() == 1);
    }
}

/// Lists that are nested `d` deep decode exactly if `d` is no more than the
/// depth limit; where they are nested deeper, decoding fails with
/// `DepthLimit`.
pub proof fn lemma_depth_limit(d: nat, limit: usize)
    requires
        d >= 1,
    ensures
        decoding(nested_text(d), Some(limit), None).is_ok() <==> d <= limit,
        d <= limit ==> decoding(nested_text(d), Some(limit), None) == Ok::<Bencode, Error>(
            nested_list(d),
        ),
        d > limit ==> decoding(nested_text(d), Some(limit), None) == Err::<Bencode, Error>(
            Error::DepthLimit,
        ),
{
    assert(opened(0).frames =~= initial().frames);
    assert(opened(0) == initial());
    lemma_opening(d, limit, 0);
    if d <= limit {
        assert(opened(d).frames =~= closed(d, 0).frames);
        assert(opened(d) == closed(d, 0));
        lemma_closing(d, limit, 0);
    }
}

/// Every value on the stack is well formed.
pub open spec fn values_well_formed(values: Seq<Bencode>) -> bool {
    forall|i: int| 0 <= i < values.len() ==> (#[trigger] values[i]).well_formed()
}

/// The entries are those of a well-formed dictionary.
pub open spec fn entries_well_formed(d: Seq<(Seq<u8>, Bencode)>) -> bool {
    Bencode::Dict(d).well_formed()
}

proof fn lemma_dict_insert_well_formed(d: Seq<(Seq<u8>, Bencode)>, k: Seq<u8>, v: Bencode)
    requires
        entries_well_formed(d),
        vstd::utf8::valid_utf8(k),
        k.len() <= i64::MAX,
        v.well_formed(),
    ensures
        entries_well_formed(dict_insert(d, k, v)),
{
    lemma_rank_exists(d, k);
    lemma_dict_insert_sorted(d, k, v);
    let p = rank(d, k);
    let r = dict_insert(d, k, v);
    assert forall|i: int| 0 <= i < r.len() implies vstd::utf8::valid_utf8(#[trigger] r[i].0)
        && r[i].0.len() <= i64::MAX && r[i].1.well_formed() by {
        if p < d.len() && d[p].0 == k {
            if i != p {
                assert(r[i] == d[i]);
            }
        } else if i < p {
            assert(r[i] == d[i]);
        } else if i > p {
            assert(r[i] == d[i - 1]);
        }
    }
}

proof fn lemma_dict_of_flat_well_formed(flat: Seq<Bencode>)
    requires
        values_well_formed(flat),
    ensures
        dict_of_flat(flat) matches Some(d) ==> entries_well_formed(d),
    decreases flat.len(),
{
    if flat.len() >= 2 {
        let rest = flat.skip(2);
        assert forall|i: int| 0 <= i < rest.len() implies (#[trigger] rest[i]).well_formed() by {
            assert(rest[i] == flat[i + 2]);
        }
        lemma_dict_of_flat_well_formed(rest);
        match (flat[0], dict_of_flat(rest)) {
            (Bencode::Bytes(k), Some(d)) => {
                if vstd::utf8::valid_utf8(k) {
                    assert(flat[0].well_formed());
                    assert(flat[1].well_formed());
                    lemma_dict_insert_well_formed(d, k, flat[1]);
                }
            },
            _ => {},
        }
    }
}

proof fn lemma_run_well_formed(
    bytes: Seq<u8>,
    depth_limit: Option<usize>,
    item_limit: Option<usize>,
    m: Machine,
)
    requires
        0 <= m.pos,
        frames_fit(m),
        values_well_formed(m.values),
    ensures
        run(bytes, depth_limit, item_limit, m) matches Ok(v) ==> v.well_formed(),
    decreases bytes.len() - m.pos,
{
    lemma_step_advances(bytes, depth_limit, item_limit, m);
    match step(bytes, depth_limit, item_limit, m) {
        Outcome::Done(r) => {},
        Outcome::Next(n) => {
            let b = bytes[m.pos];
            assert(values_well_formed(n.values)) by {
                if b == 0x65 {
                    let top = m.frames.last();
                    let kept = m.values.take(top.base as int);
                    let tail = m.values.skip(top.base as int);
                    assert(m.frames[m.frames.len() - 1].base <= m.values.len());
                    assert forall|i: int| 0 <= i < tail.len() implies (
                    #[trigger] tail[i]).well_formed() by {
                        assert(tail[i] == m.values[top.base + i]);
                    }
                    if top.dict {
                        lemma_dict_of_flat_well_formed(tail);
                    }
                    assert forall|i: int| 0 <= i < n.values.len() implies (
                    #[trigger] n.values[i]).well_formed() by {
                        if i < kept.len() {
                            assert(n.values[i] == m.values[i]);
                        }
                    }
                } else {
                    assert forall|i: int| 0 <= i < n.values.len() implies (
                    #[trigger] n.values[i]).well_formed() by {
                        if i < m.values.len() {
                            assert(n.values[i] == m.values[i]);
                        }
                    }
                }
            }
            lemma_run_well_formed(bytes, depth_limit, item_limit, n);
        },
    }
}

/// What decoding accepts is well formed: the dictionaries of a decoded value
/// hold text keys in strictly ascending order.
pub proof fn lemma_decoded_well_formed(
    bytes: Seq<u8>,
    depth_limit: Option<usize>,
    item_limit: Option<usize>,
)
    ensures
        decoding(bytes, depth_limit, item_limit) matches Ok(v) ==> v.well_formed(),
{
    lemma_run_well_formed(bytes, depth_limit, item_limit, initial());
}

} // verus!
