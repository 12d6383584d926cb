//! The mathematical model of a bencoded value and of its wire encoding.

use crate::order::{bytes_lt, lemma_bytes_lt_asymmetric, lemma_bytes_lt_total,
    lemma_bytes_lt_transitive};
use crate::text::{decimal, integer_text};
use vstd::prelude::*;
use vstd::utf8::valid_utf8;

verus! {

/// A bencoded value as a mathematical tree. A dictionary is the sequence of
/// its entries in the order in which they are written out.
pub enum Bencode {
    Int(i64),
    Bytes(Seq<u8>),
    List(Seq<Bencode>),
    Dict(Seq<(Seq<u8>, Bencode)>),
}

/// Keys ascend strictly in byte order, so no key occurs twice.
pub open spec fn keys_sorted(d: Seq<(Seq<u8>, Bencode)>) -> bool {
    forall|i: int, j: int| 0 <= i < j < d.len() ==> bytes_lt(#[trigger] d[i].0, #[trigger] d[j].0)
}

/// Every key is valid UTF-8 text.
pub open spec fn keys_are_text(d: Seq<(Seq<u8>, Bencode)>) -> bool {
    forall|i: int| 0 <= i < d.len() ==> valid_utf8(#[trigger] d[i].0)
}

/// The wire form of a byte string: its length in decimal, a colon, the bytes.
pub open spec fn string_encoding(s: Seq<u8>) -> Seq<u8> {
    decimal(s.len()) + seq![0x3au8] + s
}

impl Bencode {
    /// Dictionaries at every level hold text keys in strictly ascending
    /// order, and the length of every byte string and key fits a signed
    /// 64-bit integer, the widest length that the decoder reads.
    pub open spec fn well_formed(self) -> bool
        decreases self,
    {
        match self {
            Bencode::Int(_) => true,
            Bencode::Bytes(b) => b.len() <= i64::MAX,
            Bencode::List(l) => forall|i: int| 0 <= i < l.len() ==> (#[trigger] l[i]).well_formed(),
            Bencode::Dict(d) => {
                &&& keys_sorted(d)
                &&& keys_are_text(d)
                &&& forall|i: int| 0 <= i < d.len() ==> (#[trigger] d[i]).0.len() <= i64::MAX
                &&& forall|i: int| 0 <= i < d.len() ==> (#[trigger] d[i]).1.well_formed()
            },
        }
    }

    /// Dictionaries at every level hold their keys in strictly ascending
    /// order: what every value that the constructors build, or that the
    /// decoder gives, has, and what the encoder asks for.
    pub open spec fn sorted(self) -> bool
        decreases self,
    {
        match self {
            Bencode::Int(_) => true,
            Bencode::Bytes(_) => true,
            Bencode::List(l) => forall|i: int| 0 <= i < l.len() ==> (#[trigger] l[i]).sorted(),
            Bencode::Dict(d) => {
                &&& keys_sorted(d)
                &&& forall|i: int| 0 <= i < d.len() ==> (#[trigger] d[i]).1.sorted()
            },
        }
    }

    /// The bytes that stand for this value on the wire.
    pub open spec fn encoding(self) -> Seq<u8>
        decreases self, 0nat, 0nat,
    {
        match self {
            Bencode::Int(n) => seq![0x69u8] + integer_text(n as int) + seq![0x65u8],
            Bencode::Bytes(s) => string_encoding(s),
            Bencode::List(l) => seq![0x6cu8] + items_encoding(l, 0) + seq![0x65u8],
            Bencode::Dict(d) => seq![0x64u8] + entries_encoding(d, 0) + seq![0x65u8],
        }
    }

    /// How many items a decoder counts for this value: one for the value
    /// itself, one for each key and the count of each child.
    pub open spec fn item_count(self) -> nat
        decreases self, 0nat, 0nat,
    {
        match self {
            Bencode::Int(_) => 1,
            Bencode::Bytes(_) => 1,
            Bencode::List(l) => 1 + items_count(l, 0),
            Bencode::Dict(d) => 1 + entries_count(d, 0),
        }
    }
}

/// The encodings of the items of `l` from index `from` on, one after another.
pub open spec fn items_encoding(l: Seq<Bencode>, from: nat) -> Seq<u8>
    decreases l, 1nat, l.len() - from,
{
    if from >= l.len() {
        Seq::empty()
    } else {
        l[from as int].encoding() + items_encoding(l, from + 1)
    }
}

/// The encodings of the entries of `d` from index `from` on: each key as a
/// byte string, followed by its value.
pub open spec fn entries_encoding(d: Seq<(Seq<u8>, Bencode)>, from: nat) -> Seq<u8>
    decreases d, 1nat, d.len() - from,
{
    if from >= d.len() {
        Seq::empty()
    } else {
        string_encoding(d[from as int].0) + d[from as int].1.encoding() + entries_encoding(
            d,
            from + 1,
        )
    }
}

/// The item count of the items of `l` from index `from` on.
pub open spec fn items_count(l: Seq<Bencode>, from: nat) -> nat
    decreases l, 1nat, l.len() - from,
{
    if from >= l.len() {
        0
    } else {
        l[from as int].item_count() + items_count(l, from + 1)
    }
}

/// The item count of the entries of `d` from index `from` on.
pub open spec fn entries_count(d: Seq<(Seq<u8>, Bencode)>, from: nat) -> nat
    decreases d, 1nat, d.len() - from,
{
    if from >= d.len() {
        0
    } else {
        1 + d[from as int].1.item_count() + entries_count(d, from + 1)
    }
}

/// The place of `k` among the keys of `d`: every entry before it has a
/// smaller key and no entry from it on has.
pub open spec fn is_rank(d: Seq<(Seq<u8>, Bencode)>, k: Seq<u8>, p: int) -> bool {
    &&& 0 <= p <= d.len()
    &&& forall|i: int| 0 <= i < p ==> bytes_lt(#[trigger] d[i].0, k)
    &&& forall|i: int| p <= i < d.len() ==> !bytes_lt(#[trigger] d[i].0, k)
}

/// The place of `k` among the keys of `d` (see `is_rank`).
pub open spec fn rank(d: Seq<(Seq<u8>, Bencode)>, k: Seq<u8>) -> int {
    choose|p: int| is_rank(d, k, p)
}

/// The entries after `k` has been given the value `v`: the entry with that
/// key is replaced, or a new entry is put at the key's place.
pub open spec fn dict_insert(d: Seq<(Seq<u8>, Bencode)>, k: Seq<u8>, v: Bencode) -> Seq<
    (Seq<u8>, Bencode),
> {
    let p = rank(d, k);
    if p < d.len() && d[p].0 == k {
        d.update(p, (k, v))
    } else {
        d.insert(p, (k, v))
    }
}

/// The index of the first entry of `d` whose key is `k`, if there is one.
pub open spec fn dict_index(d: Seq<(Seq<u8>, Bencode)>, k: Seq<u8>) -> Option<int> {
    if exists|i: int| 0 <= i < d.len() && #[trigger] d[i].0 == k {
        Some(choose|i: int| is_first_with_key(d, k, i))
    } else {
        None
    }
}

/// `i` is the index of the first entry of `d` whose key is `k`.
pub open spec fn is_first_with_key(d: Seq<(Seq<u8>, Bencode)>, k: Seq<u8>, i: int) -> bool {
    &&& 0 <= i < d.len()
    &&& d[i].0 == k
    &&& forall|j: int| 0 <= j < i ==> #[trigger] d[j].0 != k
}

/// The value that `d` holds under the key `k`, if any.
pub open spec fn dict_get(d: Seq<(Seq<u8>, Bencode)>, k: Seq<u8>) -> Option<Bencode> {
    match dict_index(d, k) {
        Some(i) => Some(d[i].1),
        None => None,
    }
}

/// The first entry with a key is the one that `dict_index` names.
pub proof fn lemma_dict_index(d: Seq<(Seq<u8>, Bencode)>, k: Seq<u8>, i: int)
    requires
        is_first_with_key(d, k, i),
    ensures
        dict_index(d, k) == Some(i),
        dict_get(d, k) == Some(d[i].1),
{
    let c = choose|c: int| is_first_with_key(d, k, c);
    assert(is_first_with_key(d, k, c));
    if c < i {
    } else if i < c {
    }
}

/// The entries that result from giving each key of `pairs` its value in turn,
/// a later pair replacing an earlier one with the same key.
pub open spec fn dict_from_pairs(pairs: Seq<(Seq<u8>, Bencode)>) -> Seq<(Seq<u8>, Bencode)>
    decreases pairs.len(),
{
    if pairs.len() == 0 {
        Seq::empty()
    } else {
        dict_insert(dict_from_pairs(pairs.drop_last()), pairs.last().0, pairs.last().1)
    }
}

/// A place that satisfies `is_rank` is the rank.
pub proof fn lemma_rank_unique(d: Seq<(Seq<u8>, Bencode)>, k: Seq<u8>, p: int)
    requires
        is_rank(d, k, p),
    ensures
        rank(d, k) == p,
{
    let q = rank(d, k);
    assert(is_rank(d, k, q));
    if q < p {
        assert(bytes_lt(d[q].0, k));
    } else if p < q {
        assert(bytes_lt(d[p].0, k));
    }
}

/// Among sorted keys every key has a rank.
pub proof fn lemma_rank_exists(d: Seq<(Seq<u8>, Bencode)>, k: Seq<u8>)
    requires
        keys_sorted(d),
    ensures
        is_rank(d, k, rank(d, k)),
    decreases d.len(),
{
    if d.len() == 0 {
        assert(is_rank(d, k, 0));
    } else {
        let front = d.drop_last();
        assert(keys_sorted(front)) by {
            assert forall|i: int, j: int| 0 <= i < j < front.len() implies bytes_lt(
                #[trigger] front[i].0,
                #[trigger] front[j].0,
            ) by {
                assert(front[i] == d[i] && front[j] == d[j]);
            }
        }
        lemma_rank_exists(front, k);
        let p = rank(front, k);
        if bytes_lt(d.last().0, k) {
            assert(is_rank(d, k, d.len() as int)) by {
                assert forall|i: int| 0 <= i < d.len() implies bytes_lt(#[trigger] d[i].0, k) by {
                    if i < d.len() - 1 {
                        lemma_bytes_lt_transitive(d[i].0, d.last().0, k);
                    }
                }
            }
        } else {
            assert(is_rank(d, k, p)) by {
                assert forall|i: int| 0 <= i < p implies bytes_lt(#[trigger] d[i].0, k) by {
                    assert(d[i] == front[i]);
                }
                assert forall|i: int| p <= i < d.len() implies !bytes_lt(#[trigger] d[i].0, k) by {
                    if i < d.len() - 1 {
                        assert(d[i] == front[i]);
                    }
                }
            }
        }
    }
}

/// Giving a key a value keeps the keys sorted and leaves the key with that
/// value.
pub proof fn lemma_dict_insert_sorted(d: Seq<(Seq<u8>, Bencode)>, k: Seq<u8>, v: Bencode)
    requires
        keys_sorted(d),
    ensures
        keys_sorted(dict_insert(d, k, v)),
        dict_get(dict_insert(d, k, v), k) == Some(v),
{
    lemma_rank_exists(d, k);
    let p = rank(d, k);
    let r = dict_insert(d, k, v);
    assert forall|i: int, j: int| 0 <= i < j < r.len() implies bytes_lt(
        #[trigger] r[i].0,
        #[trigger] r[j].0,
    ) by {
        if p < d.len() && d[p].0 == k {
            assert(r[i].0 == d[i].0 && r[j].0 == d[j].0);
        } else {
            if j < p {
                assert(r[i] == d[i] && r[j] == d[j]);
            } else if j == p {
                assert(r[i] == d[i]);
            } else if i < p {
                assert(r[i] == d[i] && r[j] == d[j - 1]);
                if j - 1 == i {
                } else {
                }
            } else if i == p {
                assert(r[j] == d[j - 1]);
                assert(!bytes_lt(d[j - 1].0, k));
                lemma_bytes_lt_total(d[j - 1].0, k);
                if d[j - 1].0 == k {
                    if j - 1 > p {
                        assert(bytes_lt(d[p].0, d[j - 1].0));
                        assert(!bytes_lt(d[p].0, k));
                    }
                }
            } else {
                assert(r[i] == d[i - 1] && r[j] == d[j - 1]);
            }
        }
    }
    assert(r[p].0 == k);
    assert forall|j: int| 0 <= j < p implies #[trigger] r[j].0 != k by {
        assert(r[j] == d[j]);
        lemma_bytes_lt_asymmetric(d[j].0, k);
    }
    assert(is_first_with_key(r, k, p));
    let q = choose|i: int| is_first_with_key(r, k, i);
    assert(is_first_with_key(r, k, q));
    if q < p {
    } else if p < q {
    }
}

/// Among sorted keys an entry with a key is the first with that key.
pub proof fn lemma_sorted_first(d: Seq<(Seq<u8>, Bencode)>, i: int)
    requires
        keys_sorted(d),
        0 <= i < d.len(),
    ensures
        is_first_with_key(d, d[i].0, i),
        dict_get(d, d[i].0) == Some(d[i].1),
{
    assert forall|j: int| 0 <= j < i implies #[trigger] d[j].0 != d[i].0 by {
        assert(bytes_lt(d[j].0, d[i].0));
        lemma_bytes_lt_asymmetric(d[j].0, d[i].0);
    }
    lemma_dict_index(d, d[i].0, i);
}

/// Giving a key a value leaves what stands under every other key.
pub proof fn lemma_dict_insert_other(
    d: Seq<(Seq<u8>, Bencode)>,
    k: Seq<u8>,
    v: Bencode,
    other: Seq<u8>,
)
    requires
        keys_sorted(d),
        other != k,
    ensures
        dict_get(dict_insert(d, k, v), other) == dict_get(d, other),
{
    lemma_rank_exists(d, k);
    lemma_dict_insert_sorted(d, k, v);
    let p = rank(d, k);
    let r = dict_insert(d, k, v);
    let same = p < d.len() && d[p].0 == k;
    if exists|i: int| 0 <= i < d.len() && #[trigger] d[i].0 == other {
        let i = choose|i: int| 0 <= i < d.len() && #[trigger] d[i].0 == other;
        lemma_sorted_first(d, i);
        let j = if same || i < p {
            i
        } else {
            i + 1
        };
        assert(r[j] == d[i]);
        lemma_sorted_first(r, j);
    } else {
        if exists|j: int| 0 <= j < r.len() && #[trigger] r[j].0 == other {
            let j = choose|j: int| 0 <= j < r.len() && #[trigger] r[j].0 == other;
            if same {
                assert(r[j].0 == d[j].0);
            } else if j < p {
                assert(r[j] == d[j]);
            } else if j > p {
                assert(r[j] == d[j - 1]);
            }
        }
    }
}

/// The entries that are made of pairs are sorted.
pub proof fn lemma_pairs_sorted(pairs: Seq<(Seq<u8>, Bencode)>)
    ensures
        keys_sorted(dict_from_pairs(pairs)),
    decreases pairs.len(),
{
    if pairs.len() > 0 {
        lemma_pairs_sorted(pairs.drop_last());
        lemma_dict_insert_sorted(
            dict_from_pairs(pairs.drop_last()),
            pairs.last().0,
            pairs.last().1,
        );
    }
}

/// A list is sorted where each of its items is.
pub proof fn lemma_list_sorted(l: Seq<Bencode>)
    ensures
        Bencode::List(l).sorted() == (forall|i: int| 0 <= i < l.len() ==> (#[trigger] l[i]).sorted()),
{
    let v = Bencode::List(l);
    match v {
        Bencode::List(items) => {
            assert(items == l);
            if v.sorted() {
                assert forall|i: int| 0 <= i < l.len() implies (#[trigger] l[i]).sorted() by {
                    assert(items[i].sorted());
                }
            }
        },
        _ => {},
    }
}

/// A dictionary is sorted where its keys ascend and each of its values is
/// sorted.
pub proof fn lemma_dict_sorted(d: Seq<(Seq<u8>, Bencode)>)
    ensures
        Bencode::Dict(d).sorted() == (keys_sorted(d) && forall|i: int|
            0 <= i < d.len() ==> (#[trigger] d[i]).1.sorted()),
{
    let v = Bencode::Dict(d);
    match v {
        Bencode::Dict(entries) => {
            assert(entries == d);
            if v.sorted() {
                assert forall|i: int| 0 <= i < d.len() implies (#[trigger] d[i]).1.sorted() by {
                    assert(entries[i].1.sorted());
                }
            }
        },
        _ => {},
    }
}

/// A well-formed value is sorted.
pub proof fn lemma_well_formed_sorted(v: Bencode)
    requires
        v.well_formed(),
    ensures
        v.sorted(),
    decreases v,
{
    match v {
        Bencode::List(l) => {
            assert forall|i: int| 0 <= i < l.len() implies (#[trigger] l[i]).sorted() by {
                lemma_well_formed_sorted(l[i]);
            }
        },
        Bencode::Dict(d) => {
            assert forall|i: int| 0 <= i < d.len() implies (#[trigger] d[i]).1.sorted() by {
                lemma_well_formed_sorted(d[i].1);
            }
        },
        _ => {},
    }
}

/// Giving a key of a sorted dictionary a sorted value leaves a sorted
/// dictionary.
pub proof fn lemma_dict_insert_keeps_sorted(d: Seq<(Seq<u8>, Bencode)>, k: Seq<u8>, v: Bencode)
    requires
        Bencode::Dict(d).sorted(),
        v.sorted(),
    ensures
        Bencode::Dict(dict_insert(d, k, v)).sorted(),
{
    lemma_rank_exists(d, k);
    lemma_dict_insert_sorted(d, k, v);
    let p = rank(d, k);
    let r = dict_insert(d, k, v);
    assert forall|i: int| 0 <= i < r.len() implies (#[trigger] r[i]).1.sorted() by {
        if p < d.len() && d[p].0 == k {
            if i != p {
                assert(r[i] == d[i]);
            }
        } else if i < p {
            assert(r[i] == d[i]);
        } else if i > p {
            assert(r[i] == d[i - 1]);
        }
    }
}

/// The dictionary that is made of pairs with sorted values is sorted.
pub proof fn lemma_pairs_deep_sorted(pairs: Seq<(Seq<u8>, Bencode)>)
    requires
        forall|i: int| 0 <= i < pairs.len() ==> (#[trigger] pairs[i]).1.sorted(),
    ensures
        Bencode::Dict(dict_from_pairs(pairs)).sorted(),
    decreases pairs.len(),
{
    if pairs.len() > 0 {
        let front = pairs.drop_last();
        assert forall|i: int| 0 <= i < front.len() implies (#[trigger] front[i]).1.sorted() by {
            assert(front[i] == pairs[i]);
        }
        lemma_pairs_deep_sorted(front);
        lemma_dict_insert_keeps_sorted(dict_from_pairs(front), pairs.last().0, pairs.last().1);
    }
}

/// The entries that are made of pairs hold under a key the value of the
/// last pair with that key.
pub proof fn lemma_pairs_lookup(pairs: Seq<(Seq<u8>, Bencode)>, i: int)
    requires
        0 <= i < pairs.len(),
        forall|j: int| i < j < pairs.len() ==> (#[trigger] pairs[j]).0 != pairs[i].0,
    ensures
        dict_get(dict_from_pairs(pairs), pairs[i].0) == Some(pairs[i].1),
    decreases pairs.len(),
{
    let front = pairs.drop_last();
    lemma_pairs_sorted(front);
    if i == pairs.len() - 1 {
        lemma_dict_insert_sorted(dict_from_pairs(front), pairs.last().0, pairs.last().1);
    } else {
        assert(front[i] == pairs[i]);
        assert forall|j: int| i < j < front.len() implies (#[trigger] front[j]).0
            != front[i].0 by {
            assert(front[j] == pairs[j]);
        }
        lemma_pairs_lookup(front, i);
        assert(pairs[pairs.len() - 1].0 != pairs[i].0);
        lemma_dict_insert_other(
            dict_from_pairs(front),
            pairs.last().0,
            pairs.last().1,
            pairs[i].0,
        );
    }
}

} // verus!
