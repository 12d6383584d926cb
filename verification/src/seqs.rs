//! What holds of a filtered sequence.

use vstd::prelude::*;

verus! {

/// The index in `s` of the item that stands at `j` in `s.filter(p)`.
pub open spec fn origin<A>(s: Seq<A>, p: spec_fn(A) -> bool, j: int) -> int
    decreases s.len(),
{
    if s.len() == 0 {
        0
    } else if j < s.drop_last().filter(p).len() {
        origin(s.drop_last(), p, j)
    } else {
        s.len() - 1
    }
}

/// What passes a filter came from the sequence and satisfies the filter.
pub proof fn lemma_filter_origin<A>(s: Seq<A>, p: spec_fn(A) -> bool, j: int)
    requires
        0 <= j < s.filter(p).len(),
    ensures
        0 <= origin(s, p, j) < s.len(),
        s[origin(s, p, j)] == s.filter(p)[j],
        p(s.filter(p)[j]),
        s.filter(p).len() <= s.len(),
    decreases s.len(),
{
    reveal(Seq::filter);
    if s.len() > 0 {
        lemma_filter_len(s.drop_last(), p);
        if j < s.drop_last().filter(p).len() {
            lemma_filter_origin(s.drop_last(), p, j);
        }
    }
}

/// A filter lets no more through than there is.
pub proof fn lemma_filter_len<A>(s: Seq<A>, p: spec_fn(A) -> bool)
    ensures
        s.filter(p).len() <= s.len(),
    decreases s.len(),
{
    reveal(Seq::filter);
    if s.len() > 0 {
        lemma_filter_len(s.drop_last(), p);
    }
}

/// What passes a filter keeps its order.
pub proof fn lemma_filter_order<A>(s: Seq<A>, p: spec_fn(A) -> bool, a: int, b: int)
    requires
        0 <= a < b < s.filter(p).len(),
    ensures
        origin(s, p, a) < origin(s, p, b),
    decreases s.len(),
{
    reveal(Seq::filter);
    if s.len() > 0 {
        let front = s.drop_last();
        if b < front.filter(p).len() {
            lemma_filter_order(front, p, a, b);
        } else {
            lemma_filter_origin(front, p, a);
        }
    }
}

/// Whatever of the sequence satisfies the filter passes it.
pub proof fn lemma_filter_has<A>(s: Seq<A>, p: spec_fn(A) -> bool, i: int) -> (j: int)
    requires
        0 <= i < s.len(),
        p(s[i]),
    ensures
        0 <= j < s.filter(p).len(),
        s.filter(p)[j] == s[i],
    decreases s.len(),
{
    reveal(Seq::filter);
    let front = s.drop_last();
    if i < s.len() - 1 {
        let j = lemma_filter_has(front, p, i);
        j
    } else {
        front.filter(p).len() as int
    }
}

} // verus!
