//! Byte-wise lexicographic order on byte strings, the order of dictionary keys.

use vstd::prelude::*;

verus! {

/// The two strings agree on their first `i` bytes.
pub open spec fn common_prefix(a: Seq<u8>, b: Seq<u8>, i: int) -> bool {
    &&& 0 <= i <= a.len()
    &&& i <= b.len()
    &&& forall|j: int| 0 <= j < i ==> a[j] == b[j]
}

/// `a` comes strictly before `b`: at the first place where they differ `a`
/// has ended or holds the smaller byte.
pub open spec fn bytes_lt(a: Seq<u8>, b: Seq<u8>) -> bool {
    exists|i: int| #[trigger]
        common_prefix(a, b, i) && i < b.len() && (i == a.len() || a[i] < b[i])
}

/// How two byte strings stand to one another.
#[derive(Clone, Copy, Debug, PartialEq, Eq, Structural)]
pub enum KeyOrder {
    Less,
    Equal,
    Greater,
}

/// The relation that `key_order` computes.
pub open spec fn key_order_of(a: Seq<u8>, b: Seq<u8>) -> KeyOrder {
    if bytes_lt(a, b) {
        KeyOrder::Less
    } else if a == b {
        KeyOrder::Equal
    } else {
        KeyOrder::Greater
    }
}

/// No string comes before itself, and of two strings at most one comes first.
pub proof fn lemma_bytes_lt_asymmetric(a: Seq<u8>, b: Seq<u8>)
    ensures
        !(bytes_lt(a, b) && bytes_lt(b, a)),
        !bytes_lt(a, a),
{
    if bytes_lt(a, b) && bytes_lt(b, a) {
        let i = choose|i: int| #[trigger]
            common_prefix(a, b, i) && i < b.len() && (i == a.len() || a[i] < b[i]);
        let j = choose|j: int| #[trigger]
            common_prefix(b, a, j) && j < a.len() && (j == b.len() || b[j] < a[j]);
        if i < j {
            assert(b[i] == a[i]);
        } else if j < i {
            assert(a[j] == b[j]);
        }
    }
    if bytes_lt(a, a) {
        let i = choose|i: int| #[trigger]
            common_prefix(a, a, i) && i < a.len() && (i == a.len() || a[i] < a[i]);
    }
}

/// Of two different strings one comes before the other.
pub proof fn lemma_bytes_lt_total(a: Seq<u8>, b: Seq<u8>)
    ensures
        bytes_lt(a, b) || a == b || bytes_lt(b, a),
{
    lemma_first_difference(a, b, 0);
}

proof fn lemma_first_difference(a: Seq<u8>, b: Seq<u8>, i: int)
    requires
        common_prefix(a, b, i),
    ensures
        bytes_lt(a, b) || a == b || bytes_lt(b, a),
    decreases a.len() - i,
{
    if i == a.len() {
        if i == b.len() {
            assert(a =~= b);
        } else {
            assert(common_prefix(a, b, i) && i < b.len() && (i == a.len() || a[i] < b[i]));
        }
    } else if i == b.len() {
        assert(common_prefix(b, a, i) && i < a.len() && (i == b.len() || b[i] < a[i]));
    } else if a[i] < b[i] {
        assert(common_prefix(a, b, i) && i < b.len() && (i == a.len() || a[i] < b[i]));
    } else if b[i] < a[i] {
        assert(common_prefix(b, a, i) && i < a.len() && (i == b.len() || b[i] < a[i]));
    } else {
        assert(common_prefix(a, b, i + 1));
        lemma_first_difference(a, b, i + 1);
    }
}

/// The order is transitive.
pub proof fn lemma_bytes_lt_transitive(a: Seq<u8>, b: Seq<u8>, c: Seq<u8>)
    requires
        bytes_lt(a, b),
        bytes_lt(b, c),
    ensures
        bytes_lt(a, c),
{
    let i = choose|i: int| #[trigger]
        common_prefix(a, b, i) && i < b.len() && (i == a.len() || a[i] < b[i]);
    let j = choose|j: int| #[trigger]
        common_prefix(b, c, j) && j < c.len() && (j == b.len() || b[j] < c[j]);
    let k = if i <= j {
        i
    } else {
        j
    };
    assert(common_prefix(a, c, k)) by {
        assert forall|x: int| 0 <= x < k implies a[x] == c[x] by {
            assert(a[x] == b[x]);
            assert(b[x] == c[x]);
        }
    }
    if i < j {
        assert(b[i] == c[i]);
    }
    assert(common_prefix(a, c, k) && k < c.len() && (k == a.len() || a[k] < c[k]));
}

/// Compares two byte strings in lexicographic order.
pub fn key_order(a: &[u8], b: &[u8]) -> (r: KeyOrder)
    ensures
        r == key_order_of(a@, b@),
{
    let mut i: usize = 0;
    while i < a.len() && i < b.len()
        invariant
            common_prefix(a@, b@, i as int),
        decreases a.len() - i,
    {
        if a[i] < b[i] {
            proof {
                assert(common_prefix(a@, b@, i as int) && i < b@.len()
                    && (i == a@.len() || a@[i as int]
                    < b@[i as int]));
            }
            return KeyOrder::Less;
        }
        if a[i] > b[i] {
            proof {
                assert(common_prefix(b@, a@, i as int) && i < a@.len()
                    && (i == b@.len() || b@[i as int]
                    < a@[i as int]));
                lemma_bytes_lt_asymmetric(a@, b@);
            }
            return KeyOrder::Greater;
        }
        i += 1;
    }
    if i < b.len() {
        proof {
            assert(common_prefix(a@, b@, i as int) && i < b@.len() && (i == a@.len() || a@[i as int]
                < b@[i as int]));
        }
        KeyOrder::Less
    } else if i < a.len() {
        proof {
            assert(common_prefix(b@, a@, i as int) && i < a@.len() && (i == b@.len() || b@[i as int]
                < a@[i as int]));
            lemma_bytes_lt_asymmetric(a@, b@);
        }
        KeyOrder::Greater
    } else {
        proof {
            assert(a@ =~= b@);
            lemma_bytes_lt_asymmetric(a@, b@);
        }
        KeyOrder::Equal
    }
}

} // verus!
