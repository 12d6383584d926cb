//! The peers of one torrent, kept sorted by endpoint.

use crate::detail::{lemma_endpoint_rank, SocketAddress};
use vstd::prelude::*;

verus! {

/// A peer that announced a torrent.
#[derive(Debug, Clone, Copy, PartialEq, Eq)]
pub struct PeerEntry {
    /// When the peer announced last, in seconds.
    pub added: u64,
    /// Where the peer is reached.
    pub addr: SocketAddress,
    /// Whether the peer holds the whole torrent.
    pub seed: bool,
}

/// The endpoints ascend strictly, so no endpoint occurs twice.
pub open spec fn peers_sorted(l: Seq<PeerEntry>) -> bool {
    forall|i: int, j: int| 0 <= i < j < l.len() ==> l[i].addr.rank() < l[j].addr.rank()
}

/// The place of an endpoint of rank `r` in a sorted list: every entry
/// before it is smaller and no entry from it on is.
pub open spec fn is_peer_pos(l: Seq<PeerEntry>, r: nat, p: int) -> bool {
    &&& 0 <= p <= l.len()
    &&& forall|i: int| 0 <= i < p ==> l[i].addr.rank() < r
    &&& forall|i: int| p <= i < l.len() ==> l[i].addr.rank() >= r
}

/// The place of an endpoint of rank `r` (see `is_peer_pos`).
pub open spec fn peer_pos(l: Seq<PeerEntry>, r: nat) -> int {
    choose|p: int| is_peer_pos(l, r, p)
}

/// Whether `l` holds an entry for the endpoint `addr`.
pub open spec fn has_peer(l: Seq<PeerEntry>, addr: SocketAddress) -> bool {
    exists|i: int| 0 <= i < l.len() && l[i].addr == addr
}

/// The list after `e` has announced: its entry is replaced where it has
/// one; else it is put at its place, unless the list holds `max` entries
/// already, in which case nothing changes.
pub open spec fn peers_with(l: Seq<PeerEntry>, e: PeerEntry, max: usize) -> Seq<PeerEntry> {
    let p = peer_pos(l, e.addr.rank());
    if p < l.len() && l[p].addr == e.addr {
        l.update(p, e)
    } else if l.len() >= max {
        l
    } else {
        l.insert(p, e)
    }
}

/// The place of a rank is unique.
pub proof fn lemma_peer_pos_unique(l: Seq<PeerEntry>, r: nat, p: int)
    requires
        is_peer_pos(l, r, p),
    ensures
        peer_pos(l, r) == p,
{
    let q = peer_pos(l, r);
    assert(is_peer_pos(l, r, q));
    if q < p {
        assert(l[q].addr.rank() < r);
    } else if p < q {
        assert(l[p].addr.rank() < r);
    }
}

/// An announce keeps the list sorted, free of duplicates and of one
/// address family, and never makes it longer than `max` allows.
pub proof fn lemma_peers_with(l: Seq<PeerEntry>, e: PeerEntry, max: usize, p: int)
    requires
        peers_sorted(l),
        is_peer_pos(l, e.addr.rank(), p),
    ensures
        peers_sorted(peers_with(l, e, max)),
        has_peer(l, e.addr) == (p < l.len() && l[p].addr == e.addr),
        l.len() <= max ==> peers_with(l, e, max).len() <= max,
        forall|i: int|
            0 <= i < peers_with(l, e, max).len() ==> #[trigger] peers_with(l, e, max)[i] == e
                || exists|j: int| 0 <= j < l.len() && l[j] == peers_with(l, e, max)[i],
{
    lemma_peer_pos_unique(l, e.addr.rank(), p);
    let r = peers_with(l, e, max);
    if p < l.len() && l[p].addr == e.addr {
        assert forall|i: int, j: int| 0 <= i < j < r.len() implies r[i].addr.rank()
            < r[j].addr.rank() by {
            assert(r[i].addr == l[i].addr && r[j].addr == l[j].addr);
        }
        assert forall|i: int| 0 <= i < r.len() implies #[trigger] r[i] == e || exists|j: int|
            0 <= j < l.len() && l[j] == r[i] by {
            if i != p {
                assert(l[i] == r[i]);
            }
        }
    } else {
        if has_peer(l, e.addr) {
            let i = choose|i: int| 0 <= i < l.len() && l[i].addr == e.addr;
            lemma_endpoint_rank(l[i].addr, e.addr);
            if i < p {
            } else {
                if p < i {
                    assert(l[p].addr.rank() < l[i].addr.rank());
                }
                lemma_endpoint_rank(l[p].addr, e.addr);
            }
        }
        if l.len() < max {
            assert forall|i: int, j: int| 0 <= i < j < r.len() implies r[i].addr.rank()
                < r[j].addr.rank() by {
                if j < p {
                    assert(r[i] == l[i] && r[j] == l[j]);
                } else if j == p {
                    assert(r[i] == l[i]);
                } else if i < p {
                    assert(r[i] == l[i] && r[j] == l[j - 1]);
                } else if i == p {
                    assert(r[j] == l[j - 1]);
                    assert(l[j - 1].addr.rank() >= e.addr.rank());
                    if l[j - 1].addr.rank() == e.addr.rank() {
                        lemma_endpoint_rank(l[j - 1].addr, e.addr);
                        if j - 1 > p {
                            assert(l[p].addr.rank() < l[j - 1].addr.rank());
                        }
                    }
                } else {
                    assert(r[i] == l[i - 1] && r[j] == l[j - 1]);
                }
            }
            assert forall|i: int| 0 <= i < r.len() implies #[trigger] r[i] == e || exists|j: int|
                0 <= j < l.len() && l[j] == r[i] by {
                if i < p {
                    assert(l[i] == r[i]);
                } else if i > p {
                    assert(l[i - 1] == r[i]);
                }
            }
        } else {
            assert forall|i: int| 0 <= i < r.len() implies #[trigger] r[i] == e || exists|j: int|
                0 <= j < l.len() && l[j] == r[i] by {
                assert(l[i] == r[i]);
            }
        }
    }
}

/// The place of `addr` in the sorted list `list`, by binary search.
pub fn locate(list: &Vec<PeerEntry>, addr: &SocketAddress) -> (r: usize)
    requires
        peers_sorted(list@),
    ensures
        is_peer_pos(list@, addr.rank(), r as int),
{
    let mut lo: usize = 0;
    let mut hi: usize = list.len();
    while lo < hi
        invariant
            0 <= lo <= hi <= list@.len(),
            peers_sorted(list@),
            forall|i: int| 0 <= i < lo ==> list@[i].addr.rank() < addr.rank(),
            forall|i: int| hi <= i < list@.len() ==> list@[i].addr.rank() >= addr.rank(),
        decreases hi - lo,
    {
        let mid: usize = lo + (hi - lo) / 2;
        if list[mid].addr.lt(addr) {
            proof {
                assert forall|i: int| 0 <= i < mid + 1 implies list@[i].addr.rank()
                    < addr.rank() by {
                    if i < mid {
                        assert(list@[i].addr.rank() < list@[mid as int].addr.rank());
                    }
                }
            }
            lo = mid + 1;
        } else {
            proof {
                assert forall|i: int| mid <= i < list@.len() implies list@[i].addr.rank()
                    >= addr.rank() by {
                    if i > mid {
                        assert(list@[mid as int].addr.rank() < list@[i].addr.rank());
                    }
                }
            }
            hi = mid;
        }
    }
    lo
}

/// Records the announce `e` in the sorted list `list` of at most `max`
/// entries, and says whether the list has grown.
pub fn record(list: &mut Vec<PeerEntry>, e: PeerEntry, max: usize) -> (r: bool)
    requires
        peers_sorted(old(list)@),
    ensures
        final(list)@ == peers_with(old(list)@, e, max),
        peers_sorted(final(list)@),
        r == (final(list)@.len() == old(list)@.len() + 1),
        !r ==> final(list)@.len() == old(list)@.len(),
        old(list)@.len() <= max ==> final(list)@.len() <= max,
        forall|i: int|
            0 <= i < final(list)@.len() ==> #[trigger] final(list)@[i] == e || exists|j: int|
                0 <= j < old(list)@.len() && old(list)@[j] == final(list)@[i],
{
    let i = locate(list, &e.addr);
    proof {
        lemma_peers_with(list@, e, max, i as int);
        lemma_peer_pos_unique(list@, e.addr.rank(), i as int);
    }
    if i < list.len() && list[i].addr.same(&e.addr) {
        list[i] = e;
        false
    } else if list.len() >= max {
        false
    } else {
        list.insert(i, e);
        true
    }
}

/// Whether `list` holds an entry for `addr`.
pub fn contains(list: &Vec<PeerEntry>, addr: &SocketAddress) -> (r: bool)
    requires
        peers_sorted(list@),
    ensures
        r == has_peer(list@, *addr),
{
    let i = locate(list, addr);
    proof {
        let probe = PeerEntry { added: 0, addr: *addr, seed: false };
        lemma_peers_with(list@, probe, 0, i as int);
    }
    i < list.len() && list[i].addr.same(addr)
}

} // verus!
