//! What a query that has been sent answers to.

use crate::detail::{IpAddress, SocketAddress};
use crate::flags::{
    has_all, ObserverFlags, OBSERVER_ALIVE, OBSERVER_DONE, OBSERVER_FAILED,
    OBSERVER_IPV6_ADDRESS, OBSERVER_NO_ID, OBSERVER_QUERIED, OBSERVER_SHORT_TIMEOUT,
};
use crate::msg::Msg;
use crate::node::NodeId;
use vstd::prelude::*;

verus! {

/// The state of one query that has been sent, and what is told to it when
/// the answer comes or fails to come.
pub trait Observer {
    /// The state of the query.
    spec fn state(&self) -> ObserverFlags;

    /// The answer has come: the node is alive and the query is done with.
    fn reply(&mut self, msg: &Msg)
        ensures
            has_all(final(self).state().bits, OBSERVER_ALIVE),
            has_all(final(self).state().bits, OBSERVER_DONE),
    ;

    /// The short timeout has passed; the query may be sent once more.
    fn short_timeout(&mut self)
        ensures
            has_all(final(self).state().bits, OBSERVER_SHORT_TIMEOUT),
    ;

    /// The state of the query.
    fn flags(&self) -> (r: ObserverFlags)
        ensures
            r == self.state(),
    ;

    /// Whether the short timeout has passed.
    fn has_short_timeout(&self) -> (r: bool)
        ensures
            r == has_all(self.state().bits, OBSERVER_SHORT_TIMEOUT),
    ;

    /// The query has failed to be answered in time and is done with.
    fn timeout(&mut self)
        ensures
            has_all(final(self).state().bits, OBSERVER_FAILED),
            has_all(final(self).state().bits, OBSERVER_DONE),
    ;

    /// The query is given up.
    fn abort(&mut self)
        ensures
            has_all(final(self).state().bits, OBSERVER_DONE),
    ;

    /// When the query was sent, in seconds.
    fn sent_at(&self) -> u64;

    /// Names the endpoint that the query goes to.
    fn set_target(&mut self, addr: &SocketAddress);

    /// The address that the query goes to.
    fn target_addr(&self) -> IpAddress;

    /// The endpoint that the query goes to.
    fn target_endpoint(&self) -> SocketAddress;

    /// Names the id of the node that the query goes to.
    fn set_id(&mut self, id: &NodeId);

    /// The id of the node that the query goes to.
    fn id(&self) -> NodeId;

    /// The place of the traversal that the query belongs to among the
    /// traversals of the node.
    fn traversal(&self) -> usize;
}

/// A search that goes from node to node.
pub trait TraversalAlgorithm {
    /// What the search relies on between two calls.
    spec fn valid(&self) -> bool;

    /// Takes in a node that an answer has named.
    fn traverse(&mut self, id: &NodeId, addr: &SocketAddress)
        requires
            old(self).valid(),
        ensures
            final(self).valid(),
    ;

    /// Whether the search has come to its end.
    fn done(&self) -> (r: bool)
        requires
            self.valid(),
    ;

    /// The query to the node with the id `observer` is done with: the node
    /// has answered, or it has failed where `failed` says so.
    fn finished(&mut self, observer: &NodeId, failed: bool)
        requires
            old(self).valid(),
        ensures
            final(self).valid(),
    ;

    /// The id that is searched for.
    fn id(&self) -> NodeId;
}

/// The state of a query as the node that sent it keeps it.
#[derive(Debug, Clone, Copy, PartialEq, Eq)]
pub struct DhtObserver {
    /// The state of the query.
    pub flags: ObserverFlags,
    /// When the query was sent, in seconds.
    pub sent: u64,
    /// The endpoint that the query goes to.
    pub target: SocketAddress,
    /// The id of the node that the query goes to.
    pub id: NodeId,
    /// The place of the traversal that the query belongs to.
    pub traversal: usize,
}

impl DhtObserver {
    /// The state of a query that is sent at the time `now` to the endpoint
    /// `target`, for the traversal at the place `traversal`. The id of the
    /// node is not known yet.
    pub fn new(target: SocketAddress, traversal: usize, now: u64) -> (r: DhtObserver)
        ensures
            r.sent == now,
            r.target == target,
            r.traversal == traversal,
            r.id@ == Seq::new(20, |i: int| 0u8),
            r.flags.bits == if target.ip is V6 {
                (OBSERVER_QUERIED + OBSERVER_NO_ID + OBSERVER_IPV6_ADDRESS) as u8
            } else {
                (OBSERVER_QUERIED + OBSERVER_NO_ID) as u8
            },
    {
        let bits: u8 = if target.is_ipv6() {
            OBSERVER_QUERIED + OBSERVER_NO_ID + OBSERVER_IPV6_ADDRESS
        } else {
            OBSERVER_QUERIED + OBSERVER_NO_ID
        };
        DhtObserver {
            flags: ObserverFlags::from_bits(bits),
            sent: now,
            target,
            id: crate::sha1::Sha1Hash::min(),
            traversal,
        }
    }
}

impl Observer for DhtObserver {
    open spec fn state(&self) -> ObserverFlags {
        self.flags
    }

    fn reply(&mut self, msg: &Msg)
        ensures
            final(self).flags.bits == old(self).flags.bits | OBSERVER_ALIVE | OBSERVER_DONE,
            final(self).sent == old(self).sent,
            final(self).target == old(self).target,
            final(self).id == old(self).id,
            final(self).traversal == old(self).traversal,
    {
        self.flags.insert(OBSERVER_ALIVE);
        let ghost mid = self.flags.bits;
        self.flags.insert(OBSERVER_DONE);
        proof {
            assert((mid | 128u8) & 64u8 == 64u8) by (bit_vector)
                requires
                    mid & 64u8 == 64u8,
            ;
        }
    }

    fn short_timeout(&mut self)
        ensures
            final(self).flags.bits == old(self).flags.bits | OBSERVER_SHORT_TIMEOUT,
            final(self).sent == old(self).sent,
            final(self).target == old(self).target,
            final(self).id == old(self).id,
            final(self).traversal == old(self).traversal,
    {
        self.flags.insert(OBSERVER_SHORT_TIMEOUT);
    }

    fn flags(&self) -> (r: ObserverFlags) {
        self.flags
    }

    fn has_short_timeout(&self) -> (r: bool) {
        self.flags.contains(OBSERVER_SHORT_TIMEOUT)
    }

    fn timeout(&mut self)
        ensures
            final(self).flags.bits == old(self).flags.bits | OBSERVER_FAILED | OBSERVER_DONE,
            final(self).sent == old(self).sent,
            final(self).target == old(self).target,
            final(self).id == old(self).id,
            final(self).traversal == old(self).traversal,
    {
        self.flags.insert(OBSERVER_FAILED);
        let ghost mid = self.flags.bits;
        self.flags.insert(OBSERVER_DONE);
        proof {
            assert((mid | 128u8) & 16u8 == 16u8) by (bit_vector)
                requires
                    mid & 16u8 == 16u8,
            ;
        }
    }

    fn abort(&mut self)
        ensures
            final(self).flags.bits == old(self).flags.bits | OBSERVER_DONE,
            final(self).sent == old(self).sent,
            final(self).target == old(self).target,
            final(self).id == old(self).id,
            final(self).traversal == old(self).traversal,
    {
        self.flags.insert(OBSERVER_DONE);
    }

    fn sent_at(&self) -> (r: u64)
        ensures
            r == self.sent,
    {
        self.sent
    }

    fn set_target(&mut self, addr: &SocketAddress)
        ensures
            final(self).target == *addr,
            final(self).flags == old(self).flags,
            final(self).sent == old(self).sent,
            final(self).id == old(self).id,
            final(self).traversal == old(self).traversal,
    {
        self.target = *addr;
    }

    fn target_addr(&self) -> (r: IpAddress)
        ensures
            r == self.target.ip,
    {
        self.target.ip
    }

    fn target_endpoint(&self) -> (r: SocketAddress)
        ensures
            r == self.target,
    {
        self.target
    }

    fn set_id(&mut self, id: &NodeId)
        ensures
            final(self).id == *id,
            final(self).flags.bits == old(self).flags.bits & !OBSERVER_NO_ID,
            final(self).sent == old(self).sent,
            final(self).target == old(self).target,
            final(self).traversal == old(self).traversal,
    {
        self.id = *id;
        self.flags.remove(OBSERVER_NO_ID);
    }

    fn id(&self) -> (r: NodeId)
        ensures
            r == self.id,
    {
        self.id
    }

    fn traversal(&self) -> (r: usize)
        ensures
            r == self.traversal,
    {
        self.traversal
    }
}

} // verus!
