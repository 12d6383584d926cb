//! The search that goes from node to node toward a target: which node is
//! asked next, and what follows from an answer or from the lack of one.

use crate::flags::{
    ObserverFlags, OBSERVER_ALIVE, OBSERVER_DONE, OBSERVER_FAILED, OBSERVER_INITIAL,
    OBSERVER_QUERIED, OBSERVER_SHORT_TIMEOUT,
};
use crate::node::{be_distance, distance, xor_bytes, Node, NodeId};
use vstd::prelude::*;

verus! {

/// For how many seconds a search may run.
pub const TRAVERSAL_DEADLINE: u64 = 60;

/// How far the query to a node has come.
#[derive(Debug, Clone, Copy, PartialEq, Eq, Structural)]
pub enum Status {
    /// The node has not been asked.
    Fresh,
    /// The node has been asked and has not answered yet.
    Queried,
    /// The node has answered.
    Alive,
    /// The node has failed to answer.
    Failed,
}

/// A node that a search knows of, and what the search knows of it.
#[derive(Debug, Clone, Copy, PartialEq, Eq)]
pub struct Candidate {
    pub node: Node,
    pub status: Status,
    /// Whether the node was among those the search started with.
    pub initial: bool,
    /// Whether the short timeout of the query has passed.
    pub short_timeout: bool,
}

/// What the search asks of the node that runs it after a timeout.
#[derive(Debug, Clone, Copy, PartialEq, Eq)]
pub enum TimeoutAction {
    /// The query is to be sent once more.
    Retry,
    /// Nothing is to be done but to wait.
    Wait,
    /// The node has failed; where it has failed as often as the settings
    /// allow, it is to leave the routing table.
    Failed { evict: bool },
}

/// The candidates are in the order of their distance to `target`, the
/// nearest first.
pub open spec fn candidates_sorted(l: Seq<Candidate>, target: Seq<u8>) -> bool {
    forall|i: int, j: int|
        0 <= i < j < l.len() ==> be_distance(l[i].node.id@, target) <= be_distance(
            l[j].node.id@,
            target,
        )
}

/// Whether a candidate with the id `id` is known.
pub open spec fn knows(l: Seq<Candidate>, id: NodeId) -> bool {
    exists|i: int| 0 <= i < l.len() && l[i].node.id == id
}

/// How many of the first `upto` candidates have been asked and have not
/// answered or failed yet.
pub open spec fn pending(l: Seq<Candidate>, upto: int) -> nat
    decreases upto,
{
    if upto <= 0 {
        0
    } else {
        pending(l, upto - 1) + if l[upto - 1].status == Status::Queried {
            1nat
        } else {
            0nat
        }
    }
}

/// The index of the candidate that is asked next, from `from` on, while
/// `wanted` more nodes are wanted alive: the nearest one that has not been
/// asked, unless `wanted` nearer nodes are alive already.
pub open spec fn next_fresh(l: Seq<Candidate>, from: int, wanted: nat) -> Option<int>
    decreases l.len() - from,
{
    if from < 0 || from >= l.len() || wanted == 0 {
        None
    } else if l[from].status == Status::Fresh {
        Some(from)
    } else if l[from].status == Status::Alive {
        next_fresh(l, from + 1, (wanted - 1) as nat)
    } else {
        next_fresh(l, from + 1, wanted)
    }
}

/// The place of a node with the id `id` among the candidates, looked for
/// from `from` on: before the first candidate that is farther from `target`,
/// or at the end.
pub open spec fn candidate_pos(l: Seq<Candidate>, id: NodeId, target: Seq<u8>, from: int) -> int
    decreases l.len() - from,
{
    if from < 0 || from >= l.len() {
        l.len() as int
    } else if be_distance(id@, target) < be_distance(l[from].node.id@, target) {
        from
    } else {
        candidate_pos(l, id, target, from + 1)
    }
}

/// The candidates after the node `node` has been taken in: they are the
/// same where a node with its id is known, and else the node stands at its
/// place as one that has not been asked.
pub open spec fn taken_in(l: Seq<Candidate>, node: Node, initial: bool, target: NodeId) -> Seq<
    Candidate,
> {
    if knows(l, node.id) {
        l
    } else {
        l.insert(
            candidate_pos(l, node.id, target@, 0),
            Candidate { node, status: Status::Fresh, initial, short_timeout: false },
        )
    }
}

/// The candidates after the first `upto` of `nodes` have been taken in, one
/// after another.
pub open spec fn all_taken_in(
    l: Seq<Candidate>,
    nodes: Seq<Node>,
    upto: int,
    initial: bool,
    target: NodeId,
) -> Seq<Candidate>
    decreases upto,
{
    if upto <= 0 {
        l
    } else {
        taken_in(all_taken_in(l, nodes, upto - 1, initial, target), nodes[upto - 1], initial,
            target)
    }
}

/// `i` is the place of the nearest candidate with the id `id` whose answer
/// is awaited.
pub open spec fn is_queried_slot(l: Seq<Candidate>, id: NodeId, i: int) -> bool {
    &&& 0 <= i < l.len()
    &&& l[i].node.id == id
    &&& l[i].status == Status::Queried
    &&& forall|j: int| 0 <= j < i ==> !(l[j].node.id == id && l[j].status == Status::Queried)
}

/// The place of the nearest candidate with the id `id` whose answer is
/// awaited.
pub open spec fn queried_slot(l: Seq<Candidate>, id: NodeId) -> int {
    choose|i: int| is_queried_slot(l, id, i)
}

/// Whether the answer of a candidate with the id `id` is awaited.
pub open spec fn awaits(l: Seq<Candidate>, id: NodeId) -> bool {
    exists|i: int| 0 <= i < l.len() && l[i].node.id == id && l[i].status == Status::Queried
}

/// The place of the awaited candidate is unique.
pub proof fn lemma_queried_slot(l: Seq<Candidate>, id: NodeId, i: int)
    requires
        is_queried_slot(l, id, i),
    ensures
        queried_slot(l, id) == i,
        awaits(l, id),
{
    let c = queried_slot(l, id);
    assert(is_queried_slot(l, id, c));
    if c < i {
    } else if i < c {
    }
}

/// Changing the status of one candidate changes the number of pending
/// queries by what that candidate counts for.
pub proof fn lemma_pending_update(l: Seq<Candidate>, i: int, c: Candidate, upto: int)
    requires
        0 <= i < l.len(),
        0 <= upto <= l.len(),
    ensures
        pending(l.update(i, c), upto) + (if i < upto && l[i].status == Status::Queried {
            1nat
        } else {
            0nat
        }) == pending(l, upto) + (if i < upto && c.status == Status::Queried {
            1nat
        } else {
            0nat
        }),
    decreases upto,
{
    if upto > 0 {
        lemma_pending_update(l, i, c, upto - 1);
    }
}

/// Putting in a candidate that has not been asked leaves the number of
/// pending queries as it is.
pub proof fn lemma_pending_insert(l: Seq<Candidate>, i: int, c: Candidate, upto: int)
    requires
        0 <= i <= l.len(),
        0 <= upto <= l.len() + 1,
        c.status != Status::Queried,
    ensures
        pending(l.insert(i, c), upto) == pending(
            l,
            if upto <= i {
                upto
            } else {
                upto - 1
            },
        ),
    decreases upto,
{
    if upto > 0 {
        lemma_pending_insert(l, i, c, upto - 1);
        let r = l.insert(i, c);
        if upto - 1 < i {
            assert(r[upto - 1] == l[upto - 1]);
        } else if upto - 1 > i {
            assert(r[upto - 1] == l[upto - 2]);
        }
    }
}

/// What is to be done after a timeout of the query to the node with the id
/// `id`.
pub open spec fn timeout_action(
    l: Seq<Candidate>,
    id: NodeId,
    short: bool,
    fails: usize,
    max_fail_count: usize,
) -> Option<TimeoutAction> {
    if !awaits(l, id) {
        None
    } else if short {
        if l[queried_slot(l, id)].short_timeout {
            Some(TimeoutAction::Wait)
        } else {
            Some(TimeoutAction::Retry)
        }
    } else {
        Some(TimeoutAction::Failed { evict: fails >= max_fail_count })
    }
}

/// The candidates after a timeout of the query to the node with the id
/// `id`: a short timeout is noted, a full one fails the node.
pub open spec fn after_timeout(l: Seq<Candidate>, id: NodeId, short: bool) -> Seq<Candidate> {
    if !awaits(l, id) {
        l
    } else if short {
        l.update(queried_slot(l, id), Candidate { short_timeout: true, ..l[queried_slot(l, id)] })
    } else {
        l.update(
            queried_slot(l, id),
            Candidate { status: Status::Failed, ..l[queried_slot(l, id)] },
        )
    }
}

/// A search for the nodes nearest to a target.
pub struct Traversal {
    /// The id that is searched for.
    pub target: NodeId,
    /// How many nodes are wanted.
    pub k: usize,
    /// How many queries may be outstanding.
    pub branching: usize,
    /// The candidates, the nearest to the target first.
    pub observers: Vec<Candidate>,
    /// How many queries are outstanding.
    pub in_flight: usize,
    /// Whether the search has been given up.
    pub aborted: bool,
}

impl Traversal {
    /// The candidates are in the order of their distance to the target, and
    /// the count of the outstanding queries is right.
    pub open spec fn well_formed(&self) -> bool {
        &&& candidates_sorted(self.observers@, self.target@)
        &&& self.in_flight == pending(self.observers@, self.observers@.len() as int)
    }

    /// A search for `target` that knows no node yet.
    pub fn new(target: NodeId, k: usize, branching: usize) -> (r: Traversal)
        ensures
            r.well_formed(),
            r.target == target,
            r.k == k,
            r.branching == branching,
            r.observers@.len() == 0,
            r.in_flight == 0,
            !r.aborted,
    {
        Traversal { target, k, branching, observers: Vec::new(), in_flight: 0, aborted: false }
    }

    /// The id that is searched for.
    pub fn id(&self) -> (r: NodeId)
        ensures
            r == self.target,
    {
        self.target
    }

    /// Takes in the node `node`, which an answer or the routing table has
    /// named, unless a node with its id is known already. It is put at its
    /// place in the order of distance.
    pub fn traverse(&mut self, node: Node, initial: bool)
        requires
            old(self).well_formed(),
        ensures
            final(self).well_formed(),
            final(self).target == old(self).target,
            final(self).k == old(self).k,
            final(self).branching == old(self).branching,
            final(self).in_flight == old(self).in_flight,
            final(self).aborted == old(self).aborted,
            final(self).observers@ == taken_in(
                old(self).observers@,
                node,
                initial,
                old(self).target,
            ),
    {
        let mut j: usize = 0;
        while j < self.observers.len()
            invariant
                0 <= j <= self.observers@.len(),
                *self == *old(self),
                self.well_formed(),
                forall|x: int| 0 <= x < j ==> self.observers@[x].node.id != node.id,
            decreases self.observers@.len() - j,
        {
            if self.observers[j].node.id.same(&node.id) {
                proof {
                    assert(knows(self.observers@, node.id));
                }
                return ;
            }
            j += 1;
        }
        let dn = distance(&node.id, &self.target);
        let mut i: usize = 0;
        while i < self.observers.len()
            invariant
                0 <= i <= self.observers@.len(),
                *self == *old(self),
                self.well_formed(),
                dn@ == xor_bytes(node.id@, self.target@),
                candidate_pos(self.observers@, node.id, self.target@, 0) == candidate_pos(
                    self.observers@,
                    node.id,
                    self.target@,
                    i as int,
                ),
                forall|x: int|
                    0 <= x < i ==> be_distance(self.observers@[x].node.id@, self.target@)
                        <= be_distance(node.id@, self.target@),
            ensures
                0 <= i <= self.observers@.len(),
                *self == *old(self),
                self.well_formed(),
                candidate_pos(self.observers@, node.id, self.target@, 0) == i,
                forall|x: int|
                    0 <= x < i ==> be_distance(self.observers@[x].node.id@, self.target@)
                        <= be_distance(node.id@, self.target@),
                i < self.observers@.len() ==> be_distance(node.id@, self.target@) < be_distance(
                    self.observers@[i as int].node.id@,
                    self.target@,
                ),
            decreases self.observers@.len() - i,
        {
            let di = distance(&self.observers[i].node.id, &self.target);
            if dn.lt(&di) {
                break ;
            }
            i += 1;
        }
        let c = Candidate { node, status: Status::Fresh, initial, short_timeout: false };
        let ghost before = self.observers@;
        self.observers.insert(i, c);
        proof {
            let after = self.observers@;
            lemma_pending_insert(before, i as int, c, after.len() as int);
            assert forall|a: int, b: int| 0 <= a < b < after.len() implies be_distance(
                after[a].node.id@,
                self.target@,
            ) <= be_distance(after[b].node.id@, self.target@) by {
                if b < i {
                    assert(after[a] == before[a] && after[b] == before[b]);
                } else if b == i {
                    assert(after[a] == before[a]);
                } else if a < i {
                    assert(after[a] == before[a] && after[b] == before[b - 1]);
                } else if a == i {
                    assert(after[b] == before[b - 1]);
                    assert(b - 1 == i || be_distance(before[i as int].node.id@, self.target@)
                        <= be_distance(before[b - 1].node.id@, self.target@));
                } else {
                    assert(after[a] == before[a - 1] && after[b] == before[b - 1]);
                }
            }
            assert(!knows(before, node.id));
        }
    }

    /// Starts the search with the nodes `seeds`, which the routing table
    /// names as the neighbours of the target.
    pub fn start(&mut self, seeds: &Vec<Node>)
        requires
            old(self).well_formed(),
        ensures
            final(self).well_formed(),
            final(self).target == old(self).target,
            final(self).k == old(self).k,
            final(self).branching == old(self).branching,
            final(self).in_flight == old(self).in_flight,
            final(self).aborted == old(self).aborted,
            final(self).observers@ == all_taken_in(
                old(self).observers@,
                seeds@,
                seeds@.len() as int,
                true,
                old(self).target,
            ),
    {
        let mut i: usize = 0;
        while i < seeds.len()
            invariant
                0 <= i <= seeds@.len(),
                self.well_formed(),
                self.observers@ == all_taken_in(
                    old(self).observers@,
                    seeds@,
                    i as int,
                    true,
                    old(self).target,
                ),
                self.target == old(self).target,
                self.k == old(self).k,
                self.branching == old(self).branching,
                self.in_flight == old(self).in_flight,
                self.aborted == old(self).aborted,
            decreases seeds@.len() - i,
        {
            self.traverse(seeds[i], true);
            i += 1;
        }
    }

    /// The place of the candidate that is to be asked next, if one is: the
    /// nearest candidate that has not been asked, as long as fewer than
    /// `branching` queries are outstanding, fewer than `k` nearer
    /// candidates are alive, and the search has not been given up. The
    /// candidate counts as asked from now on.
    pub fn next_request(&mut self) -> (r: Option<usize>)
        requires
            old(self).well_formed(),
        ensures
            final(self).well_formed(),
            final(self).target == old(self).target,
            final(self).k == old(self).k,
            final(self).branching == old(self).branching,
            final(self).aborted == old(self).aborted,
            r == if old(self).aborted || old(self).in_flight >= old(self).branching {
                None
            } else {
                match next_fresh(old(self).observers@, 0, old(self).k as nat) {
                    Some(i) => Some(i as usize),
                    None => None,
                }
            },
            match r {
                Some(i) => i < old(self).observers@.len()
                    && final(self).observers@ == old(self).observers@.update(
                    i as int,
                    Candidate { status: Status::Queried, ..old(self).observers@[i as int] },
                ) && final(self).in_flight == old(self).in_flight + 1,
                None => final(self).observers@ == old(self).observers@ && final(self).in_flight
                    == old(self).in_flight,
            },
    {
        if self.aborted || self.in_flight >= self.branching {
            return None;
        }
        let mut wanted: usize = self.k;
        let mut i: usize = 0;
        while i < self.observers.len() && wanted > 0
            invariant
                0 <= i <= self.observers@.len(),
                *self == *old(self),
                self.well_formed(),
                !self.aborted,
                self.in_flight < self.branching,
                next_fresh(self.observers@, 0, self.k as nat) == next_fresh(
                    self.observers@,
                    i as int,
                    wanted as nat,
                ),
            decreases self.observers@.len() - i,
        {
            match self.observers[i].status {
                Status::Fresh => {
                    let ghost before = self.observers@;
                    let c = Candidate { status: Status::Queried, ..self.observers[i] };
                    self.observers[i] = c;
                    self.in_flight = self.in_flight + 1;
                    proof {
                        lemma_pending_update(before, i as int, c, before.len() as int);
                        let after = self.observers@;
                        assert forall|a: int, b: int|
                            0 <= a < b < after.len() implies be_distance(
                            after[a].node.id@,
                            self.target@,
                        ) <= be_distance(after[b].node.id@, self.target@) by {
                            assert(after[a].node == before[a].node);
                            assert(after[b].node == before[b].node);
                        }
                    }
                    return Some(i);
                },
                Status::Alive => {
                    wanted -= 1;
                },
                _ => {},
            }
            i += 1;
        }
        None
    }

    /// Notes that the node with the id `id` has answered a query and takes
    /// in the nodes that its answer names; says whether an answer of that
    /// node was awaited. An answer that was not awaited changes nothing.
    pub fn reply(&mut self, id: &NodeId, contacts: &Vec<Node>) -> (r: bool)
        requires
            old(self).well_formed(),
        ensures
            final(self).well_formed(),
            final(self).target == old(self).target,
            final(self).k == old(self).k,
            final(self).branching == old(self).branching,
            final(self).aborted == old(self).aborted,
            r == awaits(old(self).observers@, *id),
            r ==> final(self).in_flight + 1 == old(self).in_flight,
            !r ==> *final(self) == *old(self),
            r ==> final(self).observers@ == all_taken_in(
                old(self).observers@.update(
                    queried_slot(old(self).observers@, *id),
                    Candidate {
                        status: Status::Alive,
                        ..old(self).observers@[queried_slot(old(self).observers@, *id)]
                    },
                ),
                contacts@,
                contacts@.len() as int,
                false,
                old(self).target,
            ),
    {
        let slot = match self.find_queried(id) {
            Some(i) => i,
            None => {
                return false;
            },
        };
        let ghost before = self.observers@;
        let c = Candidate { status: Status::Alive, ..self.observers[slot] };
        self.observers[slot] = c;
        proof {
            lemma_pending_update(before, slot as int, c, before.len() as int);
            let after = self.observers@;
            assert forall|a: int, b: int| 0 <= a < b < after.len() implies be_distance(
                after[a].node.id@,
                self.target@,
            ) <= be_distance(after[b].node.id@, self.target@) by {
                assert(after[a].node == before[a].node);
                assert(after[b].node == before[b].node);
            }
        }
        self.in_flight = self.in_flight - 1;
        let ghost marked = self.observers@;
        let mut i: usize = 0;
        while i < contacts.len()
            invariant
                0 <= i <= contacts@.len(),
                self.well_formed(),
                self.target == old(self).target,
                self.k == old(self).k,
                self.branching == old(self).branching,
                self.aborted == old(self).aborted,
                self.in_flight + 1 == old(self).in_flight,
                self.observers@ == all_taken_in(
                    marked,
                    contacts@,
                    i as int,
                    false,
                    old(self).target,
                ),
            decreases contacts@.len() - i,
        {
            self.traverse(contacts[i], false);
            i += 1;
        }
        true
    }

    /// The place of the candidate with the id `id` whose answer is awaited.
    pub fn find_queried(&self, id: &NodeId) -> (r: Option<usize>)
        ensures
            r.is_some() == awaits(self.observers@, *id),
            r matches Some(i) ==> is_queried_slot(self.observers@, *id, i as int) && i
                == queried_slot(self.observers@, *id),
    {
        let mut i: usize = 0;
        while i < self.observers.len()
            invariant
                0 <= i <= self.observers@.len(),
                forall|x: int|
                    0 <= x < i ==> !(self.observers@[x].node.id == *id
                        && self.observers@[x].status == Status::Queried),
            decreases self.observers@.len() - i,
        {
            if self.observers[i].node.id.same(id) {
                match self.observers[i].status {
                    Status::Queried => {
                        proof {
                            lemma_queried_slot(self.observers@, *id, i as int);
                        }
                        return Some(i);
                    },
                    _ => {},
                }
            }
            i += 1;
        }
        None
    }

    /// Notes that the query to the node with the id `id` has not been
    /// answered in time, and says what is to be done. After the short
    /// timeout the query is sent once more; after another short timeout
    /// there is nothing to do but to wait. After the full timeout the node
    /// has failed, and it is to leave the routing table where `fails`, the
    /// number of its failures in a row with this one, has reached
    /// `max_fail_count`.
    pub fn timeout(&mut self, id: &NodeId, short: bool, fails: usize, max_fail_count: usize) -> (r:
        Option<TimeoutAction>)
        requires
            old(self).well_formed(),
        ensures
            final(self).well_formed(),
            final(self).target == old(self).target,
            final(self).k == old(self).k,
            final(self).branching == old(self).branching,
            final(self).aborted == old(self).aborted,
            final(self).observers@.len() == old(self).observers@.len(),
            r == timeout_action(old(self).observers@, *id, short, fails, max_fail_count),
            final(self).observers@ == after_timeout(old(self).observers@, *id, short),
            final(self).in_flight == if awaits(old(self).observers@, *id) && !short {
                old(self).in_flight - 1
            } else {
                old(self).in_flight as int
            },
    {
        let slot = match self.find_queried(id) {
            Some(i) => i,
            None => {
                return None;
            },
        };
        let ghost before = self.observers@;
        if short {
            if self.observers[slot].short_timeout {
                proof {
                    assert(self.observers@ =~= after_timeout(old(self).observers@, *id, short));
                }
                return Some(TimeoutAction::Wait);
            }
            let c = Candidate { short_timeout: true, ..self.observers[slot] };
            self.observers[slot] = c;
            proof {
                lemma_pending_update(before, slot as int, c, before.len() as int);
                let after = self.observers@;
                assert forall|a: int, b: int| 0 <= a < b < after.len() implies be_distance(
                    after[a].node.id@,
                    self.target@,
                ) <= be_distance(after[b].node.id@, self.target@) by {
                    assert(after[a].node == before[a].node);
                    assert(after[b].node == before[b].node);
                }
            }
            Some(TimeoutAction::Retry)
        } else {
            let c = Candidate { status: Status::Failed, ..self.observers[slot] };
            self.observers[slot] = c;
            proof {
                lemma_pending_update(before, slot as int, c, before.len() as int);
                let after = self.observers@;
                assert forall|a: int, b: int| 0 <= a < b < after.len() implies be_distance(
                    after[a].node.id@,
                    self.target@,
                ) <= be_distance(after[b].node.id@, self.target@) by {
                    assert(after[a].node == before[a].node);
                    assert(after[b].node == before[b].node);
                }
            }
            self.in_flight = self.in_flight - 1;
            Some(TimeoutAction::Failed { evict: fails >= max_fail_count })
        }
    }

    /// Gives the search up where it has run for longer than
    /// `TRAVERSAL_DEADLINE` seconds at the time `now`, and says whether it
    /// has.
    pub fn expire(&mut self, started: u64, now: u64) -> (r: bool)
        ensures
            r == (started + TRAVERSAL_DEADLINE < now),
            final(self).aborted == (old(self).aborted || r),
            final(self).target == old(self).target,
            final(self).k == old(self).k,
            final(self).branching == old(self).branching,
            final(self).observers == old(self).observers,
            final(self).in_flight == old(self).in_flight,
    {
        let late = now > started && now - started > TRAVERSAL_DEADLINE;
        if late {
            self.aborted = true;
        }
        late
    }

    /// Gives the search up: no node is asked any more.
    pub fn abort(&mut self)
        ensures
            final(self).aborted,
            final(self).target == old(self).target,
            final(self).k == old(self).k,
            final(self).branching == old(self).branching,
            final(self).observers == old(self).observers,
            final(self).in_flight == old(self).in_flight,
    {
        self.aborted = true;
    }

    /// Whether the search has come to its end: it has been given up, or no
    /// answer is awaited and no node is left to be asked.
    pub fn done(&self) -> (r: bool)
        requires
            self.well_formed(),
        ensures
            r == (self.aborted || (self.in_flight == 0 && next_fresh(
                self.observers@,
                0,
                self.k as nat,
            ).is_none())),
    {
        if self.aborted {
            return true;
        }
        if self.in_flight > 0 {
            return false;
        }
        let mut wanted: usize = self.k;
        let mut i: usize = 0;
        while i < self.observers.len() && wanted > 0
            invariant
                0 <= i <= self.observers@.len(),
                !self.aborted,
                self.in_flight == 0,
                next_fresh(self.observers@, 0, self.k as nat) == next_fresh(
                    self.observers@,
                    i as int,
                    wanted as nat,
                ),
            decreases self.observers@.len() - i,
        {
            match self.observers[i].status {
                Status::Fresh => {
                    return false;
                },
                Status::Alive => {
                    wanted -= 1;
                },
                _ => {},
            }
            i += 1;
        }
        true
    }

    /// The state of the query to the candidate at `slot` as a set of flags.
    pub fn flags(&self, slot: usize) -> (r: ObserverFlags)
        requires
            slot < self.observers@.len(),
        ensures
            r.bits == flag_bits(self.observers@[slot as int]),
    {
        let c = self.observers[slot];
        let status: u8 = match c.status {
            Status::Fresh => 0,
            Status::Queried => OBSERVER_QUERIED,
            Status::Alive => OBSERVER_QUERIED + OBSERVER_ALIVE + OBSERVER_DONE,
            Status::Failed => OBSERVER_QUERIED + OBSERVER_FAILED + OBSERVER_DONE,
        };
        let initial: u8 = if c.initial {
            OBSERVER_INITIAL
        } else {
            0
        };
        let short: u8 = if c.short_timeout {
            OBSERVER_SHORT_TIMEOUT
        } else {
            0
        };
        ObserverFlags::from_bits(status + initial + short)
    }

    /// The nodes that have answered, the nearest first, up to `k` of them.
    pub open spec fn closest_spec(&self) -> Seq<Node> {
        if alive_nodes(self.observers@, self.observers@.len() as int).len() > self.k {
            alive_nodes(self.observers@, self.observers@.len() as int).take(self.k as int)
        } else {
            alive_nodes(self.observers@, self.observers@.len() as int)
        }
    }

    /// The nodes that have answered, the nearest first, up to `k` of them.
    pub fn closest(&self) -> (r: Vec<Node>)
        ensures
            r@ == self.closest_spec(),
    {
        let mut out: Vec<Node> = Vec::new();
        let mut i: usize = 0;
        while i < self.observers.len() && out.len() < self.k
            invariant
                0 <= i <= self.observers@.len(),
                out@.len() <= self.k,
                out@ == alive_nodes(self.observers@, i as int),
            decreases self.observers@.len() - i,
        {
            match self.observers[i].status {
                Status::Alive => {
                    out.push(self.observers[i].node);
                },
                _ => {},
            }
            i += 1;
        }
        proof {
            lemma_alive_prefix(self.observers@, i as int, self.observers@.len() as int);
            let all = alive_nodes(self.observers@, self.observers@.len() as int);
            if i < self.observers@.len() {
                assert(out@.len() == self.k);
            } else {
                assert(all.take(all.len() as int) =~= all);
            }
        }
        out
    }
}

/// The nodes among the first `upto` candidates that have answered, in the
/// order of the candidates.
pub open spec fn alive_nodes(l: Seq<Candidate>, upto: int) -> Seq<Node>
    decreases upto,
{
    if upto <= 0 {
        Seq::empty()
    } else if l[upto - 1].status == Status::Alive {
        alive_nodes(l, upto - 1).push(l[upto - 1].node)
    } else {
        alive_nodes(l, upto - 1)
    }
}

/// The nodes that have answered among fewer candidates come first among the
/// nodes that have answered among more.
pub proof fn lemma_alive_prefix(l: Seq<Candidate>, i: int, n: int)
    requires
        0 <= i <= n <= l.len(),
    ensures
        alive_nodes(l, i).len() <= alive_nodes(l, n).len(),
        alive_nodes(l, i) == alive_nodes(l, n).take(alive_nodes(l, i).len() as int),
    decreases n - i,
{
    if i < n {
        lemma_alive_prefix(l, i, n - 1);
        let a = alive_nodes(l, i);
        let b = alive_nodes(l, n - 1);
        let c = alive_nodes(l, n);
        assert(a =~= c.take(a.len() as int)) by {
            assert(a == b.take(a.len() as int));
            assert forall|x: int| 0 <= x < a.len() implies a[x] == c[x] by {
                assert(b.take(a.len() as int)[x] == b[x]);
            }
        }
    } else {
        let a = alive_nodes(l, i);
        assert(a.take(a.len() as int) =~= a);
    }
}

/// The flags that stand for what a search knows of a candidate.
pub open spec fn flag_bits(c: Candidate) -> u8 {
    ((match c.status {
        Status::Fresh => 0int,
        Status::Queried => 1int,
        Status::Alive => 193int,
        Status::Failed => 145int,
    }) + (if c.initial {
        2int
    } else {
        0int
    }) + (if c.short_timeout {
        8int
    } else {
        0int
    })) as u8
}

/// The candidates after the query to the node with the id `id` is done
/// with: where its answer was awaited, the nearest such candidate has
/// failed or is alive, as `failed` says.
pub open spec fn finished_with(l: Seq<Candidate>, id: NodeId, failed: bool) -> Seq<Candidate> {
    if !awaits(l, id) {
        l
    } else if failed {
        l.update(
            queried_slot(l, id),
            Candidate { status: Status::Failed, ..l[queried_slot(l, id)] },
        )
    } else {
        l.update(queried_slot(l, id), Candidate { status: Status::Alive, ..l[queried_slot(l, id)] })
    }
}

impl crate::observer::TraversalAlgorithm for Traversal {
    open spec fn valid(&self) -> bool {
        self.well_formed()
    }

    fn traverse(&mut self, id: &NodeId, addr: &crate::detail::SocketAddress)
        ensures
            final(self).observers@ == taken_in(
                old(self).observers@,
                Node { id: *id, endpoint: Some(*addr) },
                false,
                old(self).target,
            ),
            final(self).target == old(self).target,
            final(self).k == old(self).k,
            final(self).branching == old(self).branching,
            final(self).in_flight == old(self).in_flight,
            final(self).aborted == old(self).aborted,
    {
        Traversal::traverse(self, Node::new(*id, *addr), false)
    }

    fn done(&self) -> (r: bool)
        ensures
            r == (self.aborted || (self.in_flight == 0 && next_fresh(
                self.observers@,
                0,
                self.k as nat,
            ).is_none())),
    {
        Traversal::done(self)
    }

    fn finished(&mut self, observer: &NodeId, failed: bool)
        ensures
            final(self).observers@ == finished_with(old(self).observers@, *observer, failed),
            final(self).in_flight == if awaits(old(self).observers@, *observer) {
                old(self).in_flight - 1
            } else {
                old(self).in_flight as int
            },
            final(self).target == old(self).target,
            final(self).k == old(self).k,
            final(self).branching == old(self).branching,
            final(self).aborted == old(self).aborted,
    {
        if failed {
            self.timeout(observer, false, 0, 1);
        } else {
            let none: Vec<Node> = Vec::new();
            self.reply(observer, &none);
        }
    }

    fn id(&self) -> (r: NodeId)
        ensures
            r == self.target,
    {
        self.target
    }
}

} // verus!
