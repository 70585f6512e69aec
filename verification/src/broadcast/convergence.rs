//! Convergence: in a cluster whose topology is connected, every value that
//! a client has handed to any node reaches every node, whatever the
//! network loses, repeats or reorders, as long as gossip gets through along
//! every edge again and again.
//!
//! Time is measured in rounds. A round is a stretch of the run in which,
//! for every node and every one of its neighbours, the node's timer fires
//! and the gossip that this sends to the neighbour reaches it before the
//! stretch is over (or there is nothing to send). What else happens in the
//! stretch, and how many gossips were lost before one got through, does not
//! matter. After as many rounds as the topology's diameter, every node has
//! every value that was in the cluster when the first round began.

use super::cluster::{lemma_apply_grows, theorem_apply_keeps_inv, Action, Cluster};
use super::effects::{addressed, carried, lemma_round_sends, outbox};
use super::payload::InjectedPayload;
use super::state::{Input, NodeId};
use crate::protocol::EventView;
use vstd::prelude::*;

verus! {

/// The timer event.
pub open spec fn tick() -> Input {
    EventView::Injected(InjectedPayload::Gossip)
}

impl Cluster {
    /// The cluster just before the action at position `i` of `actions`.
    pub open spec fn at(self, actions: Seq<Action>, i: int) -> Cluster {
        self.run(actions.take(i))
    }

    /// Whether the action at position `i` is a timer of `node` firing, with
    /// a gossip round that succeeds.
    pub open spec fn ticks(self, actions: Seq<Action>, i: int, node: NodeId) -> bool {
        &&& 0 <= i < actions.len()
        &&& actions[i] == Action::Tick { node }
        &&& self.at(actions, i).nodes[node].step(tick()).result is Ok
    }

    /// Whether the action at position `j` hands `peer` a gossip that the
    /// round of `node` at position `i` sent to it, and `peer` takes it in.
    pub open spec fn lands(
        self,
        actions: Seq<Action>,
        i: int,
        j: int,
        node: NodeId,
        peer: NodeId,
    ) -> bool {
        &&& i < j < actions.len()
        &&& actions[j] matches Action::Deliver { message }
        &&& message.dst == peer
        &&& outbox(self.at(actions, i).nodes[node], tick()).contains(message)
        &&& self.at(actions, j).nodes[peer].step(EventView::Message(message)).result is Ok
    }

    /// Whether the round of `node` at position `i` gets through to `peer`
    /// by position `j`, both within the stretch from `lo` to `hi`: either
    /// the round has nothing to send to `peer`, or what it sends lands.
    pub open spec fn gets_through(
        self,
        actions: Seq<Action>,
        lo: int,
        hi: int,
        i: int,
        j: int,
        node: NodeId,
        peer: NodeId,
    ) -> bool {
        &&& lo <= i < hi
        &&& self.ticks(actions, i, node)
        &&& self.at(actions, i).nodes[node].delta(peer).is_empty() || (j < hi && self.lands(
            actions,
            i,
            j,
            node,
            peer,
        ))
    }

    /// Whether gossip from `node` gets through to `peer` in the stretch
    /// from `lo` to `hi`.
    pub open spec fn pushed(
        self,
        actions: Seq<Action>,
        lo: int,
        hi: int,
        node: NodeId,
        peer: NodeId,
    ) -> bool {
        exists|i: int, j: int| self.gets_through(actions, lo, hi, i, j, node, peer)
    }

    /// Whether the stretch from `lo` to `hi` is a round: gossip gets through
    /// from every node to every one of its neighbours.
    pub open spec fn round(self, actions: Seq<Action>, lo: int, hi: int) -> bool {
        &&& 0 <= lo <= hi <= actions.len()
        &&& forall|node: NodeId, peer: NodeId| #[trigger]
            self.knows(node, peer) ==> self.pushed(actions, lo, hi, node, peer)
    }

    /// Whether `bounds` cuts the run into rounds: each of its positions to
    /// the next is one.
    pub open spec fn rounds(self, actions: Seq<Action>, bounds: Seq<int>) -> bool {
        &&& bounds.len() > 0
        &&& 0 <= bounds[0] <= actions.len()
        &&& forall|r: int|
            0 <= r < bounds.len() - 1 ==> self.round(actions, #[trigger] bounds[r], bounds[r + 1])
    }

    /// Whether `path` leads from node to neighbour to neighbour.
    pub open spec fn is_path(self, path: Seq<NodeId>) -> bool {
        &&& path.len() > 0
        &&& self.nodes.contains_key(path[0])
        &&& forall|i: int| 0 <= i < path.len() - 1 ==> self.knows(#[trigger] path[i], path[i + 1])
    }

    /// Whether every node can be reached from every node by a path of at
    /// most `diameter` edges.
    pub open spec fn connected_within(self, diameter: nat) -> bool {
        forall|from: NodeId, to: NodeId|
            #![trigger self.nodes.contains_key(from), self.nodes.contains_key(to)]
            self.nodes.contains_key(from) && self.nodes.contains_key(to) ==> exists|
                path: Seq<NodeId>,
            |
                #![trigger self.is_path(path)]
                self.is_path(path) && path[0] == from && path.last() == to && path.len()
                    <= diameter + 1
    }
}

/// Running one action more is applying it to where the run had got.
pub proof fn lemma_run_step(c: Cluster, actions: Seq<Action>, i: int)
    requires
        0 <= i < actions.len(),
    ensures
        c.at(actions, i + 1) == c.at(actions, i).apply(actions[i]),
{
    assert(actions.take(i + 1).drop_last() =~= actions.take(i));
}

/// The invariant holds all along a run, and the run changes neither the
/// topology nor who is a node nor who knows whom.
pub proof fn lemma_run_inv(c: Cluster, actions: Seq<Action>, i: int)
    requires
        c.inv(),
        c.admits(actions),
        0 <= i <= actions.len(),
    ensures
        c.at(actions, i).inv(),
        c.at(actions, i).topology == c.topology,
        c.at(actions, i).nodes.dom() == c.nodes.dom(),
        forall|n: NodeId, p: NodeId| c.at(actions, i).knows(n, p) == c.knows(n, p),
    decreases i,
{
    if i == 0 {
        assert(actions.take(0) =~= Seq::empty());
    } else {
        lemma_run_inv(c, actions, i - 1);
        lemma_run_step(c, actions, i - 1);
        let before = c.at(actions, i - 1);
        let after = c.at(actions, i);
        theorem_apply_keeps_inv(before, actions[i - 1]);
        assert(after.nodes.dom() =~= before.nodes.dom());
        assert forall|n: NodeId, p: NodeId| after.knows(n, p) == c.knows(n, p) by {
            assert(before.knows(n, p) == c.knows(n, p));
            if after.nodes.contains_key(n) {
                assert(after.knows(n, p) <==> after.topology[n].contains(p));
                assert(before.knows(n, p) <==> before.topology[n].contains(p));
            }
        }
    }
}

/// No node ever loses a value in the course of a run.
pub proof fn lemma_run_grows(c: Cluster, actions: Seq<Action>, i: int, j: int, n: NodeId)
    requires
        c.inv(),
        c.admits(actions),
        0 <= i <= j <= actions.len(),
        c.nodes.contains_key(n),
    ensures
        c.at(actions, i).nodes.contains_key(n),
        c.at(actions, j).nodes.contains_key(n),
        c.at(actions, i).nodes[n].messages.subset_of(c.at(actions, j).nodes[n].messages),
    decreases j - i,
{
    lemma_run_inv(c, actions, i);
    lemma_run_inv(c, actions, j);
    if i < j {
        lemma_run_grows(c, actions, i, j - 1, n);
        lemma_run_inv(c, actions, j - 1);
        lemma_run_step(c, actions, j - 1);
        lemma_apply_grows(c.at(actions, j - 1), actions[j - 1], n);
    }
}

/// When gossip from a node gets through to a neighbour, the neighbour ends
/// up with everything that the node had when the stretch began.
pub proof fn lemma_push_spreads(
    c: Cluster,
    actions: Seq<Action>,
    lo: int,
    hi: int,
    node: NodeId,
    peer: NodeId,
)
    requires
        c.inv(),
        c.admits(actions),
        0 <= lo <= hi <= actions.len(),
        c.knows(node, peer),
        c.pushed(actions, lo, hi, node, peer),
    ensures
        c.at(actions, lo).nodes[node].messages.subset_of(c.at(actions, hi).nodes[peer].messages),
{
    let (i, j) = choose|i: int, j: int| c.gets_through(actions, lo, hi, i, j, node, peer);
    assert(c.gets_through(actions, lo, hi, i, j, node, peer));
    let then = c.at(actions, i);
    let s = then.nodes[node];
    lemma_run_inv(c, actions, i);
    assert(then.knows(node, peer) == c.knows(node, peer));
    assert(c.nodes.contains_key(peer));
    lemma_run_grows(c, actions, lo, i, node);
    assert(s.known[peer].subset_of(then.nodes[peer].messages));
    if s.delta(peer).is_empty() {
        assert(s.messages.subset_of(s.known[peer])) by {
            assert forall|v: u64| s.messages.contains(v) implies s.known[peer].contains(v) by {
                if !s.known[peer].contains(v) {
                    assert(s.delta(peer).contains(v));
                }
            }
        }
        lemma_run_grows(c, actions, i, hi, peer);
    } else {
        let message = actions[j]->Deliver_message;
        let sent = outbox(s, tick());
        assert(s.step(tick()).result is Ok);
        assert(s.neighborhood.len() >= 0);
        lemma_round_sends(s, s.neighborhood.len());
        assert(sent == s.gossip_round(s.neighborhood.len()).1);
        let k = choose|k: int| 0 <= k < sent.len() && sent[k] == message;
        assert(sent[k] == message);
        assert(carried(message) == s.delta(peer));
        let there = c.at(actions, j);
        let t = there.nodes[peer];
        lemma_run_step(c, actions, j);
        lemma_run_inv(c, actions, j);
        lemma_run_grows(c, actions, i, j, peer);
        lemma_run_grows(c, actions, j + 1, hi, peer);
        let landed = t.step(EventView::Message(message)).next;
        assert(c.at(actions, j + 1).nodes[peer] == landed);
        assert(landed.messages == t.messages.union(carried(message)));
        assert forall|v: u64| s.messages.contains(v) implies landed.messages.contains(v) by {
            if s.known[peer].contains(v) {
                assert(then.nodes[peer].messages.contains(v));
                assert(t.messages.contains(v));
            } else {
                assert(s.delta(peer).contains(v));
            }
        }
    }
}

/// Gossip can always get through: between two nodes that are each other's
/// neighbours and have identifiers left, a timer and at most one delivery
/// make a stretch in which gossip gets through from the one to the other.
/// So rounds are not too much to ask of a run.
pub proof fn theorem_push_is_possible(c: Cluster, node: NodeId, peer: NodeId) -> (actions: Seq<
    Action,
>)
    requires
        c.inv(),
        c.knows(node, peer),
        c.knows(peer, node),
        node != peer,
        c.nodes[node].step(tick()).result is Ok,
        c.nodes[peer].msg_id < u64::MAX,
    ensures
        actions.len() <= 2,
        c.admits(actions),
        c.pushed(actions, 0, actions.len() as int, node, peer),
{
    let s = c.nodes[node];
    let fire = Action::Tick { node };
    assert(seq![fire].take(0) =~= Seq::<Action>::empty());
    if s.delta(peer).is_empty() {
        let actions = seq![fire];
        assert(c.at(actions, 0) == c);
        assert(c.gets_through(actions, 0, 1, 0, 0, node, peer));
        actions
    } else {
        let sent = outbox(s, tick());
        lemma_round_sends(s, s.neighborhood.len());
        assert(sent == s.gossip_round(s.neighborhood.len()).1);
        assert(c.topology[node].contains(peer));
        let at_peer = choose|j: int| 0 <= j < s.neighborhood.len() && s.neighborhood[j] == peer;
        assert(!s.delta(s.neighborhood[at_peer]).is_empty());
        let k = choose|k: int| addressed(sent, k, s.neighborhood[at_peer]);
        assert(addressed(sent, k, peer));
        let message = sent[k];
        let actions = seq![fire, Action::Deliver { message }];
        assert(actions.take(0) =~= Seq::<Action>::empty());
        assert(c.at(actions, 0) == c);
        lemma_run_step(c, actions, 0);
        let then = c.at(actions, 1);
        assert(then == c.apply(fire));
        assert(sent.contains(message));
        assert(then.network.contains(message));
        assert(then.nodes[peer] == c.nodes[peer]);
        assert(c.admits(actions)) by {
            assert forall|i: int| 0 <= i < actions.len() implies c.run(
                #[trigger] actions.take(i),
            ).enabled(actions[i]) by {
                if i == 1 {
                    assert(c.run(actions.take(1)) == then);
                }
            }
        }
        assert(c.lands(actions, 0, 1, node, peer));
        assert(c.gets_through(actions, 0, 2, 0, 1, node, peer));
        actions
    }
}

/// The bounds of rounds follow one another within the run.
pub proof fn lemma_bounds_ordered(c: Cluster, actions: Seq<Action>, bounds: Seq<int>, r: int)
    requires
        c.rounds(actions, bounds),
        0 <= r < bounds.len(),
    ensures
        0 <= bounds[0] <= bounds[r] <= actions.len(),
    decreases r,
{
    if r > 0 {
        lemma_bounds_ordered(c, actions, bounds, r - 1);
        assert(c.round(actions, bounds[r - 1], bounds[r - 1 + 1]));
    }
}

/// What the first node of a path has when the rounds begin, the last node
/// has when they end, if there are at least as many rounds as the path has
/// edges.
pub proof fn theorem_rounds_spread_along_path(
    c: Cluster,
    actions: Seq<Action>,
    bounds: Seq<int>,
    path: Seq<NodeId>,
)
    requires
        c.inv(),
        c.admits(actions),
        c.rounds(actions, bounds),
        c.is_path(path),
        path.len() <= bounds.len(),
    ensures
        c.at(actions, bounds[0]).nodes[path[0]].messages.subset_of(
            c.at(actions, bounds.last()).nodes[path.last()].messages,
        ),
    decreases path.len(),
{
    let last = bounds.len() - 1;
    lemma_bounds_ordered(c, actions, bounds, last);
    if path.len() == 1 {
        lemma_run_grows(c, actions, bounds[0], bounds[last], path[0]);
    } else {
        let shorter = path.drop_last();
        let earlier = bounds.drop_last();
        assert(c.rounds(actions, earlier)) by {
            assert forall|r: int| 0 <= r < earlier.len() - 1 implies c.round(
                actions,
                #[trigger] earlier[r],
                earlier[r + 1],
            ) by {
                assert(c.round(actions, bounds[r], bounds[r + 1]));
            }
        }
        assert(c.is_path(shorter)) by {
            assert forall|i: int| 0 <= i < shorter.len() - 1 implies c.knows(
                #[trigger] shorter[i],
                shorter[i + 1],
            ) by {
                assert(c.knows(path[i], path[i + 1]));
            }
        }
        theorem_rounds_spread_along_path(c, actions, earlier, shorter);
        let via = path[path.len() - 2];
        let to = path[path.len() - 1];
        assert(c.knows(via, to));
        assert(c.round(actions, bounds[last - 1], bounds[last - 1 + 1]));
        lemma_bounds_ordered(c, actions, bounds, last - 1);
        lemma_push_spreads(c, actions, bounds[last - 1], bounds[last], via, to);
        assert(shorter.last() == via);
        assert(earlier.last() == bounds[last - 1]);
        assert(earlier[0] == bounds[0]);
        assert(shorter[0] == path[0]);
    }
}

/// Convergence. Take a cluster that satisfies the invariant and whose
/// topology connects every node to every node by at most `diameter` edges,
/// and a run that contains `diameter` rounds. Then when the rounds are
/// over, every node has every value that a client had handed to any node
/// when they began, and no node has a value that no client handed in.
pub proof fn theorem_convergence(
    c: Cluster,
    actions: Seq<Action>,
    bounds: Seq<int>,
    diameter: nat,
)
    requires
        c.inv(),
        c.admits(actions),
        c.connected_within(diameter),
        c.rounds(actions, bounds),
        bounds.len() == diameter + 1,
    ensures
        forall|n: NodeId| #[trigger]
            c.nodes.contains_key(n) ==> c.at(actions, bounds[0]).injected.subset_of(
                c.at(actions, bounds.last()).nodes[n].messages,
            ) && c.at(actions, bounds.last()).nodes[n].messages.subset_of(
                c.at(actions, bounds.last()).injected,
            ),
{
    let last = bounds.len() - 1;
    let begin = c.at(actions, bounds[0]);
    let end = c.at(actions, bounds.last());
    lemma_bounds_ordered(c, actions, bounds, last);
    lemma_run_inv(c, actions, bounds[0]);
    lemma_run_inv(c, actions, bounds[last]);
    assert forall|n: NodeId| #[trigger] c.nodes.contains_key(n) implies begin.injected.subset_of(
        end.nodes[n].messages,
    ) && end.nodes[n].messages.subset_of(end.injected) by {
        assert forall|v: u64| begin.injected.contains(v) implies end.nodes[n].messages.contains(
            v,
        ) by {
            let holder = choose|holder: NodeId| begin.has(holder, v);
            assert(begin.has(holder, v));
            assert(c.nodes.contains_key(holder));
            let path = choose|path: Seq<NodeId>|
                #![trigger c.is_path(path)]
                c.is_path(path) && path[0] == holder && path.last() == n && path.len() <= diameter
                    + 1;
            theorem_rounds_spread_along_path(c, actions, bounds, path);
        }
        assert forall|v: u64| end.nodes[n].messages.contains(v) implies end.injected.contains(
            v,
        ) by {
            assert(end.has(n, v));
        }
    }
}

/// Convergence, when clients hand in nothing while the rounds run: in the
/// end every node has exactly the values that clients have handed in.
pub proof fn theorem_convergence_exact(
    c: Cluster,
    actions: Seq<Action>,
    bounds: Seq<int>,
    diameter: nat,
    n: NodeId,
)
    requires
        c.inv(),
        c.admits(actions),
        c.connected_within(diameter),
        c.rounds(actions, bounds),
        bounds.len() == diameter + 1,
        c.at(actions, bounds.last()).injected == c.at(actions, bounds[0]).injected,
        c.nodes.contains_key(n),
    ensures
        c.at(actions, bounds.last()).nodes[n].messages == c.at(actions, bounds.last()).injected,
{
    theorem_convergence(c, actions, bounds, diameter);
    assert(c.at(actions, bounds.last()).nodes[n].messages =~= c.at(
        actions,
        bounds.last(),
    ).injected);
}

} // verus!
