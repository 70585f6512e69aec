//! A cluster of broadcast nodes and the network between them, as a state
//! machine, and the invariant that makes gossip safe.
//!
//! The network is the set of all messages that nodes have sent so far. Any
//! of them may be delivered at any time, any number of times, or never:
//! that is reordering, duplication and loss. Clients hand values to nodes
//! and read them back; they are not nodes, and nodes act only on what
//! clients and other nodes send them.
//!
//! The invariant says that what a node believes of a neighbour is true:
//! every value that `known` attributes to a neighbour has been accepted by
//! that neighbour. A node may therefore leave out of a gossip what its
//! neighbour is known to have, and nothing is lost by it.

use super::effects::{
    carried, credited, gossip_wire, is_topology, lemma_step_acks, lemma_step_frame,
    lemma_step_known, lemma_step_outbox, lemma_step_records, offered, outbox, records, sender,
    sent_by_nodes,
};
use super::payload::InjectedPayload;
use super::state::{Input, NodeId, NodeState, Wire};
use super::theorems::theorem_failure_changes_nothing;
use crate::protocol::EventView;
use vstd::prelude::*;

verus! {

/// A cluster: its nodes, wired by a fixed topology, and the network.
pub struct Cluster {
    /// For each node, its neighbours.
    pub topology: Map<NodeId, Seq<NodeId>>,
    /// The state of each node.
    pub nodes: Map<NodeId, NodeState>,
    /// Every message that a node has sent so far.
    pub network: Set<Wire>,
    /// Every value that a node has accepted from a client so far.
    pub injected: Set<u64>,
}

/// One thing that happens in a cluster.
pub enum Action {
    /// A message of the network reaches the node it is addressed to.
    Deliver { message: Wire },
    /// A client sends a request to a node.
    Client { message: Wire },
    /// A node's timer fires.
    Tick { node: NodeId },
}

impl Action {
    /// The node that acts.
    pub open spec fn node(self) -> NodeId {
        match self {
            Action::Deliver { message } => message.dst,
            Action::Client { message } => message.dst,
            Action::Tick { node } => node,
        }
    }

    /// The event that the acting node sees.
    pub open spec fn input(self) -> Input {
        match self {
            Action::Deliver { message } => EventView::Message(message),
            Action::Client { message } => EventView::Message(message),
            Action::Tick { node } => EventView::Injected(InjectedPayload::Gossip),
        }
    }
}

impl Cluster {
    /// A cluster in which every node has just learnt its neighbours and
    /// nothing else has happened. `counters` gives each node's message
    /// counter.
    pub open spec fn fresh(topology: Map<NodeId, Seq<NodeId>>, counters: Map<NodeId, u64>) -> Cluster {
        Cluster {
            topology,
            nodes: Map::new(
                |n: NodeId| topology.contains_key(n),
                |n: NodeId|
                    NodeState {
                        neighborhood: topology[n],
                        known: NodeState::nothing_known(topology[n]),
                        ..NodeState::initial(n, counters[n])
                    },
            ),
            network: Set::empty(),
            injected: Set::empty(),
        }
    }

    /// Whether `action` can happen: the acting node exists; a delivered
    /// message is in the network; a client is no node and sends a value or
    /// asks for the values.
    pub open spec fn enabled(self, action: Action) -> bool {
        &&& self.nodes.contains_key(action.node())
        &&& match action {
            Action::Deliver { message } => self.network.contains(message),
            Action::Client { message } => !self.nodes.contains_key(message.src) && (message.payload
                is Broadcast || message.payload is Read),
            Action::Tick { node } => true,
        }
    }

    /// The value that `action` makes a node accept from a client, if any.
    pub open spec fn injects(self, action: Action) -> Set<u64> {
        match action {
            Action::Client { message } => if message.payload is Broadcast && self.nodes[message.dst].step(
                action.input(),
            ).result is Ok {
                set![message.payload->Broadcast_message]
            } else {
                Set::empty()
            },
            _ => Set::empty(),
        }
    }

    /// The cluster after `action`: the acting node has taken its step, and
    /// what it sent is in the network.
    pub open spec fn apply(self, action: Action) -> Cluster {
        let before = self.nodes[action.node()];
        Cluster {
            topology: self.topology,
            nodes: self.nodes.insert(action.node(), before.step(action.input()).next),
            network: self.network.union(outbox(before, action.input()).to_set()),
            injected: self.injected.union(self.injects(action)),
        }
    }

    /// The cluster after the actions of `actions`, in order.
    pub open spec fn run(self, actions: Seq<Action>) -> Cluster
        decreases actions.len(),
    {
        if actions.len() == 0 {
            self
        } else {
            self.run(actions.drop_last()).apply(actions.last())
        }
    }

    /// Whether each action of `actions` can happen when its turn comes.
    pub open spec fn admits(self, actions: Seq<Action>) -> bool {
        forall|i: int|
            0 <= i < actions.len() ==> self.run(#[trigger] actions.take(i)).enabled(actions[i])
    }

    /// Whether `peer` is a node that `node` keeps a `known` entry for.
    pub open spec fn knows(self, node: NodeId, peer: NodeId) -> bool {
        self.nodes.contains_key(node) && self.nodes[node].known.contains_key(peer)
    }

    /// Whether `node` has a gossip in flight to `peer`.
    pub open spec fn awaits(self, node: NodeId, peer: NodeId) -> bool {
        self.nodes.contains_key(node) && self.nodes[node].in_flight.contains_key(peer)
    }

    /// Whether `node` has accepted `value`.
    pub open spec fn has(self, node: NodeId, value: u64) -> bool {
        self.nodes.contains_key(node) && self.nodes[node].messages.contains(value)
    }

    /// The nodes are those of the topology, each under its own name and with
    /// the neighbours that the topology gives it, and it keeps a `known`
    /// entry for exactly those. Neighbours are nodes.
    pub open spec fn wired(self) -> bool {
        &&& forall|n: NodeId| #[trigger]
            self.nodes.contains_key(n) ==> {
                &&& self.topology.contains_key(n)
                &&& self.nodes[n].node == n
                &&& self.nodes[n].neighborhood == self.topology[n]
            }
        &&& forall|n: NodeId, p: NodeId|
            self.nodes.contains_key(n) ==> (#[trigger] self.knows(n, p) <==> self.topology[n].contains(
                p,
            ))
        &&& forall|n: NodeId, p: NodeId| #[trigger] self.knows(n, p) ==> self.nodes.contains_key(p)
    }

    /// What a node believes of a neighbour is true: the neighbour has
    /// accepted every value that it is known to have.
    pub open spec fn truthful(self) -> bool {
        forall|n: NodeId, p: NodeId| #[trigger]
            self.knows(n, p) ==> self.nodes[n].known[p].subset_of(self.nodes[p].messages)
    }

    /// Every message of the network was sent by the node it names as its
    /// source, under an identifier that this node's counter has passed, is
    /// of a kind that nodes send, and carries only values that its sender
    /// has accepted.
    pub open spec fn honest(self) -> bool {
        forall|m: Wire| #[trigger]
            self.network.contains(m) ==> {
                &&& self.nodes.contains_key(m.src)
                &&& sent_by_nodes(m.payload)
                &&& m.id is Some
                &&& m.id->0 < self.nodes[m.src].msg_id
                &&& carried(m).subset_of(self.nodes[m.src].messages)
            }
    }

    /// No two messages of the network have the same source and identifier.
    pub open spec fn distinct(self) -> bool {
        forall|m1: Wire, m2: Wire|
            #![trigger self.network.contains(m1), self.network.contains(m2)]
            self.network.contains(m1) && self.network.contains(m2) && m1.src == m2.src && m1.id
                == m2.id ==> m1 == m2
    }

    /// Every in-flight record describes a gossip that is in the network.
    pub open spec fn recorded(self) -> bool {
        forall|n: NodeId, p: NodeId| #[trigger]
            self.awaits(n, p) ==> self.network.contains(
                gossip_wire(n, p, self.nodes[n].in_flight[p].0, self.nodes[n].in_flight[p].1),
            )
    }

    /// An acknowledgement answers a gossip that its addressee has sent: the
    /// addressee is a node whose counter has passed the identifier it
    /// replies to.
    pub open spec fn answering(self) -> bool {
        forall|m: Wire| #[trigger]
            self.network.contains(m) && m.payload is GossipOk && m.in_reply_to is Some ==> {
                &&& self.nodes.contains_key(m.dst)
                &&& m.in_reply_to->0 < self.nodes[m.dst].msg_id
            }
    }

    /// Whoever has acknowledged a gossip has accepted what it carried.
    pub open spec fn acknowledged(self) -> bool {
        forall|ack: Wire, gossip: Wire|
            #![trigger self.network.contains(ack), self.network.contains(gossip)]
            self.network.contains(ack) && self.network.contains(gossip) && ack.payload is GossipOk
                && gossip.payload is Gossip && gossip.src == ack.dst && ack.in_reply_to
                == gossip.id ==> carried(gossip).subset_of(self.nodes[ack.src].messages)
    }

    /// The values that nodes have accepted are those that clients handed in:
    /// no node has a value that nobody handed in, and every value handed in
    /// is with some node.
    pub open spec fn accounted(self) -> bool {
        &&& forall|n: NodeId, v: u64| #[trigger] self.has(n, v) ==> self.injected.contains(v)
        &&& forall|v: u64| #[trigger]
            self.injected.contains(v) ==> exists|n: NodeId| self.has(n, v)
    }

    /// Everything that holds of a cluster at all times.
    pub open spec fn inv(self) -> bool {
        &&& self.wired()
        &&& self.truthful()
        &&& self.honest()
        &&& self.distinct()
        &&& self.recorded()
        &&& self.answering()
        &&& self.acknowledged()
        &&& self.accounted()
    }
}

/// A cluster that has just been wired satisfies the invariant.
pub proof fn lemma_fresh_inv(topology: Map<NodeId, Seq<NodeId>>, counters: Map<NodeId, u64>)
    requires
        forall|n: NodeId, i: int|
            topology.contains_key(n) && 0 <= i < topology[n].len() ==> topology.contains_key(
                #[trigger] topology[n][i],
            ),
    ensures
        Cluster::fresh(topology, counters).inv(),
{
    let c = Cluster::fresh(topology, counters);
    assert forall|n: NodeId, p: NodeId| #[trigger] c.knows(n, p) implies c.nodes.contains_key(
        p,
    ) by {
        let i = choose|i: int| 0 <= i < topology[n].len() && topology[n][i] == p;
        assert(topology.contains_key(topology[n][i]));
    }
}

/// What acts in a cluster is never a topology message, and what the acting
/// node sends leaves under its own name.
proof fn lemma_acting(c: Cluster, a: Action)
    requires
        c.wired(),
        c.honest(),
        c.enabled(a),
    ensures
        !is_topology(a.input()),
        sender(c.nodes[a.node()], a.input()) == a.node(),
        a.input() matches EventView::Message(m) ==> (m.payload is Gossip || m.payload is GossipOk
            ==> c.network.contains(m)),
        a.input() matches EventView::Message(m) ==> m.dst == a.node(),
{
    match a {
        Action::Deliver { message } => {},
        Action::Client { message } => {},
        Action::Tick { node } => {},
    }
}

/// A node that does not act stays as it is, and the node that acts changes
/// as its step says.
proof fn lemma_apply_nodes(c: Cluster, a: Action)
    requires
        c.enabled(a),
    ensures
        c.apply(a).nodes.dom() == c.nodes.dom(),
        c.apply(a).nodes[a.node()] == c.nodes[a.node()].step(a.input()).next,
        forall|n: NodeId| n != a.node() ==> #[trigger] c.apply(a).nodes[n] == c.nodes[n],
        c.apply(a).topology == c.topology,
        forall|m: Wire| c.network.contains(m) ==> #[trigger] c.apply(a).network.contains(m),
        forall|m: Wire| #[trigger]
            c.apply(a).network.contains(m) ==> c.network.contains(m) || outbox(
                c.nodes[a.node()],
                a.input(),
            ).contains(m),
{
    assert(c.apply(a).nodes.dom() =~= c.nodes.dom());
}

/// No action takes a value away from any node, or turns a counter back.
pub proof fn lemma_apply_grows(c: Cluster, a: Action, n: NodeId)
    requires
        c.wired(),
        c.honest(),
        c.enabled(a),
        c.nodes.contains_key(n),
    ensures
        c.apply(a).nodes.contains_key(n),
        c.nodes[n].messages.subset_of(c.apply(a).nodes[n].messages),
        c.nodes[n].msg_id <= c.apply(a).nodes[n].msg_id,
{
    lemma_acting(c, a);
    lemma_apply_nodes(c, a);
    lemma_step_frame(c.nodes[a.node()], a.input());
}

proof fn lemma_apply_keeps_wired(c: Cluster, a: Action)
    requires
        c.inv(),
        c.enabled(a),
    ensures
        c.apply(a).wired(),
{
    let d = c.apply(a);
    lemma_acting(c, a);
    lemma_apply_nodes(c, a);
    lemma_step_frame(c.nodes[a.node()], a.input());
    assert forall|n: NodeId, p: NodeId| d.knows(n, p) == c.knows(n, p) by {
        if n == a.node() {
            assert(d.nodes[n].known.dom().contains(p) == c.nodes[n].known.dom().contains(p));
        }
    }
    assert forall|n: NodeId, p: NodeId| d.nodes.contains_key(n) implies (#[trigger] d.knows(n, p)
        <==> d.topology[n].contains(p)) by {
        assert(d.knows(n, p) == c.knows(n, p));
    }
    assert forall|n: NodeId, p: NodeId| #[trigger] d.knows(n, p) implies d.nodes.contains_key(
        p,
    ) by {
        assert(c.knows(n, p));
    }
}

proof fn lemma_apply_keeps_truthful(c: Cluster, a: Action)
    requires
        c.inv(),
        c.enabled(a),
    ensures
        c.apply(a).truthful(),
{
    let d = c.apply(a);
    let x = a.node();
    let s = c.nodes[x];
    lemma_acting(c, a);
    lemma_apply_nodes(c, a);
    assert forall|n: NodeId, p: NodeId| #[trigger] d.knows(n, p) implies d.nodes[n].known[p].subset_of(
        d.nodes[p].messages,
    ) by {
        lemma_step_frame(s, a.input());
        if n == x {
            assert(d.nodes[n].known.dom().contains(p) == c.nodes[n].known.dom().contains(p));
        }
        assert(c.knows(n, p));
        assert(c.nodes.contains_key(p));
        lemma_apply_grows(c, a, p);
        if n == x {
            lemma_step_known(s, a.input(), p);
            let credit = credited(s, a.input(), p);
            assert(credit.subset_of(c.nodes[p].messages)) by {
                if let EventView::Message(m) = a.input() {
                    if m.src == p && (m.payload is Gossip || m.payload is GossipOk) {
                        assert(c.network.contains(m));
                        if m.payload is GossipOk && s.acknowledges(p, m.in_reply_to) {
                            assert(c.awaits(x, p));
                            let g = gossip_wire(x, p, s.in_flight[p].0, s.in_flight[p].1);
                            assert(c.network.contains(g));
                            assert(carried(g) == s.in_flight[p].1);
                        }
                    }
                }
            }
        }
    }
}

proof fn lemma_apply_keeps_honest(c: Cluster, a: Action)
    requires
        c.inv(),
        c.enabled(a),
    ensures
        c.apply(a).honest(),
{
    let d = c.apply(a);
    let x = a.node();
    let s = c.nodes[x];
    lemma_acting(c, a);
    lemma_apply_nodes(c, a);
    lemma_step_outbox(s, a.input());
    assert forall|m: Wire| #[trigger] d.network.contains(m) implies {
        &&& d.nodes.contains_key(m.src)
        &&& sent_by_nodes(m.payload)
        &&& m.id is Some
        &&& m.id->0 < d.nodes[m.src].msg_id
        &&& carried(m).subset_of(d.nodes[m.src].messages)
    } by {
        if c.network.contains(m) {
            lemma_apply_grows(c, a, m.src);
        } else {
            let out = outbox(s, a.input());
            let i = choose|i: int| 0 <= i < out.len() && out[i] == m;
            assert(out[i] == m);
        }
    }
}

proof fn lemma_apply_keeps_distinct(c: Cluster, a: Action)
    requires
        c.inv(),
        c.enabled(a),
    ensures
        c.apply(a).distinct(),
{
    let d = c.apply(a);
    let x = a.node();
    let s = c.nodes[x];
    let out = outbox(s, a.input());
    lemma_acting(c, a);
    lemma_apply_nodes(c, a);
    lemma_step_outbox(s, a.input());
    assert forall|m1: Wire, m2: Wire|
        d.network.contains(m1) && d.network.contains(m2) && m1.src == m2.src && m1.id
            == m2.id implies m1 == m2 by {
        if !c.network.contains(m1) {
            let i = choose|i: int| 0 <= i < out.len() && out[i] == m1;
            assert(out[i] == m1);
            if !c.network.contains(m2) {
                let j = choose|j: int| 0 <= j < out.len() && out[j] == m2;
                assert(out[j] == m2);
                assert(i == j);
            }
        } else if !c.network.contains(m2) {
            let j = choose|j: int| 0 <= j < out.len() && out[j] == m2;
            assert(out[j] == m2);
        }
    }
}

proof fn lemma_apply_keeps_recorded(c: Cluster, a: Action)
    requires
        c.inv(),
        c.enabled(a),
    ensures
        c.apply(a).recorded(),
{
    let d = c.apply(a);
    let x = a.node();
    let s = c.nodes[x];
    let out = outbox(s, a.input());
    lemma_acting(c, a);
    lemma_apply_nodes(c, a);
    assert forall|n: NodeId, p: NodeId| #[trigger] d.awaits(n, p) implies d.network.contains(
        gossip_wire(n, p, d.nodes[n].in_flight[p].0, d.nodes[n].in_flight[p].1),
    ) by {
        if n == x {
            lemma_step_records(s, a.input(), p);
            let record = d.nodes[n].in_flight[p];
            if s.in_flight.contains_key(p) && record == s.in_flight[p] {
                assert(c.awaits(n, p));
            } else {
                let i = choose|i: int| records(out, i, s.node, p, record);
                assert(out[i] == gossip_wire(x, p, record.0, record.1));
                assert(out.contains(out[i]));
            }
        } else {
            assert(c.awaits(n, p));
        }
    }
}

proof fn lemma_apply_keeps_answering(c: Cluster, a: Action)
    requires
        c.inv(),
        c.enabled(a),
    ensures
        c.apply(a).answering(),
{
    let d = c.apply(a);
    let x = a.node();
    let s = c.nodes[x];
    let out = outbox(s, a.input());
    lemma_acting(c, a);
    lemma_apply_nodes(c, a);
    lemma_step_acks(s, a.input());
    assert forall|m: Wire| #[trigger]
        d.network.contains(m) && m.payload is GossipOk && m.in_reply_to is Some implies d.nodes.contains_key(
        m.dst,
    ) && m.in_reply_to->0 < d.nodes[m.dst].msg_id by {
        if c.network.contains(m) {
            lemma_apply_grows(c, a, m.dst);
        } else {
            let i = choose|i: int| 0 <= i < out.len() && out[i] == m;
            assert(out[i] == m);
            let gossip = a.input()->Message_0;
            assert(c.network.contains(gossip));
            lemma_apply_grows(c, a, gossip.src);
        }
    }
}

proof fn lemma_apply_keeps_acknowledged(c: Cluster, a: Action)
    requires
        c.inv(),
        c.enabled(a),
    ensures
        c.apply(a).acknowledged(),
{
    let d = c.apply(a);
    let x = a.node();
    let s = c.nodes[x];
    let out = outbox(s, a.input());
    lemma_acting(c, a);
    lemma_apply_nodes(c, a);
    lemma_step_acks(s, a.input());
    lemma_step_outbox(s, a.input());
    assert forall|ack: Wire, gossip: Wire|
        d.network.contains(ack) && d.network.contains(gossip) && ack.payload is GossipOk
            && gossip.payload is Gossip && gossip.src == ack.dst && ack.in_reply_to
            == gossip.id implies carried(gossip).subset_of(d.nodes[ack.src].messages) by {
        if c.network.contains(ack) {
            lemma_apply_grows(c, a, ack.src);
            if !c.network.contains(gossip) {
                let j = choose|j: int| 0 <= j < out.len() && out[j] == gossip;
                assert(out[j] == gossip);
                assert(false);
            }
        } else {
            let i = choose|i: int| 0 <= i < out.len() && out[i] == ack;
            assert(out[i] == ack);
            let answered = a.input()->Message_0;
            assert(c.network.contains(answered));
            if !c.network.contains(gossip) {
                let j = choose|j: int| 0 <= j < out.len() && out[j] == gossip;
                assert(out[j] == gossip);
                assert(false);
            }
            assert(gossip == answered);
        }
    }
}

proof fn lemma_apply_keeps_accounted(c: Cluster, a: Action)
    requires
        c.inv(),
        c.enabled(a),
    ensures
        c.apply(a).accounted(),
{
    let d = c.apply(a);
    let x = a.node();
    let s = c.nodes[x];
    lemma_acting(c, a);
    lemma_apply_nodes(c, a);
    lemma_step_frame(s, a.input());
    assert forall|n: NodeId, v: u64| #[trigger] d.has(n, v) implies d.injected.contains(v) by {
        if n == x && !s.messages.contains(v) {
            assert(offered(a.input()).contains(v));
            match a {
                Action::Deliver { message } => {
                    assert(c.has(message.src, v));
                },
                Action::Client { message } => {
                    if s.step(a.input()).result is Err {
                        theorem_failure_changes_nothing(s, a.input());
                    }
                },
                Action::Tick { node } => {},
            }
        } else {
            assert(c.has(n, v));
        }
    }
    assert forall|v: u64| #[trigger] d.injected.contains(v) implies exists|n: NodeId|
        d.has(n, v) by {
        if c.injected.contains(v) {
            let n = choose|n: NodeId| c.has(n, v);
            lemma_apply_grows(c, a, n);
            assert(d.has(n, v));
        } else {
            assert(d.has(x, v));
        }
    }
}

/// Every action that can happen keeps the invariant.
pub proof fn theorem_apply_keeps_inv(c: Cluster, a: Action)
    requires
        c.inv(),
        c.enabled(a),
    ensures
        c.apply(a).inv(),
{
    lemma_apply_keeps_wired(c, a);
    lemma_apply_keeps_truthful(c, a);
    lemma_apply_keeps_honest(c, a);
    lemma_apply_keeps_distinct(c, a);
    lemma_apply_keeps_recorded(c, a);
    lemma_apply_keeps_answering(c, a);
    lemma_apply_keeps_acknowledged(c, a);
    lemma_apply_keeps_accounted(c, a);
}

} // verus!
