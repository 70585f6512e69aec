//! The gossip protocol as a state machine over mathematical values.
//!
//! A node's state is a record of sets and maps, and each kind of event is a
//! function from the state before it to the state after it and the messages
//! that leave the node. The executable node is specified against these
//! functions, and what holds of the protocol is proved about them.

use super::payload::{InjectedPayload, PayloadView};
use crate::protocol::{Envelope, EventView, MessageView};
use crate::runtime::StepError;
use vstd::prelude::*;

verus! {

/// A node identifier.
pub type NodeId = Seq<char>;

/// A message of the broadcast workload.
pub type Wire = MessageView<PayloadView>;

/// An event that a broadcast node consumes.
pub type Input = EventView<PayloadView, InjectedPayload>;

/// The state of one broadcast node.
#[verifier::ext_equal]
pub struct NodeState {
    /// The node's own identifier.
    pub node: NodeId,
    /// The identifier that the next message this node originates will carry.
    pub msg_id: u64,
    /// Every value the node has accepted.
    pub messages: Set<u64>,
    /// The neighbours, in the order in which a round gossips to them.
    pub neighborhood: Seq<NodeId>,
    /// For each neighbour, values that it is known to have.
    pub known: Map<NodeId, Set<u64>>,
    /// For each neighbour, the latest gossip that it has not acknowledged:
    /// the identifier it was sent under and the values it carried.
    pub in_flight: Map<NodeId, (u64, Set<u64>)>,
}

/// What a step does: the state it leaves and either the messages it sends,
/// in order, or the reason it failed.
#[verifier::ext_equal]
pub struct Outcome {
    pub next: NodeState,
    pub result: Result<Seq<Wire>, StepError>,
}

impl NodeState {
    /// The state of a node that has just been told its name.
    pub open spec fn initial(node: NodeId, msg_id: u64) -> NodeState {
        NodeState {
            node,
            msg_id,
            messages: Set::empty(),
            neighborhood: Seq::empty(),
            known: Map::empty(),
            in_flight: Map::empty(),
        }
    }

    /// Every neighbour has an entry in `known`.
    pub open spec fn wf(self) -> bool {
        forall|i: int|
            0 <= i < self.neighborhood.len() ==> self.known.contains_key(
                #[trigger] self.neighborhood[i],
            )
    }

    /// The values that the node has and `peer` is not known to have.
    pub open spec fn delta(self, peer: NodeId) -> Set<u64> {
        self.messages.difference(self.known[peer])
    }

    /// The same state with the message counter advanced by one.
    pub open spec fn bump(self) -> NodeState {
        NodeState { msg_id: (self.msg_id + 1) as u64, ..self }
    }

    /// The state after taking in `values` that `peer` sent: the node has them
    /// now, and `peer` is known to have them.
    pub open spec fn learn(self, peer: NodeId, values: Set<u64>) -> NodeState {
        NodeState {
            messages: self.messages.union(values),
            known: self.known.insert(peer, self.known[peer].union(values)),
            ..self
        }
    }

    /// A step that fails and leaves the state as it was.
    pub open spec fn fails(self, error: StepError) -> Outcome {
        Outcome { next: self, result: Err(error) }
    }

    /// A step that ends in `self` and sends nothing.
    pub open spec fn silent(self) -> Outcome {
        Outcome { next: self, result: Ok(Seq::empty()) }
    }

    /// A step that ends in `self` but for the counter, and answers `request`
    /// with `payload` under a fresh identifier. `before` is the state in
    /// which the step began; it stays if no identifier is left.
    pub open spec fn answers(
        self,
        before: NodeState,
        request: Envelope,
        payload: PayloadView,
    ) -> Outcome {
        if before.msg_id == u64::MAX {
            before.fails(StepError::MsgIdExhausted)
        } else {
            Outcome {
                next: self.bump(),
                result: Ok(seq![request.reply(Some(before.msg_id), payload)]),
            }
        }
    }

    /// A client hands the node a value.
    pub open spec fn on_broadcast(self, request: Envelope, message: u64) -> Outcome {
        NodeState { messages: self.messages.insert(message), ..self }.answers(
            self,
            request,
            PayloadView::BroadcastOk,
        )
    }

    /// A client asks what the node has.
    pub open spec fn on_read(self, request: Envelope) -> Outcome {
        self.answers(self, request, PayloadView::ReadOk { messages: self.messages })
    }

    /// The `known` map of a node whose neighbours have just been set: an
    /// empty set for each of them.
    pub open spec fn nothing_known(neighbors: Seq<NodeId>) -> Map<NodeId, Set<u64>> {
        Map::new(|peer: NodeId| neighbors.contains(peer), |peer: NodeId| Set::<u64>::empty())
    }

    /// The harness names every node's neighbours.
    pub open spec fn on_topology(
        self,
        request: Envelope,
        topology: Map<NodeId, Seq<NodeId>>,
    ) -> Outcome {
        if !topology.contains_key(self.node) {
            self.fails(StepError::MissingTopology)
        } else {
            NodeState {
                neighborhood: topology[self.node],
                known: Self::nothing_known(topology[self.node]),
                ..self
            }.answers(self, request, PayloadView::TopologyOk)
        }
    }

    /// A neighbour pushes values. The answer carries what the neighbour is
    /// still not known to have.
    pub open spec fn on_gossip(self, request: Envelope, values: Set<u64>) -> Outcome {
        if !self.known.contains_key(request.src) {
            self.fails(StepError::UnknownPeer)
        } else {
            let merged = self.learn(request.src, values);
            merged.answers(
                self,
                request,
                PayloadView::GossipOk { messages: merged.delta(request.src) },
            )
        }
    }

    /// Whether `ack` acknowledges the gossip that is in flight to `peer`.
    pub open spec fn acknowledges(self, peer: NodeId, ack: Option<u64>) -> bool {
        self.in_flight.contains_key(peer) && ack == Some(self.in_flight[peer].0)
    }

    /// The state after `peer` has acknowledged the gossip in flight to it: the
    /// record is gone and `peer` is known to have what it carried.
    pub open spec fn settle(self, peer: NodeId) -> NodeState {
        NodeState {
            known: self.known.insert(peer, self.known[peer].union(self.in_flight[peer].1)),
            in_flight: self.in_flight.remove(peer),
            ..self
        }
    }

    /// A neighbour acknowledges a gossip, with values of its own.
    pub open spec fn on_gossip_ok(self, ack: Envelope, values: Set<u64>) -> Outcome {
        if !self.known.contains_key(ack.src) {
            self.fails(StepError::UnknownPeer)
        } else {
            let merged = self.learn(ack.src, values);
            if merged.acknowledges(ack.src, ack.in_reply_to) {
                merged.settle(ack.src).silent()
            } else {
                merged.silent()
            }
        }
    }

    /// The gossip that carries `values` to `peer` under the next identifier.
    pub open spec fn gossip_message(self, peer: NodeId, values: Set<u64>) -> Wire {
        MessageView {
            src: self.node,
            dst: peer,
            id: Some(self.msg_id),
            in_reply_to: None,
            payload: PayloadView::Gossip { messages: values },
        }
    }

    /// One neighbour's share of a gossip round: if the node has anything
    /// that `peer` is not known to have, it is sent, and recorded as in
    /// flight in place of whatever was.
    pub open spec fn push(self, peer: NodeId) -> (NodeState, Option<Wire>) {
        let delta = self.delta(peer);
        if delta.is_empty() {
            (self, None)
        } else {
            (
                NodeState {
                    in_flight: self.in_flight.insert(peer, (self.msg_id, delta)),
                    ..self
                }.bump(),
                Some(self.gossip_message(peer, delta)),
            )
        }
    }

    /// Gossiping to `peer` alone. It fails for a node that is no neighbour,
    /// and when there is something to send and no identifier left for it.
    pub open spec fn gossip_to(self, peer: NodeId) -> Outcome {
        if !self.known.contains_key(peer) {
            self.fails(StepError::UnknownPeer)
        } else if self.delta(peer).is_empty() {
            self.silent()
        } else if self.msg_id == u64::MAX {
            self.fails(StepError::MsgIdExhausted)
        } else {
            Outcome { next: self.push(peer).0, result: Ok(seq![self.push(peer).1->0]) }
        }
    }

    /// A gossip round as far as the first `k` neighbours: the state reached
    /// and the messages sent, in order.
    pub open spec fn gossip_round(self, k: nat) -> (NodeState, Seq<Wire>)
        decreases k,
    {
        if k == 0 {
            (self, Seq::empty())
        } else {
            let (reached, sent) = self.gossip_round((k - 1) as nat);
            let (next, message) = reached.push(self.neighborhood[k - 1]);
            (
                next,
                match message {
                    Some(m) => sent.push(m),
                    None => sent,
                },
            )
        }
    }

    /// How many of the first `k` neighbours a round has something to send to.
    pub open spec fn pending(self, k: nat) -> nat
        decreases k,
    {
        if k == 0 {
            0
        } else if self.delta(self.neighborhood[k - 1]).is_empty() {
            self.pending((k - 1) as nat)
        } else {
            self.pending((k - 1) as nat) + 1
        }
    }

    /// The timer fires: a full gossip round, or nothing at all if the
    /// counter cannot number every message of it.
    pub open spec fn on_tick(self) -> Outcome {
        if self.msg_id + self.pending(self.neighborhood.len()) > u64::MAX {
            self.fails(StepError::MsgIdExhausted)
        } else {
            let (next, sent) = self.gossip_round(self.neighborhood.len());
            Outcome { next, result: Ok(sent) }
        }
    }

    /// A message arrives.
    pub open spec fn on_message(self, message: Wire) -> Outcome {
        let envelope = message.envelope();
        match message.payload {
            PayloadView::Broadcast { message: value } => self.on_broadcast(envelope, value),
            PayloadView::Read => self.on_read(envelope),
            PayloadView::Topology { topology } => self.on_topology(envelope, topology),
            PayloadView::Gossip { messages } => self.on_gossip(envelope, messages),
            PayloadView::GossipOk { messages } => self.on_gossip_ok(envelope, messages),
            PayloadView::BroadcastOk | PayloadView::ReadOk { .. } | PayloadView::TopologyOk => {
                self.silent()
            },
        }
    }

    /// The node's reaction to one event.
    pub open spec fn step(self, input: Input) -> Outcome {
        match input {
            EventView::Message(message) => self.on_message(message),
            EventView::Injected(InjectedPayload::Gossip) => self.on_tick(),
            EventView::EOF => self.silent(),
        }
    }
}

/// A round cannot have more to send than there are neighbours.
pub proof fn lemma_pending_bounded(s: NodeState, k: nat)
    ensures
        s.pending(k) <= k,
    decreases k,
{
    if k > 0 {
        lemma_pending_bounded(s, (k - 1) as nat);
    }
}

/// The count of neighbours with something to send grows with the prefix.
pub proof fn lemma_pending_monotone(s: NodeState, j: nat, k: nat)
    requires
        j <= k,
    ensures
        s.pending(j) <= s.pending(k),
    decreases k,
{
    if j < k {
        lemma_pending_monotone(s, j, (k - 1) as nat);
    }
}

/// A gossip round touches nothing but the counter and the in-flight
/// records, and uses one identifier for each message it sends.
pub proof fn lemma_round_frame(s: NodeState, k: nat)
    requires
        s.msg_id + s.pending(k) <= u64::MAX,
    ensures
        s.gossip_round(k).0.node == s.node,
        s.gossip_round(k).0.messages == s.messages,
        s.gossip_round(k).0.neighborhood == s.neighborhood,
        s.gossip_round(k).0.known == s.known,
        s.gossip_round(k).0.msg_id == s.msg_id + s.pending(k),
        s.gossip_round(k).1.len() == s.pending(k),
    decreases k,
{
    if k > 0 {
        lemma_round_frame(s, (k - 1) as nat);
    }
}

/// Every step leaves each neighbour with an entry in `known`.
pub proof fn lemma_step_keeps_wf(s: NodeState, input: Input)
    requires
        s.wf(),
    ensures
        s.step(input).next.wf(),
{
    match input {
        EventView::Message(message) => {
            match message.payload {
                PayloadView::Topology { topology } => {
                    if topology.contains_key(s.node) {
                        let neighbors = topology[s.node];
                        assert forall|i: int| 0 <= i < neighbors.len() implies NodeState::nothing_known(
                            neighbors,
                        ).contains_key(#[trigger] neighbors[i]) by {
                            assert(neighbors.contains(neighbors[i]));
                        }
                    }
                },
                _ => {},
            }
        },
        EventView::Injected(InjectedPayload::Gossip) => {
            if s.msg_id + s.pending(s.neighborhood.len()) <= u64::MAX {
                lemma_round_frame(s, s.neighborhood.len());
            }
        },
        EventView::EOF => {},
    }
}

} // verus!
