//! The executable broadcast node.

use super::payload::{node_ids, topology_view, InjectedPayload, Payload};
use super::state::{
    lemma_pending_bounded, lemma_pending_monotone, lemma_round_frame, lemma_step_keeps_wf,
    NodeState, Wire,
};
use crate::node_map::NodeMap;
use crate::protocol::{message_views, Body, Event, Init, Message};
use crate::runtime::{Node, StepError, Timer};
use crate::value_set::{copy, difference, merge};
use std::collections::HashSet;
use vstd::prelude::*;

verus! {

/// One node of the broadcast workload.
pub struct BroadcastNode {
    node: String,
    msg_id: u64,
    messages: HashSet<u64>,
    known: NodeMap<HashSet<u64>>,
    gossip_in_flight: NodeMap<(u64, HashSet<u64>)>,
    neighborhood: Vec<String>,
}

/// A `known` table as a map of mathematical sets.
pub open spec fn known_view(known: Map<Seq<char>, HashSet<u64>>) -> Map<Seq<char>, Set<u64>> {
    known.map_values(|values: HashSet<u64>| values@)
}

/// A table of gossips in flight as a map of mathematical values.
pub open spec fn in_flight_view(in_flight: Map<Seq<char>, (u64, HashSet<u64>)>) -> Map<
    Seq<char>,
    (u64, Set<u64>),
> {
    in_flight.map_values(|record: (u64, HashSet<u64>)| (record.0, record.1@))
}

impl View for BroadcastNode {
    type V = NodeState;

    closed spec fn view(&self) -> NodeState {
        NodeState {
            node: self.node@,
            msg_id: self.msg_id,
            messages: self.messages@,
            neighborhood: node_ids(self.neighborhood@),
            known: known_view(self.known@),
            in_flight: in_flight_view(self.gossip_in_flight@),
        }
    }
}

/// What a step that returned `result` did, in the terms of the state machine.
pub open spec fn result_view(result: Result<Vec<Message<Payload>>, StepError>) -> Result<
    Seq<Wire>,
    StepError,
> {
    match result {
        Ok(sent) => Ok(message_views(sent@)),
        Err(error) => Err(error),
    }
}

/// How often a node starts a gossip round, in milliseconds.
pub const GOSSIP_INTERVAL_MILLIS: u64 = 100;

impl BroadcastNode {
    /// The node's own identifier.
    pub fn node_id(&self) -> (id: &String)
        ensures
            id@ == self@.node,
    {
        &self.node
    }

    /// The identifier that the next message this node originates will carry.
    pub fn msg_id(&self) -> (id: u64)
        ensures
            id == self@.msg_id,
    {
        self.msg_id
    }

    /// Every value the node has accepted.
    pub fn messages(&self) -> (values: &HashSet<u64>)
        ensures
            values@ == self@.messages,
    {
        &self.messages
    }

    /// The neighbours, in the order in which a round gossips to them.
    pub fn neighborhood(&self) -> (neighbors: &Vec<String>)
        ensures
            node_ids(neighbors@) == self@.neighborhood,
    {
        &self.neighborhood
    }

    /// The values that `peer` is known to have, if it is a neighbour.
    pub fn known(&self, peer: &String) -> (values: Option<&HashSet<u64>>)
        ensures
            match values {
                Some(v) => self@.known.contains_key(peer@) && v@ == self@.known[peer@],
                None => !self@.known.contains_key(peer@),
            },
    {
        self.known.get(peer)
    }

    /// The gossip to `peer` that is not acknowledged yet, if there is one:
    /// its identifier and its values.
    pub fn in_flight(&self, peer: &String) -> (record: Option<&(u64, HashSet<u64>)>)
        ensures
            match record {
                Some(r) => self@.in_flight.contains_key(peer@) && (r.0, r.1@)
                    == self@.in_flight[peer@],
                None => !self@.in_flight.contains_key(peer@),
            },
    {
        self.gossip_in_flight.get(peer)
    }

    /// Takes in `values` that `peer` sent: the node has them now, and `peer`
    /// is known to have them.
    fn learn(&mut self, peer: &String, values: &HashSet<u64>)
        requires
            old(self)@.known.contains_key(peer@),
        ensures
            final(self)@ == old(self)@.learn(peer@, values@),
    {
        let mut seen = self.known.remove(peer).unwrap();
        merge(&mut seen, values);
        self.known.insert(peer.clone(), seen);
        merge(&mut self.messages, values);
        proof {
            assert(self@.known =~= old(self)@.learn(peer@, values@).known);
        }
    }

    /// Records that `peer` has acknowledged the gossip in flight to it.
    fn settle(&mut self, peer: &String)
        requires
            old(self)@.known.contains_key(peer@),
            old(self)@.in_flight.contains_key(peer@),
        ensures
            final(self)@ == old(self)@.settle(peer@),
    {
        let record = self.gossip_in_flight.remove(peer).unwrap();
        let mut seen = self.known.remove(peer).unwrap();
        merge(&mut seen, &record.1);
        self.known.insert(peer.clone(), seen);
        proof {
            assert(self@.known =~= old(self)@.settle(peer@).known);
            assert(self@.in_flight =~= old(self)@.settle(peer@).in_flight);
        }
    }

    /// Answers `request` with `payload` under a fresh identifier.
    fn answer(&mut self, request: Message<()>, payload: Payload) -> (sent: Vec<Message<Payload>>)
        requires
            old(self)@.msg_id < u64::MAX,
        ensures
            final(self)@ == old(self)@.bump(),
            message_views(sent@) == seq![request@.reply(Some(old(self)@.msg_id), payload@)],
    {
        let reply = request.into_reply_with(Some(&mut self.msg_id), payload);
        let mut sent: Vec<Message<Payload>> = Vec::new();
        sent.push(reply);
        proof {
            assert(message_views(sent@) =~= seq![
                request@.reply(Some(old(self)@.msg_id), payload@),
            ]);
        }
        sent
    }

    /// Sets the neighbours to those that `topology` lists for this node.
    fn handle_topology(&mut self, request: Message<()>, topology: NodeMap<Vec<String>>) -> (r:
        Result<Vec<Message<Payload>>, StepError>)
        ensures
            final(self)@ == old(self)@.on_topology(request@, topology_view(topology@)).next,
            result_view(r) == old(self)@.on_topology(request@, topology_view(topology@)).result,
    {
        let mut topology = topology;
        let neighbors = match topology.remove(&self.node) {
            Some(neighbors) => neighbors,
            None => {
                return Err(StepError::MissingTopology);
            },
        };
        if self.msg_id == u64::MAX {
            return Err(StepError::MsgIdExhausted);
        }
        let mut known: NodeMap<HashSet<u64>> = NodeMap::new();
        let mut i: usize = 0;
        while i < neighbors.len()
            invariant
                i <= neighbors.len(),
                known_view(known@) == NodeState::nothing_known(node_ids(neighbors@).take(i as int)),
            decreases neighbors.len() - i,
        {
            let ghost known_before = known@;
            let neighbor = neighbors[i].clone();
            let nothing: HashSet<u64> = HashSet::new();
            known.insert(neighbor, nothing);
            proof {
                let before = node_ids(neighbors@).take(i as int);
                let after = node_ids(neighbors@).take(i + 1);
                assert(after =~= before.push(neighbors[i as int]@));
                assert forall|peer: Seq<char>| after.contains(peer) <==> before.contains(peer)
                    || peer == neighbors[i as int]@ by {
                    if before.contains(peer) {
                        let j = choose|j: int| 0 <= j < before.len() && before[j] == peer;
                        assert(after[j] == peer);
                    }
                    if peer == neighbors[i as int]@ {
                        assert(after[i as int] == peer);
                    }
                }
                let got = known_view(known@);
                let want = NodeState::nothing_known(after);
                assert forall|peer: Seq<char>|
                    #![trigger got.dom().contains(peer)]
                    #![trigger want.dom().contains(peer)]
                    got.dom().contains(peer) == want.dom().contains(peer) && (got.dom().contains(
                        peer,
                    ) ==> got[peer] == want[peer]) by {
                    assert(known_view(known_before).dom().contains(peer) == before.contains(peer));
                    if before.contains(peer) && peer != neighbors[i as int]@ {
                        assert(known_view(known_before)[peer] == Set::<u64>::empty());
                    }
                }
                assert(got =~= want);
            }
            i += 1;
        }
        proof {
            assert(node_ids(neighbors@).take(neighbors.len() as int) =~= node_ids(neighbors@));
        }
        self.neighborhood = neighbors;
        self.known = known;
        Ok(self.answer(request, Payload::TopologyOk))
    }

    /// Takes in a neighbour's gossip and answers with what the neighbour is
    /// still not known to have.
    fn handle_gossip(&mut self, request: Message<()>, values: HashSet<u64>) -> (r: Result<
        Vec<Message<Payload>>,
        StepError,
    >)
        ensures
            final(self)@ == old(self)@.on_gossip(request@, values@).next,
            result_view(r) == old(self)@.on_gossip(request@, values@).result,
    {
        if !self.known.contains_key(&request.src) {
            return Err(StepError::UnknownPeer);
        }
        if self.msg_id == u64::MAX {
            return Err(StepError::MsgIdExhausted);
        }
        self.learn(&request.src, &values);
        let delta = match self.known.get(&request.src) {
            Some(seen) => difference(&self.messages, seen),
            None => HashSet::new(),
        };
        proof {
            assert(self@.known.contains_key(request.src@));
            assert(delta@ == self@.delta(request.src@));
        }
        let sent = self.answer(request, Payload::GossipOk { messages: delta });
        proof {
            let want = old(self)@.on_gossip(request@, values@).result->Ok_0;
            assert(message_views(sent@) =~= want);
        }
        Ok(sent)
    }

    /// Takes in a neighbour's acknowledgement: its values always, and the
    /// gossip in flight to it if this is the answer to that one.
    fn handle_gossip_ok(&mut self, ack: Message<()>, values: HashSet<u64>) -> (r: Result<
        Vec<Message<Payload>>,
        StepError,
    >)
        ensures
            final(self)@ == old(self)@.on_gossip_ok(ack@, values@).next,
            result_view(r) == old(self)@.on_gossip_ok(ack@, values@).result,
    {
        if !self.known.contains_key(&ack.src) {
            return Err(StepError::UnknownPeer);
        }
        self.learn(&ack.src, &values);
        let acknowledged = match (self.gossip_in_flight.get(&ack.src), ack.body.in_reply_to) {
            (Some(record), Some(id)) => record.0 == id,
            _ => false,
        };
        if acknowledged {
            self.settle(&ack.src);
        }
        let sent: Vec<Message<Payload>> = Vec::new();
        proof {
            assert(message_views(sent@) =~= Seq::empty());
        }
        Ok(sent)
    }

    /// Gossips to one node: if this node has values that `neighbour` is not
    /// known to have, they are recorded as in flight to it, under a fresh
    /// identifier, and the message that carries them is returned.
    ///
    /// Nothing is sent, and nothing changes, when `neighbour` is known to
    /// have everything. The call fails, and nothing changes, when
    /// `neighbour` has no entry among the known nodes, or when there are
    /// values to send and no identifier is left.
    pub fn gossip_to(&mut self, neighbour: &String) -> (r: Result<
        Option<Message<Payload>>,
        StepError,
    >)
        ensures
            final(self)@ == old(self)@.gossip_to(neighbour@).next,
            match r {
                Ok(Some(message)) => old(self)@.gossip_to(neighbour@).result == Ok::<
                    Seq<Wire>,
                    StepError,
                >(seq![message@]),
                Ok(None) => old(self)@.gossip_to(neighbour@).result == Ok::<Seq<Wire>, StepError>(
                    Seq::empty(),
                ),
                Err(error) => old(self)@.gossip_to(neighbour@).result == Err::<
                    Seq<Wire>,
                    StepError,
                >(error),
            },
    {
        let delta = match self.known.get(neighbour) {
            Some(seen) => difference(&self.messages, seen),
            None => {
                return Err(StepError::UnknownPeer);
            },
        };
        if delta.is_empty() {
            return Ok(None);
        }
        if self.msg_id == u64::MAX {
            return Err(StepError::MsgIdExhausted);
        }
        let msg_id = self.msg_id;
        self.msg_id = msg_id + 1;
        self.gossip_in_flight.insert(neighbour.clone(), (msg_id, copy(&delta)));
        let message = Message {
            src: self.node.clone(),
            dst: neighbour.clone(),
            body: Body { id: Some(msg_id), in_reply_to: None, payload: Payload::Gossip { messages: delta } },
        };
        proof {
            assert(self@.in_flight =~= old(self)@.push(neighbour@).0.in_flight);
            assert(old(self)@.push(neighbour@).1 == Some(message@));
        }
        Ok(Some(message))
    }

    /// Whether the counter has an identifier for every message of a round.
    fn can_number_round(&self) -> (enough: bool)
        requires
            self@.wf(),
        ensures
            enough == (self@.msg_id + self@.pending(self@.neighborhood.len()) <= u64::MAX),
    {
        let room: u64 = u64::MAX - self.msg_id;
        let total: usize = self.neighborhood.len();
        proof {
            lemma_pending_bounded(self@, total as nat);
        }
        if total as u64 <= room {
            return true;
        }
        let mut pending: u64 = 0;
        let mut i: usize = 0;
        while i < total
            invariant
                i <= total,
                total == self.neighborhood.len(),
                room == u64::MAX - self.msg_id,
                self@.wf(),
                pending == self@.pending(i as nat),
                pending <= room,
            decreases total - i,
        {
            let has_news = match self.known.get(&self.neighborhood[i]) {
                Some(seen) => !difference(&self.messages, seen).is_empty(),
                None => false,
            };
            proof {
                assert(self@.neighborhood[i as int] == self.neighborhood[i as int]@);
                assert(self@.known.contains_key(self@.neighborhood[i as int]));
                assert(has_news == !self@.delta(self@.neighborhood[i as int]).is_empty());
            }
            if has_news {
                if pending == room {
                    proof {
                        lemma_pending_monotone(self@, (i + 1) as nat, total as nat);
                    }
                    return false;
                }
                pending = pending + 1;
            }
            i += 1;
        }
        true
    }

    /// One gossip round: [`BroadcastNode::gossip_to`] for every neighbour in
    /// turn. The messages to send are returned in that order.
    ///
    /// The round is all or nothing: when the counter cannot number every
    /// message of it, the call fails and nothing changes.
    pub fn gossip_to_all(&mut self) -> (r: Result<Vec<Message<Payload>>, StepError>)
        requires
            old(self)@.wf(),
        ensures
            final(self)@.wf(),
            final(self)@ == old(self)@.on_tick().next,
            result_view(r) == old(self)@.on_tick().result,
    {
        proof {
            lemma_step_keeps_wf(
                self@,
                crate::protocol::EventView::Injected(InjectedPayload::Gossip),
            );
        }
        if !self.can_number_round() {
            return Err(StepError::MsgIdExhausted);
        }
        let ghost start = self@;
        let total: usize = self.neighborhood.len();
        let mut sent: Vec<Message<Payload>> = Vec::new();
        let mut i: usize = 0;
        proof {
            assert(message_views(sent@) =~= Seq::empty());
        }
        while i < total
            invariant
                i <= total,
                total == self.neighborhood.len(),
                start.wf(),
                start.msg_id + start.pending(total as nat) <= u64::MAX,
                total == start.neighborhood.len(),
                self@ == start.gossip_round(i as nat).0,
                message_views(sent@) == start.gossip_round(i as nat).1,
            decreases total - i,
        {
            proof {
                lemma_pending_monotone(start, i as nat, total as nat);
                lemma_pending_monotone(start, (i + 1) as nat, total as nat);
                lemma_round_frame(start, i as nat);
                lemma_round_frame(start, (i + 1) as nat);
                assert(self@.neighborhood[i as int] == self.neighborhood[i as int]@);
                assert(start.known.contains_key(start.neighborhood[i as int]));
            }
            let neighbour = self.neighborhood[i].clone();
            let ghost views = message_views(sent@);
            let ghost reached = self@;
            let ghost alone = reached.gossip_to(neighbour@).result->Ok_0;
            match self.gossip_to(&neighbour) {
                Ok(Some(message)) => {
                    sent.push(message);
                    proof {
                        assert(alone.len() == 1);
                        assert(alone[0] == message@);
                        assert(reached.push(neighbour@).1 == Some(message@));
                        assert(message_views(sent@) =~= views.push(message@));
                    }
                },
                Ok(None) => {
                    proof {
                        assert(alone.len() == 0);
                        assert(reached.push(neighbour@).1 is None);
                    }
                },
                Err(error) => {
                    proof {
                        assert(false);
                    }
                    return Err(error);
                },
            }
            i += 1;
        }
        Ok(sent)
    }
}

impl Node<(), Payload, InjectedPayload> for BroadcastNode {
    /// Every neighbour has an entry among the known nodes.
    open spec fn wf(&self) -> bool {
        self@.wf()
    }

    /// A node that has accepted nothing and has no neighbours yet. Its first
    /// message will carry `msg_id`.
    fn from_init(_state: (), msg_id: u64, init: Init) -> (node: Self)
        ensures
            node@ == NodeState::initial(init.node_id@, msg_id),
    {
        let node = BroadcastNode {
            node: init.node_id,
            msg_id,
            known: NodeMap::new(),
            messages: HashSet::new(),
            gossip_in_flight: NodeMap::new(),
            neighborhood: Vec::new(),
        };
        proof {
            assert(node@.neighborhood =~= Seq::empty());
            assert(node@.known =~= Map::empty());
            assert(node@.in_flight =~= Map::empty());
        }
        node
    }

    /// One timer, which asks for a gossip round ten times a second.
    fn timers(&self) -> (timers: Vec<Timer<InjectedPayload>>)
        ensures
            timers@ == seq![
                Timer { every_millis: GOSSIP_INTERVAL_MILLIS, event: InjectedPayload::Gossip },
            ],
    {
        let mut timers: Vec<Timer<InjectedPayload>> = Vec::new();
        timers.push(Timer { every_millis: GOSSIP_INTERVAL_MILLIS, event: InjectedPayload::Gossip });
        assert(timers@ =~= seq![
            Timer { every_millis: GOSSIP_INTERVAL_MILLIS, event: InjectedPayload::Gossip },
        ]);
        timers
    }

    /// The node's reaction to one event: the state moves as the protocol
    /// says, and the messages to send are returned in order.
    ///
    /// A step that fails changes nothing.
    fn step(&mut self, input: Event<Payload, InjectedPayload>) -> (r: Result<
        Vec<Message<Payload>>,
        StepError,
    >)
        ensures
            final(self)@ == old(self)@.step(input@).next,
            result_view(r) == old(self)@.step(input@).result,
    {
        proof {
            lemma_step_keeps_wf(self@, input@);
        }
        match input {
            Event::EOF => {
                let sent: Vec<Message<Payload>> = Vec::new();
                proof {
                    assert(message_views(sent@) =~= Seq::empty());
                }
                Ok(sent)
            },
            Event::Injected(InjectedPayload::Gossip) => self.gossip_to_all(),
            Event::Message(message) => {
                let ghost wire = message@;
                let (request, payload) = message.split();
                proof {
                    assert(request@ == wire.envelope());
                }
                match payload {
                    Payload::Broadcast { message } => {
                        if self.msg_id == u64::MAX {
                            return Err(StepError::MsgIdExhausted);
                        }
                        self.messages.insert(message);
                        Ok(self.answer(request, Payload::BroadcastOk))
                    },
                    Payload::Read => {
                        if self.msg_id == u64::MAX {
                            return Err(StepError::MsgIdExhausted);
                        }
                        let messages = copy(&self.messages);
                        Ok(self.answer(request, Payload::ReadOk { messages }))
                    },
                    Payload::Topology { topology } => self.handle_topology(request, topology),
                    Payload::Gossip { messages } => self.handle_gossip(request, messages),
                    Payload::GossipOk { messages } => self.handle_gossip_ok(request, messages),
                    Payload::BroadcastOk | Payload::ReadOk { .. } | Payload::TopologyOk => {
                        let sent: Vec<Message<Payload>> = Vec::new();
                        proof {
                            assert(message_views(sent@) =~= Seq::empty());
                        }
                        Ok(sent)
                    },
                }
            },
        }
    }
}

} // verus!
