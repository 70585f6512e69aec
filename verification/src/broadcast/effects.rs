//! What one step of a node can and cannot do, stated once for every kind of
//! event. The proofs about a whole cluster rest on these statements and
//! never look into the single transitions again.

use super::payload::{InjectedPayload, PayloadView};
use super::state::{lemma_pending_monotone, lemma_round_frame, Input, NodeId, NodeState, Wire};
use crate::protocol::{EventView, MessageView};
use vstd::prelude::*;

verus! {

/// The values that a message carries from one node to another.
pub open spec fn carried(message: Wire) -> Set<u64> {
    match message.payload {
        PayloadView::Gossip { messages } => messages,
        PayloadView::GossipOk { messages } => messages,
        _ => Set::empty(),
    }
}

/// The messages that a step on `input` sends from state `s`.
pub open spec fn outbox(s: NodeState, input: Input) -> Seq<Wire> {
    match s.step(input).result {
        Ok(sent) => sent,
        Err(_) => Seq::empty(),
    }
}

/// The gossip that carries `values` from `src` to `dst` under `id`.
pub open spec fn gossip_wire(src: NodeId, dst: NodeId, id: u64, values: Set<u64>) -> Wire {
    MessageView {
        src,
        dst,
        id: Some(id),
        in_reply_to: None,
        payload: PayloadView::Gossip { messages: values },
    }
}

/// Whether `input` is a topology message.
pub open spec fn is_topology(input: Input) -> bool {
    input matches EventView::Message(message) && message.payload is Topology
}

/// The values that a step on `input` can add to what a node has accepted.
pub open spec fn offered(input: Input) -> Set<u64> {
    match input {
        EventView::Message(message) => match message.payload {
            PayloadView::Broadcast { message: value } => set![value],
            _ => carried(message),
        },
        _ => Set::empty(),
    }
}

/// Whether message `i` of those that a gossip round sent is addressed to `peer`.
pub open spec fn addressed(sent: Seq<Wire>, i: int, peer: NodeId) -> bool {
    0 <= i < sent.len() && sent[i].dst == peer
}

/// What a gossip round as far as the first `k` neighbours has sent: each
/// message is a gossip from the node, carries exactly what the node has and
/// its addressee is not known to have, and every neighbour among the first
/// `k` for whom there is such a value is the addressee of one.
pub proof fn lemma_round_sends(s: NodeState, k: nat)
    requires
        k <= s.neighborhood.len(),
        s.msg_id + s.pending(k) <= u64::MAX,
    ensures
        forall|i: int|
            0 <= i < s.gossip_round(k).1.len() ==> (#[trigger] s.gossip_round(k).1[i])
                == gossip_wire(
                s.node,
                s.gossip_round(k).1[i].dst,
                (s.msg_id + i) as u64,
                s.delta(s.gossip_round(k).1[i].dst),
            ) && !s.delta(s.gossip_round(k).1[i].dst).is_empty(),
        forall|j: int|
            0 <= j < k && !s.delta(#[trigger] s.neighborhood[j]).is_empty() ==> exists|i: int|
                addressed(s.gossip_round(k).1, i, s.neighborhood[j]),
    decreases k,
{
    lemma_round_frame(s, k);
    if k > 0 {
        let before = (k - 1) as nat;
        lemma_pending_monotone(s, before, k);
        lemma_round_sends(s, before);
        lemma_round_frame(s, before);
        let (reached, sent) = s.gossip_round(before);
        let peer = s.neighborhood[k - 1];
        let now = s.gossip_round(k).1;
        assert(reached.delta(peer) == s.delta(peer));
        assert forall|j: int|
            0 <= j < k && !s.delta(#[trigger] s.neighborhood[j]).is_empty() implies exists|i: int|
            addressed(now, i, s.neighborhood[j]) by {
            if j < k - 1 {
                let i = choose|i: int| addressed(sent, i, s.neighborhood[j]);
                assert(addressed(now, i, s.neighborhood[j]));
            } else {
                assert(addressed(now, sent.len() as int, s.neighborhood[j]));
            }
        }
    }
}

/// Whether message `i` of `sent` is the gossip that the in-flight record
/// `record` of `peer` describes.
pub open spec fn records(sent: Seq<Wire>, i: int, node: NodeId, peer: NodeId, record: (u64, Set<u64>)) -> bool {
    0 <= i < sent.len() && sent[i] == gossip_wire(node, peer, record.0, record.1)
}

/// After a gossip round, every in-flight record is either as it was or
/// describes a message that the round has sent.
pub proof fn lemma_round_records(s: NodeState, k: nat)
    requires
        k <= s.neighborhood.len(),
        s.msg_id + s.pending(k) <= u64::MAX,
    ensures
        forall|peer: NodeId| #[trigger]
            s.gossip_round(k).0.in_flight.contains_key(peer) ==> (s.in_flight.contains_key(peer)
                && s.gossip_round(k).0.in_flight[peer] == s.in_flight[peer]) || exists|i: int|
                records(
                    s.gossip_round(k).1,
                    i,
                    s.node,
                    peer,
                    s.gossip_round(k).0.in_flight[peer],
                ),
    decreases k,
{
    lemma_round_frame(s, k);
    if k > 0 {
        let before = (k - 1) as nat;
        lemma_pending_monotone(s, before, k);
        lemma_round_records(s, before);
        lemma_round_frame(s, before);
        let (reached, sent) = s.gossip_round(before);
        let target = s.neighborhood[k - 1];
        let (next, now) = s.gossip_round(k);
        assert(reached.delta(target) == s.delta(target));
        assert forall|peer: NodeId| #[trigger] next.in_flight.contains_key(peer) implies (
        s.in_flight.contains_key(peer) && next.in_flight[peer] == s.in_flight[peer]) || exists|
            i: int,
        | records(now, i, s.node, peer, next.in_flight[peer]) by {
            if peer == target && !s.delta(target).is_empty() {
                assert(records(now, sent.len() as int, s.node, peer, next.in_flight[peer]));
            } else {
                assert(reached.in_flight.contains_key(peer));
                assert(next.in_flight[peer] == reached.in_flight[peer]);
                if !(s.in_flight.contains_key(peer) && reached.in_flight[peer]
                    == s.in_flight[peer]) {
                    let i = choose|i: int|
                        records(sent, i, s.node, peer, reached.in_flight[peer]);
                    assert(records(now, i, s.node, peer, next.in_flight[peer]));
                }
            }
        }
    }
}

/// The name under which a step on `input` sends: a reply leaves under the
/// name that the request was addressed to, a gossip under the node's own.
pub open spec fn sender(s: NodeState, input: Input) -> NodeId {
    match input {
        EventView::Message(message) => message.dst,
        _ => s.node,
    }
}

/// Whether a node sends payloads of this kind. It sends answers and gossip,
/// never a request of a client's or a topology.
pub open spec fn sent_by_nodes(payload: PayloadView) -> bool {
    payload is BroadcastOk || payload is ReadOk || payload is TopologyOk || payload is Gossip
        || payload is GossipOk
}

/// What a step on `input` can add to what `peer` is known to have: what
/// `peer` itself sent, and what was in flight to it if this acknowledges it.
pub open spec fn credited(s: NodeState, input: Input, peer: NodeId) -> Set<u64> {
    match input {
        EventView::Message(message) => if message.src == peer {
            if message.payload is GossipOk && s.acknowledges(peer, message.in_reply_to) {
                carried(message).union(s.in_flight[peer].1)
            } else {
                carried(message)
            }
        } else {
            Set::empty()
        },
        _ => Set::empty(),
    }
}

/// No step but a topology message changes the name, the neighbours, or who
/// is known at all; the accepted values only grow, by no more than the
/// event offers; and the counter never goes back.
pub proof fn lemma_step_frame(s: NodeState, input: Input)
    requires
        !is_topology(input),
    ensures
        s.step(input).next.node == s.node,
        s.step(input).next.neighborhood == s.neighborhood,
        s.step(input).next.known.dom() == s.known.dom(),
        s.messages.subset_of(s.step(input).next.messages),
        s.step(input).next.messages.subset_of(s.messages.union(offered(input))),
        s.msg_id <= s.step(input).next.msg_id,
        s.step(input).next.msg_id == s.msg_id + outbox(s, input).len(),
{
    let next = s.step(input).next;
    match input {
        EventView::Message(message) => {
            match message.payload {
                PayloadView::Gossip { messages } => {
                    assert(next.known.dom() =~= s.known.dom());
                },
                PayloadView::GossipOk { messages } => {
                    assert(next.known.dom() =~= s.known.dom());
                },
                _ => {},
            }
        },
        EventView::Injected(InjectedPayload::Gossip) => {
            if s.msg_id + s.pending(s.neighborhood.len()) <= u64::MAX {
                lemma_round_frame(s, s.neighborhood.len());
            }
        },
        EventView::EOF => {},
    }
}

/// Every message that a step sends leaves under the sender's name and an
/// identifier of its own, is of a kind that nodes send, and carries only
/// values that the node has accepted by then.
pub proof fn lemma_step_outbox(s: NodeState, input: Input)
    ensures
        forall|i: int|
            0 <= i < outbox(s, input).len() ==> {
                let m = #[trigger] outbox(s, input)[i];
                &&& m.id == Some((s.msg_id + i) as u64)
                &&& s.msg_id + i < s.step(input).next.msg_id
                &&& m.src == sender(s, input)
                &&& sent_by_nodes(m.payload)
                &&& carried(m).subset_of(s.step(input).next.messages)
            },
{
    match input {
        EventView::Message(message) => {
            match message.payload {
                PayloadView::Gossip { messages } => {},
                PayloadView::GossipOk { messages } => {},
                _ => {},
            }
        },
        EventView::Injected(InjectedPayload::Gossip) => {
            if s.msg_id + s.pending(s.neighborhood.len()) <= u64::MAX {
                lemma_round_frame(s, s.neighborhood.len());
                lemma_round_sends(s, s.neighborhood.len());
            }
        },
        EventView::EOF => {},
    }
}

/// What a neighbour is known to have grows by no more than what the event
/// credits it with.
pub proof fn lemma_step_known(s: NodeState, input: Input, peer: NodeId)
    requires
        !is_topology(input),
        s.known.contains_key(peer),
    ensures
        s.step(input).next.known.contains_key(peer),
        s.known[peer].subset_of(s.step(input).next.known[peer]),
        s.step(input).next.known[peer].subset_of(s.known[peer].union(credited(s, input, peer))),
{
    match input {
        EventView::Message(message) => {
            match message.payload {
                PayloadView::Gossip { messages } => {},
                PayloadView::GossipOk { messages } => {},
                _ => {},
            }
        },
        EventView::Injected(InjectedPayload::Gossip) => {
            if s.msg_id + s.pending(s.neighborhood.len()) <= u64::MAX {
                lemma_round_frame(s, s.neighborhood.len());
            }
        },
        EventView::EOF => {},
    }
}

/// After a step, every in-flight record is either as it was or describes a
/// message that the step has sent.
pub proof fn lemma_step_records(s: NodeState, input: Input, peer: NodeId)
    requires
        s.step(input).next.in_flight.contains_key(peer),
    ensures
        (s.in_flight.contains_key(peer) && s.step(input).next.in_flight[peer] == s.in_flight[peer])
            || exists|i: int|
            records(outbox(s, input), i, s.node, peer, s.step(input).next.in_flight[peer]),
{
    match input {
        EventView::Message(message) => {
            match message.payload {
                PayloadView::Gossip { messages } => {},
                PayloadView::GossipOk { messages } => {},
                _ => {},
            }
        },
        EventView::Injected(InjectedPayload::Gossip) => {
            if s.msg_id + s.pending(s.neighborhood.len()) <= u64::MAX {
                lemma_round_records(s, s.neighborhood.len());
                let (next, sent) = s.gossip_round(s.neighborhood.len());
                assert(s.step(input).next == next);
                assert(outbox(s, input) == sent);
            }
        },
        EventView::EOF => {},
    }
}

/// An acknowledgement is sent only in answer to a gossip from a known
/// node, to that node and in reply to that gossip's identifier, and once
/// the node has accepted what the gossip carried.
pub proof fn lemma_step_acks(s: NodeState, input: Input)
    ensures
        forall|i: int|
            0 <= i < outbox(s, input).len() && (#[trigger] outbox(s, input)[i]).payload
                is GossipOk ==> {
                &&& input matches EventView::Message(gossip)
                &&& gossip.payload is Gossip
                &&& s.known.contains_key(gossip.src)
                &&& outbox(s, input)[i].dst == gossip.src
                &&& outbox(s, input)[i].in_reply_to == gossip.id
                &&& carried(gossip).subset_of(s.step(input).next.messages)
            },
{
    match input {
        EventView::Message(message) => {
            match message.payload {
                PayloadView::Gossip { messages } => {},
                PayloadView::GossipOk { messages } => {},
                _ => {},
            }
        },
        EventView::Injected(InjectedPayload::Gossip) => {
            if s.msg_id + s.pending(s.neighborhood.len()) <= u64::MAX {
                lemma_round_sends(s, s.neighborhood.len());
            }
        },
        EventView::EOF => {},
    }
}

} // verus!
