//! What holds of a single broadcast node, whatever it is sent.
//!
//! Every statement is about [`NodeState::step`], the function that the
//! executable node is verified against.

use super::payload::{InjectedPayload, PayloadView};
use super::state::{lemma_pending_monotone, lemma_round_frame, Input, NodeId, NodeState, Wire};
use crate::protocol::EventView;
use crate::runtime::StepError;
use vstd::prelude::*;

verus! {

/// The state reached from `s` by the events of `inputs`, taken in order.
pub open spec fn run(s: NodeState, inputs: Seq<Input>) -> NodeState
    decreases inputs.len(),
{
    if inputs.len() == 0 {
        s
    } else {
        run(s, inputs.drop_last()).step(inputs.last()).next
    }
}

/// Nothing that `s` has accepted is missing in `t`, and every neighbour of
/// `s` is known in `t` to have at least what it was known to have in `s`.
pub open spec fn grows(s: NodeState, t: NodeState) -> bool {
    &&& s.messages.subset_of(t.messages)
    &&& forall|peer: NodeId| #[trigger]
        s.known.contains_key(peer) ==> t.known.contains_key(peer) && s.known[peer].subset_of(
            t.known[peer],
        )
}

/// Whether `input` is a topology message that makes `s` forget something:
/// one that the node accepts while a node it knows is not among the new
/// neighbours, or is known to have some value.
pub open spec fn forgets(s: NodeState, input: Input) -> bool {
    &&& input matches EventView::Message(message)
    &&& message.payload matches PayloadView::Topology { topology }
    &&& s.step(input).result is Ok
    &&& exists|peer: NodeId| #[trigger]
        s.known.contains_key(peer) && (!topology[s.node].contains(peer) || !s.known[peer].is_empty())
}

/// Whether `input` is a topology message that lists the node among its own
/// neighbours.
pub open spec fn names_itself(s: NodeState, input: Input) -> bool {
    &&& input matches EventView::Message(message)
    &&& message.payload matches PayloadView::Topology { topology }
    &&& topology.contains_key(s.node)
    &&& topology[s.node].contains(s.node)
}

/// A gossip round, like every other step, leaves the name, the accepted
/// values, the neighbours and what is known of them as they were.
proof fn lemma_tick_frame(s: NodeState)
    ensures
        s.on_tick().next.node == s.node,
        s.on_tick().next.messages == s.messages,
        s.on_tick().next.neighborhood == s.neighborhood,
        s.on_tick().next.known == s.known,
{
    if s.msg_id + s.pending(s.neighborhood.len()) <= u64::MAX {
        lemma_round_frame(s, s.neighborhood.len());
    }
}

/// A step that fails leaves the node as it was.
pub proof fn theorem_failure_changes_nothing(s: NodeState, input: Input)
    requires
        s.step(input).result is Err,
    ensures
        s.step(input).next == s,
{
    match input {
        EventView::Message(message) => {
            match message.payload {
                PayloadView::Gossip { messages } => {},
                PayloadView::GossipOk { messages } => {},
                _ => {},
            }
        },
        EventView::Injected(InjectedPayload::Gossip) => {},
        EventView::EOF => {},
    }
}

/// No step changes the node's name.
pub proof fn theorem_name_is_stable(s: NodeState, input: Input)
    ensures
        s.step(input).next.node == s.node,
{
    match input {
        EventView::Message(message) => {
            match message.payload {
                PayloadView::Gossip { messages } => {},
                PayloadView::GossipOk { messages } => {},
                _ => {},
            }
        },
        EventView::Injected(InjectedPayload::Gossip) => {
            lemma_tick_frame(s);
        },
        EventView::EOF => {},
    }
}

/// Every message that a successful step sends carries an identifier of its
/// own: they are drawn from the counter in the order of sending, and the
/// counter ends just past the last of them.
pub proof fn theorem_identifiers_are_fresh(s: NodeState, input: Input)
    requires
        s.step(input).result is Ok,
    ensures
        s.step(input).next.msg_id == s.msg_id + s.step(input).result->Ok_0.len(),
        forall|i: int|
            0 <= i < s.step(input).result->Ok_0.len() ==> (#[trigger] s.step(
                input,
            ).result->Ok_0[i]).id == Some((s.msg_id + i) as u64),
{
    match input {
        EventView::Message(message) => {
            match message.payload {
                PayloadView::Gossip { messages } => {},
                PayloadView::GossipOk { messages } => {},
                _ => {},
            }
        },
        EventView::Injected(InjectedPayload::Gossip) => {
            lemma_round_identifiers(s, s.neighborhood.len());
        },
        EventView::EOF => {},
    }
}

/// The messages of a gossip round are numbered from the counter upwards.
pub proof fn lemma_round_identifiers(s: NodeState, k: nat)
    requires
        s.msg_id + s.pending(k) <= u64::MAX,
    ensures
        s.gossip_round(k).0.msg_id == s.msg_id + s.gossip_round(k).1.len(),
        s.gossip_round(k).1.len() == s.pending(k),
        forall|i: int|
            0 <= i < s.gossip_round(k).1.len() ==> (#[trigger] s.gossip_round(k).1[i]).id == Some(
                (s.msg_id + i) as u64,
            ),
    decreases k,
{
    lemma_round_frame(s, k);
    if k > 0 {
        lemma_pending_monotone(s, (k - 1) as nat, k);
        lemma_round_identifiers(s, (k - 1) as nat);
        lemma_round_frame(s, (k - 1) as nat);
    }
}

/// Taking in the same gossip a second time changes neither what the node
/// has accepted nor what its neighbours are known to have.
pub proof fn theorem_gossip_is_idempotent(s: NodeState, gossip: Wire)
    requires
        gossip.payload is Gossip,
    ensures
        ({
            let input = EventView::<PayloadView, InjectedPayload>::Message(gossip);
            let once = s.step(input).next;
            let twice = once.step(input).next;
            twice.messages == once.messages && twice.known == once.known
        }),
{
    let input = EventView::<PayloadView, InjectedPayload>::Message(gossip);
    let values = gossip.payload->Gossip_messages;
    let peer = gossip.src;
    let once = s.step(input).next;
    let twice = once.step(input).next;
    if s.step(input).result is Ok && once.step(input).result is Ok {
        assert(once.messages == s.messages.union(values));
        assert(twice.messages == once.messages.union(values));
        assert(once.known[peer] == s.known[peer].union(values));
        assert(twice.known[peer] == once.known[peer].union(values));
        assert(once.known[peer].union(values) =~= once.known[peer]);
    }
    assert(twice.messages =~= once.messages);
    assert(twice.known =~= once.known);
}

/// A step only adds: to what the node has accepted, and to what each
/// neighbour is known to have. The one exception is a topology message that
/// makes the node forget.
pub proof fn theorem_step_grows(s: NodeState, input: Input)
    requires
        !forgets(s, input),
    ensures
        grows(s, s.step(input).next),
{
    let t = s.step(input).next;
    match input {
        EventView::Message(message) => {
            match message.payload {
                PayloadView::Topology { topology } => {
                    if s.step(input).result is Ok {
                        assert forall|peer: NodeId| #[trigger]
                            s.known.contains_key(peer) implies t.known.contains_key(peer)
                            && s.known[peer].subset_of(t.known[peer]) by {
                            assert(topology[s.node].contains(peer) && s.known[peer].is_empty());
                        }
                    }
                },
                _ => {},
            }
        },
        EventView::Injected(InjectedPayload::Gossip) => {
            lemma_tick_frame(s);
        },
        EventView::EOF => {},
    }
}

/// Growth carries over any number of steps.
pub proof fn lemma_grows_transitive(s: NodeState, t: NodeState, u: NodeState)
    requires
        grows(s, t),
        grows(t, u),
    ensures
        grows(s, u),
{
    assert forall|peer: NodeId| #[trigger] s.known.contains_key(peer) implies u.known.contains_key(
        peer,
    ) && s.known[peer].subset_of(u.known[peer]) by {
        assert(t.known.contains_key(peer));
    }
}

/// Over any sequence of events, none of which makes the node forget at the
/// point where it arrives, the node only ever adds to what it has accepted
/// and to what each neighbour is known to have.
pub proof fn theorem_run_grows(s: NodeState, inputs: Seq<Input>)
    requires
        forall|i: int|
            0 <= i < inputs.len() ==> !forgets(run(s, #[trigger] inputs.take(i)), inputs[i]),
    ensures
        grows(s, run(s, inputs)),
    decreases inputs.len(),
{
    if inputs.len() > 0 {
        let earlier = inputs.drop_last();
        assert forall|i: int| 0 <= i < earlier.len() implies !forgets(
            run(s, #[trigger] earlier.take(i)),
            earlier[i],
        ) by {
            assert(earlier.take(i) =~= inputs.take(i));
        }
        theorem_run_grows(s, earlier);
        assert(inputs.take(inputs.len() - 1) =~= earlier);
        theorem_step_grows(run(s, earlier), inputs.last());
        lemma_grows_transitive(s, run(s, earlier), run(s, inputs));
    }
}

/// An acknowledgement that does not answer the gossip in flight to its
/// sender leaves every in-flight record as it is, and its values are taken
/// in all the same.
pub proof fn theorem_stale_ack_is_safe(s: NodeState, ack: Wire)
    requires
        ack.payload is GossipOk,
        s.known.contains_key(ack.src),
        !s.acknowledges(ack.src, ack.in_reply_to),
    ensures
        ({
            let after = s.step(EventView::Message(ack));
            let values = ack.payload->GossipOk_messages;
            &&& after.result == Ok::<Seq<Wire>, StepError>(Seq::empty())
            &&& after.next.in_flight == s.in_flight
            &&& after.next.messages == s.messages.union(values)
            &&& after.next.known == s.known.insert(ack.src, s.known[ack.src].union(values))
            &&& after.next.msg_id == s.msg_id
            &&& after.next.neighborhood == s.neighborhood
        }),
{
}

/// An acknowledgement that answers the gossip in flight to its sender
/// clears the record, and the sender is then known to have what the gossip
/// carried.
pub proof fn theorem_matching_ack_settles(s: NodeState, ack: Wire)
    requires
        ack.payload is GossipOk,
        s.known.contains_key(ack.src),
        s.acknowledges(ack.src, ack.in_reply_to),
    ensures
        ({
            let after = s.step(EventView::Message(ack));
            let values = ack.payload->GossipOk_messages;
            &&& after.result == Ok::<Seq<Wire>, StepError>(Seq::empty())
            &&& after.next.in_flight == s.in_flight.remove(ack.src)
            &&& after.next.messages == s.messages.union(values)
            &&& after.next.known == s.known.insert(
                ack.src,
                s.known[ack.src].union(values).union(s.in_flight[ack.src].1),
            )
        }),
{
    let after = s.step(EventView::Message(ack));
    let values = ack.payload->GossipOk_messages;
    assert(after.next.known =~= s.known.insert(
        ack.src,
        s.known[ack.src].union(values).union(s.in_flight[ack.src].1),
    ));
}

/// A node that is not its own neighbour stays so, unless a topology message
/// lists it among its own neighbours.
pub proof fn theorem_no_self_gossip(s: NodeState, input: Input)
    requires
        !s.neighborhood.contains(s.node),
        !names_itself(s, input),
    ensures
        !s.step(input).next.neighborhood.contains(s.step(input).next.node),
{
    theorem_name_is_stable(s, input);
    match input {
        EventView::Message(message) => {
            match message.payload {
                PayloadView::Gossip { messages } => {},
                PayloadView::GossipOk { messages } => {},
                _ => {},
            }
        },
        EventView::Injected(InjectedPayload::Gossip) => {
            lemma_tick_frame(s);
        },
        EventView::EOF => {},
    }
}

/// A node never gossips to itself as long as no topology message lists it
/// among its own neighbours: in every state it reaches, it is not in its own
/// neighbourhood, and so no gossip round addresses it.
pub proof fn theorem_never_own_neighbor(node: NodeId, msg_id: u64, inputs: Seq<Input>)
    requires
        forall|i: int|
            0 <= i < inputs.len() ==> !names_itself(
                run(NodeState::initial(node, msg_id), #[trigger] inputs.take(i)),
                inputs[i],
            ),
    ensures
        !run(NodeState::initial(node, msg_id), inputs).neighborhood.contains(
            run(NodeState::initial(node, msg_id), inputs).node,
        ),
    decreases inputs.len(),
{
    let start = NodeState::initial(node, msg_id);
    if inputs.len() > 0 {
        let earlier = inputs.drop_last();
        assert forall|i: int| 0 <= i < earlier.len() implies !names_itself(
            run(start, #[trigger] earlier.take(i)),
            earlier[i],
        ) by {
            assert(earlier.take(i) =~= inputs.take(i));
        }
        theorem_never_own_neighbor(node, msg_id, earlier);
        assert(inputs.take(inputs.len() - 1) =~= earlier);
        theorem_no_self_gossip(run(start, earlier), inputs.last());
    }
}

} // verus!
