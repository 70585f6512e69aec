//! What every node variant shares with the loop that drives it: the
//! handshake, the contract of a node, and the rules of the loop.
//!
//! The loop itself reads and writes, so it lives outside this library. It
//! asks the functions here what to do: [`handshake`] for the first message,
//! [`Node::step`] for every event after it, [`delivery`] for how to treat a
//! failed write, and [`is_last`] for when to stop.

use crate::protocol::{Event, Init, Message};
use vstd::prelude::*;

verus! {

/// Why a node could not take a step. Each of these ends the node: none is a
/// condition to retry.
#[derive(Debug, Clone, Copy, PartialEq, Eq, Structural)]
pub enum StepError {
    /// A topology message had no entry for this node.
    MissingTopology,
    /// A gossip message or acknowledgement came from a node that no topology
    /// message has made a neighbour.
    UnknownPeer,
    /// The step would need more message identifiers than the counter has left.
    MsgIdExhausted,
    /// The node got an event of a kind that it has no use for.
    UnexpectedEvent,
}

/// A producer of injected events that runs beside the node: every
/// `every_millis` milliseconds it puts `event` into the node's event stream.
#[derive(Debug, Clone, Copy, PartialEq, Eq, Structural)]
pub struct Timer<InjectedPayload> {
    pub every_millis: u64,
    pub event: InjectedPayload,
}

/// A node variant: something that is built from the handshake and then
/// reacts to one event at a time.
pub trait Node<S, Payload, InjectedPayload = ()>: Sized {
    /// What holds of the node between any two steps.
    spec fn wf(&self) -> bool;

    /// Builds the node from what the handshake said. The first message that
    /// the node originates will carry `msg_id`.
    fn from_init(state: S, msg_id: u64, init: Init) -> (node: Self)
        ensures
            node.wf(),
    ;

    /// The timers that have to run for as long as the node does.
    fn timers(&self) -> (timers: Vec<Timer<InjectedPayload>>)
        requires
            self.wf(),
    ;

    /// Reacts to one event and returns the messages to send, in order.
    fn step(&mut self, input: Event<Payload, InjectedPayload>) -> (sent: Result<
        Vec<Message<Payload>>,
        StepError,
    >)
        requires
            old(self).wf(),
        ensures
            final(self).wf(),
    ;
}

/// How the loop treats a message that it could not write.
#[derive(Debug, Clone, Copy, PartialEq, Eq, Structural)]
pub enum Delivery {
    /// The failure ends the node.
    Required,
    /// The failure is ignored: the node will try again on its own.
    BestEffort,
}

/// How to treat a failed write of a message that the step on `event` sent.
///
/// What a node sends on an event that it injected itself is sent on its own
/// initiative and will be sent again, so a failure there is ignored. What it
/// sends otherwise answers someone, and a failure there ends the node.
pub fn delivery<Payload, InjectedPayload>(event: &Event<Payload, InjectedPayload>) -> (d: Delivery)
    ensures
        d == (if event is Injected {
            Delivery::BestEffort
        } else {
            Delivery::Required
        }),
{
    match event {
        Event::Injected(_) => Delivery::BestEffort,
        _ => Delivery::Required,
    }
}

/// Whether the loop stops after the step on `event`: it does after the end
/// of the input, which the node still gets to see.
pub fn is_last<Payload, InjectedPayload>(event: &Event<Payload, InjectedPayload>) -> (last: bool)
    ensures
        last == (event is EOF),
{
    match event {
        Event::EOF => true,
        _ => false,
    }
}

/// The payloads of the handshake.
#[derive(Debug, Clone)]
pub enum InitPayload {
    Init(Init),
    InitOk,
}

/// What the handshake yields.
#[derive(Debug)]
pub struct Handshake {
    /// What the first message said of the node and the cluster.
    pub init: Init,
    /// The answer to send before anything else.
    pub reply: Message<InitPayload>,
    /// The identifier that the node's first own message will carry.
    pub msg_id: u64,
}

/// Why the handshake failed.
#[derive(Debug, Clone, Copy, PartialEq, Eq, Structural)]
pub enum HandshakeError {
    /// The first message was not an `init`.
    NotInit,
}

/// Answers the first message of the input.
///
/// The first message has to be an `init`. Its answer is an `init_ok` under
/// identifier 0, so the node's own messages are numbered from 1.
pub fn handshake(first: Message<InitPayload>) -> (r: Result<Handshake, HandshakeError>)
    ensures
        match r {
            Ok(h) => {
                &&& first.body.payload == InitPayload::Init(h.init)
                &&& h.reply.src == first.dst
                &&& h.reply.dst == first.src
                &&& h.reply.body.id == Some(0u64)
                &&& h.reply.body.in_reply_to == first.body.id
                &&& h.reply.body.payload == InitPayload::InitOk
                &&& h.msg_id == 1
            },
            Err(e) => e == HandshakeError::NotInit && first.body.payload == InitPayload::InitOk,
        },
{
    let (request, payload) = first.split();
    match payload {
        InitPayload::Init(init) => {
            let mut msg_id: u64 = 0;
            let reply = request.into_reply_with(Some(&mut msg_id), InitPayload::InitOk);
            Ok(Handshake { init, reply, msg_id })
        },
        InitPayload::InitOk => Err(HandshakeError::NotInit),
    }
}

} // verus!
