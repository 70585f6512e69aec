//! The message protocol: the envelope that every node variant exchanges,
//! the events a node reacts to, and the construction of replies.

use vstd::prelude::*;

verus! {

/// What a message carries besides its addresses.
#[derive(Debug, Clone)]
pub struct Body<Payload> {
    /// Identifier given by the sender; present on messages that expect a reply.
    pub id: Option<u64>,
    /// The identifier of the message that this one answers.
    pub in_reply_to: Option<u64>,
    pub payload: Payload,
}

/// One message between two nodes, or between a client and a node.
#[derive(Debug, Clone)]
pub struct Message<Payload> {
    pub src: String,
    pub dst: String,
    pub body: Body<Payload>,
}

/// What the handshake tells a node about itself and the cluster.
#[derive(Debug, Clone)]
pub struct Init {
    pub node_id: String,
    pub node_ids: Vec<String>,
}

/// One item of the merged stream that a node consumes.
#[derive(Debug, Clone)]
pub enum Event<Payload, InjectedPayload = ()> {
    /// A message that arrived on the input stream.
    Message(Message<Payload>),
    /// An event that a background producer of the node itself emitted.
    Injected(InjectedPayload),
    /// The input stream has ended; nothing follows.
    EOF,
}

/// A message as a mathematical value: identifiers as character sequences,
/// the payload as its own view.
#[verifier::ext_equal]
pub struct MessageView<P> {
    pub src: Seq<char>,
    pub dst: Seq<char>,
    pub id: Option<u64>,
    pub in_reply_to: Option<u64>,
    pub payload: P,
}

/// An event as a mathematical value.
#[verifier::ext_equal]
pub enum EventView<P, I> {
    Message(MessageView<P>),
    Injected(I),
    EOF,
}

impl<Payload: View> View for Message<Payload> {
    type V = MessageView<Payload::V>;

    open spec fn view(&self) -> MessageView<Payload::V> {
        MessageView {
            src: self.src@,
            dst: self.dst@,
            id: self.body.id,
            in_reply_to: self.body.in_reply_to,
            payload: self.body.payload@,
        }
    }
}

impl<Payload: View, InjectedPayload> View for Event<Payload, InjectedPayload> {
    type V = EventView<Payload::V, InjectedPayload>;

    open spec fn view(&self) -> EventView<Payload::V, InjectedPayload> {
        match self {
            Event::Message(m) => EventView::Message(m@),
            Event::Injected(i) => EventView::Injected(*i),
            Event::EOF => EventView::EOF,
        }
    }
}

/// A message without its payload.
pub type Envelope = MessageView<()>;

impl<P> MessageView<P> {
    /// The message without its payload.
    pub open spec fn envelope(self) -> Envelope {
        MessageView {
            src: self.src,
            dst: self.dst,
            id: self.id,
            in_reply_to: self.in_reply_to,
            payload: (),
        }
    }

    /// The answer to `self`: addresses swapped, `in_reply_to` set to the
    /// identifier of `self`, and the given identifier and payload.
    pub open spec fn reply<Q>(self, id: Option<u64>, payload: Q) -> MessageView<Q> {
        MessageView { src: self.dst, dst: self.src, id, in_reply_to: self.id, payload }
    }
}

/// The views of the messages of a list, in order.
pub open spec fn message_views<Payload: View>(messages: Seq<Message<Payload>>) -> Seq<
    MessageView<Payload::V>,
> {
    messages.map_values(|m: Message<Payload>| m@)
}

/// Draws a fresh identifier from `counter`, if one was supplied.
///
/// The counter is advanced exactly once when it is supplied, and nothing is
/// touched when it is not.
pub fn next_id(counter: Option<&mut u64>) -> (id: Option<u64>)
    requires
        counter matches Some(c) ==> *c < u64::MAX,
    ensures
        match counter {
            Some(c) => id == Some(*c) && *final(c) == *c + 1,
            None => id is None,
        },
{
    match counter {
        Some(c) => {
            let id: u64 = *c;
            *c = id + 1;
            Some(id)
        },
        None => None,
    }
}

impl<Payload> Message<Payload> {
    /// Parts the payload from the envelope.
    pub fn split(self) -> (parts: (Message<()>, Payload))
        ensures
            parts.0.src == self.src,
            parts.0.dst == self.dst,
            parts.0.body.id == self.body.id,
            parts.0.body.in_reply_to == self.body.in_reply_to,
            parts.1 == self.body.payload,
    {
        (
            Message {
                src: self.src,
                dst: self.dst,
                body: Body { id: self.body.id, in_reply_to: self.body.in_reply_to, payload: () },
            },
            self.body.payload,
        )
    }

    /// Turns an inbound message into the reply to it, keeping the payload.
    ///
    /// Source and destination are swapped and `in_reply_to` is the inbound
    /// identifier. The reply's own identifier is drawn from `id` when a
    /// counter is supplied, which advances the counter by one; without a
    /// counter the reply has no identifier.
    pub fn into_reply(self, id: Option<&mut u64>) -> (reply: Message<Payload>)
        requires
            id matches Some(c) ==> *c < u64::MAX,
        ensures
            reply.src == self.dst,
            reply.dst == self.src,
            reply.body.in_reply_to == self.body.id,
            reply.body.payload == self.body.payload,
            match id {
                Some(c) => reply.body.id == Some(*c) && *final(c) == *c + 1,
                None => reply.body.id is None,
            },
    {
        Message {
            src: self.dst,
            dst: self.src,
            body: Body { id: next_id(id), in_reply_to: self.body.id, payload: self.body.payload },
        }
    }

    /// Turns an inbound message into the reply to it that carries `payload`.
    ///
    /// As [`Message::into_reply`], but for the payload.
    pub fn into_reply_with<Reply>(self, id: Option<&mut u64>, payload: Reply) -> (reply: Message<
        Reply,
    >)
        requires
            id matches Some(c) ==> *c < u64::MAX,
        ensures
            reply.src == self.dst,
            reply.dst == self.src,
            reply.body.in_reply_to == self.body.id,
            reply.body.payload == payload,
            match id {
                Some(c) => reply.body.id == Some(*c) && *final(c) == *c + 1,
                None => reply.body.id is None,
            },
    {
        Message {
            src: self.dst,
            dst: self.src,
            body: Body { id: next_id(id), in_reply_to: self.body.id, payload },
        }
    }
}

} // verus!
