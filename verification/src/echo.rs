//! The echo workload: every `echo` is answered with an `echo_ok` that
//! carries the same text.

use crate::protocol::{message_views, Event, Init, Message, MessageView};
use crate::runtime::{Node, StepError, Timer};
use vstd::prelude::*;

verus! {

/// What a message of the echo workload says.
#[derive(Debug, Clone)]
pub enum Payload {
    Echo { echo: String },
    EchoOk { echo: String },
}

/// A payload as a mathematical value.
#[verifier::ext_equal]
pub enum PayloadView {
    Echo { echo: Seq<char> },
    EchoOk { echo: Seq<char> },
}

impl View for Payload {
    type V = PayloadView;

    open spec fn view(&self) -> PayloadView {
        match self {
            Payload::Echo { echo } => PayloadView::Echo { echo: echo@ },
            Payload::EchoOk { echo } => PayloadView::EchoOk { echo: echo@ },
        }
    }
}

/// A node of the echo workload. All it holds is its message counter.
pub struct EchoNode {
    msg_id: u64,
}

impl View for EchoNode {
    type V = u64;

    closed spec fn view(&self) -> u64 {
        self.msg_id
    }
}

/// What a step on `input` sends when the counter stands at `msg_id`, or why
/// it fails.
///
/// Only a message is of use to this node. Every message takes an identifier
/// from the counter; an `echo` is answered under it, an `echo_ok` is not
/// answered.
pub open spec fn echo_step(msg_id: u64, input: crate::protocol::EventView<PayloadView, ()>) -> Result<
    Seq<MessageView<PayloadView>>,
    StepError,
> {
    match input {
        crate::protocol::EventView::Message(message) => {
            if msg_id == u64::MAX {
                Err(StepError::MsgIdExhausted)
            } else {
                match message.payload {
                    PayloadView::Echo { echo } => Ok(
                        seq![message.reply(Some(msg_id), PayloadView::EchoOk { echo })],
                    ),
                    PayloadView::EchoOk { .. } => Ok(Seq::empty()),
                }
            }
        },
        _ => Err(StepError::UnexpectedEvent),
    }
}

impl EchoNode {
    /// The identifier that the next message this node originates will carry.
    pub fn msg_id(&self) -> (id: u64)
        ensures
            id == self@,
    {
        self.msg_id
    }
}

impl Node<(), Payload> for EchoNode {
    open spec fn wf(&self) -> bool {
        true
    }

    /// A node whose first message will carry `msg_id`.
    fn from_init(_state: (), msg_id: u64, _init: Init) -> (node: Self)
        ensures
            node@ == msg_id,
    {
        EchoNode { msg_id }
    }

    /// This node needs no timer.
    fn timers(&self) -> (timers: Vec<Timer<()>>)
        ensures
            timers@.len() == 0,
    {
        Vec::new()
    }

    /// Answers an `echo`, takes note of an `echo_ok`, and fails on anything
    /// that is not a message. A step that fails changes nothing.
    fn step(&mut self, input: Event<Payload, ()>) -> (r: Result<Vec<Message<Payload>>, StepError>)
        ensures
            match r {
                Ok(sent) => echo_step(old(self)@, input@) == Ok::<
                    Seq<MessageView<PayloadView>>,
                    StepError,
                >(message_views(sent@)) && final(self)@ == old(self)@ + 1,
                Err(error) => echo_step(old(self)@, input@) == Err::<
                    Seq<MessageView<PayloadView>>,
                    StepError,
                >(error) && final(self)@ == old(self)@,
            },
    {
        let message = match input {
            Event::Message(message) => message,
            _ => {
                return Err(StepError::UnexpectedEvent);
            },
        };
        if self.msg_id == u64::MAX {
            return Err(StepError::MsgIdExhausted);
        }
        let ghost wire = message@;
        let reply = message.into_reply(Some(&mut self.msg_id));
        let Message { src, dst, body } = reply;
        let mut sent: Vec<Message<Payload>> = Vec::new();
        match body.payload {
            Payload::Echo { echo } => {
                let ghost text = echo@;
                sent.push(
                    Message {
                        src,
                        dst,
                        body: crate::protocol::Body {
                            id: body.id,
                            in_reply_to: body.in_reply_to,
                            payload: Payload::EchoOk { echo },
                        },
                    },
                );
                proof {
                    assert(message_views(sent@) =~= seq![
                        wire.reply(Some(old(self)@), PayloadView::EchoOk { echo: text }),
                    ]);
                }
            },
            Payload::EchoOk { .. } => {
                proof {
                    assert(message_views(sent@) =~= Seq::empty());
                }
            },
        }
        Ok(sent)
    }
}

} // verus!
