//! The unique-identifier workload: every `generate` is answered with an
//! identifier that no other answer in the cluster carries.
//!
//! An identifier is the node's name, a hyphen, and the node's message
//! counter in decimal. Names differ between nodes and the counter never
//! repeats, so no two identifiers are the same.

use crate::protocol::{message_views, Body, Event, EventView, Init, Message, MessageView};
use crate::runtime::{Node, StepError, Timer};
use vstd::prelude::*;
use vstd::string::StringExecFns;

verus! {

/// What a message of the unique-identifier workload says.
#[derive(Debug, Clone)]
pub enum Payload {
    Generate,
    GenerateOk { guid: String },
}

/// A payload as a mathematical value.
#[verifier::ext_equal]
pub enum PayloadView {
    Generate,
    GenerateOk { guid: Seq<char> },
}

impl View for Payload {
    type V = PayloadView;

    open spec fn view(&self) -> PayloadView {
        match self {
            Payload::Generate => PayloadView::Generate,
            Payload::GenerateOk { guid } => PayloadView::GenerateOk { guid: guid@ },
        }
    }
}

/// The character that stands for a digit below ten.
pub open spec fn digit(d: nat) -> char {
    if d == 0 {
        '0'
    } else if d == 1 {
        '1'
    } else if d == 2 {
        '2'
    } else if d == 3 {
        '3'
    } else if d == 4 {
        '4'
    } else if d == 5 {
        '5'
    } else if d == 6 {
        '6'
    } else if d == 7 {
        '7'
    } else if d == 8 {
        '8'
    } else {
        '9'
    }
}

/// A number in decimal, without leading zeros.
pub open spec fn decimal(n: nat) -> Seq<char>
    decreases n,
{
    if n < 10 {
        seq![digit(n)]
    } else {
        decimal(n / 10).push(digit(n % 10))
    }
}

/// The identifier that the node named `node` hands out when its counter
/// stands at `msg_id`.
pub open spec fn guid(node: Seq<char>, msg_id: u64) -> Seq<char> {
    node + seq!['-'] + decimal(msg_id as nat)
}

/// Whether `c` is one of the ten digits.
pub open spec fn is_digit(c: char) -> bool {
    c == '0' || c == '1' || c == '2' || c == '3' || c == '4' || c == '5' || c == '6' || c == '7'
        || c == '8' || c == '9'
}

/// A number in decimal is one digit or more, and digits only.
pub proof fn lemma_decimal_digits(n: nat)
    ensures
        decimal(n).len() >= 1,
        n >= 10 ==> decimal(n).len() >= 2,
        forall|i: int| 0 <= i < decimal(n).len() ==> is_digit(#[trigger] decimal(n)[i]),
    decreases n,
{
    if n >= 10 {
        lemma_decimal_digits(n / 10);
    }
}

/// Different digits have different characters.
proof fn lemma_digit_injective(a: nat, b: nat)
    requires
        a < 10,
        b < 10,
        digit(a) == digit(b),
    ensures
        a == b,
{
}

/// Different numbers are different in decimal.
pub proof fn lemma_decimal_injective(a: nat, b: nat)
    requires
        decimal(a) == decimal(b),
    ensures
        a == b,
    decreases a,
{
    lemma_decimal_digits(a);
    lemma_decimal_digits(b);
    if a < 10 || b < 10 {
        assert(decimal(a).len() == decimal(b).len());
        assert(a < 10 && b < 10);
        assert(decimal(a)[0] == digit(a));
        assert(decimal(b)[0] == digit(b));
        lemma_digit_injective(a, b);
    } else {
        let x = decimal(a / 10);
        let y = decimal(b / 10);
        assert(decimal(a).last() == digit(a % 10));
        assert(decimal(b).last() == digit(b % 10));
        assert(decimal(a).drop_last() =~= x);
        assert(decimal(b).drop_last() =~= y);
        lemma_decimal_injective(a / 10, b / 10);
        lemma_digit_injective(a % 10, b % 10);
        assert(a == 10 * (a / 10) + a % 10);
        assert(b == 10 * (b / 10) + b % 10);
    }
}

/// No two identifiers are the same: an identifier determines the node that
/// handed it out and the state of that node's counter. Names differ between
/// nodes and a counter never repeats, so every `generate` in a cluster gets
/// an identifier of its own.
pub proof fn theorem_guids_are_unique(node: Seq<char>, msg_id: u64, other: Seq<char>, other_id: u64)
    requires
        guid(node, msg_id) == guid(other, other_id),
    ensures
        node == other,
        msg_id == other_id,
{
    let id = guid(node, msg_id);
    let digits = decimal(msg_id as nat);
    let other_digits = decimal(other_id as nat);
    lemma_decimal_digits(msg_id as nat);
    lemma_decimal_digits(other_id as nat);
    assert(id.len() == node.len() + 1 + digits.len());
    assert(id.len() == other.len() + 1 + other_digits.len());
    if node.len() < other.len() {
        let i = other.len() as int;
        assert(guid(other, other_id)[i] == '-');
        assert(id[i] == digits[i - node.len() - 1]);
        assert(is_digit(digits[i - node.len() - 1]));
        assert(false);
    }
    if other.len() < node.len() {
        let i = node.len() as int;
        assert(id[i] == '-');
        assert(guid(other, other_id)[i] == other_digits[i - other.len() - 1]);
        assert(is_digit(other_digits[i - other.len() - 1]));
        assert(false);
    }
    assert(node =~= other) by {
        assert forall|i: int| 0 <= i < node.len() implies node[i] == other[i] by {
            assert(id[i] == node[i]);
            assert(guid(other, other_id)[i] == other[i]);
        }
    }
    assert(digits =~= other_digits) by {
        assert forall|i: int| 0 <= i < digits.len() implies digits[i] == other_digits[i] by {
            assert(id[node.len() + 1 + i] == digits[i]);
            assert(guid(other, other_id)[other.len() + 1 + i] == other_digits[i]);
        }
    }
    lemma_decimal_injective(msg_id as nat, other_id as nat);
}

/// The text of one digit.
fn digit_text(d: u64) -> (text: &'static str)
    requires
        d < 10,
    ensures
        text@ == seq![digit(d as nat)],
{
    proof {
        reveal_strlit("0");
        reveal_strlit("1");
        reveal_strlit("2");
        reveal_strlit("3");
        reveal_strlit("4");
        reveal_strlit("5");
        reveal_strlit("6");
        reveal_strlit("7");
        reveal_strlit("8");
        reveal_strlit("9");
    }
    let text = if d == 0 {
        "0"
    } else if d == 1 {
        "1"
    } else if d == 2 {
        "2"
    } else if d == 3 {
        "3"
    } else if d == 4 {
        "4"
    } else if d == 5 {
        "5"
    } else if d == 6 {
        "6"
    } else if d == 7 {
        "7"
    } else if d == 8 {
        "8"
    } else {
        "9"
    };
    assert(text@ =~= seq![digit(d as nat)]);
    text
}

/// Appends `n` in decimal to `text`.
fn push_decimal(text: &mut String, n: u64)
    ensures
        final(text)@ == old(text)@ + decimal(n as nat),
    decreases n,
{
    if n >= 10 {
        push_decimal(text, n / 10);
        text.append(digit_text(n % 10));
        assert(text@ =~= old(text)@ + decimal(n as nat));
    } else {
        text.append(digit_text(n));
    }
}

/// The identifier that the node named `node` hands out when its counter
/// stands at `msg_id`.
pub fn make_guid(node: &String, msg_id: u64) -> (id: String)
    ensures
        id@ == guid(node@, msg_id),
{
    proof {
        reveal_strlit("-");
    }
    let mut id = node.clone();
    id.append("-");
    push_decimal(&mut id, msg_id);
    assert(id@ =~= guid(node@, msg_id));
    id
}

/// A node of the unique-identifier workload.
pub struct UniqueNode {
    node: String,
    msg_id: u64,
}

/// The state of a node of this workload.
pub struct UniqueState {
    pub node: Seq<char>,
    pub msg_id: u64,
}

impl View for UniqueNode {
    type V = UniqueState;

    closed spec fn view(&self) -> UniqueState {
        UniqueState { node: self.node@, msg_id: self.msg_id }
    }
}

/// What a step on `input` sends in state `s`, or why it fails.
///
/// Only a message is of use to this node. Every message takes an identifier
/// from the counter; a `generate` is answered under it, with the identifier
/// made from the counter as it stands after that, and a `generate_ok` is
/// not answered.
pub open spec fn unique_step(s: UniqueState, input: EventView<PayloadView, ()>) -> Result<
    Seq<MessageView<PayloadView>>,
    StepError,
> {
    match input {
        EventView::Message(message) => {
            if s.msg_id == u64::MAX {
                Err(StepError::MsgIdExhausted)
            } else {
                match message.payload {
                    PayloadView::Generate => Ok(
                        seq![
                            message.reply(
                                Some(s.msg_id),
                                PayloadView::GenerateOk {
                                    guid: guid(s.node, (s.msg_id + 1) as u64),
                                },
                            ),
                        ],
                    ),
                    PayloadView::GenerateOk { .. } => Ok(Seq::empty()),
                }
            }
        },
        _ => Err(StepError::UnexpectedEvent),
    }
}

impl UniqueNode {
    /// The node's own identifier.
    pub fn node_id(&self) -> (id: &String)
        ensures
            id@ == self@.node,
    {
        &self.node
    }

    /// The identifier that the next message this node originates will carry.
    pub fn msg_id(&self) -> (id: u64)
        ensures
            id == self@.msg_id,
    {
        self.msg_id
    }
}

impl Node<(), Payload> for UniqueNode {
    open spec fn wf(&self) -> bool {
        true
    }

    /// A node named as the handshake says, whose first message will carry
    /// `msg_id`.
    fn from_init(_state: (), msg_id: u64, init: Init) -> (node: Self)
        ensures
            node@ == (UniqueState { node: init.node_id@, msg_id }),
    {
        UniqueNode { node: init.node_id, msg_id }
    }

    /// This node needs no timer.
    fn timers(&self) -> (timers: Vec<Timer<()>>)
        ensures
            timers@.len() == 0,
    {
        Vec::new()
    }

    /// Answers a `generate` with a fresh identifier, takes note of a
    /// `generate_ok`, and fails on anything that is not a message. A step
    /// that fails changes nothing.
    fn step(&mut self, input: Event<Payload, ()>) -> (r: Result<Vec<Message<Payload>>, StepError>)
        ensures
            final(self)@.node == old(self)@.node,
            match r {
                Ok(sent) => unique_step(old(self)@, input@) == Ok::<
                    Seq<MessageView<PayloadView>>,
                    StepError,
                >(message_views(sent@)) && final(self)@.msg_id == old(self)@.msg_id + 1,
                Err(error) => unique_step(old(self)@, input@) == Err::<
                    Seq<MessageView<PayloadView>>,
                    StepError,
                >(error) && final(self)@ == old(self)@,
            },
    {
        let message = match input {
            Event::Message(message) => message,
            _ => {
                return Err(StepError::UnexpectedEvent);
            },
        };
        if self.msg_id == u64::MAX {
            return Err(StepError::MsgIdExhausted);
        }
        let ghost wire = message@;
        let reply = message.into_reply(Some(&mut self.msg_id));
        let Message { src, dst, body } = reply;
        let mut sent: Vec<Message<Payload>> = Vec::new();
        match body.payload {
            Payload::Generate => {
                let fresh = make_guid(&self.node, self.msg_id);
                sent.push(
                    Message {
                        src,
                        dst,
                        body: Body {
                            id: body.id,
                            in_reply_to: body.in_reply_to,
                            payload: Payload::GenerateOk { guid: fresh },
                        },
                    },
                );
                proof {
                    assert(message_views(sent@) =~= seq![
                        wire.reply(
                            Some(old(self)@.msg_id),
                            PayloadView::GenerateOk {
                                guid: guid(old(self)@.node, (old(self)@.msg_id + 1) as u64),
                            },
                        ),
                    ]);
                }
            },
            Payload::GenerateOk { .. } => {
                proof {
                    assert(message_views(sent@) =~= Seq::empty());
                }
            },
        }
        Ok(sent)
    }
}

} // verus!
