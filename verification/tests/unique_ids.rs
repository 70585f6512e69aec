use rustengan::protocol::{Body, Event, Init, Message};
use rustengan::runtime::{Node, StepError};
use rustengan::unique_ids::{make_guid, Payload, UniqueNode};

fn unique_node(name: &str, msg_id: u64) -> UniqueNode {
    UniqueNode::from_init((), msg_id, Init { node_id: name.to_string(), node_ids: vec![name.to_string()] })
}

fn generate(payload: Payload) -> Event<Payload> {
    Event::Message(Message {
        src: "c1".to_string(),
        dst: "n1".to_string(),
        body: Body { id: Some(9), in_reply_to: None, payload },
    })
}

fn guid_of(sent: &[Message<Payload>]) -> String {
    match &sent[0].body.payload {
        Payload::GenerateOk { guid } => guid.clone(),
        other => panic!("not a generate_ok: {:?}", other),
    }
}

#[test]
fn guid_is_name_hyphen_and_decimal_counter() {
    assert_eq!(make_guid(&"n1".to_string(), 0), "n1-0");
    assert_eq!(make_guid(&"n1".to_string(), 7), "n1-7");
    assert_eq!(make_guid(&"n1".to_string(), 10), "n1-10");
    assert_eq!(make_guid(&"node".to_string(), 1234567890), "node-1234567890");
    assert_eq!(make_guid(&"".to_string(), u64::MAX), "-18446744073709551615");
    assert_eq!(make_guid(&"n2".to_string(), 1005), format!("{}-{}", "n2", 1005));
}

#[test]
fn generate_is_answered_with_an_identifier_made_from_the_advanced_counter() {
    let mut n = unique_node("n1", 1);
    let sent = n.step(generate(Payload::Generate)).unwrap();
    assert_eq!(sent.len(), 1);
    assert_eq!(sent[0].src, "n1");
    assert_eq!(sent[0].dst, "c1");
    assert_eq!(sent[0].body.id, Some(1));
    assert_eq!(sent[0].body.in_reply_to, Some(9));
    assert_eq!(guid_of(&sent), "n1-2");
    assert_eq!(n.msg_id(), 2);
    assert_eq!(n.node_id(), "n1");
}

#[test]
fn generated_identifiers_differ() {
    let mut n = unique_node("n1", 1);
    let first = guid_of(&n.step(generate(Payload::Generate)).unwrap());
    let second = guid_of(&n.step(generate(Payload::Generate)).unwrap());
    assert_ne!(first, second);
    let mut m = unique_node("n2", 1);
    let other = guid_of(&m.step(generate(Payload::Generate)).unwrap());
    assert_ne!(first, other);
}

#[test]
fn generate_ok_takes_an_identifier_and_is_not_answered() {
    let mut n = unique_node("n1", 3);
    let sent = n.step(generate(Payload::GenerateOk { guid: "n2-1".to_string() })).unwrap();
    assert!(sent.is_empty());
    assert_eq!(n.msg_id(), 4);
}

#[test]
fn unique_node_rejects_what_is_not_a_message() {
    let mut n = unique_node("n1", 3);
    assert_eq!(n.step(Event::EOF).unwrap_err(), StepError::UnexpectedEvent);
    assert_eq!(n.step(Event::Injected(())).unwrap_err(), StepError::UnexpectedEvent);
    assert_eq!(n.msg_id(), 3);
    assert!(n.timers().is_empty());
}

#[test]
fn unique_node_fails_when_the_counter_is_spent() {
    let mut n = unique_node("n1", u64::MAX);
    assert_eq!(n.step(generate(Payload::Generate)).unwrap_err(), StepError::MsgIdExhausted);
    assert_eq!(n.msg_id(), u64::MAX);
}
