use rustengan::protocol::{Body, Event, Init, Message};
use rustengan::runtime::{delivery, handshake, is_last, Delivery, HandshakeError, InitPayload};

fn first(payload: InitPayload) -> Message<InitPayload> {
    Message {
        src: "c0".to_string(),
        dst: "n1".to_string(),
        body: Body { id: Some(1), in_reply_to: None, payload },
    }
}

#[test]
fn handshake_answers_init_with_init_ok() {
    let init = Init { node_id: "n1".to_string(), node_ids: vec!["n1".to_string(), "n2".to_string()] };
    let h = handshake(first(InitPayload::Init(init))).unwrap();
    assert_eq!(h.init.node_id, "n1");
    assert_eq!(h.init.node_ids, vec!["n1".to_string(), "n2".to_string()]);
    assert_eq!(h.reply.src, "n1");
    assert_eq!(h.reply.dst, "c0");
    assert_eq!(h.reply.body.id, Some(0));
    assert_eq!(h.reply.body.in_reply_to, Some(1));
    assert!(matches!(h.reply.body.payload, InitPayload::InitOk));
    assert_eq!(h.msg_id, 1);
}

#[test]
fn handshake_rejects_a_first_message_that_is_not_init() {
    assert_eq!(handshake(first(InitPayload::InitOk)).unwrap_err(), HandshakeError::NotInit);
}

#[test]
fn only_the_end_of_input_is_last() {
    let message: Event<u8, u8> = Event::Message(Message {
        src: "a".to_string(),
        dst: "b".to_string(),
        body: Body { id: None, in_reply_to: None, payload: 0 },
    });
    assert!(!is_last(&message));
    assert!(!is_last(&Event::<u8, u8>::Injected(1)));
    assert!(is_last(&Event::<u8, u8>::EOF));
}

#[test]
fn only_what_follows_an_injected_event_is_best_effort() {
    let message: Event<u8, u8> = Event::Message(Message {
        src: "a".to_string(),
        dst: "b".to_string(),
        body: Body { id: None, in_reply_to: None, payload: 0 },
    });
    assert_eq!(delivery(&message), Delivery::Required);
    assert_eq!(delivery(&Event::<u8, u8>::EOF), Delivery::Required);
    assert_eq!(delivery(&Event::<u8, u8>::Injected(1)), Delivery::BestEffort);
}
