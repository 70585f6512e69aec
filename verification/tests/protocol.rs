use rustengan::protocol::{Body, Message};

fn request(id: Option<u64>) -> Message<String> {
    Message {
        src: "c1".to_string(),
        dst: "n1".to_string(),
        body: Body { id, in_reply_to: None, payload: "ping".to_string() },
    }
}

#[test]
fn into_reply_swaps_addresses_and_draws_an_id() {
    let mut counter: u64 = 7;
    let reply = request(Some(3)).into_reply(Some(&mut counter));
    assert_eq!(reply.src, "n1");
    assert_eq!(reply.dst, "c1");
    assert_eq!(reply.body.id, Some(7));
    assert_eq!(reply.body.in_reply_to, Some(3));
    assert_eq!(reply.body.payload, "ping");
    assert_eq!(counter, 8);
}

#[test]
fn into_reply_without_a_counter_has_no_id() {
    let reply = request(Some(3)).into_reply(None);
    assert_eq!(reply.src, "n1");
    assert_eq!(reply.dst, "c1");
    assert_eq!(reply.body.id, None);
    assert_eq!(reply.body.in_reply_to, Some(3));
}

#[test]
fn into_reply_to_a_message_without_id_answers_nothing() {
    let mut counter: u64 = 0;
    let reply = request(None).into_reply(Some(&mut counter));
    assert_eq!(reply.body.id, Some(0));
    assert_eq!(reply.body.in_reply_to, None);
    assert_eq!(counter, 1);
}

#[test]
fn split_parts_the_payload_from_the_envelope() {
    let (envelope, payload) = request(Some(3)).split();
    assert_eq!(payload, "ping");
    assert_eq!(envelope.src, "c1");
    assert_eq!(envelope.dst, "n1");
    assert_eq!(envelope.body.id, Some(3));
    assert_eq!(envelope.body.in_reply_to, None);
}

#[test]
fn into_reply_with_carries_the_new_payload() {
    let mut counter: u64 = 41;
    let (envelope, _) = request(Some(3)).split();
    let reply = envelope.into_reply_with(Some(&mut counter), 9u8);
    assert_eq!(reply.src, "n1");
    assert_eq!(reply.dst, "c1");
    assert_eq!(reply.body.id, Some(41));
    assert_eq!(reply.body.in_reply_to, Some(3));
    assert_eq!(reply.body.payload, 9);
    assert_eq!(counter, 42);
}
