use rustengan::broadcast::node::BroadcastNode;
use rustengan::broadcast::payload::{InjectedPayload, Payload};
use rustengan::node_map::NodeMap;
use rustengan::protocol::{Body, Event, Init, Message};
use rustengan::runtime::{Node, StepError, Timer};
use std::collections::HashSet;

fn id(name: &str) -> String {
    name.to_string()
}

fn set(values: &[u64]) -> HashSet<u64> {
    values.iter().copied().collect()
}

fn node(name: &str, msg_id: u64) -> BroadcastNode {
    BroadcastNode::from_init((), msg_id, Init { node_id: id(name), node_ids: vec![id("A"), id("B")] })
}

fn message(src: &str, dst: &str, msg_id: Option<u64>, in_reply_to: Option<u64>, payload: Payload) -> Event<Payload, InjectedPayload> {
    Event::Message(Message { src: id(src), dst: id(dst), body: Body { id: msg_id, in_reply_to, payload } })
}

fn topology(entries: &[(&str, &[&str])]) -> Payload {
    let mut map: NodeMap<Vec<String>> = NodeMap::new();
    for (name, neighbors) in entries {
        map.insert(id(name), neighbors.iter().map(|n| id(n)).collect());
    }
    Payload::Topology { topology: map }
}

fn two_node_topology() -> Payload {
    topology(&[("A", &["B"]), ("B", &["A"])])
}

fn with_neighbor(name: &str, other: &str) -> BroadcastNode {
    let mut n = node(name, 1);
    let sent = n.step(message("c0", name, Some(1), None, topology(&[(name, &[other]), (other, &[name])]))).unwrap();
    assert_eq!(sent.len(), 1);
    n
}

fn gossip_values(m: &Message<Payload>) -> HashSet<u64> {
    match &m.body.payload {
        Payload::Gossip { messages } => messages.clone(),
        other => panic!("not a gossip: {:?}", other),
    }
}

#[test]
fn the_node_asks_for_a_gossip_timer() {
    let n = node("A", 1);
    assert_eq!(n.timers(), vec![Timer { every_millis: 100, event: InjectedPayload::Gossip }]);
}

#[test]
fn a_new_node_has_nothing() {
    let n = node("A", 4);
    assert_eq!(n.node_id(), "A");
    assert_eq!(n.msg_id(), 4);
    assert!(n.messages().is_empty());
    assert!(n.neighborhood().is_empty());
    assert!(n.known(&id("B")).is_none());
    assert!(n.in_flight(&id("B")).is_none());
}

#[test]
fn topology_sets_the_neighborhood_and_is_acknowledged() {
    let mut a = node("A", 1);
    let sent = a.step(message("c1", "A", Some(10), None, two_node_topology())).unwrap();
    assert_eq!(a.neighborhood(), &vec![id("B")]);
    assert_eq!(a.known(&id("B")), Some(&set(&[])));
    assert!(a.known(&id("A")).is_none());
    assert_eq!(sent.len(), 1);
    assert_eq!(sent[0].src, "A");
    assert_eq!(sent[0].dst, "c1");
    assert_eq!(sent[0].body.id, Some(1));
    assert_eq!(sent[0].body.in_reply_to, Some(10));
    assert!(matches!(sent[0].body.payload, Payload::TopologyOk));
    assert_eq!(a.msg_id(), 2);
}

#[test]
fn topology_without_an_entry_for_the_node_is_fatal() {
    let mut a = node("A", 1);
    let r = a.step(message("c1", "A", Some(10), None, topology(&[("B", &["A"])])));
    assert_eq!(r.unwrap_err(), StepError::MissingTopology);
    assert!(a.neighborhood().is_empty());
    assert_eq!(a.msg_id(), 1);
}

#[test]
fn a_later_topology_replaces_the_neighborhood_and_forgets_what_was_known() {
    let mut a = with_neighbor("A", "B");
    a.step(message("B", "A", Some(1), None, Payload::Gossip { messages: set(&[3]) })).unwrap();
    assert_eq!(a.known(&id("B")), Some(&set(&[3])));
    a.step(message("c1", "A", Some(2), None, topology(&[("A", &["B", "C", "B"])]))).unwrap();
    assert_eq!(a.neighborhood(), &vec![id("B"), id("C"), id("B")]);
    assert_eq!(a.known(&id("B")), Some(&set(&[])));
    assert_eq!(a.known(&id("C")), Some(&set(&[])));
    assert_eq!(a.messages(), &set(&[3]));
}

#[test]
fn broadcast_is_acknowledged_and_read_returns_it() {
    let mut a = node("A", 1);
    let sent = a.step(message("c1", "A", Some(1), None, Payload::Broadcast { message: 5 })).unwrap();
    assert_eq!(sent.len(), 1);
    assert!(matches!(sent[0].body.payload, Payload::BroadcastOk));
    assert_eq!(sent[0].body.in_reply_to, Some(1));
    assert_eq!(sent[0].body.id, Some(1));
    assert_eq!(sent[0].src, "A");
    assert_eq!(sent[0].dst, "c1");

    let sent = a.step(message("c1", "A", Some(2), None, Payload::Read)).unwrap();
    assert_eq!(sent.len(), 1);
    assert_eq!(sent[0].body.id, Some(2));
    assert_eq!(sent[0].body.in_reply_to, Some(2));
    match &sent[0].body.payload {
        Payload::ReadOk { messages } => assert_eq!(messages, &set(&[5])),
        other => panic!("not a read_ok: {:?}", other),
    }
    assert_eq!(a.msg_id(), 3);
}

#[test]
fn broadcasting_a_value_twice_keeps_one() {
    let mut a = node("A", 1);
    a.step(message("c1", "A", Some(1), None, Payload::Broadcast { message: 5 })).unwrap();
    a.step(message("c1", "A", Some(2), None, Payload::Broadcast { message: 5 })).unwrap();
    assert_eq!(a.messages(), &set(&[5]));
}

#[test]
fn broadcast_does_not_forward_by_itself() {
    let mut a = with_neighbor("A", "B");
    let sent = a.step(message("c1", "A", Some(1), None, Payload::Broadcast { message: 5 })).unwrap();
    assert_eq!(sent.len(), 1);
    assert_eq!(sent[0].dst, "c1");
    assert!(a.in_flight(&id("B")).is_none());
}

#[test]
fn a_gossip_round_trip_settles_the_in_flight_record() {
    let mut a = with_neighbor("A", "B");
    let mut b = with_neighbor("B", "A");
    a.step(message("c1", "A", Some(1), None, Payload::Broadcast { message: 5 })).unwrap();
    assert_eq!(a.known(&id("B")), Some(&set(&[])));

    let out = a.step(Event::Injected(InjectedPayload::Gossip)).unwrap();
    assert_eq!(out.len(), 1);
    let gossip = &out[0];
    assert_eq!(gossip.src, "A");
    assert_eq!(gossip.dst, "B");
    assert_eq!(gossip.body.in_reply_to, None);
    let k = gossip.body.id.unwrap();
    assert_eq!(k, 3);
    assert_eq!(a.msg_id(), 4);
    assert_eq!(gossip_values(gossip), set(&[5]));
    assert_eq!(a.in_flight(&id("B")), Some(&(k, set(&[5]))));

    let reply = b.step(message("A", "B", Some(k), None, Payload::Gossip { messages: set(&[5]) })).unwrap();
    assert_eq!(b.messages(), &set(&[5]));
    assert_eq!(b.known(&id("A")), Some(&set(&[5])));
    assert_eq!(reply.len(), 1);
    assert_eq!(reply[0].src, "B");
    assert_eq!(reply[0].dst, "A");
    assert_eq!(reply[0].body.in_reply_to, Some(k));
    match &reply[0].body.payload {
        Payload::GossipOk { messages } => assert!(messages.is_empty()),
        other => panic!("not a gossip_ok: {:?}", other),
    }

    let after = a.step(message("B", "A", reply[0].body.id, Some(k), Payload::GossipOk { messages: set(&[]) })).unwrap();
    assert!(after.is_empty());
    assert!(a.in_flight(&id("B")).is_none());
    assert!(a.known(&id("B")).unwrap().contains(&5));
    assert_eq!(a.msg_id(), 4);
}

#[test]
fn a_stale_second_acknowledgement_is_merged_but_touches_no_record() {
    let mut a = with_neighbor("A", "B");
    a.step(message("c1", "A", Some(1), None, Payload::Broadcast { message: 5 })).unwrap();
    let out = a.step(Event::Injected(InjectedPayload::Gossip)).unwrap();
    let k = out[0].body.id.unwrap();
    a.step(message("B", "A", Some(7), Some(k), Payload::GossipOk { messages: set(&[]) })).unwrap();
    assert!(a.in_flight(&id("B")).is_none());

    let sent = a.step(message("B", "A", Some(8), Some(k), Payload::GossipOk { messages: set(&[9]) })).unwrap();
    assert!(sent.is_empty());
    assert!(a.in_flight(&id("B")).is_none());
    assert_eq!(a.messages(), &set(&[5, 9]));
    assert_eq!(a.known(&id("B")), Some(&set(&[5, 9])));
}

#[test]
fn an_acknowledgement_of_an_older_round_keeps_the_record() {
    let mut a = with_neighbor("A", "B");
    a.step(message("c1", "A", Some(1), None, Payload::Broadcast { message: 5 })).unwrap();
    let first = a.step(Event::Injected(InjectedPayload::Gossip)).unwrap();
    let k1 = first[0].body.id.unwrap();
    a.step(message("c1", "A", Some(2), None, Payload::Broadcast { message: 6 })).unwrap();
    let second = a.step(Event::Injected(InjectedPayload::Gossip)).unwrap();
    let k2 = second[0].body.id.unwrap();
    assert!(k2 > k1);
    assert_eq!(gossip_values(&second[0]), set(&[5, 6]));
    assert_eq!(a.in_flight(&id("B")), Some(&(k2, set(&[5, 6]))));

    a.step(message("B", "A", Some(1), Some(k1), Payload::GossipOk { messages: set(&[7]) })).unwrap();
    assert_eq!(a.in_flight(&id("B")), Some(&(k2, set(&[5, 6]))));
    assert_eq!(a.known(&id("B")), Some(&set(&[7])));
    assert_eq!(a.messages(), &set(&[5, 6, 7]));

    a.step(message("B", "A", Some(2), Some(k2), Payload::GossipOk { messages: set(&[]) })).unwrap();
    assert!(a.in_flight(&id("B")).is_none());
    assert_eq!(a.known(&id("B")), Some(&set(&[5, 6, 7])));
}

#[test]
fn an_acknowledgement_without_a_reply_id_is_merged_and_settles_nothing() {
    let mut a = with_neighbor("A", "B");
    a.step(message("c1", "A", Some(1), None, Payload::Broadcast { message: 5 })).unwrap();
    let out = a.step(Event::Injected(InjectedPayload::Gossip)).unwrap();
    let k = out[0].body.id.unwrap();
    a.step(message("B", "A", Some(1), None, Payload::GossipOk { messages: set(&[8]) })).unwrap();
    assert_eq!(a.in_flight(&id("B")), Some(&(k, set(&[5]))));
    assert_eq!(a.known(&id("B")), Some(&set(&[8])));
    assert_eq!(a.messages(), &set(&[5, 8]));
}

#[test]
fn the_same_gossip_twice_is_the_same_as_once() {
    let mut once = with_neighbor("A", "B");
    let mut twice = with_neighbor("A", "B");
    once.step(message("B", "A", Some(1), None, Payload::Gossip { messages: set(&[1, 2]) })).unwrap();
    twice.step(message("B", "A", Some(1), None, Payload::Gossip { messages: set(&[1, 2]) })).unwrap();
    twice.step(message("B", "A", Some(1), None, Payload::Gossip { messages: set(&[1, 2]) })).unwrap();
    assert_eq!(once.messages(), twice.messages());
    assert_eq!(once.known(&id("B")), twice.known(&id("B")));
    assert_eq!(twice.messages(), &set(&[1, 2]));
}

#[test]
fn the_answer_to_a_gossip_carries_what_the_sender_lacks() {
    let mut a = with_neighbor("A", "B");
    a.step(message("c1", "A", Some(1), None, Payload::Broadcast { message: 5 })).unwrap();
    a.step(message("c1", "A", Some(2), None, Payload::Broadcast { message: 6 })).unwrap();
    let reply = a.step(message("B", "A", Some(4), None, Payload::Gossip { messages: set(&[6, 7]) })).unwrap();
    assert_eq!(reply.len(), 1);
    assert_eq!(reply[0].body.in_reply_to, Some(4));
    match &reply[0].body.payload {
        Payload::GossipOk { messages } => assert_eq!(messages, &set(&[5])),
        other => panic!("not a gossip_ok: {:?}", other),
    }
    assert_eq!(a.messages(), &set(&[5, 6, 7]));
    assert_eq!(a.known(&id("B")), Some(&set(&[6, 7])));
}

#[test]
fn gossip_from_a_stranger_is_fatal() {
    let mut a = with_neighbor("A", "B");
    let r = a.step(message("Z", "A", Some(1), None, Payload::Gossip { messages: set(&[1]) }));
    assert_eq!(r.unwrap_err(), StepError::UnknownPeer);
    assert!(a.messages().is_empty());
    let r = a.step(message("Z", "A", Some(1), Some(0), Payload::GossipOk { messages: set(&[1]) }));
    assert_eq!(r.unwrap_err(), StepError::UnknownPeer);
    assert!(a.messages().is_empty());
}

#[test]
fn a_tick_with_nothing_new_sends_nothing() {
    let mut a = with_neighbor("A", "B");
    let out = a.step(Event::Injected(InjectedPayload::Gossip)).unwrap();
    assert!(out.is_empty());
    assert!(a.in_flight(&id("B")).is_none());
    assert_eq!(a.msg_id(), 2);
}

#[test]
fn a_tick_repeats_what_was_not_acknowledged() {
    let mut a = with_neighbor("A", "B");
    a.step(message("c1", "A", Some(1), None, Payload::Broadcast { message: 5 })).unwrap();
    let first = a.step(Event::Injected(InjectedPayload::Gossip)).unwrap();
    let second = a.step(Event::Injected(InjectedPayload::Gossip)).unwrap();
    assert_eq!(gossip_values(&first[0]), set(&[5]));
    assert_eq!(gossip_values(&second[0]), set(&[5]));
    assert_eq!(first[0].body.id, Some(3));
    assert_eq!(second[0].body.id, Some(4));
    assert_eq!(a.in_flight(&id("B")), Some(&(4, set(&[5]))));
}

#[test]
fn a_tick_gossips_to_each_neighbor_in_order() {
    let mut a = node("A", 1);
    a.step(message("c0", "A", Some(1), None, topology(&[("A", &["B", "C", "D"])]))).unwrap();
    a.step(message("C", "A", Some(1), None, Payload::Gossip { messages: set(&[5]) })).unwrap();
    let out = a.step(Event::Injected(InjectedPayload::Gossip)).unwrap();
    assert_eq!(out.len(), 2);
    assert_eq!(out[0].dst, "B");
    assert_eq!(out[0].body.id, Some(3));
    assert_eq!(out[1].dst, "D");
    assert_eq!(out[1].body.id, Some(4));
    assert!(a.in_flight(&id("C")).is_none());
    assert_eq!(a.msg_id(), 5);
}

#[test]
fn gossip_to_one_neighbor() {
    let mut a = with_neighbor("A", "B");
    assert!(a.gossip_to(&id("B")).unwrap().is_none());
    assert_eq!(a.gossip_to(&id("Z")).unwrap_err(), StepError::UnknownPeer);
    a.step(message("c1", "A", Some(1), None, Payload::Broadcast { message: 5 })).unwrap();
    let m = a.gossip_to(&id("B")).unwrap().unwrap();
    assert_eq!(m.src, "A");
    assert_eq!(m.dst, "B");
    assert_eq!(m.body.id, Some(3));
    assert_eq!(gossip_values(&m), set(&[5]));
    let out = a.gossip_to_all().unwrap();
    assert_eq!(out.len(), 1);
    assert_eq!(out[0].body.id, Some(4));
}

#[test]
fn replies_that_need_no_action_are_ignored() {
    let mut a = with_neighbor("A", "B");
    for payload in [Payload::BroadcastOk, Payload::TopologyOk, Payload::ReadOk { messages: set(&[1]) }] {
        let sent = a.step(message("B", "A", Some(1), Some(1), payload)).unwrap();
        assert!(sent.is_empty());
    }
    assert!(a.messages().is_empty());
    assert_eq!(a.msg_id(), 2);
}

#[test]
fn end_of_input_changes_nothing() {
    let mut a = with_neighbor("A", "B");
    let sent = a.step(Event::EOF).unwrap();
    assert!(sent.is_empty());
    assert_eq!(a.msg_id(), 2);
}

#[test]
fn a_spent_counter_fails_the_step_and_changes_nothing() {
    let mut a = node("A", u64::MAX);
    let r = a.step(message("c1", "A", Some(1), None, Payload::Broadcast { message: 5 }));
    assert_eq!(r.unwrap_err(), StepError::MsgIdExhausted);
    assert!(a.messages().is_empty());
    let r = a.step(message("c1", "A", Some(1), None, Payload::Read));
    assert_eq!(r.unwrap_err(), StepError::MsgIdExhausted);
    let r = a.step(message("c1", "A", Some(1), None, two_node_topology()));
    assert_eq!(r.unwrap_err(), StepError::MsgIdExhausted);
    assert!(a.neighborhood().is_empty());
    assert!(a.step(Event::Injected(InjectedPayload::Gossip)).unwrap().is_empty());
}

#[test]
fn a_round_that_cannot_be_numbered_sends_nothing() {
    let mut a = node("A", u64::MAX - 2);
    a.step(message("c0", "A", Some(1), None, topology(&[("A", &["B", "C"])]))).unwrap();
    a.step(message("c1", "A", Some(1), None, Payload::Broadcast { message: 5 })).unwrap();
    assert_eq!(a.msg_id(), u64::MAX);
    let r = a.step(Event::Injected(InjectedPayload::Gossip));
    assert_eq!(r.unwrap_err(), StepError::MsgIdExhausted);
    assert!(a.in_flight(&id("B")).is_none());
    assert!(a.in_flight(&id("C")).is_none());
    assert_eq!(a.msg_id(), u64::MAX);
}

#[test]
fn the_last_identifiers_can_still_be_used() {
    let mut a = node("A", u64::MAX - 4);
    a.step(message("c0", "A", Some(1), None, topology(&[("A", &["B", "C"])]))).unwrap();
    a.step(message("c1", "A", Some(1), None, Payload::Broadcast { message: 5 })).unwrap();
    let out = a.step(Event::Injected(InjectedPayload::Gossip)).unwrap();
    assert_eq!(out.len(), 2);
    assert_eq!(out[1].body.id, Some(u64::MAX - 1));
    assert_eq!(a.msg_id(), u64::MAX);
}

#[test]
fn a_round_needs_identifiers_only_for_what_it_sends() {
    let mut a = node("A", u64::MAX - 4);
    a.step(message("c0", "A", Some(1), None, topology(&[("A", &["B", "C", "D"])]))).unwrap();
    a.step(message("C", "A", Some(1), None, Payload::Gossip { messages: set(&[5]) })).unwrap();
    assert_eq!(a.msg_id(), u64::MAX - 2);
    let out = a.step(Event::Injected(InjectedPayload::Gossip)).unwrap();
    assert_eq!(out.len(), 2);
    assert_eq!(out[0].dst, "B");
    assert_eq!(out[0].body.id, Some(u64::MAX - 2));
    assert_eq!(out[1].dst, "D");
    assert_eq!(out[1].body.id, Some(u64::MAX - 1));
    assert_eq!(a.msg_id(), u64::MAX);
    let r = a.step(Event::Injected(InjectedPayload::Gossip));
    assert_eq!(r.unwrap_err(), StepError::MsgIdExhausted);
}

fn deliver(to: &mut BroadcastNode, m: &Message<Payload>) -> Vec<Message<Payload>> {
    let payload = match &m.body.payload {
        Payload::Gossip { messages } => Payload::Gossip { messages: messages.clone() },
        Payload::GossipOk { messages } => Payload::GossipOk { messages: messages.clone() },
        other => panic!("nodes exchange gossip only: {:?}", other),
    };
    to.step(message(&m.src, &m.dst, m.body.id, m.body.in_reply_to, payload)).unwrap()
}

#[test]
fn values_and_known_sets_only_grow() {
    let mut a = with_neighbor("A", "B");
    let mut messages_before = a.messages().clone();
    let mut known_before = a.known(&id("B")).unwrap().clone();
    let events = vec![
        message("c1", "A", Some(1), None, Payload::Broadcast { message: 1 }),
        Event::Injected(InjectedPayload::Gossip),
        message("B", "A", Some(1), None, Payload::Gossip { messages: set(&[2]) }),
        message("c1", "A", Some(2), None, Payload::Read),
        message("B", "A", Some(2), Some(77), Payload::GossipOk { messages: set(&[3]) }),
        message("B", "A", Some(3), Some(3), Payload::GossipOk { messages: set(&[]) }),
        message("B", "A", Some(4), Some(1), Payload::BroadcastOk),
        Event::Injected(InjectedPayload::Gossip),
        Event::EOF,
    ];
    for event in events {
        a.step(event).unwrap();
        assert!(messages_before.is_subset(a.messages()));
        assert!(known_before.is_subset(a.known(&id("B")).unwrap()));
        messages_before = a.messages().clone();
        known_before = a.known(&id("B")).unwrap().clone();
    }
    assert_eq!(a.messages(), &set(&[1, 2, 3]));
    assert_eq!(a.known(&id("B")), Some(&set(&[1, 2, 3])));
}

#[test]
fn a_node_is_not_its_own_neighbor() {
    let mut a = with_neighbor("A", "B");
    assert!(!a.neighborhood().contains(&id("A")));
    a.step(message("c1", "A", Some(1), None, Payload::Broadcast { message: 1 })).unwrap();
    let out = a.step(Event::Injected(InjectedPayload::Gossip)).unwrap();
    assert!(out.iter().all(|m| m.dst != "A"));
    assert!(!a.neighborhood().contains(&id("A")));
}

#[test]
fn a_line_of_three_nodes_converges_despite_loss() {
    let mut a = node("A", 1);
    let mut b = node("B", 1);
    let mut c = node("C", 1);
    let line = || topology(&[("A", &["B"]), ("B", &["A", "C"]), ("C", &["B"])]);
    a.step(message("c0", "A", Some(1), None, line())).unwrap();
    b.step(message("c0", "B", Some(1), None, line())).unwrap();
    c.step(message("c0", "C", Some(1), None, line())).unwrap();
    a.step(message("c1", "A", Some(1), None, Payload::Broadcast { message: 10 })).unwrap();
    c.step(message("c1", "C", Some(1), None, Payload::Broadcast { message: 30 })).unwrap();
    b.step(message("c1", "B", Some(1), None, Payload::Broadcast { message: 20 })).unwrap();

    // A first tick everywhere, of which every message is lost.
    a.step(Event::Injected(InjectedPayload::Gossip)).unwrap();
    b.step(Event::Injected(InjectedPayload::Gossip)).unwrap();
    c.step(Event::Injected(InjectedPayload::Gossip)).unwrap();

    // Two rounds in which gossip gets through, the answers being lost.
    for _ in 0..2 {
        for m in a.step(Event::Injected(InjectedPayload::Gossip)).unwrap() {
            deliver(&mut b, &m);
        }
        for m in b.step(Event::Injected(InjectedPayload::Gossip)).unwrap() {
            if m.dst == "A" {
                deliver(&mut a, &m);
            } else {
                deliver(&mut c, &m);
            }
        }
        for m in c.step(Event::Injected(InjectedPayload::Gossip)).unwrap() {
            deliver(&mut b, &m);
        }
    }
    let all = set(&[10, 20, 30]);
    assert_eq!(a.messages(), &all);
    assert_eq!(b.messages(), &all);
    assert_eq!(c.messages(), &all);
}

#[test]
fn acknowledgements_end_the_retries() {
    let mut a = with_neighbor("A", "B");
    let mut b = with_neighbor("B", "A");
    a.step(message("c1", "A", Some(1), None, Payload::Broadcast { message: 5 })).unwrap();
    b.step(message("c1", "B", Some(1), None, Payload::Broadcast { message: 6 })).unwrap();
    let gossip = a.step(Event::Injected(InjectedPayload::Gossip)).unwrap();
    let acks = deliver(&mut b, &gossip[0]);
    assert_eq!(gossip_values(&gossip[0]), set(&[5]));
    match &acks[0].body.payload {
        Payload::GossipOk { messages } => assert_eq!(messages, &set(&[6])),
        other => panic!("not a gossip_ok: {:?}", other),
    }
    assert!(deliver(&mut a, &acks[0]).is_empty());
    assert_eq!(a.messages(), &set(&[5, 6]));
    assert_eq!(a.known(&id("B")), Some(&set(&[5, 6])));
    assert!(a.step(Event::Injected(InjectedPayload::Gossip)).unwrap().is_empty());

    // B does not know yet that its answer arrived, so it gossips once more.
    let again = b.step(Event::Injected(InjectedPayload::Gossip)).unwrap();
    assert_eq!(again.len(), 1);
    assert_eq!(gossip_values(&again[0]), set(&[6]));
    let acks = deliver(&mut a, &again[0]);
    assert!(deliver(&mut b, &acks[0]).is_empty());
    assert!(b.in_flight(&id("A")).is_none());
    assert!(b.step(Event::Injected(InjectedPayload::Gossip)).unwrap().is_empty());
}
