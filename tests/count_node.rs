use std::collections::HashMap;

use fly::count_node::{aggregate, CountNode};
use fly::fact_store::FactStore;
use fly::msg::{Body, Event, Injected, Message, Payload};
use fly::replica::NodeError;

fn envelope(src: &str, dest: &str, msg_id: Option<usize>, payload: Payload) -> Message {
    Message {
        src: src.to_string(),
        dest: dest.to_string(),
        body: Body { msg_id, in_reply_to: None, payload },
    }
}

fn started(node_id: &str, node_ids: &[&str]) -> CountNode {
    let mut out = Vec::new();
    let init = Payload::Init {
        node_id: node_id.to_string(),
        node_ids: node_ids.iter().map(|s| s.to_string()).collect(),
    };
    let node = CountNode::new(Event::Message(envelope("c0", node_id, Some(1), init)), &mut out)
        .expect("init accepted");
    assert!(matches!(out[0].body.payload, Payload::InitOk));
    node
}

fn step(node: &mut CountNode, m: Message) -> (Result<(), NodeError>, Vec<Message>) {
    let mut out = Vec::new();
    let r = node.step(Event::Message(m), &mut out);
    (r, out)
}

fn add(node: &mut CountNode, src: &str, msg_id: usize, delta: usize) -> Message {
    let (r, out) = step(node, envelope(src, "n0", Some(msg_id), Payload::Add { delta }));
    r.expect("add accepted");
    assert_eq!(out.len(), 1);
    assert!(matches!(out[0].body.payload, Payload::AddOk));
    out[0].clone()
}

fn read(node: &mut CountNode) -> usize {
    let (r, out) = step(node, envelope("c9", "n0", Some(500), Payload::Read));
    r.expect("read accepted");
    match &out[0].body.payload {
        Payload::ReadOkCount { value } => *value,
        other => panic!("unexpected reply {:?}", other),
    }
}

fn topology(node: &mut CountNode) {
    let (r, out) = step(node, envelope("c9", "n0", Some(400), Payload::Topology { topology: HashMap::new() }));
    r.expect("topology accepted");
    assert!(matches!(out[0].body.payload, Payload::TopologyOk));
}

fn gossip(node: &mut CountNode, src: &str, adds: Vec<(String, usize, usize)>) -> Result<(), NodeError> {
    let (r, out) = step(node, envelope(src, "n0", None, Payload::GossipCount { adds }));
    assert!(out.is_empty());
    r
}

#[test]
fn adds_then_gossip_then_replay() {
    let mut node = started("n0", &["n0", "n1"]);
    add(&mut node, "c1", 1, 5);
    add(&mut node, "c1", 2, 3);
    assert_eq!(read(&mut node), 8);
    gossip(&mut node, "n1", vec![("n1".to_string(), 1, 10)]).unwrap();
    assert_eq!(read(&mut node), 18);
    gossip(&mut node, "n1", vec![("n1".to_string(), 1, 10)]).unwrap();
    assert_eq!(read(&mut node), 18);
}

#[test]
fn add_reply_correlates() {
    let mut node = started("n0", &["n0"]);
    let reply = add(&mut node, "c3", 17, 2);
    assert_eq!(reply.body.in_reply_to, Some(17));
    assert_eq!(reply.body.msg_id, Some(1));
    assert_eq!(reply.src, "n0");
    assert_eq!(reply.dest, "c3");
}

#[test]
fn add_order_does_not_change_value() {
    let mut a = started("n0", &["n0"]);
    let mut b = started("n0", &["n0"]);
    add(&mut a, "c1", 1, 4);
    add(&mut a, "c2", 1, 9);
    add(&mut a, "c1", 2, 1);
    add(&mut b, "c1", 2, 1);
    add(&mut b, "c2", 1, 9);
    add(&mut b, "c1", 1, 4);
    assert_eq!(read(&mut a), 14);
    assert_eq!(read(&mut b), 14);
}

#[test]
fn same_delta_from_different_requests_counts_twice() {
    let mut node = started("n0", &["n0"]);
    add(&mut node, "c1", 1, 6);
    add(&mut node, "c1", 2, 6);
    assert_eq!(read(&mut node), 12);
}

#[test]
fn duplicate_add_is_refused() {
    let mut node = started("n0", &["n0"]);
    add(&mut node, "c1", 1, 6);
    let (r, out) = step(&mut node, envelope("c1", "n0", Some(1), Payload::Add { delta: 6 }));
    assert_eq!(r, Err(NodeError::DuplicateOperation));
    assert!(out.is_empty());
    assert_eq!(read(&mut node), 6);
}

#[test]
fn add_without_msg_id_is_refused() {
    let mut node = started("n0", &["n0"]);
    let (r, out) = step(&mut node, envelope("c1", "n0", None, Payload::Add { delta: 6 }));
    assert_eq!(r, Err(NodeError::MissingMsgId));
    assert!(out.is_empty());
    assert_eq!(read(&mut node), 0);
}

#[test]
fn read_of_oversized_value_is_refused() {
    let mut node = started("n0", &["n0"]);
    add(&mut node, "c1", 1, usize::MAX);
    assert_eq!(read(&mut node), usize::MAX);
    add(&mut node, "c1", 2, 1);
    let (r, out) = step(&mut node, envelope("c9", "n0", Some(3), Payload::Read));
    assert_eq!(r, Err(NodeError::ValueOverflow));
    assert!(out.is_empty());
}

#[test]
fn broadcast_kinds_are_refused() {
    let mut node = started("n0", &["n0"]);
    let (r, _) = step(&mut node, envelope("c1", "n0", Some(1), Payload::Broadcast { message: 1 }));
    assert_eq!(r, Err(NodeError::Unexpected));
    let (r, _) = step(&mut node, envelope("n1", "n0", None, Payload::GossipEcho { ids: vec![1] }));
    assert_eq!(r, Err(NodeError::Unexpected));
    let (r, _) = step(&mut node, envelope("c1", "n0", Some(2), Payload::ReadOkEcho { messages: vec![] }));
    assert_eq!(r, Err(NodeError::Unexpected));
}

#[test]
fn gossip_from_untracked_node_is_refused() {
    let mut node = started("n0", &["n0", "n1"]);
    assert_eq!(gossip(&mut node, "n7", vec![("n7".to_string(), 1, 10)]), Err(NodeError::UnknownPeer));
    assert_eq!(read(&mut node), 0);
}

#[test]
fn leaf_drops_non_root_peers_after_topology() {
    let mut node = started("n1", &["n0", "n1", "n2"]);
    assert!(gossip(&mut node, "n2", vec![("n2".to_string(), 1, 4)]).is_ok());
    let (r, _) = step(&mut node, envelope("c9", "n1", Some(400), Payload::Topology { topology: HashMap::new() }));
    r.unwrap();
    assert_eq!(gossip(&mut node, "n2", vec![("n2".to_string(), 2, 4)]), Err(NodeError::UnknownPeer));
    assert!(gossip(&mut node, "n0", vec![("n0".to_string(), 1, 1)]).is_ok());
    assert_eq!(read(&mut node), 5);
}

#[test]
fn fresh_node_gossips_to_every_other_node() {
    let mut node = started("n1", &["n0", "n1", "n2"]);
    add(&mut node, "c1", 1, 3);
    let mut out = Vec::new();
    node.step(Event::Injected(Injected::GossipNow), &mut out).unwrap();
    let mut dests: Vec<String> = out.iter().map(|m| m.dest.clone()).collect();
    dests.sort();
    assert_eq!(dests, vec!["n0".to_string(), "n2".to_string()]);
    for m in &out {
        assert_eq!(m.body.msg_id, None);
        assert_eq!(m.body.in_reply_to, None);
    }
}

#[test]
fn counter_gossip_carries_sorted_operations() {
    let mut node = started("n0", &["n0", "n1"]);
    topology(&mut node);
    add(&mut node, "c2", 4, 1);
    add(&mut node, "c10", 7, 2);
    add(&mut node, "c2", 3, 5);
    let mut out = Vec::new();
    node.step(Event::Injected(Injected::GossipNow), &mut out).unwrap();
    assert_eq!(out.len(), 1);
    assert_eq!(out[0].dest, "n1");
    match &out[0].body.payload {
        Payload::GossipCount { adds } => assert_eq!(
            adds,
            &vec![("c10".to_string(), 7, 2), ("c2".to_string(), 3, 5), ("c2".to_string(), 4, 1)]
        ),
        other => panic!("unexpected gossip {:?}", other),
    }
}

#[test]
fn aggregate_sums_deltas() {
    let mut store: FactStore<(String, usize, usize)> = FactStore::new();
    assert_eq!(aggregate(&store), Some(0));
    assert!(store.insert(("a".to_string(), 1, 4)));
    assert!(store.insert(("b".to_string(), 1, 4)));
    assert!(store.insert(("a".to_string(), 2, 30)));
    assert!(!store.insert(("a".to_string(), 1, 4)));
    assert_eq!(aggregate(&store), Some(38));
}
