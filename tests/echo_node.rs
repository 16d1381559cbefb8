use std::collections::HashMap;

use fly::echo_node::EchoNode;
use fly::msg::{Body, Event, Injected, Message, Payload};
use fly::replica::NodeError;

fn envelope(src: &str, dest: &str, msg_id: Option<usize>, payload: Payload) -> Message {
    Message {
        src: src.to_string(),
        dest: dest.to_string(),
        body: Body { msg_id, in_reply_to: None, payload },
    }
}

fn init(node_id: &str, node_ids: &[&str]) -> Event<Message, Injected> {
    Event::Message(envelope(
        "c1",
        node_id,
        Some(1),
        Payload::Init {
            node_id: node_id.to_string(),
            node_ids: node_ids.iter().map(|s| s.to_string()).collect(),
        },
    ))
}

fn started(node_id: &str, node_ids: &[&str]) -> EchoNode {
    let mut out = Vec::new();
    EchoNode::new(init(node_id, node_ids), &mut out).expect("init accepted")
}

fn request(node: &mut EchoNode, dest: &str, msg_id: usize, payload: Payload) -> Vec<Message> {
    let mut out = Vec::new();
    node.step(Event::Message(envelope("c2", dest, Some(msg_id), payload)), &mut out)
        .expect("request accepted");
    out
}

fn read_values(node: &mut EchoNode, dest: &str) -> Vec<usize> {
    let out = request(node, dest, 900, Payload::Read);
    assert_eq!(out.len(), 1);
    match &out[0].body.payload {
        Payload::ReadOkEcho { messages } => {
            let mut m = messages.clone();
            m.sort();
            m
        }
        other => panic!("unexpected reply {:?}", other),
    }
}

fn topology(node: &mut EchoNode, dest: &str) {
    let mut t: HashMap<String, Vec<String>> = HashMap::new();
    t.insert("n0".to_string(), vec!["n1".to_string()]);
    let out = request(node, dest, 800, Payload::Topology { topology: t });
    assert!(matches!(out[0].body.payload, Payload::TopologyOk));
}

fn tick(node: &mut EchoNode) -> Vec<Message> {
    let mut out = Vec::new();
    node.step(Event::Injected(Injected::GossipNow), &mut out).expect("tick accepted");
    out
}

#[test]
fn func_test() {
    let init_msg = Message {
        src: "c1".to_string(),
        dest: "n0".to_string(),
        body: Body {
            msg_id: Some(1),
            in_reply_to: None,
            payload: Payload::Init { node_id: "n0".to_string(), node_ids: vec!["n1".to_string()] },
        },
    };
    let mut out = Vec::new();
    let state = EchoNode::new(Event::Message(init_msg), &mut out);
    assert!(state.is_ok());
    assert_eq!(out.len(), 1);
    assert_eq!(out[0].src, "n0");
    assert_eq!(out[0].dest, "c1");
    assert_eq!(out[0].body.msg_id, Some(0));
    assert_eq!(out[0].body.in_reply_to, Some(1));
    assert!(matches!(out[0].body.payload, Payload::InitOk));
}

#[test]
fn first_event_must_be_init() {
    let mut out = Vec::new();
    let r = EchoNode::new(Event::Message(envelope("c1", "n0", Some(1), Payload::Read)), &mut out);
    assert_eq!(r.err(), Some(NodeError::ExpectedInit));
    assert!(out.is_empty());
    let r = EchoNode::new(Event::EOF, &mut out);
    assert_eq!(r.err(), Some(NodeError::ExpectedInit));
    let r = EchoNode::new(Event::Injected(Injected::GossipNow), &mut out);
    assert_eq!(r.err(), Some(NodeError::ExpectedInit));
    assert!(out.is_empty());
}

#[test]
fn second_init_is_refused() {
    let mut node = started("n0", &["n0", "n1"]);
    let mut out = Vec::new();
    let r = node.step(init("n0", &["n0", "n1"]), &mut out);
    assert_eq!(r, Err(NodeError::AlreadyInitialized));
    assert!(out.is_empty());
}

#[test]
fn echo_is_echoed_with_correlation() {
    let mut node = started("n0", &["n0"]);
    let out = request(&mut node, "n0", 7, Payload::Echo { echo: "hello".to_string() });
    assert_eq!(out.len(), 1);
    assert_eq!(out[0].src, "n0");
    assert_eq!(out[0].dest, "c2");
    assert_eq!(out[0].body.in_reply_to, Some(7));
    assert_eq!(out[0].body.msg_id, Some(1));
    match &out[0].body.payload {
        Payload::EchoOk { echo } => assert_eq!(echo, "hello"),
        other => panic!("unexpected reply {:?}", other),
    }
}

#[test]
fn reply_ids_increase_and_correlate() {
    let mut node = started("n0", &["n0"]);
    let a = request(&mut node, "n0", 41, Payload::Read);
    let b = request(&mut node, "n0", 42, Payload::Broadcast { message: 3 });
    let c = request(&mut node, "n0", 43, Payload::Generate);
    assert_eq!(a[0].body.in_reply_to, Some(41));
    assert_eq!(b[0].body.in_reply_to, Some(42));
    assert_eq!(c[0].body.in_reply_to, Some(43));
    assert_eq!(a[0].body.msg_id, Some(1));
    assert_eq!(b[0].body.msg_id, Some(2));
    assert_eq!(c[0].body.msg_id, Some(3));
}

#[test]
fn generate_gives_distinct_hyphenated_ids() {
    let mut node = started("n0", &["n0"]);
    let a = request(&mut node, "n0", 1, Payload::Generate);
    let b = request(&mut node, "n0", 2, Payload::Generate);
    let id_a = match &a[0].body.payload {
        Payload::GenerateOk { id } => id.clone(),
        other => panic!("unexpected reply {:?}", other),
    };
    let id_b = match &b[0].body.payload {
        Payload::GenerateOk { id } => id.clone(),
        other => panic!("unexpected reply {:?}", other),
    };
    assert_eq!(id_a.chars().count(), 36);
    assert_eq!(id_a.chars().nth(8), Some('-'));
    assert_eq!(id_a.chars().nth(23), Some('-'));
    assert_ne!(id_a, id_b);
}

#[test]
fn broadcast_twice_reads_once() {
    let mut node = started("n0", &["n0"]);
    let out = request(&mut node, "n0", 1, Payload::Broadcast { message: 7 });
    assert!(matches!(out[0].body.payload, Payload::BroadcastOk));
    let out = request(&mut node, "n0", 2, Payload::Broadcast { message: 7 });
    assert!(matches!(out[0].body.payload, Payload::BroadcastOk));
    assert_eq!(read_values(&mut node, "n0"), vec![7]);
}

#[test]
fn acknowledgements_are_ignored() {
    let mut node = started("n0", &["n0"]);
    let mut out = Vec::new();
    node.step(Event::Message(envelope("n1", "n0", None, Payload::BroadcastOk)), &mut out).unwrap();
    node.step(Event::Message(envelope("n1", "n0", None, Payload::EchoOk { echo: "x".to_string() })), &mut out)
        .unwrap();
    node.step(Event::EOF, &mut out).unwrap();
    assert!(out.is_empty());
}

#[test]
fn unexpected_kinds_are_refused() {
    let mut node = started("n0", &["n0"]);
    let mut out = Vec::new();
    for p in [
        Payload::InitOk,
        Payload::TopologyOk,
        Payload::AddOk,
        Payload::Add { delta: 1 },
        Payload::ReadOkCount { value: 1 },
        Payload::GossipCount { adds: vec![] },
        Payload::GenerateOk { id: "x".to_string() },
    ] {
        let r = node.step(Event::Message(envelope("c1", "n0", Some(5), p)), &mut out);
        assert_eq!(r, Err(NodeError::Unexpected));
    }
    assert!(out.is_empty());
}

#[test]
fn gossip_from_unknown_peer_is_refused() {
    let mut node = started("n0", &["n0", "n1"]);
    let mut out = Vec::new();
    let r = node.step(Event::Message(envelope("n1", "n0", None, Payload::GossipEcho { ids: vec![4] })), &mut out);
    assert_eq!(r, Err(NodeError::UnknownPeer));
    assert!(read_values(&mut node, "n0").is_empty());
    topology(&mut node, "n0");
    let r = node.step(Event::Message(envelope("n5", "n0", None, Payload::GossipEcho { ids: vec![4] })), &mut out);
    assert_eq!(r, Err(NodeError::UnknownPeer));
    node.step(Event::Message(envelope("n1", "n0", None, Payload::GossipEcho { ids: vec![4] })), &mut out).unwrap();
    assert!(out.is_empty());
    assert_eq!(read_values(&mut node, "n0"), vec![4]);
}

#[test]
fn no_gossip_before_topology() {
    let mut node = started("n0", &["n0", "n1", "n2"]);
    request(&mut node, "n0", 1, Payload::Broadcast { message: 5 });
    assert!(tick(&mut node).is_empty());
    topology(&mut node, "n0");
    assert_eq!(tick(&mut node).len(), 2);
}

#[test]
fn root_gossips_to_every_other_node() {
    let mut node = started("n0", &["n0", "n1", "n2"]);
    topology(&mut node, "n0");
    request(&mut node, "n0", 1, Payload::Broadcast { message: 5 });
    let out = tick(&mut node);
    let mut dests: Vec<String> = out.iter().map(|m| m.dest.clone()).collect();
    dests.sort();
    assert_eq!(dests, vec!["n1".to_string(), "n2".to_string()]);
    for m in &out {
        assert_eq!(m.src, "n0");
        assert_eq!(m.body.msg_id, None);
        assert_eq!(m.body.in_reply_to, None);
        match &m.body.payload {
            Payload::GossipEcho { ids } => assert_eq!(ids, &vec![5]),
            other => panic!("unexpected gossip {:?}", other),
        }
    }
}

#[test]
fn leaf_gossips_to_root_only() {
    let mut node = started("n2", &["n0", "n1", "n2"]);
    topology(&mut node, "n2");
    request(&mut node, "n2", 1, Payload::Broadcast { message: 9 });
    let out = tick(&mut node);
    assert_eq!(out.len(), 1);
    assert_eq!(out[0].dest, "n0");
    assert_eq!(out[0].src, "n2");
}

#[test]
fn nothing_to_gossip_without_facts() {
    let mut node = started("n0", &["n0", "n1"]);
    topology(&mut node, "n0");
    assert!(tick(&mut node).is_empty());
}

#[test]
fn gossip_keeps_flowing_until_peer_confirms() {
    let mut node = started("n1", &["n0", "n1"]);
    topology(&mut node, "n1");
    request(&mut node, "n1", 1, Payload::Broadcast { message: 3 });
    assert_eq!(tick(&mut node).len(), 1);
    assert_eq!(tick(&mut node).len(), 1);
    let mut out = Vec::new();
    node.step(Event::Message(envelope("n0", "n1", Some(9), Payload::GossipEcho { ids: vec![3, 4] })), &mut out)
        .unwrap();
    assert!(out.is_empty());
    assert_eq!(read_values(&mut node, "n1"), vec![3, 4]);
    assert!(tick(&mut node).is_empty());
}

#[test]
fn gossip_batch_is_sorted_and_sample_is_bounded() {
    let mut node = started("n0", &["n0", "n1"]);
    topology(&mut node, "n0");
    let seen: Vec<usize> = (100..120).rev().collect();
    let mut out = Vec::new();
    node.step(Event::Message(envelope("n1", "n0", None, Payload::GossipEcho { ids: seen })), &mut out)
        .unwrap();
    assert!(tick(&mut node).is_empty());
    request(&mut node, "n0", 1, Payload::Broadcast { message: 5 });
    let out = tick(&mut node);
    assert_eq!(out.len(), 1);
    match &out[0].body.payload {
        Payload::GossipEcho { ids } => {
            assert!(ids.contains(&5));
            assert!(ids.len() <= 3);
            assert!(ids.windows(2).all(|w| w[0] < w[1]));
        }
        other => panic!("unexpected gossip {:?}", other),
    }
}

#[test]
fn star_cluster_converges_in_two_rounds() {
    let ids = ["n0", "n1", "n2", "n3"];
    let mut nodes: Vec<EchoNode> = ids.iter().map(|id| started(id, &ids)).collect();
    for (k, node) in nodes.iter_mut().enumerate() {
        topology(node, ids[k]);
        request(node, ids[k], 1, Payload::Broadcast { message: 10 + k });
    }
    for _round in 0..2 {
        let mut in_flight = Vec::new();
        for node in nodes.iter_mut() {
            in_flight.extend(tick(node));
        }
        for m in in_flight {
            let k = ids.iter().position(|id| *id == m.dest).unwrap();
            let mut out = Vec::new();
            nodes[k].step(Event::Message(m), &mut out).unwrap();
        }
    }
    for (k, node) in nodes.iter_mut().enumerate() {
        assert_eq!(read_values(node, ids[k]), vec![10, 11, 12, 13]);
    }
}
