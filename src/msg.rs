//! The envelope model: what nodes send and receive.
use std::collections::HashMap;
use vstd::prelude::*;

verus! {

/// Events that a node produces for itself.
#[derive(Clone, Debug)]
pub enum Injected {
    /// Time to run a gossip round.
    GossipNow,
}

/// One event for a node's loop: an envelope, an injected event, or end of input.
#[derive(Clone, Debug)]
pub enum Event<M, I = ()> {
    Message(M),
    Injected(I),
    EOF,
}

/// An envelope.
#[derive(Clone, Debug)]
pub struct Message {
    pub src: String,
    pub dest: String,
    pub body: Body,
}

#[derive(Clone, Debug)]
pub struct Body {
    /// Unique per sender, increasing; absent on fire-and-forget gossip.
    pub msg_id: Option<usize>,
    /// The `msg_id` of the request this envelope answers.
    pub in_reply_to: Option<usize>,
    pub payload: Payload,
}

#[derive(Clone, Debug)]
pub enum Payload {
    Topology { topology: HashMap<String, Vec<String>> },
    TopologyOk,
    Read,
    ReadOkEcho { messages: Vec<usize> },
    ReadOkCount { value: usize },
    Add { delta: usize },
    AddOk,
    Broadcast { message: usize },
    BroadcastOk,
    GossipEcho { ids: Vec<usize> },
    GossipCount { adds: Vec<(String, usize, usize)> },
    Generate,
    GenerateOk { id: String },
    Echo { echo: String },
    EchoOk { echo: String },
    Init { node_id: String, node_ids: Vec<String> },
    InitOk,
}

} // verus!
