//! The broadcast variant: every value broadcast anywhere becomes visible,
//! eventually, to every node.
use vstd::prelude::*;

use crate::fact_store::views;
use crate::msg::{Body, Event, Injected, Message, Payload};
use crate::peer_view::star_targets;
use crate::random::fresh_unique_id;
use crate::replica::{answered, gossiped, ignored, received, refused, started, NodeError, Replica};

verus! {

/// What one event does to a broadcast node.
pub open spec fn echo_step(
    pre: Replica<usize>,
    post: Replica<usize>,
    input: Event<Message, Injected>,
    out0: Seq<Message>,
    out1: Seq<Message>,
    r: Result<(), NodeError>,
) -> bool {
    match input {
        Event::EOF => ignored(pre, post, out0, out1, r),
        Event::Injected(_) => gossiped::<usize>(pre, post, out0, out1, r),
        Event::Message(m) => match m.body.payload {
            Payload::Init { .. } => refused(pre, post, out0, out1, r, NodeError::AlreadyInitialized),
            Payload::Echo { echo } => {
                &&& answered(pre, post, m, out0, out1, r)
                &&& r is Ok ==> post.same_state(&pre) && out1.last().body.payload
                    == Payload::EchoOk { echo }
            },
            Payload::Generate => {
                &&& answered(pre, post, m, out0, out1, r)
                &&& r is Ok ==> post.same_state(&pre)
                &&& r is Ok ==> (out1.last().body.payload matches Payload::GenerateOk { id } && id@.len() == 36
                    && id@[8] == '-' && id@[13] == '-' && id@[18] == '-' && id@[23] == '-')
            },
            Payload::Broadcast { message } => {
                &&& answered(pre, post, m, out0, out1, r)
                &&& r is Ok ==> {
                    &&& post.facts() == pre.facts().insert(message)
                    &&& post.fact_seq() == (if pre.facts().contains(message) {
                        pre.fact_seq()
                    } else {
                        pre.fact_seq().push(message)
                    })
                    &&& post.peers() == pre.peers()
                    &&& forall|i: int| 0 <= i < pre.peers().len() ==> #[trigger] post.seen(i) == pre.seen(i)
                    &&& out1.last().body.payload == Payload::BroadcastOk
                }
            },
            Payload::Read => {
                &&& answered(pre, post, m, out0, out1, r)
                &&& r is Ok ==> post.same_state(&pre)
                &&& r is Ok ==> (out1.last().body.payload matches Payload::ReadOkEcho { messages } && messages@
                    == pre.fact_seq() && messages@.no_duplicates() && messages@.to_set() == pre.facts())
            },
            Payload::Topology { .. } => {
                &&& answered(pre, post, m, out0, out1, r)
                &&& r is Ok ==> {
                    &&& post.peers().to_set() == star_targets(pre.own_id(), pre.known_ids())
                    &&& forall|i: int| 0 <= i < post.peers().len() ==> #[trigger] post.seen(i) == Set::<usize>::empty()
                    &&& post.fact_seq() == pre.fact_seq()
                    &&& post.facts() == pre.facts()
                    &&& out1.last().body.payload == Payload::TopologyOk
                }
            },
            Payload::GossipEcho { ids } => out1 == out0 && received::<usize>(pre, post, m.src@, views(ids@), r),
            Payload::EchoOk { .. } => ignored(pre, post, out0, out1, r),
            Payload::BroadcastOk => ignored(pre, post, out0, out1, r),
            _ => refused(pre, post, out0, out1, r, NodeError::Unexpected),
        },
    }
}

/// A node of the broadcast variant.
pub struct EchoNode {
    node: Replica<usize>,
}

impl EchoNode {
    pub closed spec fn replica(&self) -> Replica<usize> {
        self.node
    }

    pub open spec fn wf(&self) -> bool {
        self.replica().wf()
    }

    /// Starts a node from its first event, which must be an `init` envelope,
    /// and queues the `init_ok` answer on `out`. The node tracks no peer until
    /// a `topology` envelope arrives.
    pub fn new(init_msg: Event<Message, Injected>, out: &mut Vec<Message>) -> (r: Result<EchoNode, NodeError>)
        ensures
            started::<usize>(
                false,
                init_msg,
                match r {
                    Ok(n) => Some(n.replica()),
                    Err(_) => None,
                },
                match r {
                    Ok(_) => None,
                    Err(e) => Some(e),
                },
                old(out)@,
                final(out)@,
            ),
    {
        match init_msg {
            Event::Message(m) => {
                let Message { src, dest, body } = m;
                let Body { msg_id, in_reply_to: _, payload } = body;
                match payload {
                    Payload::Init { node_id, node_ids } => {
                        let reply = Message {
                            src: dest,
                            dest: src,
                            body: Body { msg_id: Some(0), in_reply_to: msg_id, payload: Payload::InitOk },
                        };
                        out.push(reply);
                        assert(out@.drop_last() =~= old(out)@);
                        Ok(EchoNode { node: Replica::from_init(node_id, node_ids, false) })
                    },
                    _ => Err(NodeError::ExpectedInit),
                }
            },
            _ => Err(NodeError::ExpectedInit),
        }
    }

    /// Numbers an envelope with the next message id.
    pub fn create_message(
        &mut self,
        src: String,
        dest: String,
        in_reply_to: Option<usize>,
        payload: Payload,
    ) -> (r: Message)
        requires
            old(self).replica().next_msg_id() < usize::MAX,
        ensures
            r == (Message {
                src,
                dest,
                body: Body { msg_id: Some(old(self).replica().next_msg_id()), in_reply_to, payload },
            }),
            final(self).replica().next_msg_id() == old(self).replica().next_msg_id() + 1,
            final(self).replica().same_state(&old(self).replica()),
            old(self).wf() ==> final(self).wf(),
    {
        self.node.create_message(src, dest, in_reply_to, payload)
    }

    /// Numbers an envelope and queues it on `out`.
    pub fn write_message(
        &mut self,
        src: String,
        dest: String,
        in_reply_to: Option<usize>,
        payload: Payload,
        out: &mut Vec<Message>,
    )
        requires
            old(self).replica().next_msg_id() < usize::MAX,
        ensures
            final(out)@ == old(out)@.push(
                Message {
                    src,
                    dest,
                    body: Body { msg_id: Some(old(self).replica().next_msg_id()), in_reply_to, payload },
                },
            ),
            final(self).replica().next_msg_id() == old(self).replica().next_msg_id() + 1,
            final(self).replica().same_state(&old(self).replica()),
            old(self).wf() ==> final(self).wf(),
    {
        self.node.write_message(src, dest, in_reply_to, payload, out)
    }

    /// Handles one event, queuing what it sends on `out`.
    pub fn step(&mut self, input: Event<Message, Injected>, out: &mut Vec<Message>) -> (r: Result<(), NodeError>)
        requires
            old(self).wf(),
        ensures
            final(self).wf(),
            echo_step(old(self).replica(), final(self).replica(), input, old(out)@, final(out)@, r),
    {
        match input {
            Event::EOF => Ok(()),
            Event::Injected(_) => self.node.gossip_tick(out),
            Event::Message(m) => {
                let Message { src, dest, body } = m;
                let Body { msg_id, in_reply_to: _, payload } = body;
                match payload {
                    Payload::Init { .. } => Err(NodeError::AlreadyInitialized),
                    Payload::Echo { echo } => {
                        if self.node.next_id_value() == usize::MAX {
                            return Err(NodeError::MsgIdsExhausted);
                        }
                        self.node.write_message(dest, src, msg_id, Payload::EchoOk { echo }, out);
                        Ok(())
                    },
                    Payload::Generate => {
                        if self.node.next_id_value() == usize::MAX {
                            return Err(NodeError::MsgIdsExhausted);
                        }
                        let id = fresh_unique_id();
                        self.node.write_message(dest, src, msg_id, Payload::GenerateOk { id }, out);
                        Ok(())
                    },
                    Payload::Broadcast { message } => {
                        if self.node.next_id_value() == usize::MAX {
                            return Err(NodeError::MsgIdsExhausted);
                        }
                        self.node.insert_fact(message);
                        self.node.write_message(dest, src, msg_id, Payload::BroadcastOk, out);
                        Ok(())
                    },
                    Payload::Read => {
                        if self.node.next_id_value() == usize::MAX {
                            return Err(NodeError::MsgIdsExhausted);
                        }
                        let messages = self.node.fact_store().to_vec();
                        proof {
                            self.node.lemma_wf();
                            assert(messages@ =~= views(messages@));
                        }
                        self.node.write_message(dest, src, msg_id, Payload::ReadOkEcho { messages }, out);
                        Ok(())
                    },
                    Payload::Topology { .. } => {
                        if self.node.next_id_value() == usize::MAX {
                            return Err(NodeError::MsgIdsExhausted);
                        }
                        self.node.reset_peers();
                        self.node.write_message(dest, src, msg_id, Payload::TopologyOk, out);
                        Ok(())
                    },
                    Payload::GossipEcho { ids } => self.node.receive_gossip(&src, ids),
                    Payload::EchoOk { .. } => Ok(()),
                    Payload::BroadcastOk => Ok(()),
                    _ => Err(NodeError::Unexpected),
                }
            },
        }
    }
}

} // verus!
