//! The counter variant: a grow-only counter built from uniquely identified
//! increment operations.
use vstd::prelude::*;

use crate::fact_store::views;
use crate::msg::{Body, Event, Injected, Message, Payload};
use crate::peer_view::star_targets;
use crate::random::fresh_unique_id;
use crate::fact::Op;
use crate::fact_store::FactStore;
use crate::replica::{answered, gossiped, ignored, received, refused, started, NodeError, Replica};

verus! {

/// The model of a counter operation: origin, origin's message id, delta.
pub type OpView = (Seq<char>, usize, usize);

/// The counter's value: the sum of the deltas of a set of operations.
pub open spec fn delta_total(s: Set<OpView>) -> int {
    s.fold(0int, |acc: int, op: OpView| acc + op.2)
}

/// What one event does to a counter node.
pub open spec fn count_step(
    pre: Replica<Op>,
    post: Replica<Op>,
    input: Event<Message, Injected>,
    out0: Seq<Message>,
    out1: Seq<Message>,
    r: Result<(), NodeError>,
) -> bool {
    match input {
        Event::EOF => ignored(pre, post, out0, out1, r),
        Event::Injected(_) => gossiped::<Op>(pre, post, out0, out1, r),
        Event::Message(m) => match m.body.payload {
            Payload::Init { .. } => refused(pre, post, out0, out1, r, NodeError::AlreadyInitialized),
            Payload::Echo { echo } => {
                &&& answered(pre, post, m, out0, out1, r)
                &&& r is Ok ==> post.same_state(&pre) && out1.last().body.payload
                    == Payload::EchoOk { echo }
            },
            Payload::Generate => {
                &&& answered(pre, post, m, out0, out1, r)
                &&& r is Ok ==> post.same_state(&pre)
                &&& r is Ok ==> (out1.last().body.payload matches Payload::GenerateOk { id } && id@.len() == 36
                    && id@[8] == '-' && id@[13] == '-' && id@[18] == '-' && id@[23] == '-')
            },
            Payload::Add { delta } => match m.body.msg_id {
                None => refused(pre, post, out0, out1, r, NodeError::MissingMsgId),
                Some(id) => if pre.next_msg_id() < usize::MAX && pre.facts().contains(
                    (m.src@, id, delta),
                ) {
                    refused(pre, post, out0, out1, r, NodeError::DuplicateOperation)
                } else {
                    &&& answered(pre, post, m, out0, out1, r)
                    &&& r is Ok ==> {
                        &&& post.facts() == pre.facts().insert((m.src@, id, delta))
                        &&& post.fact_seq() == pre.fact_seq().push((m.src@, id, delta))
                        &&& post.peers() == pre.peers()
                        &&& forall|i: int| 0 <= i < pre.peers().len() ==> #[trigger] post.seen(i) == pre.seen(i)
                        &&& out1.last().body.payload == Payload::AddOk
                    }
                },
            },
            Payload::Read => if pre.next_msg_id() < usize::MAX && delta_total(pre.facts()) > usize::MAX {
                refused(pre, post, out0, out1, r, NodeError::ValueOverflow)
            } else {
                &&& answered(pre, post, m, out0, out1, r)
                &&& r is Ok ==> post.same_state(&pre)
                &&& r is Ok ==> (out1.last().body.payload matches Payload::ReadOkCount { value } && value == delta_total(pre.facts()))
            },
            Payload::Topology { .. } => {
                &&& answered(pre, post, m, out0, out1, r)
                &&& r is Ok ==> {
                    &&& post.peers().to_set() == star_targets(pre.own_id(), pre.known_ids())
                    &&& forall|i: int| 0 <= i < post.peers().len() ==> #[trigger] post.seen(i) == Set::<OpView>::empty()
                    &&& post.fact_seq() == pre.fact_seq()
                    &&& post.facts() == pre.facts()
                    &&& out1.last().body.payload == Payload::TopologyOk
                }
            },
            Payload::GossipCount { adds } => out1 == out0 && received::<Op>(pre, post, m.src@, views(adds@), r),
            Payload::EchoOk { .. } => ignored(pre, post, out0, out1, r),
            Payload::BroadcastOk => ignored(pre, post, out0, out1, r),
            _ => refused(pre, post, out0, out1, r, NodeError::Unexpected),
        },
    }
}

/// A node of the counter variant.
pub struct CountNode {
    node: Replica<Op>,
}

impl CountNode {
    pub closed spec fn replica(&self) -> Replica<Op> {
        self.node
    }

    pub open spec fn wf(&self) -> bool {
        self.replica().wf()
    }

    /// Starts a node from its first event, which must be an `init` envelope,
    /// and queues the `init_ok` answer on `out`. The node starts with an empty
    /// view of every other node that `init` names.
    pub fn new(init_msg: Event<Message, Injected>, out: &mut Vec<Message>) -> (r: Result<CountNode, NodeError>)
        ensures
            started::<Op>(
                true,
                init_msg,
                match r {
                    Ok(n) => Some(n.replica()),
                    Err(_) => None,
                },
                match r {
                    Ok(_) => None,
                    Err(e) => Some(e),
                },
                old(out)@,
                final(out)@,
            ),
    {
        match init_msg {
            Event::Message(m) => {
                let Message { src, dest, body } = m;
                let Body { msg_id, in_reply_to: _, payload } = body;
                match payload {
                    Payload::Init { node_id, node_ids } => {
                        let reply = Message {
                            src: dest,
                            dest: src,
                            body: Body { msg_id: Some(0), in_reply_to: msg_id, payload: Payload::InitOk },
                        };
                        out.push(reply);
                        assert(out@.drop_last() =~= old(out)@);
                        Ok(CountNode { node: Replica::from_init(node_id, node_ids, true) })
                    },
                    _ => Err(NodeError::ExpectedInit),
                }
            },
            _ => Err(NodeError::ExpectedInit),
        }
    }

    /// Numbers an envelope with the next message id.
    pub fn create_message(
        &mut self,
        src: String,
        dest: String,
        in_reply_to: Option<usize>,
        payload: Payload,
    ) -> (r: Message)
        requires
            old(self).replica().next_msg_id() < usize::MAX,
        ensures
            r == (Message {
                src,
                dest,
                body: Body { msg_id: Some(old(self).replica().next_msg_id()), in_reply_to, payload },
            }),
            final(self).replica().next_msg_id() == old(self).replica().next_msg_id() + 1,
            final(self).replica().same_state(&old(self).replica()),
            old(self).wf() ==> final(self).wf(),
    {
        self.node.create_message(src, dest, in_reply_to, payload)
    }

    /// Numbers an envelope and queues it on `out`.
    pub fn write_message(
        &mut self,
        src: String,
        dest: String,
        in_reply_to: Option<usize>,
        payload: Payload,
        out: &mut Vec<Message>,
    )
        requires
            old(self).replica().next_msg_id() < usize::MAX,
        ensures
            final(out)@ == old(out)@.push(
                Message {
                    src,
                    dest,
                    body: Body { msg_id: Some(old(self).replica().next_msg_id()), in_reply_to, payload },
                },
            ),
            final(self).replica().next_msg_id() == old(self).replica().next_msg_id() + 1,
            final(self).replica().same_state(&old(self).replica()),
            old(self).wf() ==> final(self).wf(),
    {
        self.node.write_message(src, dest, in_reply_to, payload, out)
    }

    /// Handles one event, queuing what it sends on `out`.
    pub fn step(&mut self, input: Event<Message, Injected>, out: &mut Vec<Message>) -> (r: Result<(), NodeError>)
        requires
            old(self).wf(),
        ensures
            final(self).wf(),
            count_step(old(self).replica(), final(self).replica(), input, old(out)@, final(out)@, r),
    {
        match input {
            Event::EOF => Ok(()),
            Event::Injected(_) => self.node.gossip_tick(out),
            Event::Message(m) => {
                let Message { src, dest, body } = m;
                let Body { msg_id, in_reply_to: _, payload } = body;
                match payload {
                    Payload::Init { .. } => Err(NodeError::AlreadyInitialized),
                    Payload::Echo { echo } => {
                        if self.node.next_id_value() == usize::MAX {
                            return Err(NodeError::MsgIdsExhausted);
                        }
                        self.node.write_message(dest, src, msg_id, Payload::EchoOk { echo }, out);
                        Ok(())
                    },
                    Payload::Generate => {
                        if self.node.next_id_value() == usize::MAX {
                            return Err(NodeError::MsgIdsExhausted);
                        }
                        let id = fresh_unique_id();
                        self.node.write_message(dest, src, msg_id, Payload::GenerateOk { id }, out);
                        Ok(())
                    },
                    Payload::Add { delta } => {
                        let id = match msg_id {
                            Some(id) => id,
                            None => {
                                return Err(NodeError::MissingMsgId);
                            },
                        };
                        if self.node.next_id_value() == usize::MAX {
                            return Err(NodeError::MsgIdsExhausted);
                        }
                        let op: Op = (src.clone(), id, delta);
                        if self.node.fact_store().contains(&op) {
                            return Err(NodeError::DuplicateOperation);
                        }
                        self.node.insert_fact(op);
                        self.node.write_message(dest, src, msg_id, Payload::AddOk, out);
                        Ok(())
                    },
                    Payload::Read => {
                        if self.node.next_id_value() == usize::MAX {
                            return Err(NodeError::MsgIdsExhausted);
                        }
                        let value = match aggregate(self.node.fact_store()) {
                            Some(v) => v,
                            None => {
                                return Err(NodeError::ValueOverflow);
                            },
                        };
                        self.node.write_message(dest, src, msg_id, Payload::ReadOkCount { value }, out);
                        Ok(())
                    },
                    Payload::Topology { .. } => {
                        if self.node.next_id_value() == usize::MAX {
                            return Err(NodeError::MsgIdsExhausted);
                        }
                        self.node.reset_peers();
                        self.node.write_message(dest, src, msg_id, Payload::TopologyOk, out);
                        Ok(())
                    },
                    Payload::GossipCount { adds } => self.node.receive_gossip(&src, adds),
                    Payload::EchoOk { .. } => Ok(()),
                    Payload::BroadcastOk => Ok(()),
                    _ => Err(NodeError::Unexpected),
                }
            },
        }
    }
}

/// The store that inserting `ops` one by one into `s` leaves.
pub open spec fn insert_all<V>(s: Set<V>, ops: Seq<V>) -> Set<V>
    decreases ops.len(),
{
    if ops.len() == 0 {
        s
    } else {
        insert_all(s, ops.drop_last()).insert(ops.last())
    }
}

proof fn lemma_insert_all_union<V>(s: Set<V>, ops: Seq<V>)
    ensures
        insert_all(s, ops) == s.union(ops.to_set()),
    decreases ops.len(),
{
    if ops.len() == 0 {
        assert(s.union(ops.to_set()) =~= s);
    } else {
        let init = ops.drop_last();
        lemma_insert_all_union(s, init);
        assert(ops =~= init.push(ops.last()));
        init.lemma_push_to_set_commute(ops.last());
        assert(insert_all(s, ops) =~= s.union(ops.to_set()));
    }
}

/// Adding the same operations in any order leaves the same store, and so the
/// same counter value.
pub proof fn lemma_add_order_irrelevant(s: Set<OpView>, a: Seq<OpView>, b: Seq<OpView>)
    requires
        a.to_set() == b.to_set(),
    ensures
        insert_all(s, a) == insert_all(s, b),
        delta_total(insert_all(s, a)) == delta_total(insert_all(s, b)),
{
    lemma_insert_all_union(s, a);
    lemma_insert_all_union(s, b);
}

/// `e` is an `add` envelope that carries a message id.
pub open spec fn is_add(e: Event<Message, Injected>) -> bool {
    e matches Event::Message(m) && m.body.payload is Add && m.body.msg_id is Some
}

/// The operation an `add` envelope asks for: its sender, its id, its delta.
pub open spec fn add_op(e: Event<Message, Injected>) -> OpView {
    match e {
        Event::Message(m) => match m.body.payload {
            Payload::Add { delta } => (m.src@, m.body.msg_id->Some_0, delta),
            _ => (Seq::empty(), 0, 0),
        },
        _ => (Seq::empty(), 0, 0),
    }
}

/// A run of accepted steps: `inputs[k]` took the node from `states[k]` to
/// `states[k + 1]` and the queue from `outs[k]` to `outs[k + 1]`, with `Ok`.
pub open spec fn accepted_run(
    states: Seq<Replica<Op>>,
    inputs: Seq<Event<Message, Injected>>,
    outs: Seq<Seq<Message>>,
) -> bool {
    &&& states.len() == inputs.len() + 1
    &&& outs.len() == inputs.len() + 1
    &&& forall|k: int|
        0 <= k < inputs.len() ==> count_step(
            #[trigger] states[k],
            states[k + 1],
            inputs[k],
            outs[k],
            outs[k + 1],
            Ok(()),
        )
}

/// A run of accepted `add` steps leaves the store holding what it held plus
/// every operation the run added.
pub proof fn lemma_add_run(
    states: Seq<Replica<Op>>,
    inputs: Seq<Event<Message, Injected>>,
    outs: Seq<Seq<Message>>,
)
    requires
        accepted_run(states, inputs, outs),
        forall|k: int| 0 <= k < inputs.len() ==> is_add(#[trigger] inputs[k]),
    ensures
        states.last().facts() == states[0].facts().union(inputs.map_values(|e| add_op(e)).to_set()),
    decreases inputs.len(),
{
    let ops = inputs.map_values(|e| add_op(e));
    if inputs.len() == 0 {
        assert(ops.to_set() =~= Set::<OpView>::empty());
        assert(states[0].facts().union(ops.to_set()) =~= states[0].facts());
    } else {
        let m = inputs.len() - 1;
        let ps = states.drop_last();
        let pi = inputs.drop_last();
        let po = outs.drop_last();
        assert forall|k: int| 0 <= k < pi.len() implies count_step(
            #[trigger] ps[k],
            ps[k + 1],
            pi[k],
            po[k],
            po[k + 1],
            Ok(()),
        ) by {
            assert(count_step(states[k], states[k + 1], inputs[k], outs[k], outs[k + 1], Ok(())));
        }
        assert forall|k: int| 0 <= k < pi.len() implies is_add(#[trigger] pi[k]) by {
            assert(is_add(inputs[k]));
        }
        lemma_add_run(ps, pi, po);
        assert(count_step(states[m], states[m + 1], inputs[m], outs[m], outs[m + 1], Ok(())));
        assert(is_add(inputs[m]));
        assert(states[m + 1].facts() == states[m].facts().insert(add_op(inputs[m])));
        assert(pi.map_values(|e| add_op(e)) =~= ops.drop_last());
        assert(ops =~= ops.drop_last().push(add_op(inputs[m])));
        ops.drop_last().lemma_push_to_set_commute(add_op(inputs[m]));
        assert(states.last().facts() =~= states[0].facts().union(ops.to_set()));
    }
}

/// Two runs of accepted `add` steps from the same store that add the same
/// operations, in any order, leave the same store and the same counter value.
pub proof fn lemma_add_runs_agree(
    a: Seq<Replica<Op>>,
    a_inputs: Seq<Event<Message, Injected>>,
    a_outs: Seq<Seq<Message>>,
    b: Seq<Replica<Op>>,
    b_inputs: Seq<Event<Message, Injected>>,
    b_outs: Seq<Seq<Message>>,
)
    requires
        accepted_run(a, a_inputs, a_outs),
        accepted_run(b, b_inputs, b_outs),
        forall|k: int| 0 <= k < a_inputs.len() ==> is_add(#[trigger] a_inputs[k]),
        forall|k: int| 0 <= k < b_inputs.len() ==> is_add(#[trigger] b_inputs[k]),
        a[0].facts() == b[0].facts(),
        a_inputs.map_values(|e| add_op(e)).to_set() == b_inputs.map_values(|e| add_op(e)).to_set(),
    ensures
        a.last().facts() == b.last().facts(),
        delta_total(a.last().facts()) == delta_total(b.last().facts()),
{
    lemma_add_run(a, a_inputs, a_outs);
    lemma_add_run(b, b_inputs, b_outs);
}

/// Receiving the same gossip twice counts it once: the second receipt leaves
/// the store, and the counter, as the first left it.
pub proof fn lemma_gossip_replay(
    pre: Replica<Op>,
    mid: Replica<Op>,
    post: Replica<Op>,
    src: Seq<char>,
    batch: Seq<OpView>,
    r1: Result<(), NodeError>,
    r2: Result<(), NodeError>,
)
    requires
        received::<Op>(pre, mid, src, batch, r1),
        received::<Op>(mid, post, src, batch, r2),
    ensures
        post.facts() == mid.facts(),
        delta_total(post.facts()) == delta_total(mid.facts()),
{
    if pre.peers().contains(src) {
        assert(mid.peers() == pre.peers());
        assert(post.facts() =~= mid.facts());
    }
}

/// Gossip that carries only operations the node already knows changes
/// neither its store nor its counter.
pub proof fn lemma_known_gossip_no_effect(
    pre: Replica<Op>,
    post: Replica<Op>,
    src: Seq<char>,
    batch: Seq<OpView>,
    r: Result<(), NodeError>,
)
    requires
        received::<Op>(pre, post, src, batch, r),
        batch.to_set().subset_of(pre.facts()),
    ensures
        post.facts() == pre.facts(),
        delta_total(post.facts()) == delta_total(pre.facts()),
{
    assert(pre.facts().union(batch.to_set()) =~= pre.facts());
}

/// The sum of the deltas of `ops` in order.
pub open spec fn seq_total(ops: Seq<OpView>) -> int
    decreases ops.len(),
{
    if ops.len() == 0 {
        0
    } else {
        seq_total(ops.drop_last()) + ops.last().2
    }
}

proof fn lemma_total_commutative()
    ensures
        vstd::set::fold::is_fun_commutative(|acc: int, op: OpView| acc + op.2),
{
}

/// Adding a new operation adds its delta to the counter.
pub proof fn lemma_total_insert(s: Set<OpView>, op: OpView)
    requires
        s.finite(),
        !s.contains(op),
    ensures
        delta_total(s.insert(op)) == delta_total(s) + op.2,
{
    lemma_total_commutative();
    vstd::set::fold::lemma_fold_insert(s, 0int, |acc: int, op: OpView| acc + op.2, op);
}

proof fn lemma_total_of_seq(ops: Seq<OpView>)
    requires
        ops.no_duplicates(),
    ensures
        delta_total(ops.to_set()) == seq_total(ops),
    decreases ops.len(),
{
    if ops.len() == 0 {
        assert(ops.to_set() =~= Set::<OpView>::empty());
        vstd::set::fold::lemma_fold_empty(0int, |acc: int, op: OpView| acc + op.2);
    } else {
        let init = ops.drop_last();
        assert(ops =~= init.push(ops.last()));
        init.lemma_push_to_set_commute(ops.last());
        lemma_total_of_seq(init);
        vstd::seq_lib::seq_to_set_is_finite(init);
        assert(!init.to_set().contains(ops.last())) by {
            if init.to_set().contains(ops.last()) {
                let k = choose|k: int| 0 <= k < init.len() && init[k] == ops.last();
                assert(ops[k] == ops[ops.len() - 1]);
            }
        }
        lemma_total_insert(init.to_set(), ops.last());
    }
}

proof fn lemma_total_prefix(ops: Seq<OpView>, i: int)
    requires
        0 <= i <= ops.len(),
    ensures
        seq_total(ops.take(i)) <= seq_total(ops),
    decreases ops.len() - i,
{
    if i < ops.len() {
        lemma_total_prefix(ops, i + 1);
        assert(ops.take(i + 1).drop_last() =~= ops.take(i));
    } else {
        assert(ops.take(i) =~= ops);
    }
}

/// The counter's value of a store: the sum of the deltas of its operations,
/// or `None` when that sum does not fit in a `usize`.
pub fn aggregate(store: &FactStore<Op>) -> (r: Option<usize>)
    requires
        store.wf(),
    ensures
        r is Some <==> delta_total(store@) <= usize::MAX,
        r matches Some(v) ==> v == delta_total(store@),
{
    let ghost ops = store.seq_view();
    let n = store.len();
    let mut sum: usize = 0;
    let mut i: usize = 0;
    proof {
        lemma_total_of_seq(ops);
        assert(ops.take(0) =~= Seq::<OpView>::empty());
    }
    while i < n
        invariant
            n == ops.len(),
            ops == store.seq_view(),
            i <= n,
            sum == seq_total(ops.take(i as int)),
            delta_total(store@) == seq_total(ops),
        decreases n - i,
    {
        let op = store.get(i);
        proof {
            assert(ops.take(i + 1).drop_last() =~= ops.take(i as int));
            lemma_total_prefix(ops, i + 1);
        }
        match sum.checked_add(op.2) {
            Some(s) => {
                sum = s;
            },
            None => {
                return None;
            },
        }
        i = i + 1;
    }
    assert(ops.take(n as int) =~= ops);
    Some(sum)
}

} // verus!
