//! The state shared by both node variants and the handlers they have in common.
use vstd::prelude::*;

use crate::fact::Fact;
use crate::fact_store::{views, FactStore};
use crate::gossip::{batch_contents, gossip_batch, strictly_sorted};
use crate::msg::{Body, Event, Injected, Message, Payload};
use crate::peer_view::{other_views, star_targets, star_views, PeerViews};
use crate::random::choose_multiple;

verus! {

/// Why a node refused an event. Each one ends the node's run.
#[derive(Clone, Copy, Debug, PartialEq, Eq, Structural)]
pub enum NodeError {
    /// The first event was not an `init` envelope.
    ExpectedInit,
    /// A second `init` arrived.
    AlreadyInitialized,
    /// A kind of envelope that this node never expects.
    Unexpected,
    /// An `add` without a `msg_id`.
    MissingMsgId,
    /// An `add` whose operation is already known.
    DuplicateOperation,
    /// Gossip from a node that is not a tracked peer.
    UnknownPeer,
    /// The counter's value does not fit in a `usize`.
    ValueOverflow,
    /// No message id is left to assign.
    MsgIdsExhausted,
}

/// An envelope that answers `input`: addressed back to its sender, carrying
/// `id` as its own id and the request's id as `in_reply_to`.
pub open spec fn is_reply(m: Message, input: Message, id: usize) -> bool {
    &&& m.src@ == input.dest@
    &&& m.dest@ == input.src@
    &&& m.body.msg_id == Some(id)
    &&& m.body.in_reply_to == input.body.msg_id
}

/// A batch that the engine may send to a peer: the facts its view lacks plus a
/// redundant sample of `len / 10` facts of the store, sorted, no duplicates.
pub open spec fn is_gossip_for<F: Fact>(store: Seq<F::V>, seen: Set<F::V>, batch: Seq<F::V>) -> bool {
    &&& strictly_sorted::<F>(batch)
    &&& exists|sample: Seq<usize>|
        {
            &&& sample.len() == store.len() / 10
            &&& sample.no_duplicates()
            &&& forall|k: int| 0 <= k < sample.len() ==> #[trigger] sample[k] < store.len()
            &&& batch.to_set() == batch_contents(store, seen, sample)
        }
}

/// How a node comes out of its first event: an `init` envelope yields a node
/// with the given identity and no facts, and queues the `init_ok` answer
/// numbered 0; any other event is refused. The node starts with an empty view
/// of every other node it names if `tracks_others`, else with no tracked peer
/// (peers then come from `topology`).
pub open spec fn started<F: Fact>(
    tracks_others: bool,
    init_msg: Event<Message, Injected>,
    node: Option<Replica<F>>,
    r_err: Option<NodeError>,
    out0: Seq<Message>,
    out1: Seq<Message>,
) -> bool {
    match init_msg {
        Event::Message(m) => match m.body.payload {
            Payload::Init { node_id, node_ids } => {
                &&& r_err is None
                &&& node matches Some(n) && {
                    &&& n.wf()
                    &&& n.own_id() == node_id@
                    &&& n.known_ids() == views(node_ids@)
                    &&& n.next_msg_id() == 1
                    &&& n.facts() == Set::<F::V>::empty()
                    &&& n.fact_seq() == Seq::<F::V>::empty()
                    &&& tracks_others ==> n.peers().to_set() == views(node_ids@).to_set().remove(node_id@)
                    &&& !tracks_others ==> n.peers() == Seq::<Seq<char>>::empty()
                    &&& forall|i: int| 0 <= i < n.peers().len() ==> #[trigger] n.seen(i) == Set::<F::V>::empty()
                }
                &&& out1.len() == out0.len() + 1
                &&& out1.drop_last() == out0
                &&& is_reply(out1.last(), m, 0)
                &&& out1.last().body.payload == Payload::InitOk
            },
            _ => node is None && r_err == Some(NodeError::ExpectedInit) && out1 == out0,
        },
        _ => node is None && r_err == Some(NodeError::ExpectedInit) && out1 == out0,
    }
}

/// The event was refused with `e`: nothing changed and nothing was sent.
pub open spec fn refused<F>(
    pre: Replica<F>,
    post: Replica<F>,
    out0: Seq<Message>,
    out1: Seq<Message>,
    r: Result<(), NodeError>,
    e: NodeError,
) -> bool {
    r == Err::<(), NodeError>(e) && post == pre && out1 == out0
}

/// The event needed no action: nothing changed and nothing was sent.
pub open spec fn ignored<F>(
    pre: Replica<F>,
    post: Replica<F>,
    out0: Seq<Message>,
    out1: Seq<Message>,
    r: Result<(), NodeError>,
) -> bool {
    r is Ok && post == pre && out1 == out0
}

/// The request `m` was answered with one envelope numbered with the next
/// message id, unless no id was left, in which case nothing happened.
pub open spec fn answered<F: Fact>(
    pre: Replica<F>,
    post: Replica<F>,
    m: Message,
    out0: Seq<Message>,
    out1: Seq<Message>,
    r: Result<(), NodeError>,
) -> bool {
    if pre.next_msg_id() == usize::MAX {
        refused(pre, post, out0, out1, r, NodeError::MsgIdsExhausted)
    } else {
        &&& r is Ok
        &&& out1.len() == out0.len() + 1
        &&& out1.drop_last() == out0
        &&& is_reply(out1.last(), m, pre.next_msg_id())
        &&& post.next_msg_id() == pre.next_msg_id() + 1
        &&& post.own_id() == pre.own_id()
        &&& post.known_ids() == pre.known_ids()
    }
}

/// A gossip round was run: the envelopes `out1` adds to `out0` are
/// fire-and-forget gossip from this node, without a message id, carrying the
/// batches of a round that `gossip_round_ok` accepts, and nothing else changed.
pub open spec fn gossiped<F: Fact>(
    pre: Replica<F>,
    post: Replica<F>,
    out0: Seq<Message>,
    out1: Seq<Message>,
    r: Result<(), NodeError>,
) -> bool {
    let added = out1.subrange(out0.len() as int, out1.len() as int);
    &&& r is Ok
    &&& out1.len() >= out0.len()
    &&& out1.subrange(0, out0.len() as int) == out0
    &&& forall|k: int|
        0 <= k < added.len() ==> {
            &&& (#[trigger] added[k]).src@ == pre.own_id()
            &&& added[k].body.msg_id is None
            &&& added[k].body.in_reply_to is None
            &&& F::batch_in(added[k].body.payload) is Some
        }
    &&& pre.gossip_round_ok(sent_in::<F>(added))
    &&& post == pre
}

/// Gossip carrying `batch` arrived from `src`: refused with nothing changed if
/// `src` is not a tracked peer; otherwise the batch joined the store and the
/// view of `src`, and nothing else changed.
pub open spec fn received<F: Fact>(
    pre: Replica<F>,
    post: Replica<F>,
    src: Seq<char>,
    batch: Seq<F::V>,
    r: Result<(), NodeError>,
) -> bool {
    if !pre.peers().contains(src) {
        r == Err::<(), NodeError>(NodeError::UnknownPeer) && post == pre
    } else {
        &&& r is Ok
        &&& post.facts() == pre.facts().union(batch.to_set())
        &&& post.peers() == pre.peers()
        &&& forall|i: int|
            0 <= i < pre.peers().len() ==> #[trigger] post.seen(i) == (if pre.peers()[i] == src {
                pre.seen(i).union(batch.to_set())
            } else {
                pre.seen(i)
            })
        &&& post.own_id() == pre.own_id()
        &&& post.known_ids() == pre.known_ids()
        &&& post.next_msg_id() == pre.next_msg_id()
    }
}

/// The destinations and batches of a run of gossip envelopes.
pub open spec fn sent_in<F: Fact>(added: Seq<Message>) -> Seq<(Seq<char>, Seq<F::V>)> {
    added.map_values(|m: Message| (m.dest@, F::batch_in(m.body.payload)->Some_0))
}

/// The model of a list of (peer, batch) pairs.
pub open spec fn sent_of<F: Fact>(r: Seq<(String, Vec<F>)>) -> Seq<(Seq<char>, Seq<F::V>)> {
    r.map_values(|e: (String, Vec<F>)| (e.0@, views(e.1@)))
}

/// The node state both variants share.
pub struct Replica<F> {
    node_id: String,
    node_ids: Vec<String>,
    node_msg_id: usize,
    facts: FactStore<F>,
    other_nodes_seen: PeerViews<F>,
}

impl<F: Fact> Replica<F> {
    pub closed spec fn own_id(&self) -> Seq<char> {
        self.node_id@
    }

    /// The ids of the cluster as given at `init`.
    pub closed spec fn known_ids(&self) -> Seq<Seq<char>> {
        views(self.node_ids@)
    }

    /// The id the next envelope will carry.
    pub closed spec fn next_msg_id(&self) -> usize {
        self.node_msg_id
    }

    /// The fact store's contents.
    pub closed spec fn facts(&self) -> Set<F::V> {
        self.facts@
    }

    /// The fact store's contents in insertion order.
    pub closed spec fn fact_seq(&self) -> Seq<F::V> {
        self.facts.seq_view()
    }

    /// The tracked peers, in order.
    pub closed spec fn peers(&self) -> Seq<Seq<char>> {
        self.other_nodes_seen.peers()
    }

    /// What the `i`-th tracked peer is known to hold.
    pub closed spec fn seen(&self, i: int) -> Set<F::V> {
        self.other_nodes_seen.seen(i)
    }

    /// The store holds no duplicates, peers are distinct, and no view holds a
    /// fact that the store lacks.
    pub closed spec fn wf(&self) -> bool {
        &&& self.facts.wf()
        &&& self.other_nodes_seen.wf()
        &&& forall|i: int|
            0 <= i < self.peers().len() ==> #[trigger] self.seen(i).subset_of(self.facts@)
    }

    /// Everything but the message id counter is as in `other`.
    pub open spec fn same_state(&self, other: &Self) -> bool {
        &&& self.own_id() == other.own_id()
        &&& self.known_ids() == other.known_ids()
        &&& self.fact_seq() == other.fact_seq()
        &&& self.facts() == other.facts()
        &&& self.peers() == other.peers()
        &&& forall|i: int| 0 <= i < self.peers().len() ==> #[trigger] self.seen(i) == other.seen(i)
    }

    /// `entry` is a batch for a tracked peer, other than the node itself, whose
    /// view differs from the store.
    pub open spec fn is_due_batch(&self, entry: (Seq<char>, Seq<F::V>)) -> bool {
        exists|i: int|
            {
                &&& 0 <= i < self.peers().len()
                &&& #[trigger] self.peers()[i] == entry.0
                &&& self.peers()[i] != self.own_id()
                &&& self.seen(i) != self.facts()
                &&& is_gossip_for::<F>(self.fact_seq(), self.seen(i), entry.1)
            }
    }

    /// `d` is one of the first `n` tracked peers.
    pub open spec fn among_first(&self, d: Seq<char>, n: int) -> bool {
        exists|j: int| 0 <= j < n && #[trigger] self.peers()[j] == d
    }

    /// What one gossip round sent: one batch to each tracked peer other than
    /// the node itself whose view differs from the store, to no one else.
    pub open spec fn gossip_round_ok(&self, sent: Seq<(Seq<char>, Seq<F::V>)>) -> bool {
        &&& forall|k: int| 0 <= k < sent.len() ==> self.is_due_batch(#[trigger] sent[k])
        &&& forall|i: int|
            0 <= i < self.peers().len() && self.peers()[i] != self.own_id() && self.seen(i)
                != self.facts() ==> exists|k: int| 0 <= k < sent.len() && #[trigger] sent[k].0 == self.peers()[i]
        &&& forall|k: int, l: int| 0 <= k < l < sent.len() ==> sent[k].0 != sent[l].0
    }

    /// A node that has just accepted `init`: no facts, the next envelope
    /// numbered 1 (0 went to the `init` reply), and, if `track_others`, an
    /// empty view of every other node named, else no tracked peer.
    pub fn from_init(node_id: String, node_ids: Vec<String>, track_others: bool) -> (r: Self)
        ensures
            r.wf(),
            r.own_id() == node_id@,
            r.known_ids() == views(node_ids@),
            r.next_msg_id() == 1,
            r.facts() == Set::<F::V>::empty(),
            r.fact_seq() == Seq::<F::V>::empty(),
            track_others ==> r.peers().to_set() == views(node_ids@).to_set().remove(node_id@),
            !track_others ==> r.peers() == Seq::<Seq<char>>::empty(),
            forall|i: int| 0 <= i < r.peers().len() ==> #[trigger] r.seen(i) == Set::<F::V>::empty(),
    {
        let other_nodes_seen = if track_others {
            other_views(&node_id, &node_ids)
        } else {
            PeerViews::new()
        };
        let r = Replica { node_id, node_ids, node_msg_id: 1, facts: FactStore::new(), other_nodes_seen };
        assert forall|i: int| 0 <= i < r.peers().len() implies #[trigger] r.seen(i).subset_of(
            r.facts@,
        ) by {
            assert(r.seen(i) == Set::<F::V>::empty());
        }
        r
    }

    /// What well-formedness gives callers: the ordered listing of the store
    /// holds each fact once and lists exactly the store, and peers are distinct.
    pub proof fn lemma_wf(&self)
        requires
            self.wf(),
        ensures
            self.fact_seq().no_duplicates(),
            self.fact_seq().to_set() == self.facts(),
            self.peers().no_duplicates(),
            forall|i: int| 0 <= i < self.peers().len() ==> #[trigger] self.seen(i).subset_of(self.facts()),
    {
        self.other_nodes_seen.lemma_distinct();
    }

    pub fn next_id_value(&self) -> (r: usize)
        ensures
            r == self.next_msg_id(),
    {
        self.node_msg_id
    }

    pub fn fact_store(&self) -> (r: &FactStore<F>)
        ensures
            r@ == self.facts(),
            r.seq_view() == self.fact_seq(),
            self.wf() ==> r.wf(),
    {
        &self.facts
    }

    /// Numbers an envelope with the next message id.
    pub fn create_message(
        &mut self,
        src: String,
        dest: String,
        in_reply_to: Option<usize>,
        payload: Payload,
    ) -> (r: Message)
        requires
            old(self).next_msg_id() < usize::MAX,
        ensures
            r == (Message {
                src,
                dest,
                body: Body { msg_id: Some(old(self).next_msg_id()), in_reply_to, payload },
            }),
            final(self).next_msg_id() == old(self).next_msg_id() + 1,
            final(self).same_state(old(self)),
            old(self).wf() ==> final(self).wf(),
    {
        let msg_id = Some(self.node_msg_id);
        let body = Body { msg_id, in_reply_to, payload };
        self.node_msg_id = self.node_msg_id + 1;
        proof {
            if old(self).wf() {
                assert forall|i: int| 0 <= i < self.peers().len() implies #[trigger] self.seen(
                    i,
                ).subset_of(self.facts@) by {
                    assert(old(self).seen(i).subset_of(old(self).facts@));
                }
            }
        }
        Message { src, dest, body }
    }

    /// Numbers an envelope and queues it on `out`.
    pub fn write_message(
        &mut self,
        src: String,
        dest: String,
        in_reply_to: Option<usize>,
        payload: Payload,
        out: &mut Vec<Message>,
    )
        requires
            old(self).next_msg_id() < usize::MAX,
        ensures
            final(out)@ == old(out)@.push(
                Message {
                    src,
                    dest,
                    body: Body { msg_id: Some(old(self).next_msg_id()), in_reply_to, payload },
                },
            ),
            final(out)@.drop_last() == old(out)@,
            final(self).next_msg_id() == old(self).next_msg_id() + 1,
            final(self).same_state(old(self)),
            old(self).wf() ==> final(self).wf(),
    {
        let msg = self.create_message(src, dest, in_reply_to, payload);
        out.push(msg);
        assert(out@.drop_last() =~= old(out)@);
    }

    /// Adds a fact to the store; returns whether it was new.
    pub fn insert_fact(&mut self, f: F) -> (r: bool)
        requires
            old(self).wf(),
        ensures
            final(self).wf(),
            r == !old(self).facts().contains(f@),
            final(self).facts() == old(self).facts().insert(f@),
            final(self).fact_seq() == (if r {
                old(self).fact_seq().push(f@)
            } else {
                old(self).fact_seq()
            }),
            final(self).own_id() == old(self).own_id(),
            final(self).known_ids() == old(self).known_ids(),
            final(self).next_msg_id() == old(self).next_msg_id(),
            final(self).peers() == old(self).peers(),
            forall|i: int|
                0 <= i < old(self).peers().len() ==> #[trigger] final(self).seen(i) == old(self).seen(i),
    {
        let r = self.facts.insert(f);
        proof {
            assert forall|i: int| 0 <= i < self.peers().len() implies #[trigger] self.seen(
                i,
            ).subset_of(self.facts@) by {
                assert(old(self).seen(i).subset_of(old(self).facts@));
            }
        }
        r
    }

    /// Replaces the peer views by those of the star policy, all empty.
    pub fn reset_peers(&mut self)
        requires
            old(self).wf(),
        ensures
            final(self).wf(),
            final(self).peers().to_set() == star_targets(old(self).own_id(), old(self).known_ids()),
            forall|i: int|
                0 <= i < final(self).peers().len() ==> #[trigger] final(self).seen(i) == Set::<
                    F::V,
                >::empty(),
            final(self).own_id() == old(self).own_id(),
            final(self).known_ids() == old(self).known_ids(),
            final(self).next_msg_id() == old(self).next_msg_id(),
            final(self).fact_seq() == old(self).fact_seq(),
            final(self).facts() == old(self).facts(),
    {
        self.other_nodes_seen = star_views(&self.node_id, &self.node_ids);
        assert forall|i: int| 0 <= i < self.peers().len() implies #[trigger] self.seen(
            i,
        ).subset_of(self.facts@) by {
            assert(self.seen(i) == Set::<F::V>::empty());
        }
    }

    /// Merges gossip from `src` into the store and into the view of `src`,
    /// which evidently holds those facts. Gossip from a node that is not a
    /// tracked peer is refused and changes nothing.
    pub fn receive_gossip(&mut self, src: &String, batch: Vec<F>) -> (r: Result<(), NodeError>)
        requires
            old(self).wf(),
        ensures
            final(self).wf(),
            received::<F>(*old(self), *final(self), src@, views(batch@), r),
    {
        let idx = match self.other_nodes_seen.find(src) {
            Some(i) => i,
            None => {
                return Err(NodeError::UnknownPeer);
            },
        };
        let ghost b = views(batch@);
        let ghost start = *self;
        proof {
            self.other_nodes_seen.lemma_distinct();
        }
        let mut j: usize = 0;
        proof {
            assert(b.take(0).to_set() =~= Set::<F::V>::empty());
            assert(self.facts@.union(b.take(0).to_set()) =~= self.facts@);
            assert forall|i: int| 0 <= i < self.peers().len() implies self.seen(i).union(
                b.take(0).to_set(),
            ) == self.seen(i) by {
                assert(self.seen(i).union(b.take(0).to_set()) =~= self.seen(i));
            }
        }
        while j < batch.len()
            invariant
                self.wf(),
                b == views(batch@),
                j <= batch.len(),
                idx < start.peers().len(),
                start.peers()[idx as int] == src@,
                start.peers().no_duplicates(),
                self.facts() == start.facts().union(b.take(j as int).to_set()),
                forall|i: int|
                    0 <= i < start.peers().len() ==> #[trigger] self.seen(i) == (if i == idx {
                        start.seen(i).union(b.take(j as int).to_set())
                    } else {
                        start.seen(i)
                    }),
                self.peers() == start.peers(),
                self.own_id() == start.own_id(),
                self.known_ids() == start.known_ids(),
                self.next_msg_id() == start.next_msg_id(),
            decreases batch.len() - j,
        {
            let ghost before = *self;
            let f = &batch[j];
            proof {
                assert(b.take(j + 1) =~= b.take(j as int).push(f@));
                b.take(j as int).lemma_push_to_set_commute(f@);
            }
            self.insert_fact(f.duplicate());
            let ghost mid = *self;
            self.other_nodes_seen.record(idx, f.duplicate());
            proof {
                assert(self.facts() =~= start.facts().union(b.take(j + 1).to_set()));
                assert forall|i: int| 0 <= i < start.peers().len() implies #[trigger] self.seen(i)
                    == (if i == idx {
                    start.seen(i).union(b.take(j + 1).to_set())
                } else {
                    start.seen(i)
                }) by {
                    assert(mid.seen(i) == before.seen(i));
                    if i == idx {
                        assert(self.other_nodes_seen.seen(i) == mid.other_nodes_seen.seen(i).insert(
                            f@,
                        ));
                        assert(self.seen(i) =~= start.seen(i).union(b.take(j + 1).to_set()));
                    } else {
                        assert(self.other_nodes_seen.seen(i) == mid.other_nodes_seen.seen(i));
                    }
                }
                assert forall|i: int| 0 <= i < self.peers().len() implies #[trigger] self.seen(
                    i,
                ).subset_of(self.facts@) by {
                    assert(before.seen(i).subset_of(before.facts@));
                }
            }
            j = j + 1;
        }
        proof {
            assert(b.take(j as int) =~= b);
            assert forall|i: int| 0 <= i < start.peers().len() implies #[trigger] self.seen(i) == (
            if start.peers()[i] == src@ {
                start.seen(i).union(b.to_set())
            } else {
                start.seen(i)
            }) by {
                if start.peers()[i] == src@ {
                    assert(i == idx);
                }
            }
        }
        Ok(())
    }

    /// Decides one gossip round: for each tracked peer other than the node
    /// itself whose view differs from the store, the batch to send it. The
    /// redundant sample is drawn at random for each peer.
    pub fn gossip_batches(&self) -> (r: Vec<(String, Vec<F>)>)
        requires
            self.wf(),
        ensures
            self.gossip_round_ok(sent_of(r@)),
            r@.len() <= self.peers().len(),
    {
        let n = self.facts.len();
        let mut positions: Vec<usize> = Vec::new();
        let mut p: usize = 0;
        while p < n
            invariant
                p <= n,
                positions@.len() == p,
                forall|q: int| 0 <= q < p ==> #[trigger] positions@[q] == q,
            decreases n - p,
        {
            positions.push(p);
            p = p + 1;
        }
        let mut r: Vec<(String, Vec<F>)> = Vec::new();
        let mut i: usize = 0;
        while i < self.other_nodes_seen.len()
            invariant
                self.wf(),
                n == self.fact_seq().len(),
                positions@.len() == n,
                forall|q: int| 0 <= q < n ==> #[trigger] positions@[q] == q,
                i <= self.peers().len(),
                r@.len() <= i,
                forall|k: int| 0 <= k < r@.len() ==> self.is_due_batch(#[trigger] sent_of(r@)[k]),
                forall|k: int| 0 <= k < r@.len() ==> self.among_first(#[trigger] sent_of(r@)[k].0, i as int),
                forall|j: int|
                    0 <= j < i && self.peers()[j] != self.own_id() && self.seen(j) != self.facts()
                        ==> exists|k: int|
                        0 <= k < r@.len() && #[trigger] sent_of(r@)[k].0 == self.peers()[j],
                forall|k: int, l: int|
                    0 <= k < l < r@.len() ==> sent_of(r@)[k].0 != sent_of(r@)[l].0,
            decreases self.peers().len() - i,
        {
            let peer = self.other_nodes_seen.peer(i);
            if *peer != self.node_id {
                let sample = choose_multiple(&positions, n / 10);
                proof {
                    assert(positions@.no_duplicates());
                    positions@.lemma_multiset_has_no_duplicates();
                    assert forall|x: usize| sample@.to_multiset().contains(x) implies sample@.to_multiset().count(x) == 1 by {
                        assert(sample@.to_multiset().count(x) <= positions@.to_multiset().count(x));
                        assert(positions@.to_multiset().contains(x));
                    }
                    sample@.lemma_multiset_has_no_duplicates_conv();
                    assert forall|k: int| 0 <= k < sample.len() implies #[trigger] sample[k]
                        < self.fact_seq().len() by {
                        assert(positions@.contains(sample[k]));
                    }
                }
                let seen = self.other_nodes_seen.seen_store(i);
                match gossip_batch(&self.facts, seen, &sample) {
                    Some(b) => {
                        let ghost prev = r@;
                        r.push((peer.clone(), b));
                        proof {
                            assert(sent_of(r@) =~= sent_of(prev).push((peer@, views(b@))));
                            assert(is_gossip_for::<F>(self.fact_seq(), self.seen(i as int), views(b@)))
                                by {
                                assert(sample@.len() == self.fact_seq().len() / 10);
                            }
                            assert(self.peers()[i as int] == sent_of(r@)[prev.len() as int].0);
                            assert(self.is_due_batch(sent_of(r@)[prev.len() as int]));
                            assert forall|k: int| 0 <= k < prev.len() implies sent_of(r@)[k].0
                                != peer@ by {
                                assert(sent_of(r@)[k] == sent_of(prev)[k]);
                                let j = choose|j: int|
                                    0 <= j < i && #[trigger] self.peers()[j] == sent_of(prev)[k].0;
                                self.other_nodes_seen.lemma_distinct();
                            }
                            assert forall|j: int|
                                0 <= j <= i && self.peers()[j] != self.own_id() && self.seen(j)
                                    != self.facts() implies exists|k: int|
                                0 <= k < r@.len() && #[trigger] sent_of(r@)[k].0
                                    == self.peers()[j] by {
                                if j < i {
                                    let k = choose|k: int|
                                        0 <= k < prev.len() && #[trigger] sent_of(prev)[k].0
                                            == self.peers()[j];
                                    assert(sent_of(r@)[k] == sent_of(prev)[k]);
                                } else {
                                    assert(sent_of(r@)[prev.len() as int].0 == self.peers()[j]);
                                }
                            }
                            assert forall|k: int| 0 <= k < r@.len() implies self.among_first(
                                #[trigger] sent_of(r@)[k].0,
                                i + 1,
                            ) by {
                                if k < prev.len() {
                                    assert(sent_of(r@)[k] == sent_of(prev)[k]);
                                    let j = choose|j: int|
                                        0 <= j < i && #[trigger] self.peers()[j] == sent_of(
                                            prev,
                                        )[k].0;
                                } else {
                                    assert(self.peers()[i as int] == sent_of(r@)[k].0);
                                }
                            }
                        }
                    },
                    None => {},
                }
            }
            i = i + 1;
        }
        r
    }

    /// Runs one gossip round: queues one gossip envelope, without a message
    /// id, for each batch that `gossip_batches` decides on, in order.
    pub fn gossip_tick(&mut self, out: &mut Vec<Message>) -> (r: Result<(), NodeError>)
        requires
            old(self).wf(),
        ensures
            final(self).wf(),
            gossiped::<F>(*old(self), *final(self), old(out)@, final(out)@, r),
    {
        let mut batches = self.gossip_batches();
        let ghost sent = sent_of(batches@);
        let ghost out0 = out@;
        let total = batches.len();
        let mut k: usize = 0;
        while batches.len() > 0
            invariant
                self.gossip_round_ok(sent),
                k + batches@.len() == total,
                sent.len() == total,
                sent_of(batches@) == sent.subrange(k as int, total as int),
                out@.len() == out0.len() + k,
                out@.subrange(0, out0.len() as int) == out0,
                forall|j: int|
                    0 <= j < k ==> {
                        let m = #[trigger] out@[out0.len() + j];
                        &&& m.src@ == self.own_id()
                        &&& m.dest@ == sent[j].0
                        &&& m.body.msg_id is None
                        &&& m.body.in_reply_to is None
                        &&& F::batch_in(m.body.payload) == Some(sent[j].1)
                    },
            decreases batches@.len(),
        {
            let ghost before = batches@;
            let (dest, b) = batches.remove(0);
            proof {
                assert(sent_of(before)[0] == sent[k as int]);
                assert(batches@ == before.remove(0));
                assert forall|j: int| 0 <= j < batches@.len() implies #[trigger] sent_of(batches@)[j]
                    == sent[k + 1 + j] by {
                    assert(batches@[j] == before[j + 1]);
                    assert(sent_of(before)[j + 1] == sent.subrange(k as int, total as int)[j + 1]);
                }
                assert(sent_of(batches@) =~= sent.subrange(k + 1, total as int));
            }
            let msg = Message {
                src: self.node_id.clone(),
                dest,
                body: Body { msg_id: None, in_reply_to: None, payload: F::gossip_payload(b) },
            };
            let ghost out_before = out@;
            out.push(msg);
            proof {
                assert(out@.subrange(0, out0.len() as int) =~= out0) by {
                    assert(out_before.subrange(0, out0.len() as int) == out0);
                }
                assert forall|j: int| 0 <= j < k + 1 implies {
                    let m = #[trigger] out@[out0.len() + j];
                    &&& m.src@ == self.own_id()
                    &&& m.dest@ == sent[j].0
                    &&& m.body.msg_id is None
                    &&& m.body.in_reply_to is None
                    &&& F::batch_in(m.body.payload) == Some(sent[j].1)
                } by {
                    if j < k {
                        assert(out@[out0.len() + j] == out_before[out0.len() + j]);
                    }
                }
            }
            k = k + 1;
        }
        proof {
            let added = out@.subrange(out0.len() as int, out@.len() as int);
            assert(sent_in::<F>(added) =~= sent) by {
                assert forall|j: int| 0 <= j < sent.len() implies #[trigger] sent_in::<F>(added)[j]
                    == sent[j] by {
                    assert(added[j] == out@[out0.len() + j]);
                }
            }
            assert forall|j: int| 0 <= j < added.len() implies {
                &&& (#[trigger] added[j]).src@ == self.own_id()
                &&& added[j].body.msg_id is None
                &&& added[j].body.in_reply_to is None
                &&& F::batch_in(added[j].body.payload) is Some
            } by {
                assert(added[j] == out@[out0.len() + j]);
            }
        }
        Ok(())
    }
}

} // verus!
