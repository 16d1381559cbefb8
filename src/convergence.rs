//! Convergence of gossip over the star layout. Node 0 is the root and nodes
//! `1..n` are leaves; `up[i]` is leaf `i`'s view of the root and `down[i]` the
//! root's view of leaf `i`. In one round every node gossips once and every
//! envelope arrives.
use vstd::prelude::*;

use crate::fact::Fact;
use crate::gossip::batch_contents;
use crate::msg::Message;
use crate::replica::{gossiped, is_gossip_for, received, sent_in, NodeError, Replica};

verus! {

/// What a gossip batch from a node with `store` to a peer it believes holds
/// `seen` may carry: everything the peer lacks, nothing the node lacks.
pub open spec fn is_batch<V>(store: Set<V>, seen: Set<V>, batch: Set<V>) -> bool {
    store.difference(seen).subset_of(batch) && batch.subset_of(store)
}

/// Every batch the engine decides on is such a batch.
pub proof fn lemma_engine_batch<F: Fact>(store: Seq<F::V>, seen: Set<F::V>, batch: Seq<F::V>)
    requires
        is_gossip_for::<F>(store, seen, batch),
    ensures
        is_batch(store.to_set(), seen, batch.to_set()),
{
    let sample = choose|sample: Seq<usize>|
        {
            &&& sample.len() == store.len() / 10
            &&& forall|k: int| 0 <= k < sample.len() ==> #[trigger] sample[k] < store.len()
            &&& batch.to_set() == batch_contents(store, seen, sample)
        };
    assert forall|x: F::V| batch.to_set().contains(x) implies store.to_set().contains(x) by {
        if !store.to_set().difference(seen).contains(x) {
            let m = sample.map_values(|k: usize| store[k as int]);
            let j = choose|j: int| 0 <= j < m.len() && m[j] == x;
            assert(store[sample[j] as int] == x);
        }
    }
}

/// The engine sends nothing to a peer whose view equals the store; that too
/// counts as such a batch, the empty one.
pub proof fn lemma_skip_is_empty_batch<V>(store: Set<V>, seen: Set<V>)
    requires
        seen == store,
    ensures
        is_batch(store, seen, Set::<V>::empty()),
{
    assert(store.difference(seen) =~= Set::<V>::empty());
}

/// The facts that the envelopes of `sent` addressed to `p` carry, together.
pub open spec fn batch_to<V>(sent: Seq<(Seq<char>, Seq<V>)>, p: Seq<char>) -> Set<V> {
    Set::new(|x: V| exists|k: int| 0 <= k < sent.len() && sent[k].0 == p && #[trigger] sent[k].1.contains(x))
}

/// What one gossip round of a node sends to a tracked peer other than itself
/// is a batch of the model: everything that peer's view lacks and nothing the
/// node lacks (nothing at all when the view equals the store).
pub proof fn lemma_round_sends_batches<F: Fact>(
    pre: Replica<F>,
    post: Replica<F>,
    out0: Seq<Message>,
    out1: Seq<Message>,
    r: Result<(), NodeError>,
    i: int,
)
    requires
        pre.wf(),
        gossiped::<F>(pre, post, out0, out1, r),
        0 <= i < pre.peers().len(),
        pre.peers()[i] != pre.own_id(),
    ensures
        is_batch(
            pre.facts(),
            pre.seen(i),
            batch_to(sent_in::<F>(out1.subrange(out0.len() as int, out1.len() as int)), pre.peers()[i]),
        ),
{
    let sent = sent_in::<F>(out1.subrange(out0.len() as int, out1.len() as int));
    let p = pre.peers()[i];
    let b = batch_to(sent, p);
    pre.lemma_wf();
    assert forall|k: int| 0 <= k < sent.len() && sent[k].0 == p implies pre.seen(i) != pre.facts()
        && is_gossip_for::<F>(pre.fact_seq(), pre.seen(i), sent[k].1) by {
        assert(pre.is_due_batch(sent[k]));
        let j = choose|j: int|
            {
                &&& 0 <= j < pre.peers().len()
                &&& #[trigger] pre.peers()[j] == sent[k].0
                &&& pre.peers()[j] != pre.own_id()
                &&& pre.seen(j) != pre.facts()
                &&& is_gossip_for::<F>(pre.fact_seq(), pre.seen(j), sent[k].1)
            };
        assert(j == i);
    }
    if pre.seen(i) == pre.facts() {
        assert(b =~= Set::<F::V>::empty());
        lemma_skip_is_empty_batch(pre.facts(), pre.seen(i));
    } else {
        let k = choose|k: int| 0 <= k < sent.len() && #[trigger] sent[k].0 == p;
        assert(b =~= sent[k].1.to_set()) by {
            assert forall|x: F::V| b.contains(x) implies sent[k].1.to_set().contains(x) by {
                let l = choose|l: int| 0 <= l < sent.len() && sent[l].0 == p && #[trigger] sent[l].1.contains(x);
                if l != k {
                    assert(sent[l].0 != sent[k].0);
                }
            }
            assert forall|x: F::V| sent[k].1.to_set().contains(x) implies b.contains(x) by {
                assert(sent[k].1.contains(x));
            }
        }
        lemma_engine_batch::<F>(pre.fact_seq(), pre.seen(i), sent[k].1);
    }
}

/// The facts that all the envelopes of `sent` carry, together.
pub open spec fn batch_all<V>(sent: Seq<(Seq<char>, Seq<V>)>) -> Set<V> {
    Set::new(|x: V| exists|k: int| 0 <= k < sent.len() && #[trigger] sent[k].1.contains(x))
}

/// Gossip from tracked peers arriving at a node one envelope after another,
/// `sent[k]` taking the node from `states[k]` to `states[k + 1]`: the store
/// gains every batch, and each peer's view gains the batches that peer sent.
pub proof fn lemma_receipts<F: Fact>(
    states: Seq<Replica<F>>,
    sent: Seq<(Seq<char>, Seq<F::V>)>,
    results: Seq<Result<(), NodeError>>,
)
    requires
        states.len() == sent.len() + 1,
        results.len() == sent.len(),
        forall|k: int|
            0 <= k < sent.len() ==> received::<F>(
                #[trigger] states[k],
                states[k + 1],
                sent[k].0,
                sent[k].1,
                results[k],
            ),
        forall|k: int| 0 <= k < sent.len() ==> states[0].peers().contains(#[trigger] sent[k].0),
    ensures
        states.last().peers() == states[0].peers(),
        states.last().facts() == states[0].facts().union(batch_all(sent)),
        forall|i: int|
            0 <= i < states[0].peers().len() ==> #[trigger] states.last().seen(i) == states[0].seen(
                i,
            ).union(batch_to(sent, states[0].peers()[i])),
    decreases sent.len(),
{
    let first = states[0];
    if sent.len() == 0 {
        assert(first.facts().union(batch_all(sent)) =~= first.facts());
        assert forall|i: int| 0 <= i < first.peers().len() implies #[trigger] states.last().seen(i)
            == first.seen(i).union(batch_to(sent, first.peers()[i])) by {
            assert(first.seen(i).union(batch_to(sent, first.peers()[i])) =~= first.seen(i));
        }
    } else {
        let m = sent.len() - 1;
        let ps = states.drop_last();
        let pt = sent.drop_last();
        let pr = results.drop_last();
        assert forall|k: int| 0 <= k < pt.len() implies received::<F>(
            #[trigger] ps[k],
            ps[k + 1],
            pt[k].0,
            pt[k].1,
            pr[k],
        ) by {
            assert(received::<F>(states[k], states[k + 1], sent[k].0, sent[k].1, results[k]));
        }
        assert forall|k: int| 0 <= k < pt.len() implies ps[0].peers().contains(#[trigger] pt[k].0) by {
            assert(states[0].peers().contains(sent[k].0));
        }
        lemma_receipts(ps, pt, pr);
        let mid = ps.last();
        assert(mid == states[m]);
        assert(received::<F>(states[m], states[m + 1], sent[m].0, sent[m].1, results[m]));
        assert(states[0].peers().contains(sent[m].0));
        assert(states.last() == states[m + 1]);
        assert(states.last().facts() =~= first.facts().union(batch_all(sent))) by {
            assert forall|x: F::V| batch_all(sent).contains(x) implies first.facts().union(
                batch_all(pt),
            ).union(sent[m].1.to_set()).contains(x) by {
                let k = choose|k: int| 0 <= k < sent.len() && #[trigger] sent[k].1.contains(x);
                if k < m {
                    assert(pt[k].1.contains(x));
                }
            }
            assert forall|x: F::V| batch_all(pt).contains(x) implies batch_all(sent).contains(x) by {
                let k = choose|k: int| 0 <= k < pt.len() && #[trigger] pt[k].1.contains(x);
                assert(sent[k].1.contains(x));
            }
            assert forall|x: F::V| sent[m].1.to_set().contains(x) implies batch_all(sent).contains(x) by {
                assert(sent[m].1.contains(x));
            }
        }
        assert forall|i: int| 0 <= i < first.peers().len() implies #[trigger] states.last().seen(i)
            == first.seen(i).union(batch_to(sent, first.peers()[i])) by {
            let p = first.peers()[i];
            assert(mid.seen(i) == first.seen(i).union(batch_to(pt, p)));
            assert forall|x: F::V| batch_to(sent, p).contains(x) implies batch_to(pt, p).union(
                if sent[m].0 == p { sent[m].1.to_set() } else { Set::empty() },
            ).contains(x) by {
                let k = choose|k: int| 0 <= k < sent.len() && sent[k].0 == p && #[trigger] sent[k].1.contains(x);
                if k < m {
                    assert(pt[k].1.contains(x));
                }
            }
            assert forall|x: F::V| batch_to(pt, p).contains(x) implies batch_to(sent, p).contains(x) by {
                let k = choose|k: int| 0 <= k < pt.len() && pt[k].0 == p && #[trigger] pt[k].1.contains(x);
                assert(sent[k].1.contains(x));
            }
            assert forall|x: F::V| sent[m].0 == p && sent[m].1.to_set().contains(x) implies batch_to(sent, p).contains(x) by {
                assert(sent[m].1.contains(x));
            }
            assert(states.last().seen(i) =~= first.seen(i).union(batch_to(sent, p)));
        }
    }
}

/// No view holds a fact that the viewed node lacks.
pub open spec fn views_consistent<V>(n: int, stores: Seq<Set<V>>, up: Seq<Set<V>>, down: Seq<Set<V>>) -> bool {
    &&& n >= 1
    &&& stores.len() == n
    &&& up.len() == n
    &&& down.len() == n
    &&& forall|i: int| 1 <= i < n ==> (#[trigger] up[i]).subset_of(stores[0])
    &&& forall|i: int| 1 <= i < n ==> (#[trigger] down[i]).subset_of(stores[i])
}

/// The union of the sets at positions `from..n`.
pub open spec fn union_from<V>(sets: Seq<Set<V>>, from: int, n: int) -> Set<V> {
    Set::new(|x: V| exists|j: int| from <= j < n && #[trigger] sets[j].contains(x))
}

/// One round: each leaf sends `to_root[i]` to the root and the root sends
/// `to_leaf[i]` to leaf `i`; each receiver merges what it got into its store
/// and into its view of the sender.
pub open spec fn star_round<V>(
    n: int,
    stores: Seq<Set<V>>,
    up: Seq<Set<V>>,
    down: Seq<Set<V>>,
    to_root: Seq<Set<V>>,
    to_leaf: Seq<Set<V>>,
    stores2: Seq<Set<V>>,
    up2: Seq<Set<V>>,
    down2: Seq<Set<V>>,
) -> bool {
    &&& to_root.len() == n
    &&& to_leaf.len() == n
    &&& stores2.len() == n
    &&& up2.len() == n
    &&& down2.len() == n
    &&& forall|i: int| 1 <= i < n ==> is_batch(stores[i], up[i], #[trigger] to_root[i])
    &&& forall|i: int| 1 <= i < n ==> is_batch(stores[0], down[i], #[trigger] to_leaf[i])
    &&& stores2[0] == stores[0].union(union_from(to_root, 1, n))
    &&& forall|i: int| 1 <= i < n ==> #[trigger] stores2[i] == stores[i].union(to_leaf[i])
    &&& forall|i: int| 1 <= i < n ==> #[trigger] up2[i] == up[i].union(to_leaf[i])
    &&& forall|i: int| 1 <= i < n ==> #[trigger] down2[i] == down[i].union(to_root[i])
}

proof fn lemma_round_keeps_views<V>(
    n: int,
    stores: Seq<Set<V>>,
    up: Seq<Set<V>>,
    down: Seq<Set<V>>,
    to_root: Seq<Set<V>>,
    to_leaf: Seq<Set<V>>,
    stores2: Seq<Set<V>>,
    up2: Seq<Set<V>>,
    down2: Seq<Set<V>>,
)
    requires
        views_consistent(n, stores, up, down),
        star_round(n, stores, up, down, to_root, to_leaf, stores2, up2, down2),
    ensures
        views_consistent(n, stores2, up2, down2),
        union_from(stores2, 0, n) == union_from(stores, 0, n),
        stores2[0] == union_from(stores, 0, n),
{
    let all = union_from(stores, 0, n);
    assert forall|x: V| stores2[0].contains(x) implies all.contains(x) by {
        if !stores[0].contains(x) {
            let j = choose|j: int| 1 <= j < n && #[trigger] to_root[j].contains(x);
            assert(stores[j].contains(x));
        } else {
            assert(stores[0].contains(x));
        }
    }
    assert forall|x: V| all.contains(x) implies stores2[0].contains(x) by {
        let j = choose|j: int| 0 <= j < n && #[trigger] stores[j].contains(x);
        if j >= 1 && !stores[0].contains(x) {
            assert(up[j].subset_of(stores[0]));
            assert(to_root[j].contains(x));
            assert(union_from(to_root, 1, n).contains(x));
        }
    }
    assert(stores2[0] =~= all);
    assert forall|i: int| 1 <= i < n implies (#[trigger] up2[i]).subset_of(stores2[0]) by {
        assert(up[i].subset_of(stores[0]));
        assert(to_leaf[i].subset_of(stores[0]));
    }
    assert forall|i: int| 1 <= i < n implies (#[trigger] down2[i]).subset_of(stores2[i]) by {
        assert(down[i].subset_of(stores[i]));
        assert(to_root[i].subset_of(stores[i]));
    }
    assert forall|x: V| union_from(stores2, 0, n).contains(x) implies all.contains(x) by {
        let j = choose|j: int| 0 <= j < n && #[trigger] stores2[j].contains(x);
        if j >= 1 {
            if stores[j].contains(x) {
            } else {
                assert(stores[0].contains(x));
            }
        }
    }
    assert forall|x: V| all.contains(x) implies union_from(stores2, 0, n).contains(x) by {
        assert(stores2[0].contains(x));
    }
    assert(union_from(stores2, 0, n) =~= all);
}

/// With no envelope lost, two gossip rounds over the star bring every node's
/// store to the union of all the facts the cluster held at the start.
pub proof fn lemma_star_converges<V>(
    n: int,
    stores0: Seq<Set<V>>,
    up0: Seq<Set<V>>,
    down0: Seq<Set<V>>,
    to_root1: Seq<Set<V>>,
    to_leaf1: Seq<Set<V>>,
    stores1: Seq<Set<V>>,
    up1: Seq<Set<V>>,
    down1: Seq<Set<V>>,
    to_root2: Seq<Set<V>>,
    to_leaf2: Seq<Set<V>>,
    stores2: Seq<Set<V>>,
    up2: Seq<Set<V>>,
    down2: Seq<Set<V>>,
)
    requires
        views_consistent(n, stores0, up0, down0),
        star_round(n, stores0, up0, down0, to_root1, to_leaf1, stores1, up1, down1),
        star_round(n, stores1, up1, down1, to_root2, to_leaf2, stores2, up2, down2),
    ensures
        forall|i: int| 0 <= i < n ==> #[trigger] stores2[i] == union_from(stores0, 0, n),
{
    let all = union_from(stores0, 0, n);
    lemma_round_keeps_views(n, stores0, up0, down0, to_root1, to_leaf1, stores1, up1, down1);
    lemma_round_keeps_views(n, stores1, up1, down1, to_root2, to_leaf2, stores2, up2, down2);
    assert forall|i: int| 0 <= i < n implies #[trigger] stores2[i] == all by {
        if i >= 1 {
            assert forall|x: V| stores2[i].contains(x) implies all.contains(x) by {
                assert(union_from(stores2, 0, n).contains(x));
            }
            assert forall|x: V| all.contains(x) implies stores2[i].contains(x) by {
                assert(stores1[0].contains(x));
                if !down1[i].contains(x) {
                    assert(to_leaf2[i].contains(x));
                } else {
                    assert(down1[i].subset_of(stores1[i]));
                }
            }
            assert(stores2[i] =~= all);
        }
    }
}

} // verus!
