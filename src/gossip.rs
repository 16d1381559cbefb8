//! The gossip engine's per-peer decision: which facts go to a peer this round.
use vstd::prelude::*;

use crate::fact::Fact;
use crate::fact_store::{views, FactStore};

verus! {

/// Strictly increasing in the fact order, hence free of duplicates.
pub open spec fn strictly_sorted<F: Fact>(s: Seq<F::V>) -> bool {
    forall|i: int, j: int| 0 <= i < j < s.len() ==> F::precedes(#[trigger] s[i], #[trigger] s[j])
}

/// The facts at the given positions of the store.
pub open spec fn sampled<V>(store: Seq<V>, sample: Seq<usize>) -> Set<V> {
    sample.map_values(|k: usize| store[k as int]).to_set()
}

/// What a gossip envelope to a peer carries: every fact the peer's view lacks,
/// plus the redundant sample drawn from the whole store.
pub open spec fn batch_contents<V>(store: Seq<V>, seen: Set<V>, sample: Seq<usize>) -> Set<V> {
    store.to_set().difference(seen).union(sampled(store, sample))
}

/// Adds `f` to a strictly sorted vector unless an equal fact is already there.
pub fn insert_sorted<F: Fact>(v: &mut Vec<F>, f: F)
    requires
        strictly_sorted::<F>(views(old(v)@)),
    ensures
        strictly_sorted::<F>(views(final(v)@)),
        views(final(v)@).to_set() == views(old(v)@).to_set().insert(f@),
{
    let ghost s0 = views(v@);
    let mut p: usize = 0;
    while p < v.len()
        invariant
            p <= v.len(),
            views(v@) == s0,
            strictly_sorted::<F>(s0),
            forall|i: int| 0 <= i < p ==> F::precedes(#[trigger] s0[i], f@),
        ensures
            p <= v.len(),
            views(v@) == s0,
            forall|i: int| 0 <= i < p ==> F::precedes(#[trigger] s0[i], f@),
            p < v.len() ==> !F::precedes(s0[p as int], f@),
        decreases v.len() - p,
    {
        if !v[p].lower_than(&f) {
            break;
        }
        p = p + 1;
    }
    assert(s0.len() == v@.len());
    if p < v.len() && v[p].same_as(&f) {
        assert(s0[p as int] == f@);
        assert(s0.to_set().insert(f@) =~= s0.to_set());
        return;
    }
    proof {
        if p < s0.len() {
            assert(!F::precedes(s0[p as int], f@));
            F::lemma_strict_total_order(s0[p as int], f@, f@);
            assert(F::precedes(f@, s0[p as int]));
            assert forall|j: int| p <= j < s0.len() implies F::precedes(f@, #[trigger] s0[j]) by {
                if j > p {
                    F::lemma_strict_total_order(f@, s0[p as int], s0[j]);
                }
            }
        }
    }
    let ghost fv = f@;
    v.insert(p, f);
    proof {
        let s1 = views(v@);
        assert(s1 =~= s0.insert(p as int, fv));
        assert forall|i: int, j: int| 0 <= i < j < s1.len() implies F::precedes(
            #[trigger] s1[i],
            #[trigger] s1[j],
        ) by {
            if j < p {
            } else if j == p {
            } else if i < p {
                F::lemma_strict_total_order(s0[i], fv, s0[j - 1]);
            } else if i == p {
            } else {
            }
        }
        assert forall|x: F::V| s1.to_set().contains(x) <==> s0.to_set().insert(fv).contains(x) by {
            if s1.to_set().contains(x) {
                let k = choose|k: int| 0 <= k < s1.len() && s1[k] == x;
                if k > p {
                    assert(s0[k - 1] == x);
                } else if k < p {
                    assert(s0[k] == x);
                }
            }
            if s0.to_set().contains(x) {
                let k = choose|k: int| 0 <= k < s0.len() && s0[k] == x;
                if k >= p {
                    assert(s1[k + 1] == x);
                } else {
                    assert(s1[k] == x);
                }
            }
            if x == fv {
                assert(s1[p as int] == x);
            }
        }
        assert(s1.to_set() =~= s0.to_set().insert(fv));
    }
}

/// Decides what to send to one peer. `None` when the peer's view already equals
/// the store; otherwise the missing facts together with the facts at the
/// `sample` positions, sorted and without duplicates.
pub fn gossip_batch<F: Fact>(store: &FactStore<F>, seen: &FactStore<F>, sample: &Vec<usize>) -> (r:
    Option<Vec<F>>)
    requires
        forall|k: int| 0 <= k < sample.len() ==> #[trigger] sample[k] < store.seq_view().len(),
    ensures
        r is None <==> seen@ == store@,
        r matches Some(b) ==> strictly_sorted::<F>(views(b@)) && views(b@).to_set()
            == batch_contents(store.seq_view(), seen@, sample@),
{
    let ghost st = store.seq_view();
    let mut batch: Vec<F> = Vec::new();
    let n = store.len();
    let mut i: usize = 0;
    assert(views(batch@).to_set() =~= st.take(0).to_set().difference(seen@));
    while i < n
        invariant
            n == st.len(),
            st == store.seq_view(),
            i <= n,
            strictly_sorted::<F>(views(batch@)),
            views(batch@).to_set() == st.take(i as int).to_set().difference(seen@),
        decreases n - i,
    {
        let f = store.get(i);
        proof {
            assert(st.take(i + 1) =~= st.take(i as int).push(st[i as int]));
            st.take(i as int).lemma_push_to_set_commute(st[i as int]);
        }
        if !seen.contains(f) {
            insert_sorted(&mut batch, f.duplicate());
            assert(views(batch@).to_set() =~= st.take(i + 1).to_set().difference(seen@));
        } else {
            assert(views(batch@).to_set() =~= st.take(i + 1).to_set().difference(seen@));
        }
        i = i + 1;
    }
    assert(st.take(n as int) =~= st);
    if batch.len() == 0 {
        proof {
            assert(views(batch@) =~= Seq::<F::V>::empty());
            assert forall|x: F::V| st.to_set().contains(x) implies seen@.contains(x) by {
                if !seen@.contains(x) {
                    assert(st.to_set().difference(seen@).contains(x));
                }
            }
        }
        if seen.subset_of(store) {
            assert(seen@ =~= store@);
            return None;
        }
        assert(seen@ != store@);
    } else {
        proof {
            let x = views(batch@)[0];
            assert(views(batch@).to_set().contains(x));
            assert(!seen@.contains(x) && store@.contains(x));
        }
    }
    let mut k: usize = 0;
    assert(sample@.take(0).map_values(|k: usize| st[k as int]).to_set() =~= Set::<F::V>::empty());
    while k < sample.len()
        invariant
            k <= sample.len(),
            st == store.seq_view(),
            forall|q: int| 0 <= q < sample.len() ==> #[trigger] sample[q] < st.len(),
            strictly_sorted::<F>(views(batch@)),
            views(batch@).to_set() == st.to_set().difference(seen@).union(
                sampled(st, sample@.take(k as int)),
            ),
        decreases sample.len() - k,
    {
        let f = store.get(sample[k]);
        proof {
            let m = |q: usize| st[q as int];
            assert(sample@.take(k + 1).map_values(m) =~= sample@.take(k as int).map_values(m).push(
                st[sample[k as int] as int],
            ));
            sample@.take(k as int).map_values(m).lemma_push_to_set_commute(st[sample[k as int] as int]);
        }
        insert_sorted(&mut batch, f.duplicate());
        assert(views(batch@).to_set() =~= st.to_set().difference(seen@).union(
            sampled(st, sample@.take(k + 1)),
        ));
        k = k + 1;
    }
    assert(sample@.take(k as int) =~= sample@);
    Some(batch)
}

} // verus!
