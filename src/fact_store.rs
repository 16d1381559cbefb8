//! The fact store: an append-only, duplicate-free collection of facts.
use vstd::prelude::*;

use crate::fact::Fact;

verus! {

/// The views of a sequence of items, in order.
pub open spec fn views<F: View>(s: Seq<F>) -> Seq<F::V> {
    s.map_values(|f: F| f@)
}

/// Inserting a fact twice: after the first insertion the store holds it, so
/// the second insertion returns `false` and leaves the store unchanged.
pub proof fn lemma_insert_idempotent<V>(s: Set<V>, f: V)
    ensures
        s.insert(f).contains(f),
        s.insert(f).insert(f) == s.insert(f),
{
    assert(s.insert(f).insert(f) =~= s.insert(f));
}

/// The facts known locally. Facts are kept in insertion order and never removed.
pub struct FactStore<F> {
    items: Vec<F>,
}

impl<F: Fact> View for FactStore<F> {
    type V = Set<F::V>;

    open spec fn view(&self) -> Set<F::V> {
        self.seq_view().to_set()
    }
}

impl<F: Fact> FactStore<F> {
    /// The facts in insertion order.
    pub closed spec fn seq_view(&self) -> Seq<F::V> {
        views(self.items@)
    }

    /// No fact is held twice.
    pub open spec fn wf(&self) -> bool {
        self.seq_view().no_duplicates()
    }

    pub fn new() -> (r: Self)
        ensures
            r.wf(),
            r.seq_view() == Seq::<F::V>::empty(),
            r@ == Set::<F::V>::empty(),
    {
        let r = FactStore { items: Vec::new() };
        assert(r.seq_view() =~= Seq::<F::V>::empty());
        assert(r@ =~= Set::<F::V>::empty());
        r
    }

    pub fn len(&self) -> (r: usize)
        ensures
            r == self.seq_view().len(),
    {
        self.items.len()
    }

    pub fn get(&self, i: usize) -> (r: &F)
        requires
            i < self.seq_view().len(),
        ensures
            r@ == self.seq_view()[i as int],
    {
        &self.items[i]
    }

    pub fn contains(&self, f: &F) -> (r: bool)
        ensures
            r == self@.contains(f@),
    {
        let mut i: usize = 0;
        while i < self.items.len()
            invariant
                i <= self.items.len(),
                forall|j: int| 0 <= j < i ==> self.seq_view()[j] != f@,
            decreases self.items.len() - i,
        {
            if self.items[i].same_as(f) {
                assert(self.seq_view()[i as int] == f@);
                return true;
            }
            i = i + 1;
        }
        proof {
            if self@.contains(f@) {
                let j = choose|j: int| 0 <= j < self.seq_view().len() && self.seq_view()[j] == f@;
                assert(self.seq_view()[j] == f@);
            }
        }
        false
    }

    /// Whether every fact of this store is also held by `other`.
    pub fn subset_of(&self, other: &FactStore<F>) -> (r: bool)
        ensures
            r == self@.subset_of(other@),
    {
        let mut j: usize = 0;
        while j < self.items.len()
            invariant
                j <= self.items.len(),
                forall|k: int| 0 <= k < j ==> other@.contains(#[trigger] self.seq_view()[k]),
            decreases self.items.len() - j,
        {
            if !other.contains(&self.items[j]) {
                assert(self@.contains(self.seq_view()[j as int]));
                return false;
            }
            j = j + 1;
        }
        assert forall|x: F::V| self@.contains(x) implies other@.contains(x) by {
            let k = choose|k: int| 0 <= k < self.seq_view().len() && self.seq_view()[k] == x;
            assert(other@.contains(self.seq_view()[k]));
        }
        true
    }

    /// Adds a fact; returns whether it was new. A fact already held leaves the
    /// store as it was.
    pub fn insert(&mut self, f: F) -> (r: bool)
        requires
            old(self).wf(),
        ensures
            final(self).wf(),
            r == !old(self)@.contains(f@),
            final(self)@ == old(self)@.insert(f@),
            final(self).seq_view() == (if r {
                old(self).seq_view().push(f@)
            } else {
                old(self).seq_view()
            }),
    {
        if self.contains(&f) {
            assert(self@.insert(f@) =~= self@);
            false
        } else {
            let ghost before = self.seq_view();
            self.items.push(f);
            proof {
                assert(self.seq_view() =~= before.push(f@));
                before.lemma_push_to_set_commute(f@);
            }
            true
        }
    }

    /// A copy of the facts, in insertion order.
    pub fn to_vec(&self) -> (r: Vec<F>)
        ensures
            views(r@) == self.seq_view(),
    {
        let mut r: Vec<F> = Vec::new();
        let mut i: usize = 0;
        while i < self.items.len()
            invariant
                i <= self.items.len(),
                r@.len() == i,
                views(r@) == self.seq_view().take(i as int),
            decreases self.items.len() - i,
        {
            let f = self.items[i].duplicate();
            let ghost prev = r@;
            r.push(f);
            proof {
                assert(r@ == prev.push(f));
                assert(views(r@)[i as int] == self.seq_view()[i as int]);
                assert forall|j: int| 0 <= j < i implies views(r@)[j] == views(prev)[j] by {
                    assert(r@[j] == prev[j]);
                }
                assert(views(r@) =~= self.seq_view().take(i + 1));
            }
            i = i + 1;
        }
        assert(self.seq_view().take(i as int) =~= self.seq_view());
        r
    }
}

} // verus!
