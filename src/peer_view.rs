//! The peer view tracker: for each tracked peer, the facts it is known to hold.
use vstd::prelude::*;

use crate::fact::{chars_before, lemma_chars_before_order, str_lower_than, Fact};
use crate::fact_store::{views, FactStore};

verus! {

/// Tracked peers in the order they were added, each with its view.
pub struct PeerViews<F> {
    entries: Vec<(String, FactStore<F>)>,
}

impl<F: Fact> PeerViews<F> {
    /// The tracked peer ids, in order.
    pub closed spec fn peers(&self) -> Seq<Seq<char>> {
        self.entries@.map_values(|e: (String, FactStore<F>)| e.0@)
    }

    /// The facts the `i`-th tracked peer is known to hold.
    pub closed spec fn seen(&self, i: int) -> Set<F::V> {
        self.entries@[i].1@
    }

    /// Peer ids are distinct and every view is a well-formed store.
    pub closed spec fn wf(&self) -> bool {
        &&& self.peers().no_duplicates()
        &&& forall|i: int| 0 <= i < self.entries@.len() ==> (#[trigger] self.entries@[i]).1.wf()
    }

    pub proof fn lemma_distinct(&self)
        requires
            self.wf(),
        ensures
            self.peers().no_duplicates(),
    {
    }

    pub fn new() -> (r: Self)
        ensures
            r.wf(),
            r.peers() == Seq::<Seq<char>>::empty(),
    {
        let r = PeerViews { entries: Vec::new() };
        assert(r.peers() =~= Seq::<Seq<char>>::empty());
        r
    }

    pub fn len(&self) -> (r: usize)
        ensures
            r == self.peers().len(),
    {
        self.entries.len()
    }

    pub fn peer(&self, i: usize) -> (r: &String)
        requires
            i < self.peers().len(),
        ensures
            r@ == self.peers()[i as int],
    {
        &self.entries[i].0
    }

    pub fn seen_store(&self, i: usize) -> (r: &FactStore<F>)
        requires
            self.wf(),
            i < self.peers().len(),
        ensures
            r.wf(),
            r@ == self.seen(i as int),
    {
        &self.entries[i].1
    }

    /// The position of `peer` among the tracked peers.
    pub fn find(&self, peer: &String) -> (r: Option<usize>)
        ensures
            r matches Some(i) ==> i < self.peers().len() && self.peers()[i as int] == peer@,
            r is None ==> !self.peers().contains(peer@),
    {
        let mut i: usize = 0;
        while i < self.entries.len()
            invariant
                i <= self.entries.len(),
                forall|j: int| 0 <= j < i ==> self.peers()[j] != peer@,
            decreases self.entries.len() - i,
        {
            if self.entries[i].0 == *peer {
                return Some(i);
            }
            i = i + 1;
        }
        None
    }

    /// Starts tracking `peer`, assumed to know nothing yet.
    pub fn track(&mut self, peer: String)
        requires
            old(self).wf(),
            !old(self).peers().contains(peer@),
        ensures
            final(self).wf(),
            final(self).peers() == old(self).peers().push(peer@),
            final(self).seen(old(self).peers().len() as int) == Set::<F::V>::empty(),
            forall|i: int|
                0 <= i < old(self).peers().len() ==> final(self).seen(i) == old(self).seen(i),
    {
        let ghost before = self.peers();
        let empty = FactStore::new();
        self.entries.push((peer, empty));
        assert(self.peers() =~= before.push(peer@));
    }

    /// Notes that the `i`-th peer holds `f`.
    pub fn record(&mut self, i: usize, f: F)
        requires
            old(self).wf(),
            i < old(self).peers().len(),
        ensures
            final(self).wf(),
            final(self).peers() == old(self).peers(),
            final(self).seen(i as int) == old(self).seen(i as int).insert(f@),
            forall|j: int|
                0 <= j < old(self).peers().len() && j != i ==> final(self).seen(j) == old(self).seen(
                    j,
                ),
    {
        let ghost before = self.peers();
        let mut entry = self.entries.remove(i);
        entry.1.insert(f);
        self.entries.insert(i, entry);
        assert(self.peers() =~= before);
    }
}

/// Every node an identity knows of, itself included.
pub open spec fn cluster(own: Seq<char>, known: Seq<Seq<char>>) -> Set<Seq<char>> {
    known.to_set().insert(own)
}

/// `root` is the first of `ids` in lexicographic order.
pub open spec fn is_lowest(root: Seq<char>, ids: Set<Seq<char>>) -> bool {
    &&& ids.contains(root)
    &&& forall|x: Seq<char>| #[trigger] ids.contains(x) ==> x == root || chars_before(root, x)
}

/// The peers a node keeps a view of under the star policy: the root (the
/// lowest id of the cluster) tracks every other node, any other node tracks
/// the root alone.
pub open spec fn star_targets(own: Seq<char>, known: Seq<Seq<char>>) -> Set<Seq<char>> {
    if is_lowest(own, cluster(own, known)) {
        cluster(own, known).remove(own)
    } else {
        Set::new(|x: Seq<char>| is_lowest(x, cluster(own, known)))
    }
}

/// The lowest id of a set is unique.
pub proof fn lemma_lowest_unique(a: Seq<char>, b: Seq<char>, ids: Set<Seq<char>>)
    requires
        is_lowest(a, ids),
        is_lowest(b, ids),
    ensures
        a == b,
{
    lemma_chars_before_order(a, b, a);
}

/// The lowest id among `own` and `known`.
pub fn lowest_id<'a>(own: &'a String, known: &'a Vec<String>) -> (r: &'a String)
    ensures
        is_lowest(r@, cluster(own@, views(known@))),
{
    let mut root = own;
    let mut i: usize = 0;
    while i < known.len()
        invariant
            i <= known.len(),
            is_lowest(root@, cluster(own@, views(known@).take(i as int))),
        decreases known.len() - i,
    {
        let ghost before = cluster(own@, views(known@).take(i as int));
        let ghost k = known@[i as int]@;
        proof {
            assert(views(known@).take(i + 1) =~= views(known@).take(i as int).push(k));
            views(known@).take(i as int).lemma_push_to_set_commute(k);
            assert(cluster(own@, views(known@).take(i + 1)) =~= before.insert(k));
        }
        if str_lower_than(known[i].as_str(), root.as_str()) {
            proof {
                assert forall|x: Seq<char>| #[trigger] before.insert(k).contains(x) implies x == k
                    || chars_before(k, x) by {
                    lemma_chars_before_order(k, root@, x);
                }
            }
            root = &known[i];
        } else {
            proof {
                lemma_chars_before_order(k, root@, k);
            }
        }
        i = i + 1;
    }
    assert(views(known@).take(i as int) =~= views(known@));
    root
}

/// Fresh views for every node of `known` other than `own`, each assumed to
/// know nothing.
pub fn other_views<F: Fact>(own: &String, known: &Vec<String>) -> (r: PeerViews<F>)
    ensures
        r.wf(),
        r.peers().to_set() == views(known@).to_set().remove(own@),
        forall|i: int| 0 <= i < r.peers().len() ==> r.seen(i) == Set::<F::V>::empty(),
{
    let mut r: PeerViews<F> = PeerViews::new();
    let mut i: usize = 0;
    assert(r.peers().to_set() =~= views(known@).take(0).to_set().remove(own@));
    while i < known.len()
        invariant
            i <= known.len(),
            r.wf(),
            r.peers().to_set() == views(known@).take(i as int).to_set().remove(own@),
            forall|j: int| 0 <= j < r.peers().len() ==> r.seen(j) == Set::<F::V>::empty(),
        decreases known.len() - i,
    {
        let ghost k = known@[i as int]@;
        proof {
            assert(views(known@).take(i + 1) =~= views(known@).take(i as int).push(k));
            views(known@).take(i as int).lemma_push_to_set_commute(k);
        }
        if known[i] != *own && r.find(&known[i]).is_none() {
            let ghost before = r.peers();
            r.track(known[i].clone());
            proof {
                before.lemma_push_to_set_commute(k);
            }
        } else {
            proof {
                if k != own@ {
                    assert(r.peers().to_set().contains(k));
                }
            }
        }
        assert(r.peers().to_set() =~= views(known@).take(i + 1).to_set().remove(own@));
        i = i + 1;
    }
    assert(views(known@).take(i as int) =~= views(known@));
    r
}

/// Fresh views for the peers that the star policy assigns to `own`, each
/// assumed to know nothing.
pub fn star_views<F: Fact>(own: &String, known: &Vec<String>) -> (r: PeerViews<F>)
    ensures
        r.wf(),
        r.peers().to_set() == star_targets(own@, views(known@)),
        forall|i: int| 0 <= i < r.peers().len() ==> r.seen(i) == Set::<F::V>::empty(),
{
    let ghost all = cluster(own@, views(known@));
    let root = lowest_id(own, known);
    if *root == *own {
        let r = other_views(own, known);
        assert(r.peers().to_set() =~= star_targets(own@, views(known@)));
        r
    } else {
        let mut r: PeerViews<F> = PeerViews::new();
        r.track(root.clone());
        proof {
            assert(r.peers() =~= seq![root@]);
            if is_lowest(own@, all) {
                lemma_lowest_unique(own@, root@, all);
            }
            assert(!is_lowest(own@, all));
            assert forall|x: Seq<char>| #[trigger] star_targets(own@, views(known@)).contains(x) <==> x
                == root@ by {
                if is_lowest(x, all) {
                    lemma_lowest_unique(x, root@, all);
                }
            }
            assert forall|x: Seq<char>| #[trigger] r.peers().to_set().contains(x) <==> x == root@ by {
                if x == root@ {
                    assert(r.peers()[0] == x);
                }
            }
            assert(r.peers().to_set() =~= star_targets(own@, views(known@)));
        }
        r
    }
}

} // verus!
