//! Facts: the units of replicated information, with the strict total order
//! that gossip batches are sorted by.
use vstd::prelude::*;
use vstd::string::StrSliceExecFns;

use crate::fact_store::views;
use crate::msg::Payload;

verus! {

/// A counter operation: origin node, the origin's message id, and the delta.
pub type Op = (String, usize, usize);

/// An item that a fact store can hold: compared and ordered through its view.
pub trait Fact: View + Sized {
    /// Strict total order on views.
    spec fn precedes(a: Self::V, b: Self::V) -> bool;

    fn same_as(&self, other: &Self) -> (r: bool)
        ensures
            r == (self@ == other@),
    ;

    fn lower_than(&self, other: &Self) -> (r: bool)
        ensures
            r == Self::precedes(self@, other@),
    ;

    fn duplicate(&self) -> (r: Self)
        ensures
            r@ == self@,
    ;

    /// The batch that a gossip payload for this kind of fact carries, if any.
    spec fn batch_in(p: Payload) -> Option<Seq<Self::V>>;

    /// The gossip payload that carries `batch`.
    fn gossip_payload(batch: Vec<Self>) -> (r: Payload)
        ensures
            Self::batch_in(r) == Some(views(batch@)),
    ;

    proof fn lemma_strict_total_order(a: Self::V, b: Self::V, c: Self::V)
        ensures
            !Self::precedes(a, a),
            Self::precedes(a, b) || a == b || Self::precedes(b, a),
            Self::precedes(a, b) && Self::precedes(b, c) ==> Self::precedes(a, c),
    ;
}

impl Fact for usize {
    open spec fn precedes(a: usize, b: usize) -> bool {
        a < b
    }

    fn same_as(&self, other: &usize) -> (r: bool) {
        *self == *other
    }

    fn lower_than(&self, other: &usize) -> (r: bool) {
        *self < *other
    }

    fn duplicate(&self) -> (r: usize) {
        *self
    }

    open spec fn batch_in(p: Payload) -> Option<Seq<usize>> {
        match p {
            Payload::GossipEcho { ids } => Some(views(ids@)),
            _ => None,
        }
    }

    fn gossip_payload(batch: Vec<usize>) -> (r: Payload) {
        Payload::GossipEcho { ids: batch }
    }

    proof fn lemma_strict_total_order(a: usize, b: usize, c: usize) {
    }
}

/// Lexicographic order on character sequences from position `i` on, by code point.
pub open spec fn chars_before_from(a: Seq<char>, b: Seq<char>, i: int) -> bool
    decreases a.len() - i,
{
    if i >= a.len() {
        i < b.len()
    } else if i >= b.len() {
        false
    } else if a[i] != b[i] {
        a[i] < b[i]
    } else {
        chars_before_from(a, b, i + 1)
    }
}

/// `a` comes strictly before `b` in lexicographic code-point order.
pub open spec fn chars_before(a: Seq<char>, b: Seq<char>) -> bool {
    chars_before_from(a, b, 0)
}

proof fn lemma_chars_before_irreflexive(a: Seq<char>, i: int)
    requires
        0 <= i,
    ensures
        !chars_before_from(a, a, i),
    decreases a.len() - i,
{
    if i < a.len() {
        lemma_chars_before_irreflexive(a, i + 1);
    }
}

proof fn lemma_chars_before_total(a: Seq<char>, b: Seq<char>, i: int)
    requires
        0 <= i,
        i <= a.len(),
        i <= b.len(),
        forall|j: int| 0 <= j < i ==> a[j] == b[j],
    ensures
        chars_before_from(a, b, i) || a == b || chars_before_from(b, a, i),
    decreases a.len() - i,
{
    if i == a.len() && i == b.len() {
        assert(a =~= b);
    } else if i < a.len() && i < b.len() && a[i] == b[i] {
        lemma_chars_before_total(a, b, i + 1);
    }
}

proof fn lemma_chars_before_transitive(a: Seq<char>, b: Seq<char>, c: Seq<char>, i: int)
    requires
        0 <= i,
        chars_before_from(a, b, i),
        chars_before_from(b, c, i),
    ensures
        chars_before_from(a, c, i),
    decreases a.len() - i,
{
    if i < a.len() && i < b.len() && i < c.len() && a[i] == b[i] && b[i] == c[i] {
        lemma_chars_before_transitive(a, b, c, i + 1);
    }
}

/// Lexicographic code-point order on character sequences is a strict total order.
pub proof fn lemma_chars_before_order(a: Seq<char>, b: Seq<char>, c: Seq<char>)
    ensures
        !chars_before(a, a),
        chars_before(a, b) || a == b || chars_before(b, a),
        chars_before(a, b) && chars_before(b, c) ==> chars_before(a, c),
{
    lemma_chars_before_irreflexive(a, 0);
    lemma_chars_before_total(a, b, 0);
    if chars_before(a, b) && chars_before(b, c) {
        lemma_chars_before_transitive(a, b, c, 0);
    }
}

/// Lexicographic comparison of two strings by code point.
pub fn str_lower_than(a: &str, b: &str) -> (r: bool)
    ensures
        r == chars_before(a@, b@),
{
    let na = a.unicode_len();
    let nb = b.unicode_len();
    let mut i: usize = 0;
    while i < na && i < nb
        invariant
            na == a@.len(),
            nb == b@.len(),
            i <= na,
            i <= nb,
            chars_before(a@, b@) == chars_before_from(a@, b@, i as int),
        decreases na - i,
    {
        let ca = a.get_char(i);
        let cb = b.get_char(i);
        if ca != cb {
            return ca < cb;
        }
        i = i + 1;
    }
    i == na && i < nb
}

pub open spec fn op_precedes(a: (Seq<char>, usize, usize), b: (Seq<char>, usize, usize)) -> bool {
    ||| chars_before(a.0, b.0)
    ||| a.0 == b.0 && a.1 < b.1
    ||| a.0 == b.0 && a.1 == b.1 && a.2 < b.2
}

impl Fact for (String, usize, usize) {
    open spec fn precedes(a: (Seq<char>, usize, usize), b: (Seq<char>, usize, usize)) -> bool {
        op_precedes(a, b)
    }

    fn same_as(&self, other: &Self) -> (r: bool) {
        self.0 == other.0 && self.1 == other.1 && self.2 == other.2
    }

    fn lower_than(&self, other: &Self) -> (r: bool) {
        if str_lower_than(self.0.as_str(), other.0.as_str()) {
            true
        } else if self.0 == other.0 {
            self.1 < other.1 || (self.1 == other.1 && self.2 < other.2)
        } else {
            false
        }
    }

    fn duplicate(&self) -> (r: Self) {
        (self.0.clone(), self.1, self.2)
    }

    open spec fn batch_in(p: Payload) -> Option<Seq<(Seq<char>, usize, usize)>> {
        match p {
            Payload::GossipCount { adds } => Some(views(adds@)),
            _ => None,
        }
    }

    fn gossip_payload(batch: Vec<(String, usize, usize)>) -> (r: Payload) {
        Payload::GossipCount { adds: batch }
    }

    proof fn lemma_strict_total_order(
        a: (Seq<char>, usize, usize),
        b: (Seq<char>, usize, usize),
        c: (Seq<char>, usize, usize),
    ) {
        lemma_chars_before_order(a.0, b.0, c.0);
    }
}

} // verus!
