//! Randomness the node draws on: redundant gossip samples and unique ids.
use rand::seq::SliceRandom;
use vstd::prelude::*;

verus! {

/// Relies on rand's `SliceRandom::choose_multiple`: it picks `min(amount, len)`
/// items at distinct positions of the slice, in random order.
#[verifier::external_body]
pub(crate) fn choose_multiple(items: &Vec<usize>, amount: usize) -> (r: Vec<usize>)
    ensures
        r.len() == (if amount < items.len() {
            amount
        } else {
            items.len()
        }),
        r@.to_multiset().subset_of(items@.to_multiset()),
        forall|k: int| 0 <= k < r.len() ==> items@.contains(#[trigger] r[k]),
{
    let mut rng = rand::thread_rng();
    items.choose_multiple(&mut rng, amount).cloned().collect()
}

/// Relies on uuid's `Uuid::new_v4` and its `Display`: a random id written in
/// the hyphenated form, 36 characters with hyphens at 8, 13, 18 and 23.
#[verifier::external_body]
pub(crate) fn fresh_unique_id() -> (r: String)
    ensures
        r@.len() == 36,
        r@[8] == '-',
        r@[13] == '-',
        r@[18] == '-',
        r@[23] == '-',
{
    uuid::Uuid::new_v4().to_string()
}

} // verus!
