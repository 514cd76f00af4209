//! The random source. Nothing is known of what it yields beyond what holds
//! of every outcome.

use rand::seq::SliceRandom;
use rand::Rng;
use vstd::prelude::*;

verus! {

/// `rand::seq::SliceRandom::shuffle` on the items, fed by `rand::thread_rng`.
/// It exchanges pairs of items in place, so the items afterwards are those
/// from before, each as often as before, in an order that is not known.
#[verifier::external_body]
pub(crate) fn shuffle<T>(items: &mut Vec<T>)
    ensures
        final(items)@.to_multiset() == old(items)@.to_multiset(),
{
    let mut rng = rand::thread_rng();
    items.shuffle(&mut rng);
}

/// `rand::Rng::gen_range` over `low..=high`, fed by `rand::thread_rng`: some
/// value of that range.
#[verifier::external_body]
pub(crate) fn pick_between(low: usize, high: usize) -> (picked: usize)
    requires
        low <= high,
    ensures
        low <= picked <= high,
{
    rand::thread_rng().gen_range(low..=high)
}

} // verus!
