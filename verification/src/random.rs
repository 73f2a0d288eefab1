use vstd::prelude::*;
use rand::seq::SliceRandom;
use rand::Rng;

verus! {

/// Draws a number from `lo..hi` with `rand::Rng::gen_range` on the thread-local generator.
/// Trusted: the drawn number lies in the half-open range; which one is left to chance.
#[verifier::external_body]
pub(crate) fn random_in_range(lo: usize, hi: usize) -> (r: usize)
    requires
        lo < hi,
    ensures
        lo <= r < hi,
{
    rand::thread_rng().gen_range(lo..hi)
}

/// Picks an element of `items` with `rand::seq::SliceRandom::choose` on the thread-local
/// generator. Trusted: `None` exactly when `items` is empty, otherwise one of its elements;
/// which one is left to chance.
#[verifier::external_body]
pub(crate) fn random_choice<Item>(items: &[Item]) -> (r: Option<&Item>)
    ensures
        r is None <==> items@.len() == 0,
        r matches Some(x) ==> exists|i: int| 0 <= i < items@.len() && items@[i] == *x,
{
    items.choose(&mut rand::thread_rng())
}

} // verus!
