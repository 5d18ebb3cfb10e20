//! The calls into the `rand` crate. Their contracts are taken on trust.

use crate::game::agent::weights_usable;
use rand::distr::weighted::WeightedIndex;
use rand::distr::Distribution;
use rand::rngs::ThreadRng;
use rand::seq::{IndexedRandom, SliceRandom};
use vstd::prelude::*;

verus! {

/// The generator of random numbers of the running thread, `rand::rngs::ThreadRng`.
#[verifier::external_type_specification]
#[verifier::external_body]
pub struct ExThreadRng(ThreadRng);

/// `rand::rng`: a handle to the generator of the running thread. Nothing is
/// said about the handle. (The call panics if the operating system cannot
/// seed the generator.)
#[verifier::external_body]
pub(crate) fn thread_generator() -> ThreadRng {
    rand::rng()
}

/// `SliceRandom::shuffle` on `order`. The shuffle only swaps entries in
/// place, so afterwards `order` holds what it held before, each value as
/// often as before; nothing is said about the arrangement.
#[verifier::external_body]
pub(crate) fn shuffle_order(order: &mut Vec<usize>, generator: &mut ThreadRng)
    ensures
        final(order)@.to_multiset() == old(order)@.to_multiset(),
{
    order.shuffle(generator);
}

/// `IndexedRandom::choose` on `cells`. It yields nothing exactly when `cells`
/// is empty, and otherwise one of the entries of `cells`; nothing is said
/// about which.
#[verifier::external_body]
pub(crate) fn choose_cell(cells: &Vec<(u32, u32)>, generator: &mut ThreadRng) -> (chosen: Option<
    (u32, u32),
>)
    ensures
        chosen is None <==> cells@.len() == 0,
        chosen is Some ==> cells@.contains(chosen->0),
{
    cells.choose(generator).copied()
}

/// `WeightedIndex::new` on `weights`, and on success one
/// `Distribution::sample` of the result. For unsigned weights `new` fails
/// exactly when there is no weight, when the sum overflows, or when the sum
/// is zero. A sample is an index into `weights`, and never that of a zero
/// weight; nothing else is said about which.
#[verifier::external_body]
pub(crate) fn sample_weighted(weights: &[u32], generator: &mut ThreadRng) -> (index: Option<usize>)
    ensures
        index is Some <==> weights_usable(weights@),
        index matches Some(i) ==> i < weights@.len() && weights@[i as int] > 0,
{
    match WeightedIndex::new(weights) {
        Ok(distribution) => Some(distribution.sample(generator)),
        Err(_) => None,
    }
}

} // verus!
