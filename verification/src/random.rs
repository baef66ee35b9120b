//! The random source of the search, and the two draws that are made from it.
//!
//! Nothing here is proved: each function states what the `rand` crate
//! documents of the call in its body.
use rand::rngs::StdRng;
use rand::seq::SliceRandom;
use rand::Rng;
use vstd::prelude::*;

verus! {

/// `rand::rngs::StdRng`, the seedable generator that every random step of the
/// search draws from. Its state is opaque here.
#[verifier::external_type_specification]
#[verifier::external_body]
pub struct ExStdRng(rand::rngs::StdRng);

/// Calls `rand::Rng::gen_range` on the closed range `low..=high`.
///
/// `gen_range` panics on an empty range, so `low <= high` is asked for. The
/// value it returns lies in the range; which one it is depends on the state of
/// `rng`, of which nothing is claimed.
#[verifier::external_body]
pub(crate) fn draw_between(rng: &mut StdRng, low: u64, high: u64) -> (x: u64)
    requires
        low <= high,
    ensures
        low <= x <= high,
{
    rng.gen_range(low..=high)
}

/// Calls `rand::seq::SliceRandom::shuffle` on `order`.
///
/// The shuffle only swaps elements of the slice, so afterwards `order` holds
/// the same values, each as often as before; in which order is not claimed.
#[verifier::external_body]
pub(crate) fn shuffle(rng: &mut StdRng, order: &mut Vec<usize>)
    ensures
        final(order)@.to_multiset() == old(order)@.to_multiset(),
{
    order.shuffle(rng)
}

} // verus!
