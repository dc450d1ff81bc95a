//! Thin trusted wrappers around the `rand` crate. Nothing is promised of
//! which values come out, only what holds of every outcome.

use rand::seq::SliceRandom;
use rand::Rng;
use vstd::prelude::*;

use crate::state::Move;

verus! {

/// Relies on rand's `SliceRandom::shuffle`: it permutes the elements of the
/// slice in place, so the multiset of elements (and hence the length) is
/// unchanged.
#[verifier::external_body]
pub(crate) fn shuffle_moves(moves: &mut Vec<Move>)
    ensures
        final(moves)@.to_multiset() == old(moves)@.to_multiset(),
        final(moves)@.len() == old(moves)@.len(),
{
    moves.shuffle(&mut rand::thread_rng());
}

/// Relies on rand's `Rng::gen_range`: on the non-empty range `0..n` it
/// returns a value inside that range.
#[verifier::external_body]
pub(crate) fn random_below(n: usize) -> (r: usize)
    requires
        n > 0,
    ensures
        r < n,
{
    rand::thread_rng().gen_range(0..n)
}

} // verus!
