//! The random choice among the candidates of a prediction.

use rand::seq::SliceRandom;
use vstd::prelude::*;

verus! {

/// Draws one of `candidates` at random.
///
/// Calls `choose` of rand's `SliceRandom` on the candidates with the
/// generator of `rand::thread_rng`. Not proved: that the call returns `None`
/// for an empty slice and otherwise one of the slice's elements. Which one is
/// left open, so two calls on the same candidates may differ.
#[verifier::external_body]
pub(crate) fn draw(candidates: &Vec<String>) -> (r: Option<String>)
    ensures
        r is None <==> candidates.len() == 0,
        r matches Some(token) ==> candidates.deep_view().contains(token@),
{
    candidates.choose(&mut rand::thread_rng()).cloned()
}

} // verus!
