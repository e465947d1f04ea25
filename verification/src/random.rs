use vstd::prelude::*;
use rand::rngs::StdRng;
use rand::seq::SliceRandom;
use rand::Rng;

use crate::wrappers::Node;

verus! {

/// The seeded random generator of the `rand` crate, carried through as it is.
#[verifier::external_type_specification]
#[verifier::external_body]
pub struct ExStdRng(StdRng);

/// Calls `rand::Rng::gen_range(0..bound)` on a `StdRng`. The crate documents
/// that the value lies in the half-open range and that an empty range
/// panics; which value comes out depends on the generator's state, so only
/// the range is claimed. Nothing is claimed of the generator's new state.
#[verifier::external_body]
pub(crate) fn random_index(rng: &mut StdRng, bound: usize) -> (r: usize)
    requires
        bound > 0,
    ensures
        r < bound,
{
    rng.gen_range(0..bound)
}

/// Calls `rand::seq::SliceRandom::shuffle` on the nodes. Its source swaps
/// elements pairwise (Fisher-Yates), so the result is a rearrangement of the
/// same nodes; which rearrangement depends on the generator, and nothing is
/// claimed of that or of the generator's new state.
#[verifier::external_body]
pub(crate) fn shuffle_nodes(nodes: &mut Vec<Node>, rng: &mut StdRng)
    ensures
        final(nodes)@.to_multiset() == old(nodes)@.to_multiset(),
{
    nodes.shuffle(rng)
}

} // verus!
