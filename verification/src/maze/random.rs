//! The random source of the carver: the calls into `rand` that nothing here
//! proves, each with the contract that the rest of the library relies on.

use rand::rngs::StdRng;
use rand::seq::SliceRandom;
use rand::Rng;
use vstd::prelude::*;

use crate::maze::coordinate::Coordinate;

verus! {

/// `rand::rngs::StdRng`, the generator that the carver draws from. Nothing is
/// known of its state.
#[verifier::external_type_specification]
#[verifier::external_body]
pub struct ExStdRng(rand::rngs::StdRng);

/// Calls `Rng::gen_range(0, bound)`. That function panics unless the lower end
/// lies below the upper end, hence the demand on `bound`; what it returns lies
/// in the half-open range from the lower to the upper end. Which number of the
/// range comes back depends on the generator and is not stated.
#[verifier::external_body]
pub(crate) fn random_below(rng: &mut StdRng, bound: usize) -> (drawn: usize)
    requires
        bound > 0,
    ensures
        drawn < bound,
{
    rng.gen_range(0, bound)
}

/// Calls `SliceRandom::shuffle` on the items. That function only swaps
/// elements of the slice, so the items afterwards are the items before in some
/// order. Which order depends on the generator and is not stated.
#[verifier::external_body]
pub(crate) fn shuffle(rng: &mut StdRng, items: &mut Vec<Coordinate>)
    ensures
        final(items)@.to_multiset() == old(items)@.to_multiset(),
{
    items.shuffle(rng);
}

} // verus!
