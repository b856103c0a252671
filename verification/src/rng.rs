//! The seeded random generator behind the permutation scheme, held behind
//! trusted declarations: the library never reasons about which permutation
//! comes out, only that a permutation does.

use vstd::prelude::*;
use rand::SeedableRng;
use rand::seq::SliceRandom;
use rand::rngs::SmallRng;

verus! {

#[verifier::external_type_specification]
#[verifier::external_body]
pub struct ExSmallRng(SmallRng);

/// Relies on `SmallRng::seed_from_u64`: builds the run's generator from the
/// caller's seed.  Nothing is assumed about the values it will produce.
#[verifier::external_body]
pub fn new_small_rng(seed: u64) -> SmallRng {
    SmallRng::seed_from_u64(seed)
}

/// Relies on `SliceRandom::shuffle` (a Fisher-Yates walk of in-place swaps):
/// the slice afterwards holds exactly the same items, rearranged.  Which
/// rearrangement comes out is left open.
#[verifier::external_body]
pub fn shuffle_ids(v: &mut Vec<usize>, rng: &mut SmallRng)
    ensures
        final(v)@.to_multiset() == old(v)@.to_multiset(),
        final(v)@.len() == old(v)@.len(),
{
    v.shuffle(rng);
}

} // verus!
