//! The seeded random generator of the game, and the few draws that the
//! engine makes from it.

use vstd::prelude::*;
use rand::{Rng, SeedableRng};
use rand_pcg::Pcg64Mcg;

verus! {

/// The generator of the game: rand_pcg's `Mcg128Xsl64` (alias `Pcg64Mcg`),
/// carried through the engine as an opaque value.
#[verifier::external_type_specification]
#[verifier::external_body]
pub struct ExMcg128Xsl64(rand_pcg::Mcg128Xsl64);

/// Calls `SeedableRng::seed_from_u64` of rand_core on `Pcg64Mcg`. Nothing is
/// claimed of the generator it returns.
#[verifier::external_body]
pub(crate) fn seeded(seed: u64) -> Pcg64Mcg {
    Pcg64Mcg::seed_from_u64(seed)
}

/// Calls `Rng::gen_range(0..n)` of rand: an index below `n`. rand panics on
/// an empty range, hence `n > 0`. Which index comes out depends on the
/// state of the generator and is left unsaid.
#[verifier::external_body]
pub(crate) fn index_below(rng: &mut Pcg64Mcg, n: usize) -> (r: usize)
    requires
        n > 0,
    ensures
        r < n,
{
    rng.gen_range(0..n)
}

/// Calls `Rng::gen_ratio(9, 10)` of rand: `true` with chance 9 in 10. Which
/// value comes out depends on the state of the generator and is left unsaid.
#[verifier::external_body]
pub(crate) fn nine_in_ten(rng: &mut Pcg64Mcg) -> bool {
    rng.gen_ratio(9, 10)
}

} // verus!
