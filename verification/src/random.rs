use rand::rngs::ThreadRng;
use rand::seq::SliceRandom;
use rand::Rng;
use vstd::prelude::*;

use crate::mini_mahjong::mini_game::MiniTile;

verus! {

/// The random number generator of the current thread (`rand::rngs::ThreadRng`); a value of it
/// is opaque here.
#[verifier::external_type_specification]
#[verifier::external_body]
pub struct ExThreadRng(ThreadRng);

/// Calls `rand::rng()`, which hands out the generator of the current thread. Nothing is
/// claimed of it.
#[verifier::external_body]
pub(crate) fn thread_rng() -> ThreadRng {
    rand::rng()
}

/// Calls `Rng::random_range(0..len)` on the generator. The crate documents that the value lies
/// in the range, and panics on an empty range; the contract claims only that the index is
/// below `len`, not which index comes out.
#[verifier::external_body]
pub(crate) fn random_index(rng: &mut ThreadRng, len: usize) -> (r: usize)
    requires
        len > 0,
    ensures
        r < len,
{
    rng.random_range(0..len)
}

/// Calls `SliceRandom::shuffle` on the tiles. Its source only swaps elements of the slice, so
/// the contract claims that the same tiles come back; the order they come back in is left
/// unsaid (it is random).
#[verifier::external_body]
pub(crate) fn shuffle_tiles(tiles: &mut Vec<MiniTile>, rng: &mut ThreadRng)
    ensures
        final(tiles)@.to_multiset() == old(tiles)@.to_multiset(),
{
    tiles.shuffle(rng);
}

} // verus!
