use vstd::prelude::*;

use crate::mini_mahjong::mini_game::{is_winning_mini_hand, spec_is_winning_mini_hand, MiniTile};

verus! {

/// The tiles of ranks 1 to `n` (as serials 0 to `n - 1`, ascending) whose addition makes the
/// hand a winning hand.
pub open spec fn winning_mini_draws(tiles: Seq<MiniTile>, n: int) -> Seq<MiniTile>
    decreases n,
{
    if n <= 0 {
        seq![]
    } else {
        let new_tile = MiniTile { serial: (n - 1) as u32 };
        if spec_is_winning_mini_hand(tiles.push(new_tile)) {
            winning_mini_draws(tiles, n - 1).push(new_tile)
        } else {
            winning_mini_draws(tiles, n - 1)
        }
    }
}

/// Tries adding each of the nine ranks and returns those (one tile each, ascending) that make a
/// winning hand; empty when the four tiles are not in tenpai.
pub fn get_tenpai_tiles(tiles: &Vec<MiniTile>) -> (r: Vec<MiniTile>)
    requires
        tiles@.len() == 4,
    ensures
        r@ == winning_mini_draws(tiles@, 9),
{
    let mut winning_tiles: Vec<MiniTile> = Vec::new();
    let mut new_tile_rank: u32 = 1;
    while new_tile_rank <= 9
        invariant
            1 <= new_tile_rank <= 10,
            tiles@.len() == 4,
            winning_tiles@ == winning_mini_draws(tiles@, new_tile_rank - 1),
        decreases 10 - new_tile_rank,
    {
        let mut new_tiles: Vec<MiniTile> = Vec::new();
        let mut i: usize = 0;
        while i < tiles.len()
            invariant
                i <= tiles@.len(),
                new_tiles@ == tiles@.take(i as int),
            decreases tiles@.len() - i,
        {
            new_tiles.push(tiles[i]);
            i += 1;
            assert(new_tiles@ =~= tiles@.take(i as int));
        }
        assert(tiles@.take(i as int) =~= tiles@);
        let new_tile = MiniTile { serial: new_tile_rank - 1 };
        new_tiles.push(new_tile);
        if is_winning_mini_hand(&new_tiles) {
            winning_tiles.push(new_tile);
        }
        new_tile_rank += 1;
    }
    // empty when not in tenpai
    winning_tiles
}

} // verus!
