use vstd::prelude::*;

use crate::mini_mahjong::mini_game::{
    count_at, count_mini_tiles_by_rank, lemma_rank_count_bounds, mini_rank, rank_count, MiniTile,
};
use crate::mini_mahjong::simulator::{dead_counts_ok, MiniGameState};
use crate::mini_mahjong::tenpai::{get_tenpai_tiles, winning_mini_draws};
use crate::random::{random_index, thread_rng};

verus! {

/// The rank of the tile at index `i` of the hand.
pub open spec fn rank_at(s: MiniGameState, i: int) -> u32 {
    mini_rank(s.hand_tiles@[i].serial)
}

/// Discards a tile chosen at random.
pub fn discard_random(game_state: &MiniGameState) -> (r: usize)
    requires
        game_state.hand_tiles@.len() > 0,
    ensures
        r < game_state.hand_tiles@.len(),
{
    let mut rng = thread_rng();
    random_index(&mut rng, game_state.hand_tiles.len())
}

/// Discards the first tile of the lowest rank (0 for an empty hand).
pub fn discard_lowest_rank(game_state: &MiniGameState) -> (r: usize)
    ensures
        game_state.hand_tiles@.len() == 0 ==> r == 0,
        game_state.hand_tiles@.len() > 0 ==> {
            &&& r < game_state.hand_tiles@.len()
            &&& forall|j: int|
                0 <= j < game_state.hand_tiles@.len() ==> rank_at(*game_state, j) >= rank_at(
                    *game_state,
                    r as int,
                )
            &&& forall|j: int| 0 <= j < r ==> rank_at(*game_state, j) > rank_at(*game_state, r as int)
        },
{
    let mut index_to_discard: usize = 0;
    let mut min_tile_rank_so_far = u32::MAX;
    let mut tile_idx: usize = 0;
    while tile_idx < game_state.hand_tiles.len()
        invariant
            tile_idx <= game_state.hand_tiles@.len(),
            tile_idx == 0 ==> index_to_discard == 0 && min_tile_rank_so_far == u32::MAX,
            tile_idx > 0 ==> {
                &&& index_to_discard < tile_idx
                &&& min_tile_rank_so_far == rank_at(*game_state, index_to_discard as int)
                &&& forall|j: int| 0 <= j < tile_idx ==> rank_at(*game_state, j) >= min_tile_rank_so_far
                &&& forall|j: int| 0 <= j < index_to_discard ==> rank_at(*game_state, j) > min_tile_rank_so_far
            },
        decreases game_state.hand_tiles@.len() - tile_idx,
    {
        let tile = &game_state.hand_tiles[tile_idx];
        if tile.rank() < min_tile_rank_so_far {
            min_tile_rank_so_far = tile.rank();
            index_to_discard = tile_idx;
        }
        tile_idx += 1;
    }
    index_to_discard
}

/// Discards the first tile of the highest rank (0 for an empty hand).
pub fn discard_highest_rank(game_state: &MiniGameState) -> (r: usize)
    ensures
        game_state.hand_tiles@.len() == 0 ==> r == 0,
        game_state.hand_tiles@.len() > 0 ==> {
            &&& r < game_state.hand_tiles@.len()
            &&& forall|j: int|
                0 <= j < game_state.hand_tiles@.len() ==> rank_at(*game_state, j) <= rank_at(
                    *game_state,
                    r as int,
                )
            &&& forall|j: int| 0 <= j < r ==> rank_at(*game_state, j) < rank_at(*game_state, r as int)
        },
{
    let mut index_to_discard: usize = 0;
    let mut max_tile_rank_so_far = u32::MIN;
    let mut tile_idx: usize = 0;
    while tile_idx < game_state.hand_tiles.len()
        invariant
            tile_idx <= game_state.hand_tiles@.len(),
            tile_idx == 0 ==> index_to_discard == 0 && max_tile_rank_so_far == 0,
            tile_idx > 0 ==> {
                &&& index_to_discard < tile_idx
                &&& max_tile_rank_so_far == rank_at(*game_state, index_to_discard as int)
                &&& forall|j: int| 0 <= j < tile_idx ==> rank_at(*game_state, j) <= max_tile_rank_so_far
                &&& forall|j: int| 0 <= j < index_to_discard ==> rank_at(*game_state, j) < max_tile_rank_so_far
            },
        decreases game_state.hand_tiles@.len() - tile_idx,
    {
        let tile = &game_state.hand_tiles[tile_idx];
        if tile.rank() > max_tile_rank_so_far {
            max_tile_rank_so_far = tile.rank();
            index_to_discard = tile_idx;
        }
        tile_idx += 1;
    }
    index_to_discard
}

/// The tile at index `i` is isolated: its rank is held once and neither neighbouring rank is
/// held.
pub open spec fn is_isolated_at(s: MiniGameState, i: int) -> bool {
    let hand = s.hand_tiles@;
    let rank = rank_at(s, i);
    &&& !(rank_count(hand, rank) > 1)
    &&& !(rank > 1 && rank_count(hand, (rank - 1) as u32) > 0)
    &&& !(rank < 9 && rank_count(hand, (rank + 1) as u32) > 0)
}

/// The count a rank map gives `k`, read from the map.
fn count_of(tile_counts: &std::collections::HashMap<u32, u32>, rank: u32) -> (r: u32)
    ensures
        r == count_at(tile_counts@, rank),
{
    broadcast use vstd::std_specs::hash::group_hash_axioms;

    match tile_counts.get(&rank) {
        Some(c) => *c,
        None => 0,
    }
}

/// The indices (ascending) below `n` of the isolated tiles of the hand.
pub open spec fn isolated_indices(s: MiniGameState, n: int) -> Seq<usize>
    decreases n,
{
    if n <= 0 {
        seq![]
    } else {
        isolated_indices(s, n - 1) + if is_isolated_at(s, n - 1) {
            seq![(n - 1) as usize]
        } else {
            seq![]
        }
    }
}

/// How many choices a random isolated discard picks from: the isolated tiles, or every tile
/// when no tile is isolated.
pub open spec fn isolated_choices(s: MiniGameState) -> int {
    let iso = isolated_indices(s, s.hand_tiles@.len() as int);
    if iso.len() > 0 {
        iso.len() as int
    } else {
        s.hand_tiles@.len() as int
    }
}

/// The discard for the random pick `pick`: the `pick`-th isolated tile, or the tile at `pick`
/// when no tile is isolated.
pub open spec fn isolated_discard(s: MiniGameState, pick: int) -> int {
    let iso = isolated_indices(s, s.hand_tiles@.len() as int);
    if iso.len() > 0 {
        iso[pick] as int
    } else {
        pick
    }
}

/// The indices (ascending) of the isolated tiles of the hand: no other tile of its rank or of a
/// neighbouring rank is held.
pub fn isolated_tile_indices(game_state: &MiniGameState) -> (r: Vec<usize>)
    requires
        game_state.hand_tiles@.len() < u32::MAX,
    ensures
        r@ == isolated_indices(*game_state, game_state.hand_tiles@.len() as int),
        forall|j: int|
            0 <= j < r@.len() ==> #[trigger] r@[j] < game_state.hand_tiles@.len() && is_isolated_at(
                *game_state,
                r@[j] as int,
            ),
        (exists|i: int| 0 <= i < game_state.hand_tiles@.len() && is_isolated_at(*game_state, i))
            ==> r@.len() > 0,
{
    let mut isolated_tile_idxs: Vec<usize> = Vec::new();
    let hand_tiles_by_rank = count_mini_tiles_by_rank(&game_state.hand_tiles);
    // determine which tiles are isolated
    let mut tile_idx: usize = 0;
    while tile_idx < game_state.hand_tiles.len()
        invariant
            tile_idx <= game_state.hand_tiles@.len(),
            forall|k: u32|
                #[trigger] hand_tiles_by_rank@.contains_key(k) <==> rank_count(
                    game_state.hand_tiles@,
                    k,
                ) > 0,
            forall|k: u32|
                hand_tiles_by_rank@.contains_key(k) ==> #[trigger] hand_tiles_by_rank@[k]
                    == rank_count(game_state.hand_tiles@, k),
            forall|j: int|
                0 <= j < isolated_tile_idxs@.len() ==> #[trigger] isolated_tile_idxs@[j]
                    < game_state.hand_tiles@.len() && is_isolated_at(
                    *game_state,
                    isolated_tile_idxs@[j] as int,
                ),
            (exists|i: int| 0 <= i < tile_idx && is_isolated_at(*game_state, i))
                ==> isolated_tile_idxs@.len() > 0,
            isolated_tile_idxs@ == isolated_indices(*game_state, tile_idx as int),
        decreases game_state.hand_tiles@.len() - tile_idx,
    {
        let tile = &game_state.hand_tiles[tile_idx];
        let rank = tile.rank();
        proof {
            lemma_rank_count_bounds(game_state.hand_tiles@, rank);
            lemma_rank_count_bounds(game_state.hand_tiles@, (rank - 1) as u32);
            lemma_rank_count_bounds(game_state.hand_tiles@, (rank + 1) as u32);
        }
        let is_paired = count_of(&hand_tiles_by_rank, rank) > 1;
        let has_lower_rank = rank > 1 && count_of(&hand_tiles_by_rank, rank - 1) > 0;
        let has_higher_rank = rank < 9 && count_of(&hand_tiles_by_rank, rank + 1) > 0;
        let ghost before = isolated_tile_idxs@;
        if !is_paired && !has_lower_rank && !has_higher_rank {
            isolated_tile_idxs.push(tile_idx);
            assert(is_isolated_at(*game_state, tile_idx as int));
        }
        assert(isolated_tile_idxs@ =~= isolated_indices(*game_state, tile_idx + 1));
        tile_idx += 1;
    }
    isolated_tile_idxs
}

/// The discard of `discard_isolated` for a given random pick: the `pick`-th isolated tile, or
/// the tile at index `pick` when no tile is isolated.
pub fn discard_isolated_with_pick(game_state: &MiniGameState, pick: usize) -> (r: usize)
    requires
        0 < game_state.hand_tiles@.len() < u32::MAX,
        pick < isolated_choices(*game_state),
    ensures
        r == isolated_discard(*game_state, pick as int),
        r < game_state.hand_tiles@.len(),
        (exists|i: int| 0 <= i < game_state.hand_tiles@.len() && is_isolated_at(*game_state, i))
            ==> is_isolated_at(*game_state, r as int),
{
    let isolated_tile_idxs = isolated_tile_indices(game_state);
    if isolated_tile_idxs.len() > 0 {
        // prefer a discard among the isolated tiles
        isolated_tile_idxs[pick]
    } else {
        pick
    }
}

/// Discards an isolated tile chosen at random, or any tile chosen at random when no tile is
/// isolated.
pub fn discard_isolated(game_state: &MiniGameState) -> (r: usize)
    requires
        0 < game_state.hand_tiles@.len() < u32::MAX,
    ensures
        r < game_state.hand_tiles@.len(),
        (exists|i: int| 0 <= i < game_state.hand_tiles@.len() && is_isolated_at(*game_state, i))
            ==> is_isolated_at(*game_state, r as int),
        exists|pick: int|
            0 <= pick < isolated_choices(*game_state) && r == isolated_discard(*game_state, pick),
{
    let mut rng = thread_rng();
    let isolated_tile_idxs = isolated_tile_indices(game_state);
    let num_choices = if isolated_tile_idxs.len() > 0 {
        isolated_tile_idxs.len()
    } else {
        game_state.hand_tiles.len()
    };
    let pick = random_index(&mut rng, num_choices);
    let r = discard_isolated_with_pick(game_state, pick);
    assert(0 <= pick < isolated_choices(*game_state) && r == isolated_discard(*game_state, pick as int));
    r
}

/// The tile at index `i` is one the hardcoded wait would discard: any rank but 2, 5, 6, 7 and
/// 8; a 2 while more than two 2s are held; a 6 or a 7 while more than one is held (5s and 8s are
/// the winning tiles of the wait and are kept).
pub open spec fn hardcoded_discard_at(s: MiniGameState, i: int) -> bool {
    let hand = s.hand_tiles@;
    let rank = rank_at(s, i);
    if rank == 5 || rank == 8 {
        false
    } else if rank == 2 {
        rank_count(hand, 2) > 2
    } else if rank == 6 {
        rank_count(hand, 6) > 1
    } else if rank == 7 {
        rank_count(hand, 7) > 1
    } else {
        true
    }
}

/// Discards the first tile that does not belong to a hardcoded wait (the hand must hold one).
pub fn hardcoded_initial_wait(game_state: &MiniGameState) -> (r: usize)
    requires
        game_state.hand_tiles@.len() < u32::MAX,
        exists|i: int| 0 <= i < game_state.hand_tiles@.len() && hardcoded_discard_at(*game_state, i),
    ensures
        r < game_state.hand_tiles@.len(),
        hardcoded_discard_at(*game_state, r as int),
        forall|j: int| 0 <= j < r ==> !hardcoded_discard_at(*game_state, j),
{
    let hand_tiles_by_rank = count_mini_tiles_by_rank(&game_state.hand_tiles);
    // determine which tile is "extra" to the best wait
    let mut tile_idx: usize = 0;
    while tile_idx < game_state.hand_tiles.len()
        invariant
            tile_idx <= game_state.hand_tiles@.len(),
            exists|i: int| 0 <= i < game_state.hand_tiles@.len() && hardcoded_discard_at(*game_state, i),
            forall|k: u32|
                #[trigger] hand_tiles_by_rank@.contains_key(k) <==> rank_count(
                    game_state.hand_tiles@,
                    k,
                ) > 0,
            forall|k: u32|
                hand_tiles_by_rank@.contains_key(k) ==> #[trigger] hand_tiles_by_rank@[k]
                    == rank_count(game_state.hand_tiles@, k),
            forall|j: int| 0 <= j < tile_idx ==> !hardcoded_discard_at(*game_state, j),
        decreases game_state.hand_tiles@.len() - tile_idx,
    {
        let tile = &game_state.hand_tiles[tile_idx];
        let rank = tile.rank();
        proof {
            lemma_rank_count_bounds(game_state.hand_tiles@, 2);
            lemma_rank_count_bounds(game_state.hand_tiles@, 6);
            lemma_rank_count_bounds(game_state.hand_tiles@, 7);
        }
        if rank == 5 || rank == 8 {
            // a winning tile: keep it
        } else if rank == 2 {
            if count_of(&hand_tiles_by_rank, 2) > 2 {
                return tile_idx;
            }
        } else if rank == 6 {
            if count_of(&hand_tiles_by_rank, 6) > 1 {
                return tile_idx;
            }
        } else if rank == 7 {
            if count_of(&hand_tiles_by_rank, 7) > 1 {
                return tile_idx;
            }
        } else {
            return tile_idx;
        }
        tile_idx += 1;
    }
    proof {
        let i = choose|i: int|
            0 <= i < game_state.hand_tiles@.len() && hardcoded_discard_at(*game_state, i);
        assert(!hardcoded_discard_at(*game_state, i));
    }
    0
}

/// The hand without the tile at index `i`, the last tile taking its place.
pub open spec fn hand_without(hand: Seq<MiniTile>, i: int) -> Seq<MiniTile> {
    hand.update(i, hand.last()).drop_last()
}

/// How many unseen tiles complete the given winning tiles (four copies of each rank, less the
/// seen ones).
pub open spec fn unseen_winning_tiles(waits: Seq<MiniTile>, s: MiniGameState) -> int
    decreases waits.len(),
{
    if waits.len() == 0 {
        0
    } else {
        unseen_winning_tiles(waits.drop_last(), s) + 4 - count_at(
            s.dead_tiles_by_rank@,
            mini_rank(waits.last().serial),
        )
    }
}

/// The waits after discarding the tile at index `i`.
pub open spec fn waits_after_discard(s: MiniGameState, i: int) -> Seq<MiniTile> {
    winning_mini_draws(hand_without(s.hand_tiles@, i), 9)
}

/// Discarding the tile at index `i` leaves a hand in tenpai.
pub open spec fn discard_reaches_tenpai(s: MiniGameState, i: int) -> bool {
    waits_after_discard(s, i).len() > 0
}

/// The waits of the discard at index `i` count at least as many unseen tiles as those of every
/// tenpai discard, and more than those of every earlier tenpai discard.
pub open spec fn best_tenpai_discard(s: MiniGameState, i: int) -> bool {
    let n = s.hand_tiles@.len();
    &&& 0 <= i < n
    &&& discard_reaches_tenpai(s, i)
    &&& forall|j: int|
        0 <= j < n && discard_reaches_tenpai(s, j) ==> unseen_winning_tiles(
            waits_after_discard(s, j),
            s,
        ) <= unseen_winning_tiles(waits_after_discard(s, i), s)
    &&& forall|j: int|
        0 <= j < i && discard_reaches_tenpai(s, j) ==> unseen_winning_tiles(
            waits_after_discard(s, j),
            s,
        ) < unseen_winning_tiles(waits_after_discard(s, i), s)
}

/// A wait count is at most four per winning tile.
proof fn lemma_unseen_winning_tiles_bounds(waits: Seq<MiniTile>, s: MiniGameState)
    requires
        dead_counts_ok(s.dead_tiles_by_rank@),
        forall|i: int| 0 <= i < waits.len() ==> 1 <= #[trigger] mini_rank(waits[i].serial) <= 9,
    ensures
        0 <= unseen_winning_tiles(waits, s) <= 4 * waits.len(),
    decreases waits.len(),
{
    if waits.len() > 0 {
        lemma_unseen_winning_tiles_bounds(waits.drop_last(), s);
        assert(1 <= mini_rank(waits[waits.len() - 1].serial) <= 9);
        assert(count_at(s.dead_tiles_by_rank@, mini_rank(waits.last().serial)) <= 4);
    }
}

/// A single winning tile leaves four copies of its rank to draw, less the copies already seen.
pub proof fn law_unseen_tiles_of_one_wait(w: MiniTile, s: MiniGameState)
    ensures
        unseen_winning_tiles(seq![w], s) == 4 - count_at(s.dead_tiles_by_rank@, mini_rank(w.serial)),
{
    assert(seq![w].drop_last() =~= Seq::<MiniTile>::empty());
    assert(unseen_winning_tiles(Seq::<MiniTile>::empty(), s) == 0);
    assert(seq![w].last() == w);
}

/// The unseen winning tiles of two lists of waits add up.
pub proof fn law_unseen_tiles_add_up(a: Seq<MiniTile>, b: Seq<MiniTile>, s: MiniGameState)
    ensures
        unseen_winning_tiles(a + b, s) == unseen_winning_tiles(a, s) + unseen_winning_tiles(b, s),
    decreases b.len(),
{
    if b.len() == 0 {
        assert(a + b =~= a);
    } else {
        law_unseen_tiles_add_up(a, b.drop_last(), s);
        assert((a + b).drop_last() =~= a + b.drop_last());
        assert((a + b).last() == b.last());
    }
}

/// No winning tile is left to draw exactly when all four copies of every waited rank have
/// been seen.
pub proof fn law_no_unseen_tiles_iff_all_seen(waits: Seq<MiniTile>, s: MiniGameState)
    requires
        dead_counts_ok(s.dead_tiles_by_rank@),
        forall|i: int| 0 <= i < waits.len() ==> 1 <= #[trigger] mini_rank(waits[i].serial) <= 9,
    ensures
        unseen_winning_tiles(waits, s) == 0 <==> forall|i: int|
            0 <= i < waits.len() ==> count_at(
                s.dead_tiles_by_rank@,
                #[trigger] mini_rank(waits[i].serial),
            ) == 4,
    decreases waits.len(),
{
    if waits.len() > 0 {
        let front = waits.drop_last();
        assert forall|i: int| 0 <= i < front.len() implies 1 <= #[trigger] mini_rank(
            front[i].serial,
        ) <= 9 by {
            assert(front[i] == waits[i]);
        }
        law_no_unseen_tiles_iff_all_seen(front, s);
        lemma_unseen_winning_tiles_bounds(front, s);
        let n = waits.len() - 1;
        assert(1 <= mini_rank(waits[n].serial) <= 9);
        let last_dead = count_at(s.dead_tiles_by_rank@, mini_rank(waits[n].serial));
        assert(last_dead <= 4);
        if unseen_winning_tiles(waits, s) == 0 {
            assert forall|i: int| 0 <= i < waits.len() implies count_at(
                s.dead_tiles_by_rank@,
                #[trigger] mini_rank(waits[i].serial),
            ) == 4 by {
                if i < n {
                    assert(front[i] == waits[i]);
                    assert(count_at(s.dead_tiles_by_rank@, mini_rank(front[i].serial)) == 4);
                }
            }
        }
        if forall|i: int|
            0 <= i < waits.len() ==> count_at(
                s.dead_tiles_by_rank@,
                #[trigger] mini_rank(waits[i].serial),
            ) == 4 {
            assert forall|i: int| 0 <= i < front.len() implies count_at(
                s.dead_tiles_by_rank@,
                #[trigger] mini_rank(front[i].serial),
            ) == 4 by {
                assert(front[i] == waits[i]);
                assert(count_at(s.dead_tiles_by_rank@, mini_rank(waits[i].serial)) == 4);
            }
            assert(count_at(s.dead_tiles_by_rank@, mini_rank(waits[n].serial)) == 4);
        }
    }
}

/// The discard that `hold_tenpai` prefers never leaves only fully seen winning tiles while
/// another tenpai discard leaves a winning tile with an unseen copy.
pub proof fn law_best_discard_keeps_live_waits(s: MiniGameState, i: int, j: int)
    requires
        dead_counts_ok(s.dead_tiles_by_rank@),
        best_tenpai_discard(s, i),
        0 <= j < s.hand_tiles@.len(),
        discard_reaches_tenpai(s, j),
        exists|k: int|
            0 <= k < waits_after_discard(s, j).len() && count_at(
                s.dead_tiles_by_rank@,
                #[trigger] mini_rank(waits_after_discard(s, j)[k].serial),
            ) < 4,
    ensures
        exists|k: int|
            0 <= k < waits_after_discard(s, i).len() && count_at(
                s.dead_tiles_by_rank@,
                #[trigger] mini_rank(waits_after_discard(s, i)[k].serial),
            ) < 4,
{
    let wi = waits_after_discard(s, i);
    let wj = waits_after_discard(s, j);
    lemma_winning_draws_ranks(hand_without(s.hand_tiles@, i), 9);
    lemma_winning_draws_ranks(hand_without(s.hand_tiles@, j), 9);
    law_no_unseen_tiles_iff_all_seen(wi, s);
    law_no_unseen_tiles_iff_all_seen(wj, s);
    lemma_unseen_winning_tiles_bounds(wj, s);
    let k = choose|k: int|
        0 <= k < wj.len() && count_at(s.dead_tiles_by_rank@, #[trigger] mini_rank(wj[k].serial)) < 4;
    assert(count_at(s.dead_tiles_by_rank@, mini_rank(wj[k].serial)) != 4);
    assert(unseen_winning_tiles(wj, s) > 0);
    assert(unseen_winning_tiles(wi, s) > 0);
    if forall|k: int|
        0 <= k < wi.len() ==> count_at(s.dead_tiles_by_rank@, #[trigger] mini_rank(wi[k].serial))
            >= 4 {
        lemma_unseen_winning_tiles_bounds(wi, s);
        assert forall|k: int| 0 <= k < wi.len() implies count_at(
            s.dead_tiles_by_rank@,
            #[trigger] mini_rank(wi[k].serial),
        ) == 4 by {
            assert(1 <= mini_rank(wi[k].serial) <= 9);
        }
        assert(false);
    }
}

/// Keeps a tenpai hand: if discarding some tile reaches tenpai, discards the tile whose waits
/// leave the most unseen winning tiles (the first such tile); otherwise discards at random.
pub fn hold_tenpai(game_state: &MiniGameState) -> (r: usize)
    requires
        game_state.hand_tiles@.len() == 5,
        dead_counts_ok(game_state.dead_tiles_by_rank@),
    ensures
        r < game_state.hand_tiles@.len(),
        (exists|i: int| 0 <= i < 5 && discard_reaches_tenpai(*game_state, i)) ==> best_tenpai_discard(
            *game_state,
            r as int,
        ),
{
    broadcast use vstd::std_specs::hash::group_hash_axioms;

    let ghost s = *game_state;
    let mut best_tile_idx: Option<usize> = None;
    let mut best_winning_tile_count: Option<u32> = None;
    let mut tile_idx: usize = 0;
    while tile_idx < game_state.hand_tiles.len()
        invariant
            tile_idx <= 5,
            s == *game_state,
            game_state.hand_tiles@.len() == 5,
            dead_counts_ok(game_state.dead_tiles_by_rank@),
            best_tile_idx is None <==> best_winning_tile_count is None,
            best_tile_idx is None <==> forall|j: int| 0 <= j < tile_idx ==> !discard_reaches_tenpai(s, j),
            best_tile_idx matches Some(b) ==> {
                &&& b < tile_idx
                &&& discard_reaches_tenpai(s, b as int)
                &&& 0 <= unseen_winning_tiles(waits_after_discard(s, b as int), s) <= 36
                &&& best_winning_tile_count == Some(
                    unseen_winning_tiles(waits_after_discard(s, b as int), s) as u32,
                )
                &&& forall|j: int|
                    0 <= j < tile_idx && discard_reaches_tenpai(s, j) ==> unseen_winning_tiles(
                        waits_after_discard(s, j),
                        s,
                    ) <= unseen_winning_tiles(waits_after_discard(s, b as int), s)
                &&& forall|j: int|
                    0 <= j < b && discard_reaches_tenpai(s, j) ==> unseen_winning_tiles(
                        waits_after_discard(s, j),
                        s,
                    ) < unseen_winning_tiles(waits_after_discard(s, b as int), s)
            },
        decreases 5 - tile_idx,
    {
        let mut remaining_tiles_after_discard: Vec<MiniTile> = Vec::new();
        let mut i: usize = 0;
        while i < game_state.hand_tiles.len()
            invariant
                i <= game_state.hand_tiles@.len(),
                remaining_tiles_after_discard@ == game_state.hand_tiles@.take(i as int),
            decreases game_state.hand_tiles@.len() - i,
        {
            remaining_tiles_after_discard.push(game_state.hand_tiles[i]);
            i += 1;
            assert(remaining_tiles_after_discard@ =~= game_state.hand_tiles@.take(i as int));
        }
        assert(game_state.hand_tiles@.take(i as int) =~= game_state.hand_tiles@);
        remaining_tiles_after_discard.swap_remove(tile_idx);
        let tenpai_tiles = get_tenpai_tiles(&remaining_tiles_after_discard);
        let ghost waits = waits_after_discard(s, tile_idx as int);
        assert(remaining_tiles_after_discard@ =~= hand_without(s.hand_tiles@, tile_idx as int));
        assert(tenpai_tiles@ == waits);
        if tenpai_tiles.len() > 0 {
            // discarding this tile reaches tenpai, but waiting on how many tiles?
            proof {
                lemma_winning_draws_ranks(hand_without(s.hand_tiles@, tile_idx as int), 9);
                lemma_unseen_winning_tiles_bounds(waits, s);
            }
            let mut winning_tile_count: u32 = 0;
            let mut k: usize = 0;
            while k < tenpai_tiles.len()
                invariant
                    k <= tenpai_tiles@.len() <= 9,
                    tenpai_tiles@ == waits,
                    dead_counts_ok(game_state.dead_tiles_by_rank@),
                    s == *game_state,
                    forall|i: int|
                        0 <= i < waits.len() ==> 1 <= #[trigger] mini_rank(waits[i].serial) <= 9,
                    winning_tile_count == unseen_winning_tiles(waits.take(k as int), s),
                    winning_tile_count <= 4 * k,
                decreases tenpai_tiles@.len() - k,
            {
                let winning_tile = &tenpai_tiles[k];
                let num_dead = count_of(&game_state.dead_tiles_by_rank, winning_tile.rank());
                proof {
                    assert(waits.take(k + 1).drop_last() =~= waits.take(k as int));
                    assert(1 <= mini_rank(waits[k as int].serial) <= 9);
                    assert(num_dead <= 4);
                }
                winning_tile_count += 4 - num_dead;
                k += 1;
            }
            assert(waits.take(k as int) =~= waits);
            assert(discard_reaches_tenpai(s, tile_idx as int));
            if best_tile_idx.is_none() || best_winning_tile_count.is_none() || winning_tile_count
                > best_winning_tile_count.unwrap() {
                best_tile_idx = Some(tile_idx);
                best_winning_tile_count = Some(winning_tile_count);
            }
        }
        tile_idx += 1;
    }
    match best_tile_idx {
        Some(b) => b,
        None => {
            // no discard reaches tenpai
            discard_random(game_state)
        },
    }
}

/// The winning draws of a mini hand are tiles of ranks 1 to 9.
proof fn lemma_winning_draws_ranks(tiles: Seq<MiniTile>, n: int)
    requires
        0 <= n <= 9,
    ensures
        winning_mini_draws(tiles, n).len() <= n,
        forall|i: int|
            0 <= i < winning_mini_draws(tiles, n).len() ==> 1 <= #[trigger] mini_rank(
                winning_mini_draws(tiles, n)[i].serial,
            ) <= 9,
    decreases n,
{
    if n > 0 {
        lemma_winning_draws_ranks(tiles, n - 1);
    }
}

} // verus!
