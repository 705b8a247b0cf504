use std::collections::HashMap;
use vstd::prelude::*;

use crate::mahjong_tile::{digit_char, digit_text};
use crate::mini_mahjong::mini_game::{
    count_at, is_winning_mini_hand, lemma_rank_count_bounds, mini_rank, rank_count,
    spec_is_winning_mini_hand, MiniTile,
};
use crate::random::{shuffle_tiles, thread_rng};

verus! {

/// The digits of the ranks of rank 1 up to rank `n - 1`, each repeated as often as the tiles
/// hold it.
pub open spec fn ranks_text_below(tiles: Seq<MiniTile>, n: int) -> Seq<char>
    decreases n,
{
    if n <= 1 {
        seq![]
    } else {
        ranks_text_below(tiles, n - 1) + Seq::new(
            rank_count(tiles, (n - 1) as u32) as nat,
            |i: int| digit_char(n - 1),
        )
    }
}

/// The ranks of the tiles as digits, in ascending order.
pub open spec fn spec_hand_text(tiles: Seq<MiniTile>) -> Seq<char> {
    ranks_text_below(tiles, 10)
}

/// The ranks of the tiles as digits, in ascending order (e.g. "12257").
pub fn display_hand(tiles: &Vec<MiniTile>) -> (r: String)
    ensures
        r@ == spec_hand_text(tiles@),
{
    let mut tile_ranks = String::new();
    let mut rank: u32 = 1;
    while rank <= 9
        invariant
            1 <= rank <= 10,
            tile_ranks@ == ranks_text_below(tiles@, rank as int),
        decreases 10 - rank,
    {
        // count the tiles of this rank
        let mut count: usize = 0;
        let mut i: usize = 0;
        while i < tiles.len()
            invariant
                i <= tiles@.len(),
                count == rank_count(tiles@.take(i as int), rank),
                count <= i,
            decreases tiles@.len() - i,
        {
            proof {
                assert(tiles@.take(i + 1).drop_last() =~= tiles@.take(i as int));
            }
            if tiles[i].rank() == rank {
                count += 1;
            }
            i += 1;
        }
        assert(tiles@.take(i as int) =~= tiles@);
        let ghost before = tile_ranks@;
        let mut k: usize = 0;
        while k < count
            invariant
                k <= count,
                1 <= rank <= 9,
                tile_ranks@ == before + Seq::new(k as nat, |j: int| digit_char(rank as int)),
            decreases count - k,
        {
            tile_ranks.append(digit_text(rank as u8));
            k += 1;
            assert(tile_ranks@ =~= before + Seq::new(k as nat, |j: int| digit_char(rank as int)));
        }
        rank += 1;
    }
    tile_ranks
}

/// The tiles in the player's hand and how many tiles of each rank have been seen (in the hand
/// or discarded).
#[derive(Debug)]
pub struct MiniGameState {
    pub hand_tiles: Vec<MiniTile>,
    pub dead_tiles_by_rank: HashMap<u32, u32>,
}

/// No rank has more than four tiles seen.
pub open spec fn dead_counts_ok(dead: Map<u32, u32>) -> bool {
    forall|k: u32| 1 <= k <= 9 ==> #[trigger] count_at(dead, k) <= 4
}

/// The serial numbers of the copies of rank `rank` that are not yet seen, when `dead` are.
pub open spec fn rank_wall(rank: u32, dead: int) -> Seq<MiniTile> {
    Seq::new((4 - dead) as nat, |i: int| MiniTile { serial: (rank - 1 + 9 * i) as u32 })
}

/// The unseen tiles of ranks 1 up to `n - 1`, rank after rank.
pub open spec fn wall_below(dead: Map<u32, u32>, n: int) -> Seq<MiniTile>
    decreases n,
{
    if n <= 1 {
        seq![]
    } else {
        wall_below(dead, n - 1) + rank_wall((n - 1) as u32, count_at(dead, (n - 1) as u32))
    }
}

/// Every tile not yet seen, in rank order.
pub open spec fn spec_unshuffled_wall(dead: Map<u32, u32>) -> Seq<MiniTile> {
    wall_below(dead, 10)
}

/// The tiles not yet seen, in rank order (the four copies of a rank have the serial numbers
/// rank - 1, rank + 8, rank + 17 and rank + 26).
fn unshuffled_wall_tiles(game_state: &MiniGameState) -> (r: Vec<MiniTile>)
    requires
        dead_counts_ok(game_state.dead_tiles_by_rank@),
    ensures
        r@ == spec_unshuffled_wall(game_state.dead_tiles_by_rank@),
{
    broadcast use vstd::std_specs::hash::group_hash_axioms;

    let ghost dead = game_state.dead_tiles_by_rank@;
    let mut tile_wall: Vec<MiniTile> = Vec::new();
    let mut rank: u32 = 1;
    while rank <= 9
        invariant
            1 <= rank <= 10,
            dead == game_state.dead_tiles_by_rank@,
            dead_counts_ok(dead),
            tile_wall@ == wall_below(dead, rank as int),
        decreases 10 - rank,
    {
        let num_dead_tiles: u32 = match game_state.dead_tiles_by_rank.get(&rank) {
            Some(n) => *n,
            None => 0,
        };
        assert(num_dead_tiles == count_at(dead, rank));
        let num_tiles_left = 4 - num_dead_tiles;
        let ghost before = tile_wall@;
        let mut i: u32 = 0;
        while i < num_tiles_left
            invariant
                i <= num_tiles_left <= 4,
                1 <= rank <= 9,
                tile_wall@ == before + Seq::new(
                    i as nat,
                    |j: int| MiniTile { serial: (rank - 1 + 9 * j) as u32 },
                ),
            decreases num_tiles_left - i,
        {
            tile_wall.push(MiniTile { serial: rank - 1 + 9 * i });
            i += 1;
            assert(tile_wall@ =~= before + Seq::new(
                i as nat,
                |j: int| MiniTile { serial: (rank - 1 + 9 * j) as u32 },
            ));
        }
        assert(Seq::new(i as nat, |j: int| MiniTile { serial: (rank - 1 + 9 * j) as u32 })
            =~= rank_wall(rank, num_dead_tiles as int));
        rank += 1;
    }
    tile_wall
}

/// How many tiles of rank `r` the wall below rank `n` holds.
proof fn lemma_wall_below_counts(dead: Map<u32, u32>, n: int, r: u32)
    requires
        1 <= n <= 10,
        dead_counts_ok(dead),
    ensures
        rank_count(wall_below(dead, n), r) == if 1 <= r < n {
            4 - count_at(dead, r)
        } else {
            0
        },
    decreases n,
{
    if n > 1 {
        lemma_wall_below_counts(dead, n - 1, r);
        let k = (n - 1) as u32;
        lemma_rank_count_concat(wall_below(dead, n - 1), rank_wall(k, count_at(dead, k)), r);
        lemma_rank_wall_count(k, count_at(dead, k), r);
    }
}

/// A rank's unseen tiles all have that rank.
proof fn lemma_rank_wall_count(rank: u32, dead: int, r: u32)
    requires
        1 <= rank <= 9,
        0 <= dead <= 4,
    ensures
        rank_count(rank_wall(rank, dead), r) == if r == rank {
            4 - dead
        } else {
            0
        },
    decreases 4 - dead,
{
    let w = rank_wall(rank, dead);
    if dead < 4 {
        lemma_rank_wall_count(rank, dead + 1, r);
        assert(w.drop_last() =~= rank_wall(rank, dead + 1));
        let j = w.len() - 1;
        assert(w.last().serial == rank - 1 + 9 * j);
        assert(mini_rank(w.last().serial) == rank) by {
            assert((rank - 1 + 9 * j) % 9 == rank - 1) by (nonlinear_arith)
                requires
                    1 <= rank <= 9,
                    0 <= j <= 3,
            ;
        }
    } else {
        assert(w.len() == 0);
    }
}

/// The rank counts of two tile lists add up.
pub proof fn lemma_rank_count_concat(a: Seq<MiniTile>, b: Seq<MiniTile>, r: u32)
    ensures
        rank_count(a + b, r) == rank_count(a, r) + rank_count(b, r),
    decreases b.len(),
{
    if b.len() == 0 {
        assert(a + b =~= a);
    } else {
        lemma_rank_count_concat(a, b.drop_last(), r);
        assert((a + b).drop_last() =~= a + b.drop_last());
    }
}

/// Taking a tile out of a list lowers the count of its rank by one.
pub proof fn lemma_rank_count_remove(s: Seq<MiniTile>, j: int, r: u32)
    requires
        0 <= j < s.len(),
    ensures
        rank_count(s, r) == rank_count(s.remove(j), r) + if mini_rank(s[j].serial) == r {
            1int
        } else {
            0int
        },
    decreases s.len(),
{
    if j < s.len() - 1 {
        lemma_rank_count_remove(s.drop_last(), j, r);
        assert(s.remove(j).drop_last() =~= s.drop_last().remove(j));
        assert(s.remove(j).last() == s.last());
    } else {
        assert(s.remove(j) =~= s.drop_last());
    }
}

/// Two lists holding the same tiles have the same rank counts.
pub proof fn lemma_rank_count_same_tiles(a: Seq<MiniTile>, b: Seq<MiniTile>, r: u32)
    requires
        a.to_multiset() == b.to_multiset(),
    ensures
        rank_count(a, r) == rank_count(b, r),
    decreases a.len(),
{
    broadcast use vstd::seq_lib::group_to_multiset_ensures;
    broadcast use vstd::multiset::group_multiset_axioms;

    if a.len() == 0 {
        assert(b.to_multiset().len() == 0);
        assert(b.len() == 0);
    } else {
        let x = a.last();
        assert(a.drop_last().push(x) =~= a);
        assert(a.to_multiset().count(x) > 0);
        assert(b.to_multiset().count(x) > 0);
        assert(b.contains(x));
        let j = choose|j: int| 0 <= j < b.len() && b[j] == x;
        assert(b.remove(j).to_multiset() == b.to_multiset().remove(x));
        assert(a.drop_last().to_multiset() =~= a.to_multiset().remove(x));
        lemma_rank_count_same_tiles(a.drop_last(), b.remove(j), r);
        lemma_rank_count_remove(b, j, r);
    }
}

/// Sets up the wall: the tiles not yet seen, shuffled.
pub fn set_up_wall(game_state: &MiniGameState) -> (r: Vec<MiniTile>)
    requires
        dead_counts_ok(game_state.dead_tiles_by_rank@),
    ensures
        r@.to_multiset() == spec_unshuffled_wall(game_state.dead_tiles_by_rank@).to_multiset(),
{
    let mut rng = thread_rng();
    let mut tile_wall = unshuffled_wall_tiles(game_state);
    shuffle_tiles(&mut tile_wall, &mut rng);
    tile_wall
}

/// The counts of seen tiles after one more tile of rank `rank` is seen.
pub open spec fn seen_one_more(dead: Map<u32, u32>, rank: u32) -> Map<u32, u32> {
    dead.insert(rank, (count_at(dead, rank) + 1) as u32)
}

/// Records that one more tile of rank `rank` has been seen.
fn record_seen(dead_tiles_by_rank: &mut HashMap<u32, u32>, rank: u32)
    requires
        count_at(old(dead_tiles_by_rank)@, rank) < u32::MAX,
    ensures
        final(dead_tiles_by_rank)@ == seen_one_more(old(dead_tiles_by_rank)@, rank),
{
    broadcast use vstd::std_specs::hash::group_hash_axioms;

    let count: u32 = match dead_tiles_by_rank.get(&rank) {
        Some(c) => *c,
        None => 0,
    };
    dead_tiles_by_rank.insert(rank, count + 1);
}

/// A state a strategy can be asked about: five tiles in hand and at most four tiles of each
/// rank seen.
pub open spec fn playable_state(s: MiniGameState) -> bool {
    s.hand_tiles@.len() == 5 && dead_counts_ok(s.dead_tiles_by_rank@)
}

/// A discard strategy answers every playable state with the index of a tile in the hand.
pub open spec fn strategy_ok<F: Fn(&MiniGameState) -> usize>(f: F) -> bool {
    &&& forall|s: &MiniGameState| playable_state(*s) ==> #[trigger] call_requires(f, (s,))
    &&& forall|s: &MiniGameState, i: usize|
        playable_state(*s) && #[trigger] call_ensures(f, (s,), i) ==> i < s.hand_tiles@.len()
}

/// The wall and the seen counts agree: no rank has more than four tiles seen or still in the
/// wall.
pub open spec fn wall_fits(dead: Map<u32, u32>, wall: Seq<MiniTile>) -> bool {
    forall|k: u32| 1 <= k <= 9 ==> #[trigger] count_at(dead, k) + rank_count(wall, k) <= 4
}

/// The hand after discarding the tile at index `i` (the last tile takes its place) and drawing
/// `tile`.
pub open spec fn discard_and_draw(hand: Seq<MiniTile>, i: int, tile: MiniTile) -> Seq<MiniTile> {
    hand.update(i, hand.last()).drop_last().push(tile)
}

/// Step `k` of a game drawing from the back of `wall`: the hand of `states[k]` does not win,
/// the strategy answers `states[k]` with an index `i`, and `states[k + 1]` discards the tile at
/// `i`, draws the `k`-th tile from the back of the wall and records it as seen.
pub open spec fn game_step<F: Fn(&MiniGameState) -> usize>(
    f: F,
    wall: Seq<MiniTile>,
    states: Seq<MiniGameState>,
    k: int,
) -> bool {
    let tile = wall[wall.len() - 1 - k];
    &&& !spec_is_winning_mini_hand(states[k].hand_tiles@)
    &&& exists|i: usize|
        #[trigger] call_ensures(f, (&states[k],), i) && i < states[k].hand_tiles@.len()
            && states[k + 1].hand_tiles@ == discard_and_draw(states[k].hand_tiles@, i as int, tile)
            && states[k + 1].dead_tiles_by_rank@ == seen_one_more(
            states[k].dead_tiles_by_rank@,
            mini_rank(tile.serial),
        )
}

/// The states of a game, one after each draw, each following from the one before by a step.
pub open spec fn game_trace<F: Fn(&MiniGameState) -> usize>(
    f: F,
    wall: Seq<MiniTile>,
    states: Seq<MiniGameState>,
) -> bool {
    forall|k: int| 0 <= k < states.len() - 1 ==> #[trigger] game_step(f, wall, states, k)
}

/// Plays a game from a state with five tiles in hand and a given wall: while the hand is not
/// a winning hand and the wall is not empty, discards the tile the strategy names and draws
/// the last tile of the wall. Returns the number of draws, whether the hand won, and the final
/// state.
pub fn play_game_with_wall<F: Fn(&MiniGameState) -> usize>(
    game_state: MiniGameState,
    tile_wall: Vec<MiniTile>,
    discard_strategy: &F,
) -> (r: (i32, bool, MiniGameState))
    requires
        playable_state(game_state),
        wall_fits(game_state.dead_tiles_by_rank@, tile_wall@),
        tile_wall@.len() <= 36,
        strategy_ok(*discard_strategy),
    ensures
        r.1 == spec_is_winning_mini_hand(r.2.hand_tiles@),
        playable_state(r.2),
        0 <= r.0 <= tile_wall@.len(),
        !r.1 ==> r.0 == tile_wall@.len(),
        exists|states: Seq<MiniGameState>|
            {
                &&& states.len() == r.0 + 1
                &&& states[0] == game_state
                &&& states.last() == r.2
                &&& game_trace(*discard_strategy, tile_wall@, states)
            },
{
    let ghost start = game_state;
    let ghost wall = tile_wall@;
    let mut current_game_state = game_state;
    let mut tile_wall = tile_wall;
    let ghost wall_len = tile_wall@.len();
    let ghost mut trace: Seq<MiniGameState> = seq![game_state];
    let mut draws: i32 = 0;
    while !is_winning_mini_hand(&current_game_state.hand_tiles) && tile_wall.len() > 0
        invariant
            playable_state(current_game_state),
            wall_fits(current_game_state.dead_tiles_by_rank@, tile_wall@),
            strategy_ok(*discard_strategy),
            wall_len <= 36,
            0 <= draws,
            draws + tile_wall@.len() == wall_len,
            wall.len() == wall_len,
            tile_wall@ == wall.take(tile_wall@.len() as int),
            trace.len() == draws + 1,
            trace[0] == start,
            trace.last() == current_game_state,
            game_trace(*discard_strategy, wall, trace),
        decreases tile_wall@.len(),
    {
        let ghost state_before = current_game_state;
        // discard a tile
        let index_to_discard = discard_strategy(&current_game_state);
        current_game_state.hand_tiles.swap_remove(index_to_discard);
        // draw a new tile
        let ghost wall_before = tile_wall@;
        let drawn_tile = tile_wall.pop().unwrap();
        current_game_state.hand_tiles.push(drawn_tile);
        draws += 1;
        // update the seen counts
        let ghost dead_before = current_game_state.dead_tiles_by_rank@;
        proof {
            assert(wall_before.drop_last().push(drawn_tile) =~= wall_before);
            let rk = mini_rank(drawn_tile.serial);
            assert(rank_count(wall_before, rk) == rank_count(wall_before.drop_last(), rk) + 1);
            assert(count_at(dead_before, rk) + rank_count(wall_before, rk) <= 4);
        }
        record_seen(&mut current_game_state.dead_tiles_by_rank, drawn_tile.rank());
        proof {
            let rk = mini_rank(drawn_tile.serial);
            assert forall|k: u32| 1 <= k <= 9 implies #[trigger] count_at(
                current_game_state.dead_tiles_by_rank@,
                k,
            ) + rank_count(tile_wall@, k) <= 4 by {
                assert(count_at(dead_before, k) + rank_count(wall_before, k) <= 4);
                lemma_rank_count_bounds(wall_before, k);
            }
            assert forall|k: u32| 1 <= k <= 9 implies #[trigger] count_at(
                current_game_state.dead_tiles_by_rank@,
                k,
            ) <= 4 by {
                assert(count_at(dead_before, k) + rank_count(wall_before, k) <= 4);
                lemma_rank_count_bounds(tile_wall@, k);
                assert(count_at(current_game_state.dead_tiles_by_rank@, k) + rank_count(
                    tile_wall@,
                    k,
                ) <= 4);
            }
            assert(current_game_state.hand_tiles@.len() == 5);
        }
        proof {
            let k = trace.len() - 1;
            let new_trace = trace.push(current_game_state);
            assert(wall_before =~= wall.take(wall_before.len() as int));
            assert(drawn_tile == wall[wall.len() - 1 - k]);
            assert(new_trace[k] == state_before);
            assert(new_trace[k + 1] == current_game_state);
            assert(call_ensures(*discard_strategy, (&new_trace[k],), index_to_discard));
            assert(game_step(*discard_strategy, wall, new_trace, k));
            assert forall|j: int| 0 <= j < new_trace.len() - 1 implies #[trigger] game_step(
                *discard_strategy,
                wall,
                new_trace,
                j,
            ) by {
                if j < k {
                    assert(game_step(*discard_strategy, wall, trace, j));
                    assert(new_trace[j] == trace[j]);
                    assert(new_trace[j + 1] == trace[j + 1]);
                }
            }
            trace = new_trace;
            assert(tile_wall@ =~= wall.take(tile_wall@.len() as int));
        }
    }
    let did_win = is_winning_mini_hand(&current_game_state.hand_tiles);
    (draws, did_win, current_game_state)
}

/// The draws a game from `game_state` has once the hand is filled to five tiles: the unseen tiles
/// that are left in the wall after the filling (none where the wall cannot fill the hand).
pub open spec fn draws_after_fill(game_state: MiniGameState) -> int {
    let w = spec_unshuffled_wall(game_state.dead_tiles_by_rank@).len() as int;
    let h = game_state.hand_tiles@.len() as int;
    if w + h >= 5 {
        w + h - 5
    } else {
        0
    }
}

/// The first `n` tiles drawn from the back of the wall, in the order they are drawn.
pub open spec fn drawn_from_back(wall: Seq<MiniTile>, n: int) -> Seq<MiniTile> {
    Seq::new(n as nat, |i: int| wall[wall.len() - 1 - i])
}

/// The counts of seen tiles after each of `tiles` is seen.
pub open spec fn seen_all(dead: Map<u32, u32>, tiles: Seq<MiniTile>) -> Map<u32, u32>
    decreases tiles.len(),
{
    if tiles.len() == 0 {
        dead
    } else {
        seen_one_more(seen_all(dead, tiles.drop_last()), mini_rank(tiles.last().serial))
    }
}

/// What a game from `game_state` gives on the wall `wall`: the hand is filled up to five tiles
/// from the back of the wall; a hand the wall cannot fill does not play (no draws, winning as
/// it stands); otherwise the game follows a trace of `play_game_with_wall` on the rest of the
/// wall, and the draws and the win are those of its last state.
pub open spec fn game_from_wall<F: Fn(&MiniGameState) -> usize>(
    game_state: MiniGameState,
    wall: Seq<MiniTile>,
    f: F,
    r: (i32, bool),
) -> bool {
    let h = game_state.hand_tiles@.len() as int;
    if h + wall.len() < 5 {
        r.0 == 0 && r.1 == spec_is_winning_mini_hand(
            game_state.hand_tiles@ + drawn_from_back(wall, wall.len() as int),
        )
    } else {
        let drawn = drawn_from_back(wall, 5 - h);
        let rest = wall.take(wall.len() - (5 - h));
        exists|states: Seq<MiniGameState>|
            {
                &&& states.len() == r.0 + 1
                &&& states[0].hand_tiles@ == game_state.hand_tiles@ + drawn
                &&& states[0].dead_tiles_by_rank@ == seen_all(game_state.dead_tiles_by_rank@, drawn)
                &&& game_trace(f, rest, states)
                &&& r.1 == spec_is_winning_mini_hand(states.last().hand_tiles@)
                &&& !r.1 ==> r.0 == rest.len()
            }
    }
}

/// Plays a game from the given state: sets up the (shuffled) wall of unseen tiles, fills the
/// hand up to five tiles from it, then plays (see `play_game_with_wall`). Returns the number of
/// draws after the hand was filled and whether the hand won; a hand that the wall cannot fill
/// does not play and does not win.
pub fn play_game<F: Fn(&MiniGameState) -> usize>(
    game_state: &MiniGameState,
    discard_strategy: &F,
) -> (r: (i32, bool))
    requires
        game_state.hand_tiles@.len() <= 5,
        dead_counts_ok(game_state.dead_tiles_by_rank@),
        strategy_ok(*discard_strategy),
    ensures
        0 <= r.0 <= draws_after_fill(*game_state) <= 36,
        !r.1 ==> r.0 == draws_after_fill(*game_state),
        exists|wall: Seq<MiniTile>|
            {
                &&& wall.to_multiset() == spec_unshuffled_wall(
                    game_state.dead_tiles_by_rank@,
                ).to_multiset()
                &&& game_from_wall(*game_state, wall, *discard_strategy, r)
            },
{
    broadcast use vstd::std_specs::hash::group_hash_axioms;

    let mut tile_wall = set_up_wall(game_state);
    let ghost wall0 = tile_wall@;
    let mut hand_tiles: Vec<MiniTile> = Vec::new();
    let mut i: usize = 0;
    while i < game_state.hand_tiles.len()
        invariant
            i <= game_state.hand_tiles@.len(),
            hand_tiles@ == game_state.hand_tiles@.take(i as int),
        decreases game_state.hand_tiles@.len() - i,
    {
        hand_tiles.push(game_state.hand_tiles[i]);
        i += 1;
        assert(hand_tiles@ =~= game_state.hand_tiles@.take(i as int));
    }
    assert(game_state.hand_tiles@.take(i as int) =~= game_state.hand_tiles@);
    let mut current_game_state = MiniGameState {
        hand_tiles,
        dead_tiles_by_rank: game_state.dead_tiles_by_rank.clone(),
    };
    proof {
        let dead = game_state.dead_tiles_by_rank@;
        let unshuffled = spec_unshuffled_wall(dead);
        assert forall|k: u32| 1 <= k <= 9 implies #[trigger] count_at(dead, k) + rank_count(
            tile_wall@,
            k,
        ) <= 4 by {
            lemma_rank_count_same_tiles(tile_wall@, unshuffled, k);
            lemma_wall_below_counts(dead, 10, k);
        }
        broadcast use vstd::seq_lib::group_to_multiset_ensures;

        assert(unshuffled.len() <= 36) by {
            lemma_wall_below_len(dead, 10);
        }
        assert(tile_wall@.len() == tile_wall@.to_multiset().len());
        assert(unshuffled.len() == unshuffled.to_multiset().len());
    }
    let ghost total = tile_wall@.len() + game_state.hand_tiles@.len();
    let ghost h0 = game_state.hand_tiles@.len() as int;
    assert(drawn_from_back(wall0, 0) =~= Seq::<MiniTile>::empty());
    assert(current_game_state.hand_tiles@ =~= game_state.hand_tiles@ + drawn_from_back(wall0, 0));
    assert(wall0.take(wall0.len() as int) =~= wall0);
    // draw the tiles that the hand is missing
    while current_game_state.hand_tiles.len() < 5 && tile_wall.len() > 0
        invariant
            tile_wall@.len() + current_game_state.hand_tiles@.len() == total,
            total == wall0.len() + h0,
            h0 == game_state.hand_tiles@.len(),
            h0 <= current_game_state.hand_tiles@.len(),
            current_game_state.hand_tiles@ == game_state.hand_tiles@ + drawn_from_back(
                wall0,
                current_game_state.hand_tiles@.len() - h0,
            ),
            current_game_state.dead_tiles_by_rank@ == seen_all(
                game_state.dead_tiles_by_rank@,
                drawn_from_back(wall0, current_game_state.hand_tiles@.len() - h0),
            ),
            tile_wall@ == wall0.take(wall0.len() - (current_game_state.hand_tiles@.len() - h0)),
            current_game_state.hand_tiles@.len() <= 5,
            wall_fits(current_game_state.dead_tiles_by_rank@, tile_wall@),
            tile_wall@.len() <= 36,
        decreases tile_wall@.len(),
    {
        let ghost wall_before = tile_wall@;
        let ghost n = current_game_state.hand_tiles@.len() - h0;
        let ghost hand_before = current_game_state.hand_tiles@;
        let tile_to_draw = tile_wall.pop().unwrap();
        current_game_state.hand_tiles.push(tile_to_draw);
        let ghost dead_before = current_game_state.dead_tiles_by_rank@;
        proof {
            assert(tile_to_draw == wall0[wall0.len() - 1 - n]);
            assert(drawn_from_back(wall0, n + 1) =~= drawn_from_back(wall0, n).push(tile_to_draw));
            assert(drawn_from_back(wall0, n + 1).drop_last() =~= drawn_from_back(wall0, n));
            assert(current_game_state.hand_tiles@ =~= game_state.hand_tiles@ + drawn_from_back(
                wall0,
                n + 1,
            ));
            assert(tile_wall@ =~= wall0.take(wall0.len() - (n + 1)));
            assert(wall_before.drop_last().push(tile_to_draw) =~= wall_before);
            let rk = mini_rank(tile_to_draw.serial);
            assert(rank_count(wall_before, rk) == rank_count(wall_before.drop_last(), rk) + 1);
            assert(count_at(dead_before, rk) + rank_count(wall_before, rk) <= 4);
            lemma_rank_count_bounds(wall_before, rk);
        }
        record_seen(&mut current_game_state.dead_tiles_by_rank, tile_to_draw.rank());
        proof {
            assert forall|k: u32| 1 <= k <= 9 implies #[trigger] count_at(
                current_game_state.dead_tiles_by_rank@,
                k,
            ) + rank_count(tile_wall@, k) <= 4 by {
                assert(count_at(dead_before, k) + rank_count(wall_before, k) <= 4);
                lemma_rank_count_bounds(wall_before, k);
            }
        }
    }
    if current_game_state.hand_tiles.len() < 5 {
        // the wall ran out before the hand was filled
        let did_win = is_winning_mini_hand(&current_game_state.hand_tiles);
        proof {
            assert(game_from_wall(*game_state, wall0, *discard_strategy, (0i32, did_win)));
            assert(wall0.to_multiset() == spec_unshuffled_wall(
                game_state.dead_tiles_by_rank@,
            ).to_multiset());
        }
        return (0, did_win);
    }
    let ghost start_state = current_game_state;
    proof {
        assert forall|k: u32| 1 <= k <= 9 implies #[trigger] count_at(
            current_game_state.dead_tiles_by_rank@,
            k,
        ) <= 4 by {
            lemma_rank_count_bounds(tile_wall@, k);
        }
    }
    let ghost rest = tile_wall@;
    let (draws, did_win, final_state) = play_game_with_wall(
        current_game_state,
        tile_wall,
        discard_strategy,
    );
    proof {
        let states = choose|states: Seq<MiniGameState>|
            {
                &&& states.len() == draws + 1
                &&& states[0] == start_state
                &&& states.last() == final_state
                &&& game_trace(*discard_strategy, rest, states)
            };
        assert(rest == wall0.take(wall0.len() - (5 - h0)));
        assert(game_from_wall(*game_state, wall0, *discard_strategy, (draws, did_win)));
        assert(wall0.to_multiset() == spec_unshuffled_wall(
            game_state.dead_tiles_by_rank@,
        ).to_multiset());
    }
    (draws, did_win)
}

/// The wall below rank `n` holds at most four tiles per rank.
proof fn lemma_wall_below_len(dead: Map<u32, u32>, n: int)
    requires
        1 <= n <= 10,
        dead_counts_ok(dead),
    ensures
        wall_below(dead, n).len() <= 4 * (n - 1),
    decreases n,
{
    if n > 1 {
        lemma_wall_below_len(dead, n - 1);
    }
}

/// Deals a new game: shuffles all 36 tiles and draws a hand of five; the seen counts are the
/// counts of the hand.
pub fn initialize_mini_game_state() -> (r: MiniGameState)
    ensures
        r.hand_tiles@.len() == 5,
        forall|k: u32| #[trigger] count_at(r.dead_tiles_by_rank@, k) == rank_count(
            r.hand_tiles@,
            k,
        ),
        forall|i: int| 0 <= i < 5 ==> (#[trigger] r.hand_tiles@[i]).serial < 36,
        r.hand_tiles@.no_duplicates(),
        dead_counts_ok(r.dead_tiles_by_rank@),
{
    broadcast use vstd::std_specs::hash::group_hash_axioms;
    broadcast use vstd::seq_lib::group_to_multiset_ensures;

    let mut rng = thread_rng();
    let empty_game_state = MiniGameState {
        hand_tiles: Vec::new(),
        dead_tiles_by_rank: HashMap::new(),
    };
    proof {
        assert forall|k: u32| 1 <= k <= 9 implies #[trigger] count_at(
            empty_game_state.dead_tiles_by_rank@,
            k,
        ) <= 4 by {}
    }
    let mut tile_wall = unshuffled_wall_tiles(&empty_game_state);
    proof {
        lemma_full_wall_len(empty_game_state.dead_tiles_by_rank@, 10);
        assert(tile_wall@.len() == 36);
    }
    let ghost full = tile_wall@;
    shuffle_tiles(&mut tile_wall, &mut rng);
    proof {
        assert(tile_wall@.len() == tile_wall@.to_multiset().len());
    }
    let mut hand_tiles: Vec<MiniTile> = Vec::new();
    let mut dead_tiles_by_rank: HashMap<u32, u32> = HashMap::new();
    proof {
        assert(hand_tiles@ + tile_wall@ =~= tile_wall@);
    }
    while hand_tiles.len() < 5 && tile_wall.len() > 0
        invariant
            (hand_tiles@ + tile_wall@).to_multiset() == full.to_multiset(),
            hand_tiles@.len() <= 5,
            hand_tiles@.len() + tile_wall@.len() == 36,
            forall|k: u32| #[trigger] count_at(dead_tiles_by_rank@, k) == rank_count(
                hand_tiles@,
                k,
            ),
        decreases 5 - hand_tiles@.len(),
    {
        let ghost wall_before = tile_wall@;
        let tile_to_draw = tile_wall.pop().unwrap();
        let ghost hand_before = hand_tiles@;
        hand_tiles.push(tile_to_draw);
        proof {
            lemma_rank_count_bounds(hand_before, mini_rank(tile_to_draw.serial));
            assert(wall_before == tile_wall@.push(tile_to_draw));
            vstd::seq_lib::lemma_multiset_commutative(hand_before, wall_before);
            vstd::seq_lib::lemma_multiset_commutative(hand_tiles@, tile_wall@);
            vstd::seq_lib::to_multiset_build(tile_wall@, tile_to_draw);
            vstd::seq_lib::to_multiset_build(hand_before, tile_to_draw);
            assert(hand_before.to_multiset().add(wall_before.to_multiset()) =~= hand_tiles@.to_multiset().add(
                tile_wall@.to_multiset(),
            ));
        }
        let ghost dead_before = dead_tiles_by_rank@;
        record_seen(&mut dead_tiles_by_rank, tile_to_draw.rank());
        proof {
            assert forall|k: u32| #[trigger] count_at(dead_tiles_by_rank@, k) == rank_count(
                hand_tiles@,
                k,
            ) by {
                assert(hand_tiles@.drop_last() =~= hand_before);
                assert(count_at(dead_before, k) == rank_count(hand_before, k));
            }
        }
    }
    proof {
        broadcast use vstd::multiset::group_multiset_axioms;

        let h = hand_tiles@;
        let w = tile_wall@;
        lemma_full_wall_shape(10);
        let fw = wall_below(Map::<u32, u32>::empty(), 10);
        assert(full == fw);
        lemma_full_wall_distinct();
        fw.lemma_multiset_has_no_duplicates();
        vstd::seq_lib::lemma_multiset_commutative(h, w);
        assert forall|x: MiniTile| h.to_multiset().contains(x) implies h.to_multiset().count(x) == 1 by {
            assert(full.to_multiset().count(x) == h.to_multiset().count(x) + w.to_multiset().count(x));
            assert(full.to_multiset().contains(x));
        }
        h.lemma_multiset_has_no_duplicates_conv();
        assert forall|i: int| 0 <= i < 5 implies (#[trigger] h[i]).serial < 36 by {
            assert(h.to_multiset().count(h[i]) > 0);
            assert(full.to_multiset().count(h[i]) > 0);
            assert(full.contains(h[i]));
            let j = choose|j: int| 0 <= j < full.len() && full[j] == h[i];
            assert(fw[j].serial < 36);
        }
        assert forall|k: u32| 1 <= k <= 9 implies #[trigger] count_at(dead_tiles_by_rank@, k) <= 4 by {
            lemma_rank_count_same_tiles(h + w, full, k);
            lemma_wall_below_counts(Map::<u32, u32>::empty(), 10, k);
            assert(count_at(Map::<u32, u32>::empty(), k) == 0);
            lemma_rank_count_concat(h, w, k);
            lemma_rank_count_bounds(w, k);
        }
    }
    MiniGameState { hand_tiles, dead_tiles_by_rank }
}

/// With nothing seen, the wall below rank `n` holds, at position `i`, the serial number
/// `i / 4 + 9 * (i % 4)` (rank `i / 4 + 1`).
proof fn lemma_full_wall_shape(n: int)
    requires
        1 <= n <= 10,
    ensures
        wall_below(Map::<u32, u32>::empty(), n).len() == 4 * (n - 1),
        forall|i: int|
            0 <= i < 4 * (n - 1) ==> #[trigger] wall_below(Map::<u32, u32>::empty(), n)[i]
                == (MiniTile { serial: (i / 4 + 9 * (i % 4)) as u32 }),
    decreases n,
{
    if n > 1 {
        lemma_full_wall_shape(n - 1);
        let dead = Map::<u32, u32>::empty();
        let k = (n - 1) as u32;
        assert(count_at(dead, k) == 0);
        let a = wall_below(dead, n - 1);
        let b = rank_wall(k, 0);
        assert forall|i: int| 0 <= i < 4 * (n - 1) implies #[trigger] wall_below(dead, n)[i]
            == MiniTile { serial: (i / 4 + 9 * (i % 4)) as u32 } by {
            if i >= 4 * (n - 2) {
                let j = i - 4 * (n - 2);
                assert(i / 4 == n - 2 && i % 4 == j);
                assert(wall_below(dead, n)[i] == b[j]);
            } else {
                assert(wall_below(dead, n)[i] == a[i]);
            }
        }
    }
}

/// The tiles of the full wall are all different.
proof fn lemma_full_wall_distinct()
    ensures
        wall_below(Map::<u32, u32>::empty(), 10).no_duplicates(),
        forall|i: int|
            0 <= i < 36 ==> (#[trigger] wall_below(Map::<u32, u32>::empty(), 10)[i]).serial < 36,
{
    lemma_full_wall_shape(10);
    let fw = wall_below(Map::<u32, u32>::empty(), 10);
    assert forall|i: int, j: int| 0 <= i < fw.len() && 0 <= j < fw.len() && i != j implies fw[i]
        != fw[j] by {
        assert(fw[i].serial == i / 4 + 9 * (i % 4));
        assert(fw[j].serial == j / 4 + 9 * (j % 4));
        assert(i == 4 * (i / 4) + i % 4);
        assert(j == 4 * (j / 4) + j % 4);
    }
    assert forall|i: int| 0 <= i < 36 implies (#[trigger] fw[i]).serial < 36 by {
        assert(fw[i].serial == i / 4 + 9 * (i % 4));
    }
}

/// With nothing seen, the wall below rank `n` holds four tiles per rank.
proof fn lemma_full_wall_len(dead: Map<u32, u32>, n: int)
    requires
        1 <= n <= 10,
        dead == Map::<u32, u32>::empty(),
    ensures
        wall_below(dead, n).len() == 4 * (n - 1),
    decreases n,
{
    if n > 1 {
        lemma_full_wall_len(dead, n - 1);
        assert(count_at(dead, (n - 1) as u32) == 0);
    }
}

} // verus!
