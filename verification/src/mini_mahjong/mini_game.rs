use std::collections::HashMap;
use vstd::prelude::*;

verus! {

/// A tile is represented as a number 0-35 (there is only one suit, ranks 1 to 9, and four
/// copies of each rank).
pub const NUM_MINI_TILES: u32 = 36;

/// A tile of the one-suit mini game, identified by its serial number.
#[derive(Clone, Copy, Debug)]
pub struct MiniTile {
    pub serial: u32,
}

/// The rank (1-9) of a serial number.
pub open spec fn mini_rank(serial: u32) -> u32 {
    (serial % 9 + 1) as u32
}

impl MiniTile {
    /// Whether the serial number names one of the 36 tiles.
    pub fn is_valid_serial(&self) -> (r: bool)
        ensures
            r == (self.serial < 36),
    {
        self.serial < NUM_MINI_TILES
    }

    /// The rank (aka value) of the tile.
    pub fn rank(&self) -> (r: u32)
        ensures
            r == mini_rank(self.serial),
            1 <= r <= 9,
    {
        (self.serial % 9) + 1
    }
}

/// How many of the tiles have rank `r`.
pub open spec fn rank_count(tiles: Seq<MiniTile>, r: u32) -> int
    decreases tiles.len(),
{
    if tiles.len() == 0 {
        0
    } else {
        rank_count(tiles.drop_last(), r) + if mini_rank(tiles.last().serial) == r {
            1int
        } else {
            0int
        }
    }
}

pub proof fn lemma_rank_count_bounds(tiles: Seq<MiniTile>, r: u32)
    ensures
        0 <= rank_count(tiles, r) <= tiles.len(),
        (r < 1 || r > 9) ==> rank_count(tiles, r) == 0,
    decreases tiles.len(),
{
    if tiles.len() > 0 {
        lemma_rank_count_bounds(tiles.drop_last(), r);
    }
}

/// The count a rank map gives `k` (zero when it has no entry).
pub open spec fn count_at(m: Map<u32, u32>, k: u32) -> int {
    if m.contains_key(k) {
        m[k] as int
    } else {
        0
    }
}

/// Counts the tiles of each rank; a rank without tiles has no entry.
pub fn count_mini_tiles_by_rank(tiles: &Vec<MiniTile>) -> (r: HashMap<u32, u32>)
    requires
        tiles@.len() < u32::MAX,
    ensures
        forall|k: u32| #[trigger] r@.contains_key(k) <==> rank_count(tiles@, k) > 0,
        forall|k: u32| r@.contains_key(k) ==> #[trigger] r@[k] == rank_count(tiles@, k),
{
    broadcast use vstd::std_specs::hash::group_hash_axioms;

    let mut tile_counts_by_rank: HashMap<u32, u32> = HashMap::new();
    let mut i: usize = 0;
    while i < tiles.len()
        invariant
            i <= tiles@.len(),
            tiles@.len() < u32::MAX,
            forall|k: u32|
                #[trigger] tile_counts_by_rank@.contains_key(k) <==> rank_count(
                    tiles@.take(i as int),
                    k,
                ) > 0,
            forall|k: u32|
                tile_counts_by_rank@.contains_key(k) ==> #[trigger] tile_counts_by_rank@[k]
                    == rank_count(tiles@.take(i as int), k),
        decreases tiles@.len() - i,
    {
        let rank = tiles[i].rank();
        proof {
            assert(tiles@.take(i + 1).drop_last() =~= tiles@.take(i as int));
            lemma_rank_count_bounds(tiles@.take(i as int), rank);
        }
        let count: u32 = match tile_counts_by_rank.get(&rank) {
            Some(c) => *c,
            None => 0,
        };
        tile_counts_by_rank.insert(rank, count + 1);
        i += 1;
        proof {
            assert forall|k: u32| #[trigger] tile_counts_by_rank@.contains_key(k) <==> rank_count(
                tiles@.take(i as int),
                k,
            ) > 0 by {
                lemma_rank_count_bounds(tiles@.take(i - 1), k);
            }
        }
    }
    assert(tiles@.take(i as int) =~= tiles@);
    tile_counts_by_rank
}

/// Ranks `k`, `k + 1` and `k + 2` all have tiles.
pub open spec fn run_at(m: Map<u32, u32>, k: u32) -> bool {
    count_at(m, k) > 0 && count_at(m, (k + 1) as u32) > 0 && count_at(m, (k + 2) as u32) > 0
}

/// Three consecutive ranks starting at 1 to 7 all have tiles.
pub open spec fn spec_contains_sequence(m: Map<u32, u32>) -> bool {
    exists|k: u32| 1 <= k <= 7 && #[trigger] run_at(m, k)
}

/// Whether three consecutive ranks all have tiles (sequences do not wrap around).
pub fn contains_sequence(tile_counts: &HashMap<u32, u32>) -> (r: bool)
    ensures
        r == spec_contains_sequence(tile_counts@),
{
    broadcast use vstd::std_specs::hash::group_hash_axioms;

    let mut rank: u32 = 1;
    while rank <= 9
        invariant
            1 <= rank <= 10,
            forall|k: u32| 1 <= k < rank && k <= 7 ==> !#[trigger] run_at(tile_counts@, k),
        decreases 10 - rank,
    {
        let count: u32 = match tile_counts.get(&rank) {
            Some(c) => *c,
            None => 0,
        };
        assert(count == count_at(tile_counts@, rank));
        if count > 0 {
            if rank > 7 {
                // every start from 1 to 7 was already tried
                return false;
            }
            let second_rank_count: u32 = match tile_counts.get(&(rank + 1)) {
                Some(c) => *c,
                None => 0,
            };
            let third_rank_count: u32 = match tile_counts.get(&(rank + 2)) {
                Some(c) => *c,
                None => 0,
            };
            assert(second_rank_count == count_at(tile_counts@, (rank + 1) as u32));
            assert(third_rank_count == count_at(tile_counts@, (rank + 2) as u32));
            if second_rank_count > 0 && third_rank_count > 0 {
                assert(run_at(tile_counts@, rank));
                return true;
            }
        }
        rank += 1;
    }
    false
}

/// Some rank has three or more tiles.
pub open spec fn spec_contains_triplet(m: Map<u32, u32>) -> bool {
    exists|k: u32| m.contains_key(k) && #[trigger] m[k] >= 3
}

/// Whether some rank has at least three tiles.
pub fn contains_triplet(tile_counts: &HashMap<u32, u32>) -> (r: bool)
    ensures
        r == spec_contains_triplet(tile_counts@),
{
    broadcast use vstd::std_specs::hash::group_hash_axioms;

    let ghost all = vstd::std_specs::iter::IteratorSpec::remaining(
        &vstd::std_specs::hash::spec_values_iter(tile_counts),
    );
    for count in it: tile_counts.values()
        invariant
            it.seq() == all,
            all.unref().to_set() == tile_counts@.values(),
            forall|i: int| 0 <= i < it.index() ==> *all[i] < 3,
    {
        if *count >= 3 {
            proof {
                let v = *all[it.index() as int];
                assert(all.unref()[it.index() as int] == v);
                assert(all.unref().contains(v));
                assert(tile_counts@.values().contains(v));
                let k = choose|k: u32| tile_counts@.contains_key(k) && tile_counts@[k] == v;
                assert(tile_counts@[k] >= 3);
            }
            return true;
        }
    }
    proof {
        assert(forall|i: int| 0 <= i < all.len() ==> *all[i] < 3);
        if spec_contains_triplet(tile_counts@) {
            let k = choose|k: u32| tile_counts@.contains_key(k) && #[trigger] tile_counts@[k] >= 3;
            let v = tile_counts@[k];
            assert(tile_counts@.values().contains(v));
            assert(all.unref().to_set().contains(v));
            assert(all.unref().contains(v));
            let i = choose|i: int| 0 <= i < all.unref().len() && all.unref()[i] == v;
            assert(*all[i] == v);
        }
    }
    false
}

/// The count of rank `k` after a pair of rank `p` is taken out.
pub open spec fn count_without_pair(tiles: Seq<MiniTile>, p: u32, k: u32) -> int {
    rank_count(tiles, k) - if k == p {
        2int
    } else {
        0int
    }
}

/// With a pair of rank `p` taken out, ranks `k`, `k + 1` and `k + 2` all have tiles.
pub open spec fn run_without_pair(tiles: Seq<MiniTile>, p: u32, k: u32) -> bool {
    &&& count_without_pair(tiles, p, k) > 0
    &&& count_without_pair(tiles, p, (k + 1) as u32) > 0
    &&& count_without_pair(tiles, p, (k + 2) as u32) > 0
}

/// With a pair of rank `p` taken out, the other tiles hold three consecutive ranks or three
/// tiles of one rank.
pub open spec fn completes_with_pair(tiles: Seq<MiniTile>, p: u32) -> bool {
    &&& rank_count(tiles, p) >= 2
    &&& {
        ||| exists|k: u32| 1 <= k <= 7 && #[trigger] run_without_pair(tiles, p, k)
        ||| exists|k: u32| #[trigger] count_without_pair(tiles, p, k) >= 3
    }
}

/// A winning mini hand: five tiles that make a pair and a sequence or triplet.
pub open spec fn spec_is_winning_mini_hand(tiles: Seq<MiniTile>) -> bool {
    tiles.len() == 5 && exists|p: u32| #[trigger] completes_with_pair(tiles, p)
}

pub fn is_winning_mini_hand(tiles: &Vec<MiniTile>) -> (r: bool)
    ensures
        r == spec_is_winning_mini_hand(tiles@),
{
    broadcast use vstd::std_specs::hash::group_hash_axioms;

    if tiles.len() != 5 {
        // invalid number of tiles for winning mini hand
        return false;
    }
    let tile_counts = count_mini_tiles_by_rank(tiles);
    let mut rank: u32 = 1;
    while rank <= 9
        invariant
            1 <= rank <= 10,
            tiles@.len() == 5,
            forall|k: u32| #[trigger] tile_counts@.contains_key(k) <==> rank_count(tiles@, k) > 0,
            forall|k: u32| tile_counts@.contains_key(k) ==> #[trigger] tile_counts@[k] == rank_count(
                tiles@,
                k,
            ),
            forall|p: u32| 1 <= p < rank ==> !#[trigger] completes_with_pair(tiles@, p),
        decreases 10 - rank,
    {
        if let Some(count) = tile_counts.get(&rank) {
            if *count >= 2 {
                // a potential pair
                let mut new_tile_counts = tile_counts.clone();
                new_tile_counts.insert(rank, *count - 2);
                proof {
                    assert forall|k: u32| count_at(new_tile_counts@, k) == count_without_pair(
                        tiles@,
                        rank,
                        k,
                    ) by {
                        lemma_rank_count_bounds(tiles@, k);
                    }
                }
                let has_sequence = contains_sequence(&new_tile_counts);
                let has_triplet = contains_triplet(&new_tile_counts);
                proof {
                    if has_sequence {
                        let k = choose|k: u32| 1 <= k <= 7 && #[trigger] run_at(new_tile_counts@, k);
                        assert(run_without_pair(tiles@, rank, k));
                    }
                    if has_triplet {
                        let k = choose|k: u32|
                            new_tile_counts@.contains_key(k) && #[trigger] new_tile_counts@[k] >= 3;
                        assert(count_at(new_tile_counts@, k) >= 3);
                        assert(count_without_pair(tiles@, rank, k) >= 3);
                    }
                    if exists|k: u32| 1 <= k <= 7 && #[trigger] run_without_pair(tiles@, rank, k) {
                        let k = choose|k: u32|
                            1 <= k <= 7 && #[trigger] run_without_pair(tiles@, rank, k);
                        assert(run_at(new_tile_counts@, k));
                    }
                    if exists|k: u32| #[trigger] count_without_pair(tiles@, rank, k) >= 3 {
                        let k = choose|k: u32| #[trigger] count_without_pair(tiles@, rank, k) >= 3;
                        assert(count_at(new_tile_counts@, k) >= 3);
                        assert(new_tile_counts@.contains_key(k));
                    }
                }
                if has_sequence || has_triplet {
                    assert(completes_with_pair(tiles@, rank));
                    return true;
                }
            }
        }
        rank += 1;
    }
    proof {
        assert forall|p: u32| !#[trigger] completes_with_pair(tiles@, p) by {
            lemma_rank_count_bounds(tiles@, p);
        }
    }
    false
}

} // verus!
