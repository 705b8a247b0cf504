use std::collections::VecDeque;
use vstd::prelude::*;

use crate::hand_shape::{
    group_count, group_valid, groups_count, is_decomposable, is_decomposition, is_pair_group,
    lemma_decomposition_push, lemma_decomposition_remove, lemma_group_holding,
    lemma_empty_decomposable, lemma_groups_count_empty, lemma_groups_count_nonneg,
    lemma_lowest_tile_group, remove_group, starts_sequence, is_decomposable_with_quads,
    spec_tile_isolated, lemma_isolated_not_decomposable, lemma_only_sequences_at_lowest,
    lemma_push_sequences, remove_sequences, lemma_honor_group, honors_at_most_four, lemma_honor_step,
    ShapeGroup,
};
use crate::mahjong_tile::{
    count_sum, get_num_tile_rank, get_tile_text_from_id, id_rank, is_numbered_id,
    lemma_count_sum_nonneg, lemma_count_sum_update, spec_tile_text, valid_id, MahjongTile,
    MahjongTileId, FIRST_HONOR_ID, NUM_DISTINCT_TILE_VALUES,
};
use crate::shanten::{lemma_pow8_mono, lemma_pow8_positive, pow8};

verus! {

/// The index of the first tile id with a nonzero count, or the length when every count is zero.
pub open spec fn first_nonzero(c: Seq<u8>) -> int
    decreases c.len(),
{
    if c.len() == 0 {
        0
    } else if c[0] != 0 {
        0
    } else {
        1 + first_nonzero(c.drop_first())
    }
}

pub proof fn lemma_first_nonzero(c: Seq<u8>)
    ensures
        0 <= first_nonzero(c) <= c.len(),
        forall|j: int| 0 <= j < first_nonzero(c) ==> c[j] == 0,
        first_nonzero(c) < c.len() ==> c[first_nonzero(c)] != 0,
    decreases c.len(),
{
    if c.len() > 0 && c[0] == 0 {
        lemma_first_nonzero(c.drop_first());
        assert forall|j: int| 0 <= j < first_nonzero(c) implies c[j] == 0 by {
            if j > 0 {
                assert(c[j] == c.drop_first()[j - 1]);
            }
        }
    }
}

/// The first tile id with a nonzero count (34 if there is none).
pub(crate) fn find_first_nonzero(tile_count_array: &[u8; 34]) -> (i: u8)
    ensures
        i == first_nonzero(tile_count_array@),
        i <= 34,
        forall|j: int| 0 <= j < i ==> tile_count_array@[j] == 0,
        i < 34 ==> tile_count_array@[i as int] != 0,
{
    proof {
        lemma_first_nonzero(tile_count_array@);
    }
    let mut tile_id: u8 = 0;
    while tile_id < 34 && tile_count_array[tile_id as usize] == 0
        invariant
            tile_id <= 34,
            forall|j: int| 0 <= j < tile_id ==> tile_count_array@[j] == 0,
            tile_id <= first_nonzero(tile_count_array@) <= 34,
            first_nonzero(tile_count_array@) < 34 ==> tile_count_array@[first_nonzero(
                tile_count_array@,
            )] != 0,
        decreases 34 - tile_id,
    {
        tile_id += 1;
    }
    tile_id
}

/// Whether tile `t` belongs to some sequence of three tiles that are all present.
pub open spec fn spec_can_make_sequence(c: Seq<u8>, t: int) -> bool {
    ||| (starts_sequence(t - 2) && c[t - 2] >= 1 && c[t - 1] >= 1 && c[t] >= 1)
    ||| (starts_sequence(t - 1) && c[t - 1] >= 1 && c[t] >= 1 && c[t + 1] >= 1)
    ||| (starts_sequence(t) && c[t] >= 1 && c[t + 1] >= 1 && c[t + 2] >= 1)
}

/// Whether a numbered tile starts a two-sided wait (ranks 2-3 up to 7-8).
pub open spec fn starts_ryanmen(a: int) -> bool {
    is_numbered_id(a) && 2 <= id_rank(a) <= 7
}

/// Whether a numbered tile starts an edge wait (1-2 or 8-9).
pub open spec fn starts_penchan(a: int) -> bool {
    is_numbered_id(a) && (id_rank(a) == 1 || id_rank(a) == 8)
}

/// Whether tile `t` belongs to some present two-sided wait.
pub open spec fn spec_can_make_ryanmen(c: Seq<u8>, t: int) -> bool {
    ||| (starts_ryanmen(t - 1) && c[t - 1] >= 1 && c[t] >= 1)
    ||| (starts_ryanmen(t) && c[t] >= 1 && c[t + 1] >= 1)
}

/// Whether tile `t` belongs to some present edge wait.
pub open spec fn spec_can_make_penchan(c: Seq<u8>, t: int) -> bool {
    ||| (starts_penchan(t - 1) && c[t - 1] >= 1 && c[t] >= 1)
    ||| (starts_penchan(t) && c[t] >= 1 && c[t + 1] >= 1)
}

/// Whether tile `t` belongs to some present inner wait (two tiles of one suit, two ranks apart).
pub open spec fn spec_can_make_kanchan(c: Seq<u8>, t: int) -> bool {
    ||| (starts_sequence(t - 2) && c[t - 2] >= 1 && c[t] >= 1)
    ||| (starts_sequence(t) && c[t] >= 1 && c[t + 2] >= 1)
}

/// sequence = three consecutive tiles (e.g. 123 or 678)
pub fn can_make_sequence(tile_count_array: &[u8; 34], tile_id: u8) -> (r: bool)
    requires
        valid_id(tile_id as int),
    ensures
        r == spec_can_make_sequence(tile_count_array@, tile_id as int),
{
    let c = tile_count_array;
    let t = tile_id as usize;
    match get_num_tile_rank(tile_id) {
        Some(r) => {
            c[t] >= 1 && if r == 1 {
                c[t + 1] >= 1 && c[t + 2] >= 1
            } else if r == 2 {
                (c[t + 1] >= 1 && c[t + 2] >= 1) || (c[t - 1] >= 1 && c[t + 1] >= 1)
            } else if r >= 3 && r <= 7 {
                (c[t + 1] >= 1 && c[t + 2] >= 1) || (c[t - 1] >= 1 && c[t + 1] >= 1) || (c[t
                    - 2] >= 1 && c[t - 1] >= 1)
            } else if r == 8 {
                (c[t - 1] >= 1 && c[t + 1] >= 1) || (c[t - 2] >= 1 && c[t - 1] >= 1)
            } else {
                c[t - 2] >= 1 && c[t - 1] >= 1
            }
        },
        None => false,
    }
}

/// ryanmen = two-sided wait (e.g. 23 or 78)
pub fn can_make_ryanmen(tile_count_array: &[u8; 34], tile_id: u8) -> (r: bool)
    requires
        valid_id(tile_id as int),
    ensures
        r == spec_can_make_ryanmen(tile_count_array@, tile_id as int),
{
    let c = tile_count_array;
    let t = tile_id as usize;
    match get_num_tile_rank(tile_id) {
        Some(r) => {
            c[t] >= 1 && if r == 2 {
                c[t + 1] >= 1
            } else if r >= 3 && r <= 7 {
                c[t + 1] >= 1 || c[t - 1] >= 1
            } else if r == 8 {
                c[t - 1] >= 1
            } else {
                false
            }
        },
        None => false,
    }
}

/// penchan = one-sided wait (only 12 or 89)
pub fn can_make_penchan(tile_count_array: &[u8; 34], tile_id: u8) -> (r: bool)
    requires
        valid_id(tile_id as int),
    ensures
        r == spec_can_make_penchan(tile_count_array@, tile_id as int),
{
    let c = tile_count_array;
    let t = tile_id as usize;
    match get_num_tile_rank(tile_id) {
        Some(r) => {
            c[t] >= 1 && if r == 1 || r == 8 {
                c[t + 1] >= 1
            } else if r == 2 || r == 9 {
                c[t - 1] >= 1
            } else {
                false
            }
        },
        None => false,
    }
}

/// kanchan = inner wait (e.g. 13 or 79)
pub fn can_make_kanchan(tile_count_array: &[u8; 34], tile_id: u8) -> (r: bool)
    requires
        valid_id(tile_id as int),
    ensures
        r == spec_can_make_kanchan(tile_count_array@, tile_id as int),
{
    let c = tile_count_array;
    let t = tile_id as usize;
    match get_num_tile_rank(tile_id) {
        Some(r) => {
            c[t] >= 1 && if r == 1 || r == 2 {
                c[t + 2] >= 1
            } else if r >= 3 && r <= 7 {
                c[t + 2] >= 1 || c[t - 2] >= 1
            } else {
                c[t - 2] >= 1
            }
        },
        None => false,
    }
}

/// The MSPZ text of every tile of a count array, in ascending tile order.
pub open spec fn spec_count_array_text(c: Seq<u8>) -> Seq<char>
    decreases c.len(),
{
    if c.len() == 0 {
        seq![]
    } else {
        spec_count_array_text(c.drop_last()) + Seq::new(
            (2 * c.last()) as nat,
            |k: int| spec_tile_text(c.len() - 1)[k % 2],
        )
    }
}

pub fn tile_count_array_to_string(tile_count_array: &[u8; 34]) -> (r: String)
    ensures
        r@ == spec_count_array_text(tile_count_array@),
{
    let mut output = String::new();
    let mut tile_id: u8 = 0;
    while tile_id < 34
        invariant
            tile_id <= 34,
            output@ == spec_count_array_text(tile_count_array@.take(tile_id as int)),
        decreases 34 - tile_id,
    {
        let tile_count = tile_count_array[tile_id as usize];
        let tile_string = get_tile_text_from_id(tile_id);
        let ghost before = output@;
        let ghost text = spec_tile_text(tile_id as int);
        let mut i: u8 = 0;
        while i < tile_count
            invariant
                i <= tile_count,
                tile_string@ == text,
                text.len() == 2,
                output@ =~= before + Seq::new(2 * i as nat, |k: int| text[k % 2]),
            decreases tile_count - i,
        {
            output.append(tile_string.as_str());
            i += 1;
        }
        assert(tile_count_array@.take(tile_id + 1).drop_last() =~= tile_count_array@.take(
            tile_id as int,
        ));
        tile_id += 1;
    }
    assert(tile_count_array@.take(34) =~= tile_count_array@);
    output
}


/// The counts left after taking the tiles of a group out, as an executable array operation.
fn take_out(tile_count_array: [u8; 34], tile_id: u8, times: u8, width: u8) -> (r: [u8; 34])
    requires
        width == 1 || width == 3,
        tile_id as int + width <= 34,
        forall|k: int|
            tile_id <= k < tile_id + width ==> tile_count_array@[k] >= if width == 1 {
                times as int
            } else {
                times as int
            },
    ensures
        forall|k: int|
            0 <= k < 34 ==> r@[k] == if tile_id <= k < tile_id + width {
                tile_count_array@[k] - times
            } else {
                tile_count_array@[k] as int
            },
        count_sum(r@) == count_sum(tile_count_array@) - width * times,
{
    let mut r = tile_count_array;
    let t = tile_id as usize;
    proof {
        lemma_count_sum_update(r@, t as int, (r@[t as int] - times) as u8);
    }
    r[t] = r[t] - times;
    if width == 3 {
        proof {
            lemma_count_sum_update(r@, t + 1, (r@[t + 1] - times) as u8);
        }
        r[t + 1] = r[t + 1] - times;
        proof {
            lemma_count_sum_update(r@, t + 2, (r@[t + 2] - times) as u8);
        }
        r[t + 2] = r[t + 2] - times;
    }
    r
}

impl MahjongHand {
    /// Whether the counts split into `num_melds_left` melds (sequences or triplets) and
    /// `num_pairs_left` pairs, found by assigning the lowest remaining tile to each kind of group
    /// that can start at it.
    fn is_winning_shape_recursive_helper(
        &self,
        tile_count_array: [u8; 34],
        num_melds_left: u8,
        num_pairs_left: u8,
    ) -> (r: bool)
        ensures
            r == is_decomposable(tile_count_array@, num_melds_left as int, num_pairs_left as int),
        decreases count_sum(tile_count_array@),
    {
        let ghost c = tile_count_array@;
        let ghost m = num_melds_left as int;
        let ghost p = num_pairs_left as int;
        let tile_id = find_first_nonzero(&tile_count_array);
        if tile_id == NUM_DISTINCT_TILE_VALUES {
            proof {
                lemma_empty_decomposable(c, m, p, false);
            }
            return num_melds_left == 0 && num_pairs_left == 0;
        }
        let t = tile_id as usize;
        let can_make_sequence = tile_id < FIRST_HONOR_ID && tile_id % 9 <= 6 && tile_count_array[t
            + 1] >= 1 && tile_count_array[t + 2] >= 1;
        let can_make_pair = tile_count_array[t] >= 2;
        let can_make_triplet = tile_count_array[t] >= 3;
        let ghost seq_g = ShapeGroup::Sequence(t as int);
        let ghost pair_g = ShapeGroup::Pair(t as int);
        let ghost trip_g = ShapeGroup::Triplet(t as int);
        proof {
            lemma_count_sum_nonneg(c);
            assert(can_make_sequence == (starts_sequence(t as int) && forall|k: int|
                0 <= k < 34 ==> c[k] >= group_count(seq_g, k)));
        }
        if can_make_sequence && num_melds_left > 0 {
            let new_count_array = take_out(tile_count_array, tile_id, 1, 3);
            proof {
                assert(new_count_array@ =~= remove_group(c, seq_g));
                lemma_count_sum_nonneg(new_count_array@);
            }
            if self.is_winning_shape_recursive_helper(new_count_array, num_melds_left - 1, num_pairs_left) {
                proof {
                    let gs = choose|gs: Seq<ShapeGroup>|
                        #[trigger] is_decomposition(remove_group(c, seq_g), gs, m - 1, p, false);
                    lemma_decomposition_push(c, seq_g, gs, m - 1, p, false);
                }
                return true;
            }
        }
        if can_make_pair && num_pairs_left > 0 {
            let new_count_array = take_out(tile_count_array, tile_id, 2, 1);
            proof {
                assert(new_count_array@ =~= remove_group(c, pair_g));
                lemma_count_sum_nonneg(new_count_array@);
            }
            if self.is_winning_shape_recursive_helper(new_count_array, num_melds_left, num_pairs_left - 1) {
                proof {
                    let gs = choose|gs: Seq<ShapeGroup>|
                        #[trigger] is_decomposition(remove_group(c, pair_g), gs, m, p - 1, false);
                    lemma_decomposition_push(c, pair_g, gs, m, p - 1, false);
                }
                return true;
            }
        }
        if can_make_triplet && num_melds_left > 0 {
            let new_count_array = take_out(tile_count_array, tile_id, 3, 1);
            proof {
                assert(new_count_array@ =~= remove_group(c, trip_g));
                lemma_count_sum_nonneg(new_count_array@);
            }
            if self.is_winning_shape_recursive_helper(new_count_array, num_melds_left - 1, num_pairs_left) {
                proof {
                    let gs = choose|gs: Seq<ShapeGroup>|
                        #[trigger] is_decomposition(remove_group(c, trip_g), gs, m - 1, p, false);
                    lemma_decomposition_push(c, trip_g, gs, m - 1, p, false);
                }
                return true;
            }
        }
        proof {
            if is_decomposable(c, m, p) {
                let gs = choose|gs: Seq<ShapeGroup>| #[trigger] is_decomposition(c, gs, m, p, false);
                let k = lemma_lowest_tile_group(c, gs, m, p, false, t as int);
                lemma_decomposition_remove(c, gs, k, m, p, false);
                lemma_groups_count_nonneg(gs.remove(k), 0);
                assert(is_decomposition(
                    remove_group(c, gs[k]),
                    gs.remove(k),
                    if is_pair_group(gs[k]) {
                        m
                    } else {
                        m - 1
                    },
                    if is_pair_group(gs[k]) {
                        p - 1
                    } else {
                        p
                    },
                    false,
                ));
                assert(false);
            }
        }
        false
    }
}


/// A decomposable hand with a lowest tile `t` decomposes with a sequence, a pair or a triplet
/// formed at `t`; and a hand where such a group can be formed and the rest decomposes is
/// decomposable.
pub proof fn lemma_lowest_tile_step(c: Seq<u8>, m: int, p: int, t: int)
    requires
        c.len() == 34,
        0 <= t < 34,
        c[t] > 0,
        forall|j: int| 0 <= j < t ==> c[j] == 0,
        m >= 0,
        p >= 0,
    ensures
        ({
            let seq_ok = starts_sequence(t) && c[t + 1] >= 1 && c[t + 2] >= 1;
            is_decomposable(c, m, p) <==> (seq_ok && m > 0 && is_decomposable(
                remove_group(c, ShapeGroup::Sequence(t)),
                m - 1,
                p,
            )) || (c[t] >= 2 && p > 0 && is_decomposable(
                remove_group(c, ShapeGroup::Pair(t)),
                m,
                p - 1,
            )) || (c[t] >= 3 && m > 0 && is_decomposable(
                remove_group(c, ShapeGroup::Triplet(t)),
                m - 1,
                p,
            ))
        }),
{
    let seq_g = ShapeGroup::Sequence(t);
    let pair_g = ShapeGroup::Pair(t);
    let trip_g = ShapeGroup::Triplet(t);
    let seq_ok = starts_sequence(t) && c[t + 1] >= 1 && c[t + 2] >= 1;
    assert(seq_ok == (starts_sequence(t) && forall|k: int|
        0 <= k < 34 ==> c[k] >= group_count(seq_g, k)));
    if seq_ok && m > 0 && is_decomposable(remove_group(c, seq_g), m - 1, p) {
        let gs = choose|gs: Seq<ShapeGroup>|
            #[trigger] is_decomposition(remove_group(c, seq_g), gs, m - 1, p, false);
        lemma_decomposition_push(c, seq_g, gs, m - 1, p, false);
    }
    if c[t] >= 2 && p > 0 && is_decomposable(remove_group(c, pair_g), m, p - 1) {
        let gs = choose|gs: Seq<ShapeGroup>|
            #[trigger] is_decomposition(remove_group(c, pair_g), gs, m, p - 1, false);
        lemma_decomposition_push(c, pair_g, gs, m, p - 1, false);
    }
    if c[t] >= 3 && m > 0 && is_decomposable(remove_group(c, trip_g), m - 1, p) {
        let gs = choose|gs: Seq<ShapeGroup>|
            #[trigger] is_decomposition(remove_group(c, trip_g), gs, m - 1, p, false);
        lemma_decomposition_push(c, trip_g, gs, m - 1, p, false);
    }
    if is_decomposable(c, m, p) {
        let gs = choose|gs: Seq<ShapeGroup>| #[trigger] is_decomposition(c, gs, m, p, false);
        let k = lemma_lowest_tile_group(c, gs, m, p, false, t);
        lemma_decomposition_remove(c, gs, k, m, p, false);
        lemma_groups_count_nonneg(gs.remove(k), 0);
        assert(is_decomposition(
            remove_group(c, gs[k]),
            gs.remove(k),
            if is_pair_group(gs[k]) {
                m
            } else {
                m - 1
            },
            if is_pair_group(gs[k]) {
                p - 1
            } else {
                p
            },
            false,
        ));
    }
}

/// A state of the breadth-first search for a winning shape: the tiles not grouped yet, and how
/// many melds and pairs are still to be formed.
struct PartialState {
    tile_count_array: [u8; 34],
    num_melds_left: u8,
    num_pairs_left: u8,
}

/// The tiles of the state split into the melds and pairs still to be formed.
spec fn state_decomposable(s: PartialState) -> bool {
    is_decomposable(s.tile_count_array@, s.num_melds_left as int, s.num_pairs_left as int)
}

/// A termination measure of the search queue.
spec fn state_weight(q: Seq<PartialState>) -> int
    decreases q.len(),
{
    if q.len() == 0 {
        0
    } else {
        pow8(count_sum(q[0].tile_count_array@)) + state_weight(q.drop_first())
    }
}

proof fn lemma_state_weight_append(a: Seq<PartialState>, b: Seq<PartialState>)
    ensures
        state_weight(a + b) == state_weight(a) + state_weight(b),
        state_weight(a) >= 0,
    decreases a.len(),
{
    if a.len() == 0 {
        assert(a + b =~= b);
    } else {
        lemma_state_weight_append(a.drop_first(), b);
        assert((a + b).drop_first() =~= a.drop_first() + b);
        lemma_pow8_positive(count_sum(a[0].tile_count_array@));
    }
}

impl MahjongHand {
    /// Identifies a complete hand with the standard shape (4 melds + 1 pair), ignoring 7 pairs,
    /// 13 orphans, and presence of yaku, by a breadth-first search over the ways to group the
    /// lowest remaining tile.
    pub fn is_winning_shape_iterative(&self) -> (r: bool)
        requires
            self.wf(),
        ensures
            r == is_decomposable(self.counts(), 4, 1),
    {
        broadcast use vstd::std_specs::vecdeque::axiom_spec_len;

        let tile_count_array = self.get_tile_count_array();
        let ghost c0 = tile_count_array@;
        let mut queue: VecDeque<PartialState> = VecDeque::new();
        queue.push_back(PartialState { tile_count_array, num_melds_left: 4, num_pairs_left: 1 });
        proof {
            assert(queue@[0].tile_count_array@ == c0);
        }
        while queue.len() > 0
            invariant
                c0 == self.counts(),
                forall|i: int|
                    0 <= i < queue@.len() ==> state_decomposable(#[trigger] queue@[i])
                        ==> is_decomposable(c0, 4, 1),
                is_decomposable(c0, 4, 1) ==> exists|i: int|
                    0 <= i < queue@.len() && state_decomposable(#[trigger] queue@[i]),
            decreases state_weight(queue@),
        {
            let ghost q_old = queue@;
            let current_item = queue.pop_front().unwrap();
            let ghost rest = queue@;
            let current_count_array = current_item.tile_count_array;
            let current_melds_left = current_item.num_melds_left;
            let current_pairs_left = current_item.num_pairs_left;
            let ghost c = current_count_array@;
            let ghost m = current_melds_left as int;
            let ghost p = current_pairs_left as int;
            proof {
                assert(q_old =~= seq![current_item] + rest);
                assert(q_old[0] == current_item);
                assert(seq![current_item].drop_first() =~= Seq::<PartialState>::empty());
                assert(state_weight(Seq::<PartialState>::empty()) == 0);
                lemma_state_weight_append(seq![current_item], rest);
                lemma_count_sum_nonneg(c);
                lemma_pow8_positive(count_sum(c));
                assert forall|i: int|
                    0 <= i < rest.len() && state_decomposable(#[trigger] rest[i]) implies
                    is_decomposable(c0, 4, 1) by {
                    assert(rest[i] == q_old[i + 1]);
                }
            }
            // get to the first tile in the hand
            let tile_id = find_first_nonzero(&current_count_array);
            // no tiles left: a winning hand when every meld and pair was formed
            if tile_id == NUM_DISTINCT_TILE_VALUES {
                proof {
                    lemma_empty_decomposable(c, m, p, false);
                }
                if current_melds_left == 0 && current_pairs_left == 0 {
                    proof {
                        assert(state_decomposable(q_old[0]));
                    }
                    return true;
                }
                proof {
                    assert(!state_decomposable(current_item));
                    if is_decomposable(c0, 4, 1) {
                        let i = choose|i: int|
                            0 <= i < q_old.len() && state_decomposable(#[trigger] q_old[i]);
                        assert(i != 0);
                        assert(rest[i - 1] == q_old[i]);
                    }
                    lemma_state_weight_append(rest, seq![]);
                }
                continue;
            }
            let t = tile_id as usize;
            // a sequence can only start at ranks 1 to 7 of a numbered suit
            let can_make_sequence = tile_id < FIRST_HONOR_ID && tile_id % 9 <= 6
                && current_count_array[t + 1] >= 1 && current_count_array[t + 2] >= 1;
            let can_make_pair = current_count_array[t] >= 2;
            let can_make_triplet = current_count_array[t] >= 3;
            let ghost seq_g = ShapeGroup::Sequence(t as int);
            let ghost pair_g = ShapeGroup::Pair(t as int);
            let ghost trip_g = ShapeGroup::Triplet(t as int);
            proof {
                lemma_lowest_tile_step(c, m, p, t as int);
                assert(can_make_sequence == (starts_sequence(t as int) && c[t + 1] >= 1 && c[t + 2]
                    >= 1));
            }
            let ghost mut added: Seq<PartialState> = seq![];
            if can_make_sequence && current_melds_left > 0 {
                let new_tile_count_array = take_out(current_count_array, tile_id, 1, 3);
                let new_state = PartialState {
                    tile_count_array: new_tile_count_array,
                    num_melds_left: current_melds_left - 1,
                    num_pairs_left: current_pairs_left,
                };
                proof {
                    assert(new_tile_count_array@ =~= remove_group(c, seq_g));
                    added = added.push(new_state);
                }
                queue.push_back(new_state);
            }
            if can_make_pair && current_pairs_left > 0 {
                let new_tile_count_array = take_out(current_count_array, tile_id, 2, 1);
                let new_state = PartialState {
                    tile_count_array: new_tile_count_array,
                    num_melds_left: current_melds_left,
                    num_pairs_left: current_pairs_left - 1,
                };
                proof {
                    assert(new_tile_count_array@ =~= remove_group(c, pair_g));
                    added = added.push(new_state);
                }
                queue.push_back(new_state);
            }
            if can_make_triplet && current_melds_left > 0 {
                let new_tile_count_array = take_out(current_count_array, tile_id, 3, 1);
                let new_state = PartialState {
                    tile_count_array: new_tile_count_array,
                    num_melds_left: current_melds_left - 1,
                    num_pairs_left: current_pairs_left,
                };
                proof {
                    assert(new_tile_count_array@ =~= remove_group(c, trip_g));
                    added = added.push(new_state);
                }
                queue.push_back(new_state);
            }
            proof {
                assert(queue@ =~= rest + added);
                assert(added.len() <= 3);
                assert forall|i: int| 0 <= i < added.len() implies count_sum(
                    #[trigger] added[i].tile_count_array@,
                ) < count_sum(c) && (state_decomposable(added[i]) ==> state_decomposable(
                    current_item,
                )) by {}
                assert forall|i: int|
                    0 <= i < queue@.len() && state_decomposable(#[trigger] queue@[i]) implies
                    is_decomposable(c0, 4, 1) by {
                    if i >= rest.len() {
                        assert(queue@[i] == added[i - rest.len()]);
                    } else {
                        assert(queue@[i] == rest[i]);
                    }
                }
                if is_decomposable(c0, 4, 1) {
                    let i = choose|i: int|
                        0 <= i < q_old.len() && state_decomposable(#[trigger] q_old[i]);
                    if i == 0 {
                        // one of the states formed from the current one decomposes
                        if can_make_sequence && m > 0 && is_decomposable(
                            remove_group(c, seq_g),
                            m - 1,
                            p,
                        ) {
                            assert(state_decomposable(queue@[rest.len() as int]));
                        } else if can_make_pair && p > 0 && is_decomposable(
                            remove_group(c, pair_g),
                            m,
                            p - 1,
                        ) {
                            assert(state_decomposable(queue@[queue@.len() - 1])
                                || state_decomposable(queue@[queue@.len() - 2]));
                        } else {
                            assert(state_decomposable(queue@[queue@.len() - 1]));
                        }
                    } else {
                        assert(queue@[i - 1] == q_old[i]);
                    }
                }
                let n = count_sum(c);
                assert(n >= 1) by {
                    crate::mahjong_tile::lemma_count_sum_zero(c, t as int);
                }
                assert forall|i: int| 0 <= i < added.len() implies pow8(
                    count_sum(#[trigger] added[i].tile_count_array@),
                ) <= pow8(n - 1) by {
                    lemma_pow8_mono(count_sum(added[i].tile_count_array@), n - 1);
                }
                lemma_state_weight_append(rest, added);
                assert(state_weight(added) <= 3 * pow8(n - 1)) by {
                    reveal_with_fuel(state_weight, 4);
                    assert(added.len() <= 3);
                    if added.len() >= 1 {
                        assert(added[0] == added[0]);
                    }
                    if added.len() >= 2 {
                        assert(added.drop_first()[0] == added[1]);
                    }
                    if added.len() == 3 {
                        assert(added.drop_first().drop_first()[0] == added[2]);
                        assert(added.drop_first().drop_first().drop_first() =~= Seq::<
                            PartialState,
                        >::empty());
                    }
                    if added.len() == 2 {
                        assert(added.drop_first().drop_first() =~= Seq::<PartialState>::empty());
                    }
                    if added.len() == 1 {
                        assert(added.drop_first() =~= Seq::<PartialState>::empty());
                    }
                    if added.len() == 0 {
                        assert(added =~= Seq::<PartialState>::empty());
                    }
                }
                assert(pow8(n) == 8 * pow8(n - 1));
                lemma_pow8_positive(n - 1);
                lemma_state_weight_append(queue@, seq![]);
            }
        }
        false
    }
}

/// How many tiles of the list have tile id `id`.
pub open spec fn tile_count(tiles: Seq<MahjongTile>, id: int) -> int
    decreases tiles.len(),
{
    if tiles.len() == 0 {
        0
    } else {
        tile_count(tiles.drop_last(), id) + if tiles.last().value.0 == id {
            1int
        } else {
            0int
        }
    }
}

/// The count array of a list of tiles.
pub open spec fn hand_counts(tiles: Seq<MahjongTile>) -> Seq<u8> {
    Seq::new(34, |t: int| tile_count(tiles, t) as u8)
}

pub proof fn lemma_tile_count_prefix(tiles: Seq<MahjongTile>, i: int, id: int)
    requires
        0 <= i <= tiles.len(),
    ensures
        0 <= tile_count(tiles.take(i), id) <= tile_count(tiles, id),
    decreases tiles.len(),
{
    if i == tiles.len() {
        assert(tiles.take(i) =~= tiles);
        lemma_tile_count_nonneg(tiles, id);
    } else {
        lemma_tile_count_prefix(tiles.drop_last(), i, id);
        assert(tiles.drop_last().take(i) =~= tiles.take(i));
    }
}

pub proof fn lemma_tile_count_nonneg(tiles: Seq<MahjongTile>, id: int)
    ensures
        tile_count(tiles, id) >= 0,
    decreases tiles.len(),
{
    if tiles.len() > 0 {
        lemma_tile_count_nonneg(tiles.drop_last(), id);
    }
}

pub proof fn lemma_tile_count_push(tiles: Seq<MahjongTile>, tile: MahjongTile, id: int)
    ensures
        tile_count(tiles.push(tile), id) == tile_count(tiles, id) + if tile.value.0 == id {
            1int
        } else {
            0int
        },
{
    assert(tiles.push(tile).drop_last() =~= tiles);
}

/// A player's hand: the tiles that can still be discarded, with a cached count array.
pub struct MahjongHand {
    /// only tiles in hand (i.e. tiles that can be discarded)
    pub tiles: Vec<MahjongTile>,
    /// the count array of `tiles`, or None if not computed yet
    pub tile_count_array: Option<[u8; 34]>,
    /// shanten of the hand, or None if not computed yet
    pub _shanten: Option<i8>,
}

impl Default for MahjongHand {
    fn default() -> (r: Self)
        ensures
            r.tiles@.len() == 0,
            r.tile_count_array is None,
            r._shanten is None,
    {
        Self { tiles: Vec::new(), tile_count_array: None, _shanten: None }
    }
}

impl MahjongHand {
    /// Every tile is one of the 34 tiles, no tile is held more than 255 times, and the cached
    /// count array (when there is one) counts the tiles.
    pub open spec fn wf(&self) -> bool {
        &&& forall|i: int| 0 <= i < self.tiles@.len() ==> valid_id(self.tiles@[i].value.0 as int)
        &&& forall|t: int| 0 <= t < 34 ==> tile_count(self.tiles@, t) <= 255
        &&& self.tile_count_array matches Some(a) ==> a@ == hand_counts(self.tiles@)
    }

    /// The count array of the tiles of this hand.
    pub open spec fn counts(&self) -> Seq<u8> {
        hand_counts(self.tiles@)
    }

    fn compute_tile_count_array(&self) -> (r: [u8; 34])
        requires
            forall|i: int| 0 <= i < self.tiles@.len() ==> valid_id(self.tiles@[i].value.0 as int),
            forall|t: int| 0 <= t < 34 ==> tile_count(self.tiles@, t) <= 255,
        ensures
            r@ == hand_counts(self.tiles@),
    {
        let mut new_tile_count_array = [0u8; 34];
        let mut i: usize = 0;
        while i < self.tiles.len()
            invariant
                i <= self.tiles.len(),
                forall|k: int|
                    0 <= k < self.tiles@.len() ==> valid_id(self.tiles@[k].value.0 as int),
                forall|t: int| 0 <= t < 34 ==> tile_count(self.tiles@, t) <= 255,
                forall|t: int|
                    0 <= t < 34 ==> new_tile_count_array@[t] == tile_count(
                        self.tiles@.take(i as int),
                        t,
                    ),
            decreases self.tiles.len() - i,
        {
            let id = self.tiles[i].value.0 as usize;
            proof {
                assert(self.tiles@.take(i + 1) =~= self.tiles@.take(i as int).push(
                    self.tiles@[i as int],
                ));
                assert forall|t: int| 0 <= t < 34 implies tile_count(self.tiles@.take(i + 1), t)
                    == tile_count(self.tiles@.take(i as int), t) + if self.tiles@[i as int].value.0
                    == t {
                    1int
                } else {
                    0int
                } by {
                    lemma_tile_count_push(self.tiles@.take(i as int), self.tiles@[i as int], t);
                }
                lemma_tile_count_prefix(self.tiles@, i + 1, id as int);
            }
            new_tile_count_array[id] = new_tile_count_array[id] + 1;
            i += 1;
        }
        assert(self.tiles@.take(i as int) =~= self.tiles@);
        assert(new_tile_count_array@ =~= hand_counts(self.tiles@));
        new_tile_count_array
    }

    /// Converts our tiles vector to an array of counts per tile type (34 elements, since riichi
    /// has 34 different tiles).
    pub fn get_tile_count_array(&self) -> (r: [u8; 34])
        requires
            self.wf(),
        ensures
            r@ == self.counts(),
    {
        match self.tile_count_array {
            Some(a) => a,
            None => self.compute_tile_count_array(),
        }
    }

    /// Updates the cached count array in place, and returns the updated array.
    pub fn update_tile_count_array(&mut self) -> (r: [u8; 34])
        requires
            old(self).wf(),
        ensures
            final(self).wf(),
            final(self).tiles@ == old(self).tiles@,
            final(self)._shanten == old(self)._shanten,
            final(self).tile_count_array == Some(r),
            r@ == old(self).counts(),
    {
        let new_tile_count_array = self.compute_tile_count_array();
        self.tile_count_array = Some(new_tile_count_array);
        new_tile_count_array
    }

    /// Adds a tile to this hand (keeping a computed count array up to date).
    pub fn add_tile(&mut self, new_tile: MahjongTile)
        requires
            old(self).wf(),
            valid_id(new_tile.value.0 as int),
            tile_count(old(self).tiles@, new_tile.value.0 as int) < 255,
        ensures
            final(self).wf(),
            final(self).tiles@ == old(self).tiles@.push(new_tile),
            final(self)._shanten == old(self)._shanten,
            final(self).tile_count_array is Some <==> old(self).tile_count_array is Some,
    {
        proof {
            assert forall|t: int| 0 <= t < 34 implies tile_count(self.tiles@.push(new_tile), t)
                == tile_count(self.tiles@, t) + if new_tile.value.0 == t {
                1int
            } else {
                0int
            } by {
                lemma_tile_count_push(self.tiles@, new_tile, t);
            }
        }
        match self.tile_count_array {
            Some(a) => {
                let mut new_tile_count_array = a;
                let id = new_tile.value.0 as usize;
                assert(a@ == hand_counts(self.tiles@));
                proof {
                    lemma_tile_count_nonneg(self.tiles@, id as int);
                }
                assert(a@[id as int] == tile_count(self.tiles@, id as int));
                new_tile_count_array[id] = new_tile_count_array[id] + 1;
                self.tile_count_array = Some(new_tile_count_array);
                proof {
                    assert forall|t: int| 0 <= t < 34 implies new_tile_count_array@[t]
                        == hand_counts(self.tiles@.push(new_tile))[t] by {
                        lemma_tile_count_nonneg(self.tiles@, t);
                        assert(a@[t] == hand_counts(self.tiles@)[t]);
                    }
                }
                assert(new_tile_count_array@ =~= hand_counts(self.tiles@.push(new_tile)));
            },
            None => {},
        }
        self.tiles.push(new_tile);
    }

    /// Identifies a complete hand with the standard shape (4 melds + 1 pair), ignoring 7 pairs,
    /// 13 orphans, and presence of yaku.
    pub fn is_winning_shape_recursive(&self) -> (r: bool)
        requires
            self.wf(),
        ensures
            r == is_decomposable(self.counts(), 4, 1),
    {
        let tile_count_array = self.get_tile_count_array();
        self.is_winning_shape_recursive_helper(tile_count_array, 4, 1)
    }
}


/// Whether a single copy of a tile has no neighbour to form a sequence with (so it cannot be
/// part of any group).
fn tile_id_is_isolated(tile_count_array: &[u8; 34], tile_id: u8) -> (r: bool)
    requires
        valid_id(tile_id as int),
    ensures
        r == spec_tile_isolated(tile_count_array@, tile_id as int),
{
    let tile_idx = tile_id as usize;
    if tile_count_array[tile_idx] != 1 {
        return false;
    }
    if tile_id >= FIRST_HONOR_ID {
        return true;
    }
    let tile_rank = tile_id % 9 + 1;
    if tile_rank == 1 {
        tile_count_array[tile_idx + 1] == 0
    } else if tile_rank == 9 {
        tile_count_array[tile_idx - 1] == 0
    } else {
        tile_count_array[tile_idx + 1] == 0 && tile_count_array[tile_idx - 1] == 0
    }
}

/// Some tile of the counts is isolated (checked over every tile id).
fn has_isolated_tile(tile_count_array: &[u8; 34]) -> (r: bool)
    ensures
        r == exists|t: int| 0 <= t < 34 && #[trigger] spec_tile_isolated(tile_count_array@, t),
{
    let mut tile_id: u8 = 0;
    while tile_id < 34
        invariant
            tile_id <= 34,
            forall|j: int| 0 <= j < tile_id ==> !#[trigger] spec_tile_isolated(tile_count_array@, j),
        decreases 34 - tile_id,
    {
        if tile_id_is_isolated(tile_count_array, tile_id) {
            return true;
        }
        tile_id += 1;
    }
    false
}

impl MahjongHand {
    /// Whether the counts split into `num_melds_left` melds (sequences, triplets or quads) and
    /// `num_pairs_left` pairs; when neither a quad, a triplet nor a pair of the lowest tile leads to
    /// a split, every copy of it must start a sequence.
    fn is_winning_shape_recursive_heuristic_helper(
        &self,
        tile_count_array: [u8; 34],
        num_melds_left: u8,
        num_pairs_left: u8,
    ) -> (r: bool)
        ensures
            r == is_decomposable_with_quads(
                tile_count_array@,
                num_melds_left as int,
                num_pairs_left as int,
            ),
        decreases count_sum(tile_count_array@),
    {
        let ghost c = tile_count_array@;
        let ghost m = num_melds_left as int;
        let ghost p = num_pairs_left as int;
        if has_isolated_tile(&tile_count_array) {
            proof {
                if is_decomposable_with_quads(c, m, p) {
                    let gs = choose|gs: Seq<ShapeGroup>| #[trigger] is_decomposition(c, gs, m, p, true);
                    let t = choose|t: int| 0 <= t < 34 && #[trigger] spec_tile_isolated(c, t);
                    lemma_isolated_not_decomposable(c, gs, m, p, true, t);
                }
            }
            return false;
        }
        let tile_id = find_first_nonzero(&tile_count_array);
        if tile_id == NUM_DISTINCT_TILE_VALUES {
            proof {
                lemma_empty_decomposable(c, m, p, true);
            }
            return num_melds_left == 0 && num_pairs_left == 0;
        }
        let t = tile_id as usize;
        let copies = tile_count_array[t];
        let can_make_sequence = match get_num_tile_rank(tile_id) {
            Some(rank) => rank <= 7 && tile_count_array[t + 1] >= 1 && tile_count_array[t + 2] >= 1,
            None => false,
        };
        let can_make_pair = copies >= 2;
        let can_make_triplet = copies >= 3;
        let can_make_quad = copies >= 4;
        let ghost seq_g = ShapeGroup::Sequence(t as int);
        let ghost pair_g = ShapeGroup::Pair(t as int);
        let ghost trip_g = ShapeGroup::Triplet(t as int);
        let ghost quad_g = ShapeGroup::Quad(t as int);
        let ghost quad_found = false;
        let ghost trip_found = false;
        let ghost pair_found = false;
        proof {
            lemma_count_sum_nonneg(c);
        }
        if can_make_quad && num_melds_left > 0 {
            let new_count_array = take_out(tile_count_array, tile_id, 4, 1);
            proof {
                assert(new_count_array@ =~= remove_group(c, quad_g));
                lemma_count_sum_nonneg(new_count_array@);
            }
            if self.is_winning_shape_recursive_heuristic_helper(new_count_array, num_melds_left - 1, num_pairs_left) {
                proof {
                    let gs = choose|gs: Seq<ShapeGroup>|
                        #[trigger] is_decomposition(remove_group(c, quad_g), gs, m - 1, p, true);
                    lemma_decomposition_push(c, quad_g, gs, m - 1, p, true);
                }
                return true;
            }
        }
        if can_make_triplet && num_melds_left > 0 {
            let new_count_array = take_out(tile_count_array, tile_id, 3, 1);
            proof {
                assert(new_count_array@ =~= remove_group(c, trip_g));
                lemma_count_sum_nonneg(new_count_array@);
            }
            if self.is_winning_shape_recursive_heuristic_helper(new_count_array, num_melds_left - 1, num_pairs_left) {
                proof {
                    let gs = choose|gs: Seq<ShapeGroup>|
                        #[trigger] is_decomposition(remove_group(c, trip_g), gs, m - 1, p, true);
                    lemma_decomposition_push(c, trip_g, gs, m - 1, p, true);
                }
                return true;
            }
        }
        if can_make_pair && num_pairs_left > 0 {
            let new_count_array = take_out(tile_count_array, tile_id, 2, 1);
            proof {
                assert(new_count_array@ =~= remove_group(c, pair_g));
                lemma_count_sum_nonneg(new_count_array@);
            }
            if self.is_winning_shape_recursive_heuristic_helper(new_count_array, num_melds_left, num_pairs_left - 1) {
                proof {
                    let gs = choose|gs: Seq<ShapeGroup>|
                        #[trigger] is_decomposition(remove_group(c, pair_g), gs, m, p - 1, true);
                    lemma_decomposition_push(c, pair_g, gs, m, p - 1, true);
                }
                return true;
            }
        }
        // no quad, triplet or pair works: every copy of this tile must start a sequence
        if can_make_sequence && num_melds_left > 0 {
            if tile_count_array[t + 1] >= copies && tile_count_array[t + 2] >= copies && copies
                <= num_melds_left {
                let new_count_array = take_out(tile_count_array, tile_id, copies, 3);
                proof {
                    assert(new_count_array@ =~= remove_sequences(c, t as int, copies as int));
                    lemma_count_sum_nonneg(new_count_array@);
                }
                if self.is_winning_shape_recursive_heuristic_helper(
                    new_count_array,
                    num_melds_left - copies,
                    num_pairs_left,
                ) {
                    proof {
                        let gs = choose|gs: Seq<ShapeGroup>|
                            #[trigger] is_decomposition(
                                remove_sequences(c, t as int, copies as int),
                                gs,
                                m - copies,
                                p,
                                true,
                            );
                        lemma_push_sequences(c, t as int, copies as int, gs, m - copies, p, true);
                    }
                    return true;
                }
            }
        }
        proof {
            if is_decomposable_with_quads(c, m, p) {
                let gs = choose|gs: Seq<ShapeGroup>| #[trigger] is_decomposition(c, gs, m, p, true);
                if exists|j: int|
                    0 <= j < gs.len() && (#[trigger] gs[j] == quad_g || gs[j] == trip_g || gs[j]
                        == pair_g) {
                    let j = choose|j: int|
                        0 <= j < gs.len() && (#[trigger] gs[j] == quad_g || gs[j] == trip_g || gs[j]
                            == pair_g);
                    lemma_decomposition_remove(c, gs, j, m, p, true);
                    lemma_groups_count_nonneg(gs.remove(j), 0);
                    assert(is_decomposition(
                        remove_group(c, gs[j]),
                        gs.remove(j),
                        if is_pair_group(gs[j]) {
                            m
                        } else {
                            m - 1
                        },
                        if is_pair_group(gs[j]) {
                            p - 1
                        } else {
                            p
                        },
                        true,
                    ));
                } else {
                    lemma_only_sequences_at_lowest(c, gs, m, p, true, t as int);
                }
            }
        }
        false
    }
}


impl MahjongHand {
    /// Identifies a complete hand with the standard shape (4 melds + 1 pair, where a quad may
    /// serve as a meld): rules out isolated tiles, then uses up every honor tile as a whole
    /// group, then searches the numbered tiles.
    pub fn is_winning_shape_recursive_heuristic(&self) -> (r: bool)
        requires
            self.wf(),
        ensures
            r == (is_decomposable_with_quads(self.counts(), 4, 1) && honors_at_most_four(
                self.counts(),
            )),
    {
        let mut tile_count_array = self.get_tile_count_array();
        let ghost orig = tile_count_array@;
        let mut num_melds_left: u8 = 4;
        let mut num_pairs_left: u8 = 1;
        if has_isolated_tile(&tile_count_array) {
            proof {
                if is_decomposable_with_quads(orig, 4, 1) {
                    let gs = choose|gs: Seq<ShapeGroup>|
                        #[trigger] is_decomposition(orig, gs, 4, 1, true);
                    let t = choose|t: int| 0 <= t < 34 && #[trigger] spec_tile_isolated(orig, t);
                    lemma_isolated_not_decomposable(orig, gs, 4, 1, true, t);
                }
            }
            return false;
        }
        // every honor tile must be used up by one group: a pair, a triplet or a quad
        let mut tile_id: u8 = FIRST_HONOR_ID;
        while tile_id < 34
            invariant
                27 <= tile_id <= 34,
                orig == self.counts(),
                num_pairs_left <= 1,
                num_melds_left <= 4,
                forall|k: int| 0 <= k < 27 ==> #[trigger] tile_count_array@[k] == orig[k],
                forall|k: int| tile_id <= k < 34 ==> #[trigger] tile_count_array@[k] == orig[k],
                forall|k: int| 27 <= k < tile_id ==> #[trigger] tile_count_array@[k] == 0,
                forall|k: int| 27 <= k < tile_id ==> #[trigger] orig[k] <= 4,
                forall|t: int| 0 <= t < 34 ==> !#[trigger] spec_tile_isolated(orig, t),
                is_decomposable_with_quads(orig, 4, 1) == is_decomposable_with_quads(
                    tile_count_array@,
                    num_melds_left as int,
                    num_pairs_left as int,
                ),
            decreases 34 - tile_id,
        {
            let tile_idx = tile_id as usize;
            let honor_tile_count = tile_count_array[tile_idx];
            let ghost before = tile_count_array@;
            if honor_tile_count == 0 {
                tile_id += 1;
                continue;
            } else if honor_tile_count == 1 {
                proof {
                    assert(spec_tile_isolated(orig, tile_idx as int));
                }
                return false;
            } else if honor_tile_count > 4 {
                return false;
            }
            proof {
                lemma_honor_step(before, num_melds_left as int, num_pairs_left as int, tile_idx as int);
            }
            if honor_tile_count == 2 {
                if num_pairs_left == 0 {
                    return false;
                }
                num_pairs_left -= 1;
            } else {
                if num_melds_left == 0 {
                    return false;
                }
                num_melds_left -= 1;
            }
            tile_count_array[tile_idx] = 0;
            proof {
                assert(tile_count_array@ =~= before.update(tile_idx as int, 0));
            }
            tile_id += 1;
        }
        proof {
            assert(honors_at_most_four(orig));
        }
        self.is_winning_shape_recursive_heuristic_helper(tile_count_array, num_melds_left, num_pairs_left)
    }

    /// Identifies a complete hand with the standard shape, by the best search so far.
    pub fn is_winning_shape(&self) -> (r: bool)
        requires
            self.wf(),
        ensures
            r == (is_decomposable_with_quads(self.counts(), 4, 1) && honors_at_most_four(
                self.counts(),
            )),
    {
        self.is_winning_shape_recursive_heuristic()
    }
}

/// The hand's counts make a complete standard shape (4 melds, a quad counting as a meld, and a
/// pair), with at most four copies of each honor tile.
pub open spec fn spec_is_winning_shape(c: Seq<u8>) -> bool {
    is_decomposable_with_quads(c, 4, 1) && honors_at_most_four(c)
}

/// The counts with one more copy of tile `t`.
pub open spec fn with_tile(c: Seq<u8>, t: int) -> Seq<u8> {
    c.update(t, (c[t] + 1) as u8)
}

/// The tile ids (ascending, below `n`) whose addition completes the hand.
pub open spec fn winning_draws_below(c: Seq<u8>, n: int) -> Seq<u8>
    decreases n,
{
    if n <= 0 {
        seq![]
    } else if spec_is_winning_shape(with_tile(c, n - 1)) {
        winning_draws_below(c, n - 1).push((n - 1) as u8)
    } else {
        winning_draws_below(c, n - 1)
    }
}

impl MahjongHand {
    /// A new hand (no cached counts) with the tiles of this one and one more copy of `tile_id`.
    fn with_drawn_tile(&self, tile_id: u8) -> (r: MahjongHand)
        requires
            self.wf(),
            valid_id(tile_id as int),
            tile_count(self.tiles@, tile_id as int) < 255,
        ensures
            r.wf(),
            r.counts() == with_tile(self.counts(), tile_id as int),
    {
        let mut tiles: Vec<MahjongTile> = Vec::new();
        let mut i: usize = 0;
        while i < self.tiles.len()
            invariant
                i <= self.tiles@.len(),
                tiles@ == self.tiles@.take(i as int),
            decreases self.tiles@.len() - i,
        {
            tiles.push(self.tiles[i]);
            i += 1;
            assert(tiles@ =~= self.tiles@.take(i as int));
        }
        assert(self.tiles@.take(i as int) =~= self.tiles@);
        let mut new_hand = MahjongHand { tiles, tile_count_array: None, _shanten: None };
        let new_tile = MahjongTile { value: MahjongTileId(tile_id), is_red: false };
        new_hand.add_tile(new_tile);
        proof {
            assert forall|t: int| 0 <= t < 34 implies #[trigger] new_hand.counts()[t] == with_tile(
                self.counts(),
                tile_id as int,
            )[t] by {
                lemma_tile_count_push(self.tiles@, new_tile, t);
                lemma_tile_count_nonneg(self.tiles@, t);
            }
            assert(new_hand.counts() =~= with_tile(self.counts(), tile_id as int));
        }
        new_hand
    }

    /// Returns true if the hand is in tenpai (i.e. adding a single copy of some tile to the hand
    /// forms a winning shape), trying every tile.
    pub fn is_tenpai_brute_force(&self) -> (r: bool)
        requires
            self.wf(),
            forall|t: int| 0 <= t < 34 ==> tile_count(self.tiles@, t) < 255,
        ensures
            r == exists|t: int| 0 <= t < 34 && #[trigger] spec_is_winning_shape(
                with_tile(self.counts(), t),
            ),
    {
        let mut tile_id: u8 = 0;
        while tile_id < 34
            invariant
                tile_id <= 34,
                self.wf(),
                forall|t: int| 0 <= t < 34 ==> tile_count(self.tiles@, t) < 255,
                forall|t: int|
                    0 <= t < tile_id ==> !#[trigger] spec_is_winning_shape(
                        with_tile(self.counts(), t),
                    ),
            decreases 34 - tile_id,
        {
            let new_hand = self.with_drawn_tile(tile_id);
            if new_hand.is_winning_shape() {
                assert(spec_is_winning_shape(with_tile(self.counts(), tile_id as int)));
                return true;
            }
            tile_id += 1;
        }
        false
    }

    /// Returns true if the hand is in tenpai, by the best implementation so far.
    pub fn is_tenpai(&self) -> (r: bool)
        requires
            self.wf(),
            forall|t: int| 0 <= t < 34 ==> tile_count(self.tiles@, t) < 255,
        ensures
            r == exists|t: int| 0 <= t < 34 && #[trigger] spec_is_winning_shape(
                with_tile(self.counts(), t),
            ),
    {
        self.is_tenpai_brute_force()
    }

    /// The tiles (ascending) whose addition makes a winning shape, trying every tile; empty
    /// when the hand is not in tenpai.
    pub fn get_tenpai_tiles_brute_force(&self) -> (r: Vec<u8>)
        requires
            self.wf(),
            forall|t: int| 0 <= t < 34 ==> tile_count(self.tiles@, t) < 255,
        ensures
            r@ == winning_draws_below(self.counts(), 34),
    {
        let mut tenpai_tiles: Vec<u8> = Vec::new();
        let mut tile_id: u8 = 0;
        while tile_id < 34
            invariant
                tile_id <= 34,
                self.wf(),
                forall|t: int| 0 <= t < 34 ==> tile_count(self.tiles@, t) < 255,
                tenpai_tiles@ == winning_draws_below(self.counts(), tile_id as int),
            decreases 34 - tile_id,
        {
            let new_hand = self.with_drawn_tile(tile_id);
            if new_hand.is_winning_shape() {
                tenpai_tiles.push(tile_id);
            }
            tile_id += 1;
        }
        tenpai_tiles
    }
}

/// The number of tiles counted (never more than 34 * 255).
fn get_total_num_tiles(tile_count_array: &[u8; 34]) -> (r: u16)
    ensures
        r == count_sum(tile_count_array@),
{
    let mut total_num_tiles: u16 = 0;
    let mut tile_idx: usize = 0;
    while tile_idx < 34
        invariant
            tile_idx <= 34,
            total_num_tiles == count_sum(tile_count_array@.take(tile_idx as int)),
            total_num_tiles <= 255 * tile_idx,
        decreases 34 - tile_idx,
    {
        assert(tile_count_array@.take(tile_idx + 1).drop_last() =~= tile_count_array@.take(
            tile_idx as int,
        ));
        total_num_tiles = total_num_tiles.saturating_add(tile_count_array[tile_idx] as u16);
        tile_idx += 1;
    }
    assert(tile_count_array@.take(34) =~= tile_count_array@);
    total_num_tiles
}

/// The counts hold exactly two copies of one tile.
pub open spec fn spec_is_pair(c: Seq<u8>) -> bool {
    count_sum(c) == 2 && first_nonzero(c) < 34 && c[first_nonzero(c)] == 2
}

pub(crate) fn is_pair(tile_count_array: &[u8; 34]) -> (r: bool)
    ensures
        r == spec_is_pair(tile_count_array@),
{
    if get_total_num_tiles(tile_count_array) != 2 {
        return false;
    }
    let tile_id = find_first_nonzero(tile_count_array);
    if tile_id == 34 {
        return false;
    }
    tile_count_array[tile_id as usize] == 2
}

/// The group at the lowest tile is complete: it holds a sequence or three copies.
pub open spec fn complete_at(c: Seq<u8>, t: int) -> bool {
    spec_can_make_sequence(c, t) || c[t] >= 3
}

/// The counts (at most two tiles) form a group one tile short of complete: they are not empty
/// and the lowest tile starts no complete group.
pub open spec fn spec_is_incomplete_group(c: Seq<u8>) -> bool {
    &&& count_sum(c) <= 2
    &&& first_nonzero(c) < 34
    &&& !complete_at(c, first_nonzero(c))
}

pub(crate) fn is_incomplete_group(tile_count_array: &[u8; 34]) -> (r: bool)
    ensures
        r == spec_is_incomplete_group(tile_count_array@),
{
    if get_total_num_tiles(tile_count_array) > 2 {
        return false;
    }
    let tile_id = find_first_nonzero(tile_count_array);
    if tile_id == 34 {
        return false;
    }
    let is_complete = can_make_sequence(tile_count_array, tile_id)
        || tile_count_array[tile_id as usize] >= 3;
    !is_complete
}

/// The tiles that complete the group at the lowest tile of the counts: the outer tiles of a
/// two-sided wait, the missing tile of an edge or inner wait, or the tile itself; none when the
/// counts are empty or the lowest tile already starts a complete group.
pub open spec fn spec_tiles_to_complete(c: Seq<u8>) -> Option<Seq<u8>> {
    let t = first_nonzero(c);
    if t >= 34 || complete_at(c, t) {
        None
    } else if spec_can_make_ryanmen(c, t) {
        Some(seq![(t - 1) as u8, (t + 2) as u8])
    } else if spec_can_make_penchan(c, t) {
        if id_rank(t) == 1 {
            Some(seq![(t + 2) as u8])
        } else {
            Some(seq![(t - 1) as u8])
        }
    } else if spec_can_make_kanchan(c, t) {
        Some(seq![(t + 1) as u8])
    } else {
        Some(seq![t as u8])
    }
}

pub(crate) fn tile_ids_to_complete_group(tile_count_array: &[u8; 34]) -> (r: Option<Vec<u8>>)
    ensures
        match r {
            Some(v) => spec_tiles_to_complete(tile_count_array@) == Some(v@),
            None => spec_tiles_to_complete(tile_count_array@) is None,
        },
{
    let c = tile_count_array;
    let tile_id = find_first_nonzero(c);
    if tile_id == 34 {
        return None;
    }
    let t = tile_id as usize;
    proof {
        lemma_first_nonzero(c@);
    }
    let is_complete = can_make_sequence(c, tile_id) || c[t] >= 3;
    if is_complete {
        return None;
    }
    let mut r: Vec<u8> = Vec::new();
    if can_make_ryanmen(c, tile_id) {
        if t + 1 < 34 && c[t + 1] > 0 {
            r.push(tile_id - 1);
            r.push(tile_id + 2);
        } else {
            r.push(tile_id - 2);
            r.push(tile_id + 1);
        }
    } else if can_make_penchan(c, tile_id) {
        let tile_num_rank = get_num_tile_rank(tile_id).unwrap();
        if tile_num_rank == 8 {
            r.push(tile_id - 1);
        } else if tile_num_rank == 9 {
            r.push(tile_id - 2);
        } else if tile_num_rank == 1 {
            r.push(tile_id + 2);
        } else {
            r.push(tile_id + 1);
        }
    } else if can_make_kanchan(c, tile_id) {
        if t + 2 < 34 && c[t + 2] > 0 {
            r.push(tile_id + 1);
        } else {
            r.push(tile_id - 1);
        }
    } else {
        r.push(tile_id);
    }
    proof {
        assert(r@ =~= spec_tiles_to_complete(c@)->Some_0);
    }
    Some(r)
}

/// For a hand of fourteen tiles with at most four copies of each tile, the searches that
/// allow a quad as a meld (and refuse more than four copies of an honor) and those that do not
/// agree on whether the hand is a winning shape.
pub proof fn law_winning_shape_searches_agree(c: Seq<u8>)
    requires
        c.len() == 34,
        count_sum(c) == 14,
        forall|t: int| 0 <= t < 34 ==> #[trigger] c[t] <= 4,
    ensures
        spec_is_winning_shape(c) == is_decomposable(c, 4, 1),
{
    crate::hand_shape::lemma_quads_irrelevant(c, 4, 1);
    assert(honors_at_most_four(c));
}

/// A hand is in tenpai exactly when the list of its winning tiles is not empty.
pub proof fn law_tenpai_iff_winning_tiles(c: Seq<u8>)
    ensures
        (exists|t: int| 0 <= t < 34 && #[trigger] spec_is_winning_shape(with_tile(c, t))) <==> winning_draws_below(c, 34).len() > 0,
{
    lemma_winning_draws_below(c, 34);
    let draws = winning_draws_below(c, 34);
    if exists|t: int| 0 <= t < 34 && #[trigger] spec_is_winning_shape(with_tile(c, t)) {
        let t = choose|t: int| 0 <= t < 34 && #[trigger] spec_is_winning_shape(with_tile(c, t));
        assert(draws.contains(t as u8));
    }
    if draws.len() > 0 {
        let t = draws[0];
        assert(spec_is_winning_shape(with_tile(c, t as int)));
    }
}

/// The winning draws below `n` are exactly the ids below `n` whose addition wins.
pub proof fn lemma_winning_draws_below(c: Seq<u8>, n: int)
    requires
        0 <= n <= 34,
    ensures
        forall|t: int| 0 <= t < n && #[trigger] spec_is_winning_shape(with_tile(c, t)) ==> winning_draws_below(c, n).contains(t as u8),
        forall|i: int| 0 <= i < winning_draws_below(c, n).len() ==> {
            let t = #[trigger] winning_draws_below(c, n)[i];
            t < n && spec_is_winning_shape(with_tile(c, t as int))
        },
    decreases n,
{
    if n > 0 {
        lemma_winning_draws_below(c, n - 1);
        let prev = winning_draws_below(c, n - 1);
        if spec_is_winning_shape(with_tile(c, n - 1)) {
            let cur = prev.push((n - 1) as u8);
            assert(winning_draws_below(c, n) == cur);
            assert(cur[prev.len() as int] == (n - 1) as u8);
            assert forall|t: int| 0 <= t < n && #[trigger] spec_is_winning_shape(with_tile(c, t)) implies cur.contains(t as u8) by {
                if t < n - 1 {
                    let i = choose|i: int| 0 <= i < prev.len() && prev[i] == t as u8;
                    assert(cur[i] == t as u8);
                } else {
                    assert(cur[prev.len() as int] == t as u8);
                }
            }
            assert forall|i: int| 0 <= i < cur.len() implies {
                let t = #[trigger] cur[i];
                t < n && spec_is_winning_shape(with_tile(c, t as int))
            } by {
                if i < prev.len() {
                    assert(cur[i] == prev[i]);
                }
            }
        }
    }
}

} // verus!
