use std::collections::VecDeque;
use vstd::prelude::*;

use crate::hand_shape::{
    group_count, group_valid, honors_at_most_four, is_decomposable, is_decomposition,
    lemma_decomposition_push, lemma_decomposition_remove, lemma_decomposition_size, lemma_group_holding,
    remove_group, starts_sequence, ShapeGroup,
};
use crate::mahjong_hand::{
    can_make_kanchan, can_make_penchan, can_make_ryanmen, can_make_sequence, find_first_nonzero,
    first_nonzero, is_incomplete_group, is_pair, lemma_first_nonzero, spec_can_make_kanchan,
    spec_can_make_penchan, spec_can_make_ryanmen, spec_can_make_sequence,
    spec_is_incomplete_group, spec_is_pair, spec_tiles_to_complete, tile_ids_to_complete_group,
    MahjongHand,
};
use crate::mahjong_tile::{count_sum, lemma_count_sum_nonneg, lemma_count_sum_pointwise};
use crate::shanten::{lemma_pow8_mono, lemma_pow8_positive, pow8};

verus! {

/// A grouping state of a hand as values: the tiles not grouped yet, the groups formed so far
/// (each a count array, in the order they were formed), and how many of them are complete
/// groups, incomplete groups and pairs.
pub struct GroupingModel {
    pub remaining: Seq<u8>,
    pub groups: Seq<Seq<u8>>,
    pub num_complete_groups: int,
    pub num_incomplete_groups: int,
    pub num_pairs: int,
}

/// A (partial) grouping of the tiles of a hand into complete groups, incomplete groups and
/// pairs.
#[derive(Clone, Debug)]
pub struct PartialHandGroupingState {
    /// the tiles that are not grouped yet
    pub tile_count_array: [u8; 34],
    /// the groups formed so far, each as a count array
    pub groups_tile_counts: Vec<[u8; 34]>,
    pub num_complete_groups: u8,
    pub num_incomplete_groups: u8,
    pub num_pairs: u8,
}

impl View for PartialHandGroupingState {
    type V = GroupingModel;

    open spec fn view(&self) -> GroupingModel {
        GroupingModel {
            remaining: self.tile_count_array@,
            groups: self.groups_tile_counts@.map_values(|g: [u8; 34]| g@),
            num_complete_groups: self.num_complete_groups as int,
            num_incomplete_groups: self.num_incomplete_groups as int,
            num_pairs: self.num_pairs as int,
        }
    }
}

/// `k` copies of tile `t` and nothing else.
pub open spec fn single_tile_group(t: int, k: u8) -> Seq<u8> {
    Seq::new(34, |i: int| if i == t { k } else { 0u8 })
}

/// One copy each of tile `t` and tile `t + d`.
pub open spec fn two_tile_group(t: int, d: int) -> Seq<u8> {
    Seq::new(34, |i: int| if i == t || i == t + d { 1u8 } else { 0u8 })
}

/// One copy each of tiles `t`, `t + 1` and `t + 2`.
pub open spec fn run_group(t: int) -> Seq<u8> {
    Seq::new(34, |i: int| if t <= i <= t + 2 { 1u8 } else { 0u8 })
}

/// The counts `c` with the group `g` taken out.
pub open spec fn take_group(c: Seq<u8>, g: Seq<u8>) -> Seq<u8> {
    Seq::new(c.len(), |i: int| (c[i] - g[i]) as u8)
}

/// The state after forming the group `g` out of the remaining tiles, counted as `dc` complete
/// groups, `di` incomplete groups and `dp` pairs.
pub open spec fn form_group(s: GroupingModel, g: Seq<u8>, dc: int, di: int, dp: int) -> GroupingModel {
    GroupingModel {
        remaining: take_group(s.remaining, g),
        groups: s.groups.push(g),
        num_complete_groups: s.num_complete_groups + dc,
        num_incomplete_groups: s.num_incomplete_groups + di,
        num_pairs: s.num_pairs + dp,
    }
}

/// The state after forming a pair of tile `t`; a pair beyond the first also counts as an
/// incomplete group.
pub open spec fn form_pair(s: GroupingModel, t: int) -> GroupingModel {
    form_group(s, single_tile_group(t, 2), 0, if s.num_pairs >= 1 { 1 } else { 0 }, 1)
}

/// Every numbered tile is grouped (or the state is not one of 34 counts).
pub open spec fn is_settled(s: GroupingModel) -> bool {
    s.remaining.len() != 34 || first_nonzero(s.remaining) >= 27
}

/// The settled states that the search reaches from `s` without going over `budget` incomplete
/// groups, in depth-first order. At the lowest ungrouped tile `t` (with `k` copies) the search
/// forms: with three or more copies, a triplet, or else a pair; otherwise a pair (two copies),
/// a sequence, a two-sided wait, an edge wait, an inner wait (when no sequence can be formed)
/// or a single tile, the waits and the single tile only while the state is under budget, and a
/// pair only when the pair leaves the state within budget.
pub open spec fn groupings_from(s: GroupingModel, budget: int) -> Seq<GroupingModel>
    decreases count_sum(s.remaining),
{
    if is_settled(s) {
        seq![s]
    } else {
        let c = s.remaining;
        let t = first_nonzero(c);
        let k = c[t];
        let room = s.num_incomplete_groups < budget;
        let seqn = spec_can_make_sequence(c, t);
        let pair = form_pair(s, t);
        proof {
            lemma_lowest_shapes(c);
            lemma_take_smaller(c, single_tile_group(t, 1), t);
            if k >= 2 {
                lemma_take_smaller(c, single_tile_group(t, 2), t);
            }
            if k >= 3 {
                lemma_take_smaller(c, single_tile_group(t, 3), t);
            }
            if seqn {
                lemma_take_smaller(c, run_group(t), t);
            }
            if spec_can_make_ryanmen(c, t) || spec_can_make_penchan(c, t) {
                lemma_take_smaller(c, two_tile_group(t, 1), t);
            }
            if spec_can_make_kanchan(c, t) {
                lemma_take_smaller(c, two_tile_group(t, 2), t);
            }
        }
        let from_pair = if k >= 2 && pair.num_incomplete_groups <= budget {
            groupings_from(pair, budget)
        } else {
            seq![]
        };
        if k >= 3 {
            groupings_from(form_group(s, single_tile_group(t, 3), 1, 0, 0), budget) + from_pair
        } else {
            from_pair + (if seqn {
                groupings_from(form_group(s, run_group(t), 1, 0, 0), budget)
            } else {
                seq![]
            }) + (if room && spec_can_make_ryanmen(c, t) {
                groupings_from(form_group(s, two_tile_group(t, 1), 0, 1, 0), budget)
            } else {
                seq![]
            }) + (if room && spec_can_make_penchan(c, t) {
                groupings_from(form_group(s, two_tile_group(t, 1), 0, 1, 0), budget)
            } else {
                seq![]
            }) + (if room && spec_can_make_kanchan(c, t) && !seqn {
                groupings_from(form_group(s, two_tile_group(t, 2), 0, 1, 0), budget)
            } else {
                seq![]
            }) + (if room {
                groupings_from(form_group(s, single_tile_group(t, 1), 0, 1, 0), budget)
            } else {
                seq![]
            })
        }
    }
}

/// `x` alone when `cond` holds, else nothing.
pub open spec fn only_if(cond: bool, x: GroupingModel) -> Seq<GroupingModel> {
    if cond {
        seq![x]
    } else {
        seq![]
    }
}

/// The states one search step forms from an unsettled state, in the order the search forms
/// them.
pub open spec fn next_states(s: GroupingModel, budget: int) -> Seq<GroupingModel> {
    let c = s.remaining;
    let t = first_nonzero(c);
    let k = c[t];
    let room = s.num_incomplete_groups < budget;
    let seqn = spec_can_make_sequence(c, t);
    let pair = form_pair(s, t);
    let pairs = only_if(k >= 2 && pair.num_incomplete_groups <= budget, pair);
    if k >= 3 {
        seq![form_group(s, single_tile_group(t, 3), 1, 0, 0)] + pairs
    } else {
        pairs + only_if(seqn, form_group(s, run_group(t), 1, 0, 0)) + only_if(
            room && spec_can_make_ryanmen(c, t),
            form_group(s, two_tile_group(t, 1), 0, 1, 0),
        ) + only_if(
            room && spec_can_make_penchan(c, t),
            form_group(s, two_tile_group(t, 1), 0, 1, 0),
        ) + only_if(
            room && spec_can_make_kanchan(c, t) && !seqn,
            form_group(s, two_tile_group(t, 2), 0, 1, 0),
        ) + only_if(room, form_group(s, single_tile_group(t, 1), 0, 1, 0))
    }
}

/// The settled states reached from each state of a queue, one state after the other.
pub open spec fn groupings_of_queue(q: Seq<GroupingModel>, budget: int) -> Seq<GroupingModel>
    decreases q.len(),
{
    if q.len() == 0 {
        seq![]
    } else {
        groupings_from(q[0], budget) + groupings_of_queue(q.drop_first(), budget)
    }
}

/// The state after the honor tiles below `h` have each been grouped whole: one copy as an
/// incomplete group, two as a pair (a pair beyond the first also counts as an incomplete
/// group), three or four as a complete group.
pub open spec fn group_honors(c: Seq<u8>, h: int) -> GroupingModel
    decreases h,
{
    if h <= 27 {
        GroupingModel {
            remaining: c,
            groups: seq![],
            num_complete_groups: 0,
            num_incomplete_groups: 0,
            num_pairs: 0,
        }
    } else {
        let s = group_honors(c, h - 1);
        let k = c[h - 1];
        if k == 0 {
            s
        } else {
            form_group(
                s,
                single_tile_group(h - 1, k),
                if k >= 3 { 1 } else { 0 },
                if k == 1 || (k == 2 && s.num_pairs >= 1) { 1 } else { 0 },
                if k == 2 { 1 } else { 0 },
            )
        }
    }
}

/// The groupings of a hand with counts `c` that use every tile and hold at most `budget`
/// incomplete groups (a pair beyond the first counts as one), as the search forms them; none
/// when the honor tiles alone are over budget.
pub open spec fn hand_groupings(c: Seq<u8>, budget: int) -> Seq<GroupingModel> {
    let start = group_honors(c, 34);
    if start.num_incomplete_groups <= budget {
        groupings_from(start, budget)
    } else {
        seq![]
    }
}

/// At the lowest held tile, every shape that can be formed starts at that tile.
pub proof fn lemma_lowest_shapes(c: Seq<u8>)
    requires
        c.len() == 34,
        first_nonzero(c) < 27,
    ensures
        ({
            let t = first_nonzero(c);
            &&& 0 <= t < 27
            &&& forall|j: int| 0 <= j < t ==> c[j] == 0
            &&& c[t] >= 1
            &&& spec_can_make_sequence(c, t) ==> t + 2 < 27 && c[t + 1] >= 1 && c[t + 2] >= 1
            &&& spec_can_make_ryanmen(c, t) ==> t + 1 < 27 && c[t + 1] >= 1
            &&& spec_can_make_penchan(c, t) ==> t + 1 < 27 && c[t + 1] >= 1
            &&& spec_can_make_kanchan(c, t) ==> t + 2 < 27 && c[t + 2] >= 1
        }),
{
    lemma_first_nonzero(c);
}

/// Taking out a group that is held, and holds tile `t`, leaves fewer tiles.
pub proof fn lemma_take_smaller(c: Seq<u8>, g: Seq<u8>, t: int)
    requires
        0 <= t < c.len(),
        g[t] >= 1,
        forall|i: int| 0 <= i < c.len() ==> #[trigger] g[i] <= c[i],
    ensures
        count_sum(take_group(c, g)) < count_sum(c),
        count_sum(take_group(c, g)) >= 0,
{
    let r = take_group(c, g);
    assert forall|k: int| 0 <= k < r.len() implies #[trigger] r[k] <= c[k] by {
        assert(g[k] <= c[k]);
    }
    lemma_count_sum_pointwise(r, c, t);
    lemma_count_sum_nonneg(r);
}

/// The settled states of a queue made of two parts are those of the first part, then those of
/// the second.
pub proof fn lemma_queue_groupings_append(a: Seq<GroupingModel>, b: Seq<GroupingModel>, budget: int)
    ensures
        groupings_of_queue(a + b, budget) == groupings_of_queue(a, budget) + groupings_of_queue(
            b,
            budget,
        ),
    decreases a.len(),
{
    if a.len() == 0 {
        assert(a + b =~= b);
        assert(groupings_of_queue(a, budget) =~= seq![]);
        assert(seq![] + groupings_of_queue(b, budget) =~= groupings_of_queue(b, budget));
    } else {
        lemma_queue_groupings_append(a.drop_first(), b, budget);
        assert((a + b).drop_first() =~= a.drop_first() + b);
        assert((a + b)[0] == a[0]);
        assert(groupings_from(a[0], budget) + (groupings_of_queue(a.drop_first(), budget)
            + groupings_of_queue(b, budget)) =~= (groupings_from(a[0], budget)
            + groupings_of_queue(a.drop_first(), budget)) + groupings_of_queue(b, budget));
    }
}

/// The settled states of an optional single state.
pub proof fn lemma_queue_groupings_only_if(cond: bool, x: GroupingModel, budget: int)
    ensures
        groupings_of_queue(only_if(cond, x), budget) == if cond {
            groupings_from(x, budget)
        } else {
            seq![]
        },
{
    if cond {
        let q = only_if(cond, x);
        assert(q.drop_first() =~= seq![]);
        assert(groupings_of_queue(q.drop_first(), budget) =~= seq![]);
        assert(groupings_from(x, budget) + seq![] =~= groupings_from(x, budget));
    }
}

/// From an unsettled state, the search reaches the settled states reached from each state
/// formed by one step, in order.
pub proof fn lemma_groupings_step(s: GroupingModel, budget: int)
    requires
        !is_settled(s),
    ensures
        groupings_from(s, budget) == groupings_of_queue(next_states(s, budget), budget),
{
    let c = s.remaining;
    let t = first_nonzero(c);
    let k = c[t];
    let room = s.num_incomplete_groups < budget;
    let seqn = spec_can_make_sequence(c, t);
    let pair = form_pair(s, t);
    let pairs = only_if(k >= 2 && pair.num_incomplete_groups <= budget, pair);
    lemma_queue_groupings_only_if(k >= 2 && pair.num_incomplete_groups <= budget, pair, budget);
    if k >= 3 {
        let trip = form_group(s, single_tile_group(t, 3), 1, 0, 0);
        lemma_queue_groupings_only_if(true, trip, budget);
        assert(only_if(true, trip) =~= seq![trip]);
        lemma_queue_groupings_append(seq![trip], pairs, budget);
    } else {
        let p1 = only_if(seqn, form_group(s, run_group(t), 1, 0, 0));
        let p2 = only_if(
            room && spec_can_make_ryanmen(c, t),
            form_group(s, two_tile_group(t, 1), 0, 1, 0),
        );
        let p3 = only_if(
            room && spec_can_make_penchan(c, t),
            form_group(s, two_tile_group(t, 1), 0, 1, 0),
        );
        let p4 = only_if(
            room && spec_can_make_kanchan(c, t) && !seqn,
            form_group(s, two_tile_group(t, 2), 0, 1, 0),
        );
        let p5 = only_if(room, form_group(s, single_tile_group(t, 1), 0, 1, 0));
        lemma_queue_groupings_only_if(seqn, form_group(s, run_group(t), 1, 0, 0), budget);
        lemma_queue_groupings_only_if(
            room && spec_can_make_ryanmen(c, t),
            form_group(s, two_tile_group(t, 1), 0, 1, 0),
            budget,
        );
        lemma_queue_groupings_only_if(
            room && spec_can_make_penchan(c, t),
            form_group(s, two_tile_group(t, 1), 0, 1, 0),
            budget,
        );
        lemma_queue_groupings_only_if(
            room && spec_can_make_kanchan(c, t) && !seqn,
            form_group(s, two_tile_group(t, 2), 0, 1, 0),
            budget,
        );
        lemma_queue_groupings_only_if(
            room,
            form_group(s, single_tile_group(t, 1), 0, 1, 0),
            budget,
        );
        lemma_queue_groupings_append(pairs, p1, budget);
        lemma_queue_groupings_append(pairs + p1, p2, budget);
        lemma_queue_groupings_append(pairs + p1 + p2, p3, budget);
        lemma_queue_groupings_append(pairs + p1 + p2 + p3, p4, budget);
        lemma_queue_groupings_append(pairs + p1 + p2 + p3 + p4, p5, budget);
    }
}

/// The counters of a state fit in a byte: each is at most the number of groups, and the groups
/// and the ungrouped tiles number at most 255 together.
pub open spec fn counters_fit(s: PartialHandGroupingState) -> bool {
    &&& s.groups_tile_counts@.len() + count_sum(s.tile_count_array@) <= 255
    &&& s.num_complete_groups <= s.groups_tile_counts@.len()
    &&& s.num_incomplete_groups <= s.groups_tile_counts@.len()
    &&& s.num_pairs <= s.groups_tile_counts@.len()
}

/// `k` copies of tile `t`, as a count array.
fn single_group_array(t: u8, k: u8) -> (r: [u8; 34])
    requires
        t < 34,
    ensures
        r@ == single_tile_group(t as int, k),
{
    let mut group_tile_count = [0u8; 34];
    group_tile_count[t as usize] = k;
    assert(group_tile_count@ =~= single_tile_group(t as int, k));
    group_tile_count
}

/// One copy each of tiles `t` and `t + d`, as a count array.
fn two_group_array(t: u8, d: u8) -> (r: [u8; 34])
    requires
        1 <= d,
        t + d < 34,
    ensures
        r@ == two_tile_group(t as int, d as int),
{
    let mut group_tile_count = [0u8; 34];
    group_tile_count[t as usize] = 1;
    group_tile_count[(t + d) as usize] = 1;
    assert(group_tile_count@ =~= two_tile_group(t as int, d as int));
    group_tile_count
}

/// One copy each of tiles `t`, `t + 1` and `t + 2`, as a count array.
fn run_group_array(t: u8) -> (r: [u8; 34])
    requires
        t + 2 < 34,
    ensures
        r@ == run_group(t as int),
{
    let mut group_tile_count = [0u8; 34];
    group_tile_count[t as usize] = 1;
    group_tile_count[t as usize + 1] = 1;
    group_tile_count[t as usize + 2] = 1;
    assert(group_tile_count@ =~= run_group(t as int));
    group_tile_count
}

/// A copy of the state with `group` (which holds tile `t`) taken out of the ungrouped tiles and
/// added to the groups, and the counters raised by `complete`, `incomplete` and `pairs`.
fn form_group_state(
    state: &PartialHandGroupingState,
    group: [u8; 34],
    t: u8,
    complete: u8,
    incomplete: u8,
    pairs: u8,
) -> (r: PartialHandGroupingState)
    requires
        counters_fit(*state),
        t < 34,
        group@[t as int] >= 1,
        forall|i: int| 0 <= i < 34 ==> #[trigger] group@[i] <= state.tile_count_array@[i],
        complete <= 1,
        incomplete <= 1,
        pairs <= 1,
    ensures
        r@ == form_group(state@, group@, complete as int, incomplete as int, pairs as int),
        counters_fit(r),
        count_sum(r.tile_count_array@) < count_sum(state.tile_count_array@),
{
    proof {
        lemma_take_smaller(state.tile_count_array@, group@, t as int);
        lemma_count_sum_nonneg(state.tile_count_array@);
    }
    let mut remaining = state.tile_count_array;
    let mut i: usize = 0;
    while i < 34
        invariant
            i <= 34,
            forall|k: int| 0 <= k < 34 ==> #[trigger] group@[k] <= state.tile_count_array@[k],
            forall|k: int|
                0 <= k < 34 ==> #[trigger] remaining@[k] == if k < i {
                    (state.tile_count_array@[k] - group@[k]) as u8
                } else {
                    state.tile_count_array@[k]
                },
        decreases 34 - i,
    {
        remaining[i] = remaining[i] - group[i];
        i += 1;
    }
    let mut groups_tile_counts: Vec<[u8; 34]> = Vec::new();
    let mut j: usize = 0;
    while j < state.groups_tile_counts.len()
        invariant
            j <= state.groups_tile_counts@.len(),
            groups_tile_counts@ == state.groups_tile_counts@.take(j as int),
        decreases state.groups_tile_counts@.len() - j,
    {
        groups_tile_counts.push(state.groups_tile_counts[j]);
        j += 1;
        assert(groups_tile_counts@ =~= state.groups_tile_counts@.take(j as int));
    }
    assert(state.groups_tile_counts@.take(j as int) =~= state.groups_tile_counts@);
    groups_tile_counts.push(group);
    let r = PartialHandGroupingState {
        tile_count_array: remaining,
        groups_tile_counts,
        num_complete_groups: state.num_complete_groups + complete,
        num_incomplete_groups: state.num_incomplete_groups + incomplete,
        num_pairs: state.num_pairs + pairs,
    };
    assert(r@.remaining =~= take_group(state@.remaining, group@));
    assert(r@.groups =~= state@.groups.push(group@));
    r
}

/// A copy of the state with a pair of tile `t` formed.
fn form_pair_state(state: &PartialHandGroupingState, t: u8) -> (r: PartialHandGroupingState)
    requires
        counters_fit(*state),
        t < 34,
        state.tile_count_array@[t as int] >= 2,
    ensures
        r@ == form_pair(state@, t as int),
        counters_fit(r),
        count_sum(r.tile_count_array@) < count_sum(state.tile_count_array@),
{
    let extra_incomplete: u8 = if state.num_pairs >= 1 {
        1
    } else {
        0
    };
    form_group_state(state, single_group_array(t, 2), t, 0, extra_incomplete, 1)
}

/// The models of the states of a queue.
pub open spec fn state_views(q: Seq<PartialHandGroupingState>) -> Seq<GroupingModel> {
    q.map_values(|s: PartialHandGroupingState| s@)
}

/// Pushing a state onto a queue pushes its model.
proof fn lemma_views_push(q: Seq<PartialHandGroupingState>, x: PartialHandGroupingState)
    ensures
        state_views(q.push(x)) == state_views(q).push(x@),
{
    assert(state_views(q.push(x)) =~= state_views(q).push(x@));
}

/// Appends to the back of `queue` the states that one search step forms from the unsettled
/// `current_state`, whose lowest ungrouped tile is `tile_id`.
fn expand_state(
    queue: &mut VecDeque<PartialHandGroupingState>,
    current_state: &PartialHandGroupingState,
    tile_id: u8,
    incomplete_group_budget: u8,
)
    requires
        counters_fit(*current_state),
        !is_settled(current_state@),
        tile_id == first_nonzero(current_state.tile_count_array@),
    ensures
        final(queue)@.len() == old(queue)@.len() + next_states(
            current_state@,
            incomplete_group_budget as int,
        ).len(),
        next_states(current_state@, incomplete_group_budget as int).len() <= 7,
        forall|i: int| 0 <= i < old(queue)@.len() ==> final(queue)@[i] == old(queue)@[i],
        forall|i: int|
            old(queue)@.len() <= i < final(queue)@.len() ==> {
                &&& counters_fit(#[trigger] final(queue)@[i])
                &&& count_sum(final(queue)@[i].tile_count_array@) < count_sum(
                    current_state.tile_count_array@,
                )
            },
        state_views(final(queue)@) == state_views(old(queue)@) + next_states(
            current_state@,
            incomplete_group_budget as int,
        ),
{
    let ghost old_q = queue@;
    let ghost cur = current_state@;
    let ghost b = incomplete_group_budget as int;
    let ghost c = current_state.tile_count_array@;
    let ghost cs = count_sum(c);
    let current_count_array = current_state.tile_count_array;
    let tile_idx = tile_id as usize;
    let num_tile_count = current_count_array[tile_idx];
    proof {
        lemma_lowest_shapes(c);
    }
    let ghost mut added: Seq<GroupingModel> = seq![];
    if num_tile_count >= 3 {
        // try a triplet, then a pair
        let new_state_after_triplet = form_group_state(
            current_state,
            single_group_array(tile_id, 3),
            tile_id,
            1,
            0,
            0,
        );
        proof {
            lemma_views_push(queue@, new_state_after_triplet);
        }
        queue.push_back(new_state_after_triplet);
        let new_state_after_pair = form_pair_state(current_state, tile_id);
        if new_state_after_pair.num_incomplete_groups <= incomplete_group_budget {
            proof {
                lemma_views_push(queue@, new_state_after_pair);
            }
            queue.push_back(new_state_after_pair);
        }
        proof {
            let pair = form_pair(cur, tile_id as int);
            assert(next_states(cur, b) == seq![
                form_group(cur, single_tile_group(tile_id as int, 3), 1, 0, 0),
            ] + only_if(pair.num_incomplete_groups <= b, pair));
            assert(state_views(queue@) =~= state_views(old_q) + next_states(cur, b));
        }
        return;
    }
    let ghost pair = form_pair(cur, tile_id as int);
    if num_tile_count == 2 {
        let new_state_after_pair = form_pair_state(current_state, tile_id);
        if new_state_after_pair.num_incomplete_groups <= incomplete_group_budget {
            proof {
                lemma_views_push(queue@, new_state_after_pair);
            }
            queue.push_back(new_state_after_pair);
        }
    }
    let ghost q1 = queue@;
    proof {
        assert(state_views(q1) =~= state_views(old_q) + only_if(
            num_tile_count >= 2 && pair.num_incomplete_groups <= b,
            pair,
        ));
    }
    let can_make_sequence = can_make_sequence(&current_count_array, tile_id);
    let can_make_ryanmen = can_make_ryanmen(&current_count_array, tile_id);
    let can_make_penchan = can_make_penchan(&current_count_array, tile_id);
    let can_make_kanchan = can_make_kanchan(&current_count_array, tile_id);
    let room = current_state.num_incomplete_groups < incomplete_group_budget;
    if can_make_sequence {
        let new_state_after_sequence = form_group_state(
            current_state,
            run_group_array(tile_id),
            tile_id,
            1,
            0,
            0,
        );
        proof {
            lemma_views_push(queue@, new_state_after_sequence);
        }
        queue.push_back(new_state_after_sequence);
    }
    let ghost q2 = queue@;
    proof {
        assert(state_views(q2) =~= state_views(q1) + only_if(
            can_make_sequence,
            form_group(cur, run_group(tile_id as int), 1, 0, 0),
        ));
    }
    if can_make_ryanmen && room {
        let new_state_after_ryanmen = form_group_state(
            current_state,
            two_group_array(tile_id, 1),
            tile_id,
            0,
            1,
            0,
        );
        proof {
            lemma_views_push(queue@, new_state_after_ryanmen);
        }
        queue.push_back(new_state_after_ryanmen);
    }
    let ghost q3 = queue@;
    proof {
        assert(state_views(q3) =~= state_views(q2) + only_if(
            room && can_make_ryanmen,
            form_group(cur, two_tile_group(tile_id as int, 1), 0, 1, 0),
        ));
    }
    if can_make_penchan && room {
        let new_state_after_penchan = form_group_state(
            current_state,
            two_group_array(tile_id, 1),
            tile_id,
            0,
            1,
            0,
        );
        proof {
            lemma_views_push(queue@, new_state_after_penchan);
        }
        queue.push_back(new_state_after_penchan);
    }
    let ghost q4 = queue@;
    proof {
        assert(state_views(q4) =~= state_views(q3) + only_if(
            room && can_make_penchan,
            form_group(cur, two_tile_group(tile_id as int, 1), 0, 1, 0),
        ));
    }
    // no inner wait where a sequence can be formed
    if can_make_kanchan && !can_make_sequence && room {
        let new_state_after_kanchan = form_group_state(
            current_state,
            two_group_array(tile_id, 2),
            tile_id,
            0,
            1,
            0,
        );
        proof {
            lemma_views_push(queue@, new_state_after_kanchan);
        }
        queue.push_back(new_state_after_kanchan);
    }
    let ghost q5 = queue@;
    proof {
        assert(state_views(q5) =~= state_views(q4) + only_if(
            room && can_make_kanchan && !can_make_sequence,
            form_group(cur, two_tile_group(tile_id as int, 2), 0, 1, 0),
        ));
    }
    // a single tile only while another incomplete group can be formed
    if room {
        let new_state_after_isolated = form_group_state(
            current_state,
            single_group_array(tile_id, 1),
            tile_id,
            0,
            1,
            0,
        );
        proof {
            lemma_views_push(queue@, new_state_after_isolated);
        }
        queue.push_back(new_state_after_isolated);
    }
    proof {
        assert(state_views(queue@) =~= state_views(q5) + only_if(
            room,
            form_group(cur, single_tile_group(tile_id as int, 1), 0, 1, 0),
        ));
        assert(state_views(queue@) =~= state_views(old_q) + next_states(cur, b));
    }
}

/// A termination measure of the search queue: a state weighs more than any seven states with
/// fewer ungrouped tiles.
pub open spec fn search_weight(q: Seq<GroupingModel>) -> int
    decreases q.len(),
{
    if q.len() == 0 {
        0
    } else {
        pow8(count_sum(q[0].remaining)) + search_weight(q.drop_first())
    }
}

proof fn lemma_weight_append(a: Seq<GroupingModel>, b: Seq<GroupingModel>)
    ensures
        search_weight(a + b) == search_weight(a) + search_weight(b),
        search_weight(a) >= 0,
    decreases a.len(),
{
    if a.len() == 0 {
        assert(a + b =~= b);
    } else {
        lemma_weight_append(a.drop_first(), b);
        assert((a + b).drop_first() =~= a.drop_first() + b);
        lemma_pow8_positive(count_sum(a[0].remaining));
    }
}

proof fn lemma_weight_bound(q: Seq<GroupingModel>, n: int)
    requires
        forall|i: int| 0 <= i < q.len() ==> count_sum(#[trigger] q[i].remaining) < n,
    ensures
        search_weight(q) <= q.len() * pow8(n - 1),
    decreases q.len(),
{
    if q.len() > 0 {
        assert forall|i: int| 0 <= i < q.drop_first().len() implies count_sum(
            #[trigger] q.drop_first()[i].remaining,
        ) < n by {
            assert(q.drop_first()[i] == q[i + 1]);
        }
        lemma_weight_bound(q.drop_first(), n);
        assert(count_sum(q[0].remaining) < n);
        lemma_pow8_mono(count_sum(q[0].remaining), n - 1);
        assert(q.len() * pow8(n - 1) == (q.len() - 1) * pow8(n - 1) + pow8(n - 1)) by (
        nonlinear_arith);
    }
}

/// All the settled states reached from `start` by the search (none when `start` is over
/// budget), each once, in breadth-first order.
fn search_groupings(start: PartialHandGroupingState, incomplete_group_budget: u8) -> (r: Vec<
    PartialHandGroupingState,
>)
    requires
        counters_fit(start),
    ensures
        state_views(r@).to_multiset() == (if start@.num_incomplete_groups
            <= incomplete_group_budget {
            groupings_from(start@, incomplete_group_budget as int)
        } else {
            seq![]
        }).to_multiset(),
{
    broadcast use vstd::std_specs::vecdeque::axiom_spec_len;
    broadcast use vstd::seq_lib::lemma_multiset_commutative;
    broadcast use vstd::multiset::group_multiset_axioms;
    broadcast use vstd::seq_lib::group_to_multiset_ensures;

    let ghost b = incomplete_group_budget as int;
    let ghost target = if start@.num_incomplete_groups <= b {
        groupings_from(start@, b)
    } else {
        seq![]
    };
    let mut queue: VecDeque<PartialHandGroupingState> = VecDeque::new();
    if start.num_incomplete_groups <= incomplete_group_budget {
        queue.push_back(start);
    }
    proof {
        if start@.num_incomplete_groups <= b {
            assert(state_views(queue@) =~= seq![start@]);
            assert(state_views(queue@)[0] == start@);
            assert(state_views(queue@).drop_first() =~= seq![]);
            assert(groupings_of_queue(Seq::<GroupingModel>::empty(), b) =~= seq![]);
            assert(groupings_from(start@, b) + seq![] =~= groupings_from(start@, b));
            assert(groupings_of_queue(state_views(queue@), b) =~= target);
        } else {
            assert(state_views(queue@) =~= seq![]);
        }
    }
    let mut completed_partial_states: Vec<PartialHandGroupingState> = Vec::new();
    proof {
        assert(state_views(completed_partial_states@) =~= seq![]);
        assert(state_views(completed_partial_states@).to_multiset().add(
            groupings_of_queue(state_views(queue@), b).to_multiset(),
        ) =~= target.to_multiset());
    }
    while queue.len() > 0
        invariant
            forall|i: int| 0 <= i < queue@.len() ==> counters_fit(#[trigger] queue@[i]),
            state_views(completed_partial_states@).to_multiset().add(
                groupings_of_queue(state_views(queue@), b).to_multiset(),
            ) == target.to_multiset(),
            b == incomplete_group_budget as int,
        decreases search_weight(state_views(queue@)),
    {
        let ghost q_old = queue@;
        let current_state = queue.pop_front().unwrap();
        let ghost rest = queue@;
        proof {
            assert(state_views(q_old) =~= seq![current_state@] + state_views(rest));
            assert(state_views(q_old)[0] == current_state@);
            assert(state_views(q_old).drop_first() =~= state_views(rest));
            assert(counters_fit(q_old[0]));
            assert forall|i: int| 0 <= i < rest.len() implies counters_fit(#[trigger] rest[i]) by {
                assert(rest[i] == q_old[i + 1]);
            }
            assert(seq![current_state@].drop_first() =~= Seq::<GroupingModel>::empty());
            assert(search_weight(Seq::<GroupingModel>::empty()) == 0);
            lemma_weight_append(seq![current_state@], state_views(rest));
        }
        let tile_id = find_first_nonzero(&current_state.tile_count_array);
        if tile_id >= 27 {
            // every numbered tile is grouped
            let ghost done_old = completed_partial_states@;
            completed_partial_states.push(current_state);
            proof {
                assert(is_settled(current_state@));
                assert(groupings_from(current_state@, b) == seq![current_state@]);
                lemma_views_push(done_old, current_state);
                assert(state_views(done_old).push(current_state@) =~= state_views(done_old)
                    + seq![current_state@]);
                let a = state_views(done_old);
                let x = seq![current_state@];
                let g_rest = groupings_of_queue(state_views(rest), b);
                assert(groupings_of_queue(state_views(q_old), b) == x + g_rest);
                vstd::seq_lib::lemma_multiset_commutative(a, x);
                vstd::seq_lib::lemma_multiset_commutative(x, g_rest);
                assert((a + x).to_multiset().add(g_rest.to_multiset()) =~= a.to_multiset().add(
                    (x + g_rest).to_multiset(),
                ));
                lemma_pow8_positive(count_sum(current_state.tile_count_array@));
                assert(search_weight(state_views(queue@)) < search_weight(state_views(q_old)));
                lemma_weight_append(state_views(queue@), seq![]);
            }
        } else {
            proof {
                assert(!is_settled(current_state@));
            }
            expand_state(&mut queue, &current_state, tile_id, incomplete_group_budget);
            proof {
                let next = next_states(current_state@, b);
                lemma_groupings_step(current_state@, b);
                lemma_queue_groupings_append(state_views(rest), next, b);
                let g_cur = groupings_from(current_state@, b);
                let g_rest = groupings_of_queue(state_views(rest), b);
                assert(groupings_of_queue(state_views(q_old), b) == g_cur + g_rest);
                assert(groupings_of_queue(state_views(queue@), b) == g_rest + g_cur);
                vstd::seq_lib::lemma_multiset_commutative(g_cur, g_rest);
                vstd::seq_lib::lemma_multiset_commutative(g_rest, g_cur);
                assert((g_rest + g_cur).to_multiset() =~= (g_cur + g_rest).to_multiset());
                let n = count_sum(current_state.tile_count_array@);
                assert forall|i: int| 0 <= i < next.len() implies count_sum(
                    #[trigger] next[i].remaining,
                ) < n by {
                    assert(next[i] == state_views(queue@)[rest.len() + i]);
                    assert(queue@[rest.len() + i]@ == state_views(queue@)[rest.len() + i]);
                }
                lemma_weight_bound(next, n);
                lemma_weight_append(state_views(rest), next);
                lemma_count_sum_nonneg(current_state.tile_count_array@);
                assert(n >= 1) by {
                    lemma_first_nonzero(current_state.tile_count_array@);
                    crate::mahjong_tile::lemma_count_sum_zero(
                        current_state.tile_count_array@,
                        tile_id as int,
                    );
                }
                assert(pow8(n) == 8 * pow8(n - 1));
                lemma_pow8_positive(n - 1);
                assert(next.len() * pow8(n - 1) <= 7 * pow8(n - 1)) by (nonlinear_arith)
                    requires
                        next.len() <= 7,
                        pow8(n - 1) >= 1,
                ;
                assert(search_weight(state_views(queue@)) < search_weight(state_views(q_old)));
                lemma_weight_append(state_views(queue@), seq![]);
            }
        }
    }
    proof {
        assert(state_views(queue@) =~= seq![]);
        assert(groupings_of_queue(state_views(queue@), b) =~= seq![]);
        assert(state_views(completed_partial_states@).to_multiset().add(
            Seq::<GroupingModel>::empty().to_multiset(),
        ) =~= state_views(completed_partial_states@).to_multiset());
    }
    completed_partial_states
}

/// Grouping the honors leaves the other counts as they were.
pub proof fn lemma_group_honors(c: Seq<u8>, h: int)
    requires
        c.len() == 34,
        h <= 34,
    ensures
        group_honors(c, h).remaining.len() == 34,
        forall|i: int|
            0 <= i < 34 && (i < 27 || h <= i) ==> #[trigger] group_honors(c, h).remaining[i]
                == c[i],
        forall|i: int| 27 <= i < h && i < 34 ==> #[trigger] group_honors(c, h).remaining[i] == 0,
    decreases h,
{
    if h > 27 {
        lemma_group_honors(c, h - 1);
    }
}

/// The hand is small enough for the group counters of a grouping (one byte each): at most 255
/// tiles, or at most four copies of each tile.
pub open spec fn groupable_size(c: Seq<u8>) -> bool {
    count_sum(c) <= 255 || forall|t: int| 0 <= t < c.len() ==> #[trigger] c[t] <= 4
}

/// At most four copies of each of the 34 tiles are at most 136 tiles.
pub proof fn lemma_groupable_size(c: Seq<u8>)
    requires
        c.len() == 34,
        groupable_size(c),
    ensures
        count_sum(c) <= 255,
{
    if count_sum(c) > 255 {
        lemma_count_sum_at_most_four(c);
    }
}

proof fn lemma_count_sum_at_most_four(c: Seq<u8>)
    requires
        forall|t: int| 0 <= t < c.len() ==> #[trigger] c[t] <= 4,
    ensures
        count_sum(c) <= 4 * c.len(),
    decreases c.len(),
{
    if c.len() > 0 {
        assert forall|t: int| 0 <= t < c.drop_last().len() implies #[trigger] c.drop_last()[t] <= 4 by {
            assert(c.drop_last()[t] == c[t]);
        }
        lemma_count_sum_at_most_four(c.drop_last());
        assert(c.last() == c[c.len() - 1]);
    }
}

impl MahjongHand {
    /// The groupings of this hand's tiles that hold at most `incomplete_group_budget`
    /// incomplete groups (a pair beyond the first counts as one): each honor tile is grouped
    /// whole, then the numbered tiles are grouped from the lowest up, breadth first. The
    /// result holds each grouping of `hand_groupings` exactly once.
    pub fn build_shapes(&self, incomplete_group_budget: u8) -> (r: Vec<PartialHandGroupingState>)
        requires
            self.wf(),
            honors_at_most_four(self.counts()),
            groupable_size(self.counts()),
        ensures
            state_views(r@).to_multiset() == hand_groupings(
                self.counts(),
                incomplete_group_budget as int,
            ).to_multiset(),
    {
        proof {
            lemma_groupable_size(self.counts());
        }
        let tile_count_array = self.get_tile_count_array();
        let ghost c = tile_count_array@;
        let mut partial_state = PartialHandGroupingState {
            tile_count_array,
            groups_tile_counts: Vec::new(),
            num_complete_groups: 0,
            num_incomplete_groups: 0,
            num_pairs: 0,
        };
        proof {
            assert(partial_state@.groups =~= seq![]);
            lemma_count_sum_nonneg(c);
        }
        // honor tiles can only form sets, so all copies of an honor tile go into one group
        let mut tile_id: u8 = 27;
        while tile_id < 34
            invariant
                27 <= tile_id <= 34,
                c == self.counts(),
                honors_at_most_four(c),
                partial_state@ == group_honors(c, tile_id as int),
                counters_fit(partial_state),
            decreases 34 - tile_id,
        {
            proof {
                lemma_group_honors(c, tile_id as int);
            }
            let tile_idx = tile_id as usize;
            let honor_tile_count = partial_state.tile_count_array[tile_idx];
            assert(honor_tile_count == c[tile_id as int]);
            if honor_tile_count == 0 {
                tile_id += 1;
                continue;
            }
            let (complete, incomplete, pairs): (u8, u8, u8) = if honor_tile_count == 1 {
                (0, 1, 0)
            } else if honor_tile_count == 2 {
                // a pair beyond the first counts as an incomplete group, as for numbered tiles
                if partial_state.num_pairs >= 1 {
                    (0, 1, 1)
                } else {
                    (0, 0, 1)
                }
            } else {
                (1, 0, 0)
            };
            partial_state =
            form_group_state(
                &partial_state,
                single_group_array(tile_id, honor_tile_count),
                tile_id,
                complete,
                incomplete,
                pairs,
            );
            tile_id += 1;
        }
        search_groupings(partial_state, incomplete_group_budget)
    }

    /// Whether the tiles group into complete groups and one pair (honor pairs aside) with no
    /// incomplete group.
    pub fn is_winning_shape_build_shapes(&self) -> (r: bool)
        requires
            self.wf(),
            honors_at_most_four(self.counts()),
            groupable_size(self.counts()),
        ensures
            r == (hand_groupings(self.counts(), 0).len() > 0),
    {
        let groupings = self.build_shapes(0);
        proof {
            broadcast use vstd::seq_lib::group_to_multiset_ensures;

            assert(state_views(groupings@).len() == groupings@.len());
            assert(state_views(groupings@).to_multiset().len() == groupings@.len());
            assert(hand_groupings(self.counts(), 0).to_multiset().len() == hand_groupings(
                self.counts(),
                0,
            ).len());
        }
        groupings.len() > 0
    }

    /// Whether the tiles group with at most one incomplete group.
    pub fn is_tenpai_build_shapes(&self) -> (r: bool)
        requires
            self.wf(),
            honors_at_most_four(self.counts()),
            groupable_size(self.counts()),
        ensures
            r == (hand_groupings(self.counts(), 1).len() > 0),
    {
        let groupings = self.build_shapes(1);
        proof {
            broadcast use vstd::seq_lib::group_to_multiset_ensures;

            assert(state_views(groupings@).len() == groupings@.len());
            assert(state_views(groupings@).to_multiset().len() == groupings@.len());
            assert(hand_groupings(self.counts(), 1).to_multiset().len() == hand_groupings(
                self.counts(),
                1,
            ).len());
        }
        groupings.len() > 0
    }
}

/// Tile `x` completes the group `grp` of the grouping `g`: the group is incomplete, it is not
/// the only pair of a grouping with three complete groups (that pair must stay the pair), and
/// `x` is among the tiles that complete it.
pub open spec fn group_waits_on(g: GroupingModel, grp: Seq<u8>, x: u8) -> bool {
    &&& spec_is_incomplete_group(grp)
    &&& !(g.num_complete_groups == 3 && g.num_pairs == 1 && spec_is_pair(grp))
    &&& spec_tiles_to_complete(grp) matches Some(ts) && ts.contains(x)
}

/// Tile `x` completes some group of the grouping `g`.
pub open spec fn grouping_waits_on(g: GroupingModel, x: u8) -> bool {
    exists|j: int| 0 <= j < g.groups.len() && #[trigger] group_waits_on(g, g.groups[j], x)
}

/// Whether `x` is in `v`.
fn contains_tile(v: &Vec<u8>, x: u8) -> (r: bool)
    ensures
        r == v@.contains(x),
{
    let mut i: usize = 0;
    while i < v.len()
        invariant
            i <= v@.len(),
            forall|k: int| 0 <= k < i ==> v@[k] != x,
        decreases v@.len() - i,
    {
        if v[i] == x {
            assert(v@[i as int] == x);
            return true;
        }
        i += 1;
    }
    false
}

impl MahjongHand {
    /// The tiles that complete a group of a grouping with at most one incomplete group, each
    /// once; empty when the hand is not in tenpai.
    pub fn get_tenpai_tiles_build_shapes(&self) -> (r: Vec<u8>)
        requires
            self.wf(),
            honors_at_most_four(self.counts()),
            groupable_size(self.counts()),
        ensures
            r@.no_duplicates(),
            forall|x: u8|
                r@.contains(x) <==> exists|i: int|
                    0 <= i < hand_groupings(self.counts(), 1).len() && grouping_waits_on(
                        #[trigger] hand_groupings(self.counts(), 1)[i],
                        x,
                    ),
    {
        let ghost target = hand_groupings(self.counts(), 1);
        let mut tenpai_tiles: Vec<u8> = Vec::new();
        let tenpai_groupings = self.build_shapes(1);
        let mut i: usize = 0;
        while i < tenpai_groupings.len()
            invariant
                i <= tenpai_groupings@.len(),
                tenpai_tiles@.no_duplicates(),
                forall|x: u8|
                    tenpai_tiles@.contains(x) <==> exists|i2: int|
                        0 <= i2 < i && grouping_waits_on(#[trigger] tenpai_groupings@[i2]@, x),
            decreases tenpai_groupings@.len() - i,
        {
            let grouping = &tenpai_groupings[i];
            let ghost gm = grouping@;
            let mut j: usize = 0;
            while j < grouping.groups_tile_counts.len()
                invariant
                    i < tenpai_groupings@.len(),
                    grouping == tenpai_groupings@[i as int],
                    gm == grouping@,
                    j <= grouping.groups_tile_counts@.len(),
                    tenpai_tiles@.no_duplicates(),
                    forall|x: u8|
                        tenpai_tiles@.contains(x) <==> (exists|i2: int|
                            0 <= i2 < i && grouping_waits_on(#[trigger] tenpai_groupings@[i2]@, x))
                            || (exists|j2: int|
                            0 <= j2 < j && #[trigger] group_waits_on(gm, gm.groups[j2], x)),
                decreases grouping.groups_tile_counts@.len() - j,
            {
                let group = &grouping.groups_tile_counts[j];
                let ghost gg = group@;
                assert(gm.groups[j as int] == gg);
                // the only pair of a grouping with three complete groups must stay the pair;
                // with two pairs either can be completed (a two-pair wait)
                if is_incomplete_group(group) && !(grouping.num_complete_groups == 3
                    && grouping.num_pairs == 1 && is_pair(group)) {
                    let tile_ids_to_complete = tile_ids_to_complete_group(group).unwrap();
                    let mut k: usize = 0;
                    while k < tile_ids_to_complete.len()
                        invariant
                            k <= tile_ids_to_complete@.len(),
                            spec_tiles_to_complete(gg) == Some(tile_ids_to_complete@),
                            spec_is_incomplete_group(gg),
                            !(gm.num_complete_groups == 3 && gm.num_pairs == 1 && spec_is_pair(
                                gg,
                            )),
                            gm.groups[j as int] == gg,
                            j < gm.groups.len(),
                            tenpai_tiles@.no_duplicates(),
                            forall|x: u8|
                                tenpai_tiles@.contains(x) <==> (exists|i2: int|
                                    0 <= i2 < i && grouping_waits_on(
                                        #[trigger] tenpai_groupings@[i2]@,
                                        x,
                                    )) || (exists|j2: int|
                                    0 <= j2 < j && #[trigger] group_waits_on(
                                        gm,
                                        gm.groups[j2],
                                        x,
                                    )) || (exists|k2: int|
                                    0 <= k2 < k && tile_ids_to_complete@[k2] == x),
                        decreases tile_ids_to_complete@.len() - k,
                    {
                        let tile_id = tile_ids_to_complete[k];
                        let ghost before = tenpai_tiles@;
                        if !contains_tile(&tenpai_tiles, tile_id) {
                            tenpai_tiles.push(tile_id);
                        }
                        k += 1;
                        proof {
                            assert forall|x: u8| #[trigger] tenpai_tiles@.contains(x) <==> (
                            before.contains(x) || x == tile_id) by {
                                if tenpai_tiles@.contains(x) && x != tile_id {
                                    let idx = choose|idx: int|
                                        0 <= idx < tenpai_tiles@.len() && tenpai_tiles@[idx] == x;
                                    assert(before[idx] == x);
                                }
                                if before.contains(x) {
                                    let idx = choose|idx: int|
                                        0 <= idx < before.len() && before[idx] == x;
                                    assert(tenpai_tiles@[idx] == x);
                                }
                                if x == tile_id && !before.contains(x) {
                                    assert(tenpai_tiles@[before.len() as int] == x);
                                }
                            }
                            assert forall|x: u8| tenpai_tiles@.contains(x) <==> (exists|i2: int|
                                0 <= i2 < i && grouping_waits_on(
                                    #[trigger] tenpai_groupings@[i2]@,
                                    x,
                                )) || (exists|j2: int|
                                0 <= j2 < j && #[trigger] group_waits_on(gm, gm.groups[j2], x))
                                || (exists|k2: int|
                                0 <= k2 < k && tile_ids_to_complete@[k2] == x) by {
                                if x == tile_id {
                                    assert(tile_ids_to_complete@[k - 1] == x);
                                }
                                if exists|k2: int| 0 <= k2 < k && tile_ids_to_complete@[k2] == x {
                                    let k2 = choose|k2: int|
                                        0 <= k2 < k && tile_ids_to_complete@[k2] == x;
                                    if k2 == k - 1 {
                                        assert(x == tile_id);
                                    }
                                }
                            }
                        }
                    }
                    proof {
                        assert forall|x: u8| tenpai_tiles@.contains(x) <==> (exists|i2: int|
                            0 <= i2 < i && grouping_waits_on(
                                #[trigger] tenpai_groupings@[i2]@,
                                x,
                            )) || (exists|j2: int|
                            0 <= j2 < j + 1 && #[trigger] group_waits_on(
                                gm,
                                gm.groups[j2],
                                x,
                            )) by {
                            let in_group = exists|k2: int|
                                0 <= k2 < k && tile_ids_to_complete@[k2] == x;
                            if in_group {
                                let k2 = choose|k2: int|
                                    0 <= k2 < k && tile_ids_to_complete@[k2] == x;
                                assert(tile_ids_to_complete@.contains(x)) by {
                                    assert(tile_ids_to_complete@[k2] == x);
                                }
                                assert(group_waits_on(gm, gm.groups[j as int], x));
                            }
                            if group_waits_on(gm, gm.groups[j as int], x) {
                                assert(tile_ids_to_complete@.contains(x));
                                let k2 = choose|k2: int|
                                    0 <= k2 < tile_ids_to_complete@.len()
                                        && tile_ids_to_complete@[k2] == x;
                                assert(tile_ids_to_complete@[k2] == x);
                                assert(in_group);
                            }
                            if exists|j2: int|
                                0 <= j2 < j + 1 && #[trigger] group_waits_on(
                                    gm,
                                    gm.groups[j2],
                                    x,
                                ) {
                                let j2 = choose|j2: int|
                                    0 <= j2 < j + 1 && #[trigger] group_waits_on(
                                        gm,
                                        gm.groups[j2],
                                        x,
                                    );
                                if j2 == j {
                                    assert(in_group);
                                } else {
                                    assert(exists|j3: int|
                                        0 <= j3 < j && #[trigger] group_waits_on(
                                            gm,
                                            gm.groups[j3],
                                            x,
                                        ));
                                }
                            }
                        }
                    }
                } else {
                    proof {
                        assert forall|x: u8| tenpai_tiles@.contains(x) <==> (exists|i2: int|
                            0 <= i2 < i && grouping_waits_on(
                                #[trigger] tenpai_groupings@[i2]@,
                                x,
                            )) || (exists|j2: int|
                            0 <= j2 < j + 1 && #[trigger] group_waits_on(
                                gm,
                                gm.groups[j2],
                                x,
                            )) by {
                            assert(!group_waits_on(gm, gm.groups[j as int], x));
                        }
                    }
                }
                j += 1;
            }
            proof {
                assert forall|x: u8| tenpai_tiles@.contains(x) <==> exists|i2: int|
                    0 <= i2 < i + 1 && grouping_waits_on(#[trigger] tenpai_groupings@[i2]@, x) by {
                    if grouping_waits_on(gm, x) {
                        let j2 = choose|j2: int|
                            0 <= j2 < gm.groups.len() && #[trigger] group_waits_on(
                                gm,
                                gm.groups[j2],
                                x,
                            );
                        assert(gm.groups.len() == grouping.groups_tile_counts@.len());
                    }
                    if (exists|j2: int|
                        0 <= j2 < j && #[trigger] group_waits_on(gm, gm.groups[j2], x)) {
                        assert(grouping_waits_on(gm, x));
                        assert(tenpai_groupings@[i as int]@ == gm);
                    }
                }
            }
            i += 1;
        }
        proof {
            broadcast use vstd::seq_lib::group_to_multiset_ensures;

            let views = state_views(tenpai_groupings@);
            assert forall|x: u8| tenpai_tiles@.contains(x) <==> exists|i2: int|
                0 <= i2 < target.len() && grouping_waits_on(#[trigger] target[i2], x) by {
                if tenpai_tiles@.contains(x) {
                    let i2 = choose|i2: int|
                        0 <= i2 < tenpai_groupings@.len() && grouping_waits_on(
                            #[trigger] tenpai_groupings@[i2]@,
                            x,
                        );
                    let g = views[i2];
                    assert(views.contains(g));
                    assert(views.to_multiset().count(g) > 0);
                    assert(target.to_multiset().count(g) > 0);
                    assert(target.contains(g));
                    let i3 = choose|i3: int| 0 <= i3 < target.len() && target[i3] == g;
                    assert(grouping_waits_on(target[i3], x));
                }
                if exists|i2: int| 0 <= i2 < target.len() && grouping_waits_on(
                    #[trigger] target[i2],
                    x,
                ) {
                    let i2 = choose|i2: int|
                        0 <= i2 < target.len() && grouping_waits_on(#[trigger] target[i2], x);
                    let g = target[i2];
                    assert(target.contains(g));
                    assert(target.to_multiset().count(g) > 0);
                    assert(views.to_multiset().count(g) > 0);
                    assert(views.contains(g));
                    let i3 = choose|i3: int| 0 <= i3 < views.len() && views[i3] == g;
                    assert(tenpai_groupings@[i3]@ == g);
                }
            }
        }
        tenpai_tiles
    }
}

/// Every state of the list has grouped every tile and holds at most `budget` incomplete
/// groups.
pub open spec fn all_tiles_grouped(gs: Seq<GroupingModel>, budget: int) -> bool {
    forall|i: int|
        0 <= i < gs.len() ==> {
            &&& (#[trigger] gs[i]).remaining == Seq::new(34, |k: int| 0u8)
            &&& gs[i].num_incomplete_groups <= budget
        }
}

proof fn lemma_all_tiles_grouped_append(a: Seq<GroupingModel>, b: Seq<GroupingModel>, budget: int)
    requires
        all_tiles_grouped(a, budget),
        all_tiles_grouped(b, budget),
    ensures
        all_tiles_grouped(a + b, budget),
{
    assert forall|i: int| 0 <= i < (a + b).len() implies {
        &&& (#[trigger] (a + b)[i]).remaining == Seq::new(34, |k: int| 0u8)
        &&& (a + b)[i].num_incomplete_groups <= budget
    } by {
        if i < a.len() {
            assert((a + b)[i] == a[i]);
        } else {
            assert((a + b)[i] == b[i - a.len()]);
        }
    }
}

/// A state forming a group below the honors keeps its honors ungrouped-free.
proof fn lemma_child_honors(s: GroupingModel, g: Seq<u8>, t: int)
    requires
        s.remaining.len() == 34,
        forall|h: int| 27 <= h < 34 ==> #[trigger] s.remaining[h] == 0,
        forall|h: int| 27 <= h < 34 ==> #[trigger] g[h] == 0,
    ensures
        forall|h: int| 27 <= h < 34 ==> #[trigger] take_group(s.remaining, g)[h] == 0,
        take_group(s.remaining, g).len() == 34,
{
    assert forall|h: int| 27 <= h < 34 implies #[trigger] take_group(s.remaining, g)[h] == 0 by {
        assert(s.remaining[h] == 0);
        assert(g[h] == 0);
    }
}

/// From a state with no honor left and within budget, every settled state reached has
/// grouped every tile and stays within budget.
pub proof fn lemma_groupings_from_all_grouped(s: GroupingModel, budget: int)
    requires
        s.remaining.len() == 34,
        forall|h: int| 27 <= h < 34 ==> #[trigger] s.remaining[h] == 0,
        s.num_incomplete_groups <= budget,
    ensures
        all_tiles_grouped(groupings_from(s, budget), budget),
    decreases count_sum(s.remaining),
{
    let c = s.remaining;
    if is_settled(s) {
        lemma_first_nonzero(c);
        assert(c =~= Seq::new(34, |k: int| 0u8)) by {
            assert forall|k: int| 0 <= k < 34 implies c[k] == 0u8 by {
                if k >= 27 {
                    assert(c[k] == 0);
                }
            }
        }
        assert(groupings_from(s, budget) == seq![s]);
    } else {
        let t = first_nonzero(c);
        let k = c[t];
        let room = s.num_incomplete_groups < budget;
        let seqn = spec_can_make_sequence(c, t);
        let pair = form_pair(s, t);
        lemma_lowest_shapes(c);
        let g1 = single_tile_group(t, 1);
        let g2 = single_tile_group(t, 2);
        let g3 = single_tile_group(t, 3);
        let gr = run_group(t);
        let gw = two_tile_group(t, 1);
        let gk = two_tile_group(t, 2);
        assert forall|h: int| 27 <= h < 34 implies #[trigger] g1[h] == 0 && g2[h] == 0 && g3[h]
            == 0 by {}
        if seqn {
            assert forall|h: int| 27 <= h < 34 implies #[trigger] gr[h] == 0 by {}
        }
        if spec_can_make_ryanmen(c, t) || spec_can_make_penchan(c, t) {
            assert forall|h: int| 27 <= h < 34 implies #[trigger] gw[h] == 0 by {}
        }
        if spec_can_make_kanchan(c, t) {
            assert forall|h: int| 27 <= h < 34 implies #[trigger] gk[h] == 0 by {}
        }
        let from_pair = if k >= 2 && pair.num_incomplete_groups <= budget {
            groupings_from(pair, budget)
        } else {
            seq![]
        };
        if k >= 2 && pair.num_incomplete_groups <= budget {
            lemma_take_smaller(c, g2, t);
            lemma_child_honors(s, g2, t);
            lemma_groupings_from_all_grouped(pair, budget);
        }
        if k >= 3 {
            let trip = form_group(s, g3, 1, 0, 0);
            lemma_take_smaller(c, g3, t);
            lemma_child_honors(s, g3, t);
            lemma_groupings_from_all_grouped(trip, budget);
            lemma_all_tiles_grouped_append(groupings_from(trip, budget), from_pair, budget);
        } else {
            let p1 = if seqn {
                groupings_from(form_group(s, gr, 1, 0, 0), budget)
            } else {
                seq![]
            };
            let p2 = if room && spec_can_make_ryanmen(c, t) {
                groupings_from(form_group(s, gw, 0, 1, 0), budget)
            } else {
                seq![]
            };
            let p3 = if room && spec_can_make_penchan(c, t) {
                groupings_from(form_group(s, gw, 0, 1, 0), budget)
            } else {
                seq![]
            };
            let p4 = if room && spec_can_make_kanchan(c, t) && !seqn {
                groupings_from(form_group(s, gk, 0, 1, 0), budget)
            } else {
                seq![]
            };
            let p5 = if room {
                groupings_from(form_group(s, g1, 0, 1, 0), budget)
            } else {
                seq![]
            };
            if seqn {
                lemma_take_smaller(c, gr, t);
                lemma_child_honors(s, gr, t);
                lemma_groupings_from_all_grouped(form_group(s, gr, 1, 0, 0), budget);
            }
            if room && (spec_can_make_ryanmen(c, t) || spec_can_make_penchan(c, t)) {
                lemma_take_smaller(c, gw, t);
                lemma_child_honors(s, gw, t);
                lemma_groupings_from_all_grouped(form_group(s, gw, 0, 1, 0), budget);
            }
            if room && spec_can_make_kanchan(c, t) && !seqn {
                lemma_take_smaller(c, gk, t);
                lemma_child_honors(s, gk, t);
                lemma_groupings_from_all_grouped(form_group(s, gk, 0, 1, 0), budget);
            }
            if room {
                lemma_take_smaller(c, g1, t);
                lemma_child_honors(s, g1, t);
                lemma_groupings_from_all_grouped(form_group(s, g1, 0, 1, 0), budget);
            }
            lemma_all_tiles_grouped_append(from_pair, p1, budget);
            lemma_all_tiles_grouped_append(from_pair + p1, p2, budget);
            lemma_all_tiles_grouped_append(from_pair + p1 + p2, p3, budget);
            lemma_all_tiles_grouped_append(from_pair + p1 + p2 + p3, p4, budget);
            lemma_all_tiles_grouped_append(from_pair + p1 + p2 + p3 + p4, p5, budget);
        }
    }
}

/// Every grouping of a hand uses every one of its tiles and holds at most the allowed number
/// of incomplete groups.
pub proof fn law_groupings_use_every_tile(c: Seq<u8>, budget: int)
    requires
        c.len() == 34,
    ensures
        all_tiles_grouped(hand_groupings(c, budget), budget),
{
    lemma_group_honors(c, 34);
    let start = group_honors(c, 34);
    if start.num_incomplete_groups <= budget {
        lemma_groupings_from_all_grouped(start, budget);
    }
}

/// How many copies of tile `i` the groups hold together.
pub open spec fn groups_total(gs: Seq<Seq<u8>>, i: int) -> int
    decreases gs.len(),
{
    if gs.len() == 0 {
        0
    } else {
        groups_total(gs.drop_last(), i) + gs.last()[i]
    }
}

/// A group that a grouping may form: one to three copies of a tile (a single tile, a pair, a
/// triplet) or all four copies of an honor tile, a sequence of one suit, a two-sided or edge
/// wait of one suit, or an inner wait of one suit.
pub open spec fn valid_group(g: Seq<u8>) -> bool {
    ||| exists|t: int, k: u8|
        #[trigger] single_tile_group(t, k) == g && 0 <= t < 34 && 1 <= k <= 4 && (k == 4 ==> 27
            <= t)
    ||| exists|t: int| #[trigger] run_group(t) == g && starts_sequence(t)
    ||| exists|t: int|
        #[trigger] two_tile_group(t, 1) == g && (crate::mahjong_hand::starts_ryanmen(t)
            || crate::mahjong_hand::starts_penchan(t))
    ||| exists|t: int| #[trigger] two_tile_group(t, 2) == g && starts_sequence(t)
}

/// The state's groups and its remaining tiles together are the hand `c`, and each group is a
/// valid group.
pub open spec fn accounts_for(s: GroupingModel, c: Seq<u8>) -> bool {
    &&& s.remaining.len() == 34
    &&& forall|i: int| 0 <= i < 34 ==> #[trigger] s.remaining[i] + groups_total(s.groups, i) == c[i]
    &&& forall|j: int| 0 <= j < s.groups.len() ==> valid_group(#[trigger] s.groups[j])
}

/// Forming a held, valid group keeps the state accounting for the hand.
proof fn lemma_form_group_accounts(s: GroupingModel, c: Seq<u8>, g: Seq<u8>, dc: int, di: int, dp: int)
    requires
        accounts_for(s, c),
        g.len() == 34,
        forall|i: int| 0 <= i < 34 ==> #[trigger] g[i] <= s.remaining[i],
        valid_group(g),
    ensures
        accounts_for(form_group(s, g, dc, di, dp), c),
{
    let n = form_group(s, g, dc, di, dp);
    assert(n.groups.drop_last() =~= s.groups);
    assert forall|i: int| 0 <= i < 34 implies #[trigger] n.remaining[i] + groups_total(n.groups, i)
        == c[i] by {
        assert(g[i] <= s.remaining[i]);
        assert(s.remaining[i] + groups_total(s.groups, i) == c[i]);
    }
    assert forall|j: int| 0 <= j < n.groups.len() implies valid_group(#[trigger] n.groups[j]) by {
        if j < s.groups.len() {
            assert(n.groups[j] == s.groups[j]);
        }
    }
}

/// Each grouping of the list accounts for the hand.
pub open spec fn all_account(gs: Seq<GroupingModel>, c: Seq<u8>) -> bool {
    forall|i: int| 0 <= i < gs.len() ==> accounts_for(#[trigger] gs[i], c)
}

proof fn lemma_all_account_append(a: Seq<GroupingModel>, b: Seq<GroupingModel>, c: Seq<u8>)
    requires
        all_account(a, c),
        all_account(b, c),
    ensures
        all_account(a + b, c),
{
    assert forall|i: int| 0 <= i < (a + b).len() implies accounts_for(#[trigger] (a + b)[i], c) by {
        if i < a.len() {
            assert((a + b)[i] == a[i]);
        } else {
            assert((a + b)[i] == b[i - a.len()]);
        }
    }
}

/// From a state that accounts for the hand, every settled state reached does too.
proof fn lemma_groupings_from_account(s: GroupingModel, budget: int, c: Seq<u8>)
    requires
        accounts_for(s, c),
    ensures
        all_account(groupings_from(s, budget), c),
    decreases count_sum(s.remaining),
{
    let r = s.remaining;
    if is_settled(s) {
        assert(groupings_from(s, budget) == seq![s]);
    } else {
        let t = first_nonzero(r);
        let k = r[t];
        let room = s.num_incomplete_groups < budget;
        let seqn = spec_can_make_sequence(r, t);
        let pair = form_pair(s, t);
        lemma_lowest_shapes(r);
        let g1 = single_tile_group(t, 1);
        let g2 = single_tile_group(t, 2);
        let g3 = single_tile_group(t, 3);
        let gr = run_group(t);
        let gw = two_tile_group(t, 1);
        let gk = two_tile_group(t, 2);
        assert(valid_group(g1));
        assert(valid_group(g2));
        assert(valid_group(g3));
        assert forall|i: int| 0 <= i < 34 implies #[trigger] g1[i] <= r[i] by {}
        let from_pair = if k >= 2 && pair.num_incomplete_groups <= budget {
            groupings_from(pair, budget)
        } else {
            seq![]
        };
        if k >= 2 && pair.num_incomplete_groups <= budget {
            assert forall|i: int| 0 <= i < 34 implies #[trigger] g2[i] <= r[i] by {}
            lemma_take_smaller(r, g2, t);
            lemma_form_group_accounts(s, c, g2, 0, if s.num_pairs >= 1 { 1 } else { 0 }, 1);
            lemma_groupings_from_account(pair, budget, c);
        }
        if k >= 3 {
            let trip = form_group(s, g3, 1, 0, 0);
            assert forall|i: int| 0 <= i < 34 implies #[trigger] g3[i] <= r[i] by {}
            lemma_take_smaller(r, g3, t);
            lemma_form_group_accounts(s, c, g3, 1, 0, 0);
            lemma_groupings_from_account(trip, budget, c);
            lemma_all_account_append(groupings_from(trip, budget), from_pair, c);
        } else {
            let p1 = if seqn {
                groupings_from(form_group(s, gr, 1, 0, 0), budget)
            } else {
                seq![]
            };
            let p2 = if room && spec_can_make_ryanmen(r, t) {
                groupings_from(form_group(s, gw, 0, 1, 0), budget)
            } else {
                seq![]
            };
            let p3 = if room && spec_can_make_penchan(r, t) {
                groupings_from(form_group(s, gw, 0, 1, 0), budget)
            } else {
                seq![]
            };
            let p4 = if room && spec_can_make_kanchan(r, t) && !seqn {
                groupings_from(form_group(s, gk, 0, 1, 0), budget)
            } else {
                seq![]
            };
            let p5 = if room {
                groupings_from(form_group(s, g1, 0, 1, 0), budget)
            } else {
                seq![]
            };
            if t >= 1 {
                assert(r[t - 1] == 0);
            }
            if t >= 2 {
                assert(r[t - 2] == 0);
            }
            if seqn {
                assert(starts_sequence(t));
                assert(valid_group(gr));
                assert forall|i: int| 0 <= i < 34 implies #[trigger] gr[i] <= r[i] by {}
                lemma_take_smaller(r, gr, t);
                lemma_form_group_accounts(s, c, gr, 1, 0, 0);
                lemma_groupings_from_account(form_group(s, gr, 1, 0, 0), budget, c);
            }
            if room && (spec_can_make_ryanmen(r, t) || spec_can_make_penchan(r, t)) {
                assert(crate::mahjong_hand::starts_ryanmen(t) || crate::mahjong_hand::starts_penchan(t));
                assert(valid_group(gw));
                assert forall|i: int| 0 <= i < 34 implies #[trigger] gw[i] <= r[i] by {}
                lemma_take_smaller(r, gw, t);
                lemma_form_group_accounts(s, c, gw, 0, 1, 0);
                lemma_groupings_from_account(form_group(s, gw, 0, 1, 0), budget, c);
            }
            if room && spec_can_make_kanchan(r, t) && !seqn {
                assert(starts_sequence(t));
                assert(valid_group(gk));
                assert forall|i: int| 0 <= i < 34 implies #[trigger] gk[i] <= r[i] by {}
                lemma_take_smaller(r, gk, t);
                lemma_form_group_accounts(s, c, gk, 0, 1, 0);
                lemma_groupings_from_account(form_group(s, gk, 0, 1, 0), budget, c);
            }
            if room {
                lemma_take_smaller(r, g1, t);
                lemma_form_group_accounts(s, c, g1, 0, 1, 0);
                lemma_groupings_from_account(form_group(s, g1, 0, 1, 0), budget, c);
            }
            lemma_all_account_append(from_pair, p1, c);
            lemma_all_account_append(from_pair + p1, p2, c);
            lemma_all_account_append(from_pair + p1 + p2, p3, c);
            lemma_all_account_append(from_pair + p1 + p2 + p3, p4, c);
            lemma_all_account_append(from_pair + p1 + p2 + p3 + p4, p5, c);
        }
    }
}

/// Grouping the honor tiles whole accounts for the hand.
proof fn lemma_group_honors_accounts(c: Seq<u8>, h: int)
    requires
        c.len() == 34,
        h <= 34,
        honors_at_most_four(c),
    ensures
        accounts_for(group_honors(c, h), c),
    decreases h,
{
    lemma_group_honors(c, h);
    if h <= 27 {
        let s = group_honors(c, h);
        assert forall|i: int| 0 <= i < 34 implies #[trigger] s.remaining[i] + groups_total(s.groups, i)
            == c[i] by {}
    } else {
        lemma_group_honors_accounts(c, h - 1);
        lemma_group_honors(c, h - 1);
        let s = group_honors(c, h - 1);
        let k = c[h - 1];
        if k > 0 {
            let g = single_tile_group(h - 1, k);
            assert(c[h - 1] <= 4);
            assert(valid_group(g));
            assert forall|i: int| 0 <= i < 34 implies #[trigger] g[i] <= s.remaining[i] by {
                if i == h - 1 {
                    assert(s.remaining[i] == c[i]);
                }
            }
            lemma_form_group_accounts(
                s,
                c,
                g,
                if k >= 3 { 1 } else { 0 },
                if k == 1 { 1 } else { 0 },
                if k == 2 { 1 } else { 0 },
            );
        }
    }
}

/// The groups of every grouping of a hand add up to the hand, tile by tile, and each group is
/// a valid group (see `valid_group`).
pub proof fn law_groupings_account_for_hand(c: Seq<u8>, budget: int)
    requires
        c.len() == 34,
        honors_at_most_four(c),
    ensures
        forall|j: int|
            #![trigger hand_groupings(c, budget)[j]]
            0 <= j < hand_groupings(c, budget).len() ==> {
                &&& forall|i: int|
                    0 <= i < 34 ==> #[trigger] groups_total(hand_groupings(c, budget)[j].groups, i)
                        == c[i]
                &&& forall|m: int|
                    0 <= m < hand_groupings(c, budget)[j].groups.len() ==> valid_group(
                        #[trigger] hand_groupings(c, budget)[j].groups[m],
                    )
            },
{
    let gs = hand_groupings(c, budget);
    lemma_group_honors_accounts(c, 34);
    let start = group_honors(c, 34);
    if start.num_incomplete_groups <= budget {
        lemma_groupings_from_account(start, budget, c);
    }
    law_groupings_use_every_tile(c, budget);
    assert forall|j: int| #![trigger gs[j]] 0 <= j < gs.len() implies {
        &&& forall|i: int| 0 <= i < 34 ==> #[trigger] groups_total(gs[j].groups, i) == c[i]
        &&& forall|m: int| 0 <= m < gs[j].groups.len() ==> valid_group(#[trigger] gs[j].groups[m])
    } by {
        assert(accounts_for(gs[j], c));
        assert(gs[j].remaining == Seq::new(34, |k: int| 0u8));
        assert forall|i: int| 0 <= i < 34 implies #[trigger] groups_total(gs[j].groups, i) == c[i] by {
            assert(gs[j].remaining[i] == 0);
            assert(gs[j].remaining[i] + groups_total(gs[j].groups, i) == c[i]);
        }
    }
}

/// The tiles of the hand `c` that the state has grouped so far.
pub open spec fn tiles_grouped(s: GroupingModel, c: Seq<u8>) -> Seq<u8> {
    Seq::new(34, |t: int| (c[t] - s.remaining[t]) as u8)
}

/// A state without incomplete groups and with at most one pair, whose groups so far are melds
/// and pairs that split the tiles it has grouped.
pub open spec fn melds_so_far(s: GroupingModel, c: Seq<u8>) -> bool {
    &&& s.remaining.len() == 34
    &&& forall|t: int| 0 <= t < 34 ==> #[trigger] s.remaining[t] <= c[t]
    &&& s.num_incomplete_groups == 0
    &&& 0 <= s.num_pairs <= 1
    &&& exists|gs: Seq<ShapeGroup>|
        is_decomposition(tiles_grouped(s, c), gs, s.num_complete_groups, s.num_pairs, false)
}

/// Forming a meld or the one pair keeps a state's groups a split of what it grouped.
proof fn lemma_form_meld(s: GroupingModel, c: Seq<u8>, g: Seq<u8>, sg: ShapeGroup)
    requires
        c.len() == 34,
        melds_so_far(s, c),
        g.len() == 34,
        forall|t: int| 0 <= t < 34 ==> #[trigger] g[t] == group_count(sg, t),
        forall|t: int| 0 <= t < 34 ==> #[trigger] g[t] <= s.remaining[t],
        group_valid(sg),
        !(sg is Quad),
        sg is Pair ==> s.num_pairs == 0,
    ensures
        melds_so_far(
            form_group(
                s,
                g,
                if sg is Pair {
                    0
                } else {
                    1
                },
                0,
                if sg is Pair {
                    1
                } else {
                    0
                },
            ),
            c,
        ),
{
    let dc: int = if sg is Pair {
        0
    } else {
        1
    };
    let dp: int = if sg is Pair {
        1
    } else {
        0
    };
    let n = form_group(s, g, dc, 0, dp);
    let gs = choose|gs: Seq<ShapeGroup>|
        is_decomposition(tiles_grouped(s, c), gs, s.num_complete_groups, s.num_pairs, false);
    let old_done = tiles_grouped(s, c);
    let new_done = tiles_grouped(n, c);
    assert forall|t: int| 0 <= t < 34 implies #[trigger] n.remaining[t] <= c[t] by {
        assert(g[t] <= s.remaining[t]);
        assert(s.remaining[t] <= c[t]);
    }
    assert forall|t: int| 0 <= t < 34 implies new_done[t] >= group_count(sg, t) by {
        assert(g[t] <= s.remaining[t]);
        assert(s.remaining[t] <= c[t]);
    }
    assert(remove_group(new_done, sg) =~= old_done) by {
        assert forall|t: int| 0 <= t < 34 implies #[trigger] remove_group(new_done, sg)[t]
            == old_done[t] by {
            assert(g[t] <= s.remaining[t]);
            assert(s.remaining[t] <= c[t]);
        }
    }
    lemma_decomposition_push(new_done, sg, gs, s.num_complete_groups, s.num_pairs, false);
    assert(is_decomposition(new_done, gs.push(sg), n.num_complete_groups, n.num_pairs, false));
}

/// Without an incomplete group allowed, every grouping reached from a state whose groups are
/// melds and at most one pair has only melds and at most one pair.
proof fn lemma_groupings_from_melds(s: GroupingModel, c: Seq<u8>)
    requires
        c.len() == 34,
        melds_so_far(s, c),
    ensures
        forall|j: int|
            0 <= j < groupings_from(s, 0).len() ==> melds_so_far(#[trigger] groupings_from(s, 0)[j], c),
    decreases count_sum(s.remaining),
{
    let r = s.remaining;
    if is_settled(s) {
        assert(groupings_from(s, 0) == seq![s]);
    } else {
        let t = first_nonzero(r);
        let k = r[t];
        let seqn = spec_can_make_sequence(r, t);
        let pair = form_pair(s, t);
        lemma_lowest_shapes(r);
        let g2 = single_tile_group(t, 2);
        let g3 = single_tile_group(t, 3);
        let gr = run_group(t);
        let from_pair = if k >= 2 && pair.num_incomplete_groups <= 0 {
            groupings_from(pair, 0)
        } else {
            seq![]
        };
        if k >= 2 && pair.num_incomplete_groups <= 0 {
            assert(s.num_pairs == 0);
            assert forall|i: int| 0 <= i < 34 implies #[trigger] g2[i] <= r[i] by {}
            assert forall|i: int| 0 <= i < 34 implies #[trigger] g2[i] == group_count(
                ShapeGroup::Pair(t),
                i,
            ) by {}
            lemma_take_smaller(r, g2, t);
            lemma_form_meld(s, c, g2, ShapeGroup::Pair(t));
            assert(pair == form_group(s, g2, 0, 0, 1));
            lemma_groupings_from_melds(pair, c);
        }
        if k >= 3 {
            let trip = form_group(s, g3, 1, 0, 0);
            assert forall|i: int| 0 <= i < 34 implies #[trigger] g3[i] <= r[i] by {}
            assert forall|i: int| 0 <= i < 34 implies #[trigger] g3[i] == group_count(
                ShapeGroup::Triplet(t),
                i,
            ) by {}
            lemma_take_smaller(r, g3, t);
            lemma_form_meld(s, c, g3, ShapeGroup::Triplet(t));
            lemma_groupings_from_melds(trip, c);
            let a = groupings_from(trip, 0);
            assert(groupings_from(s, 0) == a + from_pair);
            assert forall|j: int| 0 <= j < (a + from_pair).len() implies melds_so_far(
                #[trigger] (a + from_pair)[j],
                c,
            ) by {
                if j < a.len() {
                    assert((a + from_pair)[j] == a[j]);
                } else {
                    assert((a + from_pair)[j] == from_pair[j - a.len()]);
                }
            }
        } else {
            let p1 = if seqn {
                groupings_from(form_group(s, gr, 1, 0, 0), 0)
            } else {
                seq![]
            };
            if t >= 1 {
                assert(r[t - 1] == 0);
            }
            if t >= 2 {
                assert(r[t - 2] == 0);
            }
            if seqn {
                assert(starts_sequence(t));
                assert forall|i: int| 0 <= i < 34 implies #[trigger] gr[i] <= r[i] by {}
                assert forall|i: int| 0 <= i < 34 implies #[trigger] gr[i] == group_count(
                    ShapeGroup::Sequence(t),
                    i,
                ) by {}
                lemma_take_smaller(r, gr, t);
                lemma_form_meld(s, c, gr, ShapeGroup::Sequence(t));
                lemma_groupings_from_melds(form_group(s, gr, 1, 0, 0), c);
            }
            let empty: Seq<GroupingModel> = seq![];
            assert(groupings_from(s, 0) == from_pair + p1 + empty + empty + empty + empty);
            assert(from_pair + p1 + empty + empty + empty + empty =~= from_pair + p1);
            assert forall|j: int| 0 <= j < (from_pair + p1).len() implies melds_so_far(
                #[trigger] (from_pair + p1)[j],
                c,
            ) by {
                if j < from_pair.len() {
                    assert((from_pair + p1)[j] == from_pair[j]);
                } else {
                    assert((from_pair + p1)[j] == p1[j - from_pair.len()]);
                }
            }
        }
    }
}

/// No honor tile is held four times.
pub open spec fn honors_without_quads(c: Seq<u8>) -> bool {
    forall|h: int| 27 <= h < 34 ==> #[trigger] c[h] != 4
}

/// Grouping the honor tiles whole, without a single honor tile, gives melds and at most one
/// pair.
proof fn lemma_group_honors_melds(c: Seq<u8>, h: int)
    requires
        c.len() == 34,
        h <= 34,
        honors_at_most_four(c),
        honors_without_quads(c),
    ensures
        group_honors(c, h).num_incomplete_groups == 0 ==> melds_so_far(group_honors(c, h), c),
        group_honors(c, h).num_incomplete_groups >= 0,
        group_honors(c, h).num_pairs >= 0,
        group_honors(c, h).num_incomplete_groups >= group_honors(c, h).num_pairs - 1,
    decreases h,
{
    lemma_group_honors(c, h);
    if h <= 27 {
        let s = group_honors(c, h);
        assert(tiles_grouped(s, c) =~= Seq::new(34, |t: int| 0u8));
        let gs: Seq<ShapeGroup> = seq![];
        assert(s.remaining == c);
        assert(s.num_complete_groups == 0 && s.num_pairs == 0 && s.num_incomplete_groups == 0);
        assert forall|t: int| 0 <= t < 34 implies #[trigger] tiles_grouped(s, c)[t] == crate::hand_shape::groups_count(gs, t) by {}
        assert(is_decomposition(tiles_grouped(s, c), gs, 0, 0, false));
        assert(melds_so_far(s, c));
    } else {
        lemma_group_honors_melds(c, h - 1);
        lemma_group_honors(c, h - 1);
        let s = group_honors(c, h - 1);
        let k = c[h - 1];
        if k > 0 {
            assert(k <= 3);
            if k >= 2 && group_honors(c, h).num_incomplete_groups == 0 {
                let g = single_tile_group(h - 1, k);
                let sg = if k == 3 {
                    ShapeGroup::Triplet(h - 1)
                } else {
                    ShapeGroup::Pair(h - 1)
                };
                assert forall|i: int| 0 <= i < 34 implies #[trigger] g[i] <= s.remaining[i] by {
                    if i == h - 1 {
                        assert(s.remaining[i] == c[i]);
                    }
                }
                assert forall|i: int| 0 <= i < 34 implies #[trigger] g[i] == group_count(sg, i) by {}
                lemma_form_meld(s, c, g, sg);
                assert(group_honors(c, h) == form_group(
                    s,
                    g,
                    if sg is Pair {
                        0
                    } else {
                        1
                    },
                    0,
                    if sg is Pair {
                        1
                    } else {
                        0
                    },
                ));
            }
        }
    }
}

/// A hand of 14 tiles whose groupings (see `build_shapes`) hold one without an incomplete
/// group splits into four melds and a pair, when no honor tile is held four times. (Without
/// that, the groupings also take two honor quads with two melds as a whole hand.)
pub proof fn law_grouping_win_is_decomposable(c: Seq<u8>)
    requires
        c.len() == 34,
        count_sum(c) == 14,
        honors_at_most_four(c),
        honors_without_quads(c),
        hand_groupings(c, 0).len() > 0,
    ensures
        is_decomposable(c, 4, 1),
{
    lemma_group_honors_melds(c, 34);
    let start = group_honors(c, 34);
    assert(start.num_incomplete_groups <= 0);
    lemma_groupings_from_melds(start, c);
    law_groupings_use_every_tile(c, 0);
    let x = hand_groupings(c, 0)[0];
    assert(melds_so_far(x, c));
    assert(x.remaining == Seq::new(34, |k: int| 0u8));
    assert(tiles_grouped(x, c) =~= c);
    let gs = choose|gs: Seq<ShapeGroup>|
        is_decomposition(tiles_grouped(x, c), gs, x.num_complete_groups, x.num_pairs, false);
    lemma_decomposition_size(c, gs, x.num_complete_groups, x.num_pairs, false);
    assert(crate::hand_shape::num_quad_groups(gs) == 0) by {
        lemma_no_quad_groups(gs);
    }
    assert(x.num_pairs == 1 && x.num_complete_groups == 4);
    assert(is_decomposition(c, gs, 4, 1, false));
}

proof fn lemma_no_quad_groups(gs: Seq<ShapeGroup>)
    requires
        forall|k: int| 0 <= k < gs.len() ==> !(#[trigger] gs[k] is Quad),
    ensures
        crate::hand_shape::num_quad_groups(gs) == 0,
    decreases gs.len(),
{
    if gs.len() > 0 {
        assert forall|k: int| 0 <= k < gs.drop_last().len() implies !(#[trigger] gs.drop_last()[k] is Quad) by {
            assert(gs.drop_last()[k] == gs[k]);
        }
        lemma_no_quad_groups(gs.drop_last());
        assert(!(gs[gs.len() - 1] is Quad));
    }
}

/// The group of a split that holds the lowest tile `t` is a sequence starting at `t`, when no
/// triplet or pair of `t` is in the split.
proof fn lemma_holding_is_sequence(r: Seq<u8>, gs: Seq<ShapeGroup>, m: int, p: int, t: int) -> (i: int)
    requires
        is_decomposition(r, gs, m, p, false),
        0 <= t < 34,
        forall|j: int| 0 <= j < t ==> r[j] == 0,
        r[t] > 0,
        forall|j: int|
            0 <= j < gs.len() ==> #[trigger] gs[j] != ShapeGroup::Triplet(t) && gs[j]
                != ShapeGroup::Pair(t),
    ensures
        0 <= i < gs.len(),
        gs[i] == ShapeGroup::Sequence(t),
{
    let i = lemma_group_holding(gs, t);
    lemma_decomposition_remove(r, gs, i, m, p, false);
    match gs[i] {
        ShapeGroup::Sequence(j) => {
            assert(r[j] >= group_count(gs[i], j));
        },
        _ => {},
    }
    i
}

/// The tiles `c` with the tiles of group `g` added back.
pub open spec fn add_group(c: Seq<u8>, g: ShapeGroup) -> Seq<u8> {
    Seq::new(c.len(), |u: int| (c[u] + group_count(g, u)) as u8)
}

proof fn lemma_push_back(c: Seq<u8>, g: ShapeGroup, gs: Seq<ShapeGroup>, m: int, p: int)
    requires
        is_decomposition(c, gs, m, p, false),
        group_valid(g),
        !(g is Quad),
        !(g is Pair),
        forall|u: int| 0 <= u < 34 ==> c[u] + group_count(g, u) <= 255,
    ensures
        is_decomposition(add_group(c, g), gs.push(g), m + 1, p, false),
{
    let a = add_group(c, g);
    assert(remove_group(a, g) =~= c);
    lemma_decomposition_push(a, g, gs, m, p, false);
}

/// Three sequences starting at the lowest tile `t` hold the same tiles as the triplets of `t`,
/// `t + 1` and `t + 2`: a split with no triplet or pair of `t` and three or more copies of `t`
/// can take the triplet of `t` instead.
proof fn lemma_exchange_sequences(r: Seq<u8>, gs: Seq<ShapeGroup>, m: int, p: int, t: int) -> (gs2: Seq<ShapeGroup>)
    requires
        is_decomposition(r, gs, m, p, false),
        0 <= t < 27,
        forall|j: int| 0 <= j < t ==> r[j] == 0,
        r[t] >= 3,
        forall|j: int|
            0 <= j < gs.len() ==> #[trigger] gs[j] != ShapeGroup::Triplet(t) && gs[j]
                != ShapeGroup::Pair(t),
    ensures
        is_decomposition(r, gs2, m, p, false),
        gs2.len() > 0,
        gs2.last() == ShapeGroup::Triplet(t),
{
    let sq = ShapeGroup::Sequence(t);
    let i1 = lemma_holding_is_sequence(r, gs, m, p, t);
    lemma_decomposition_remove(r, gs, i1, m, p, false);
    let gs1 = gs.remove(i1);
    let r1 = remove_group(r, sq);
    assert forall|j: int| 0 <= j < gs1.len() implies #[trigger] gs1[j] != ShapeGroup::Triplet(t)
        && gs1[j] != ShapeGroup::Pair(t) by {
        if j < i1 {
            assert(gs1[j] == gs[j]);
        } else {
            assert(gs1[j] == gs[j + 1]);
        }
    }
    assert(group_valid(sq));
    let i2 = lemma_holding_is_sequence(r1, gs1, m - 1, p, t);
    lemma_decomposition_remove(r1, gs1, i2, m - 1, p, false);
    let gs2a = gs1.remove(i2);
    let r2 = remove_group(r1, sq);
    assert forall|j: int| 0 <= j < gs2a.len() implies #[trigger] gs2a[j] != ShapeGroup::Triplet(t)
        && gs2a[j] != ShapeGroup::Pair(t) by {
        if j < i2 {
            assert(gs2a[j] == gs1[j]);
        } else {
            assert(gs2a[j] == gs1[j + 1]);
        }
    }
    let i3 = lemma_holding_is_sequence(r2, gs2a, m - 2, p, t);
    lemma_decomposition_remove(r2, gs2a, i3, m - 2, p, false);
    let gs3 = gs2a.remove(i3);
    let r3 = remove_group(r2, sq);
    let ta = ShapeGroup::Triplet(t + 2);
    let tb = ShapeGroup::Triplet(t + 1);
    let tc = ShapeGroup::Triplet(t);
    assert(starts_sequence(t));
    lemma_push_back(r3, ta, gs3, m - 3, p);
    let ca = add_group(r3, ta);
    lemma_push_back(ca, tb, gs3.push(ta), m - 2, p);
    let cb = add_group(ca, tb);
    lemma_push_back(cb, tc, gs3.push(ta).push(tb), m - 1, p);
    let cc = add_group(cb, tc);
    assert(cc =~= r);
    gs3.push(ta).push(tb).push(tc)
}

/// A state with no incomplete group, whose remaining tiles (no honor left) split into melds and
/// at most one pair more than it has, reaches a grouping without incomplete groups.
proof fn lemma_completable(s: GroupingModel, gs: Seq<ShapeGroup>, m: int, p: int)
    requires
        s.remaining.len() == 34,
        forall|h: int| 27 <= h < 34 ==> #[trigger] s.remaining[h] == 0,
        s.num_incomplete_groups == 0,
        s.num_pairs >= 0,
        is_decomposition(s.remaining, gs, m, p, false),
        p + s.num_pairs <= 1,
    ensures
        groupings_from(s, 0).len() > 0,
    decreases count_sum(s.remaining), 1int,
{
    let r = s.remaining;
    if !is_settled(s) {
        let t = first_nonzero(r);
        lemma_lowest_shapes(r);
        let k = r[t];
        let pair = form_pair(s, t);
        let from_pair = if k >= 2 && pair.num_incomplete_groups <= 0 {
            groupings_from(pair, 0)
        } else {
            seq![]
        };
        if exists|i: int| 0 <= i < gs.len() && gs[i] == ShapeGroup::Triplet(t) {
            let i = choose|i: int| 0 <= i < gs.len() && gs[i] == ShapeGroup::Triplet(t);
            lemma_triplet_case(s, gs, m, p, i);
        } else if exists|i: int| 0 <= i < gs.len() && gs[i] == ShapeGroup::Pair(t) {
            let i = choose|i: int| 0 <= i < gs.len() && gs[i] == ShapeGroup::Pair(t);
            lemma_decomposition_remove(r, gs, i, m, p, false);
            crate::hand_shape::lemma_groups_count_nonneg(gs.remove(i), 0);
            assert(k >= 2);
            let g2 = single_tile_group(t, 2);
            assert(take_group(r, g2) =~= remove_group(r, ShapeGroup::Pair(t)));
            assert forall|u: int| 0 <= u < 34 implies #[trigger] g2[u] <= r[u] by {}
            lemma_take_smaller(r, g2, t);
            lemma_child_honors(s, g2, t);
            assert(pair.num_incomplete_groups == 0);
            lemma_completable(pair, gs.remove(i), m, p - 1);
            if k >= 3 {
                let trip = form_group(s, single_tile_group(t, 3), 1, 0, 0);
                assert(groupings_from(s, 0) == groupings_from(trip, 0) + from_pair);
            } else {
                assert(groupings_from(s, 0).len() >= from_pair.len());
            }
        } else {
            assert forall|j: int| 0 <= j < gs.len() implies #[trigger] gs[j] != ShapeGroup::Triplet(t)
                && gs[j] != ShapeGroup::Pair(t) by {}
            if k >= 3 {
                let gs2 = lemma_exchange_sequences(r, gs, m, p, t);
                lemma_triplet_case(s, gs2, m, p, gs2.len() - 1);
            } else {
                let i = lemma_holding_is_sequence(r, gs, m, p, t);
                lemma_decomposition_remove(r, gs, i, m, p, false);
                let gr = run_group(t);
                assert(take_group(r, gr) =~= remove_group(r, ShapeGroup::Sequence(t)));
                assert(spec_can_make_sequence(r, t));
                assert forall|u: int| 0 <= u < 34 implies #[trigger] gr[u] <= r[u] by {}
                lemma_take_smaller(r, gr, t);
                assert forall|h: int| 27 <= h < 34 implies #[trigger] gr[h] == 0 by {}
                lemma_child_honors(s, gr, t);
                let seq_state = form_group(s, gr, 1, 0, 0);
                lemma_completable(seq_state, gs.remove(i), m - 1, p);
                let p1 = groupings_from(seq_state, 0);
                let empty: Seq<GroupingModel> = seq![];
                assert(groupings_from(s, 0) == from_pair + p1 + empty + empty + empty + empty);
            }
        }
    }
}

/// The triplet branch of `lemma_completable`: the split holds the triplet of the lowest tile.
proof fn lemma_triplet_case(s: GroupingModel, gs: Seq<ShapeGroup>, m: int, p: int, i: int)
    requires
        s.remaining.len() == 34,
        forall|h: int| 27 <= h < 34 ==> #[trigger] s.remaining[h] == 0,
        s.num_incomplete_groups == 0,
        s.num_pairs >= 0,
        is_decomposition(s.remaining, gs, m, p, false),
        p + s.num_pairs <= 1,
        !is_settled(s),
        0 <= i < gs.len(),
        gs[i] == ShapeGroup::Triplet(first_nonzero(s.remaining)),
    ensures
        groupings_from(s, 0).len() > 0,
    decreases count_sum(s.remaining), 0int,
{
    let r = s.remaining;
    let t = first_nonzero(r);
    lemma_lowest_shapes(r);
    lemma_decomposition_remove(r, gs, i, m, p, false);
    let g3 = single_tile_group(t, 3);
    assert(r[t] >= 3);
    assert(take_group(r, g3) =~= remove_group(r, ShapeGroup::Triplet(t)));
    assert forall|u: int| 0 <= u < 34 implies #[trigger] g3[u] <= r[u] by {}
    lemma_take_smaller(r, g3, t);
    assert forall|h: int| 27 <= h < 34 implies #[trigger] g3[h] == 0 by {}
    lemma_child_honors(s, g3, t);
    let trip = form_group(s, g3, 1, 0, 0);
    lemma_completable(trip, gs.remove(i), m - 1, p);
    let pair = form_pair(s, t);
    let from_pair = if pair.num_incomplete_groups <= 0 {
        groupings_from(pair, 0)
    } else {
        seq![]
    };
    assert(groupings_from(s, 0) == groupings_from(trip, 0) + from_pair);
}

/// In a split, an honor tile is never held once, nor twice without a pair in the split (only
/// a triplet or a pair can hold it).
proof fn lemma_honor_count_fits(r: Seq<u8>, gs: Seq<ShapeGroup>, m: int, p: int, x: int)
    requires
        is_decomposition(r, gs, m, p, false),
        27 <= x < 34,
    ensures
        r[x] != 1,
        p == 0 ==> r[x] != 2,
{
    if r[x] == 1 || (r[x] == 2 && p == 0) {
        let i = lemma_group_holding(gs, x);
        lemma_decomposition_remove(r, gs, i, m, p, false);
        crate::hand_shape::lemma_groups_count_nonneg(gs.remove(i), 0);
        match gs[i] {
            ShapeGroup::Sequence(j) => {
                assert(starts_sequence(j));
            },
            _ => {},
        }
    }
}

/// Grouping the honor tiles whole keeps a split of the rest: every honor tile of a hand that
/// splits into melds and at most one pair is a triplet or the pair, so no incomplete group is
/// formed and the numbered tiles left split into melds and the pair, if the honors did not take
/// it.
proof fn lemma_honors_completable(c: Seq<u8>, gs: Seq<ShapeGroup>, m: int, p: int, h: int) -> (res: (
    Seq<ShapeGroup>,
    int,
    int,
))
    requires
        c.len() == 34,
        honors_at_most_four(c),
        is_decomposition(c, gs, m, p, false),
        p <= 1,
        27 <= h <= 34,
    ensures
        is_decomposition(group_honors(c, h).remaining, res.0, res.1, res.2, false),
        res.2 + group_honors(c, h).num_pairs <= 1,
        group_honors(c, h).num_incomplete_groups == 0,
        group_honors(c, h).num_pairs >= 0,
    decreases h,
{
    if h == 27 {
        (gs, m, p)
    } else {
        let (gs1, m1, p1) = lemma_honors_completable(c, gs, m, p, h - 1);
        lemma_group_honors(c, h - 1);
        let s = group_honors(c, h - 1);
        let r = s.remaining;
        let x = h - 1;
        let k = c[x];
        assert(r[x] == k);
        crate::hand_shape::lemma_groups_count_nonneg(gs1, 0);
        if k == 0 {
            (gs1, m1, p1)
        } else {
            let i = lemma_group_holding(gs1, x);
            lemma_decomposition_remove(r, gs1, i, m1, p1, false);
            let g = gs1[i];
            let rest = gs1.remove(i);
            crate::hand_shape::lemma_groups_count_nonneg(rest, 0);
            let r1 = remove_group(r, g);
            match g {
                ShapeGroup::Sequence(j) => {
                    assert(starts_sequence(j));
                    assert(false);
                    (gs1, m1, p1)
                },
                ShapeGroup::Quad(j) => {
                    assert(false);
                    (gs1, m1, p1)
                },
                ShapeGroup::Triplet(j) => {
                    assert(j == x);
                    if k == 4 {
                        assert(r1[x] == 1);
                        lemma_honor_count_fits(r1, rest, m1 - 1, p1, x);
                    }
                    assert(k == 3);
                    let g3 = single_tile_group(x, 3);
                    assert(group_honors(c, h) == form_group(s, g3, 1, 0, 0));
                    assert(take_group(r, g3) =~= r1);
                    (rest, m1 - 1, p1)
                },
                ShapeGroup::Pair(j) => {
                    assert(j == x);
                    assert(p1 >= 1);
                    if k == 3 {
                        assert(r1[x] == 1);
                        lemma_honor_count_fits(r1, rest, m1, p1 - 1, x);
                    }
                    if k == 4 {
                        assert(r1[x] == 2);
                        lemma_honor_count_fits(r1, rest, m1, p1 - 1, x);
                    }
                    assert(k == 2);
                    assert(s.num_pairs == 0);
                    let g2 = single_tile_group(x, 2);
                    assert(group_honors(c, h) == form_group(s, g2, 0, 0, 1));
                    assert(take_group(r, g2) =~= r1);
                    (rest, m1, p1 - 1)
                },
            }
        }
    }
}

/// A hand that splits into four melds and a pair has a grouping (see `build_shapes`) without
/// an incomplete group.
pub proof fn law_decomposable_is_grouping_win(c: Seq<u8>)
    requires
        c.len() == 34,
        honors_at_most_four(c),
        is_decomposable(c, 4, 1),
    ensures
        hand_groupings(c, 0).len() > 0,
{
    let gs = choose|gs: Seq<ShapeGroup>| is_decomposition(c, gs, 4, 1, false);
    let res = lemma_honors_completable(c, gs, 4, 1, 34);
    lemma_group_honors(c, 34);
    let start = group_honors(c, 34);
    lemma_completable(start, res.0, res.1, res.2);
}

/// A hand of 14 tiles without an honor tile held four times has a grouping (see
/// `build_shapes`) without an incomplete group exactly when it splits into four melds and a
/// pair.
pub proof fn law_grouping_win_iff_decomposable(c: Seq<u8>)
    requires
        c.len() == 34,
        count_sum(c) == 14,
        honors_at_most_four(c),
        honors_without_quads(c),
    ensures
        hand_groupings(c, 0).len() > 0 <==> is_decomposable(c, 4, 1),
{
    if hand_groupings(c, 0).len() > 0 {
        law_grouping_win_is_decomposable(c);
    }
    if is_decomposable(c, 4, 1) {
        law_decomposable_is_grouping_win(c);
    }
}

} // verus!
