use vstd::prelude::*;

use crate::mahjong_tile::{count_sum, id_rank, is_numbered_id, lemma_count_sum_nonneg, lemma_count_sum_update, valid_id};

verus! {

/// A group of tiles in a decomposition of a hand: a sequence of three consecutive numbered
/// tiles (named by its lowest tile), a triplet, a quad or a pair of one tile.
pub enum ShapeGroup {
    Sequence(int),
    Triplet(int),
    Quad(int),
    Pair(int),
}

/// Whether a tile id may start a sequence: a numbered tile of rank 1-7.
pub open spec fn starts_sequence(id: int) -> bool {
    is_numbered_id(id) && id_rank(id) <= 7
}

/// Whether a group names real tiles.
pub open spec fn group_valid(g: ShapeGroup) -> bool {
    match g {
        ShapeGroup::Sequence(i) => starts_sequence(i),
        ShapeGroup::Triplet(i) => valid_id(i),
        ShapeGroup::Quad(i) => valid_id(i),
        ShapeGroup::Pair(i) => valid_id(i),
    }
}

/// How many copies of tile `t` a group holds.
pub open spec fn group_count(g: ShapeGroup, t: int) -> int {
    match g {
        ShapeGroup::Sequence(i) => if i <= t <= i + 2 {
            1int
        } else {
            0int
        },
        ShapeGroup::Triplet(i) => if t == i {
            3int
        } else {
            0int
        },
        ShapeGroup::Quad(i) => if t == i {
            4int
        } else {
            0int
        },
        ShapeGroup::Pair(i) => if t == i {
            2int
        } else {
            0int
        },
    }
}

pub open spec fn is_pair_group(g: ShapeGroup) -> bool {
    g is Pair
}

/// How many copies of tile `t` a list of groups holds in all.
pub open spec fn groups_count(gs: Seq<ShapeGroup>, t: int) -> int
    decreases gs.len(),
{
    if gs.len() == 0 {
        0
    } else {
        groups_count(gs.drop_last(), t) + group_count(gs.last(), t)
    }
}

/// How many of the groups are pairs.
pub open spec fn num_pair_groups(gs: Seq<ShapeGroup>) -> int
    decreases gs.len(),
{
    if gs.len() == 0 {
        0
    } else {
        num_pair_groups(gs.drop_last()) + if is_pair_group(gs.last()) {
            1int
        } else {
            0int
        }
    }
}

/// `gs` splits the tile counts `c` (one per tile id) into `melds` melds and `pairs` pairs;
/// quads count as melds only when `quads_allowed` holds.
pub open spec fn is_decomposition(
    c: Seq<u8>,
    gs: Seq<ShapeGroup>,
    melds: int,
    pairs: int,
    quads_allowed: bool,
) -> bool {
    &&& c.len() == 34
    &&& (forall|k: int| 0 <= k < gs.len() ==> group_valid(#[trigger] gs[k]))
    &&& (!quads_allowed ==> forall|k: int| 0 <= k < gs.len() ==> !(#[trigger] gs[k] is Quad))
    &&& num_pair_groups(gs) == pairs
    &&& gs.len() == melds + pairs
    &&& forall|t: int| 0 <= t < 34 ==> #[trigger] c[t] == groups_count(gs, t)
}

/// The tile counts `c` can be split into exactly `melds` melds (sequences or triplets) and
/// `pairs` pairs, with every tile used.
pub open spec fn is_decomposable(c: Seq<u8>, melds: int, pairs: int) -> bool {
    exists|gs: Seq<ShapeGroup>| is_decomposition(c, gs, melds, pairs, false)
}

/// As `is_decomposable`, where a quad may also serve as a meld.
pub open spec fn is_decomposable_with_quads(c: Seq<u8>, melds: int, pairs: int) -> bool {
    exists|gs: Seq<ShapeGroup>| is_decomposition(c, gs, melds, pairs, true)
}

/// The counts that remain after taking one group's tiles out.
pub open spec fn remove_group(c: Seq<u8>, g: ShapeGroup) -> Seq<u8> {
    Seq::new(c.len(), |t: int| (c[t] - group_count(g, t)) as u8)
}

pub proof fn lemma_groups_count_push(gs: Seq<ShapeGroup>, g: ShapeGroup, t: int)
    ensures
        groups_count(gs.push(g), t) == groups_count(gs, t) + group_count(g, t),
        num_pair_groups(gs.push(g)) == num_pair_groups(gs) + if is_pair_group(g) {
            1int
        } else {
            0int
        },
{
    assert(gs.push(g).drop_last() =~= gs);
}

pub proof fn lemma_groups_count_nonneg(gs: Seq<ShapeGroup>, t: int)
    ensures
        groups_count(gs, t) >= 0,
        num_pair_groups(gs) >= 0,
        num_pair_groups(gs) <= gs.len(),
    decreases gs.len(),
{
    if gs.len() > 0 {
        lemma_groups_count_nonneg(gs.drop_last(), t);
    }
}

/// Taking out the group at index `k` takes its tiles out of the totals.
pub proof fn lemma_groups_count_remove(gs: Seq<ShapeGroup>, k: int, t: int)
    requires
        0 <= k < gs.len(),
    ensures
        groups_count(gs.remove(k), t) == groups_count(gs, t) - group_count(gs[k], t),
        num_pair_groups(gs.remove(k)) == num_pair_groups(gs) - if is_pair_group(gs[k]) {
            1int
        } else {
            0int
        },
    decreases gs.len(),
{
    if k == gs.len() - 1 {
        assert(gs.remove(k) =~= gs.drop_last());
    } else {
        lemma_groups_count_remove(gs.drop_last(), k, t);
        assert(gs.remove(k) =~= gs.drop_last().remove(k).push(gs.last()));
        lemma_groups_count_push(gs.drop_last().remove(k), gs.last(), t);
    }
}

/// A group of the list that holds tile `t`, when the list holds any copy of it.
pub proof fn lemma_group_holding(gs: Seq<ShapeGroup>, t: int) -> (k: int)
    requires
        groups_count(gs, t) > 0,
    ensures
        0 <= k < gs.len(),
        group_count(gs[k], t) > 0,
    decreases gs.len(),
{
    lemma_groups_count_nonneg(gs, t);
    if gs.len() == 0 {
        0
    } else if group_count(gs.last(), t) > 0 {
        (gs.len() - 1) as int
    } else {
        lemma_group_holding(gs.drop_last(), t)
    }
}

/// Every group holds at least one tile, so an empty hand has only the empty decomposition.
pub proof fn lemma_groups_count_empty(gs: Seq<ShapeGroup>)
    requires
        forall|k: int| 0 <= k < gs.len() ==> group_valid(#[trigger] gs[k]),
        forall|t: int| 0 <= t < 34 ==> groups_count(gs, t) == 0,
    ensures
        gs.len() == 0,
{
    if gs.len() > 0 {
        let g = gs.last();
        let t = match g {
            ShapeGroup::Sequence(i) => i,
            ShapeGroup::Triplet(i) => i,
            ShapeGroup::Quad(i) => i,
            ShapeGroup::Pair(i) => i,
        };
        lemma_groups_count_nonneg(gs.drop_last(), t);
        assert(groups_count(gs, t) > 0);
    }
}

/// Adding a group to a decomposition of the remaining tiles decomposes the whole.
pub proof fn lemma_decomposition_push(
    c: Seq<u8>,
    g: ShapeGroup,
    gs: Seq<ShapeGroup>,
    melds: int,
    pairs: int,
    quads_allowed: bool,
)
    requires
        c.len() == 34,
        group_valid(g),
        quads_allowed || !(g is Quad),
        forall|t: int| 0 <= t < 34 ==> c[t] >= group_count(g, t),
        is_decomposition(remove_group(c, g), gs, melds, pairs, quads_allowed),
    ensures
        is_decomposition(
            c,
            gs.push(g),
            if is_pair_group(g) {
                melds
            } else {
                melds + 1
            },
            if is_pair_group(g) {
                pairs + 1
            } else {
                pairs
            },
            quads_allowed,
        ),
{
    assert forall|t: int| 0 <= t < 34 implies #[trigger] c[t] == groups_count(gs.push(g), t) by {
        lemma_groups_count_push(gs, g, t);
        assert(remove_group(c, g)[t] == groups_count(gs, t));
    }
    lemma_groups_count_push(gs, g, 0);
    assert forall|k: int| 0 <= k < gs.push(g).len() implies group_valid(#[trigger] gs.push(g)[k])
        by {
        if k < gs.len() {
            assert(gs.push(g)[k] == gs[k]);
        }
    }
}

/// Taking a group out of a decomposition decomposes the remaining tiles.
pub proof fn lemma_decomposition_remove(
    c: Seq<u8>,
    gs: Seq<ShapeGroup>,
    k: int,
    melds: int,
    pairs: int,
    quads_allowed: bool,
)
    requires
        is_decomposition(c, gs, melds, pairs, quads_allowed),
        0 <= k < gs.len(),
    ensures
        forall|t: int| 0 <= t < 34 ==> c[t] >= group_count(gs[k], t),
        is_decomposition(
            remove_group(c, gs[k]),
            gs.remove(k),
            if is_pair_group(gs[k]) {
                melds
            } else {
                melds - 1
            },
            if is_pair_group(gs[k]) {
                pairs - 1
            } else {
                pairs
            },
            quads_allowed,
        ),
{
    let g = gs[k];
    let r = gs.remove(k);
    assert forall|t: int| 0 <= t < 34 implies c[t] >= group_count(g, t) by {
        lemma_groups_count_remove(gs, k, t);
        lemma_groups_count_nonneg(r, t);
    }
    assert forall|t: int| 0 <= t < 34 implies #[trigger] remove_group(c, g)[t] == groups_count(
        r,
        t,
    ) by {
        lemma_groups_count_remove(gs, k, t);
        lemma_groups_count_nonneg(r, t);
    }
    lemma_groups_count_remove(gs, k, 0);
    assert forall|j: int| 0 <= j < r.len() implies group_valid(#[trigger] r[j]) by {
        if j < k {
            assert(r[j] == gs[j]);
        } else {
            assert(r[j] == gs[j + 1]);
        }
    }
    if !quads_allowed {
        assert forall|j: int| 0 <= j < r.len() implies !(#[trigger] r[j] is Quad) by {
            if j < k {
                assert(r[j] == gs[j]);
            } else {
                assert(r[j] == gs[j + 1]);
            }
        }
    }
}


/// A hand with no tiles splits into `melds` melds and `pairs` pairs exactly when both are zero.
pub proof fn lemma_empty_decomposable(c: Seq<u8>, melds: int, pairs: int, quads_allowed: bool)
    requires
        c.len() == 34,
        forall|t: int| 0 <= t < 34 ==> c[t] == 0,
        melds >= 0,
        pairs >= 0,
    ensures
        (exists|gs: Seq<ShapeGroup>| is_decomposition(c, gs, melds, pairs, quads_allowed)) <==> (
        melds == 0 && pairs == 0),
{
    if melds == 0 && pairs == 0 {
        let gs: Seq<ShapeGroup> = seq![];
        assert(is_decomposition(c, gs, melds, pairs, quads_allowed));
    }
    if exists|gs: Seq<ShapeGroup>| is_decomposition(c, gs, melds, pairs, quads_allowed) {
        let gs = choose|gs: Seq<ShapeGroup>| #[trigger] is_decomposition(c, gs, melds, pairs, quads_allowed);
        assert forall|t: int| 0 <= t < 34 implies groups_count(gs, t) == 0 by {
            assert(c[t] == groups_count(gs, t));
        }
        lemma_groups_count_empty(gs);
    }
}

/// In a decomposition, the lowest tile present belongs to a group that starts at it.
pub proof fn lemma_lowest_tile_group(
    c: Seq<u8>,
    gs: Seq<ShapeGroup>,
    melds: int,
    pairs: int,
    quads_allowed: bool,
    t: int,
) -> (k: int)
    requires
        is_decomposition(c, gs, melds, pairs, quads_allowed),
        0 <= t < 34,
        c[t] > 0,
        forall|j: int| 0 <= j < t ==> c[j] == 0,
    ensures
        0 <= k < gs.len(),
        gs[k] == ShapeGroup::Sequence(t) || gs[k] == ShapeGroup::Triplet(t) || gs[k]
            == ShapeGroup::Quad(t) || gs[k] == ShapeGroup::Pair(t),
{
    let k = lemma_group_holding(gs, t);
    lemma_decomposition_remove(c, gs, k, melds, pairs, quads_allowed);
    assert(group_valid(gs[k]));
    match gs[k] {
        ShapeGroup::Sequence(i) => {
            if i < t {
                assert(group_count(gs[k], i) == 1);
                assert(c[i] >= 1);
            }
        },
        _ => {},
    }
    k
}


/// How many tiles a group holds.
pub open spec fn group_size(g: ShapeGroup) -> int {
    match g {
        ShapeGroup::Sequence(_) => 3,
        ShapeGroup::Triplet(_) => 3,
        ShapeGroup::Quad(_) => 4,
        ShapeGroup::Pair(_) => 2,
    }
}

/// How many tiles the groups hold in all.
pub open spec fn groups_size(gs: Seq<ShapeGroup>) -> int
    decreases gs.len(),
{
    if gs.len() == 0 {
        0
    } else {
        groups_size(gs.drop_last()) + group_size(gs.last())
    }
}

/// How many of the groups are quads.
pub open spec fn num_quad_groups(gs: Seq<ShapeGroup>) -> int
    decreases gs.len(),
{
    if gs.len() == 0 {
        0
    } else {
        num_quad_groups(gs.drop_last()) + if gs.last() is Quad {
            1int
        } else {
            0int
        }
    }
}

pub proof fn lemma_count_sum_zeros(c: Seq<u8>)
    requires
        forall|t: int| 0 <= t < c.len() ==> c[t] == 0,
    ensures
        count_sum(c) == 0,
    decreases c.len(),
{
    if c.len() > 0 {
        lemma_count_sum_zeros(c.drop_last());
    }
}

/// Taking a group out lowers the tile total by the group's size.
pub proof fn lemma_count_sum_remove_group(c: Seq<u8>, g: ShapeGroup)
    requires
        c.len() == 34,
        group_valid(g),
        forall|t: int| 0 <= t < 34 ==> c[t] >= group_count(g, t),
    ensures
        count_sum(remove_group(c, g)) == count_sum(c) - group_size(g),
{
    match g {
        ShapeGroup::Sequence(i) => {
            let c1 = c.update(i, (c[i] - 1) as u8);
            let c2 = c1.update(i + 1, (c[i + 1] - 1) as u8);
            let c3 = c2.update(i + 2, (c[i + 2] - 1) as u8);
            lemma_count_sum_update(c, i, (c[i] - 1) as u8);
            lemma_count_sum_update(c1, i + 1, (c[i + 1] - 1) as u8);
            lemma_count_sum_update(c2, i + 2, (c[i + 2] - 1) as u8);
            assert(c3 =~= remove_group(c, g));
        },
        ShapeGroup::Triplet(i) => {
            lemma_count_sum_update(c, i, (c[i] - 3) as u8);
            assert(c.update(i, (c[i] - 3) as u8) =~= remove_group(c, g));
        },
        ShapeGroup::Quad(i) => {
            lemma_count_sum_update(c, i, (c[i] - 4) as u8);
            assert(c.update(i, (c[i] - 4) as u8) =~= remove_group(c, g));
        },
        ShapeGroup::Pair(i) => {
            lemma_count_sum_update(c, i, (c[i] - 2) as u8);
            assert(c.update(i, (c[i] - 2) as u8) =~= remove_group(c, g));
        },
    }
}

/// The tile total of a decomposed hand is the total size of its groups, and a decomposition
/// into `melds` melds and `pairs` pairs holds 3 melds + 2 pairs + one more tile per quad.
pub proof fn lemma_decomposition_size(
    c: Seq<u8>,
    gs: Seq<ShapeGroup>,
    melds: int,
    pairs: int,
    quads_allowed: bool,
)
    requires
        is_decomposition(c, gs, melds, pairs, quads_allowed),
    ensures
        count_sum(c) == 3 * melds + 2 * pairs + num_quad_groups(gs),
        num_quad_groups(gs) >= 0,
    decreases gs.len(),
{
    if gs.len() == 0 {
        assert forall|t: int| 0 <= t < c.len() implies c[t] == 0 by {
            assert(c[t] == groups_count(gs, t));
        }
        lemma_count_sum_zeros(c);
    } else {
        let k = gs.len() - 1;
        let g = gs[k];
        lemma_decomposition_remove(c, gs, k, melds, pairs, quads_allowed);
        assert(gs.remove(k) =~= gs.drop_last());
        lemma_count_sum_remove_group(c, g);
        lemma_decomposition_size(
            remove_group(c, g),
            gs.drop_last(),
            if is_pair_group(g) {
                melds
            } else {
                melds - 1
            },
            if is_pair_group(g) {
                pairs - 1
            } else {
                pairs
            },
            quads_allowed,
        );
    }
}

/// A decomposition without quads is a decomposition where quads are not allowed.
pub proof fn lemma_no_quads(c: Seq<u8>, gs: Seq<ShapeGroup>, melds: int, pairs: int)
    requires
        is_decomposition(c, gs, melds, pairs, true),
        num_quad_groups(gs) == 0,
    ensures
        is_decomposition(c, gs, melds, pairs, false),
    decreases gs.len(),
{
    if gs.len() > 0 {
        let k = gs.len() - 1;
        lemma_decomposition_remove(c, gs, k, melds, pairs, true);
        assert(gs.remove(k) =~= gs.drop_last());
        let g = gs[k];
        lemma_quad_count_nonneg(gs.drop_last());
        lemma_no_quads(
            remove_group(c, g),
            gs.drop_last(),
            if is_pair_group(g) {
                melds
            } else {
                melds - 1
            },
            if is_pair_group(g) {
                pairs - 1
            } else {
                pairs
            },
        );
        lemma_decomposition_push(
            c,
            g,
            gs.drop_last(),
            if is_pair_group(g) {
                melds
            } else {
                melds - 1
            },
            if is_pair_group(g) {
                pairs - 1
            } else {
                pairs
            },
            false,
        );
        assert(gs.drop_last().push(g) =~= gs);
    }
}

pub proof fn lemma_quad_count_nonneg(gs: Seq<ShapeGroup>)
    ensures
        num_quad_groups(gs) >= 0,
    decreases gs.len(),
{
    if gs.len() > 0 {
        lemma_quad_count_nonneg(gs.drop_last());
    }
}

/// For a hand of exactly 3 melds + 2 pairs' worth of tiles, allowing quads changes nothing.
pub proof fn lemma_quads_irrelevant(c: Seq<u8>, melds: int, pairs: int)
    requires
        c.len() == 34,
        count_sum(c) == 3 * melds + 2 * pairs,
    ensures
        is_decomposable_with_quads(c, melds, pairs) == is_decomposable(c, melds, pairs),
{
    if is_decomposable_with_quads(c, melds, pairs) {
        let gs = choose|gs: Seq<ShapeGroup>| #[trigger] is_decomposition(c, gs, melds, pairs, true);
        lemma_decomposition_size(c, gs, melds, pairs, true);
        lemma_no_quads(c, gs, melds, pairs);
    }
    if is_decomposable(c, melds, pairs) {
        let gs = choose|gs: Seq<ShapeGroup>| #[trigger] is_decomposition(c, gs, melds, pairs, false);
        assert(is_decomposition(c, gs, melds, pairs, true));
    }
}

/// Whether a tile is held once and has no neighbour it could form a sequence with.
pub open spec fn spec_tile_isolated(c: Seq<u8>, t: int) -> bool {
    &&& c[t] == 1
    &&& (!is_numbered_id(t) || (id_rank(t) == 1 && c[t + 1] == 0) || (id_rank(t) == 9 && c[t
        - 1] == 0) || (2 <= id_rank(t) <= 8 && c[t - 1] == 0 && c[t + 1] == 0))
}

/// An isolated tile fits in no group, so the hand cannot be decomposed.
pub proof fn lemma_isolated_not_decomposable(
    c: Seq<u8>,
    gs: Seq<ShapeGroup>,
    melds: int,
    pairs: int,
    quads_allowed: bool,
    t: int,
)
    requires
        0 <= t < 34,
        spec_tile_isolated(c, t),
    ensures
        !is_decomposition(c, gs, melds, pairs, quads_allowed),
{
    if is_decomposition(c, gs, melds, pairs, quads_allowed) {
        let k = lemma_group_holding(gs, t);
        lemma_decomposition_remove(c, gs, k, melds, pairs, quads_allowed);
        assert(group_valid(gs[k]));
        match gs[k] {
            ShapeGroup::Sequence(i) => {
                if i < t {
                    assert(group_count(gs[k], t - 1) == 1);
                } else {
                    assert(group_count(gs[k], t + 1) == 1);
                }
            },
            _ => {},
        }
    }
}


/// The counts left after taking `k` sequences starting at tile `t` out.
pub open spec fn remove_sequences(c: Seq<u8>, t: int, k: int) -> Seq<u8> {
    Seq::new(
        c.len(),
        |i: int|
            if t <= i <= t + 2 {
                (c[i] - k) as u8
            } else {
                c[i]
            },
    )
}

/// When no triplet, quad or pair starts at the lowest tile of a decomposed hand, every copy of
/// that tile starts a sequence, and taking all those sequences out leaves a decomposable hand.
pub proof fn lemma_only_sequences_at_lowest(
    c: Seq<u8>,
    gs: Seq<ShapeGroup>,
    melds: int,
    pairs: int,
    quads_allowed: bool,
    t: int,
)
    requires
        is_decomposition(c, gs, melds, pairs, quads_allowed),
        0 <= t < 34,
        c[t] > 0,
        forall|j: int| 0 <= j < t ==> c[j] == 0,
        forall|j: int|
            0 <= j < gs.len() ==> #[trigger] gs[j] != ShapeGroup::Triplet(t) && gs[j]
                != ShapeGroup::Quad(t) && gs[j] != ShapeGroup::Pair(t),
    ensures
        starts_sequence(t),
        c[t + 1] >= c[t],
        c[t + 2] >= c[t],
        c[t] <= melds,
        exists|gs2: Seq<ShapeGroup>|
            #[trigger] is_decomposition(
                remove_sequences(c, t, c[t] as int),
                gs2,
                melds - c[t],
                pairs,
                quads_allowed,
            ),
    decreases c[t],
{
    let k = lemma_lowest_tile_group(c, gs, melds, pairs, quads_allowed, t);
    let g = gs[k];
    assert(g == ShapeGroup::Sequence(t));
    lemma_decomposition_remove(c, gs, k, melds, pairs, quads_allowed);
    let c1 = remove_group(c, g);
    let gs1 = gs.remove(k);
    lemma_groups_count_nonneg(gs1, 0);
    assert(group_valid(g));
    if c1[t] == 0 {
        assert(remove_sequences(c, t, c[t] as int) =~= c1);
        assert(is_decomposition(
            remove_sequences(c, t, c[t] as int),
            gs1,
            melds - c[t],
            pairs,
            quads_allowed,
        ));
    } else {
        assert forall|j: int|
            0 <= j < gs1.len() implies #[trigger] gs1[j] != ShapeGroup::Triplet(t) && gs1[j]
            != ShapeGroup::Quad(t) && gs1[j] != ShapeGroup::Pair(t) by {
            if j < k {
                assert(gs1[j] == gs[j]);
            } else {
                assert(gs1[j] == gs[j + 1]);
            }
        }
        lemma_only_sequences_at_lowest(c1, gs1, melds - 1, pairs, quads_allowed, t);
        assert(remove_sequences(c1, t, c1[t] as int) =~= remove_sequences(c, t, c[t] as int));
        let gs2 = choose|gs2: Seq<ShapeGroup>|
            #[trigger] is_decomposition(
                remove_sequences(c1, t, c1[t] as int),
                gs2,
                melds - 1 - c1[t],
                pairs,
                quads_allowed,
            );
        assert(is_decomposition(
            remove_sequences(c, t, c[t] as int),
            gs2,
            melds - c[t],
            pairs,
            quads_allowed,
        ));
    }
}

/// In a hand with at most one pair, the copies (at most four) of an honor tile form exactly one
/// group: a pair of two, a triplet of three or a quad of four.
pub proof fn lemma_honor_group(
    c: Seq<u8>,
    gs: Seq<ShapeGroup>,
    melds: int,
    pairs: int,
    quads_allowed: bool,
    h: int,
)
    requires
        is_decomposition(c, gs, melds, pairs, quads_allowed),
        27 <= h < 34,
        0 < c[h] <= 4,
        pairs <= 1,
    ensures
        ({
            let rest = c.update(h, 0);
            ||| (c[h] == 2 && pairs >= 1 && exists|gs2: Seq<ShapeGroup>|
                #[trigger] is_decomposition(rest, gs2, melds, pairs - 1, quads_allowed))
            ||| (c[h] == 3 && melds >= 1 && exists|gs2: Seq<ShapeGroup>|
                #[trigger] is_decomposition(rest, gs2, melds - 1, pairs, quads_allowed))
            ||| (c[h] == 4 && melds >= 1 && exists|gs2: Seq<ShapeGroup>|
                #[trigger] is_decomposition(rest, gs2, melds - 1, pairs, quads_allowed))
        }),
{
    let k = lemma_group_holding(gs, h);
    let g = gs[k];
    lemma_decomposition_remove(c, gs, k, melds, pairs, quads_allowed);
    assert(group_valid(g));
    let c1 = remove_group(c, g);
    let gs1 = gs.remove(k);
    lemma_groups_count_nonneg(gs1, 0);
    if c1[h] == 0 {
        assert(c1 =~= c.update(h, 0));
    } else {
        assert(c1[h] == groups_count(gs1, h));
        let k2 = lemma_group_holding(gs1, h);
        let g2 = gs1[k2];
        lemma_decomposition_remove(
            c1,
            gs1,
            k2,
            if is_pair_group(g) {
                melds
            } else {
                melds - 1
            },
            if is_pair_group(g) {
                pairs - 1
            } else {
                pairs
            },
            quads_allowed,
        );
        assert(group_valid(g2));
        lemma_groups_count_nonneg(gs1.remove(k2), 0);
    }
}


/// Putting `k` sequences starting at tile `t` back into a decomposed hand keeps it decomposable.
pub proof fn lemma_push_sequences(
    c: Seq<u8>,
    t: int,
    k: int,
    gs: Seq<ShapeGroup>,
    melds: int,
    pairs: int,
    quads_allowed: bool,
)
    requires
        c.len() == 34,
        starts_sequence(t),
        0 <= k,
        c[t] >= k,
        c[t + 1] >= k,
        c[t + 2] >= k,
        is_decomposition(remove_sequences(c, t, k), gs, melds, pairs, quads_allowed),
    ensures
        exists|gs2: Seq<ShapeGroup>|
            #[trigger] is_decomposition(c, gs2, melds + k, pairs, quads_allowed),
    decreases k,
{
    if k == 0 {
        assert(remove_sequences(c, t, k) =~= c);
        assert(is_decomposition(c, gs, melds + k, pairs, quads_allowed));
    } else {
        let g = ShapeGroup::Sequence(t);
        let c1 = remove_sequences(c, t, k - 1);
        assert(remove_group(c1, g) =~= remove_sequences(c, t, k));
        lemma_decomposition_push(c1, g, gs, melds, pairs, quads_allowed);
        lemma_push_sequences(c, t, k - 1, gs.push(g), melds + 1, pairs, quads_allowed);
        let gs2 = choose|gs2: Seq<ShapeGroup>|
            #[trigger] is_decomposition(c, gs2, melds + 1 + (k - 1), pairs, quads_allowed);
        assert(melds + 1 + (k - 1) == melds + k);
        assert(is_decomposition(c, gs2, melds + k, pairs, quads_allowed));
    }
}


/// Whether every honor tile is held at most four times.
pub open spec fn honors_at_most_four(c: Seq<u8>) -> bool {
    forall|h: int| 27 <= h < 34 ==> #[trigger] c[h] <= 4
}

/// Taking out all copies (two to four) of an honor tile: the hand decomposes exactly when the
/// rest decomposes with one pair (two copies) or one meld (three or four copies) fewer.
pub proof fn lemma_honor_step(c: Seq<u8>, melds: int, pairs: int, h: int)
    requires
        c.len() == 34,
        27 <= h < 34,
        2 <= c[h] <= 4,
        pairs <= 1,
    ensures
        c[h] == 2 ==> (is_decomposable_with_quads(c, melds, pairs) <==> (pairs >= 1
            && is_decomposable_with_quads(c.update(h, 0), melds, pairs - 1))),
        c[h] >= 3 ==> (is_decomposable_with_quads(c, melds, pairs) <==> (melds >= 1
            && is_decomposable_with_quads(c.update(h, 0), melds - 1, pairs))),
{
    let rest = c.update(h, 0);
    if is_decomposable_with_quads(c, melds, pairs) {
        let gs = choose|gs: Seq<ShapeGroup>| #[trigger] is_decomposition(c, gs, melds, pairs, true);
        lemma_honor_group(c, gs, melds, pairs, true, h);
    }
    let g = if c[h] == 2 {
        ShapeGroup::Pair(h)
    } else if c[h] == 3 {
        ShapeGroup::Triplet(h)
    } else {
        ShapeGroup::Quad(h)
    };
    assert(remove_group(c, g) =~= rest);
    if c[h] == 2 && pairs >= 1 && is_decomposable_with_quads(rest, melds, pairs - 1) {
        let gs = choose|gs: Seq<ShapeGroup>|
            #[trigger] is_decomposition(rest, gs, melds, pairs - 1, true);
        lemma_decomposition_push(c, g, gs, melds, pairs - 1, true);
    }
    if c[h] >= 3 && melds >= 1 && is_decomposable_with_quads(rest, melds - 1, pairs) {
        let gs = choose|gs: Seq<ShapeGroup>|
            #[trigger] is_decomposition(rest, gs, melds - 1, pairs, true);
        lemma_decomposition_push(c, g, gs, melds - 1, pairs, true);
    }
}

} // verus!
