use vstd::prelude::*;

use crate::mahjong_tile::{id_rank, valid_id, MahjongTileId};
use crate::scoring::pairs_with_winning_tile;
use crate::shanten::{
    shape_completions, shape_ids, spec_is_complete, tid, tile_meld_wf, HandInterpretation,
    MeldType, TileMeld,
};

verus! {

/// The lowest tile of a meld.
pub open spec fn first_tile(m: TileMeld) -> int {
    m.tile_ids@[0].0 as int
}

/// A well-formed meld holds the tiles of its kind, from its lowest tile up.
pub proof fn lemma_meld_shape(m: TileMeld)
    requires
        tile_meld_wf(m),
    ensures
        m.tile_ids@ == shape_ids(m.meld_type, first_tile(m)),
{
    let s = m.tile_ids@;
    let t = first_tile(m);
    match m.meld_type {
        MeldType::SingleTile => {
            assert(s =~= seq![tid(t)]);
        },
        MeldType::Pair => {
            assert(s[1] == s[0]);
            assert(s =~= seq![tid(t), tid(t)]);
        },
        MeldType::Triplet => {
            assert(s[1] == s[0] && s[2] == s[0]);
            assert(s =~= seq![tid(t), tid(t), tid(t)]);
        },
        MeldType::Quadruplet => {
            assert(s[1] == s[0] && s[2] == s[0] && s[3] == s[0]);
            assert(s =~= seq![tid(t), tid(t), tid(t), tid(t)]);
        },
        MeldType::Sequence => {
            assert(s =~= seq![tid(t), tid(t + 1), tid(t + 2)]);
        },
        MeldType::Ryanmen => {
            assert(s =~= seq![tid(t), tid(t + 1)]);
        },
        MeldType::Penchan => {
            assert(s =~= seq![tid(t), tid(t + 1)]);
        },
        MeldType::Kanchan => {
            assert(s =~= seq![tid(t), tid(t + 2)]);
        },
    }
}

/// The kind of two-tile wait that the numbered tile `t` forms with the next one.
pub open spec fn two_kind(t: int) -> MeldType {
    if id_rank(t) == 1 || id_rank(t) == 8 {
        MeldType::Penchan
    } else {
        MeldType::Ryanmen
    }
}

/// The group (kind and lowest tile) that tile `w` forms with a group of kind `k` whose lowest
/// tile is `t`, `w` being one of the tiles that advance it.
pub open spec fn advanced_group(k: MeldType, t: int, w: int) -> (MeldType, int) {
    match k {
        MeldType::SingleTile => if w == t {
            (MeldType::Pair, t)
        } else if w == t + 1 {
            (two_kind(t), t)
        } else if w == t + 2 {
            (MeldType::Kanchan, t)
        } else if w == t - 1 {
            (two_kind(w), w)
        } else {
            (MeldType::Kanchan, w)
        },
        MeldType::Pair => (MeldType::Triplet, t),
        MeldType::Ryanmen => if w < t {
            (MeldType::Sequence, w)
        } else {
            (MeldType::Sequence, t)
        },
        MeldType::Penchan => if w < t {
            (MeldType::Sequence, w)
        } else {
            (MeldType::Sequence, t)
        },
        MeldType::Kanchan => (MeldType::Sequence, t),
        _ => (k, t),
    }
}

/// A meld of kind `k` whose lowest tile is `t`.
fn make_meld(k: MeldType, t: u8) -> (r: TileMeld)
    requires
        t < 34,
    ensures
        r.meld_type == k,
        r.tile_ids@ == shape_ids(k, t as int),
{
    let a = MahjongTileId(t);
    let ids = match k {
        MeldType::Triplet => vec![a, a, a],
        MeldType::Quadruplet => vec![a, a, a, a],
        MeldType::Sequence => vec![a, MahjongTileId(t + 1), MahjongTileId(t + 2)],
        MeldType::Pair => vec![a, a],
        MeldType::Ryanmen => vec![a, MahjongTileId(t + 1)],
        MeldType::Penchan => vec![a, MahjongTileId(t + 1)],
        MeldType::Kanchan => vec![a, MahjongTileId(t + 2)],
        MeldType::SingleTile => vec![a],
    };
    assert(ids@ =~= shape_ids(k, t as int));
    TileMeld { meld_type: k, tile_ids: ids }
}

/// The meld that tile `w` forms with the meld `m` it advances (see `advanced_group`).
fn advance_meld(m: &TileMeld, w: MahjongTileId) -> (r: TileMeld)
    requires
        tile_meld_wf(*m),
        valid_id(w.0 as int),
        shape_completions(m.meld_type, first_tile(*m)).contains(w),
    ensures
        r.meld_type == advanced_group(m.meld_type, first_tile(*m), w.0 as int).0,
        r.tile_ids@ == shape_ids(
            advanced_group(m.meld_type, first_tile(*m), w.0 as int).0,
            advanced_group(m.meld_type, first_tile(*m), w.0 as int).1,
        ),
{
    let t = m.tile_ids[0].0;
    let ghost c = shape_completions(m.meld_type, t as int);
    let ghost i = choose|i: int| 0 <= i < c.len() && c[i] == w;
    proof {
        assert(c[i] == w);
    }
    let (kind, first) = match m.meld_type {
        MeldType::SingleTile => {
            if w.0 == t {
                (MeldType::Pair, t)
            } else if w.0 == t + 1 {
                if t % 9 == 0 || t % 9 == 7 {
                    (MeldType::Penchan, t)
                } else {
                    (MeldType::Ryanmen, t)
                }
            } else if w.0 == t + 2 {
                (MeldType::Kanchan, t)
            } else if w.0 + 1 == t {
                if w.0 % 9 == 0 || w.0 % 9 == 7 {
                    (MeldType::Penchan, w.0)
                } else {
                    (MeldType::Ryanmen, w.0)
                }
            } else {
                (MeldType::Kanchan, w.0)
            }
        },
        MeldType::Pair => (MeldType::Triplet, t),
        MeldType::Ryanmen => if w.0 < t {
            (MeldType::Sequence, w.0)
        } else {
            (MeldType::Sequence, t)
        },
        MeldType::Penchan => if w.0 < t {
            (MeldType::Sequence, w.0)
        } else {
            (MeldType::Sequence, t)
        },
        MeldType::Kanchan => (MeldType::Sequence, t),
        _ => (m.meld_type, t),
    };
    make_meld(kind, first)
}

/// A group of the winning hand: its kind, its lowest tile, and whether it is closed.
pub type GroupModel = (MeldType, int, bool);

/// What a group of the hand becomes once the winning tile `w` arrives, in a hand that is not
/// seven pairs, with how many complete groups and pairs it adds: a complete group stays (and is
/// closed); a single tile that `w` advances joins it (a pair, counted as such); an incomplete
/// group that `w` completes becomes complete; a pair stays; anything else is left out. A group
/// that `w` joins is closed when the winning tile is.
pub open spec fn regular_step(m: TileMeld, w: MahjongTileId, src_closed: bool) -> (
    Option<GroupModel>,
    int,
    int,
) {
    let k = m.meld_type;
    let t = first_tile(m);
    let g = advanced_group(k, t, w.0 as int);
    if spec_is_complete(k) {
        (Some((k, t, true)), 1, 0)
    } else if k == MeldType::SingleTile && shape_completions(k, t).contains(w) {
        (Some((g.0, g.1, src_closed)), 0, 1)
    } else if shape_completions(k, t).contains(w) {
        (Some((g.0, g.1, src_closed)), 1, 0)
    } else if k == MeldType::Pair {
        (Some((k, t, true)), 0, 1)
    } else {
        (None, 0, 0)
    }
}

/// The groups of a hand that is not seven pairs once the winning tile arrives (see
/// `regular_step`), with the number of complete groups and of pairs.
pub open spec fn regular_groups(ms: Seq<TileMeld>, w: MahjongTileId, src_closed: bool) -> (
    Seq<GroupModel>,
    int,
    int,
)
    decreases ms.len(),
{
    if ms.len() == 0 {
        (seq![], 0, 0)
    } else {
        let prev = regular_groups(ms.drop_last(), w, src_closed);
        let step = regular_step(ms.last(), w, src_closed);
        (
            match step.0 {
                Some(g) => prev.0.push(g),
                None => prev.0,
            },
            prev.1 + step.1,
            prev.2 + step.2,
        )
    }
}

/// What a group of a seven-pairs hand becomes once the winning tile `w` arrives, with how many
/// pairs it adds: a pair stays (closed); a single tile that `w` advances joins it; anything
/// else is left out.
pub open spec fn chiitoi_step(m: TileMeld, w: MahjongTileId, src_closed: bool) -> (
    Option<GroupModel>,
    int,
) {
    let k = m.meld_type;
    let t = first_tile(m);
    let g = advanced_group(k, t, w.0 as int);
    if k == MeldType::Pair {
        (Some((k, t, true)), 1)
    } else if k == MeldType::SingleTile && shape_completions(k, t).contains(w) {
        (Some((g.0, g.1, src_closed)), 1)
    } else {
        (None, 0)
    }
}

/// The groups of a seven-pairs hand once the winning tile arrives (see `chiitoi_step`), with
/// the number of pairs.
pub open spec fn chiitoi_groups(ms: Seq<TileMeld>, w: MahjongTileId, src_closed: bool) -> (
    Seq<GroupModel>,
    int,
)
    decreases ms.len(),
{
    if ms.len() == 0 {
        (seq![], 0)
    } else {
        let prev = chiitoi_groups(ms.drop_last(), w, src_closed);
        let step = chiitoi_step(ms.last(), w, src_closed);
        (
            match step.0 {
                Some(g) => prev.0.push(g),
                None => prev.0,
            },
            prev.1 + step.1,
        )
    }
}

/// The groups of the winning hand: for seven pairs, the seven pairs; otherwise four complete
/// groups and one pair. None when the groups do not add up to that.
pub open spec fn spec_total_groups(ms: Seq<TileMeld>, w: MahjongTileId, src_closed: bool) -> Option<
    Seq<GroupModel>,
> {
    if pairs_with_winning_tile(ms, w) == 7 {
        let c = chiitoi_groups(ms, w, src_closed);
        if c.1 == 7 {
            Some(c.0)
        } else {
            None
        }
    } else {
        let r = regular_groups(ms, w, src_closed);
        if r.1 == 4 && r.2 == 1 {
            Some(r.0)
        } else {
            None
        }
    }
}

/// The melds (each with its closedness) hold the group models, one for one.
pub open spec fn groups_match(v: Seq<(TileMeld, bool)>, gs: Seq<GroupModel>) -> bool {
    &&& v.len() == gs.len()
    &&& forall|i: int|
        0 <= i < v.len() ==> {
            &&& (#[trigger] v[i]).0.meld_type == gs[i].0
            &&& v[i].0.tile_ids@ == shape_ids(gs[i].0, gs[i].1)
            &&& v[i].1 == gs[i].2
            &&& 0 <= gs[i].1 < 256
        }
}

proof fn lemma_groups_match_push(v: Seq<(TileMeld, bool)>, gs: Seq<GroupModel>, m: TileMeld, b: bool, g: GroupModel)
    requires
        groups_match(v, gs),
        m.meld_type == g.0,
        m.tile_ids@ == shape_ids(g.0, g.1),
        b == g.2,
        0 <= g.1 < 256,
    ensures
        groups_match(v.push((m, b)), gs.push(g)),
{
    assert forall|i: int| 0 <= i < v.len() + 1 implies {
        &&& (#[trigger] v.push((m, b))[i]).0.meld_type == gs.push(g)[i].0
        &&& v.push((m, b))[i].0.tile_ids@ == shape_ids(gs.push(g)[i].0, gs.push(g)[i].1)
        &&& v.push((m, b))[i].1 == gs.push(g)[i].2
        &&& 0 <= gs.push(g)[i].1 < 256
    } by {
        if i < v.len() {
            assert(v.push((m, b))[i] == v[i]);
            assert(gs.push(g)[i] == gs[i]);
        }
    }
}

/// The groups of the winning hand once the winning tile joins the hand (see
/// `spec_total_groups`), each with whether it is closed; None when they do not make a winning
/// hand of four complete groups and a pair, or of seven pairs.
pub(crate) fn get_total_groups_after_winning_tile(
    hand_interpretation: &HandInterpretation,
    winning_tile: MahjongTileId,
    winning_tile_is_closed: bool,
) -> (r: Option<Vec<(TileMeld, bool)>>)
    requires
        hand_interpretation.wf(),
        valid_id(winning_tile.0 as int),
    ensures
        r is Some <==> spec_total_groups(
            hand_interpretation.groups@,
            winning_tile,
            winning_tile_is_closed,
        ) is Some,
        r matches Some(v) ==> groups_match(
            v@,
            spec_total_groups(hand_interpretation.groups@, winning_tile, winning_tile_is_closed)->Some_0,
        ),
{
    let ghost ms = hand_interpretation.groups@;
    let groups = &hand_interpretation.groups;
    let w = winning_tile;
    let src = winning_tile_is_closed;
    if crate::scoring::ChiitoiYaku::is_chiitoi_hand(hand_interpretation, w) {
        let mut chiitoi_tile_melds: Vec<(TileMeld, bool)> = Vec::new();
        let mut num_pairs: usize = 0;
        let mut i: usize = 0;
        while i < groups.len()
            invariant
                i <= ms.len(),
                ms == groups@,
                ms == hand_interpretation.groups@,
                hand_interpretation.wf(),
                valid_id(w.0 as int),
                groups_match(chiitoi_tile_melds@, chiitoi_groups(ms.take(i as int), w, src).0),
                num_pairs == chiitoi_groups(ms.take(i as int), w, src).1,
                num_pairs <= i,
            decreases ms.len() - i,
        {
            proof {
                assert(ms.take(i + 1).drop_last() =~= ms.take(i as int));
                assert(ms.take(i + 1).last() == ms[i as int]);
                assert(crate::shanten::melds_wf(hand_interpretation.groups@));
                assert(tile_meld_wf(hand_interpretation.groups@[i as int]));
                lemma_meld_shape(ms[i as int]);
            }
            let tile_meld = &groups[i];
            if tile_meld.meld_type == MeldType::Pair {
                proof {
                    lemma_groups_match_push(
                        chiitoi_tile_melds@,
                        chiitoi_groups(ms.take(i as int), w, src).0,
                        *tile_meld,
                        true,
                        (MeldType::Pair, first_tile(*tile_meld), true),
                    );
                }
                num_pairs += 1;
                chiitoi_tile_melds.push((tile_meld.duplicate(), true));
            } else if tile_meld.meld_type == MeldType::SingleTile && crate::shanten::ids_contain(
                &tile_meld.tile_ids_to_complete_group(),
                w,
            ) {
                let new_tile_meld = advance_meld(tile_meld, w);
                proof {
                    let g = advanced_group(tile_meld.meld_type, first_tile(*tile_meld), w.0 as int);
                    lemma_groups_match_push(
                        chiitoi_tile_melds@,
                        chiitoi_groups(ms.take(i as int), w, src).0,
                        new_tile_meld,
                        src,
                        (g.0, g.1, src),
                    );
                }
                num_pairs += 1;
                chiitoi_tile_melds.push((new_tile_meld, src));
            }
            i += 1;
        }
        assert(ms.take(i as int) =~= ms);
        if num_pairs != 7 {
            return None;
        }
        return Some(chiitoi_tile_melds);
    }
    let mut new_tile_melds: Vec<(TileMeld, bool)> = Vec::new();
    let mut complete_groups: usize = 0;
    let mut num_pairs: usize = 0;
    let mut i: usize = 0;
    while i < groups.len()
        invariant
            i <= ms.len(),
            ms == groups@,
            ms == hand_interpretation.groups@,
            hand_interpretation.wf(),
            valid_id(w.0 as int),
            groups_match(new_tile_melds@, regular_groups(ms.take(i as int), w, src).0),
            complete_groups == regular_groups(ms.take(i as int), w, src).1,
            num_pairs == regular_groups(ms.take(i as int), w, src).2,
            complete_groups + num_pairs <= i,
        decreases ms.len() - i,
    {
        proof {
            assert(ms.take(i + 1).drop_last() =~= ms.take(i as int));
            assert(ms.take(i + 1).last() == ms[i as int]);
            assert(crate::shanten::melds_wf(hand_interpretation.groups@));
            assert(tile_meld_wf(hand_interpretation.groups@[i as int]));
            lemma_meld_shape(ms[i as int]);
        }
        let tile_meld = &groups[i];
        let ghost k = tile_meld.meld_type;
        let ghost t = first_tile(*tile_meld);
        let ghost prev = regular_groups(ms.take(i as int), w, src).0;
        if tile_meld.is_complete() {
            proof {
                lemma_groups_match_push(new_tile_melds@, prev, *tile_meld, true, (k, t, true));
            }
            complete_groups += 1;
            new_tile_melds.push((tile_meld.duplicate(), true));
        } else {
            let advancing = tile_meld.tile_ids_to_complete_group();
            let advances = crate::shanten::ids_contain(&advancing, w);
            if tile_meld.meld_type == MeldType::SingleTile && advances {
                let new_tile_meld = advance_meld(tile_meld, w);
                proof {
                    let g = advanced_group(k, t, w.0 as int);
                    lemma_groups_match_push(new_tile_melds@, prev, new_tile_meld, src, (g.0, g.1, src));
                }
                num_pairs += 1;
                new_tile_melds.push((new_tile_meld, src));
            } else if advances {
                let new_tile_meld = advance_meld(tile_meld, w);
                proof {
                    let g = advanced_group(k, t, w.0 as int);
                    lemma_groups_match_push(new_tile_melds@, prev, new_tile_meld, src, (g.0, g.1, src));
                }
                complete_groups += 1;
                new_tile_melds.push((new_tile_meld, src));
            } else if tile_meld.meld_type == MeldType::Pair {
                proof {
                    lemma_groups_match_push(new_tile_melds@, prev, *tile_meld, true, (k, t, true));
                }
                num_pairs += 1;
                new_tile_melds.push((tile_meld.duplicate(), true));
            }
        }
        i += 1;
    }
    assert(ms.take(i as int) =~= ms);
    if complete_groups != 4 || num_pairs != 1 {
        return None;
    }
    Some(new_tile_melds)
}

proof fn lemma_regular_groups_len(ms: Seq<TileMeld>, w: MahjongTileId, src_closed: bool)
    ensures
        regular_groups(ms, w, src_closed).0.len() == regular_groups(ms, w, src_closed).1
            + regular_groups(ms, w, src_closed).2,
        regular_groups(ms, w, src_closed).1 >= 0,
        regular_groups(ms, w, src_closed).2 >= 0,
    decreases ms.len(),
{
    if ms.len() > 0 {
        lemma_regular_groups_len(ms.drop_last(), w, src_closed);
    }
}

proof fn lemma_chiitoi_groups_len(ms: Seq<TileMeld>, w: MahjongTileId, src_closed: bool)
    ensures
        chiitoi_groups(ms, w, src_closed).0.len() == chiitoi_groups(ms, w, src_closed).1,
    decreases ms.len(),
{
    if ms.len() > 0 {
        lemma_chiitoi_groups_len(ms.drop_last(), w, src_closed);
    }
}

/// A winning hand has at most seven groups (seven pairs, or four groups and a pair).
pub proof fn lemma_total_groups_len(ms: Seq<TileMeld>, w: MahjongTileId, src_closed: bool)
    ensures
        spec_total_groups(ms, w, src_closed) matches Some(gs) ==> gs.len() <= 7,
{
    lemma_regular_groups_len(ms, w, src_closed);
    lemma_chiitoi_groups_len(ms, w, src_closed);
}

} // verus!
