use vstd::prelude::*;

use crate::mahjong_tile::MahjongTileId;
use crate::scoring::winning_groups::{
    first_tile, get_total_groups_after_winning_tile, groups_match, spec_total_groups, GroupModel,
};
use crate::scoring::{
    is_dragon_id, is_honor_id, is_terminal_id, spec_is_double_yakuhai_tile, spec_is_honroutou,
    spec_is_yakuhai_tile, yaku_inputs_ok, HandInfo, HonroutouYaku, WinningTileInfo,
    WinningTileSource, Yaku, YakuhaiYaku,
};
use crate::shanten::{shape_ids, HandInterpretation, MeldType, TileMeld};

verus! {

/// The winning tile keeps its group closed: a self-draw, or the draw after a kan.
pub open spec fn source_closed(s: WinningTileSource) -> bool {
    s is SelfDraw || s is AfterKan
}

/// The groups of the winning hand (see `spec_total_groups`).
pub open spec fn winning_groups(
    hand_interpretation: HandInterpretation,
    winning_tile: MahjongTileId,
    winning_tile_info: WinningTileInfo,
) -> Option<Seq<GroupModel>> {
    spec_total_groups(
        hand_interpretation.groups@,
        winning_tile,
        source_closed(winning_tile_info.source),
    )
}

/// A triplet or a quad.
pub open spec fn is_set_kind(k: MeldType) -> bool {
    k is Triplet || k is Quadruplet
}

/// How many groups are triplets or quads.
pub open spec fn num_sets(gs: Seq<GroupModel>) -> int
    decreases gs.len(),
{
    if gs.len() == 0 {
        0
    } else {
        num_sets(gs.drop_last()) + if is_set_kind(gs.last().0) {
            1int
        } else {
            0int
        }
    }
}

/// How many groups are closed triplets or closed quads.
pub open spec fn num_closed_sets(gs: Seq<GroupModel>) -> int
    decreases gs.len(),
{
    if gs.len() == 0 {
        0
    } else {
        num_closed_sets(gs.drop_last()) + if is_set_kind(gs.last().0) && gs.last().2 {
            1int
        } else {
            0int
        }
    }
}

/// How many groups are quads.
pub open spec fn num_quad_groups(gs: Seq<GroupModel>) -> int
    decreases gs.len(),
{
    if gs.len() == 0 {
        0
    } else {
        num_quad_groups(gs.drop_last()) + if gs.last().0 is Quadruplet {
            1int
        } else {
            0int
        }
    }
}

/// How many declared melds are quads.
pub open spec fn num_quad_melds(ms: Seq<TileMeld>) -> int
    decreases ms.len(),
{
    if ms.len() == 0 {
        0
    } else {
        num_quad_melds(ms.drop_last()) + if ms.last().meld_type is Quadruplet {
            1int
        } else {
            0int
        }
    }
}

/// The han a group is worth as yakuhai: a triplet or quad of a dragon is worth 1, of a wind
/// that is both the round and the seat wind 2, of the round or the seat wind 1.
pub open spec fn group_yakuhai_han(g: GroupModel, info: HandInfo) -> int {
    if is_set_kind(g.0) {
        if is_dragon_id(g.1) {
            1
        } else if spec_is_double_yakuhai_tile(g.1, info.round_wind, info.seat_wind) {
            2
        } else if spec_is_yakuhai_tile(g.1, info.round_wind, info.seat_wind) {
            1
        } else {
            0
        }
    } else {
        0
    }
}

/// The han of all groups as yakuhai.
pub open spec fn groups_yakuhai_han(gs: Seq<GroupModel>, info: HandInfo) -> int
    decreases gs.len(),
{
    if gs.len() == 0 {
        0
    } else {
        groups_yakuhai_han(gs.drop_last(), info) + group_yakuhai_han(gs.last(), info)
    }
}

/// How many groups are sequences starting at tile `t`.
pub open spec fn seq_count(gs: Seq<GroupModel>, t: int) -> int
    decreases gs.len(),
{
    if gs.len() == 0 {
        0
    } else {
        seq_count(gs.drop_last(), t) + if gs.last().0 is Sequence && gs.last().1 == t {
            1int
        } else {
            0int
        }
    }
}

/// Some group is a triplet or quad (`sets`) or a sequence (`!sets`) starting at tile `t`.
pub open spec fn has_group_at(gs: Seq<GroupModel>, sets: bool, t: int) -> bool {
    exists|i: int|
        0 <= i < gs.len() && (if sets {
            is_set_kind(gs[i].0)
        } else {
            gs[i].0 is Sequence
        }) && #[trigger] gs[i].1 == t
}

/// Some sequence of the groups appears twice.
pub open spec fn has_double_sequence(gs: Seq<GroupModel>) -> bool {
    exists|i: int| 0 <= i < gs.len() && gs[i].0 is Sequence && seq_count(gs, #[trigger] gs[i].1) >= 2
}

/// Two different sequences of the groups each appear twice.
pub open spec fn has_two_double_sequences(gs: Seq<GroupModel>) -> bool {
    exists|i: int, j: int|
        0 <= i < gs.len() && 0 <= j < gs.len() && gs[i].0 is Sequence && gs[j].0 is Sequence
            && gs[i].1 != gs[j].1 && seq_count(gs, #[trigger] gs[i].1) >= 2 && seq_count(
            gs,
            #[trigger] gs[j].1,
        ) >= 2
}

/// The same triplets (`sets`) or sequences (`!sets`) in all three numbered suits: the groups
/// start at the same rank `r` of the three suits.
pub open spec fn spec_sanshoku(gs: Seq<GroupModel>, sets: bool) -> bool {
    exists|r: int|
        0 <= r < 9 && #[trigger] has_group_at(gs, sets, r) && has_group_at(gs, sets, 9 + r)
            && has_group_at(gs, sets, 18 + r)
}

/// The straight 123-456-789 in one numbered suit (starting at id `b` of the suit).
pub open spec fn spec_ittsu(gs: Seq<GroupModel>) -> bool {
    exists|b: int|
        (b == 0 || b == 9 || b == 18) && #[trigger] has_group_at(gs, false, b) && has_group_at(
            gs,
            false,
            b + 3,
        ) && has_group_at(gs, false, b + 6)
}

/// The group holds a terminal (`with_honors`: a terminal or an honor).
pub open spec fn group_has_outside_tile(g: GroupModel, with_honors: bool) -> bool {
    exists|j: int|
        0 <= j < shape_ids(g.0, g.1).len() && (is_terminal_id(
            (#[trigger] shape_ids(g.0, g.1)[j]).0 as int,
        ) || (with_honors && is_honor_id(shape_ids(g.0, g.1)[j].0 as int)))
}

/// Every group holds a terminal (`with_honors`: a terminal or an honor).
pub open spec fn every_group_has_outside_tile(gs: Seq<GroupModel>, with_honors: bool) -> bool {
    forall|i: int| 0 <= i < gs.len() ==> group_has_outside_tile(#[trigger] gs[i], with_honors)
}

/// Every group of the winning hand holds a terminal.
pub open spec fn spec_is_junchan(
    hand_interpretation: HandInterpretation,
    winning_tile: MahjongTileId,
    winning_tile_info: WinningTileInfo,
) -> bool {
    winning_groups(hand_interpretation, winning_tile, winning_tile_info) matches Some(gs)
        && every_group_has_outside_tile(gs, false)
}

/// Every group of the winning hand is a triplet or quad.
pub open spec fn spec_is_toitoi(
    hand_interpretation: HandInterpretation,
    winning_tile: MahjongTileId,
    winning_tile_info: WinningTileInfo,
) -> bool {
    winning_groups(hand_interpretation, winning_tile, winning_tile_info) matches Some(gs)
        && num_sets(gs) == 4
}

/// A closed hand with two different sequences each held twice.
pub open spec fn spec_is_ryanpeikou(
    hand_interpretation: HandInterpretation,
    winning_tile: MahjongTileId,
    hand_info: HandInfo,
    winning_tile_info: WinningTileInfo,
) -> bool {
    &&& hand_info.hand_state is Closed
    &&& winning_groups(hand_interpretation, winning_tile, winning_tile_info) matches Some(gs)
        && has_two_double_sequences(gs)
}

/// A closed hand, not counted as ryanpeikou, with a sequence held twice.
pub open spec fn spec_is_iipeikou(
    hand_interpretation: HandInterpretation,
    winning_tile: MahjongTileId,
    hand_info: HandInfo,
    winning_tile_info: WinningTileInfo,
) -> bool {
    &&& hand_info.hand_state is Closed
    &&& !spec_is_ryanpeikou(hand_interpretation, winning_tile, hand_info, winning_tile_info)
    &&& winning_groups(hand_interpretation, winning_tile, winning_tile_info) matches Some(gs)
        && has_double_sequence(gs)
}

/// Not all terminals and honors, not junchan, and every group of the winning hand holds a
/// terminal or an honor.
pub open spec fn spec_is_chanta(
    hand_interpretation: HandInterpretation,
    winning_tile: MahjongTileId,
    winning_tile_info: WinningTileInfo,
) -> bool {
    &&& !spec_is_honroutou(hand_interpretation.total_tile_count_array@, winning_tile)
    &&& !spec_is_junchan(hand_interpretation, winning_tile, winning_tile_info)
    &&& winning_groups(hand_interpretation, winning_tile, winning_tile_info) matches Some(gs)
        && every_group_has_outside_tile(gs, true)
}

/// The winning groups, or none when they do not make a winning hand.
fn total_groups(
    hand_interpretation: &HandInterpretation,
    winning_tile: MahjongTileId,
    winning_tile_info: &WinningTileInfo,
) -> (r: Option<Vec<(TileMeld, bool)>>)
    requires
        hand_interpretation.wf(),
        crate::mahjong_tile::valid_id(winning_tile.0 as int),
    ensures
        r is Some <==> winning_groups(*hand_interpretation, winning_tile, *winning_tile_info) is Some,
        r matches Some(v) ==> groups_match(
            v@,
            winning_groups(*hand_interpretation, winning_tile, *winning_tile_info)->Some_0,
        ),
{
    get_total_groups_after_winning_tile(
        hand_interpretation,
        winning_tile,
        winning_tile_info.source.is_closed(),
    )
}

/// The number of groups that are sequences starting at tile `t`.
fn count_sequences_at(v: &Vec<(TileMeld, bool)>, Ghost(gs): Ghost<Seq<GroupModel>>, t: u8) -> (r: usize)
    requires
        groups_match(v@, gs),
    ensures
        r == seq_count(gs, t as int),
{
    let mut n: usize = 0;
    let mut i: usize = 0;
    while i < v.len()
        invariant
            i <= v@.len(),
            groups_match(v@, gs),
            n == seq_count(gs.take(i as int), t as int),
            n <= i,
        decreases v@.len() - i,
    {
        proof {
            assert(gs.take(i + 1).drop_last() =~= gs.take(i as int));
            assert(v@[i as int].0.tile_ids@ == shape_ids(gs[i as int].0, gs[i as int].1));
        }
        let m = &v[i].0;
        if m.meld_type == MeldType::Sequence && m.tile_ids[0].0 == t {
            n += 1;
        }
        i += 1;
    }
    assert(gs.take(i as int) =~= gs);
    n
}

/// Whether some group is a triplet or quad (`sets`) or a sequence (`!sets`) starting at `t`.
fn has_group_starting_at(v: &Vec<(TileMeld, bool)>, Ghost(gs): Ghost<Seq<GroupModel>>, sets: bool, t: u8) -> (r: bool)
    requires
        groups_match(v@, gs),
    ensures
        r == has_group_at(gs, sets, t as int),
{
    let mut i: usize = 0;
    while i < v.len()
        invariant
            i <= v@.len(),
            groups_match(v@, gs),
            forall|j: int|
                0 <= j < i ==> !((if sets {
                    is_set_kind(gs[j].0)
                } else {
                    gs[j].0 is Sequence
                }) && #[trigger] gs[j].1 == t),
        decreases v@.len() - i,
    {
        proof {
            assert(v@[i as int].0.tile_ids@ == shape_ids(gs[i as int].0, gs[i as int].1));
        }
        let m = &v[i].0;
        let kind_matches = if sets {
            m.meld_type == MeldType::Triplet || m.meld_type == MeldType::Quadruplet
        } else {
            m.meld_type == MeldType::Sequence
        };
        if kind_matches && m.tile_ids[0].0 == t {
            assert(gs[i as int].1 == t);
            return true;
        }
        i += 1;
    }
    false
}

/// Whether the meld holds a terminal (`with_honors`: a terminal or an honor).
fn meld_has_outside_tile(m: &TileMeld, Ghost(g): Ghost<GroupModel>, with_honors: bool) -> (r: bool)
    requires
        m.tile_ids@ == shape_ids(g.0, g.1),
    ensures
        r == group_has_outside_tile(g, with_honors),
{
    let mut i: usize = 0;
    while i < m.tile_ids.len()
        invariant
            i <= m.tile_ids@.len(),
            m.tile_ids@ == shape_ids(g.0, g.1),
            forall|j: int|
                0 <= j < i ==> !(is_terminal_id((#[trigger] shape_ids(g.0, g.1)[j]).0 as int) || (
                with_honors && is_honor_id(shape_ids(g.0, g.1)[j].0 as int))),
        decreases m.tile_ids@.len() - i,
    {
        let tile_in_meld = m.tile_ids[i];
        if crate::scoring::is_terminal_tile(tile_in_meld) || (with_honors
            && crate::scoring::is_honor_tile(tile_in_meld)) {
            assert(shape_ids(g.0, g.1)[i as int] == tile_in_meld);
            return true;
        }
        i += 1;
    }
    false
}

/// Whether every group holds a terminal (`with_honors`: a terminal or an honor).
fn every_meld_has_outside_tile(v: &Vec<(TileMeld, bool)>, Ghost(gs): Ghost<Seq<GroupModel>>, with_honors: bool) -> (r: bool)
    requires
        groups_match(v@, gs),
    ensures
        r == every_group_has_outside_tile(gs, with_honors),
{
    let mut i: usize = 0;
    while i < v.len()
        invariant
            i <= v@.len(),
            groups_match(v@, gs),
            forall|j: int| 0 <= j < i ==> group_has_outside_tile(#[trigger] gs[j], with_honors),
        decreases v@.len() - i,
    {
        assert(v@[i as int].0.tile_ids@ == shape_ids(gs[i as int].0, gs[i as int].1));
        if !meld_has_outside_tile(&v[i].0, Ghost(gs[i as int]), with_honors) {
            return false;
        }
        i += 1;
    }
    true
}

/// The yaku of triplets or quads of dragons, the round wind and the seat wind.
/// The han that `YakuhaiYaku` gives a winning hand.
pub open spec fn yakuhai_yaku_han(
    hi: HandInterpretation,
    melds: Seq<TileMeld>,
    w: MahjongTileId,
    info: HandInfo,
    wti: WinningTileInfo,
) -> u8 {
    match winning_groups(hi, w, wti) {
        Some(gs) => groups_yakuhai_han(gs, info) as u8,
        None => 0,
    }
}

impl Yaku for YakuhaiYaku {
    fn han_value(
        &self,
        hand_interpretation: &HandInterpretation,
        melded_tiles: &Vec<TileMeld>,
        winning_tile: MahjongTileId,
        hand_info: &HandInfo,
        winning_tile_info: &WinningTileInfo,
    ) -> (r: u8)
        ensures
            r == yakuhai_yaku_han(
                *hand_interpretation,
                melded_tiles@,
                winning_tile,
                *hand_info,
                *winning_tile_info,
            ),
            r <= 14,
    {
        // check for a triplet or quadruplet of a yakuhai tile (dragon, seat wind, or round wind)
        let total = total_groups(hand_interpretation, winning_tile, winning_tile_info);
        let v = match total {
            Some(v) => v,
            None => {
                return 0;
            },
        };
        let ghost gs = winning_groups(*hand_interpretation, winning_tile, *winning_tile_info)->Some_0;
        proof {
            crate::scoring::winning_groups::lemma_total_groups_len(
                hand_interpretation.groups@,
                winning_tile,
                source_closed(winning_tile_info.source),
            );
        }
        let mut yakuhai_han: u8 = 0;
        let mut i: usize = 0;
        while i < v.len()
            invariant
                i <= v@.len() <= 7,
                groups_match(v@, gs),
                yakuhai_han == groups_yakuhai_han(gs.take(i as int), *hand_info),
                yakuhai_han <= 2 * i,
            decreases v@.len() - i,
        {
            proof {
                assert(gs.take(i + 1).drop_last() =~= gs.take(i as int));
                assert(v@[i as int].0.tile_ids@ == shape_ids(gs[i as int].0, gs[i as int].1));
            }
            let tile_group = &v[i].0;
            if tile_group.meld_type == MeldType::Triplet || tile_group.meld_type
                == MeldType::Quadruplet {
                let tile_id = tile_group.tile_ids[0];
                if crate::scoring::is_dragon_tile(tile_id) {
                    yakuhai_han += 1;
                } else if YakuhaiYaku::is_double_yakuhai_tile(tile_id, hand_info) {
                    yakuhai_han += 2;
                } else if YakuhaiYaku::is_yakuhai_tile(tile_id, hand_info) {
                    yakuhai_han += 1;
                }
            }
            i += 1;
        }
        assert(gs.take(i as int) =~= gs);
        yakuhai_han
    }
}

/// The yaku of four triplets or quads.
pub struct ToitoiYaku;

impl ToitoiYaku {
    /// Whether every group of the winning hand (four of them) is a triplet or a quad.
    pub fn is_toitoi_hand(
        hand_interpretation: &HandInterpretation,
        _melded_tiles: &Vec<TileMeld>,
        winning_tile: MahjongTileId,
        winning_tile_info: &WinningTileInfo,
    ) -> (r: bool)
        requires
            hand_interpretation.wf(),
            crate::mahjong_tile::valid_id(winning_tile.0 as int),
        ensures
            r == spec_is_toitoi(*hand_interpretation, winning_tile, *winning_tile_info),
    {
        // every group must be a triplet or quad
        let total = total_groups(hand_interpretation, winning_tile, winning_tile_info);
        let v = match total {
            Some(v) => v,
            None => {
                return false;
            },
        };
        let ghost gs = winning_groups(*hand_interpretation, winning_tile, *winning_tile_info)->Some_0;
        let mut num_triplet_or_quad: usize = 0;
        let mut i: usize = 0;
        while i < v.len()
            invariant
                i <= v@.len(),
                groups_match(v@, gs),
                num_triplet_or_quad == num_sets(gs.take(i as int)),
                num_triplet_or_quad <= i,
            decreases v@.len() - i,
        {
            proof {
                assert(gs.take(i + 1).drop_last() =~= gs.take(i as int));
            }
            let tile_group = &v[i].0;
            if tile_group.meld_type == MeldType::Triplet || tile_group.meld_type
                == MeldType::Quadruplet {
                num_triplet_or_quad += 1;
            }
            i += 1;
        }
        assert(gs.take(i as int) =~= gs);
        num_triplet_or_quad == 4
    }
}

/// The han that `ToitoiYaku` gives a winning hand.
pub open spec fn toitoi_yaku_han(
    hi: HandInterpretation,
    melds: Seq<TileMeld>,
    w: MahjongTileId,
    info: HandInfo,
    wti: WinningTileInfo,
) -> u8 {
    if spec_is_toitoi(hi, w, wti) {
        2u8
    } else {
        0u8
    }
}

impl Yaku for ToitoiYaku {
    fn han_value(
        &self,
        hand_interpretation: &HandInterpretation,
        melded_tiles: &Vec<TileMeld>,
        winning_tile: MahjongTileId,
        hand_info: &HandInfo,
        winning_tile_info: &WinningTileInfo,
    ) -> (r: u8)
        ensures
            r == toitoi_yaku_han(
                *hand_interpretation,
                melded_tiles@,
                winning_tile,
                *hand_info,
                *winning_tile_info,
            ),

    {
        if ToitoiYaku::is_toitoi_hand(hand_interpretation, melded_tiles, winning_tile, winning_tile_info) {
            2
        } else {
            0
        }
    }
}

/// The yaku of three closed triplets or quads.
pub struct SanankouYaku;

/// The han that `SanankouYaku` gives a winning hand.
pub open spec fn sanankou_yaku_han(
    hi: HandInterpretation,
    melds: Seq<TileMeld>,
    w: MahjongTileId,
    info: HandInfo,
    wti: WinningTileInfo,
) -> u8 {
    if winning_groups(hi, w, wti) matches Some(gs)
        && num_closed_sets(gs) == 3 {
        2u8
    } else {
        0u8
    }
}

impl Yaku for SanankouYaku {
    fn han_value(
        &self,
        hand_interpretation: &HandInterpretation,
        melded_tiles: &Vec<TileMeld>,
        winning_tile: MahjongTileId,
        hand_info: &HandInfo,
        winning_tile_info: &WinningTileInfo,
    ) -> (r: u8)
        ensures
            r == sanankou_yaku_han(
                *hand_interpretation,
                melded_tiles@,
                winning_tile,
                *hand_info,
                *winning_tile_info,
            ),

    {
        // count closed triplets
        let total = total_groups(hand_interpretation, winning_tile, winning_tile_info);
        let v = match total {
            Some(v) => v,
            None => {
                return 0;
            },
        };
        let ghost gs = winning_groups(*hand_interpretation, winning_tile, *winning_tile_info)->Some_0;
        let mut num_closed_triplets: usize = 0;
        let mut i: usize = 0;
        while i < v.len()
            invariant
                i <= v@.len(),
                groups_match(v@, gs),
                num_closed_triplets == num_closed_sets(gs.take(i as int)),
                num_closed_triplets <= i,
            decreases v@.len() - i,
        {
            proof {
                assert(gs.take(i + 1).drop_last() =~= gs.take(i as int));
            }
            let tile_group = &v[i];
            if (tile_group.0.meld_type == MeldType::Triplet || tile_group.0.meld_type
                == MeldType::Quadruplet) && tile_group.1 {
                num_closed_triplets += 1;
            }
            i += 1;
        }
        assert(gs.take(i as int) =~= gs);
        if num_closed_triplets == 3 {
            2
        } else {
            0
        }
    }
}

/// The yaku of three quads.
pub struct SankantsuYaku;

/// The han that `SankantsuYaku` gives a winning hand.
pub open spec fn sankantsu_yaku_han(
    hi: HandInterpretation,
    melds: Seq<TileMeld>,
    w: MahjongTileId,
    info: HandInfo,
    wti: WinningTileInfo,
) -> u8 {
    if winning_groups(hi, w, wti) matches Some(gs)
        && num_quad_groups(gs) + num_quad_melds(melds) == 3 {
        2u8
    } else {
        0u8
    }
}

impl Yaku for SankantsuYaku {
    fn han_value(
        &self,
        hand_interpretation: &HandInterpretation,
        melded_tiles: &Vec<TileMeld>,
        winning_tile: MahjongTileId,
        hand_info: &HandInfo,
        winning_tile_info: &WinningTileInfo,
    ) -> (r: u8)
        ensures
            r == sankantsu_yaku_han(
                *hand_interpretation,
                melded_tiles@,
                winning_tile,
                *hand_info,
                *winning_tile_info,
            ),

    {
        let total = total_groups(hand_interpretation, winning_tile, winning_tile_info);
        let v = match total {
            Some(v) => v,
            None => {
                return 0;
            },
        };
        let ghost gs = winning_groups(*hand_interpretation, winning_tile, *winning_tile_info)->Some_0;
        let ghost ms = melded_tiles@;
        let mut num_quads: usize = 0;
        let mut i: usize = 0;
        while i < v.len()
            invariant
                i <= v@.len(),
                groups_match(v@, gs),
                num_quads == num_quad_groups(gs.take(i as int)),
                num_quads <= i,
            decreases v@.len() - i,
        {
            proof {
                assert(gs.take(i + 1).drop_last() =~= gs.take(i as int));
            }
            if v[i].0.meld_type == MeldType::Quadruplet {
                num_quads += 1;
            }
            i += 1;
        }
        assert(gs.take(i as int) =~= gs);
        let mut num_meld_quads: usize = 0;
        let mut j: usize = 0;
        while j < melded_tiles.len()
            invariant
                j <= ms.len(),
                ms == melded_tiles@,
                num_meld_quads == num_quad_melds(ms.take(j as int)),
                num_meld_quads <= j,
            decreases ms.len() - j,
        {
            proof {
                assert(ms.take(j + 1).drop_last() =~= ms.take(j as int));
            }
            if melded_tiles[j].meld_type == MeldType::Quadruplet {
                num_meld_quads += 1;
            }
            j += 1;
        }
        assert(ms.take(j as int) =~= ms);
        if num_quads <= 3 && num_meld_quads == 3 - num_quads {
            2
        } else {
            0
        }
    }
}

/// Whether two different sequences of the groups are each held twice.
fn has_two_double_sequences_exec(v: &Vec<(TileMeld, bool)>, Ghost(gs): Ghost<Seq<GroupModel>>) -> (r: bool)
    requires
        groups_match(v@, gs),
    ensures
        r == has_two_double_sequences(gs),
{
    let mut i: usize = 0;
    while i < v.len()
        invariant
            i <= v@.len(),
            groups_match(v@, gs),
            forall|a: int, b: int|
                0 <= a < i && 0 <= b < gs.len() ==> !(gs[a].0 is Sequence && gs[b].0 is Sequence
                    && gs[a].1 != gs[b].1 && seq_count(gs, #[trigger] gs[a].1) >= 2 && seq_count(
                    gs,
                    #[trigger] gs[b].1,
                ) >= 2),
        decreases v@.len() - i,
    {
        let ti = v[i].0.tile_ids[0].0;
        assert(v@[i as int].0.tile_ids@ == shape_ids(gs[i as int].0, gs[i as int].1));
        if v[i].0.meld_type == MeldType::Sequence && count_sequences_at(v, Ghost(gs), ti) >= 2 {
            let mut j: usize = 0;
            while j < v.len()
                invariant
                    i < v@.len(),
                    j <= v@.len(),
                    groups_match(v@, gs),
                    gs[i as int].0 is Sequence,
                    gs[i as int].1 == ti,
                    seq_count(gs, ti as int) >= 2,
                    forall|b: int|
                        0 <= b < j ==> !(gs[b].0 is Sequence && gs[i as int].1 != gs[b].1
                            && seq_count(gs, #[trigger] gs[b].1) >= 2),
                decreases v@.len() - j,
            {
                let tj = v[j].0.tile_ids[0].0;
                assert(v@[j as int].0.tile_ids@ == shape_ids(gs[j as int].0, gs[j as int].1));
                if v[j].0.meld_type == MeldType::Sequence && tj != ti && count_sequences_at(
                    v,
                    Ghost(gs),
                    tj,
                ) >= 2 {
                    assert(seq_count(gs, gs[i as int].1) >= 2 && seq_count(gs, gs[j as int].1) >= 2);
                    return true;
                }
                j += 1;
            }
        }
        i += 1;
    }
    false
}

/// Whether some sequence of the groups is held twice.
fn has_double_sequence_exec(v: &Vec<(TileMeld, bool)>, Ghost(gs): Ghost<Seq<GroupModel>>) -> (r: bool)
    requires
        groups_match(v@, gs),
    ensures
        r == has_double_sequence(gs),
{
    let mut i: usize = 0;
    while i < v.len()
        invariant
            i <= v@.len(),
            groups_match(v@, gs),
            forall|a: int|
                0 <= a < i ==> !(gs[a].0 is Sequence && seq_count(gs, #[trigger] gs[a].1) >= 2),
        decreases v@.len() - i,
    {
        let ti = v[i].0.tile_ids[0].0;
        assert(v@[i as int].0.tile_ids@ == shape_ids(gs[i as int].0, gs[i as int].1));
        if v[i].0.meld_type == MeldType::Sequence && count_sequences_at(v, Ghost(gs), ti) >= 2 {
            assert(seq_count(gs, gs[i as int].1) >= 2);
            return true;
        }
        i += 1;
    }
    false
}

/// Whether the same triplets (`sets`) or sequences (`!sets`) start at one rank in all three
/// numbered suits.
fn sanshoku_exec(v: &Vec<(TileMeld, bool)>, Ghost(gs): Ghost<Seq<GroupModel>>, sets: bool) -> (r: bool)
    requires
        groups_match(v@, gs),
    ensures
        r == spec_sanshoku(gs, sets),
{
    let mut r: u8 = 0;
    while r < 9
        invariant
            r <= 9,
            groups_match(v@, gs),
            forall|q: int|
                0 <= q < r ==> !(#[trigger] has_group_at(gs, sets, q) && has_group_at(gs, sets, 9 + q)
                    && has_group_at(gs, sets, 18 + q)),
        decreases 9 - r,
    {
        if has_group_starting_at(v, Ghost(gs), sets, r) && has_group_starting_at(
            v,
            Ghost(gs),
            sets,
            9 + r,
        ) && has_group_starting_at(v, Ghost(gs), sets, 18 + r) {
            assert(has_group_at(gs, sets, r as int));
            return true;
        }
        r += 1;
    }
    false
}

/// Whether one numbered suit holds the sequences 123, 456 and 789.
fn ittsu_exec(v: &Vec<(TileMeld, bool)>, Ghost(gs): Ghost<Seq<GroupModel>>) -> (r: bool)
    requires
        groups_match(v@, gs),
    ensures
        r == spec_ittsu(gs),
{
    let mut b: u8 = 0;
    while b < 27
        invariant
            b <= 27,
            b % 9 == 0,
            groups_match(v@, gs),
            forall|q: int|
                (q == 0 || q == 9 || q == 18) && q < b ==> !(#[trigger] has_group_at(gs, false, q)
                    && has_group_at(gs, false, q + 3) && has_group_at(gs, false, q + 6)),
        decreases 27 - b,
    {
        if has_group_starting_at(v, Ghost(gs), false, b) && has_group_starting_at(
            v,
            Ghost(gs),
            false,
            b + 3,
        ) && has_group_starting_at(v, Ghost(gs), false, b + 6) {
            assert(has_group_at(gs, false, b as int));
            return true;
        }
        b += 9;
    }
    false
}

/// The yaku of two identical sequences in a closed hand.
pub struct IipeikouYaku;

/// The han that `IipeikouYaku` gives a winning hand.
pub open spec fn iipeikou_yaku_han(
    hi: HandInterpretation,
    melds: Seq<TileMeld>,
    w: MahjongTileId,
    info: HandInfo,
    wti: WinningTileInfo,
) -> u8 {
    if spec_is_iipeikou(hi, w, info, wti) {
        1u8
    } else {
        0u8
    }
}

impl Yaku for IipeikouYaku {
    fn han_value(
        &self,
        hand_interpretation: &HandInterpretation,
        melded_tiles: &Vec<TileMeld>,
        winning_tile: MahjongTileId,
        hand_info: &HandInfo,
        winning_tile_info: &WinningTileInfo,
    ) -> (r: u8)
        ensures
            r == iipeikou_yaku_han(
                *hand_interpretation,
                melded_tiles@,
                winning_tile,
                *hand_info,
                *winning_tile_info,
            ),

    {
        // iipeikou must be closed
        if !hand_info.hand_state.is_closed() {
            return 0;
        }
        // ryanpeikou implies iipeikou, so a hand counted for ryanpeikou is not counted for it
        if RyanpeikouYaku::is_ryanpeikou_hand(
            hand_interpretation,
            melded_tiles,
            winning_tile,
            hand_info,
            winning_tile_info,
        ) {
            return 0;
        }
        let total = total_groups(hand_interpretation, winning_tile, winning_tile_info);
        match total {
            Some(v) => {
                let ghost gs = winning_groups(*hand_interpretation, winning_tile, *winning_tile_info)->Some_0;
                if has_double_sequence_exec(&v, Ghost(gs)) {
                    1
                } else {
                    0
                }
            },
            None => 0,
        }
    }
}

/// The yaku of two different pairs of identical sequences in a closed hand.
pub struct RyanpeikouYaku;

impl RyanpeikouYaku {
    /// Whether the closed winning hand holds two different sequences twice each.
    pub fn is_ryanpeikou_hand(
        hand_interpretation: &HandInterpretation,
        _melded_tiles: &Vec<TileMeld>,
        winning_tile: MahjongTileId,
        hand_info: &HandInfo,
        winning_tile_info: &WinningTileInfo,
    ) -> (r: bool)
        requires
            hand_interpretation.wf(),
            crate::mahjong_tile::valid_id(winning_tile.0 as int),
        ensures
            r == spec_is_ryanpeikou(*hand_interpretation, winning_tile, *hand_info, *winning_tile_info),
    {
        // ryanpeikou must be closed
        if !hand_info.hand_state.is_closed() {
            return false;
        }
        let total = total_groups(hand_interpretation, winning_tile, winning_tile_info);
        match total {
            Some(v) => {
                let ghost gs = winning_groups(*hand_interpretation, winning_tile, *winning_tile_info)->Some_0;
                has_two_double_sequences_exec(&v, Ghost(gs))
            },
            None => false,
        }
    }
}

/// The han that `RyanpeikouYaku` gives a winning hand.
pub open spec fn ryanpeikou_yaku_han(
    hi: HandInterpretation,
    melds: Seq<TileMeld>,
    w: MahjongTileId,
    info: HandInfo,
    wti: WinningTileInfo,
) -> u8 {
    if spec_is_ryanpeikou(hi, w, info, wti) {
        3u8
    } else {
        0u8
    }
}

impl Yaku for RyanpeikouYaku {
    fn han_value(
        &self,
        hand_interpretation: &HandInterpretation,
        melded_tiles: &Vec<TileMeld>,
        winning_tile: MahjongTileId,
        hand_info: &HandInfo,
        winning_tile_info: &WinningTileInfo,
    ) -> (r: u8)
        ensures
            r == ryanpeikou_yaku_han(
                *hand_interpretation,
                melded_tiles@,
                winning_tile,
                *hand_info,
                *winning_tile_info,
            ),

    {
        if RyanpeikouYaku::is_ryanpeikou_hand(
            hand_interpretation,
            melded_tiles,
            winning_tile,
            hand_info,
            winning_tile_info,
        ) {
            3
        } else {
            0
        }
    }
}

/// The yaku of triplets of one rank in all three numbered suits.
pub struct SanshokuDoukouYaku;

/// The han that `SanshokuDoukouYaku` gives a winning hand.
pub open spec fn sanshoku_doukou_yaku_han(
    hi: HandInterpretation,
    melds: Seq<TileMeld>,
    w: MahjongTileId,
    info: HandInfo,
    wti: WinningTileInfo,
) -> u8 {
    if winning_groups(hi, w, wti) matches Some(gs)
        && spec_sanshoku(gs, true) {
        2u8
    } else {
        0u8
    }
}

impl Yaku for SanshokuDoukouYaku {
    fn han_value(
        &self,
        hand_interpretation: &HandInterpretation,
        melded_tiles: &Vec<TileMeld>,
        winning_tile: MahjongTileId,
        hand_info: &HandInfo,
        winning_tile_info: &WinningTileInfo,
    ) -> (r: u8)
        ensures
            r == sanshoku_doukou_yaku_han(
                *hand_interpretation,
                melded_tiles@,
                winning_tile,
                *hand_info,
                *winning_tile_info,
            ),

    {
        let total = total_groups(hand_interpretation, winning_tile, winning_tile_info);
        match total {
            Some(v) => {
                let ghost gs = winning_groups(*hand_interpretation, winning_tile, *winning_tile_info)->Some_0;
                if sanshoku_exec(&v, Ghost(gs), true) {
                    2
                } else {
                    0
                }
            },
            None => 0,
        }
    }
}

/// The yaku of the same sequence in all three numbered suits.
pub struct SanshokuDoujunYaku;

/// The han that `SanshokuDoujunYaku` gives a winning hand.
pub open spec fn sanshoku_doujun_yaku_han(
    hi: HandInterpretation,
    melds: Seq<TileMeld>,
    w: MahjongTileId,
    info: HandInfo,
    wti: WinningTileInfo,
) -> u8 {
    if winning_groups(hi, w, wti) matches Some(gs)
        && spec_sanshoku(gs, false) {
        if info.hand_state is Closed {
            2u8
        } else {
            1u8
        }
    } else {
        0u8
    }
}

impl Yaku for SanshokuDoujunYaku {
    fn han_value(
        &self,
        hand_interpretation: &HandInterpretation,
        melded_tiles: &Vec<TileMeld>,
        winning_tile: MahjongTileId,
        hand_info: &HandInfo,
        winning_tile_info: &WinningTileInfo,
    ) -> (r: u8)
        ensures
            r == sanshoku_doujun_yaku_han(
                *hand_interpretation,
                melded_tiles@,
                winning_tile,
                *hand_info,
                *winning_tile_info,
            ),

    {
        let total = total_groups(hand_interpretation, winning_tile, winning_tile_info);
        match total {
            Some(v) => {
                let ghost gs = winning_groups(*hand_interpretation, winning_tile, *winning_tile_info)->Some_0;
                if sanshoku_exec(&v, Ghost(gs), false) {
                    if hand_info.hand_state.is_closed() {
                        2
                    } else {
                        1
                    }
                } else {
                    0
                }
            },
            None => 0,
        }
    }
}

/// The yaku of the straight 123-456-789 in one numbered suit.
pub struct IttsuYaku;

/// The han that `IttsuYaku` gives a winning hand.
pub open spec fn ittsu_yaku_han(
    hi: HandInterpretation,
    melds: Seq<TileMeld>,
    w: MahjongTileId,
    info: HandInfo,
    wti: WinningTileInfo,
) -> u8 {
    if winning_groups(hi, w, wti) matches Some(gs)
        && spec_ittsu(gs) {
        if info.hand_state is Closed {
            2u8
        } else {
            1u8
        }
    } else {
        0u8
    }
}

impl Yaku for IttsuYaku {
    fn han_value(
        &self,
        hand_interpretation: &HandInterpretation,
        melded_tiles: &Vec<TileMeld>,
        winning_tile: MahjongTileId,
        hand_info: &HandInfo,
        winning_tile_info: &WinningTileInfo,
    ) -> (r: u8)
        ensures
            r == ittsu_yaku_han(
                *hand_interpretation,
                melded_tiles@,
                winning_tile,
                *hand_info,
                *winning_tile_info,
            ),

    {
        let total = total_groups(hand_interpretation, winning_tile, winning_tile_info);
        match total {
            Some(v) => {
                let ghost gs = winning_groups(*hand_interpretation, winning_tile, *winning_tile_info)->Some_0;
                if ittsu_exec(&v, Ghost(gs)) {
                    if hand_info.hand_state.is_closed() {
                        2
                    } else {
                        1
                    }
                } else {
                    0
                }
            },
            None => 0,
        }
    }
}

/// The yaku of a terminal in every group.
pub struct JunchanYaku;

impl JunchanYaku {
    /// Whether every group of the winning hand holds a terminal.
    pub fn is_junchan_hand(
        hand_interpretation: &HandInterpretation,
        _melded_tiles: &Vec<TileMeld>,
        winning_tile: MahjongTileId,
        winning_tile_info: &WinningTileInfo,
    ) -> (r: bool)
        requires
            hand_interpretation.wf(),
            crate::mahjong_tile::valid_id(winning_tile.0 as int),
        ensures
            r == spec_is_junchan(*hand_interpretation, winning_tile, *winning_tile_info),
    {
        // every tile group (including the pair) contains a terminal
        let total = total_groups(hand_interpretation, winning_tile, winning_tile_info);
        match total {
            Some(v) => {
                let ghost gs = winning_groups(*hand_interpretation, winning_tile, *winning_tile_info)->Some_0;
                every_meld_has_outside_tile(&v, Ghost(gs), false)
            },
            None => false,
        }
    }
}

/// The han that `JunchanYaku` gives a winning hand.
pub open spec fn junchan_yaku_han(
    hi: HandInterpretation,
    melds: Seq<TileMeld>,
    w: MahjongTileId,
    info: HandInfo,
    wti: WinningTileInfo,
) -> u8 {
    if spec_is_junchan(hi, w, wti) {
        if info.hand_state is Closed {
            3u8
        } else {
            2u8
        }
    } else {
        0u8
    }
}

impl Yaku for JunchanYaku {
    fn han_value(
        &self,
        hand_interpretation: &HandInterpretation,
        melded_tiles: &Vec<TileMeld>,
        winning_tile: MahjongTileId,
        hand_info: &HandInfo,
        winning_tile_info: &WinningTileInfo,
    ) -> (r: u8)
        ensures
            r == junchan_yaku_han(
                *hand_interpretation,
                melded_tiles@,
                winning_tile,
                *hand_info,
                *winning_tile_info,
            ),

    {
        if JunchanYaku::is_junchan_hand(hand_interpretation, melded_tiles, winning_tile, winning_tile_info) {
            if hand_info.hand_state.is_closed() {
                3
            } else {
                2
            }
        } else {
            0
        }
    }
}

/// The yaku of a terminal or an honor in every group.
pub struct ChantaYaku;

/// The han that `ChantaYaku` gives a winning hand.
pub open spec fn chanta_yaku_han(
    hi: HandInterpretation,
    melds: Seq<TileMeld>,
    w: MahjongTileId,
    info: HandInfo,
    wti: WinningTileInfo,
) -> u8 {
    if spec_is_chanta(hi, w, wti) {
        if info.hand_state is Closed {
            2u8
        } else {
            1u8
        }
    } else {
        0u8
    }
}

impl Yaku for ChantaYaku {
    fn han_value(
        &self,
        hand_interpretation: &HandInterpretation,
        melded_tiles: &Vec<TileMeld>,
        winning_tile: MahjongTileId,
        hand_info: &HandInfo,
        winning_tile_info: &WinningTileInfo,
    ) -> (r: u8)
        ensures
            r == chanta_yaku_han(
                *hand_interpretation,
                melded_tiles@,
                winning_tile,
                *hand_info,
                *winning_tile_info,
            ),

    {
        // honroutou implies chanta (chanta and honroutou are not counted together)
        if HonroutouYaku::is_honroutou_hand(hand_interpretation, winning_tile) {
            return 0;
        }
        // junchan implies chanta (chanta and junchan are not counted together)
        if JunchanYaku::is_junchan_hand(hand_interpretation, melded_tiles, winning_tile, winning_tile_info) {
            return 0;
        }
        // every tile group (including the pair) contains a terminal or honor tile
        let total = total_groups(hand_interpretation, winning_tile, winning_tile_info);
        match total {
            Some(v) => {
                let ghost gs = winning_groups(*hand_interpretation, winning_tile, *winning_tile_info)->Some_0;
                if every_meld_has_outside_tile(&v, Ghost(gs), true) {
                    if hand_info.hand_state.is_closed() {
                        2
                    } else {
                        1
                    }
                } else {
                    0
                }
            },
            None => 0,
        }
    }
}

/// How many of the melds are of kind `k`.
pub open spec fn kind_count(ms: Seq<TileMeld>, k: MeldType) -> int
    decreases ms.len(),
{
    if ms.len() == 0 {
        0
    } else {
        kind_count(ms.drop_last(), k) + if ms.last().meld_type == k {
            1int
        } else {
            0int
        }
    }
}

proof fn lemma_kind_count_nonneg(ms: Seq<TileMeld>, k: MeldType)
    ensures
        kind_count(ms, k) >= 0,
    decreases ms.len(),
{
    if ms.len() > 0 {
        lemma_kind_count_nonneg(ms.drop_last(), k);
    }
}

/// A closed hand of three sequences, a pair that is not yakuhai and a ryanmen wait that the
/// winning tile completes, with no triplet or quad.
pub open spec fn spec_is_pinfu(
    hand_interpretation: HandInterpretation,
    winning_tile: MahjongTileId,
    hand_info: HandInfo,
) -> bool {
    let ms = hand_interpretation.groups@;
    &&& hand_info.hand_state is Closed
    &&& kind_count(ms, MeldType::Triplet) == 0
    &&& kind_count(ms, MeldType::Quadruplet) == 0
    &&& kind_count(ms, MeldType::Ryanmen) == 1
    &&& forall|i: int|
        0 <= i < ms.len() && (#[trigger] ms[i]).meld_type is Ryanmen ==> crate::shanten::shape_completions(
            MeldType::Ryanmen,
            first_tile(ms[i]),
        ).contains(winning_tile)
    &&& kind_count(ms, MeldType::Sequence) == 3
    &&& kind_count(ms, MeldType::Pair) == 1
    &&& forall|i: int|
        0 <= i < ms.len() && (#[trigger] ms[i]).meld_type is Pair ==> !spec_is_yakuhai_tile(
            first_tile(ms[i]),
            hand_info.round_wind,
            hand_info.seat_wind,
        )
}

/// The yaku of a closed hand without fu: all sequences and a two-sided wait.
pub struct PinfuYaku;

/// The han that `PinfuYaku` gives a winning hand.
pub open spec fn pinfu_yaku_han(
    hi: HandInterpretation,
    melds: Seq<TileMeld>,
    w: MahjongTileId,
    info: HandInfo,
    wti: WinningTileInfo,
) -> u8 {
    if spec_is_pinfu(hi, w, info) {
        1u8
    } else {
        0u8
    }
}

impl Yaku for PinfuYaku {
    fn han_value(
        &self,
        hand_interpretation: &HandInterpretation,
        melded_tiles: &Vec<TileMeld>,
        winning_tile: MahjongTileId,
        hand_info: &HandInfo,
        winning_tile_info: &WinningTileInfo,
    ) -> (r: u8)
        ensures
            r == pinfu_yaku_han(
                *hand_interpretation,
                melded_tiles@,
                winning_tile,
                *hand_info,
                *winning_tile_info,
            ),

    {
        // pinfu must be closed
        if !hand_info.hand_state.is_closed() {
            return 0;
        }
        let ghost ms = hand_interpretation.groups@;
        let groups = &hand_interpretation.groups;
        let mut num_sets: usize = 0;
        let mut num_ryanmen: usize = 0;
        let mut ryanmen_completed = true;
        let mut num_completed_sequences: usize = 0;
        let mut num_pairs: usize = 0;
        let mut pair_not_yakuhai = true;
        // pinfu holds no triplet or quad: three complete sequences, a pair and a ryanmen wait
        let mut i: usize = 0;
        while i < groups.len()
            invariant
                i <= ms.len(),
                ms == groups@,
                ms == hand_interpretation.groups@,
                hand_interpretation.wf(),
                num_sets == kind_count(ms.take(i as int), MeldType::Triplet) + kind_count(
                    ms.take(i as int),
                    MeldType::Quadruplet,
                ),
                num_ryanmen == kind_count(ms.take(i as int), MeldType::Ryanmen),
                num_completed_sequences == kind_count(ms.take(i as int), MeldType::Sequence),
                num_pairs == kind_count(ms.take(i as int), MeldType::Pair),
                num_sets + num_ryanmen + num_completed_sequences + num_pairs <= i,
                ryanmen_completed <==> forall|j: int|
                    0 <= j < i && (#[trigger] ms[j]).meld_type is Ryanmen
                        ==> crate::shanten::shape_completions(MeldType::Ryanmen, first_tile(ms[j])).contains(
                        winning_tile,
                    ),
                pair_not_yakuhai <==> forall|j: int|
                    0 <= j < i && (#[trigger] ms[j]).meld_type is Pair ==> !spec_is_yakuhai_tile(
                        first_tile(ms[j]),
                        hand_info.round_wind,
                        hand_info.seat_wind,
                    ),
            decreases ms.len() - i,
        {
            proof {
                assert(ms.take(i + 1).drop_last() =~= ms.take(i as int));
                assert(ms.take(i + 1).last() == ms[i as int]);
                assert(crate::shanten::melds_wf(hand_interpretation.groups@));
                assert(crate::shanten::tile_meld_wf(hand_interpretation.groups@[i as int]));
            }
            let tile_group = &groups[i];
            if tile_group.meld_type == MeldType::Triplet || tile_group.meld_type
                == MeldType::Quadruplet {
                num_sets += 1;
            } else if tile_group.meld_type == MeldType::Ryanmen {
                num_ryanmen += 1;
                if !crate::shanten::ids_contain(&tile_group.tile_ids_to_complete_group(), winning_tile) {
                    ryanmen_completed = false;
                }
            } else if tile_group.meld_type == MeldType::Pair {
                num_pairs += 1;
                if YakuhaiYaku::is_yakuhai_tile(tile_group.tile_ids[0], hand_info) {
                    pair_not_yakuhai = false;
                }
            } else if tile_group.meld_type == MeldType::Sequence {
                num_completed_sequences += 1;
            }
            i += 1;
        }
        assert(ms.take(i as int) =~= ms);
        proof {
            lemma_kind_count_nonneg(ms, MeldType::Triplet);
            lemma_kind_count_nonneg(ms, MeldType::Quadruplet);
        }
        // the winning tile completes the one ryanmen wait, the checks exclude non-standard
        // winning shapes like thirteen orphans and seven pairs, and the pair is not yakuhai
        if num_sets == 0 && num_ryanmen == 1 && ryanmen_completed && num_completed_sequences == 3
            && num_pairs == 1 && pair_not_yakuhai {
            1
        } else {
            0
        }
    }
}

} // verus!
