use vstd::prelude::*;

use crate::mahjong_tile::MahjongTileId;
use crate::scoring::group_yaku::{
    chanta_yaku_han, iipeikou_yaku_han, is_set_kind, ittsu_yaku_han, junchan_yaku_han,
    pinfu_yaku_han, ryanpeikou_yaku_han, sanankou_yaku_han, sankantsu_yaku_han,
    sanshoku_doujun_yaku_han, sanshoku_doukou_yaku_han, source_closed, toitoi_yaku_han,
    yakuhai_yaku_han, ChantaYaku, IipeikouYaku, IttsuYaku, JunchanYaku, PinfuYaku, RyanpeikouYaku,
    SanankouYaku, SankantsuYaku, SanshokuDoujunYaku, SanshokuDoukouYaku, ToitoiYaku,
};
use crate::scoring::winning_groups::first_tile;
use crate::scoring::{
    is_honor_id, is_honor_tile, is_terminal_id, is_terminal_tile, pairs_with_winning_tile,
    spec_is_double_yakuhai_tile, spec_is_yakuhai_tile, yaku_inputs_ok, ChiitoiYaku, HandInfo,
    WinningTileInfo, Yaku, YakuhaiYaku, chankan_yaku_han, chiitoi_yaku_han, chinitsu_yaku_han,
    double_riichi_yaku_han, haitei_yaku_han, honitsu_yaku_han, honroutou_yaku_han,
    houtei_yaku_han, ippatsu_yaku_han, menzen_tsumo_yaku_han, riichi_yaku_han, rinshan_yaku_han,
    shousangen_yaku_han, tanyao_yaku_han, ChankanYaku, ChinitsuYaku, DoubleRiichiYaku,
    HaiteiYaku, HonitsuYaku, HonroutouYaku, HouteiYaku, IppatsuYaku, MenzenTsumoYaku, RiichiYaku,
    RinshanYaku, ShousangenYaku, TanyaoYaku,
};
use crate::shanten::{HandInterpretation, MeldType, TileMeld};

verus! {

/// Seven pairs is always scored 25 fu.
pub const CHIITOI_FU: u8 = 25;

/// The fu of a triplet or quad of tile `t`: 2 for an open triplet of simples, doubled when it
/// is closed, doubled again for terminals and honors, and four times as much for a quad.
pub open spec fn set_fu(k: MeldType, t: int, closed: bool) -> int {
    2 * (if closed {
        2int
    } else {
        1int
    }) * (if is_terminal_id(t) || is_honor_id(t) {
        2int
    } else {
        1int
    }) * (if k is Quadruplet {
        4int
    } else {
        1int
    })
}

/// The fu of a triplet or quad (see `set_fu`).
fn compute_fu_for_triplet_or_quad(tile_meld: &TileMeld, is_closed: bool) -> (r: u8)
    requires
        tile_meld.tile_ids@.len() > 0,
    ensures
        r == set_fu(tile_meld.meld_type, first_tile(*tile_meld), is_closed),
{
    let melded_tile_id = tile_meld.tile_ids[0];
    let is_quad = tile_meld.meld_type == MeldType::Quadruplet;
    let is_terminal_or_honor = is_terminal_tile(melded_tile_id) || is_honor_tile(melded_tile_id);
    // base fu for an open triplet of simple tiles
    let mut meld_fu: u8 = 2;
    if is_closed {
        // twice the fu for a closed triplet / quad
        meld_fu = meld_fu * 2;
    }
    if is_terminal_or_honor {
        // twice the fu for a triplet / quad of a terminal or honor tile
        meld_fu = meld_fu * 2;
    }
    if is_quad {
        // four times the fu for a quad
        meld_fu = meld_fu * 4;
    }
    meld_fu
}

/// Some single tile of the melds is tile `t`.
pub open spec fn single_at(ms: Seq<TileMeld>, t: int) -> bool {
    exists|i: int|
        0 <= i < ms.len() && ms[i].meld_type is SingleTile && first_tile(#[trigger] ms[i]) == t
}

/// How many distinct terminals and honors below id `n` are single tiles of the melds.
pub open spec fn outside_singles_upto(ms: Seq<TileMeld>, n: int) -> int
    decreases n,
{
    if n <= 0 {
        0
    } else {
        outside_singles_upto(ms, n - 1) + if (is_terminal_id(n - 1) || is_honor_id(n - 1))
            && single_at(ms, n - 1) {
            1int
        } else {
            0int
        }
    }
}

/// The fu counted for one group, with the pair found so far: a triplet or quad of the hand
/// (closed) counts as such; the first pair is the pair of the hand; a second pair means a
/// shanpon wait, whose pair holding the winning tile became a triplet (closed when the winning
/// tile is) while the other one is the pair of the hand; a kanchan, penchan or tanki wait is
/// worth 2 fu; a sequence or a ryanmen wait nothing.
pub open spec fn fu_step(st: (int, Option<int>), m: TileMeld, w: MahjongTileId, src_closed: bool) -> (
    int,
    Option<int>,
) {
    let k = m.meld_type;
    let t = first_tile(m);
    if is_set_kind(k) {
        (st.0 + set_fu(k, t, true), st.1)
    } else if k is Pair {
        match st.1 {
            None => (st.0, Some(t)),
            Some(p) => if p == w.0 as int {
                (st.0 + set_fu(MeldType::Triplet, p, src_closed), Some(t))
            } else {
                (st.0 + set_fu(MeldType::Triplet, t, src_closed), Some(p))
            },
        }
    } else if k is Kanchan || k is Penchan || k is SingleTile {
        (st.0 + 2, st.1)
    } else {
        st
    }
}

/// The fu of the hand shape and the wait (from a base of 20 fu), with the pair of the hand
/// if one was found (see `fu_step`).
pub open spec fn fu_fold(ms: Seq<TileMeld>, w: MahjongTileId, src_closed: bool) -> (int, Option<int>)
    decreases ms.len(),
{
    if ms.len() == 0 {
        (20, None)
    } else {
        fu_step(fu_fold(ms.drop_last(), w, src_closed), ms.last(), w, src_closed)
    }
}

/// The tile of the last single tile among the melds, if any.
pub open spec fn last_single(ms: Seq<TileMeld>) -> Option<int>
    decreases ms.len(),
{
    if ms.len() == 0 {
        None
    } else if ms.last().meld_type is SingleTile {
        Some(first_tile(ms.last()))
    } else {
        last_single(ms.drop_last())
    }
}

/// The fu of the pair of the hand: 4 for a wind that is both the round and the seat wind, 2
/// for another yakuhai tile.
pub open spec fn pair_fu(p: int, info: HandInfo) -> int {
    if spec_is_double_yakuhai_tile(p, info.round_wind, info.seat_wind) {
        4
    } else if spec_is_yakuhai_tile(p, info.round_wind, info.seat_wind) {
        2
    } else {
        0
    }
}

/// Seven pairs (with the winning tile).
pub open spec fn is_chiitoi_interpretation(hi: HandInterpretation, w: MahjongTileId) -> bool {
    pairs_with_winning_tile(hi.groups@, w) == 7
}

/// Thirteen distinct terminals and honors as single tiles: thirteen orphans.
pub open spec fn is_kokushi_interpretation(hi: HandInterpretation) -> bool {
    outside_singles_upto(hi.groups@, 34) == 13
}

/// The pair of the hand: the one found among the groups, else the tile of the tanki wait.
pub open spec fn hand_pair(hi: HandInterpretation, w: MahjongTileId, wti: WinningTileInfo) -> Option<int> {
    match fu_fold(hi.groups@, w, source_closed(wti.source)).1 {
        Some(p) => Some(p),
        None => last_single(hi.groups@),
    }
}

/// The fu can be counted: the hand is seven pairs, thirteen orphans, or it has a pair (or a
/// tanki wait).
pub open spec fn raw_fu_defined(hi: HandInterpretation, w: MahjongTileId, wti: WinningTileInfo) -> bool {
    is_chiitoi_interpretation(hi, w) || is_kokushi_interpretation(hi) || hand_pair(hi, w, wti) is Some
}

/// The fu of a winning hand before rounding: 25 for seven pairs, 0 for thirteen orphans;
/// otherwise the shape and wait (see `fu_fold`), the pair (see `pair_fu`) and the way the hand
/// won: 10 for a closed hand winning on a discard, 2 for an open hand winning on a discard with
/// nothing else counted, 2 for a self-draw that is not pinfu.
pub open spec fn spec_raw_fu(
    hi: HandInterpretation,
    melds: Seq<TileMeld>,
    w: MahjongTileId,
    info: HandInfo,
    wti: WinningTileInfo,
) -> int {
    if is_chiitoi_interpretation(hi, w) {
        CHIITOI_FU as int
    } else if is_kokushi_interpretation(hi) {
        0
    } else {
        let fu1 = fu_fold(hi.groups@, w, source_closed(wti.source)).0 + pair_fu(
            hand_pair(hi, w, wti)->Some_0,
            info,
        );
        if !source_closed(wti.source) {
            if info.hand_state is Closed {
                fu1 + 10
            } else if fu1 == 20 {
                fu1 + 2
            } else {
                fu1
            }
        } else if pinfu_yaku_han(hi, melds, w, info, wti) == 0 {
            fu1 + 2
        } else {
            fu1
        }
    }
}

/// A hand won on a discard (not seven pairs, not thirteen orphans) is always worth more than
/// the 20 fu base: a closed hand gets 10 fu for it, and an open hand with nothing else counted
/// still gets 2; after rounding it is worth at least 30 fu.
pub proof fn law_ron_fu_above_base(
    hi: HandInterpretation,
    melds: Seq<TileMeld>,
    w: MahjongTileId,
    info: HandInfo,
    wti: WinningTileInfo,
)
    requires
        !is_chiitoi_interpretation(hi, w),
        !is_kokushi_interpretation(hi),
        !source_closed(wti.source),
    ensures
        spec_raw_fu(hi, melds, w, info, wti) > 20,
        info.hand_state is Closed ==> spec_raw_fu(hi, melds, w, info, wti) >= 30,
        rounded_fu(spec_raw_fu(hi, melds, w, info, wti)) >= 30,
{
    lemma_fu_fold_prefix(hi.groups@, w, source_closed(wti.source), 0);
    let raw = spec_raw_fu(hi, melds, w, info, wti);
    assert(rounded_fu(raw) >= 30) by {
        if raw % 10 != 0 {
            assert(raw + 10 - raw % 10 == 10 * (raw / 10 + 1));
        }
    }
}

/// A hand whose shape, wait and pair earn no fu and that wins on a discard is worth 22 fu when
/// open (20, plus 2 for winning on a discard with nothing else counted) and 30 fu when closed.
pub proof fn law_plain_ron_fu(
    hi: HandInterpretation,
    melds: Seq<TileMeld>,
    w: MahjongTileId,
    info: HandInfo,
    wti: WinningTileInfo,
)
    requires
        !is_chiitoi_interpretation(hi, w),
        !is_kokushi_interpretation(hi),
        !source_closed(wti.source),
        fu_fold(hi.groups@, w, false).0 == 20,
        pair_fu(hand_pair(hi, w, wti)->Some_0, info) == 0,
    ensures
        info.hand_state is Open ==> spec_raw_fu(hi, melds, w, info, wti) == 22,
        info.hand_state is Closed ==> spec_raw_fu(hi, melds, w, info, wti) == 30,
{
}

/// A hand whose shape, wait and pair earn no fu and that wins by self-draw is worth 20 fu as
/// pinfu and 22 fu otherwise (2 for the self-draw).
pub proof fn law_plain_tsumo_fu(
    hi: HandInterpretation,
    melds: Seq<TileMeld>,
    w: MahjongTileId,
    info: HandInfo,
    wti: WinningTileInfo,
)
    requires
        !is_chiitoi_interpretation(hi, w),
        !is_kokushi_interpretation(hi),
        source_closed(wti.source),
        fu_fold(hi.groups@, w, true).0 == 20,
        pair_fu(hand_pair(hi, w, wti)->Some_0, info) == 0,
    ensures
        pinfu_yaku_han(hi, melds, w, info, wti) > 0 ==> spec_raw_fu(hi, melds, w, info, wti) == 20,
        pinfu_yaku_han(hi, melds, w, info, wti) == 0 ==> spec_raw_fu(hi, melds, w, info, wti) == 22,
{
}

/// A triplet is worth 2 fu open and 4 fu closed when it is of simples, twice that when it is
/// of terminals or honors; a quad is worth four times its triplet.
pub proof fn law_set_fu_values(t: int)
    ensures
        !(is_terminal_id(t) || is_honor_id(t)) ==> set_fu(MeldType::Triplet, t, false) == 2
            && set_fu(MeldType::Triplet, t, true) == 4 && set_fu(MeldType::Quadruplet, t, false)
            == 8 && set_fu(MeldType::Quadruplet, t, true) == 16,
        is_terminal_id(t) || is_honor_id(t) ==> set_fu(MeldType::Triplet, t, false) == 4
            && set_fu(MeldType::Triplet, t, true) == 8 && set_fu(MeldType::Quadruplet, t, false)
            == 16 && set_fu(MeldType::Quadruplet, t, true) == 32,
{
}

proof fn lemma_set_fu_bounds(k: MeldType, t: int, closed: bool)
    ensures
        2 <= set_fu(k, t, closed) <= 32,
        !(k is Quadruplet) ==> set_fu(k, t, closed) <= 8,
{
}

/// The fu of the shape never shrinks as groups are added.
proof fn lemma_fu_fold_prefix(ms: Seq<TileMeld>, w: MahjongTileId, src_closed: bool, i: int)
    requires
        0 <= i <= ms.len(),
    ensures
        20 <= fu_fold(ms.take(i), w, src_closed).0 <= fu_fold(ms, w, src_closed).0,
    decreases ms.len(),
{
    if i == ms.len() {
        assert(ms.take(i) =~= ms);
        if ms.len() > 0 {
            lemma_fu_fold_prefix(ms.drop_last(), w, src_closed, i - 1);
            assert(ms.drop_last().take(i - 1) =~= ms.drop_last());
            lemma_set_fu_bounds(ms.last().meld_type, first_tile(ms.last()), true);
            lemma_set_fu_bounds(MeldType::Triplet, first_tile(ms.last()), src_closed);
            match fu_fold(ms.drop_last(), w, src_closed).1 {
                Some(p) => lemma_set_fu_bounds(MeldType::Triplet, p, src_closed),
                None => {},
            }
        }
    } else {
        lemma_fu_fold_prefix(ms.drop_last(), w, src_closed, i);
        assert(ms.drop_last().take(i) =~= ms.take(i));
        lemma_set_fu_bounds(ms.last().meld_type, first_tile(ms.last()), true);
        lemma_set_fu_bounds(MeldType::Triplet, first_tile(ms.last()), src_closed);
        match fu_fold(ms.drop_last(), w, src_closed).1 {
            Some(p) => lemma_set_fu_bounds(MeldType::Triplet, p, src_closed),
            None => {},
        }
    }
}

/// Whether some single tile of the melds is tile `t`.
fn has_single_at(groups: &Vec<TileMeld>, t: u8) -> (r: bool)
    requires
        forall|i: int| 0 <= i < groups@.len() ==> (#[trigger] groups@[i]).tile_ids@.len() > 0,
    ensures
        r == single_at(groups@, t as int),
{
    let mut i: usize = 0;
    while i < groups.len()
        invariant
            i <= groups@.len(),
            forall|k: int| 0 <= k < groups@.len() ==> (#[trigger] groups@[k]).tile_ids@.len() > 0,
            forall|k: int|
                0 <= k < i ==> !((#[trigger] groups@[k]).meld_type is SingleTile && first_tile(
                    groups@[k],
                ) == t),
        decreases groups@.len() - i,
    {
        assert(groups@[i as int].tile_ids@.len() > 0);
        if groups[i].meld_type == MeldType::SingleTile && groups[i].tile_ids[0].0 == t {
            return true;
        }
        i += 1;
    }
    false
}

/// Computes the fu of a winning hand without rounding (see `spec_raw_fu`), even if the hand
/// already has enough han to make fu irrelevant for normal scoring.
pub fn compute_raw_fu(
    hand_interpretation: &HandInterpretation,
    melded_tiles: &Vec<TileMeld>,
    winning_tile: MahjongTileId,
    hand_info: &HandInfo,
    winning_tile_info: &WinningTileInfo,
) -> (r: u8)
    requires
        yaku_inputs_ok(*hand_interpretation, melded_tiles@, winning_tile),
        raw_fu_defined(*hand_interpretation, winning_tile, *winning_tile_info),
        spec_raw_fu(*hand_interpretation, melded_tiles@, winning_tile, *hand_info, *winning_tile_info)
            <= 255,
    ensures
        r == spec_raw_fu(
            *hand_interpretation,
            melded_tiles@,
            winning_tile,
            *hand_info,
            *winning_tile_info,
        ),
{
    let ghost ms = hand_interpretation.groups@;
    let groups = &hand_interpretation.groups;
    let w = winning_tile;
    let ghost src = source_closed(winning_tile_info.source);
    proof {
        assert forall|i: int| 0 <= i < ms.len() implies (#[trigger] ms[i]).tile_ids@.len() > 0 by {
            assert(crate::shanten::melds_wf(hand_interpretation.groups@));
            assert(crate::shanten::tile_meld_wf(ms[i]));
            crate::scoring::winning_groups::lemma_meld_shape(ms[i]);
        }
    }
    // special cases: seven pairs is always 25 fu, and thirteen orphans has no defined fu, so it
    // gets 0 fu (it does not matter for a yakuman)
    if ChiitoiYaku::is_chiitoi_hand(hand_interpretation, w) {
        return CHIITOI_FU;
    }
    let mut distinct_terminals_and_honors: u8 = 0;
    let mut t: u8 = 0;
    while t < 34
        invariant
            t <= 34,
            ms == groups@,
            forall|i: int| 0 <= i < ms.len() ==> (#[trigger] ms[i]).tile_ids@.len() > 0,
            distinct_terminals_and_honors == outside_singles_upto(ms, t as int),
            distinct_terminals_and_honors <= t,
        decreases 34 - t,
    {
        if (is_terminal_tile(MahjongTileId(t)) || is_honor_tile(MahjongTileId(t))) && has_single_at(
            groups,
            t,
        ) {
            distinct_terminals_and_honors += 1;
        }
        t += 1;
    }
    if distinct_terminals_and_honors == 13 {
        return 0;
    }
    // every hand starts with 20 fu
    let mut fu: u8 = 20;
    // check the hand shape and the wait type
    let mut pair_so_far: Option<MahjongTileId> = None;
    let mut i: usize = 0;
    while i < groups.len()
        invariant
            i <= ms.len(),
            ms == groups@,
            ms == hand_interpretation.groups@,
            src == source_closed(winning_tile_info.source),
            forall|k: int| 0 <= k < ms.len() ==> (#[trigger] ms[k]).tile_ids@.len() > 0,
            fu == fu_fold(ms.take(i as int), w, src).0,
            match pair_so_far {
                Some(p) => fu_fold(ms.take(i as int), w, src).1 == Some(p.0 as int),
                None => fu_fold(ms.take(i as int), w, src).1 is None,
            },
            fu_fold(ms, w, src).0 <= 255,
        decreases ms.len() - i,
    {
        proof {
            assert(ms.take(i + 1).drop_last() =~= ms.take(i as int));
            assert(ms.take(i + 1).last() == ms[i as int]);
            lemma_fu_fold_prefix(ms, w, src, i + 1);
            assert(ms[i as int].tile_ids@.len() > 0);
        }
        let tile_group = &groups[i];
        if tile_group.meld_type == MeldType::Triplet || tile_group.meld_type == MeldType::Quadruplet {
            // a triplet or quad of the hand
            let meld_fu = compute_fu_for_triplet_or_quad(tile_group, true);
            fu = fu + meld_fu;
        } else if tile_group.meld_type == MeldType::Pair {
            let pair_tile = tile_group.tile_ids[0];
            match pair_so_far {
                None => {
                    pair_so_far = Some(pair_tile);
                },
                Some(previous_pair_tile) => {
                    // a shanpon wait: the pair completed by the winning tile became a triplet,
                    // the other one is the pair of the hand
                    let completed_pair_tile = if previous_pair_tile == w {
                        pair_so_far = Some(pair_tile);
                        previous_pair_tile
                    } else {
                        pair_tile
                    };
                    let completed_shanpon_triplet = TileMeld {
                        meld_type: MeldType::Triplet,
                        tile_ids: vec![completed_pair_tile, completed_pair_tile, completed_pair_tile],
                    };
                    let meld_fu = compute_fu_for_triplet_or_quad(
                        &completed_shanpon_triplet,
                        winning_tile_info.source.is_closed(),
                    );
                    fu = fu + meld_fu;
                },
            }
        } else if tile_group.meld_type == MeldType::Kanchan || tile_group.meld_type
            == MeldType::Penchan || tile_group.meld_type == MeldType::SingleTile {
            // a kanchan, penchan or tanki wait is worth 2 fu
            fu = fu + 2;
        }
        i += 1;
    }
    assert(ms.take(i as int) =~= ms);
    // the pair of the hand (or, if there is none, the tile of the tanki wait)
    let pair_tile = match pair_so_far {
        Some(p) => p,
        None => {
            let mut tanki_tile: Option<MahjongTileId> = None;
            let mut j: usize = 0;
            while j < groups.len()
                invariant
                    j <= ms.len(),
                    ms == groups@,
                    forall|k: int| 0 <= k < ms.len() ==> (#[trigger] ms[k]).tile_ids@.len() > 0,
                    match tanki_tile {
                        Some(p) => last_single(ms.take(j as int)) == Some(p.0 as int),
                        None => last_single(ms.take(j as int)) is None,
                    },
                decreases ms.len() - j,
            {
                proof {
                    assert(ms.take(j + 1).drop_last() =~= ms.take(j as int));
                    assert(ms[j as int].tile_ids@.len() > 0);
                }
                if groups[j].meld_type == MeldType::SingleTile {
                    tanki_tile = Some(groups[j].tile_ids[0]);
                }
                j += 1;
            }
            assert(ms.take(j as int) =~= ms);
            tanki_tile.unwrap()
        },
    };
    if YakuhaiYaku::is_double_yakuhai_tile(pair_tile, hand_info) {
        fu = fu + 4;
    } else if YakuhaiYaku::is_yakuhai_tile(pair_tile, hand_info) {
        fu = fu + 2;
    }
    // lastly, the way the hand won (checked last because of "open pinfu")
    if !winning_tile_info.source.is_closed() {
        if hand_info.hand_state.is_closed() {
            // closed hand winning on a discard
            fu = fu + 10;
        } else if fu == 20 {
            // an open hand winning on a discard with no other fu
            fu = fu + 2;
        }
    } else {
        // winning by self-draw is worth 2 fu, unless the hand is scored for pinfu
        if PinfuYaku.han_value(
            hand_interpretation,
            melded_tiles,
            winning_tile,
            hand_info,
            winning_tile_info,
        ) == 0 {
            fu = fu + 2;
        }
    }
    fu
}

/// The han of menzen tsumo, riichi, ippatsu, pinfu, iipeikou and haitei.
pub open spec fn closed_and_timing_han(
    hi: HandInterpretation,
    melds: Seq<TileMeld>,
    w: MahjongTileId,
    info: HandInfo,
    wti: WinningTileInfo,
) -> int {
    menzen_tsumo_yaku_han(hi, melds, w, info, wti) as int + riichi_yaku_han(hi, melds, w, info, wti) as int + ippatsu_yaku_han(hi, melds, w, info, wti) as int + pinfu_yaku_han(hi, melds, w, info, wti) as int + iipeikou_yaku_han(hi, melds, w, info, wti) as int + haitei_yaku_han(hi, melds, w, info, wti) as int
}

/// The han of houtei, rinshan, chankan, tanyao and yakuhai.
pub open spec fn timing_and_shape_han(
    hi: HandInterpretation,
    melds: Seq<TileMeld>,
    w: MahjongTileId,
    info: HandInfo,
    wti: WinningTileInfo,
) -> int {
    houtei_yaku_han(hi, melds, w, info, wti) as int + rinshan_yaku_han(hi, melds, w, info, wti) as int + chankan_yaku_han(hi, melds, w, info, wti) as int + tanyao_yaku_han(hi, melds, w, info, wti) as int + yakuhai_yaku_han(hi, melds, w, info, wti) as int
}

/// The han of double riichi, chanta, sanshoku doujun, ittsu, toitoi and sanankou.
pub open spec fn terminal_and_sequence_han(
    hi: HandInterpretation,
    melds: Seq<TileMeld>,
    w: MahjongTileId,
    info: HandInfo,
    wti: WinningTileInfo,
) -> int {
    double_riichi_yaku_han(hi, melds, w, info, wti) as int + chanta_yaku_han(hi, melds, w, info, wti) as int + sanshoku_doujun_yaku_han(hi, melds, w, info, wti) as int + ittsu_yaku_han(hi, melds, w, info, wti) as int + toitoi_yaku_han(hi, melds, w, info, wti) as int + sanankou_yaku_han(hi, melds, w, info, wti) as int
}

/// The han of sanshoku doukou, sankantsu, chiitoi, honroutou and shousangen.
pub open spec fn set_and_pair_han(
    hi: HandInterpretation,
    melds: Seq<TileMeld>,
    w: MahjongTileId,
    info: HandInfo,
    wti: WinningTileInfo,
) -> int {
    sanshoku_doukou_yaku_han(hi, melds, w, info, wti) as int + sankantsu_yaku_han(hi, melds, w, info, wti) as int + chiitoi_yaku_han(hi, melds, w, info, wti) as int + honroutou_yaku_han(hi, melds, w, info, wti) as int + shousangen_yaku_han(hi, melds, w, info, wti) as int
}

/// The han of ryanpeikou, honitsu, junchan and chinitsu.
pub open spec fn flush_and_peikou_han(
    hi: HandInterpretation,
    melds: Seq<TileMeld>,
    w: MahjongTileId,
    info: HandInfo,
    wti: WinningTileInfo,
) -> int {
    ryanpeikou_yaku_han(hi, melds, w, info, wti) as int + honitsu_yaku_han(hi, melds, w, info, wti) as int + junchan_yaku_han(hi, melds, w, info, wti) as int + chinitsu_yaku_han(hi, melds, w, info, wti) as int
}

/// The han of all the yaku of a winning hand, in the order of `get_yaku_list`.
pub open spec fn spec_yaku_han(
    hi: HandInterpretation,
    melds: Seq<TileMeld>,
    w: MahjongTileId,
    info: HandInfo,
    wti: WinningTileInfo,
) -> int {
    closed_and_timing_han(hi, melds, w, info, wti) + timing_and_shape_han(hi, melds, w, info, wti) + terminal_and_sequence_han(hi, melds, w, info, wti) + set_and_pair_han(hi, melds, w, info, wti) + flush_and_peikou_han(hi, melds, w, info, wti)
}

/// The counts of the interpreted hand with the winning tile.
pub open spec fn counts_with_winning_tile(hi: HandInterpretation, w: MahjongTileId) -> Seq<u8> {
    hi.total_tile_count_array@.update(w.0 as int, (hi.total_tile_count_array@[w.0 as int] + 1) as u8)
}

/// The han from dora: every dora tile counts once for each copy of it in the hand.
pub open spec fn dora_han(counts: Seq<u8>, doras: Seq<MahjongTileId>) -> int
    decreases doras.len(),
{
    if doras.len() == 0 {
        0
    } else {
        dora_han(counts, doras.drop_last()) + counts[doras.last().0 as int]
    }
}

/// Fu rounded up to the next multiple of 10.
pub open spec fn rounded_fu(fu: int) -> int {
    if fu % 10 == 0 {
        fu
    } else {
        fu + 10 - fu % 10
    }
}

/// The han (from yaku and dora) and fu (rounded) of one interpretation of a winning hand: none
/// without a yaku; seven pairs is 25 fu.
pub open spec fn spec_interpretation_score(
    hi: HandInterpretation,
    melds: Seq<TileMeld>,
    w: MahjongTileId,
    info: HandInfo,
    wti: WinningTileInfo,
) -> (int, int) {
    let han = spec_yaku_han(hi, melds, w, info, wti);
    if han == 0 {
        (0, 0)
    } else {
        let total = han + dora_han(counts_with_winning_tile(hi, w), info.dora_tiles@);
        if is_chiitoi_interpretation(hi, w) {
            (total, CHIITOI_FU as int)
        } else {
            (total, rounded_fu(spec_raw_fu(hi, melds, w, info, wti)))
        }
    }
}

/// The score of the interpretation fits: the han and the fu fit a `u8` (the fu before rounding
/// fits below 251), and the fu can be counted.
pub open spec fn score_fits(
    hi: HandInterpretation,
    melds: Seq<TileMeld>,
    w: MahjongTileId,
    info: HandInfo,
    wti: WinningTileInfo,
) -> bool {
    spec_yaku_han(hi, melds, w, info, wti) > 0 ==> {
        &&& spec_yaku_han(hi, melds, w, info, wti) + dora_han(
            counts_with_winning_tile(hi, w),
            info.dora_tiles@,
        ) <= 255
        &&& !is_chiitoi_interpretation(hi, w) ==> raw_fu_defined(hi, w, wti) && spec_raw_fu(
            hi,
            melds,
            w,
            info,
            wti,
        ) <= 250
    }
}

proof fn lemma_dora_han_prefix(counts: Seq<u8>, doras: Seq<MahjongTileId>, i: int)
    requires
        0 <= i <= doras.len(),
    ensures
        0 <= dora_han(counts, doras.take(i)) <= dora_han(counts, doras),
    decreases doras.len(),
{
    if i == doras.len() {
        assert(doras.take(i) =~= doras);
        if doras.len() > 0 {
            lemma_dora_han_prefix(counts, doras.drop_last(), i - 1);
            assert(doras.drop_last().take(i - 1) =~= doras.drop_last());
        }
    } else {
        lemma_dora_han_prefix(counts, doras.drop_last(), i);
        assert(doras.drop_last().take(i) =~= doras.take(i));
    }
}

/// The han of menzen tsumo, riichi, ippatsu, pinfu, iipeikou and haitei (see `closed_and_timing_han`).
fn yaku_han_closed_and_timing(
    hand_interpretation: &HandInterpretation,
    melded_tiles: &Vec<TileMeld>,
    winning_tile: MahjongTileId,
    hand_info: &HandInfo,
    winning_tile_info: &WinningTileInfo,
) -> (r: u8)
    requires
        yaku_inputs_ok(*hand_interpretation, melded_tiles@, winning_tile),
    ensures
        r == closed_and_timing_han(*hand_interpretation, melded_tiles@, winning_tile, *hand_info, *winning_tile_info),
        r <= 6,
{
    let mut total_han: u8 = 0;
    let han = MenzenTsumoYaku.han_value(hand_interpretation, melded_tiles, winning_tile, hand_info, winning_tile_info);
    assert(han <= 1);
    total_han = total_han + han;
    let han = RiichiYaku.han_value(hand_interpretation, melded_tiles, winning_tile, hand_info, winning_tile_info);
    assert(han <= 1);
    total_han = total_han + han;
    let han = IppatsuYaku.han_value(hand_interpretation, melded_tiles, winning_tile, hand_info, winning_tile_info);
    assert(han <= 1);
    total_han = total_han + han;
    let han = PinfuYaku.han_value(hand_interpretation, melded_tiles, winning_tile, hand_info, winning_tile_info);
    assert(han <= 1);
    total_han = total_han + han;
    let han = IipeikouYaku.han_value(hand_interpretation, melded_tiles, winning_tile, hand_info, winning_tile_info);
    assert(han <= 1);
    total_han = total_han + han;
    let han = HaiteiYaku.han_value(hand_interpretation, melded_tiles, winning_tile, hand_info, winning_tile_info);
    assert(han <= 1);
    total_han = total_han + han;
    total_han
}

/// The han of houtei, rinshan, chankan, tanyao and yakuhai (see `timing_and_shape_han`).
fn yaku_han_timing_and_shape(
    hand_interpretation: &HandInterpretation,
    melded_tiles: &Vec<TileMeld>,
    winning_tile: MahjongTileId,
    hand_info: &HandInfo,
    winning_tile_info: &WinningTileInfo,
) -> (r: u8)
    requires
        yaku_inputs_ok(*hand_interpretation, melded_tiles@, winning_tile),
    ensures
        r == timing_and_shape_han(*hand_interpretation, melded_tiles@, winning_tile, *hand_info, *winning_tile_info),
        r <= 18,
{
    let mut total_han: u8 = 0;
    let han = HouteiYaku.han_value(hand_interpretation, melded_tiles, winning_tile, hand_info, winning_tile_info);
    assert(han <= 1);
    total_han = total_han + han;
    let han = RinshanYaku.han_value(hand_interpretation, melded_tiles, winning_tile, hand_info, winning_tile_info);
    assert(han <= 1);
    total_han = total_han + han;
    let han = ChankanYaku.han_value(hand_interpretation, melded_tiles, winning_tile, hand_info, winning_tile_info);
    assert(han <= 1);
    total_han = total_han + han;
    let han = TanyaoYaku.han_value(hand_interpretation, melded_tiles, winning_tile, hand_info, winning_tile_info);
    assert(han <= 1);
    total_han = total_han + han;
    let han = YakuhaiYaku.han_value(hand_interpretation, melded_tiles, winning_tile, hand_info, winning_tile_info);
    assert(han <= 14);
    total_han = total_han + han;
    total_han
}

/// The han of double riichi, chanta, sanshoku doujun, ittsu, toitoi and sanankou (see `terminal_and_sequence_han`).
fn yaku_han_terminal_and_sequence(
    hand_interpretation: &HandInterpretation,
    melded_tiles: &Vec<TileMeld>,
    winning_tile: MahjongTileId,
    hand_info: &HandInfo,
    winning_tile_info: &WinningTileInfo,
) -> (r: u8)
    requires
        yaku_inputs_ok(*hand_interpretation, melded_tiles@, winning_tile),
    ensures
        r == terminal_and_sequence_han(*hand_interpretation, melded_tiles@, winning_tile, *hand_info, *winning_tile_info),
        r <= 12,
{
    let mut total_han: u8 = 0;
    let han = DoubleRiichiYaku.han_value(hand_interpretation, melded_tiles, winning_tile, hand_info, winning_tile_info);
    assert(han <= 2);
    total_han = total_han + han;
    let han = ChantaYaku.han_value(hand_interpretation, melded_tiles, winning_tile, hand_info, winning_tile_info);
    assert(han <= 2);
    total_han = total_han + han;
    let han = SanshokuDoujunYaku.han_value(hand_interpretation, melded_tiles, winning_tile, hand_info, winning_tile_info);
    assert(han <= 2);
    total_han = total_han + han;
    let han = IttsuYaku.han_value(hand_interpretation, melded_tiles, winning_tile, hand_info, winning_tile_info);
    assert(han <= 2);
    total_han = total_han + han;
    let han = ToitoiYaku.han_value(hand_interpretation, melded_tiles, winning_tile, hand_info, winning_tile_info);
    assert(han <= 2);
    total_han = total_han + han;
    let han = SanankouYaku.han_value(hand_interpretation, melded_tiles, winning_tile, hand_info, winning_tile_info);
    assert(han <= 2);
    total_han = total_han + han;
    total_han
}

/// The han of sanshoku doukou, sankantsu, chiitoi, honroutou and shousangen (see `set_and_pair_han`).
fn yaku_han_set_and_pair(
    hand_interpretation: &HandInterpretation,
    melded_tiles: &Vec<TileMeld>,
    winning_tile: MahjongTileId,
    hand_info: &HandInfo,
    winning_tile_info: &WinningTileInfo,
) -> (r: u8)
    requires
        yaku_inputs_ok(*hand_interpretation, melded_tiles@, winning_tile),
    ensures
        r == set_and_pair_han(*hand_interpretation, melded_tiles@, winning_tile, *hand_info, *winning_tile_info),
        r <= 10,
{
    let mut total_han: u8 = 0;
    let han = SanshokuDoukouYaku.han_value(hand_interpretation, melded_tiles, winning_tile, hand_info, winning_tile_info);
    assert(han <= 2);
    total_han = total_han + han;
    let han = SankantsuYaku.han_value(hand_interpretation, melded_tiles, winning_tile, hand_info, winning_tile_info);
    assert(han <= 2);
    total_han = total_han + han;
    let han = ChiitoiYaku.han_value(hand_interpretation, melded_tiles, winning_tile, hand_info, winning_tile_info);
    assert(han <= 2);
    total_han = total_han + han;
    let han = HonroutouYaku.han_value(hand_interpretation, melded_tiles, winning_tile, hand_info, winning_tile_info);
    assert(han <= 2);
    total_han = total_han + han;
    let han = ShousangenYaku.han_value(hand_interpretation, melded_tiles, winning_tile, hand_info, winning_tile_info);
    assert(han <= 2);
    total_han = total_han + han;
    total_han
}

/// The han of ryanpeikou, honitsu, junchan and chinitsu (see `flush_and_peikou_han`).
fn yaku_han_flush_and_peikou(
    hand_interpretation: &HandInterpretation,
    melded_tiles: &Vec<TileMeld>,
    winning_tile: MahjongTileId,
    hand_info: &HandInfo,
    winning_tile_info: &WinningTileInfo,
) -> (r: u8)
    requires
        yaku_inputs_ok(*hand_interpretation, melded_tiles@, winning_tile),
    ensures
        r == flush_and_peikou_han(*hand_interpretation, melded_tiles@, winning_tile, *hand_info, *winning_tile_info),
        r <= 15,
{
    let mut total_han: u8 = 0;
    let han = RyanpeikouYaku.han_value(hand_interpretation, melded_tiles, winning_tile, hand_info, winning_tile_info);
    assert(han <= 3);
    total_han = total_han + han;
    let han = HonitsuYaku.han_value(hand_interpretation, melded_tiles, winning_tile, hand_info, winning_tile_info);
    assert(han <= 3);
    total_han = total_han + han;
    let han = JunchanYaku.han_value(hand_interpretation, melded_tiles, winning_tile, hand_info, winning_tile_info);
    assert(han <= 3);
    total_han = total_han + han;
    let han = ChinitsuYaku.han_value(hand_interpretation, melded_tiles, winning_tile, hand_info, winning_tile_info);
    assert(han <= 6);
    total_han = total_han + han;
    total_han
}

/// The han and fu of one interpretation of a winning hand (see `spec_interpretation_score`).
pub fn compute_han_and_fu_hand_interpretation(
    hand_interpretation: &HandInterpretation,
    melded_tiles: &Vec<TileMeld>,
    winning_tile: MahjongTileId,
    hand_info: &HandInfo,
    winning_tile_info: &WinningTileInfo,
) -> (r: (u8, u8))
    requires
        yaku_inputs_ok(*hand_interpretation, melded_tiles@, winning_tile),
        forall|i: int|
            0 <= i < hand_info.dora_tiles@.len() ==> crate::mahjong_tile::valid_id(
                (#[trigger] hand_info.dora_tiles@[i]).0 as int,
            ),
        score_fits(*hand_interpretation, melded_tiles@, winning_tile, *hand_info, *winning_tile_info),
    ensures
        (r.0 as int, r.1 as int) == spec_interpretation_score(
            *hand_interpretation,
            melded_tiles@,
            winning_tile,
            *hand_info,
            *winning_tile_info,
        ),
{
    // for each yaku: does the hand meet its conditions? if so, add its han
    let mut total_han: u8 = 0;
    total_han = total_han + yaku_han_closed_and_timing(hand_interpretation, melded_tiles, winning_tile, hand_info, winning_tile_info);
    total_han = total_han + yaku_han_timing_and_shape(hand_interpretation, melded_tiles, winning_tile, hand_info, winning_tile_info);
    total_han = total_han + yaku_han_terminal_and_sequence(hand_interpretation, melded_tiles, winning_tile, hand_info, winning_tile_info);
    total_han = total_han + yaku_han_set_and_pair(hand_interpretation, melded_tiles, winning_tile, hand_info, winning_tile_info);
    total_han = total_han + yaku_han_flush_and_peikou(hand_interpretation, melded_tiles, winning_tile, hand_info, winning_tile_info);
    if total_han == 0 {
        // without at least 1 han from yaku, the hand does not score
        return (0, 0);
    }
    // add the han from dora
    let ghost counts = counts_with_winning_tile(*hand_interpretation, winning_tile);
    let ghost doras = hand_info.dora_tiles@;
    let mut total_hand_tiles = hand_interpretation.total_tile_count_array;
    proof {
        let wi = winning_tile.0 as int;
        crate::shanten::lemma_id_count_nonneg(crate::scoring::melded_ids(melded_tiles@), wi);
        assert(hand_interpretation.total_tile_count_array@[wi] + 1 + crate::shanten::id_count(
            crate::scoring::melded_ids(melded_tiles@),
            wi,
        ) <= 255);
    }
    total_hand_tiles[winning_tile.0 as usize] = total_hand_tiles[winning_tile.0 as usize] + 1;
    assert(total_hand_tiles@ =~= counts);
    let mut han_from_dora: u8 = 0;
    let mut d: usize = 0;
    while d < hand_info.dora_tiles.len()
        invariant
            d <= doras.len(),
            doras == hand_info.dora_tiles@,
            total_hand_tiles@ == counts,
            counts.len() == 34,
            forall|i: int| 0 <= i < doras.len() ==> crate::mahjong_tile::valid_id((#[trigger] doras[i]).0 as int),
            han_from_dora == dora_han(counts, doras.take(d as int)),
            total_han as int + dora_han(counts, doras) <= 255,
        decreases doras.len() - d,
    {
        proof {
            assert(doras.take(d + 1).drop_last() =~= doras.take(d as int));
            assert(crate::mahjong_tile::valid_id(doras[d as int].0 as int));
            lemma_dora_han_prefix(counts, doras, d + 1);
        }
        let dora_tile = hand_info.dora_tiles[d];
        han_from_dora = han_from_dora + total_hand_tiles[dora_tile.0 as usize];
        d += 1;
    }
    assert(doras.take(d as int) =~= doras);
    let total_han = total_han + han_from_dora;
    // seven pairs is locked to 25 fu (no rounding)
    if ChiitoiYaku::is_chiitoi_hand(hand_interpretation, winning_tile) {
        return (total_han, CHIITOI_FU);
    }
    let mut fu = compute_raw_fu(
        hand_interpretation,
        melded_tiles,
        winning_tile,
        hand_info,
        winning_tile_info,
    );
    // round the fu up to the nearest 10
    let fu_remainder = fu % 10;
    if fu_remainder != 0 {
        fu = fu + (10 - fu_remainder);
    }
    (total_han, fu)
}

/// The counts with one more copy of tile `w`.
pub open spec fn counts_with_tile(c: Seq<u8>, w: MahjongTileId) -> Seq<u8> {
    c.update(w.0 as int, (c[w.0 as int] + 1) as u8)
}

/// What a group adds to the counts that check a tenpai interpretation against the winning
/// tile `w`: complete groups, incomplete groups other than pairs, pairs, incomplete groups
/// (other than pairs) that `w` completes, and pairs that `w` completes.
pub open spec fn tenpai_step(g: (MeldType, int), w: MahjongTileId) -> (int, int, int, int, int) {
    let completes = crate::shanten::shape_completions(g.0, g.1).contains(w);
    if g.0 is Pair {
        (0, 0, 1, 0, if completes {
            1int
        } else {
            0int
        })
    } else if !crate::shanten::spec_is_complete(g.0) {
        (0, 1, 0, if completes {
            1int
        } else {
            0int
        }, 0)
    } else {
        (1, 0, 0, 0, 0)
    }
}

/// The counts of `tenpai_step` over all groups.
pub open spec fn tenpai_counts(x: Seq<(MeldType, int)>, w: MahjongTileId) -> (int, int, int, int, int)
    decreases x.len(),
{
    if x.len() == 0 {
        (0, 0, 0, 0, 0)
    } else {
        let p = tenpai_counts(x.drop_last(), w);
        let q = tenpai_step(x.last(), w);
        (p.0 + q.0, p.1 + q.1, p.2 + q.2, p.3 + q.3, p.4 + q.4)
    }
}

/// The winning tile completes the interpretation: three complete groups, a pair and an
/// incomplete group that it completes; three complete groups and two pairs, one of which it
/// completes (a shanpon wait); or four complete groups and an incomplete group that it
/// completes (a tanki wait).
pub open spec fn valid_tenpai_shape(x: Seq<(MeldType, int)>, w: MahjongTileId) -> bool {
    let k = tenpai_counts(x, w);
    ||| (k.1 == 1 && k.2 == 1 && k.3 == 1 && k.4 == 0 && k.0 == 3)
    ||| (k.1 == 0 && k.2 == 2 && k.3 == 0 && k.4 == 1 && k.0 == 3)
    ||| (k.1 == 1 && k.2 == 0 && k.3 == 1 && k.0 == 4)
}

/// Seven pairs: a pair of every tile held.
pub open spec fn chiitoi_model(c: Seq<u8>) -> Seq<(MeldType, int)>
    decreases c.len(),
{
    if c.len() == 0 {
        seq![]
    } else if c.last() > 0 {
        chiitoi_model(c.drop_last()).push((MeldType::Pair, c.len() - 1))
    } else {
        chiitoi_model(c.drop_last())
    }
}

/// Thirteen orphans: a single tile of every tile held once, a pair of every tile held twice.
pub open spec fn kokushi_model(c: Seq<u8>) -> Seq<(MeldType, int)>
    decreases c.len(),
{
    if c.len() == 0 {
        seq![]
    } else if c.last() == 1 {
        kokushi_model(c.drop_last()).push((MeldType::SingleTile, c.len() - 1))
    } else if c.last() == 2 {
        kokushi_model(c.drop_last()).push((MeldType::Pair, c.len() - 1))
    } else {
        kokushi_model(c.drop_last())
    }
}

/// A standard interpretation of the hand `c` (of the lowest shanten, at most tenpai) that the
/// winning tile `w` completes into a winning hand.
pub open spec fn is_standard_winning_interpretation(c: Seq<u8>, w: MahjongTileId, hi: HandInterpretation) -> bool {
    let comps = crate::shanten::hand_interpretations(c);
    &&& hi.total_tile_count_array@ == c
    &&& crate::shanten::interp_ok(hi)
    &&& comps.contains(hi.model())
    &&& crate::shanten::g_standard_shanten(hi.model()) == crate::shanten::min_int(
        0,
        crate::shanten::min_standard_shanten(comps),
    )
    &&& crate::shanten::spec_shanten(counts_with_tile(c, w)) == -1
    &&& valid_tenpai_shape(hi.model(), w)
}

/// An interpretation of the hand `c` completed by the winning tile `w`: a standard one (see
/// `is_standard_winning_interpretation`), or, when the hand with the winning tile is seven pairs
/// or thirteen orphans, that hand with its pairs or its orphans as groups.
pub open spec fn is_winning_interpretation(c: Seq<u8>, w: MahjongTileId, hi: HandInterpretation) -> bool {
    let cw = counts_with_tile(c, w);
    ||| is_standard_winning_interpretation(c, w, hi)
    ||| (crate::shanten::spec_chiitoi_shanten(cw) == -1 && hi.total_tile_count_array@ == cw
        && crate::shanten::melds_match(hi.groups@, chiitoi_model(cw)))
    ||| (crate::shanten::spec_kokushi_shanten(cw) == -1 && hi.total_tile_count_array@ == cw
        && crate::shanten::melds_match(hi.groups@, kokushi_model(cw)))
}

pub proof fn lemma_count_sum_add_one(c: Seq<u8>, i: int)
    requires
        0 <= i < c.len(),
        c[i] < 255,
    ensures
        crate::mahjong_tile::count_sum(c.update(i, (c[i] + 1) as u8)) == crate::mahjong_tile::count_sum(c) + 1,
    decreases c.len(),
{
    let d = c.update(i, (c[i] + 1) as u8);
    if i < c.len() - 1 {
        lemma_count_sum_add_one(c.drop_last(), i);
        assert(d.drop_last() =~= c.drop_last().update(i, (c[i] + 1) as u8));
    } else {
        assert(d.drop_last() =~= c.drop_last());
    }
}

/// The counts of a hand with one more copy of tile `w`.
fn add_tile(c: [u8; 34], w: MahjongTileId) -> (r: [u8; 34])
    requires
        crate::mahjong_tile::valid_id(w.0 as int),
        c@[w.0 as int] < 255,
    ensures
        r@ == counts_with_tile(c@, w),
        crate::mahjong_tile::count_sum(r@) == crate::mahjong_tile::count_sum(c@) + 1,
{
    proof {
        lemma_count_sum_add_one(c@, w.0 as int);
    }
    let mut r = c;
    r[w.0 as usize] = r[w.0 as usize] + 1;
    assert(r@ =~= counts_with_tile(c@, w));
    r
}

/// The counts that check an interpretation against the winning tile (see `tenpai_counts`).
fn count_tenpai_groups(hand_interpretation: &HandInterpretation, winning_tile: MahjongTileId) -> (r: (
    usize,
    usize,
    usize,
    usize,
    usize,
))
    requires
        hand_interpretation.wf(),
    ensures
        (r.0 as int, r.1 as int, r.2 as int, r.3 as int, r.4 as int) == tenpai_counts(
            hand_interpretation.model(),
            winning_tile,
        ),
{
    let ghost x = hand_interpretation.model();
    let groups = &hand_interpretation.groups;
    let mut num_complete_groups: usize = 0;
    let mut num_incomplete_groups_besides_pairs: usize = 0;
    let mut num_pairs: usize = 0;
    let mut num_incomplete_groups_completed_by_winning_tile: usize = 0;
    let mut num_pairs_completed_by_winning_tile: usize = 0;
    let mut i: usize = 0;
    while i < groups.len()
        invariant
            i <= groups@.len(),
            x == hand_interpretation.model(),
            x.len() == groups@.len(),
            groups@ == hand_interpretation.groups@,
            hand_interpretation.wf(),
            (
                num_complete_groups as int,
                num_incomplete_groups_besides_pairs as int,
                num_pairs as int,
                num_incomplete_groups_completed_by_winning_tile as int,
                num_pairs_completed_by_winning_tile as int,
            ) == tenpai_counts(x.take(i as int), winning_tile),
            num_complete_groups + num_incomplete_groups_besides_pairs + num_pairs <= i,
            num_incomplete_groups_completed_by_winning_tile <= i,
            num_pairs_completed_by_winning_tile <= i,
        decreases groups@.len() - i,
    {
        proof {
            assert(x.take(i + 1).drop_last() =~= x.take(i as int));
            assert(x.take(i + 1).last() == x[i as int]);
            assert(crate::shanten::melds_wf(hand_interpretation.groups@));
            assert(crate::shanten::tile_meld_wf(hand_interpretation.groups@[i as int]));
        }
        let tile_meld = &groups[i];
        assert(x[i as int] == (tile_meld.meld_type, tile_meld.tile_ids@[0].0 as int));
        if tile_meld.meld_type == MeldType::Pair {
            num_pairs += 1;
            if crate::shanten::ids_contain(&tile_meld.tile_ids_to_complete_group(), winning_tile) {
                num_pairs_completed_by_winning_tile += 1;
            }
        } else if !tile_meld.is_complete() {
            num_incomplete_groups_besides_pairs += 1;
            if crate::shanten::ids_contain(&tile_meld.tile_ids_to_complete_group(), winning_tile) {
                num_incomplete_groups_completed_by_winning_tile += 1;
            }
        } else {
            num_complete_groups += 1;
        }
        i += 1;
    }
    assert(x.take(i as int) =~= x);
    (
        num_complete_groups,
        num_incomplete_groups_besides_pairs,
        num_pairs,
        num_incomplete_groups_completed_by_winning_tile,
        num_pairs_completed_by_winning_tile,
    )
}

/// A pair of tile `t`.
fn pair_meld(t: u8) -> (r: TileMeld)
    requires
        t < 34,
    ensures
        crate::shanten::meld_matches(r, (MeldType::Pair, t as int)),
{
    let r = TileMeld { meld_type: MeldType::Pair, tile_ids: vec![MahjongTileId(t), MahjongTileId(t)] };
    assert(r.tile_ids@ =~= crate::shanten::shape_ids(MeldType::Pair, t as int));
    r
}

/// A single tile `t`.
fn single_meld(t: u8) -> (r: TileMeld)
    requires
        t < 34,
    ensures
        crate::shanten::meld_matches(r, (MeldType::SingleTile, t as int)),
{
    let r = TileMeld { meld_type: MeldType::SingleTile, tile_ids: vec![MahjongTileId(t)] };
    assert(r.tile_ids@ =~= crate::shanten::shape_ids(MeldType::SingleTile, t as int));
    r
}

proof fn lemma_melds_match_push(ms: Seq<TileMeld>, gs: Seq<(MeldType, int)>, m: TileMeld, g: (MeldType, int))
    requires
        crate::shanten::melds_match(ms, gs),
        crate::shanten::meld_matches(m, g),
    ensures
        crate::shanten::melds_match(ms.push(m), gs.push(g)),
{
    assert forall|i: int| 0 <= i < ms.len() + 1 implies #[trigger] crate::shanten::meld_matches(
        ms.push(m)[i],
        gs.push(g)[i],
    ) by {
        if i < ms.len() {
            assert(ms.push(m)[i] == ms[i]);
            assert(gs.push(g)[i] == gs[i]);
        }
    }
}

/// The interpretations of the hand that the winning tile completes (see
/// `is_winning_interpretation`): the standard ones of the lowest shanten that it completes,
/// then seven pairs and thirteen orphans when the hand with the winning tile is one of them.
fn get_interpretations_with_valid_tenpai(
    hand_tiles: [u8; 34],
    winning_tile: MahjongTileId,
) -> (r: Vec<HandInterpretation>)
    requires
        crate::mahjong_tile::count_sum(hand_tiles@) == 13,
        crate::hand_shape::honors_at_most_four(counts_with_tile(hand_tiles@, winning_tile)),
        crate::mahjong_tile::valid_id(winning_tile.0 as int),
    ensures
        forall|j: int| 0 <= j < r@.len() ==> is_winning_interpretation(hand_tiles@, winning_tile, #[trigger] r@[j]),
        forall|x: Seq<(MeldType, int)>|
            #[trigger] crate::shanten::hand_interpretations(hand_tiles@).contains(x)
                && crate::shanten::g_standard_shanten(x) == crate::shanten::min_int(
                0,
                crate::shanten::min_standard_shanten(crate::shanten::hand_interpretations(hand_tiles@)),
            ) && crate::shanten::spec_shanten(counts_with_tile(hand_tiles@, winning_tile)) == -1
                && valid_tenpai_shape(x, winning_tile) ==> exists|j: int|
                0 <= j < r@.len() && (#[trigger] r@[j]).model() == x
                    && is_standard_winning_interpretation(hand_tiles@, winning_tile, r@[j]),
        crate::shanten::spec_chiitoi_shanten(counts_with_tile(hand_tiles@, winning_tile)) == -1
            ==> exists|j: int|
            0 <= j < r@.len() && (#[trigger] r@[j]).total_tile_count_array@ == counts_with_tile(
                hand_tiles@,
                winning_tile,
            ) && crate::shanten::melds_match(
                r@[j].groups@,
                chiitoi_model(counts_with_tile(hand_tiles@, winning_tile)),
            ),
        crate::shanten::spec_kokushi_shanten(counts_with_tile(hand_tiles@, winning_tile)) == -1
            ==> exists|j: int|
            0 <= j < r@.len() && (#[trigger] r@[j]).total_tile_count_array@ == counts_with_tile(
                hand_tiles@,
                winning_tile,
            ) && crate::shanten::melds_match(
                r@[j].groups@,
                kokushi_model(counts_with_tile(hand_tiles@, winning_tile)),
            ),
{
    let ghost c = hand_tiles@;
    let ghost cw = counts_with_tile(c, winning_tile);
    let ghost comps = crate::shanten::hand_interpretations(c);
    let ghost best = crate::shanten::min_int(0, crate::shanten::min_standard_shanten(comps));
    proof {
        crate::shanten::lemma_count_sum_bound_each(c);
        assert forall|h: int| 27 <= h < 34 implies #[trigger] c[h] <= 4 by {
            assert(cw[h] <= 4);
            if h != winning_tile.0 {
                assert(cw[h] == c[h]);
            }
        }
        assert(c[winning_tile.0 as int] <= 13);
    }
    let mut interpretations = crate::shanten::get_hand_interpretations_min_shanten(hand_tiles, 0);
    let ghost all = interpretations@;
    let mut valid_interpretations: Vec<HandInterpretation> = Vec::new();
    while interpretations.len() > 0
        invariant
            c == hand_tiles@,
            cw == counts_with_tile(c, winning_tile),
            comps == crate::shanten::hand_interpretations(c),
            best == crate::shanten::min_int(0, crate::shanten::min_standard_shanten(comps)),
            crate::mahjong_tile::count_sum(c) == 13,
            crate::hand_shape::honors_at_most_four(cw),
            crate::mahjong_tile::valid_id(winning_tile.0 as int),
            c[winning_tile.0 as int] <= 13,
            interpretations@ == all.take(interpretations@.len() as int),
            interpretations@.len() <= all.len(),
            forall|j: int|
                0 <= j < all.len() ==> {
                    &&& crate::shanten::interp_ok(#[trigger] all[j])
                    &&& all[j].total_tile_count_array == hand_tiles
                    &&& comps.contains(all[j].model())
                    &&& crate::shanten::g_standard_shanten(all[j].model()) == best
                },
            forall|j: int|
                0 <= j < valid_interpretations@.len() ==> is_standard_winning_interpretation(
                    c,
                    winning_tile,
                    #[trigger] valid_interpretations@[j],
                ),
            forall|k: int|
                interpretations@.len() <= k < all.len() && crate::shanten::spec_shanten(cw) == -1
                    && valid_tenpai_shape(#[trigger] all[k].model(), winning_tile) ==> exists|j: int|
                    0 <= j < valid_interpretations@.len() && valid_interpretations@[j].model()
                        == all[k].model(),
            forall|x: Seq<(MeldType, int)>|
                #[trigger] comps.contains(x) && crate::shanten::g_standard_shanten(x) == best
                    ==> exists|j: int| 0 <= j < all.len() && all[j].model() == x,
        decreases interpretations@.len(),
    {
        let ghost k = interpretations@.len() - 1;
        let ghost before = valid_interpretations@;
        let interpretation = interpretations.pop().unwrap();
        assert(interpretation == all[k]);
        assert(all.take(k) =~= interpretations@);
        let total_tile_count_array = add_tile(interpretation.total_tile_count_array, winning_tile);
        let total_shanten = crate::shanten::get_shanten_optimized(total_tile_count_array);
        let ghost pushed = false;
        if total_shanten == -1 {
            // check if the winning tile completes the last incomplete group
            let counts = count_tenpai_groups(&interpretation, winning_tile);
            let (
                num_complete_groups,
                num_incomplete_groups_besides_pairs,
                num_pairs,
                num_incomplete_groups_completed_by_winning_tile,
                num_pairs_completed_by_winning_tile,
            ) = counts;
            if (num_incomplete_groups_besides_pairs == 1 && num_pairs == 1
                && num_incomplete_groups_completed_by_winning_tile == 1
                && num_pairs_completed_by_winning_tile == 0 && num_complete_groups == 3) || (
            num_incomplete_groups_besides_pairs == 0 && num_pairs == 2
                && num_incomplete_groups_completed_by_winning_tile == 0
                && num_pairs_completed_by_winning_tile == 1 && num_complete_groups == 3) || (
            num_incomplete_groups_besides_pairs == 1 && num_pairs == 0
                && num_incomplete_groups_completed_by_winning_tile == 1 && num_complete_groups
                == 4) {
                valid_interpretations.push(interpretation);
                proof {
                    pushed = true;
                }
            }
        }
        proof {
            assert(total_tile_count_array@ == cw);
            assert(pushed ==> valid_interpretations@ == before.push(all[k]));
            assert(!pushed ==> valid_interpretations@ == before);
            assert(pushed <==> (crate::shanten::spec_shanten(cw) == -1 && valid_tenpai_shape(
                all[k].model(),
                winning_tile,
            )));
            assert forall|j: int|
                0 <= j < valid_interpretations@.len() implies is_standard_winning_interpretation(
                c,
                winning_tile,
                #[trigger] valid_interpretations@[j],
            ) by {
                if j < before.len() {
                    assert(valid_interpretations@[j] == before[j]);
                }
            }
            assert forall|k2: int|
                interpretations@.len() <= k2 < all.len() && crate::shanten::spec_shanten(cw) == -1
                    && valid_tenpai_shape(#[trigger] all[k2].model(), winning_tile) implies exists|j: int|
                    0 <= j < valid_interpretations@.len() && valid_interpretations@[j].model()
                        == all[k2].model() by {
                if k2 == k {
                    assert(valid_interpretations@[before.len() as int] == all[k]);
                } else {
                    let j = choose|j: int|
                        0 <= j < before.len() && before[j].model() == all[k2].model();
                    assert(valid_interpretations@[j] == before[j]);
                }
            }
        }
    }
    proof {
        assert forall|x: Seq<(MeldType, int)>|
            #[trigger] comps.contains(x) && crate::shanten::g_standard_shanten(x) == best
                && crate::shanten::spec_shanten(cw) == -1 && valid_tenpai_shape(x, winning_tile)
                implies exists|j: int|
            0 <= j < valid_interpretations@.len() && (#[trigger] valid_interpretations@[j]).model() == x
                && is_standard_winning_interpretation(c, winning_tile, valid_interpretations@[j]) by {
            let k = choose|k: int| 0 <= k < all.len() && all[k].model() == x;
            assert(valid_tenpai_shape(all[k].model(), winning_tile));
            let j = choose|j: int|
                0 <= j < valid_interpretations@.len() && valid_interpretations@[j].model() == all[k].model();
            assert(is_standard_winning_interpretation(c, winning_tile, valid_interpretations@[j]));
        }
    }
    let ghost standard = valid_interpretations@;
    // seven pairs and thirteen orphans are checked separately (the standard interpretations do
    // not include them)
    let total_tile_count_array = add_tile(hand_tiles, winning_tile);
    let chiitoi_shanten = crate::shanten::get_chiitoi_shanten(total_tile_count_array);
    if chiitoi_shanten == -1 {
        let mut chiitoi_groups: Vec<TileMeld> = Vec::new();
        let mut t: u8 = 0;
        while t < 34
            invariant
                t <= 34,
                total_tile_count_array@ == cw,
                crate::shanten::melds_match(chiitoi_groups@, chiitoi_model(cw.take(t as int))),
            decreases 34 - t,
        {
            proof {
                assert(cw.take(t + 1).drop_last() =~= cw.take(t as int));
            }
            if total_tile_count_array[t as usize] > 0 {
                let m = pair_meld(t);
                proof {
                    lemma_melds_match_push(chiitoi_groups@, chiitoi_model(cw.take(t as int)), m, (MeldType::Pair, t as int));
                }
                chiitoi_groups.push(m);
            }
            t += 1;
        }
        assert(cw.take(34) =~= cw);
        valid_interpretations.push(
            HandInterpretation {
                total_tile_count_array: total_tile_count_array,
                groups: chiitoi_groups,
            },
        );
        assert(valid_interpretations@[standard.len() as int].total_tile_count_array@ == cw);
    }
    let ghost before_kokushi = valid_interpretations@;
    proof {
        assert forall|j: int| 0 <= j < standard.len() implies valid_interpretations@[j] == standard[j] by {}
    }
    let kokushi_shanten = crate::shanten::get_kokushi_shanten(total_tile_count_array);
    if kokushi_shanten == -1 {
        let mut kokushi_groups: Vec<TileMeld> = Vec::new();
        let mut t: u8 = 0;
        while t < 34
            invariant
                t <= 34,
                total_tile_count_array@ == cw,
                crate::shanten::melds_match(kokushi_groups@, kokushi_model(cw.take(t as int))),
            decreases 34 - t,
        {
            proof {
                assert(cw.take(t + 1).drop_last() =~= cw.take(t as int));
            }
            if total_tile_count_array[t as usize] == 1 {
                let m = single_meld(t);
                proof {
                    lemma_melds_match_push(kokushi_groups@, kokushi_model(cw.take(t as int)), m, (MeldType::SingleTile, t as int));
                }
                kokushi_groups.push(m);
            } else if total_tile_count_array[t as usize] == 2 {
                let m = pair_meld(t);
                proof {
                    lemma_melds_match_push(kokushi_groups@, kokushi_model(cw.take(t as int)), m, (MeldType::Pair, t as int));
                }
                kokushi_groups.push(m);
            }
            t += 1;
        }
        assert(cw.take(34) =~= cw);
        valid_interpretations.push(
            HandInterpretation {
                total_tile_count_array: total_tile_count_array,
                groups: kokushi_groups,
            },
        );
        assert(valid_interpretations@[before_kokushi.len() as int].total_tile_count_array@ == cw);
    }
    proof {
        assert forall|j: int| 0 <= j < before_kokushi.len() implies valid_interpretations@[j]
            == before_kokushi[j] by {}
        assert forall|j: int|
            0 <= j < valid_interpretations@.len() implies is_winning_interpretation(
            c,
            winning_tile,
            #[trigger] valid_interpretations@[j],
        ) by {
            if j < standard.len() {
                assert(valid_interpretations@[j] == standard[j]);
            }
        }
        if crate::shanten::spec_chiitoi_shanten(cw) == -1 {
            assert(valid_interpretations@[standard.len() as int] == before_kokushi[standard.len() as int]);
        }
        assert forall|x: Seq<(MeldType, int)>|
            #[trigger] comps.contains(x) && crate::shanten::g_standard_shanten(x) == best
                && crate::shanten::spec_shanten(cw) == -1 && valid_tenpai_shape(x, winning_tile)
                implies exists|j: int|
            0 <= j < valid_interpretations@.len() && (#[trigger] valid_interpretations@[j]).model() == x
                && is_standard_winning_interpretation(c, winning_tile, valid_interpretations@[j]) by {
            let j = choose|j: int|
                0 <= j < standard.len() && (#[trigger] standard[j]).model() == x
                    && is_standard_winning_interpretation(c, winning_tile, standard[j]);
            assert(valid_interpretations@[j] == standard[j]);
        }
    }
    valid_interpretations
}

/// Score `a` is at most score `b`: fewer han, or as many han and no more fu.
pub open spec fn score_le(a: (int, int), b: (int, int)) -> bool {
    a.0 < b.0 || (a.0 == b.0 && a.1 <= b.1)
}

/// The han and fu of a winning closed hand of thirteen tiles and its winning tile: the highest
/// score (by han, then fu) of its interpretations that the winning tile completes (see
/// `is_winning_interpretation` and `spec_interpretation_score`), or no han and no fu when none
/// scores. The highest possible fu is 110, so fu fit a `u8`; yakuman are not checked.
pub fn compute_han_and_fu(
    hand_tiles: [u8; 34],
    melded_tiles: Vec<TileMeld>,
    winning_tile: MahjongTileId,
    hand_info: HandInfo,
    winning_tile_info: WinningTileInfo,
) -> (r: (u8, u8))
    requires
        crate::mahjong_tile::count_sum(hand_tiles@) == 13,
        melded_tiles@.len() == 0,
        crate::hand_shape::honors_at_most_four(counts_with_tile(hand_tiles@, winning_tile)),
        crate::mahjong_tile::valid_id(winning_tile.0 as int),
        forall|i: int|
            0 <= i < hand_info.dora_tiles@.len() ==> crate::mahjong_tile::valid_id(
                (#[trigger] hand_info.dora_tiles@[i]).0 as int,
            ),
        hand_info.dora_tiles@.len() <= 12,
    ensures
        forall|hi: HandInterpretation|
            #[trigger] is_winning_interpretation(hand_tiles@, winning_tile, hi) ==> score_le(
                spec_interpretation_score(hi, melded_tiles@, winning_tile, hand_info, winning_tile_info),
                (r.0 as int, r.1 as int),
            ),
        (r.0 == 0 && r.1 == 0) || exists|hi: HandInterpretation|
            #[trigger] is_winning_interpretation(hand_tiles@, winning_tile, hi)
                && spec_interpretation_score(hi, melded_tiles@, winning_tile, hand_info, winning_tile_info)
                == (r.0 as int, r.1 as int),
{
    let ghost c = hand_tiles@;
    let ghost melds = melded_tiles@;
    assert(melds =~= Seq::<TileMeld>::empty());
    // first, the interpretations of the hand that the winning tile completes
    let valid_interpretations = get_interpretations_with_valid_tenpai(hand_tiles, winning_tile);
    let ghost vs = valid_interpretations@;
    let mut max_scoring_han_fu: (u8, u8) = (0, 0);
    let mut i: usize = 0;
    while i < valid_interpretations.len()
        invariant
            i <= vs.len(),
            vs == valid_interpretations@,
            c == hand_tiles@,
            melds == melded_tiles@,
            melds == Seq::<TileMeld>::empty(),
            crate::mahjong_tile::count_sum(c) == 13,
            crate::hand_shape::honors_at_most_four(counts_with_tile(c, winning_tile)),
            crate::mahjong_tile::valid_id(winning_tile.0 as int),
            forall|j: int|
                0 <= j < hand_info.dora_tiles@.len() ==> crate::mahjong_tile::valid_id(
                    (#[trigger] hand_info.dora_tiles@[j]).0 as int,
                ),
            hand_info.dora_tiles@.len() <= 12,
            forall|j: int| 0 <= j < vs.len() ==> is_winning_interpretation(c, winning_tile, #[trigger] vs[j]),
            forall|j: int|
                0 <= j < i ==> score_le(
                    spec_interpretation_score(#[trigger] vs[j], melds, winning_tile, hand_info, winning_tile_info),
                    (max_scoring_han_fu.0 as int, max_scoring_han_fu.1 as int),
                ),
            (max_scoring_han_fu.0 == 0 && max_scoring_han_fu.1 == 0) || exists|j: int|
                0 <= j < i && spec_interpretation_score(
                    #[trigger] vs[j],
                    melds,
                    winning_tile,
                    hand_info,
                    winning_tile_info,
                ) == (max_scoring_han_fu.0 as int, max_scoring_han_fu.1 as int),
        decreases vs.len() - i,
    {
        let interpretation = &valid_interpretations[i];
        proof {
            assert(is_winning_interpretation(c, winning_tile, vs[i as int]));
            crate::scoring::score_bounds::lemma_winning_interpretation_fits(
                c,
                winning_tile,
                *interpretation,
                hand_info,
                winning_tile_info,
            );
        }
        // the han and fu of this interpretation
        let interpretation_scoring = compute_han_and_fu_hand_interpretation(
            interpretation,
            &melded_tiles,
            winning_tile,
            &hand_info,
            &winning_tile_info,
        );
        // keep the interpretation with the highest score (by han, then fu)
        if interpretation_scoring.0 > max_scoring_han_fu.0 || (interpretation_scoring.0
            == max_scoring_han_fu.0 && interpretation_scoring.1 > max_scoring_han_fu.1) {
            max_scoring_han_fu = interpretation_scoring;
        }
        proof {
            assert(spec_interpretation_score(vs[i as int], melds, winning_tile, hand_info, winning_tile_info)
                == (interpretation_scoring.0 as int, interpretation_scoring.1 as int));
        }
        i += 1;
    }
    proof {
        let cw = counts_with_tile(c, winning_tile);
        let comps = crate::shanten::hand_interpretations(c);
        let best = crate::shanten::min_int(0, crate::shanten::min_standard_shanten(comps));
        assert forall|hi: HandInterpretation|
            #[trigger] is_winning_interpretation(c, winning_tile, hi) implies score_le(
                spec_interpretation_score(hi, melds, winning_tile, hand_info, winning_tile_info),
                (max_scoring_han_fu.0 as int, max_scoring_han_fu.1 as int),
            ) by {
            // an interpretation with the same groups was scored
            if is_standard_winning_interpretation(c, winning_tile, hi) {
                let x = hi.model();
                let j = choose|j: int|
                    0 <= j < vs.len() && (#[trigger] vs[j]).model() == x
                        && is_standard_winning_interpretation(c, winning_tile, vs[j]);
                assert forall|k: int| 0 <= k < hi.groups@.len() implies (#[trigger] hi.groups@[k]).meld_type
                    == vs[j].groups@[k].meld_type && crate::scoring::winning_groups::first_tile(hi.groups@[k])
                    == crate::scoring::winning_groups::first_tile(vs[j].groups@[k]) by {
                    assert(hi.model()[k] == vs[j].model()[k]);
                }
                assert(hi.total_tile_count_array@ =~= vs[j].total_tile_count_array@);
                crate::scoring::score_bounds::lemma_score_same_shape(hi, vs[j], melds, winning_tile, hand_info, winning_tile_info);
            } else if crate::shanten::spec_chiitoi_shanten(cw) == -1 && hi.total_tile_count_array@ == cw
                && crate::shanten::melds_match(hi.groups@, chiitoi_model(cw)) {
                let j = choose|j: int|
                    0 <= j < vs.len() && (#[trigger] vs[j]).total_tile_count_array@ == cw
                        && crate::shanten::melds_match(vs[j].groups@, chiitoi_model(cw));
                crate::scoring::score_bounds::lemma_chiitoi_model(cw, 0);
                crate::scoring::score_bounds::lemma_matching_melds_shape(hi.groups@, chiitoi_model(cw));
                crate::scoring::score_bounds::lemma_matching_melds_shape(vs[j].groups@, chiitoi_model(cw));
                assert(hi.total_tile_count_array@ =~= vs[j].total_tile_count_array@);
                crate::scoring::score_bounds::lemma_score_same_shape(hi, vs[j], melds, winning_tile, hand_info, winning_tile_info);
            } else {
                let j = choose|j: int|
                    0 <= j < vs.len() && (#[trigger] vs[j]).total_tile_count_array@ == cw
                        && crate::shanten::melds_match(vs[j].groups@, kokushi_model(cw));
                crate::scoring::score_bounds::lemma_kokushi_model(cw);
                crate::scoring::score_bounds::lemma_matching_melds_shape(hi.groups@, kokushi_model(cw));
                crate::scoring::score_bounds::lemma_matching_melds_shape(vs[j].groups@, kokushi_model(cw));
                assert(hi.total_tile_count_array@ =~= vs[j].total_tile_count_array@);
                crate::scoring::score_bounds::lemma_score_same_shape(hi, vs[j], melds, winning_tile, hand_info, winning_tile_info);
            }
        }
        if !(max_scoring_han_fu.0 == 0 && max_scoring_han_fu.1 == 0) {
            let j = choose|j: int|
                0 <= j < i && spec_interpretation_score(
                    #[trigger] vs[j],
                    melds,
                    winning_tile,
                    hand_info,
                    winning_tile_info,
                ) == (max_scoring_han_fu.0 as int, max_scoring_han_fu.1 as int);
            assert(is_winning_interpretation(c, winning_tile, vs[j]));
        }
    }
    max_scoring_han_fu
}

/// Every yaku that is scored (yakuman are checked separately), as trait objects: closed-only 1
/// han, 1 han, closed-only 2 han, 2 han (1 han if open), 2 han, closed-only 3 han, 3 han (2 han
/// if open), 6 han (5 han if open).
pub fn get_yaku_list() -> (r: Vec<Box<dyn Yaku>>)
    ensures
        r@.len() == 26,
{
    vec![
        // 1 han (closed only)
        Box::new(MenzenTsumoYaku),
        Box::new(RiichiYaku),
        Box::new(IppatsuYaku),
        Box::new(PinfuYaku),
        Box::new(IipeikouYaku),
        // 1 han
        Box::new(HaiteiYaku),
        Box::new(HouteiYaku),
        Box::new(RinshanYaku),
        Box::new(ChankanYaku),
        Box::new(TanyaoYaku),
        Box::new(YakuhaiYaku),
        // 2 han (closed only)
        Box::new(DoubleRiichiYaku),
        // 2 han (1 han if open)
        Box::new(ChantaYaku),
        Box::new(SanshokuDoujunYaku),
        Box::new(IttsuYaku),
        // 2 han (open or closed)
        Box::new(ToitoiYaku),
        Box::new(SanankouYaku),
        Box::new(SanshokuDoukouYaku),
        Box::new(SankantsuYaku),
        Box::new(ChiitoiYaku),
        Box::new(HonroutouYaku),
        Box::new(ShousangenYaku),
        // 3 han (closed only)
        Box::new(RyanpeikouYaku),
        // 3 han (2 han if open)
        Box::new(HonitsuYaku),
        Box::new(JunchanYaku),
        // 6 han (5 han if open)
        Box::new(ChinitsuYaku),
    ]
}

} // verus!
