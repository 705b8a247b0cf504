use vstd::prelude::*;

use crate::mahjong_tile::MahjongTileId;
use crate::scoring::group_yaku::{
    group_yakuhai_han, is_set_kind, chanta_yaku_han, iipeikou_yaku_han, ittsu_yaku_han, junchan_yaku_han, pinfu_yaku_han,
    ryanpeikou_yaku_han, sanankou_yaku_han, sankantsu_yaku_han, sanshoku_doujun_yaku_han,
    sanshoku_doukou_yaku_han, toitoi_yaku_han,
};
use crate::scoring::han_fu::{
    is_chiitoi_interpretation, spec_interpretation_score, spec_yaku_han, CHIITOI_FU,
};
use crate::scoring::{
    chankan_yaku_han, chiitoi_yaku_han, chinitsu_yaku_han, double_riichi_yaku_han, haitei_yaku_han,
    honitsu_yaku_han, honroutou_yaku_han, houtei_yaku_han, ippatsu_yaku_han, menzen_tsumo_yaku_han,
    riichi_yaku_han, rinshan_yaku_han, shousangen_yaku_han, spec_base_points, spec_is_chinitsu,
    spec_is_honitsu, tanyao_yaku_han, winning_hand_counts, HandInfo, WinningTileInfo,
};
use crate::scoring::winning_groups::GroupModel;
use crate::scoring::{is_dragon_id, spec_is_double_yakuhai_tile, spec_is_yakuhai_tile};
use crate::shanten::{HandInterpretation, TileMeld};
use crate::yaku::{spec_han_value, Yaku};

verus! {

/// Riichi and double riichi are never both counted.
pub proof fn law_riichi_exclusive(
    hi: HandInterpretation,
    melds: Seq<TileMeld>,
    w: MahjongTileId,
    info: HandInfo,
    wti: WinningTileInfo,
)
    ensures
        !(riichi_yaku_han(hi, melds, w, info, wti) > 0 && double_riichi_yaku_han(hi, melds, w, info, wti) > 0),
{
}

/// A hand counted for ryanpeikou is not also counted for iipeikou.
pub proof fn law_peikou_exclusive(
    hi: HandInterpretation,
    melds: Seq<TileMeld>,
    w: MahjongTileId,
    info: HandInfo,
    wti: WinningTileInfo,
)
    ensures
        !(iipeikou_yaku_han(hi, melds, w, info, wti) > 0 && ryanpeikou_yaku_han(hi, melds, w, info, wti) > 0),
{
}

/// Chanta is counted neither with junchan nor with honroutou.
pub proof fn law_chanta_exclusive(
    hi: HandInterpretation,
    melds: Seq<TileMeld>,
    w: MahjongTileId,
    info: HandInfo,
    wti: WinningTileInfo,
)
    ensures
        chanta_yaku_han(hi, melds, w, info, wti) > 0 ==> junchan_yaku_han(hi, melds, w, info, wti) == 0
            && honroutou_yaku_han(hi, melds, w, info, wti) == 0,
{
}

/// Honitsu and chinitsu are never both counted.
pub proof fn law_flush_exclusive(
    hi: HandInterpretation,
    melds: Seq<TileMeld>,
    w: MahjongTileId,
    info: HandInfo,
    wti: WinningTileInfo,
)
    ensures
        !(honitsu_yaku_han(hi, melds, w, info, wti) > 0 && chinitsu_yaku_han(hi, melds, w, info, wti) > 0),
{
}

/// A hand without a yaku scores nothing, whatever its dora.
pub proof fn law_no_yaku_no_score(
    hi: HandInterpretation,
    melds: Seq<TileMeld>,
    w: MahjongTileId,
    info: HandInfo,
    wti: WinningTileInfo,
)
    requires
        spec_yaku_han(hi, melds, w, info, wti) == 0,
    ensures
        spec_interpretation_score(hi, melds, w, info, wti) == (0int, 0int),
{
}

/// Seven pairs with a yaku always scores 25 fu, and its han are those of its yaku and dora.
pub proof fn law_chiitoi_is_25_fu(
    hi: HandInterpretation,
    melds: Seq<TileMeld>,
    w: MahjongTileId,
    info: HandInfo,
    wti: WinningTileInfo,
)
    requires
        is_chiitoi_interpretation(hi, w),
        spec_yaku_han(hi, melds, w, info, wti) > 0,
    ensures
        spec_interpretation_score(hi, melds, w, info, wti).1 == CHIITOI_FU as int,
        spec_interpretation_score(hi, melds, w, info, wti).0 >= spec_yaku_han(hi, melds, w, info, wti),
{
    crate::scoring::score_bounds::lemma_dora_han_nonneg(
        crate::scoring::han_fu::counts_with_winning_tile(hi, w),
        info.dora_tiles@,
    );
}

/// A half flush (numbered tiles of one suit, with honors) that is not a full flush is worth
/// 3 han to a closed hand and 2 han to an open one; every other hand earns nothing from it.
pub proof fn law_half_flush_han(
    hi: HandInterpretation,
    melds: Seq<TileMeld>,
    w: MahjongTileId,
    info: HandInfo,
    wti: WinningTileInfo,
)
    ensures
        spec_is_honitsu(winning_hand_counts(hi, melds, w)) && !spec_is_chinitsu(
            winning_hand_counts(hi, melds, w),
        ) && info.hand_state is Closed ==> honitsu_yaku_han(hi, melds, w, info, wti) == 3,
        spec_is_honitsu(winning_hand_counts(hi, melds, w)) && !spec_is_chinitsu(
            winning_hand_counts(hi, melds, w),
        ) && info.hand_state is Open ==> honitsu_yaku_han(hi, melds, w, info, wti) == 2,
        !spec_is_honitsu(winning_hand_counts(hi, melds, w)) || spec_is_chinitsu(
            winning_hand_counts(hi, melds, w),
        ) ==> honitsu_yaku_han(hi, melds, w, info, wti) == 0,
{
}

/// A full flush (numbered tiles of one suit, no honor) is worth 6 han to a closed hand and 5
/// han to an open one; every other hand earns nothing from it.
pub proof fn law_full_flush_han(
    hi: HandInterpretation,
    melds: Seq<TileMeld>,
    w: MahjongTileId,
    info: HandInfo,
    wti: WinningTileInfo,
)
    ensures
        spec_is_chinitsu(winning_hand_counts(hi, melds, w)) && info.hand_state is Closed
            ==> chinitsu_yaku_han(hi, melds, w, info, wti) == 6,
        spec_is_chinitsu(winning_hand_counts(hi, melds, w)) && info.hand_state is Open
            ==> chinitsu_yaku_han(hi, melds, w, info, wti) == 5,
        !spec_is_chinitsu(winning_hand_counts(hi, melds, w)) ==> chinitsu_yaku_han(
            hi,
            melds,
            w,
            info,
            wti,
        ) == 0,
{
}

/// Every yaku that a closed hand earns is worth exactly the han that the yaku table lists for
/// it.
pub proof fn law_closed_yaku_han_matches_table(
    hi: HandInterpretation,
    melds: Seq<TileMeld>,
    w: MahjongTileId,
    info: HandInfo,
    wti: WinningTileInfo,
)
    requires
        info.hand_state is Closed,
    ensures
        riichi_yaku_han(hi, melds, w, info, wti) > 0 ==> riichi_yaku_han(hi, melds, w, info, wti)
            == spec_han_value(Yaku::Riichi),
        double_riichi_yaku_han(hi, melds, w, info, wti) > 0 ==> double_riichi_yaku_han(
            hi,
            melds,
            w,
            info,
            wti,
        ) == spec_han_value(Yaku::DoubleRiichi),
        ippatsu_yaku_han(hi, melds, w, info, wti) > 0 ==> ippatsu_yaku_han(hi, melds, w, info, wti)
            == spec_han_value(Yaku::Ippatsu),
        menzen_tsumo_yaku_han(hi, melds, w, info, wti) > 0 ==> menzen_tsumo_yaku_han(
            hi,
            melds,
            w,
            info,
            wti,
        ) == spec_han_value(Yaku::MenzenTsumo),
        haitei_yaku_han(hi, melds, w, info, wti) > 0 ==> haitei_yaku_han(hi, melds, w, info, wti)
            == spec_han_value(Yaku::Haitei),
        houtei_yaku_han(hi, melds, w, info, wti) > 0 ==> houtei_yaku_han(hi, melds, w, info, wti)
            == spec_han_value(Yaku::Houtei),
        rinshan_yaku_han(hi, melds, w, info, wti) > 0 ==> rinshan_yaku_han(hi, melds, w, info, wti)
            == spec_han_value(Yaku::Rinshan),
        chankan_yaku_han(hi, melds, w, info, wti) > 0 ==> chankan_yaku_han(hi, melds, w, info, wti)
            == spec_han_value(Yaku::Chankan),
        tanyao_yaku_han(hi, melds, w, info, wti) > 0 ==> tanyao_yaku_han(hi, melds, w, info, wti)
            == spec_han_value(Yaku::Tanyao),
        pinfu_yaku_han(hi, melds, w, info, wti) > 0 ==> pinfu_yaku_han(hi, melds, w, info, wti)
            == spec_han_value(Yaku::Pinfu),
        iipeikou_yaku_han(hi, melds, w, info, wti) > 0 ==> iipeikou_yaku_han(
            hi,
            melds,
            w,
            info,
            wti,
        ) == spec_han_value(Yaku::Iipeikou),
        ryanpeikou_yaku_han(hi, melds, w, info, wti) > 0 ==> ryanpeikou_yaku_han(
            hi,
            melds,
            w,
            info,
            wti,
        ) == spec_han_value(Yaku::Ryanpeikou),
        toitoi_yaku_han(hi, melds, w, info, wti) > 0 ==> toitoi_yaku_han(hi, melds, w, info, wti)
            == spec_han_value(Yaku::Toitoi),
        sanankou_yaku_han(hi, melds, w, info, wti) > 0 ==> sanankou_yaku_han(
            hi,
            melds,
            w,
            info,
            wti,
        ) == spec_han_value(Yaku::Sanankou),
        sankantsu_yaku_han(hi, melds, w, info, wti) > 0 ==> sankantsu_yaku_han(
            hi,
            melds,
            w,
            info,
            wti,
        ) == spec_han_value(Yaku::Sankantsu),
        sanshoku_doukou_yaku_han(hi, melds, w, info, wti) > 0 ==> sanshoku_doukou_yaku_han(
            hi,
            melds,
            w,
            info,
            wti,
        ) == spec_han_value(Yaku::SanshokuDoukou),
        sanshoku_doujun_yaku_han(hi, melds, w, info, wti) > 0 ==> sanshoku_doujun_yaku_han(
            hi,
            melds,
            w,
            info,
            wti,
        ) == spec_han_value(Yaku::SanshokuDoujun),
        ittsu_yaku_han(hi, melds, w, info, wti) > 0 ==> ittsu_yaku_han(hi, melds, w, info, wti)
            == spec_han_value(Yaku::Ittsu),
        chanta_yaku_han(hi, melds, w, info, wti) > 0 ==> chanta_yaku_han(hi, melds, w, info, wti)
            == spec_han_value(Yaku::Chanta),
        junchan_yaku_han(hi, melds, w, info, wti) > 0 ==> junchan_yaku_han(hi, melds, w, info, wti)
            == spec_han_value(Yaku::Junchan),
        chiitoi_yaku_han(hi, melds, w, info, wti) > 0 ==> chiitoi_yaku_han(hi, melds, w, info, wti)
            == spec_han_value(Yaku::Chiitoitsu),
        honroutou_yaku_han(hi, melds, w, info, wti) > 0 ==> honroutou_yaku_han(
            hi,
            melds,
            w,
            info,
            wti,
        ) == spec_han_value(Yaku::Honroutou),
        shousangen_yaku_han(hi, melds, w, info, wti) > 0 ==> shousangen_yaku_han(
            hi,
            melds,
            w,
            info,
            wti,
        ) == spec_han_value(Yaku::Shousangen),
        honitsu_yaku_han(hi, melds, w, info, wti) > 0 ==> honitsu_yaku_han(hi, melds, w, info, wti)
            == spec_han_value(Yaku::Honitsu),
        chinitsu_yaku_han(hi, melds, w, info, wti) > 0 ==> chinitsu_yaku_han(hi, melds, w, info, wti)
            == spec_han_value(Yaku::Chinitsu),
{
}

/// A triplet or quad of a dragon, or of the round or the seat wind, earns the yakuhai han that
/// the yaku table lists, and twice that for a wind that is both the round and the seat wind; no
/// other group earns any.
pub proof fn law_yakuhai_group_han_matches_table(g: GroupModel, info: HandInfo)
    ensures
        is_set_kind(g.0) && is_dragon_id(g.1) ==> group_yakuhai_han(g, info) == spec_han_value(
            Yaku::Yakuhai,
        ),
        is_set_kind(g.0) && spec_is_double_yakuhai_tile(g.1, info.round_wind, info.seat_wind)
            ==> group_yakuhai_han(g, info) == 2 * spec_han_value(Yaku::Yakuhai),
        is_set_kind(g.0) && spec_is_yakuhai_tile(g.1, info.round_wind, info.seat_wind)
            && !spec_is_double_yakuhai_tile(g.1, info.round_wind, info.seat_wind)
            ==> group_yakuhai_han(g, info) == spec_han_value(Yaku::Yakuhai),
        !is_set_kind(g.0) || !spec_is_yakuhai_tile(g.1, info.round_wind, info.seat_wind)
            ==> group_yakuhai_han(g, info) == 0,
{
}

/// An open hand earns none of the closed-hand yaku (riichi, double riichi, ippatsu, self-draw,
/// pinfu, iipeikou, ryanpeikou); it earns one han less than the table lists for the half flush,
/// the full flush, the two outside hands, the pure straight and the mixed triple sequence, and
/// the listed han for every other yaku.
pub proof fn law_open_yaku_han_matches_table(
    hi: HandInterpretation,
    melds: Seq<TileMeld>,
    w: MahjongTileId,
    info: HandInfo,
    wti: WinningTileInfo,
)
    requires
        info.hand_state is Open,
    ensures
        riichi_yaku_han(hi, melds, w, info, wti) == 0,
        double_riichi_yaku_han(hi, melds, w, info, wti) == 0,
        ippatsu_yaku_han(hi, melds, w, info, wti) == 0,
        menzen_tsumo_yaku_han(hi, melds, w, info, wti) == 0,
        pinfu_yaku_han(hi, melds, w, info, wti) == 0,
        iipeikou_yaku_han(hi, melds, w, info, wti) == 0,
        ryanpeikou_yaku_han(hi, melds, w, info, wti) == 0,
        honitsu_yaku_han(hi, melds, w, info, wti) > 0 ==> honitsu_yaku_han(hi, melds, w, info, wti)
            == spec_han_value(Yaku::Honitsu) - 1,
        chinitsu_yaku_han(hi, melds, w, info, wti) > 0 ==> chinitsu_yaku_han(hi, melds, w, info, wti)
            == spec_han_value(Yaku::Chinitsu) - 1,
        junchan_yaku_han(hi, melds, w, info, wti) > 0 ==> junchan_yaku_han(hi, melds, w, info, wti)
            == spec_han_value(Yaku::Junchan) - 1,
        chanta_yaku_han(hi, melds, w, info, wti) > 0 ==> chanta_yaku_han(hi, melds, w, info, wti)
            == spec_han_value(Yaku::Chanta) - 1,
        ittsu_yaku_han(hi, melds, w, info, wti) > 0 ==> ittsu_yaku_han(hi, melds, w, info, wti)
            == spec_han_value(Yaku::Ittsu) - 1,
        sanshoku_doujun_yaku_han(hi, melds, w, info, wti) > 0 ==> sanshoku_doujun_yaku_han(
            hi,
            melds,
            w,
            info,
            wti,
        ) == spec_han_value(Yaku::SanshokuDoujun) - 1,
        tanyao_yaku_han(hi, melds, w, info, wti) > 0 ==> tanyao_yaku_han(hi, melds, w, info, wti)
            == spec_han_value(Yaku::Tanyao),
        toitoi_yaku_han(hi, melds, w, info, wti) > 0 ==> toitoi_yaku_han(hi, melds, w, info, wti)
            == spec_han_value(Yaku::Toitoi),
        sanshoku_doukou_yaku_han(hi, melds, w, info, wti) > 0 ==> sanshoku_doukou_yaku_han(
            hi,
            melds,
            w,
            info,
            wti,
        ) == spec_han_value(Yaku::SanshokuDoukou),
        shousangen_yaku_han(hi, melds, w, info, wti) > 0 ==> shousangen_yaku_han(
            hi,
            melds,
            w,
            info,
            wti,
        ) == spec_han_value(Yaku::Shousangen),
        honroutou_yaku_han(hi, melds, w, info, wti) > 0 ==> honroutou_yaku_han(
            hi,
            melds,
            w,
            info,
            wti,
        ) == spec_han_value(Yaku::Honroutou),
{
}

/// The limit hands are counted by han alone, whatever the fu: 2000 base points for 5 han
/// (mangan), 3000 for 6 or 7 (haneman), 4000 for 8 to 10 (baiman), 6000 for 11 or 12
/// (sanbaiman) and 8000 for each full 13 han (kazoe yakuman); below 5 han a hand never gets
/// more than a mangan.
pub proof fn law_limit_hand_base_points(han: u8, fu: u8)
    ensures
        han == 5 ==> spec_base_points(han, fu) == 2000,
        6 <= han <= 7 ==> spec_base_points(han, fu) == 3000,
        8 <= han <= 10 ==> spec_base_points(han, fu) == 4000,
        11 <= han <= 12 ==> spec_base_points(han, fu) == 6000,
        han >= 13 ==> spec_base_points(han, fu) == 8000 * (han / 13),
        (han == 4 && fu >= 40) || (han == 3 && fu >= 70) ==> spec_base_points(han, fu) == 2000,
        han < 5 ==> spec_base_points(han, fu) <= 2000,
{
}

/// Below a mangan every further han doubles the base points, up to the mangan's 2000.
pub proof fn law_base_points_double_per_han(han: u8, fu: u8)
    requires
        han < 4,
    ensures
        spec_base_points((han + 1) as u8, fu) == if 2 * spec_base_points(han, fu) < 2000 {
            2 * spec_base_points(han, fu)
        } else {
            2000
        },
{
    lemma_low_han_base_points(han, fu);
    lemma_low_han_base_points((han + 1) as u8, fu);
}

/// Below 5 han the base points are `fu * 2^(2 + han)` (capped at 2000), read off for each han.
proof fn lemma_low_han_base_points(han: u8, fu: u8)
    requires
        han <= 4,
    ensures
        spec_base_points(han, fu) == if han == 4 && fu >= 40 || han == 3 && fu >= 70 {
            2000
        } else if fu * low_han_factor(han) < 2000 {
            fu * low_han_factor(han)
        } else {
            2000
        },
{
    vstd::arithmetic::power2::lemma2_to64();
    assert(vstd::arithmetic::power2::pow2((2 + han) as nat) == low_han_factor(han));
}

/// `2^(2 + han)` for han 0 to 4.
spec fn low_han_factor(han: u8) -> int {
    if han == 0 {
        4
    } else if han == 1 {
        8
    } else if han == 2 {
        16
    } else if han == 3 {
        32
    } else {
        64
    }
}

/// More han or more fu never lower the base points.
pub proof fn law_base_points_grow(han1: u8, fu1: u8, han2: u8, fu2: u8)
    requires
        han1 <= han2,
        fu1 <= fu2,
    ensures
        spec_base_points(han1, fu1) <= spec_base_points(han2, fu2),
{
    if han2 <= 4 {
        lemma_low_han_base_points(han1, fu1);
        lemma_low_han_base_points(han2, fu2);
        assert(fu1 * low_han_factor(han1) <= fu2 * low_han_factor(han2)) by (nonlinear_arith)
            requires
                fu1 <= fu2,
                0 <= fu1,
                0 < low_han_factor(han1) <= low_han_factor(han2),
        {
        }
    } else if han1 <= 4 {
        law_limit_hand_base_points(han1, fu1);
        law_limit_hand_base_points(han2, fu2);
    } else if han2 >= 13 && han1 >= 13 {
        assert(han1 / 13 <= han2 / 13);
    }
}

} // verus!
