use vstd::prelude::*;

use crate::scoring::{spec_is_yakuhai_tile, HandInfo, YakuhaiYaku};
use crate::shanten::{tile_meld_wf, MeldType, TileMeld};

verus! {

/// The yaku (scoring patterns) of riichi mahjong.
#[derive(Debug, Clone, Copy, PartialEq, Eq, Structural)]
pub enum Yaku {
    // 1 han
    /// i.e. fully concealed hand, winning with a closed hand by self-draw
    MenzenTsumo,
    Riichi,
    Ippatsu,
    Pinfu,
    /// i.e. pure double sequence, hand contains two identical sequences
    Iipeikou,
    /// i.e. winning on the last tile drawn from the wall
    Haitei,
    /// i.e. winning on the last discarded tile before exhaustive draw
    Houtei,
    /// i.e. winning on a tile drawn from the dead wall (i.e. after calling a quad)
    Rinshan,
    /// i.e. robbing a kan, winning on the tile added to another player's open triplet
    Chankan,
    /// i.e. all simples, hand has no terminal or honor tiles
    Tanyao,
    Yakuhai,

    // 2 han
    DoubleRiichi,
    /// i.e. half outside hand, terminal or honor tile in each hand group (including the pair)
    Chanta,
    /// i.e. mixed triple sequence, hand includes three sequences with the same ranks across the three numbered suits
    SanshokuDoujun,
    /// i.e. pure straight, hand includes the sequences 123, 456, and 789 in a single suit
    Ittsu,
    /// i.e. all triplets, hand uses 4 triplets and a pair
    Toitoi,
    /// i.e. three concealed/closed triplets
    Sanankou,
    /// i.e. mixed triple triplet, hand includes three triplets with the same ranks across the three numbered suits
    SanshokuDoukou,
    /// i.e. three quads
    Sankantsu,
    /// i.e. seven pairs
    Chiitoitsu,
    /// i.e. all terminals and honors
    Honroutou,
    /// i.e. small three dragons, two triplets of dragons, and a pair of the third dragon
    Shousangen,

    // 3 han
    /// i.e. half flush, hand only uses a single numbered suit and honor tiles
    Honitsu,
    /// i.e. fully outside hand, terminal in each hand group (including the pair)
    Junchan,
    /// i.e. two sets of two identical sequences
    Ryanpeikou,

    // 6 han
    /// i.e. full flush, hand only uses a single numbered suit
    Chinitsu,

    // yakuman (i.e. equivalent to 13+ han)
    /// i.e. if a hand earns 13+ han based on other regular yaku and dora
    KazoeYakuman,
    /// i.e. thirteen orphans
    KokushiMusou,
    /// i.e. four closed triplets
    Suuankou,
    /// i.e. big three dragons
    Daisangen,
    /// i.e. small winds
    Shousuushii,
    /// i.e. big winds
    Daisuushii,
    /// i.e. all honors
    Tsuuiisou,
    /// i.e. all terminals
    Chinroutou,
    /// i.e. all green
    Ryuuiisou,
    /// i.e. nine gates
    ChuurenPoutou,
    /// i.e. four quads
    Suukantsu,
    /// i.e. heavenly hand, dealer wins with their initial draw
    Tenhou,
    /// i.e. earthly hand, non-dealer wins with their initial draw (and no tile calls were made)
    Chiihou,

    // special case
    /// at exhaustive draw, if a player only discarded terminals and honors, and none of their discards were called
    NagashiMangan,
}

/// The han a yaku is worth (13 for a yakuman).
pub open spec fn spec_han_value(yaku: Yaku) -> u32 {
    match yaku {
        Yaku::MenzenTsumo => 1,
        Yaku::Riichi => 1,
        Yaku::Ippatsu => 1,
        Yaku::Pinfu => 1,
        Yaku::Iipeikou => 1,
        Yaku::Haitei => 1,
        Yaku::Houtei => 1,
        Yaku::Rinshan => 1,
        Yaku::Chankan => 1,
        Yaku::Tanyao => 1,
        Yaku::Yakuhai => 1,
        Yaku::DoubleRiichi => 2,
        Yaku::Chanta => 2,
        Yaku::SanshokuDoujun => 2,
        Yaku::Ittsu => 2,
        Yaku::Toitoi => 2,
        Yaku::Sanankou => 2,
        Yaku::SanshokuDoukou => 2,
        Yaku::Sankantsu => 2,
        Yaku::Chiitoitsu => 2,
        Yaku::Honroutou => 2,
        Yaku::Shousangen => 2,
        Yaku::Honitsu => 3,
        Yaku::Junchan => 3,
        Yaku::Ryanpeikou => 3,
        Yaku::Chinitsu => 6,
        Yaku::KazoeYakuman => 13,
        Yaku::KokushiMusou => 13,
        Yaku::Suuankou => 13,
        Yaku::Daisangen => 13,
        Yaku::Shousuushii => 13,
        Yaku::Daisuushii => 13,
        Yaku::Tsuuiisou => 13,
        Yaku::Chinroutou => 13,
        Yaku::Ryuuiisou => 13,
        Yaku::ChuurenPoutou => 13,
        Yaku::Suukantsu => 13,
        Yaku::Tenhou => 13,
        Yaku::Chiihou => 13,
        Yaku::NagashiMangan => 5,
    }
}

impl Yaku {
    pub fn han_value(yaku: &Self) -> (r: u32)
        ensures
            r == spec_han_value(*yaku),
    {
        match yaku {
            Self::MenzenTsumo => 1,
            Self::Riichi => 1,
            Self::Ippatsu => 1,
            Self::Pinfu => 1,
            Self::Iipeikou => 1,
            Self::Haitei => 1,
            Self::Houtei => 1,
            Self::Rinshan => 1,
            Self::Chankan => 1,
            Self::Tanyao => 1,
            Self::Yakuhai => 1,
            Self::DoubleRiichi => 2,
            Self::Chanta => 2,
            Self::SanshokuDoujun => 2,
            Self::Ittsu => 2,
            Self::Toitoi => 2,
            Self::Sanankou => 2,
            Self::SanshokuDoukou => 2,
            Self::Sankantsu => 2,
            Self::Chiitoitsu => 2,
            Self::Honroutou => 2,
            Self::Shousangen => 2,
            Self::Honitsu => 3,
            Self::Junchan => 3,
            Self::Ryanpeikou => 3,
            Self::Chinitsu => 6,
            Self::KazoeYakuman => 13,
            Self::KokushiMusou => 13,
            Self::Suuankou => 13,
            Self::Daisangen => 13,
            Self::Shousuushii => 13,
            Self::Daisuushii => 13,
            Self::Tsuuiisou => 13,
            Self::Chinroutou => 13,
            Self::Ryuuiisou => 13,
            Self::ChuurenPoutou => 13,
            Self::Suukantsu => 13,
            Self::Tenhou => 13,
            Self::Chiihou => 13,
            // this yaku is not compatible with other yaku but is worth mangan tsumo, which can be reached at 5 han
            Self::NagashiMangan => 5,
        }
    }
}

/// A triplet or quad of the grouping is of a dragon, of the round wind or of the seat wind.
pub open spec fn spec_has_yakuhai(groups: Seq<TileMeld>, hand_info: HandInfo) -> bool {
    exists|i: int|
        0 <= i < groups.len() && (groups[i].meld_type == MeldType::Triplet || groups[i].meld_type
            == MeldType::Quadruplet) && spec_is_yakuhai_tile(
            (#[trigger] groups[i]).tile_ids@[0].0 as int,
            hand_info.round_wind,
            hand_info.seat_wind,
        )
}

/// Whether a grouping of a hand earns yakuhai: it holds a triplet or quad of a dragon, of the
/// round wind or of the seat wind.
pub fn has_yakuhai_yaku(tile_grouping: &Vec<TileMeld>, hand_info: &HandInfo) -> (r: bool)
    requires
        forall|i: int| 0 <= i < tile_grouping@.len() ==> tile_meld_wf(#[trigger] tile_grouping@[i]),
    ensures
        r == spec_has_yakuhai(tile_grouping@, *hand_info),
{
    let mut i: usize = 0;
    while i < tile_grouping.len()
        invariant
            i <= tile_grouping@.len(),
            forall|j: int| 0 <= j < tile_grouping@.len() ==> tile_meld_wf(#[trigger] tile_grouping@[j]),
            forall|j: int|
                0 <= j < i ==> !((tile_grouping@[j].meld_type == MeldType::Triplet
                    || tile_grouping@[j].meld_type == MeldType::Quadruplet) && spec_is_yakuhai_tile(
                    (#[trigger] tile_grouping@[j]).tile_ids@[0].0 as int,
                    hand_info.round_wind,
                    hand_info.seat_wind,
                )),
        decreases tile_grouping@.len() - i,
    {
        let tile_group = &tile_grouping[i];
        match tile_group.meld_type {
            MeldType::Triplet | MeldType::Quadruplet => {
                proof {
                    crate::scoring::winning_groups::lemma_meld_shape(*tile_group);
                }
                if YakuhaiYaku::is_yakuhai_tile(tile_group.tile_ids[0], hand_info) {
                    return true;
                }
            },
            _ => {},
        }
        i += 1;
    }
    false
}

} // verus!
