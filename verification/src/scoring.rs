use vstd::prelude::*;

pub mod winning_groups;
pub mod group_yaku;
pub mod han_fu;
pub mod score_bounds;
pub mod laws;

pub use crate::scoring::group_yaku::{
    ChantaYaku, IipeikouYaku, IttsuYaku, JunchanYaku, PinfuYaku, RyanpeikouYaku, SanankouYaku,
    SankantsuYaku, SanshokuDoujunYaku, SanshokuDoukouYaku, ToitoiYaku,
};
pub use crate::scoring::han_fu::{
    compute_han_and_fu, compute_han_and_fu_hand_interpretation, compute_raw_fu, get_yaku_list,
    CHIITOI_FU,
};

use crate::mahjong_tile::{
    id_rank, id_suit, is_numbered_id, spec_num_tile_suit, spec_wind_of_id, valid_id,
    MahjongTileId, MahjongTileNumberedSuit, MahjongWindOrder,
};
use crate::shanten::{id_count, lemma_id_count_nonneg, lemma_id_count_prefix, HandInterpretation, MeldType, TileMeld};

verus! {

/// Whether (and how) a closed hand declared riichi.
#[derive(Debug, Clone, Copy, PartialEq, Eq, Structural, Hash)]
pub enum RiichiInfo {
    Riichi { is_ippatsu: bool, is_double_riichi: bool },
    NoRiichi,
}

/// Whether the hand has called tiles (open) or not (closed, possibly in riichi).
#[derive(Debug, Clone, Copy, PartialEq, Eq, Structural, Hash)]
pub enum HandState {
    Open,
    Closed { riichi_info: RiichiInfo },
}

impl HandState {
    pub fn is_closed(&self) -> (r: bool)
        ensures
            r == (*self is Closed),
    {
        match self {
            HandState::Closed { .. } => true,
            HandState::Open => false,
        }
    }
}

/// Where the winning tile came from.
#[derive(Debug, Clone, Copy, PartialEq, Eq, Structural, Hash)]
pub enum WinningTileSource {
    /// winning on the last discard is the yaku "houtei raoyui"
    Discard { is_last_discard: bool },
    /// winning on the last draw is the yaku "haitei raoyue"; winning on the first draw as dealer
    /// is the yakuman "tenhou", as non-dealer (with no prior calls) the yakuman "chiihou"
    SelfDraw { is_first_draw: bool, is_last_draw: bool },
    /// winning on the replacement tile drawn after declaring a kan is the yaku "rinshan kaihou"
    AfterKan,
    /// winning by robbing a kan is the yaku "chankan"
    RobbingKan,
}

impl WinningTileSource {
    /// Whether the winning tile keeps the hand / tile group closed (only a self-draw from the
    /// live wall or a draw from the dead wall after a kan are closed).
    pub fn is_closed(&self) -> (r: bool)
        ensures
            r == (*self is SelfDraw || *self is AfterKan),
    {
        match self {
            WinningTileSource::SelfDraw { .. } | WinningTileSource::AfterKan => true,
            WinningTileSource::Discard { .. } | WinningTileSource::RobbingKan => false,
        }
    }
}

/// What is known of the winning tile.
#[derive(Debug, Clone, Copy, PartialEq, Eq, Structural, Hash)]
pub struct WinningTileInfo {
    pub source: WinningTileSource,
}

/// What is known of the hand and the round it is played in.
#[derive(Debug, Clone, PartialEq, Eq, Hash)]
pub struct HandInfo {
    pub hand_state: HandState,
    pub round_wind: MahjongWindOrder,
    pub seat_wind: MahjongWindOrder,
    /// 1-4 inclusive (how many different players have been dealer, including this hand)
    pub round_number: u8,
    /// this number + 1 is the repeat number, e.g. east round, 2nd dealer, 1 honba -> East-2,
    /// 1st bonus round
    pub honba_counter: u16,
    pub dora_tiles: Vec<MahjongTileId>,
}

/// The base points of a hand worth `han` han and `fu` fu: limit hands from mangan up are
/// counted by han alone (a kazoe yakuman for every 13 han, 6000 from 11 han, 4000 from 8 han,
/// 3000 from 6 han, 2000 for 5 han, 4 han with 40 fu or 3 han with 70 fu); below that, `fu * 2^(2 + han)`,
/// capped at 2000.
pub open spec fn spec_base_points(han: u8, fu: u8) -> int {
    if han >= 13 {
        (han / 13) * 8000
    } else if han >= 11 {
        6000
    } else if han >= 8 {
        4000
    } else if han >= 6 {
        3000
    } else if han == 5 || (han == 4 && fu >= 40) || (han == 3 && fu >= 70) {
        2000
    } else if fu * vstd::arithmetic::power2::pow2((2 + han) as nat) < 2000 {
        fu * vstd::arithmetic::power2::pow2((2 + han) as nat)
    } else {
        2000
    }
}

pub fn compute_base_points(han: u8, fu: u8) -> (r: u32)
    ensures
        r == spec_base_points(han, fu),
{
    if han >= 13 {
        // kazoe yakuman (i.e. "counted yakuman"); double yakuman is scored as 26 han
        (han as u32 / 13) * 8000
    } else if han >= 11 {
        // sanbaiman
        6000
    } else if han >= 8 {
        // baiman
        4000
    } else if han >= 6 {
        // haneman
        3000
    } else if han == 5 || (han == 4 && fu >= 40) || (han == 3 && fu >= 70) {
        // mangan
        2000
    } else {
        // below mangan: fu * 2^(2 + han), capped at 2000 points
        proof {
            vstd::arithmetic::power2::lemma2_to64();
            assert(fu * vstd::arithmetic::power2::pow2((2 + han) as nat) <= 255 * 64) by (
            nonlinear_arith)
                requires
                    vstd::arithmetic::power2::pow2((2 + han) as nat) <= 64,
                    fu <= 255,
            ;
            vstd::bits::lemma_u32_shl_is_mul(fu as u32, (2 + han) as u32);
        }
        let points = (fu as u32) << (2 + han as u32);
        if points < 2000 {
            points
        } else {
            2000
        }
    }
}

/// The points a ron is worth: six times the base points for the dealer (the East seat), four
/// times otherwise.
pub fn compute_ron_score(han: u8, fu: u8, hand_info: &HandInfo) -> (r: u32)
    ensures
        r == spec_base_points(han, fu) * if hand_info.seat_wind == MahjongWindOrder::East {
            6int
        } else {
            4int
        },
{
    let base_points = compute_base_points(han, fu);
    match hand_info.seat_wind {
        // ron as dealer = 6x base points vs. ron as non-dealer = 4x base points
        MahjongWindOrder::East => base_points * 6,
        _ => base_points * 4,
    }
}

/// The points each of the three other players pays for a tsumo: twice the base points from
/// everyone for the dealer; for a non-dealer, the base points from each non-dealer and twice
/// the base points from the dealer (the last of the three).
pub fn compute_tsumo_score(han: u8, fu: u8, hand_info: &HandInfo) -> (r: (u32, u32, u32))
    ensures
        hand_info.seat_wind == MahjongWindOrder::East ==> r == (
            (2 * spec_base_points(han, fu)) as u32,
            (2 * spec_base_points(han, fu)) as u32,
            (2 * spec_base_points(han, fu)) as u32,
        ),
        hand_info.seat_wind != MahjongWindOrder::East ==> r == (
            spec_base_points(han, fu) as u32,
            spec_base_points(han, fu) as u32,
            (2 * spec_base_points(han, fu)) as u32,
        ),
{
    let base_points = compute_base_points(han, fu);
    match hand_info.seat_wind {
        // tsumo as dealer = 2x base points from each other player vs. tsumo as non-dealer =
        // 1x base points from each non-dealer opponent + 2x base points from the dealer
        MahjongWindOrder::East => (base_points * 2, base_points * 2, base_points * 2),
        _ => (base_points * 1, base_points * 1, base_points * 2),
    }
}

/// A terminal: rank 1 or 9 of a numbered suit.
pub open spec fn is_terminal_id(id: int) -> bool {
    is_numbered_id(id) && (id_rank(id) == 1 || id_rank(id) == 9)
}

/// An honor tile: a wind or a dragon.
pub open spec fn is_honor_id(id: int) -> bool {
    27 <= id < 34
}

/// A dragon tile (5z-7z).
pub open spec fn is_dragon_id(id: int) -> bool {
    31 <= id < 34
}

/// A simple: rank 2 to 8 of a numbered suit.
pub open spec fn is_simple_id(id: int) -> bool {
    is_numbered_id(id) && 2 <= id_rank(id) <= 8
}

pub(crate) fn is_terminal_tile(tile_id: MahjongTileId) -> (r: bool)
    ensures
        r == is_terminal_id(tile_id.0 as int),
{
    tile_id.0 < 27 && (tile_id.0 % 9 == 0 || tile_id.0 % 9 == 8)
}

pub(crate) fn is_honor_tile(tile_id: MahjongTileId) -> (r: bool)
    ensures
        r == is_honor_id(tile_id.0 as int),
{
    27 <= tile_id.0 && tile_id.0 < 34
}

pub(crate) fn is_dragon_tile(tile_id: MahjongTileId) -> (r: bool)
    ensures
        r == is_dragon_id(tile_id.0 as int),
{
    31 <= tile_id.0 && tile_id.0 < 34
}

pub(crate) fn is_simple_tile(tile_id: MahjongTileId) -> (r: bool)
    ensures
        r == is_simple_id(tile_id.0 as int),
{
    tile_id.0 < 27 && tile_id.0 % 9 != 0 && tile_id.0 % 9 != 8
}

/// A dragon, the round wind or the seat wind.
pub open spec fn spec_is_yakuhai_tile(id: int, round_wind: MahjongWindOrder, seat_wind: MahjongWindOrder) -> bool {
    is_dragon_id(id) || (spec_wind_of_id(id) matches Some(w) && (w == round_wind || w == seat_wind))
}

/// The wind that is both the round wind and the seat wind.
pub open spec fn spec_is_double_yakuhai_tile(id: int, round_wind: MahjongWindOrder, seat_wind: MahjongWindOrder) -> bool {
    spec_wind_of_id(id) matches Some(w) && w == round_wind && w == seat_wind
}

/// The yaku of a triplet or quad of a dragon, the round wind or the seat wind.
pub struct YakuhaiYaku;

impl YakuhaiYaku {
    /// Whether a tile id is a yakuhai tile (a dragon, the round wind or the seat wind).
    pub fn is_yakuhai_tile(tile_id: MahjongTileId, hand_info: &HandInfo) -> (r: bool)
        ensures
            r == spec_is_yakuhai_tile(tile_id.0 as int, hand_info.round_wind, hand_info.seat_wind),
    {
        if is_dragon_tile(tile_id) {
            true
        } else {
            match tile_id.get_wind() {
                Some(tile_wind) => tile_wind == hand_info.round_wind || tile_wind
                    == hand_info.seat_wind,
                None => false,
            }
        }
    }

    /// Whether a tile id is a double-yakuhai tile (a wind that is both the round wind and the
    /// seat wind).
    pub fn is_double_yakuhai_tile(tile_id: MahjongTileId, hand_info: &HandInfo) -> (r: bool)
        ensures
            r == spec_is_double_yakuhai_tile(
                tile_id.0 as int,
                hand_info.round_wind,
                hand_info.seat_wind,
            ),
    {
        match tile_id.get_wind() {
            Some(tile_wind) => tile_wind == hand_info.round_wind && tile_wind
                == hand_info.seat_wind,
            None => false,
        }
    }
}

/// The tile ids of the declared melds, one meld after the other.
pub open spec fn melded_ids(melds: Seq<TileMeld>) -> Seq<MahjongTileId>
    decreases melds.len(),
{
    if melds.len() == 0 {
        seq![]
    } else {
        melded_ids(melds.drop_last()) + melds.last().tile_ids@
    }
}

/// The counts of every tile of the winning hand: the interpreted hand, the winning tile and the
/// declared melds.
pub open spec fn winning_hand_counts(
    hand_interpretation: HandInterpretation,
    melds: Seq<TileMeld>,
    winning_tile: MahjongTileId,
) -> Seq<u8> {
    Seq::new(
        34,
        |t: int|
            (hand_interpretation.total_tile_count_array@[t] + (if winning_tile.0 == t {
                1int
            } else {
                0int
            }) + id_count(melded_ids(melds), t)) as u8,
    )
}

/// The inputs of a yaku can be counted: the winning tile and every melded tile name one of the
/// 34 tiles, no tile is counted more than 255 times, and every group of the interpretation is
/// well formed.
pub open spec fn yaku_inputs_ok(
    hand_interpretation: HandInterpretation,
    melds: Seq<TileMeld>,
    winning_tile: MahjongTileId,
) -> bool {
    &&& hand_interpretation.wf()
    &&& valid_id(winning_tile.0 as int)
    &&& forall|i: int|
        0 <= i < melded_ids(melds).len() ==> valid_id((#[trigger] melded_ids(melds)[i]).0 as int)
    &&& forall|t: int|
        0 <= t < 34 ==> #[trigger] hand_interpretation.total_tile_count_array@[t] + 1 + id_count(
            melded_ids(melds),
            t,
        ) <= 255
}

proof fn lemma_id_count_append(a: Seq<MahjongTileId>, b: Seq<MahjongTileId>, t: int)
    ensures
        id_count(a + b, t) == id_count(a, t) + id_count(b, t),
    decreases b.len(),
{
    if b.len() == 0 {
        assert(a + b =~= a);
    } else {
        lemma_id_count_append(a, b.drop_last(), t);
        assert((a + b).drop_last() =~= a + b.drop_last());
    }
}

/// The counts of every tile of the winning hand (see `winning_hand_counts`).
fn winning_hand_count_array(
    hand_interpretation: &HandInterpretation,
    melded_tiles: &Vec<TileMeld>,
    winning_tile: MahjongTileId,
) -> (r: [u8; 34])
    requires
        yaku_inputs_ok(*hand_interpretation, melded_tiles@, winning_tile),
    ensures
        r@ == winning_hand_counts(*hand_interpretation, melded_tiles@, winning_tile),
{
    let ghost melds = melded_tiles@;
    let ghost all = melded_ids(melds);
    // the tile ids of the declared melds
    let mut melded_tile_ids: Vec<MahjongTileId> = Vec::new();
    let mut i: usize = 0;
    while i < melded_tiles.len()
        invariant
            i <= melds.len(),
            melds == melded_tiles@,
            melded_tile_ids@ == melded_ids(melds.take(i as int)),
        decreases melds.len() - i,
    {
        let meld = &melded_tiles[i];
        let ghost before = melded_tile_ids@;
        let mut k: usize = 0;
        while k < meld.tile_ids.len()
            invariant
                k <= meld.tile_ids@.len(),
                melded_tile_ids@ == before + meld.tile_ids@.take(k as int),
            decreases meld.tile_ids@.len() - k,
        {
            melded_tile_ids.push(meld.tile_ids[k]);
            k += 1;
            assert(melded_tile_ids@ =~= before + meld.tile_ids@.take(k as int));
        }
        proof {
            assert(meld.tile_ids@.take(k as int) =~= meld.tile_ids@);
            assert(melds.take(i + 1).drop_last() =~= melds.take(i as int));
            assert(melds.take(i + 1).last() == melds[i as int]);
        }
        i += 1;
    }
    assert(melds.take(i as int) =~= melds);
    let mut counts = hand_interpretation.total_tile_count_array;
    proof {
        lemma_id_count_nonneg(all, winning_tile.0 as int);
        assert(hand_interpretation.total_tile_count_array@[winning_tile.0 as int] + 1 + id_count(
            all,
            winning_tile.0 as int,
        ) <= 255);
        assert(all.take(0) =~= Seq::<MahjongTileId>::empty());
    }
    counts[winning_tile.0 as usize] = counts[winning_tile.0 as usize] + 1;
    let mut j: usize = 0;
    while j < melded_tile_ids.len()
        invariant
            j <= all.len(),
            melded_tile_ids@ == all,
            all == melded_ids(melds),
            yaku_inputs_ok(*hand_interpretation, melds, winning_tile),
            forall|t: int|
                0 <= t < 34 ==> #[trigger] counts@[t] == hand_interpretation.total_tile_count_array@[t]
                    + (if winning_tile.0 == t {
                    1int
                } else {
                    0int
                }) + id_count(all.take(j as int), t),
        decreases all.len() - j,
    {
        let id = melded_tile_ids[j].0 as usize;
        proof {
            assert(valid_id(all[j as int].0 as int));
            assert(all.take(j + 1).drop_last() =~= all.take(j as int));
            lemma_id_count_prefix(all, j + 1, id as int);
            assert(hand_interpretation.total_tile_count_array@[id as int] + 1 + id_count(all, id as int) <= 255);
        }
        counts[id] = counts[id] + 1;
        j += 1;
    }
    assert(all.take(j as int) =~= all);
    assert(counts@ =~= winning_hand_counts(*hand_interpretation, melds, winning_tile));
    counts
}

/// Tile `t` is a numbered tile held in the counts.
pub open spec fn numbered_held(c: Seq<u8>, t: int) -> bool {
    0 <= t < 27 && c[t] > 0
}

/// The counts hold numbered tiles, all of one suit.
pub open spec fn spec_single_numbered_suit(c: Seq<u8>) -> bool {
    &&& exists|t: int| #[trigger] numbered_held(c, t)
    &&& forall|a: int, b: int|
        #[trigger] numbered_held(c, a) && #[trigger] numbered_held(c, b) ==> id_suit(a) == id_suit(b)
}

/// Half flush: numbered tiles of a single suit (honor tiles are allowed).
pub open spec fn spec_is_honitsu(c: Seq<u8>) -> bool {
    spec_single_numbered_suit(c)
}

/// Full flush: numbered tiles of a single suit and no honor tile.
pub open spec fn spec_is_chinitsu(c: Seq<u8>) -> bool {
    spec_single_numbered_suit(c) && forall|h: int| 27 <= h < 34 ==> #[trigger] c[h] == 0
}

/// All simples: every tile held is a simple.
pub open spec fn spec_is_all_simples(c: Seq<u8>) -> bool {
    forall|t: int| 0 <= t < 34 && #[trigger] c[t] > 0 ==> is_simple_id(t)
}

/// How many dragons are held three or more times.
pub open spec fn dragon_triplets(c: Seq<u8>) -> int {
    (if c[31] >= 3 { 1int } else { 0int }) + (if c[32] >= 3 { 1int } else { 0int }) + (if c[33]
        >= 3 {
        1int
    } else {
        0int
    })
}

/// How many dragons are held exactly twice.
pub open spec fn dragon_pairs(c: Seq<u8>) -> int {
    (if c[31] == 2 { 1int } else { 0int }) + (if c[32] == 2 { 1int } else { 0int }) + (if c[33]
        == 2 {
        1int
    } else {
        0int
    })
}

/// Small three dragons: two dragons held as triplets (or quads) and the third as a pair.
pub open spec fn spec_is_shousangen(c: Seq<u8>) -> bool {
    dragon_triplets(c) == 2 && dragon_pairs(c) == 1
}

/// All terminals and honors: every tile of the interpreted hand, and the winning tile, is a
/// terminal or an honor.
pub open spec fn spec_is_honroutou(hand_counts: Seq<u8>, winning_tile: MahjongTileId) -> bool {
    &&& forall|t: int|
        0 <= t < 34 && #[trigger] hand_counts[t] > 0 ==> is_terminal_id(t) || is_honor_id(t)
    &&& is_terminal_id(winning_tile.0 as int) || is_honor_id(winning_tile.0 as int)
}

/// How many of the groups are pairs, counting a single tile of the winning tile as a pair.
pub open spec fn pairs_with_winning_tile(groups: Seq<TileMeld>, winning_tile: MahjongTileId) -> int
    decreases groups.len(),
{
    if groups.len() == 0 {
        0
    } else {
        pairs_with_winning_tile(groups.drop_last(), winning_tile) + if groups.last().meld_type
            == MeldType::Pair || (groups.last().meld_type == MeldType::SingleTile
            && groups.last().tile_ids@[0] == winning_tile) {
            1int
        } else {
            0int
        }
    }
}

/// Whether the counts hold numbered tiles of one suit only (and, unless `honors_allowed`, no
/// honor tile).
fn single_numbered_suit(c: &[u8; 34], honors_allowed: bool) -> (r: bool)
    ensures
        r == if honors_allowed {
            spec_is_honitsu(c@)
        } else {
            spec_is_chinitsu(c@)
        },
{
    let mut numbered_suit: Option<MahjongTileNumberedSuit> = None;
    let mut has_honor_tile = false;
    let mut t: u8 = 0;
    while t < 34
        invariant
            t <= 34,
            numbered_suit is None <==> forall|k: int| 0 <= k < t ==> !numbered_held(c@, k),
            numbered_suit matches Some(s) ==> (forall|k: int|
                0 <= k < t && #[trigger] numbered_held(c@, k) ==> id_suit(k) == s),
            has_honor_tile <==> exists|h: int| 27 <= h < t && c@[h] > 0,
        decreases 34 - t,
    {
        if c[t as usize] > 0 {
            if t < 27 {
                let tile_suit = MahjongTileId(t).get_num_tile_suit().unwrap();
                assert(numbered_held(c@, t as int));
                match numbered_suit {
                    None => {
                        numbered_suit = Some(tile_suit);
                    },
                    Some(suit) => {
                        if suit != tile_suit {
                            proof {
                                let k = choose|k: int| 0 <= k < t && numbered_held(c@, k);
                                assert(numbered_held(c@, t as int));
                            }
                            return false;
                        }
                    },
                }
            } else {
                has_honor_tile = true;
            }
        }
        t += 1;
    }
    proof {
        if numbered_suit is Some {
            let s = numbered_suit->Some_0;
            assert forall|a: int, b: int|
                #[trigger] numbered_held(c@, a) && #[trigger] numbered_held(c@, b) implies id_suit(a)
                == id_suit(b) by {
                assert(id_suit(a) == s);
                assert(id_suit(b) == s);
            }
        }
        if !honors_allowed && has_honor_tile {
            let h = choose|h: int| 27 <= h < 34 && c@[h] > 0;
            assert(c@[h] != 0);
        }
    }
    numbered_suit.is_some() && (honors_allowed || !has_honor_tile)
}

/// The yaku of small three dragons.
pub struct ShousangenYaku;

impl ShousangenYaku {
    /// Whether the winning hand (with its melds and winning tile) holds two dragon triplets and
    /// a pair of the third dragon.
    pub fn is_shousangen_hand(
        hand_interpretation: &HandInterpretation,
        melded_tiles: &Vec<TileMeld>,
        winning_tile: MahjongTileId,
    ) -> (r: bool)
        requires
            yaku_inputs_ok(*hand_interpretation, melded_tiles@, winning_tile),
        ensures
            r == spec_is_shousangen(
                winning_hand_counts(*hand_interpretation, melded_tiles@, winning_tile),
            ),
    {
        let hand_tile_count_array = winning_hand_count_array(
            hand_interpretation,
            melded_tiles,
            winning_tile,
        );
        let white_dragon_count = hand_tile_count_array[31];
        let green_dragon_count = hand_tile_count_array[32];
        let red_dragon_count = hand_tile_count_array[33];
        let mut dragon_triplets: u8 = 0;
        let mut dragon_pairs: u8 = 0;
        if white_dragon_count >= 3 {
            dragon_triplets += 1;
        } else if white_dragon_count == 2 {
            dragon_pairs += 1;
        }
        if green_dragon_count >= 3 {
            dragon_triplets += 1;
        } else if green_dragon_count == 2 {
            dragon_pairs += 1;
        }
        if red_dragon_count >= 3 {
            dragon_triplets += 1;
        } else if red_dragon_count == 2 {
            dragon_pairs += 1;
        }
        dragon_triplets == 2 && dragon_pairs == 1
    }
}

/// The yaku of all terminals and honors.
pub struct HonroutouYaku;

impl HonroutouYaku {
    /// Whether every tile of the interpreted hand, and the winning tile, is a terminal or an
    /// honor.
    pub fn is_honroutou_hand(hand_interpretation: &HandInterpretation, winning_tile: MahjongTileId) -> (r: bool)
        ensures
            r == spec_is_honroutou(hand_interpretation.total_tile_count_array@, winning_tile),
    {
        let c = &hand_interpretation.total_tile_count_array;
        let mut t: u8 = 0;
        while t < 34
            invariant
                t <= 34,
                c@ == hand_interpretation.total_tile_count_array@,
                forall|k: int| 0 <= k < t && #[trigger] c@[k] > 0 ==> is_terminal_id(k) || is_honor_id(k),
            decreases 34 - t,
        {
            if c[t as usize] > 0 && !is_terminal_tile(MahjongTileId(t)) && !is_honor_tile(MahjongTileId(t)) {
                assert(hand_interpretation.total_tile_count_array@[t as int] > 0);
                return false;
            }
            t += 1;
        }
        is_terminal_tile(winning_tile) || is_honor_tile(winning_tile)
    }
}

/// The yaku of seven pairs.
pub struct ChiitoiYaku;

impl ChiitoiYaku {
    /// Whether, with the winning tile joining its single tile, the hand is seven pairs (quads
    /// do not count).
    pub fn is_chiitoi_hand(hand_interpretation: &HandInterpretation, winning_tile: MahjongTileId) -> (r: bool)
        requires
            hand_interpretation.wf(),
        ensures
            r == (pairs_with_winning_tile(hand_interpretation.groups@, winning_tile) == 7),
    {
        let groups = &hand_interpretation.groups;
        let mut num_pairs: usize = 0;
        let mut i: usize = 0;
        while i < groups.len()
            invariant
                i <= groups@.len(),
                hand_interpretation.wf(),
                groups == &hand_interpretation.groups,
                num_pairs == pairs_with_winning_tile(groups@.take(i as int), winning_tile),
                num_pairs <= i,
            decreases groups@.len() - i,
        {
            proof {
                assert(groups@.take(i + 1).drop_last() =~= groups@.take(i as int));
                assert(crate::shanten::tile_meld_wf(groups@[i as int]));
            }
            let tile_group = &groups[i];
            if tile_group.meld_type == MeldType::Pair {
                num_pairs += 1;
            } else if tile_group.meld_type == MeldType::SingleTile {
                let single_tile_id = tile_group.tile_ids[0];
                if single_tile_id == winning_tile {
                    num_pairs += 1;
                }
            }
            i += 1;
        }
        assert(groups@.take(i as int) =~= groups@);
        num_pairs == 7
    }
}

/// The yaku of a half flush.
pub struct HonitsuYaku;

impl HonitsuYaku {
    /// Whether the winning hand holds numbered tiles of exactly one suit (honor tiles are
    /// allowed).
    pub fn is_honitsu_hand(
        hand_interpretation: &HandInterpretation,
        melded_tiles: &Vec<TileMeld>,
        winning_tile: MahjongTileId,
    ) -> (r: bool)
        requires
            yaku_inputs_ok(*hand_interpretation, melded_tiles@, winning_tile),
        ensures
            r == spec_is_honitsu(winning_hand_counts(*hand_interpretation, melded_tiles@, winning_tile)),
    {
        let total_tile_count_array = winning_hand_count_array(
            hand_interpretation,
            melded_tiles,
            winning_tile,
        );
        single_numbered_suit(&total_tile_count_array, true)
    }
}

/// The yaku of a full flush.
pub struct ChinitsuYaku;

impl ChinitsuYaku {
    /// Whether the winning hand holds numbered tiles of exactly one suit and no honor tile.
    pub fn is_chinitsu_hand(
        hand_interpretation: &HandInterpretation,
        melded_tiles: &Vec<TileMeld>,
        winning_tile: MahjongTileId,
    ) -> (r: bool)
        requires
            yaku_inputs_ok(*hand_interpretation, melded_tiles@, winning_tile),
        ensures
            r == spec_is_chinitsu(winning_hand_counts(*hand_interpretation, melded_tiles@, winning_tile)),
    {
        let total_tile_count_array = winning_hand_count_array(
            hand_interpretation,
            melded_tiles,
            winning_tile,
        );
        single_numbered_suit(&total_tile_count_array, false)
    }
}

/// A yaku: a scoring pattern of a winning hand.
pub trait Yaku {
    /// Returns the number of han earned from this yaku (0 if the hand is not eligible for the
    /// yaku).
    fn han_value(
        &self,
        hand_interpretation: &HandInterpretation,
        melded_tiles: &Vec<TileMeld>,
        winning_tile: MahjongTileId,
        hand_info: &HandInfo,
        winning_tile_info: &WinningTileInfo,
    ) -> u8
        requires
            yaku_inputs_ok(*hand_interpretation, melded_tiles@, winning_tile),
    ;
}

/// A closed hand that declared riichi (not a double riichi).
pub open spec fn is_plain_riichi(hand_state: HandState) -> bool {
    hand_state matches HandState::Closed {
        riichi_info: RiichiInfo::Riichi { is_double_riichi: false, .. },
    }
}

/// A closed hand that declared a double riichi.
pub open spec fn is_double_riichi(hand_state: HandState) -> bool {
    hand_state matches HandState::Closed {
        riichi_info: RiichiInfo::Riichi { is_double_riichi: true, .. },
    }
}

/// A riichi hand still within its ippatsu turn.
pub open spec fn is_ippatsu(hand_state: HandState) -> bool {
    hand_state matches HandState::Closed { riichi_info: RiichiInfo::Riichi { is_ippatsu: true, .. } }
}

/// The yaku of a riichi declaration.
pub struct RiichiYaku;

/// The han that `RiichiYaku` gives a winning hand.
pub open spec fn riichi_yaku_han(
    hi: HandInterpretation,
    melds: Seq<TileMeld>,
    w: MahjongTileId,
    info: HandInfo,
    wti: WinningTileInfo,
) -> u8 {
    if is_plain_riichi(info.hand_state) {
        1u8
    } else {
        0u8
    }
}

impl Yaku for RiichiYaku {
    fn han_value(
        &self,
        hand_interpretation: &HandInterpretation,
        melded_tiles: &Vec<TileMeld>,
        winning_tile: MahjongTileId,
        hand_info: &HandInfo,
        winning_tile_info: &WinningTileInfo,
    ) -> (r: u8)
        ensures
            r == riichi_yaku_han(
                *hand_interpretation,
                melded_tiles@,
                winning_tile,
                *hand_info,
                *winning_tile_info,
            ),

    {
        match &hand_info.hand_state {
            HandState::Closed { riichi_info } => match riichi_info {
                RiichiInfo::Riichi { is_double_riichi, .. } => {
                    if !(*is_double_riichi) {
                        1
                    } else {
                        // double riichi and riichi can't both be counted
                        0
                    }
                },
                RiichiInfo::NoRiichi => 0,
            },
            HandState::Open => 0,
        }
    }
}

/// The yaku of a closed hand winning by self-draw.
pub struct MenzenTsumoYaku;

/// The han that `MenzenTsumoYaku` gives a winning hand.
pub open spec fn menzen_tsumo_yaku_han(
    hi: HandInterpretation,
    melds: Seq<TileMeld>,
    w: MahjongTileId,
    info: HandInfo,
    wti: WinningTileInfo,
) -> u8 {
    if info.hand_state is Closed && (wti.source is SelfDraw
        || wti.source is AfterKan) {
        1u8
    } else {
        0u8
    }
}

impl Yaku for MenzenTsumoYaku {
    fn han_value(
        &self,
        hand_interpretation: &HandInterpretation,
        melded_tiles: &Vec<TileMeld>,
        winning_tile: MahjongTileId,
        hand_info: &HandInfo,
        winning_tile_info: &WinningTileInfo,
    ) -> (r: u8)
        ensures
            r == menzen_tsumo_yaku_han(
                *hand_interpretation,
                melded_tiles@,
                winning_tile,
                *hand_info,
                *winning_tile_info,
            ),

    {
        // the hand is closed and won by self-draw (including the draw from the dead wall after
        // a kan)
        if !hand_info.hand_state.is_closed() || !winning_tile_info.source.is_closed() {
            0
        } else {
            1
        }
    }
}

/// The yaku of winning within one turn of a riichi declaration.
pub struct IppatsuYaku;

/// The han that `IppatsuYaku` gives a winning hand.
pub open spec fn ippatsu_yaku_han(
    hi: HandInterpretation,
    melds: Seq<TileMeld>,
    w: MahjongTileId,
    info: HandInfo,
    wti: WinningTileInfo,
) -> u8 {
    if is_ippatsu(info.hand_state) {
        1u8
    } else {
        0u8
    }
}

impl Yaku for IppatsuYaku {
    fn han_value(
        &self,
        hand_interpretation: &HandInterpretation,
        melded_tiles: &Vec<TileMeld>,
        winning_tile: MahjongTileId,
        hand_info: &HandInfo,
        winning_tile_info: &WinningTileInfo,
    ) -> (r: u8)
        ensures
            r == ippatsu_yaku_han(
                *hand_interpretation,
                melded_tiles@,
                winning_tile,
                *hand_info,
                *winning_tile_info,
            ),

    {
        match &hand_info.hand_state {
            HandState::Closed { riichi_info } => match riichi_info {
                RiichiInfo::Riichi { is_ippatsu, .. } => {
                    if *is_ippatsu {
                        1
                    } else {
                        0
                    }
                },
                _ => 0,
            },
            _ => 0,
        }
    }
}

/// The yaku of winning on the last tile drawn from the wall.
pub struct HaiteiYaku;

/// The han that `HaiteiYaku` gives a winning hand.
pub open spec fn haitei_yaku_han(
    hi: HandInterpretation,
    melds: Seq<TileMeld>,
    w: MahjongTileId,
    info: HandInfo,
    wti: WinningTileInfo,
) -> u8 {
    if wti.source matches WinningTileSource::SelfDraw {
        is_last_draw: true,
        ..
    } {
        1u8
    } else {
        0u8
    }
}

impl Yaku for HaiteiYaku {
    fn han_value(
        &self,
        hand_interpretation: &HandInterpretation,
        melded_tiles: &Vec<TileMeld>,
        winning_tile: MahjongTileId,
        hand_info: &HandInfo,
        winning_tile_info: &WinningTileInfo,
    ) -> (r: u8)
        ensures
            r == haitei_yaku_han(
                *hand_interpretation,
                melded_tiles@,
                winning_tile,
                *hand_info,
                *winning_tile_info,
            ),

    {
        match winning_tile_info.source {
            WinningTileSource::SelfDraw { is_last_draw, .. } => {
                if is_last_draw {
                    1
                } else {
                    0
                }
            },
            _ => 0,
        }
    }
}

/// The yaku of winning on the last discard.
pub struct HouteiYaku;

/// The han that `HouteiYaku` gives a winning hand.
pub open spec fn houtei_yaku_han(
    hi: HandInterpretation,
    melds: Seq<TileMeld>,
    w: MahjongTileId,
    info: HandInfo,
    wti: WinningTileInfo,
) -> u8 {
    if wti.source matches WinningTileSource::Discard {
        is_last_discard: true,
    } {
        1u8
    } else {
        0u8
    }
}

impl Yaku for HouteiYaku {
    fn han_value(
        &self,
        hand_interpretation: &HandInterpretation,
        melded_tiles: &Vec<TileMeld>,
        winning_tile: MahjongTileId,
        hand_info: &HandInfo,
        winning_tile_info: &WinningTileInfo,
    ) -> (r: u8)
        ensures
            r == houtei_yaku_han(
                *hand_interpretation,
                melded_tiles@,
                winning_tile,
                *hand_info,
                *winning_tile_info,
            ),

    {
        match winning_tile_info.source {
            WinningTileSource::Discard { is_last_discard } => {
                if is_last_discard {
                    1
                } else {
                    0
                }
            },
            _ => 0,
        }
    }
}

/// The yaku of robbing a kan.
pub struct ChankanYaku;

/// The han that `ChankanYaku` gives a winning hand.
pub open spec fn chankan_yaku_han(
    hi: HandInterpretation,
    melds: Seq<TileMeld>,
    w: MahjongTileId,
    info: HandInfo,
    wti: WinningTileInfo,
) -> u8 {
    if wti.source is RobbingKan {
        1u8
    } else {
        0u8
    }
}

impl Yaku for ChankanYaku {
    fn han_value(
        &self,
        hand_interpretation: &HandInterpretation,
        melded_tiles: &Vec<TileMeld>,
        winning_tile: MahjongTileId,
        hand_info: &HandInfo,
        winning_tile_info: &WinningTileInfo,
    ) -> (r: u8)
        ensures
            r == chankan_yaku_han(
                *hand_interpretation,
                melded_tiles@,
                winning_tile,
                *hand_info,
                *winning_tile_info,
            ),

    {
        match winning_tile_info.source {
            WinningTileSource::RobbingKan => 1,
            _ => 0,
        }
    }
}

/// The yaku of a riichi declared on the first discard.
pub struct DoubleRiichiYaku;

/// The han that `DoubleRiichiYaku` gives a winning hand.
pub open spec fn double_riichi_yaku_han(
    hi: HandInterpretation,
    melds: Seq<TileMeld>,
    w: MahjongTileId,
    info: HandInfo,
    wti: WinningTileInfo,
) -> u8 {
    if is_double_riichi(info.hand_state) {
        2u8
    } else {
        0u8
    }
}

impl Yaku for DoubleRiichiYaku {
    fn han_value(
        &self,
        hand_interpretation: &HandInterpretation,
        melded_tiles: &Vec<TileMeld>,
        winning_tile: MahjongTileId,
        hand_info: &HandInfo,
        winning_tile_info: &WinningTileInfo,
    ) -> (r: u8)
        ensures
            r == double_riichi_yaku_han(
                *hand_interpretation,
                melded_tiles@,
                winning_tile,
                *hand_info,
                *winning_tile_info,
            ),

    {
        match &hand_info.hand_state {
            HandState::Closed { riichi_info } => match riichi_info {
                RiichiInfo::Riichi { is_double_riichi, .. } => {
                    if *is_double_riichi {
                        2
                    } else {
                        0
                    }
                },
                _ => 0,
            },
            _ => 0,
        }
    }
}

/// The yaku of winning on the replacement tile drawn after declaring a kan.
pub struct RinshanYaku;

/// The han that `RinshanYaku` gives a winning hand.
pub open spec fn rinshan_yaku_han(
    hi: HandInterpretation,
    melds: Seq<TileMeld>,
    w: MahjongTileId,
    info: HandInfo,
    wti: WinningTileInfo,
) -> u8 {
    if wti.source is AfterKan {
        1u8
    } else {
        0u8
    }
}

impl Yaku for RinshanYaku {
    fn han_value(
        &self,
        hand_interpretation: &HandInterpretation,
        melded_tiles: &Vec<TileMeld>,
        winning_tile: MahjongTileId,
        hand_info: &HandInfo,
        winning_tile_info: &WinningTileInfo,
    ) -> (r: u8)
        ensures
            r == rinshan_yaku_han(
                *hand_interpretation,
                melded_tiles@,
                winning_tile,
                *hand_info,
                *winning_tile_info,
            ),

    {
        match winning_tile_info.source {
            WinningTileSource::AfterKan => 1,
            _ => 0,
        }
    }
}

/// The yaku of all simples.
pub struct TanyaoYaku;

/// The han that `TanyaoYaku` gives a winning hand.
pub open spec fn tanyao_yaku_han(
    hi: HandInterpretation,
    melds: Seq<TileMeld>,
    w: MahjongTileId,
    info: HandInfo,
    wti: WinningTileInfo,
) -> u8 {
    if spec_is_all_simples(
        winning_hand_counts(hi, melds, w),
    ) {
        1u8
    } else {
        0u8
    }
}

impl Yaku for TanyaoYaku {
    fn han_value(
        &self,
        hand_interpretation: &HandInterpretation,
        melded_tiles: &Vec<TileMeld>,
        winning_tile: MahjongTileId,
        hand_info: &HandInfo,
        winning_tile_info: &WinningTileInfo,
    ) -> (r: u8)
        ensures
            r == tanyao_yaku_han(
                *hand_interpretation,
                melded_tiles@,
                winning_tile,
                *hand_info,
                *winning_tile_info,
            ),

    {
        // every tile (including the winning tile) is a simple (a numbered tile from 2 to 8)
        let total_tile_count_array = winning_hand_count_array(
            hand_interpretation,
            melded_tiles,
            winning_tile,
        );
        let mut t: u8 = 0;
        while t < 34
            invariant
                t <= 34,
                total_tile_count_array@ == winning_hand_counts(
                    *hand_interpretation,
                    melded_tiles@,
                    winning_tile,
                ),
                forall|k: int|
                    0 <= k < t && #[trigger] total_tile_count_array@[k] > 0 ==> is_simple_id(k),
            decreases 34 - t,
        {
            if total_tile_count_array[t as usize] > 0 && !is_simple_tile(MahjongTileId(t)) {
                assert(total_tile_count_array@[t as int] > 0);
                return 0;
            }
            t += 1;
        }
        1
    }
}

/// The han that `ShousangenYaku` gives a winning hand.
pub open spec fn shousangen_yaku_han(
    hi: HandInterpretation,
    melds: Seq<TileMeld>,
    w: MahjongTileId,
    info: HandInfo,
    wti: WinningTileInfo,
) -> u8 {
    if spec_is_shousangen(
        winning_hand_counts(hi, melds, w),
    ) {
        2u8
    } else {
        0u8
    }
}

impl Yaku for ShousangenYaku {
    fn han_value(
        &self,
        hand_interpretation: &HandInterpretation,
        melded_tiles: &Vec<TileMeld>,
        winning_tile: MahjongTileId,
        hand_info: &HandInfo,
        winning_tile_info: &WinningTileInfo,
    ) -> (r: u8)
        ensures
            r == shousangen_yaku_han(
                *hand_interpretation,
                melded_tiles@,
                winning_tile,
                *hand_info,
                *winning_tile_info,
            ),

    {
        if ShousangenYaku::is_shousangen_hand(hand_interpretation, melded_tiles, winning_tile) {
            2
        } else {
            0
        }
    }
}

/// The han that `HonroutouYaku` gives a winning hand.
pub open spec fn honroutou_yaku_han(
    hi: HandInterpretation,
    melds: Seq<TileMeld>,
    w: MahjongTileId,
    info: HandInfo,
    wti: WinningTileInfo,
) -> u8 {
    if spec_is_honroutou(hi.total_tile_count_array@, w) {
        2u8
    } else {
        0u8
    }
}

impl Yaku for HonroutouYaku {
    fn han_value(
        &self,
        hand_interpretation: &HandInterpretation,
        melded_tiles: &Vec<TileMeld>,
        winning_tile: MahjongTileId,
        hand_info: &HandInfo,
        winning_tile_info: &WinningTileInfo,
    ) -> (r: u8)
        ensures
            r == honroutou_yaku_han(
                *hand_interpretation,
                melded_tiles@,
                winning_tile,
                *hand_info,
                *winning_tile_info,
            ),

    {
        // every tile is a terminal or honor (effectively 4 han, as it can only come with chiitoi
        // or toitoi)
        if HonroutouYaku::is_honroutou_hand(hand_interpretation, winning_tile) {
            2
        } else {
            0
        }
    }
}

/// The han that `ChiitoiYaku` gives a winning hand.
pub open spec fn chiitoi_yaku_han(
    hi: HandInterpretation,
    melds: Seq<TileMeld>,
    w: MahjongTileId,
    info: HandInfo,
    wti: WinningTileInfo,
) -> u8 {
    if pairs_with_winning_tile(hi.groups@, w) == 7 {
        2u8
    } else {
        0u8
    }
}

impl Yaku for ChiitoiYaku {
    fn han_value(
        &self,
        hand_interpretation: &HandInterpretation,
        melded_tiles: &Vec<TileMeld>,
        winning_tile: MahjongTileId,
        hand_info: &HandInfo,
        winning_tile_info: &WinningTileInfo,
    ) -> (r: u8)
        ensures
            r == chiitoi_yaku_han(
                *hand_interpretation,
                melded_tiles@,
                winning_tile,
                *hand_info,
                *winning_tile_info,
            ),

    {
        if ChiitoiYaku::is_chiitoi_hand(hand_interpretation, winning_tile) {
            2
        } else {
            0
        }
    }
}

/// The han that `HonitsuYaku` gives a winning hand.
pub open spec fn honitsu_yaku_han(
    hi: HandInterpretation,
    melds: Seq<TileMeld>,
    w: MahjongTileId,
    info: HandInfo,
    wti: WinningTileInfo,
) -> u8 {
    {
        let c = winning_hand_counts(hi, melds, w);
        if spec_is_chinitsu(c) {
            0u8
        } else if spec_is_honitsu(c) {
            if info.hand_state is Closed {
                3u8
            } else {
                2u8
            }
        } else {
            0u8
        }
    }
}

impl Yaku for HonitsuYaku {
    fn han_value(
        &self,
        hand_interpretation: &HandInterpretation,
        melded_tiles: &Vec<TileMeld>,
        winning_tile: MahjongTileId,
        hand_info: &HandInfo,
        winning_tile_info: &WinningTileInfo,
    ) -> (r: u8)
        ensures
            r == honitsu_yaku_han(
                *hand_interpretation,
                melded_tiles@,
                winning_tile,
                *hand_info,
                *winning_tile_info,
            ),

    {
        if ChinitsuYaku::is_chinitsu_hand(hand_interpretation, melded_tiles, winning_tile) {
            // chinitsu includes honitsu, so both can't be counted
            0
        } else if HonitsuYaku::is_honitsu_hand(hand_interpretation, melded_tiles, winning_tile) {
            if hand_info.hand_state.is_closed() {
                3
            } else {
                2
            }
        } else {
            0
        }
    }
}

/// The han that `ChinitsuYaku` gives a winning hand.
pub open spec fn chinitsu_yaku_han(
    hi: HandInterpretation,
    melds: Seq<TileMeld>,
    w: MahjongTileId,
    info: HandInfo,
    wti: WinningTileInfo,
) -> u8 {
    if spec_is_chinitsu(
        winning_hand_counts(hi, melds, w),
    ) {
        if info.hand_state is Closed {
            6u8
        } else {
            5u8
        }
    } else {
        0u8
    }
}

impl Yaku for ChinitsuYaku {
    fn han_value(
        &self,
        hand_interpretation: &HandInterpretation,
        melded_tiles: &Vec<TileMeld>,
        winning_tile: MahjongTileId,
        hand_info: &HandInfo,
        winning_tile_info: &WinningTileInfo,
    ) -> (r: u8)
        ensures
            r == chinitsu_yaku_han(
                *hand_interpretation,
                melded_tiles@,
                winning_tile,
                *hand_info,
                *winning_tile_info,
            ),

    {
        if ChinitsuYaku::is_chinitsu_hand(hand_interpretation, melded_tiles, winning_tile) {
            if hand_info.hand_state.is_closed() {
                6
            } else {
                5
            }
        } else {
            0
        }
    }
}

/// Whoever wins, the three payments of a tsumo add up to what a ron pays: six times the base
/// points for the dealer, four times for a non-dealer.
pub proof fn law_tsumo_payments_sum_to_ron(han: u8, fu: u8, seat_wind: MahjongWindOrder)
    ensures
        ({
            let base = spec_base_points(han, fu);
            let ron = base * if seat_wind == MahjongWindOrder::East {
                6int
            } else {
                4int
            };
            let tsumo = if seat_wind == MahjongWindOrder::East {
                2 * base + 2 * base + 2 * base
            } else {
                base + base + 2 * base
            };
            tsumo == ron
        }),
{
}

/// With the fu fixed, more han never give fewer base points.
pub proof fn law_base_points_grow_with_han(han1: u8, han2: u8, fu: u8)
    requires
        han1 <= han2,
    ensures
        spec_base_points(han1, fu) <= spec_base_points(han2, fu),
{
    vstd::arithmetic::power2::lemma2_to64();
    if han2 >= 13 {
        assert(han2 / 13 >= 1);
        if han1 >= 13 {
            assert(han1 / 13 <= han2 / 13);
            assert((han1 / 13) * 8000 <= (han2 / 13) * 8000) by (nonlinear_arith)
                requires
                    han1 / 13 <= han2 / 13,
            ;
        }
    } else if han2 < 6 && han1 < 6 {
        if han1 < han2 && !(han2 == 5 || (han2 == 4 && fu >= 40) || (han2 == 3 && fu >= 70)) {
            // below mangan: doubling with every han, up to the 2000 cap
            vstd::arithmetic::power2::lemma_pow2_strictly_increases(
                (2 + han1) as nat,
                (2 + han2) as nat,
            );
            assert(fu * vstd::arithmetic::power2::pow2((2 + han1) as nat) <= fu
                * vstd::arithmetic::power2::pow2((2 + han2) as nat)) by (nonlinear_arith)
                requires
                    vstd::arithmetic::power2::pow2((2 + han1) as nat)
                        < vstd::arithmetic::power2::pow2((2 + han2) as nat),
                    fu >= 0,
            ;
        }
    }
}

} // verus!
