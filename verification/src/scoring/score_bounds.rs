use vstd::prelude::*;

use crate::hand_shape::honors_at_most_four;
use crate::mahjong_tile::{count_sum, MahjongTileId};
use crate::scoring::group_yaku::is_set_kind;
use crate::scoring::han_fu::{fu_fold, last_single, set_fu, tenpai_counts, tenpai_step};
use crate::scoring::winning_groups::first_tile;
use crate::shanten::{
    g_size, groups_model, hand_interpretations, honor_groups_upto, shape_size, zero_honors,
    MeldType, TileMeld,
};

verus! {

/// The honor groups of a hand hold as many tiles as its honor tiles.
proof fn lemma_honor_groups_size(c: Seq<u8>, h: int)
    requires
        c.len() == 34,
        honors_at_most_four(c),
        27 <= h <= 34,
    ensures
        g_size(honor_groups_upto(c, h)) == count_sum(c.take(h)) - count_sum(zero_honors(c).take(h)),
    decreases h,
{
    let z = zero_honors(c);
    if h == 27 {
        assert(c.take(27) =~= z.take(27));
    } else {
        lemma_honor_groups_size(c, h - 1);
        assert(c.take(h).drop_last() =~= c.take(h - 1));
        assert(z.take(h).drop_last() =~= z.take(h - 1));
        let a = honor_groups_upto(c, h - 1);
        let b = if c[h - 1] > 0 {
            seq![(crate::shanten::honor_kind(c[h - 1] as int), h - 1)]
        } else {
            seq![]
        };
        crate::shanten::lemma_g_size_append(a, b);
        assert(c.take(h).last() == c[h - 1]);
        assert(z.take(h).last() == z[h - 1]);
        assert(z[h - 1] == 0);
        assert(count_sum(c.take(h)) == count_sum(c.take(h - 1)) + c[h - 1]);
        assert(count_sum(z.take(h)) == count_sum(z.take(h - 1)));
        assert(honor_groups_upto(c, h) == a + b);
        if c[h - 1] > 0 {
            assert(b.drop_last() =~= Seq::<(MeldType, int)>::empty());
            assert(c[h - 1] <= 4);
            assert(b.last() == (crate::shanten::honor_kind(c[h - 1] as int), h - 1));
            assert(g_size(b.drop_last()) == 0);
            assert(g_size(b) == g_size(b.drop_last()) + shape_size(b.last().0));
        } else {
            assert(b =~= Seq::<(MeldType, int)>::empty());
        }
    }
}

/// Every interpretation of a hand holds all of its tiles.
pub proof fn lemma_interpretation_size(c: Seq<u8>, x: Seq<(MeldType, int)>)
    requires
        c.len() == 34,
        honors_at_most_four(c),
        hand_interpretations(c).contains(x),
    ensures
        g_size(x) == count_sum(c),
{
    let z = zero_honors(c);
    let hg = honor_groups_upto(c, 34);
    let si = crate::shanten::suit_interpretations(z);
    let i = choose|i: int| 0 <= i < hand_interpretations(c).len() && hand_interpretations(c)[i] == x;
    assert(x == hg + si[i]);
    assert(crate::shanten::honors_zero(z));
    crate::shanten::lemma_suit_interpretations_size(z);
    crate::shanten::lemma_g_size_append(hg, si[i]);
    lemma_honor_groups_size(c, 34);
    assert(c.take(34) =~= c);
    assert(z.take(34) =~= z);
}

/// How many groups are single tiles.
pub open spec fn num_singles(x: Seq<(MeldType, int)>) -> int
    decreases x.len(),
{
    if x.len() == 0 {
        0
    } else {
        num_singles(x.drop_last()) + if x.last().0 is SingleTile {
            1int
        } else {
            0int
        }
    }
}

/// Every group is counted once by `tenpai_counts`, and the groups hold at least three tiles
/// per complete group, two per pair and per incomplete group, less one per single tile.
pub proof fn lemma_tenpai_counts_size(x: Seq<(MeldType, int)>, w: MahjongTileId)
    ensures
        tenpai_counts(x, w).0 + tenpai_counts(x, w).1 + tenpai_counts(x, w).2 == x.len(),
        tenpai_counts(x, w).0 >= 0 && tenpai_counts(x, w).1 >= 0 && tenpai_counts(x, w).2 >= 0,
        g_size(x) >= 3 * tenpai_counts(x, w).0 + 2 * tenpai_counts(x, w).1 + 2 * tenpai_counts(
            x,
            w,
        ).2 - num_singles(x),
        num_singles(x) >= 0,
    decreases x.len(),
{
    if x.len() > 0 {
        lemma_tenpai_counts_size(x.drop_last(), w);
    }
}

/// Some group is a pair, then the shape scan finds a pair of the hand.
pub proof fn lemma_pair_found(ms: Seq<TileMeld>, w: MahjongTileId, src_closed: bool, i: int)
    requires
        0 <= i < ms.len(),
        ms[i].meld_type is Pair,
    ensures
        fu_fold(ms, w, src_closed).1 is Some,
    decreases ms.len(),
{
    if i < ms.len() - 1 {
        lemma_pair_found(ms.drop_last(), w, src_closed, i);
    }
}

/// Some group is a single tile, then there is a last single tile.
pub proof fn lemma_single_found(ms: Seq<TileMeld>, i: int)
    requires
        0 <= i < ms.len(),
        ms[i].meld_type is SingleTile,
    ensures
        last_single(ms) is Some,
    decreases ms.len(),
{
    if i < ms.len() - 1 && !(ms.last().meld_type is SingleTile) {
        lemma_single_found(ms.drop_last(), i);
    }
}

/// Among the group models, a count of pairs (or of single tiles) names one of them.
pub proof fn lemma_kind_present(x: Seq<(MeldType, int)>, w: MahjongTileId)
    ensures
        tenpai_counts(x, w).2 > 0 ==> exists|i: int| 0 <= i < x.len() && (#[trigger] x[i]).0 is Pair,
        num_singles(x) > 0 ==> exists|i: int| 0 <= i < x.len() && (#[trigger] x[i]).0 is SingleTile,
    decreases x.len(),
{
    if x.len() > 0 {
        lemma_kind_present(x.drop_last(), w);
        if tenpai_counts(x.drop_last(), w).2 > 0 {
            let i = choose|i: int| 0 <= i < x.drop_last().len() && (#[trigger] x.drop_last()[i]).0 is Pair;
            assert(x[i] == x.drop_last()[i]);
        }
        if num_singles(x.drop_last()) > 0 {
            let i = choose|i: int|
                0 <= i < x.drop_last().len() && (#[trigger] x.drop_last()[i]).0 is SingleTile;
            assert(x[i] == x.drop_last()[i]);
        }
    }
}

/// The most fu a group can add to the shape: a triplet or quad 32, a pair 8 (when it turns out
/// to be the triplet of a shanpon wait), a kanchan, penchan or tanki wait 2.
pub open spec fn fu_budget(ms: Seq<TileMeld>) -> int
    decreases ms.len(),
{
    if ms.len() == 0 {
        0
    } else {
        fu_budget(ms.drop_last()) + {
            let k = ms.last().meld_type;
            if is_set_kind(k) {
                32int
            } else if k is Pair {
                8int
            } else if k is Kanchan || k is Penchan || k is SingleTile {
                2int
            } else {
                0int
            }
        }
    }
}

/// The fu of the shape is at most 20 and the budget of its groups.
pub proof fn lemma_fu_fold_budget(ms: Seq<TileMeld>, w: MahjongTileId, src_closed: bool)
    ensures
        fu_fold(ms, w, src_closed).0 <= 20 + fu_budget(ms),
        fu_budget(ms) <= 32 * ms.len(),
        (forall|i: int| 0 <= i < ms.len() ==> !is_set_kind((#[trigger] ms[i]).meld_type))
            ==> fu_budget(ms) <= 8 * ms.len(),
    decreases ms.len(),
{
    if ms.len() > 0 {
        lemma_fu_fold_budget(ms.drop_last(), w, src_closed);
        let k = ms.last().meld_type;
        let t = first_tile(ms.last());
        assert(set_fu(k, t, true) <= 32);
        assert(set_fu(MeldType::Triplet, t, src_closed) <= 8);
        match fu_fold(ms.drop_last(), w, src_closed).1 {
            Some(p) => {
                assert(set_fu(MeldType::Triplet, p, src_closed) <= 8);
            },
            None => {},
        }
        if forall|i: int| 0 <= i < ms.len() ==> !is_set_kind((#[trigger] ms[i]).meld_type) {
            assert forall|i: int| 0 <= i < ms.drop_last().len() implies !is_set_kind(
                (#[trigger] ms.drop_last()[i]).meld_type,
            ) by {
                assert(ms.drop_last()[i] == ms[i]);
            }
            assert(!is_set_kind(ms[ms.len() - 1].meld_type));
        }
    }
}

/// The han of yakuhai are at most two per group.
proof fn lemma_groups_yakuhai_han_bound(gs: Seq<crate::scoring::winning_groups::GroupModel>, info: crate::scoring::HandInfo)
    ensures
        0 <= crate::scoring::group_yaku::groups_yakuhai_han(gs, info) <= 2 * gs.len(),
    decreases gs.len(),
{
    if gs.len() > 0 {
        lemma_groups_yakuhai_han_bound(gs.drop_last(), info);
    }
}

/// The yaku of a winning hand give at most 63 han.
pub proof fn lemma_yaku_han_bound(
    hi: crate::shanten::HandInterpretation,
    melds: Seq<TileMeld>,
    w: MahjongTileId,
    info: crate::scoring::HandInfo,
    wti: crate::scoring::WinningTileInfo,
)
    ensures
        0 <= crate::scoring::han_fu::spec_yaku_han(hi, melds, w, info, wti) <= 63,
{
    let src = crate::scoring::group_yaku::source_closed(wti.source);
    crate::scoring::winning_groups::lemma_total_groups_len(hi.groups@, w, src);
    match crate::scoring::group_yaku::winning_groups(hi, w, wti) {
        Some(gs) => {
            lemma_groups_yakuhai_han_bound(gs, info);
        },
        None => {},
    }
    assert(crate::scoring::group_yaku::yakuhai_yaku_han(hi, melds, w, info, wti) <= 14);
}

/// The han from dora are at most `b` per dora tile when no tile is counted more than `b`
/// times.
pub proof fn lemma_dora_han_bound(counts: Seq<u8>, doras: Seq<MahjongTileId>, b: int)
    requires
        counts.len() == 34,
        forall|t: int| 0 <= t < 34 ==> #[trigger] counts[t] <= b,
        forall|i: int| 0 <= i < doras.len() ==> crate::mahjong_tile::valid_id((#[trigger] doras[i]).0 as int),
        b >= 0,
    ensures
        0 <= crate::scoring::han_fu::dora_han(counts, doras) <= b * doras.len(),
    decreases doras.len(),
{
    if doras.len() > 0 {
        assert forall|i: int| 0 <= i < doras.drop_last().len() implies crate::mahjong_tile::valid_id(
            (#[trigger] doras.drop_last()[i]).0 as int,
        ) by {
            assert(doras.drop_last()[i] == doras[i]);
        }
        lemma_dora_han_bound(counts, doras.drop_last(), b);
        assert(crate::mahjong_tile::valid_id(doras[doras.len() - 1].0 as int));
        assert(b * doras.len() == b * (doras.len() - 1) + b) by (nonlinear_arith);
    }
}

/// The han from dora are never negative.
pub proof fn lemma_dora_han_nonneg(counts: Seq<u8>, doras: Seq<MahjongTileId>)
    ensures
        crate::scoring::han_fu::dora_han(counts, doras) >= 0,
    decreases doras.len(),
{
    if doras.len() > 0 {
        lemma_dora_han_nonneg(counts, doras.drop_last());
    }
}

/// The sum of the counts from index `i` on.
pub open spec fn sum_from(c: Seq<u8>, i: int) -> int
    decreases c.len() - i,
{
    if i >= c.len() || i < 0 {
        0
    } else {
        c[i] + sum_from(c, i + 1)
    }
}

proof fn lemma_sum_from_drop_last(c: Seq<u8>, i: int)
    requires
        0 <= i < c.len(),
    ensures
        sum_from(c, i) == sum_from(c.drop_last(), i) + c.last(),
    decreases c.len() - i,
{
    if i < c.len() - 1 {
        lemma_sum_from_drop_last(c, i + 1);
        assert(c.drop_last()[i] == c[i]);
        assert(sum_from(c.drop_last(), i) == c.drop_last()[i] + sum_from(c.drop_last(), i + 1));
    } else {
        assert(sum_from(c, i + 1) == 0);
        assert(sum_from(c.drop_last(), i) == 0);
    }
}

proof fn lemma_count_sum_is_sum_from(c: Seq<u8>)
    ensures
        count_sum(c) == sum_from(c, 0),
    decreases c.len(),
{
    if c.len() > 0 {
        lemma_count_sum_is_sum_from(c.drop_last());
        lemma_sum_from_drop_last(c, 0);
    }
}

/// A hand of fourteen tiles that is thirteen orphans holds one or two copies of the 1 of
/// characters.
proof fn lemma_kokushi_first_tile(c: Seq<u8>)
    requires
        c.len() == 34,
        count_sum(c) == 14,
        crate::shanten::spec_kokushi_shanten(c) == -1,
    ensures
        c[0] == 1 || c[0] == 2,
{
    lemma_count_sum_is_sum_from(c);
    reveal_with_fuel(sum_from, 35);
    reveal_with_fuel(crate::shanten::kokushi_held, 14);
    assert(crate::shanten::kokushi_ids()[0].0 == 0);
    assert(crate::shanten::kokushi_held(c, 13) <= 13);
}

/// The thirteen-orphans groups of a hand hold only single tiles and pairs of real tiles, no
/// more groups than tiles; and the first one is for tile 0 when it is held once or twice.
pub proof fn lemma_kokushi_model(c: Seq<u8>)
    requires
        c.len() <= 34,
    ensures
        forall|i: int|
            0 <= i < crate::scoring::han_fu::kokushi_model(c).len() ==> {
                let g = #[trigger] crate::scoring::han_fu::kokushi_model(c)[i];
                &&& (g.0 is SingleTile || g.0 is Pair)
                &&& 0 <= g.1 < 34
            },
        crate::scoring::han_fu::kokushi_model(c).len() <= count_sum(c),
        c.len() > 0 && (c[0] == 1 || c[0] == 2) ==> crate::scoring::han_fu::kokushi_model(c).len() > 0,
    decreases c.len(),
{
    if c.len() > 0 {
        lemma_kokushi_model(c.drop_last());
        let m = crate::scoring::han_fu::kokushi_model(c);
        let p = crate::scoring::han_fu::kokushi_model(c.drop_last());
        assert forall|i: int| 0 <= i < m.len() implies {
            let g = #[trigger] m[i];
            &&& (g.0 is SingleTile || g.0 is Pair)
            &&& 0 <= g.1 < 34
        } by {
            if i < p.len() {
                assert(m[i] == p[i]);
            }
        }
        if c.len() > 1 {
            assert(c.drop_last()[0] == c[0]);
        }
    }
}

/// The seven-pairs groups of a hand are pairs of real tiles, no more groups than tiles; and
/// there is one as soon as a tile is held.
pub proof fn lemma_chiitoi_model(c: Seq<u8>, t: int)
    requires
        c.len() <= 34,
    ensures
        forall|i: int|
            0 <= i < crate::scoring::han_fu::chiitoi_model(c).len() ==> {
                let g = #[trigger] crate::scoring::han_fu::chiitoi_model(c)[i];
                &&& g.0 is Pair
                &&& 0 <= g.1 < 34
            },
        crate::scoring::han_fu::chiitoi_model(c).len() <= count_sum(c),
        0 <= t < c.len() && c[t] > 0 ==> crate::scoring::han_fu::chiitoi_model(c).len() > 0,
    decreases c.len(),
{
    if c.len() > 0 {
        lemma_chiitoi_model(c.drop_last(), t);
        let m = crate::scoring::han_fu::chiitoi_model(c);
        let p = crate::scoring::han_fu::chiitoi_model(c.drop_last());
        assert forall|i: int| 0 <= i < m.len() implies {
            let g = #[trigger] m[i];
            &&& g.0 is Pair
            &&& 0 <= g.1 < 34
        } by {
            if i < p.len() {
                assert(m[i] == p[i]);
            }
        }
        if 0 <= t < c.len() - 1 {
            assert(c.drop_last()[t] == c[t]);
        }
    }
}

/// Seven pairs means some tile is held twice.
proof fn lemma_pairs_upto_held(c: Seq<u8>, n: int)
    requires
        0 <= n <= c.len(),
        crate::shanten::num_pairs_upto(c, n) > 0,
    ensures
        exists|t: int| 0 <= t < n && c[t] >= 2,
    decreases n,
{
    if n > 0 && crate::shanten::num_pairs_upto(c, n - 1) > 0 {
        lemma_pairs_upto_held(c, n - 1);
    }
}

/// Two lists of groups have the same kinds and lowest tiles, one for one.
pub open spec fn same_shape(a: Seq<TileMeld>, b: Seq<TileMeld>) -> bool {
    &&& a.len() == b.len()
    &&& forall|i: int|
        0 <= i < a.len() ==> (#[trigger] a[i]).meld_type == b[i].meld_type && first_tile(a[i])
            == first_tile(b[i])
}

proof fn lemma_same_shape_drop_last(a: Seq<TileMeld>, b: Seq<TileMeld>)
    requires
        same_shape(a, b),
        a.len() > 0,
    ensures
        same_shape(a.drop_last(), b.drop_last()),
        a.last().meld_type == b.last().meld_type,
        first_tile(a.last()) == first_tile(b.last()),
        a.last().tile_ids@[0] == b.last().tile_ids@[0],
{
    assert forall|i: int| 0 <= i < a.drop_last().len() implies (#[trigger] a.drop_last()[i]).meld_type
        == b.drop_last()[i].meld_type && first_tile(a.drop_last()[i]) == first_tile(
        b.drop_last()[i],
    ) by {
        assert(a.drop_last()[i] == a[i]);
        assert(b.drop_last()[i] == b[i]);
    }
    assert(a.last() == a[a.len() - 1]);
    assert(b.last() == b[b.len() - 1]);
}

/// What is computed from the groups scan by scan depends only on their kinds and lowest
/// tiles.
pub proof fn lemma_same_shape_scans(
    a: Seq<TileMeld>,
    b: Seq<TileMeld>,
    w: MahjongTileId,
    src_closed: bool,
)
    requires
        same_shape(a, b),
    ensures
        crate::scoring::winning_groups::regular_groups(a, w, src_closed)
            == crate::scoring::winning_groups::regular_groups(b, w, src_closed),
        crate::scoring::winning_groups::chiitoi_groups(a, w, src_closed)
            == crate::scoring::winning_groups::chiitoi_groups(b, w, src_closed),
        crate::scoring::pairs_with_winning_tile(a, w) == crate::scoring::pairs_with_winning_tile(b, w),
        fu_fold(a, w, src_closed) == fu_fold(b, w, src_closed),
        last_single(a) == last_single(b),
        forall|k: MeldType| #[trigger] crate::scoring::group_yaku::kind_count(a, k) == crate::scoring::group_yaku::kind_count(b, k),
    decreases a.len(),
{
    if a.len() > 0 {
        lemma_same_shape_drop_last(a, b);
        lemma_same_shape_scans(a.drop_last(), b.drop_last(), w, src_closed);
        assert forall|k: MeldType| #[trigger] crate::scoring::group_yaku::kind_count(a, k)
            == crate::scoring::group_yaku::kind_count(b, k) by {
            assert(crate::scoring::group_yaku::kind_count(a.drop_last(), k)
                == crate::scoring::group_yaku::kind_count(b.drop_last(), k));
        }
    }
}

proof fn lemma_same_shape_singles(a: Seq<TileMeld>, b: Seq<TileMeld>, n: int)
    requires
        same_shape(a, b),
    ensures
        crate::scoring::han_fu::outside_singles_upto(a, n) == crate::scoring::han_fu::outside_singles_upto(b, n),
    decreases n,
{
    if n > 0 {
        lemma_same_shape_singles(a, b, n - 1);
        let t = n - 1;
        if crate::scoring::han_fu::single_at(a, t) {
            let i = choose|i: int|
                0 <= i < a.len() && a[i].meld_type is SingleTile && first_tile(#[trigger] a[i]) == t;
            assert(b[i].meld_type is SingleTile && first_tile(b[i]) == t);
        }
        if crate::scoring::han_fu::single_at(b, t) {
            let i = choose|i: int|
                0 <= i < b.len() && b[i].meld_type is SingleTile && first_tile(#[trigger] b[i]) == t;
            assert(a[i].meld_type is SingleTile && first_tile(a[i]) == t);
        }
    }
}

/// Two interpretations of one hand with the same kinds and lowest tiles of groups have the
/// same score.
pub proof fn lemma_score_same_shape(
    hi1: crate::shanten::HandInterpretation,
    hi2: crate::shanten::HandInterpretation,
    melds: Seq<TileMeld>,
    w: MahjongTileId,
    info: crate::scoring::HandInfo,
    wti: crate::scoring::WinningTileInfo,
)
    requires
        hi1.total_tile_count_array@ == hi2.total_tile_count_array@,
        same_shape(hi1.groups@, hi2.groups@),
    ensures
        crate::scoring::han_fu::spec_interpretation_score(hi1, melds, w, info, wti)
            == crate::scoring::han_fu::spec_interpretation_score(hi2, melds, w, info, wti),
{
    let a = hi1.groups@;
    let b = hi2.groups@;
    let src = crate::scoring::group_yaku::source_closed(wti.source);
    lemma_same_shape_scans(a, b, w, src);
    lemma_same_shape_scans(a, b, w, true);
    lemma_same_shape_scans(a, b, w, false);
    lemma_same_shape_singles(a, b, 34);
    assert(crate::scoring::winning_groups::spec_total_groups(a, w, src)
        == crate::scoring::winning_groups::spec_total_groups(b, w, src));
    assert(crate::scoring::group_yaku::spec_is_pinfu(hi1, w, info)
        == crate::scoring::group_yaku::spec_is_pinfu(hi2, w, info)) by {
        assert(crate::scoring::group_yaku::kind_count(a, MeldType::Ryanmen)
            == crate::scoring::group_yaku::kind_count(b, MeldType::Ryanmen));
        assert(crate::scoring::group_yaku::kind_count(a, MeldType::Triplet)
            == crate::scoring::group_yaku::kind_count(b, MeldType::Triplet));
        assert(crate::scoring::group_yaku::kind_count(a, MeldType::Quadruplet)
            == crate::scoring::group_yaku::kind_count(b, MeldType::Quadruplet));
        assert(crate::scoring::group_yaku::kind_count(a, MeldType::Sequence)
            == crate::scoring::group_yaku::kind_count(b, MeldType::Sequence));
        assert(crate::scoring::group_yaku::kind_count(a, MeldType::Pair)
            == crate::scoring::group_yaku::kind_count(b, MeldType::Pair));
        let ry_a = forall|i: int|
            0 <= i < a.len() && (#[trigger] a[i]).meld_type is Ryanmen
                ==> crate::shanten::shape_completions(MeldType::Ryanmen, first_tile(a[i])).contains(w);
        let ry_b = forall|i: int|
            0 <= i < b.len() && (#[trigger] b[i]).meld_type is Ryanmen
                ==> crate::shanten::shape_completions(MeldType::Ryanmen, first_tile(b[i])).contains(w);
        if ry_a {
            assert forall|i: int| 0 <= i < b.len() && (#[trigger] b[i]).meld_type is Ryanmen implies
                crate::shanten::shape_completions(MeldType::Ryanmen, first_tile(b[i])).contains(w) by {
                assert(a[i].meld_type is Ryanmen);
            }
        }
        if ry_b {
            assert forall|i: int| 0 <= i < a.len() && (#[trigger] a[i]).meld_type is Ryanmen implies
                crate::shanten::shape_completions(MeldType::Ryanmen, first_tile(a[i])).contains(w) by {
                assert(b[i].meld_type is Ryanmen);
            }
        }
        let pa = forall|i: int|
            0 <= i < a.len() && (#[trigger] a[i]).meld_type is Pair ==> !crate::scoring::spec_is_yakuhai_tile(
                first_tile(a[i]),
                info.round_wind,
                info.seat_wind,
            );
        let pb = forall|i: int|
            0 <= i < b.len() && (#[trigger] b[i]).meld_type is Pair ==> !crate::scoring::spec_is_yakuhai_tile(
                first_tile(b[i]),
                info.round_wind,
                info.seat_wind,
            );
        if pa {
            assert forall|i: int| 0 <= i < b.len() && (#[trigger] b[i]).meld_type is Pair implies
                !crate::scoring::spec_is_yakuhai_tile(first_tile(b[i]), info.round_wind, info.seat_wind) by {
                assert(a[i].meld_type is Pair);
            }
        }
        if pb {
            assert forall|i: int| 0 <= i < a.len() && (#[trigger] a[i]).meld_type is Pair implies
                !crate::scoring::spec_is_yakuhai_tile(first_tile(a[i]), info.round_wind, info.seat_wind) by {
                assert(b[i].meld_type is Pair);
            }
        }
    }
    assert(crate::scoring::han_fu::spec_yaku_han(hi1, melds, w, info, wti)
        == crate::scoring::han_fu::spec_yaku_han(hi2, melds, w, info, wti));
    assert(crate::scoring::han_fu::spec_raw_fu(hi1, melds, w, info, wti)
        == crate::scoring::han_fu::spec_raw_fu(hi2, melds, w, info, wti));
}

/// Groups that match group models share their kinds and lowest tiles.
pub proof fn lemma_matching_melds_shape(ms: Seq<TileMeld>, gs: Seq<(MeldType, int)>)
    requires
        crate::shanten::melds_match(ms, gs),
        forall|j: int| 0 <= j < gs.len() ==> 0 <= #[trigger] gs[j].1 < 34,
    ensures
        forall|i: int| 0 <= i < ms.len() ==> (#[trigger] ms[i]).meld_type == gs[i].0 && first_tile(ms[i]) == gs[i].1,
        crate::shanten::melds_wf(ms),
        groups_model(ms) == gs,
{
    crate::shanten::lemma_melds_match_model(ms, gs);
    assert forall|i: int| 0 <= i < ms.len() implies (#[trigger] ms[i]).meld_type == gs[i].0 && first_tile(ms[i]) == gs[i].1 by {
        assert(crate::shanten::meld_matches(ms[i], gs[i]));
        assert(groups_model(ms)[i] == gs[i]);
    }
}

/// The interpretations of a winning hand of thirteen tiles (no declared melds) can be scored:
/// the yaku inputs are sound, and the han and fu fit (see `score_fits`).
pub proof fn lemma_winning_interpretation_fits(
    c: Seq<u8>,
    w: MahjongTileId,
    hi: crate::shanten::HandInterpretation,
    info: crate::scoring::HandInfo,
    wti: crate::scoring::WinningTileInfo,
)
    requires
        c.len() == 34,
        count_sum(c) == 13,
        honors_at_most_four(crate::scoring::han_fu::counts_with_tile(c, w)),
        crate::mahjong_tile::valid_id(w.0 as int),
        crate::scoring::han_fu::is_winning_interpretation(c, w, hi),
        forall|i: int|
            0 <= i < info.dora_tiles@.len() ==> crate::mahjong_tile::valid_id((#[trigger] info.dora_tiles@[i]).0 as int),
        info.dora_tiles@.len() <= 12,
    ensures
        crate::scoring::yaku_inputs_ok(hi, seq![], w),
        crate::scoring::han_fu::score_fits(hi, seq![], w, info, wti),
{
    let cw = crate::scoring::han_fu::counts_with_tile(c, w);
    let ms = hi.groups@;
    let src = crate::scoring::group_yaku::source_closed(wti.source);
    let none: Seq<TileMeld> = seq![];
    crate::shanten::lemma_count_sum_bound_each(c);
    assert(c[w.0 as int] <= 13);
    crate::scoring::han_fu::lemma_count_sum_add_one(c, w.0 as int);
    assert(count_sum(cw) == 14);
    crate::shanten::lemma_count_sum_bound_each(cw);
    assert(crate::scoring::melded_ids(none) =~= Seq::<MahjongTileId>::empty());
    // the totals, the groups and the budget of fu of each kind of interpretation
    let is_standard = crate::scoring::han_fu::is_standard_winning_interpretation(c, w, hi);
    let is_chiitoi_special = !is_standard && crate::shanten::spec_chiitoi_shanten(cw) == -1
        && hi.total_tile_count_array@ == cw && crate::shanten::melds_match(ms, crate::scoring::han_fu::chiitoi_model(cw));
    if is_standard {
        assert(hi.total_tile_count_array@ == c);
        assert(hi.wf());
    } else if is_chiitoi_special {
        lemma_chiitoi_model(cw, 0);
        lemma_matching_melds_shape(ms, crate::scoring::han_fu::chiitoi_model(cw));
    } else {
        lemma_kokushi_model(cw);
        lemma_matching_melds_shape(ms, crate::scoring::han_fu::kokushi_model(cw));
    }
    assert forall|t: int| 0 <= t < 34 implies #[trigger] hi.total_tile_count_array@[t] <= 14 by {
        assert(c[t] <= 13);
        assert(cw[t] <= 14);
    }
    assert forall|t: int| 0 <= t < 34 implies #[trigger] hi.total_tile_count_array@[t] + 1
        + crate::shanten::id_count(crate::scoring::melded_ids(none), t) <= 255 by {
        assert(hi.total_tile_count_array@[t] <= 14);
    }
    assert(crate::scoring::yaku_inputs_ok(hi, none, w));
    // han
    lemma_yaku_han_bound(hi, none, w, info, wti);
    let counts = crate::scoring::han_fu::counts_with_winning_tile(hi, w);
    assert forall|t: int| 0 <= t < 34 implies #[trigger] counts[t] <= 15 by {
        assert(hi.total_tile_count_array@[t] <= 14);
    }
    lemma_dora_han_bound(counts, info.dora_tiles@, 15);
    // fu
    lemma_fu_fold_budget(ms, w, src);
    if !crate::scoring::han_fu::is_chiitoi_interpretation(hi, w)
        && !crate::scoring::han_fu::is_kokushi_interpretation(hi) {
        if is_standard {
            let x = hi.model();
            let k = crate::scoring::han_fu::tenpai_counts(x, w);
            lemma_tenpai_counts_size(x, w);
            lemma_kind_present(x, w);
            assert(ms.len() == 5);
            if k.2 > 0 {
                let i = choose|i: int| 0 <= i < x.len() && (#[trigger] x[i]).0 is Pair;
                assert(ms[i].meld_type is Pair);
                lemma_pair_found(ms, w, src, i);
            } else {
                assert forall|h: int| 27 <= h < 34 implies #[trigger] c[h] <= 4 by {
                    assert(cw[h] <= 4);
                    if h != w.0 {
                        assert(cw[h] == c[h]);
                    }
                }
                lemma_interpretation_size(c, x);
                assert(num_singles(x) > 0);
                let i = choose|i: int| 0 <= i < x.len() && (#[trigger] x[i]).0 is SingleTile;
                assert(ms[i].meld_type is SingleTile);
                lemma_single_found(ms, i);
            }
        } else {
            assert(forall|i: int| 0 <= i < ms.len() ==> !is_set_kind((#[trigger] ms[i]).meld_type));
            if is_chiitoi_special {
                lemma_pairs_upto_held(cw, 34);
                let t = choose|t: int| 0 <= t < 34 && cw[t] >= 2;
                lemma_chiitoi_model(cw, t);
                assert(ms[0].meld_type is Pair);
                lemma_pair_found(ms, w, src, 0);
            } else {
                lemma_kokushi_first_tile(cw);
                if ms[0].meld_type is Pair {
                    lemma_pair_found(ms, w, src, 0);
                } else {
                    lemma_single_found(ms, 0);
                }
            }
        }
    }
}

} // verus!
