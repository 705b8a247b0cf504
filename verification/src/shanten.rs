use vstd::prelude::*;
use std::collections::{HashMap, VecDeque};

use crate::hand_shape::{honors_at_most_four, lemma_count_sum_zeros, starts_sequence};
use crate::mahjong_hand::{
    can_make_kanchan, can_make_penchan, can_make_ryanmen, can_make_sequence, first_nonzero,
    lemma_first_nonzero, spec_can_make_kanchan, spec_can_make_penchan, spec_can_make_ryanmen,
    spec_can_make_sequence, starts_penchan, starts_ryanmen,
};
use crate::mahjong_tile::{
    count_sum, distinct_counted_ids, expand_counts, get_num_tile_rank, get_tile_ids_from_string,
    get_tile_text_from_id, spec_tile_ids_from_text, spec_tile_text, tiles_text_valid,
    get_total_tiles_from_count_array, MahjongTileCountArray, id_rank, is_numbered_id, lemma_count_sum_nonneg,
    lemma_count_sum_pointwise, lemma_count_sum_update, lemma_count_sum_zero, valid_id, MahjongTileId, FIRST_HONOR_ID,
};

verus! {

/// The kind of a group of tiles in an interpretation of a hand.
#[derive(Debug, Clone, Copy, PartialEq, Eq, Structural)]
pub enum MeldType {
    /// e.g. 888
    Triplet,
    /// e.g. 5555
    Quadruplet,
    /// e.g. 123 or 567
    Sequence,
    Pair,
    /// open wait e.g. 34 or 67
    Ryanmen,
    /// closed wait e.g. 35 or 79
    Kanchan,
    /// edge wait e.g. 12 or 89
    Penchan,
    /// for tanki wait or isolated tiles
    SingleTile,
}

/// Triplets, quadruplets and sequences are complete groups.
pub open spec fn spec_is_complete(k: MeldType) -> bool {
    k is Quadruplet || k is Sequence || k is Triplet
}

impl MeldType {
    pub fn is_complete(&self) -> (r: bool)
        ensures
            r == spec_is_complete(*self),
    {
        match self {
            MeldType::Quadruplet | MeldType::Sequence | MeldType::Triplet => true,
            _ => false,
        }
    }
}

/// A group of tiles of a hand interpretation, its tile ids in ascending order.
#[derive(Debug, Clone)]
pub struct TileMeld {
    pub meld_type: MeldType,
    pub tile_ids: Vec<MahjongTileId>,
}

/// Inserts `x` before the trailing elements of `s` that are greater than it.
pub open spec fn insert_sorted(s: Seq<MahjongTileId>, x: MahjongTileId) -> Seq<MahjongTileId>
    decreases s.len(),
{
    if s.len() == 0 {
        seq![x]
    } else if s.last().0 <= x.0 {
        s.push(x)
    } else {
        insert_sorted(s.drop_last(), x).push(s.last())
    }
}

/// The tile ids in ascending order (insertion sort).
pub open spec fn sort_ids(s: Seq<MahjongTileId>) -> Seq<MahjongTileId>
    decreases s.len(),
{
    if s.len() == 0 {
        s
    } else {
        insert_sorted(sort_ids(s.drop_last()), s.last())
    }
}

/// The tile ids are in ascending order.
pub open spec fn ids_sorted(s: Seq<MahjongTileId>) -> bool {
    forall|i: int, j: int| 0 <= i <= j < s.len() ==> s[i].0 <= s[j].0
}

pub proof fn lemma_insert_sorted(s: Seq<MahjongTileId>, x: MahjongTileId)
    requires
        ids_sorted(s),
    ensures
        ids_sorted(insert_sorted(s, x)),
        insert_sorted(s, x).len() == s.len() + 1,
        insert_sorted(s, x).last().0 == if s.len() == 0 || s.last().0 <= x.0 {
            x.0
        } else {
            s.last().0
        },
    decreases s.len(),
{
    if s.len() > 0 && s.last().0 > x.0 {
        let d = s.drop_last();
        assert(ids_sorted(d));
        lemma_insert_sorted(d, x);
    }
}

pub proof fn lemma_sort_ids(s: Seq<MahjongTileId>)
    ensures
        ids_sorted(sort_ids(s)),
        sort_ids(s).len() == s.len(),
    decreases s.len(),
{
    if s.len() > 0 {
        lemma_sort_ids(s.drop_last());
        lemma_insert_sorted(sort_ids(s.drop_last()), s.last());
    }
}

/// Sorting ids that are already in order leaves them unchanged.
pub proof fn lemma_sort_sorted(s: Seq<MahjongTileId>)
    requires
        ids_sorted(s),
    ensures
        sort_ids(s) == s,
    decreases s.len(),
{
    if s.len() > 0 {
        let d = s.drop_last();
        assert(ids_sorted(d));
        lemma_sort_sorted(d);
        assert(d.push(s.last()) =~= s);
    }
}

fn insert_sorted_into(v: &mut Vec<MahjongTileId>, x: MahjongTileId)
    ensures
        final(v)@ == insert_sorted(old(v)@, x),
    decreases old(v)@.len(),
{
    let n = v.len();
    if n == 0 {
        v.push(x);
        return ;
    }
    let last = v[n - 1];
    if last.0 <= x.0 {
        v.push(x);
    } else {
        let ghost before = v@;
        v.pop();
        assert(v@ =~= before.drop_last());
        insert_sorted_into(v, x);
        v.push(last);
    }
}

/// The tile ids in ascending order.
pub(crate) fn sorted_tile_ids(tile_ids: &Vec<MahjongTileId>) -> (r: Vec<MahjongTileId>)
    ensures
        r@ == sort_ids(tile_ids@),
{
    let mut r: Vec<MahjongTileId> = Vec::new();
    let mut i: usize = 0;
    while i < tile_ids.len()
        invariant
            i <= tile_ids.len(),
            r@ == sort_ids(tile_ids@.take(i as int)),
        decreases tile_ids.len() - i,
    {
        assert(tile_ids@.take(i + 1).drop_last() =~= tile_ids@.take(i as int));
        insert_sorted_into(&mut r, tile_ids[i]);
        i += 1;
    }
    assert(tile_ids@.take(i as int) =~= tile_ids@);
    r
}

/// Every tile id equals the first.
pub open spec fn spec_all_same(s: Seq<MahjongTileId>) -> bool {
    forall|i: int| 0 <= i < s.len() ==> #[trigger] s[i] == s[0]
}

/// Three ascending ids form a sequence: consecutive numbered tiles of one suit.
pub open spec fn is_sequence_ids(s: Seq<MahjongTileId>) -> bool {
    &&& s.len() == 3
    &&& s[2].0 < 27
    &&& s[2].0 == s[1].0 + 1
    &&& s[1].0 == s[0].0 + 1
    &&& id_rank(s[0].0 as int) <= 7
    &&& id_rank(s[2].0 as int) >= 3
}

/// Two ascending ids form a ryanmen: consecutive numbered tiles, neither a terminal.
pub open spec fn is_ryanmen_ids(s: Seq<MahjongTileId>) -> bool {
    &&& s.len() == 2
    &&& s[1].0 < 27
    &&& s[1].0 == s[0].0 + 1
    &&& 2 <= id_rank(s[0].0 as int) <= 7
}

/// Two ascending ids form a kanchan: numbered tiles of one suit two apart.
pub open spec fn is_kanchan_ids(s: Seq<MahjongTileId>) -> bool {
    &&& s.len() == 2
    &&& s[1].0 < 27
    &&& s[1].0 == s[0].0 + 2
    &&& id_rank(s[0].0 as int) <= 7
    &&& id_rank(s[1].0 as int) >= 3
}

/// Two ascending ids form a penchan: 12 or 89 of one suit.
pub open spec fn is_penchan_ids(s: Seq<MahjongTileId>) -> bool {
    &&& s.len() == 2
    &&& s[1].0 < 27
    &&& s[1].0 == s[0].0 + 1
    &&& (id_rank(s[0].0 as int) == 1 || id_rank(s[0].0 as int) == 8)
}

/// The kind of group that ascending tile ids form, if any.
pub open spec fn classify_sorted(s: Seq<MahjongTileId>) -> Option<MeldType> {
    if s.len() == 1 {
        Some(MeldType::SingleTile)
    } else if s.len() == 2 {
        if spec_all_same(s) {
            Some(MeldType::Pair)
        } else if is_ryanmen_ids(s) {
            Some(MeldType::Ryanmen)
        } else if is_kanchan_ids(s) {
            Some(MeldType::Kanchan)
        } else if is_penchan_ids(s) {
            Some(MeldType::Penchan)
        } else {
            None
        }
    } else if s.len() == 3 {
        if spec_all_same(s) {
            Some(MeldType::Triplet)
        } else if is_sequence_ids(s) {
            Some(MeldType::Sequence)
        } else {
            None
        }
    } else if s.len() == 4 {
        if spec_all_same(s) {
            Some(MeldType::Quadruplet)
        } else {
            None
        }
    } else {
        None
    }
}

/// The kind of group that the tile ids form (in any order), if any.
pub open spec fn spec_meld_type(ids: Seq<MahjongTileId>) -> Option<MeldType> {
    classify_sorted(sort_ids(ids))
}

/// A meld whose ids are ascending and whose kind is the one they form.
pub open spec fn tile_meld_wf(m: TileMeld) -> bool {
    &&& ids_sorted(m.tile_ids@)
    &&& classify_sorted(m.tile_ids@) == Some(m.meld_type)
}

fn tile_ids_are_all_same(tile_ids: &Vec<MahjongTileId>) -> (r: bool)
    ensures
        r == spec_all_same(tile_ids@),
{
    if tile_ids.len() == 0 {
        return true;
    }
    let first_tile_id = tile_ids[0];
    let mut i: usize = 0;
    while i < tile_ids.len()
        invariant
            i <= tile_ids.len(),
            tile_ids.len() > 0,
            first_tile_id == tile_ids@[0],
            forall|k: int| 0 <= k < i ==> #[trigger] tile_ids@[k] == tile_ids@[0],
        decreases tile_ids.len() - i,
    {
        if tile_ids[i] != first_tile_id {
            return false;
        }
        i += 1;
    }
    true
}

fn tile_ids_are_sequence(tile_ids: &Vec<MahjongTileId>) -> (r: bool)
    ensures
        r == (tile_ids@.len() == 3 && is_sequence_ids(sort_ids(tile_ids@))),
{
    if tile_ids.len() != 3 {
        return false;
    }
    let sorted = sorted_tile_ids(tile_ids);
    proof {
        lemma_sort_ids(tile_ids@);
    }
    let min_tile_id = sorted[0];
    let mid_tile_id = sorted[1];
    let max_tile_id = sorted[2];
    if max_tile_id.0 >= FIRST_HONOR_ID {
        return false;
    }
    let min_tile_rank = get_num_tile_rank(min_tile_id.0).unwrap();
    let max_tile_rank = get_num_tile_rank(max_tile_id.0).unwrap();
    (max_tile_id.0 == mid_tile_id.0 + 1) && (mid_tile_id.0 == min_tile_id.0 + 1) && (min_tile_rank
        <= 7 && max_tile_rank >= 3)
}

fn tile_ids_are_ryanmen(tile_ids: &Vec<MahjongTileId>) -> (r: bool)
    ensures
        r == (tile_ids@.len() == 2 && is_ryanmen_ids(sort_ids(tile_ids@))),
{
    if tile_ids.len() != 2 {
        return false;
    }
    let sorted = sorted_tile_ids(tile_ids);
    proof {
        lemma_sort_ids(tile_ids@);
    }
    let min_tile_id = sorted[0];
    let max_tile_id = sorted[1];
    if max_tile_id.0 >= FIRST_HONOR_ID {
        return false;
    }
    let min_tile_rank = get_num_tile_rank(min_tile_id.0).unwrap();
    max_tile_id.0 == min_tile_id.0 + 1 && (min_tile_rank >= 2 && min_tile_rank <= 7)
}

fn tile_ids_are_kanchan(tile_ids: &Vec<MahjongTileId>) -> (r: bool)
    ensures
        r == (tile_ids@.len() == 2 && is_kanchan_ids(sort_ids(tile_ids@))),
{
    if tile_ids.len() != 2 {
        return false;
    }
    let sorted = sorted_tile_ids(tile_ids);
    proof {
        lemma_sort_ids(tile_ids@);
    }
    let min_tile_id = sorted[0];
    let max_tile_id = sorted[1];
    if max_tile_id.0 >= FIRST_HONOR_ID {
        return false;
    }
    let min_tile_rank = get_num_tile_rank(min_tile_id.0).unwrap();
    let max_tile_rank = get_num_tile_rank(max_tile_id.0).unwrap();
    max_tile_id.0 == min_tile_id.0 + 2 && (min_tile_rank <= 7 && max_tile_rank >= 3)
}

fn tile_ids_are_penchan(tile_ids: &Vec<MahjongTileId>) -> (r: bool)
    ensures
        r == (tile_ids@.len() == 2 && is_penchan_ids(sort_ids(tile_ids@))),
{
    if tile_ids.len() != 2 {
        return false;
    }
    let sorted = sorted_tile_ids(tile_ids);
    proof {
        lemma_sort_ids(tile_ids@);
    }
    let min_tile_id = sorted[0];
    let max_tile_id = sorted[1];
    if max_tile_id.0 >= FIRST_HONOR_ID {
        return false;
    }
    let min_tile_rank = get_num_tile_rank(min_tile_id.0).unwrap();
    max_tile_id.0 == min_tile_id.0 + 1 && (min_tile_rank == 1 || min_tile_rank == 8)
}

/// A copy of the tile ids.
pub(crate) fn copy_tile_ids(tile_ids: &Vec<MahjongTileId>) -> (r: Vec<MahjongTileId>)
    ensures
        r@ == tile_ids@,
{
    let mut r: Vec<MahjongTileId> = Vec::new();
    let mut i: usize = 0;
    while i < tile_ids.len()
        invariant
            i <= tile_ids.len(),
            r@ == tile_ids@.take(i as int),
        decreases tile_ids.len() - i,
    {
        r.push(tile_ids[i]);
        i += 1;
        assert(r@ =~= tile_ids@.take(i as int));
    }
    assert(tile_ids@.take(i as int) =~= tile_ids@);
    r
}

impl TileMeld {
    /// Builds a meld from tile ids (in any order): finds the kind of group they form and
    /// sorts them, which is useful for optimizing some future steps.
    pub fn new(tile_ids: Vec<MahjongTileId>) -> (r: Self)
        requires
            spec_meld_type(tile_ids@) is Some,
        ensures
            Some(r.meld_type) == spec_meld_type(tile_ids@),
            r.tile_ids@ == sort_ids(tile_ids@),
            tile_meld_wf(r),
    {
        let sorted = sorted_tile_ids(&tile_ids);
        proof {
            lemma_sort_ids(tile_ids@);
            lemma_sort_sorted(sort_ids(tile_ids@));
        }
        let n = sorted.len();
        let meld_type = if n == 1 {
            MeldType::SingleTile
        } else if n == 2 {
            if tile_ids_are_all_same(&sorted) {
                MeldType::Pair
            } else if tile_ids_are_ryanmen(&sorted) {
                MeldType::Ryanmen
            } else if tile_ids_are_kanchan(&sorted) {
                MeldType::Kanchan
            } else {
                let is_penchan = tile_ids_are_penchan(&sorted);
                assert(is_penchan);
                MeldType::Penchan
            }
        } else if n == 3 {
            if tile_ids_are_all_same(&sorted) {
                MeldType::Triplet
            } else {
                let is_sequence = tile_ids_are_sequence(&sorted);
                assert(is_sequence);
                MeldType::Sequence
            }
        } else {
            MeldType::Quadruplet
        };
        TileMeld { meld_type: meld_type, tile_ids: sorted }
    }

    pub fn is_complete(&self) -> (r: bool)
        ensures
            r == spec_is_complete(self.meld_type),
    {
        self.meld_type.is_complete()
    }

    /// A copy of this meld.
    pub fn duplicate(&self) -> (r: Self)
        ensures
            r.meld_type == self.meld_type,
            r.tile_ids@ == self.tile_ids@,
    {
        TileMeld { meld_type: self.meld_type, tile_ids: copy_tile_ids(&self.tile_ids) }
    }
}


/// The tile with id `t`.
pub open spec fn tid(t: int) -> MahjongTileId {
    MahjongTileId(t as u8)
}

/// The ascending tile ids of a group of kind `k` whose lowest tile is `t`.
pub open spec fn shape_ids(k: MeldType, t: int) -> Seq<MahjongTileId> {
    match k {
        MeldType::Triplet => seq![tid(t), tid(t), tid(t)],
        MeldType::Quadruplet => seq![tid(t), tid(t), tid(t), tid(t)],
        MeldType::Sequence => seq![tid(t), tid(t + 1), tid(t + 2)],
        MeldType::Pair => seq![tid(t), tid(t)],
        MeldType::Ryanmen => seq![tid(t), tid(t + 1)],
        MeldType::Penchan => seq![tid(t), tid(t + 1)],
        MeldType::Kanchan => seq![tid(t), tid(t + 2)],
        MeldType::SingleTile => seq![tid(t)],
    }
}

/// How many copies of tile `i` a group of kind `k` with lowest tile `t` holds.
pub open spec fn shape_count(k: MeldType, t: int, i: int) -> int {
    match k {
        MeldType::Triplet => if i == t {
            3int
        } else {
            0int
        },
        MeldType::Quadruplet => if i == t {
            4int
        } else {
            0int
        },
        MeldType::Sequence => if t <= i <= t + 2 {
            1int
        } else {
            0int
        },
        MeldType::Pair => if i == t {
            2int
        } else {
            0int
        },
        MeldType::Ryanmen => if t <= i <= t + 1 {
            1int
        } else {
            0int
        },
        MeldType::Penchan => if t <= i <= t + 1 {
            1int
        } else {
            0int
        },
        MeldType::Kanchan => if i == t || i == t + 2 {
            1int
        } else {
            0int
        },
        MeldType::SingleTile => if i == t {
            1int
        } else {
            0int
        },
    }
}

/// The counts left after taking out a group of kind `k` with lowest tile `t` (no count goes
/// below zero).
pub open spec fn remove_shape(c: Seq<u8>, k: MeldType, t: int) -> Seq<u8> {
    Seq::new(
        c.len(),
        |i: int|
            if c[i] >= shape_count(k, t, i) {
                (c[i] - shape_count(k, t, i)) as u8
            } else {
                0u8
            },
    )
}

pub proof fn lemma_remove_shape_decreases(c: Seq<u8>, k: MeldType, t: int)
    requires
        0 <= t < c.len(),
        c[t] >= 1,
    ensures
        count_sum(remove_shape(c, k, t)) < count_sum(c),
{
    let r = remove_shape(c, k, t);
    assert forall|i: int| 0 <= i < r.len() implies #[trigger] r[i] <= c[i] by {}
    lemma_count_sum_pointwise(r, c, t);
}

/// The lowest numbered tile with a nonzero count (27 when there is none).
pub open spec fn suit_first(c: Seq<u8>) -> int {
    first_nonzero(c.take(27))
}

/// The groups that can start at the lowest numbered tile `t` of the counts, in the order in
/// which they are explored: a single tile, a kanchan (only when no sequence holds `t`), a
/// penchan, a ryanmen, a sequence, a pair and a triplet.
pub open spec fn suit_choices(c: Seq<u8>, t: int) -> Seq<MeldType> {
    let seqs = spec_can_make_sequence(c, t);
    seq![MeldType::SingleTile] + (if spec_can_make_kanchan(c, t) && !seqs {
        seq![MeldType::Kanchan]
    } else {
        seq![]
    }) + (if spec_can_make_penchan(c, t) {
        seq![MeldType::Penchan]
    } else {
        seq![]
    }) + (if spec_can_make_ryanmen(c, t) {
        seq![MeldType::Ryanmen]
    } else {
        seq![]
    }) + (if seqs {
        seq![MeldType::Sequence]
    } else {
        seq![]
    }) + (if c[t] >= 2 {
        seq![MeldType::Pair]
    } else {
        seq![]
    }) + (if c[t] >= 3 {
        seq![MeldType::Triplet]
    } else {
        seq![]
    })
}

/// Puts `g` in front of each group list.
pub open spec fn prepend_all(g: (MeldType, int), ss: Seq<Seq<(MeldType, int)>>) -> Seq<
    Seq<(MeldType, int)>,
> {
    ss.map_values(|s: Seq<(MeldType, int)>| seq![g] + s)
}

/// Every way of splitting the numbered tiles of the counts into groups, each group starting at
/// the lowest tile still left: a depth-first enumeration in which the choices at a tile are
/// explored in the order of `suit_choices`.
pub open spec fn suit_interpretations(c: Seq<u8>) -> Seq<Seq<(MeldType, int)>>
    decreases count_sum(c), 1int, 0int,
{
    let t = suit_first(c);
    if c.len() != 34 || t >= 27 {
        seq![seq![]]
    } else {
        suit_interpretations_via(c, t, suit_choices(c, t))
    }
}

/// The interpretations that start with a group of each kind of `ks` at tile `t`, in turn.
pub open spec fn suit_interpretations_via(c: Seq<u8>, t: int, ks: Seq<MeldType>) -> Seq<
    Seq<(MeldType, int)>,
>
    decreases count_sum(c), 0int, ks.len(),
{
    if ks.len() == 0 || !(0 <= t < c.len() && c[t] >= 1) {
        seq![]
    } else {
        proof {
            lemma_remove_shape_decreases(c, ks[0], t);
            lemma_count_sum_nonneg(remove_shape(c, ks[0], t));
        }
        prepend_all((ks[0], t), suit_interpretations(remove_shape(c, ks[0], t)))
            + suit_interpretations_via(c, t, ks.drop_first())
    }
}

/// The meld is a well-formed group of the kind of the group model `g`, with its tiles.
pub open spec fn meld_matches(m: TileMeld, g: (MeldType, int)) -> bool {
    &&& m.meld_type == g.0
    &&& m.tile_ids@ == shape_ids(g.0, g.1)
    &&& tile_meld_wf(m)
}

/// The melds hold the group models, one for one.
pub open spec fn melds_match(ms: Seq<TileMeld>, gs: Seq<(MeldType, int)>) -> bool {
    ms.len() == gs.len() && forall|i: int| 0 <= i < ms.len() ==> #[trigger] meld_matches(ms[i], gs[i])
}

/// Each meld list holds the corresponding list of group models.
pub open spec fn meld_lists_match(vs: Seq<Vec<TileMeld>>, gss: Seq<Seq<(MeldType, int)>>) -> bool {
    vs.len() == gss.len() && forall|i: int|
        0 <= i < vs.len() ==> #[trigger] melds_match(vs[i]@, gss[i])
}

/// A group of kind `k` starting at `t` is among the choices at the lowest numbered tile: its
/// tiles are all present, and its ids are ascending ids of that kind.
pub proof fn lemma_choice_valid(c: Seq<u8>, k: MeldType)
    requires
        c.len() == 34,
        suit_first(c) < 27,
        suit_choices(c, suit_first(c)).contains(k),
    ensures
        ({
            let t = suit_first(c);
            &&& forall|i: int| 0 <= i < 34 ==> #[trigger] c[i] >= shape_count(k, t, i)
            &&& classify_sorted(shape_ids(k, t)) == Some(k)
            &&& ids_sorted(shape_ids(k, t))
            &&& t + 2 < 34
            &&& c[t] >= 1
        }),
{
    let t = suit_first(c);
    lemma_first_nonzero(c.take(27));
    assert(forall|j: int| 0 <= j < t ==> c[j] == 0) by {
        assert forall|j: int| 0 <= j < t implies c[j] == 0 by {
            assert(c.take(27)[j] == c[j]);
        }
    }
    assert(c[t] == c.take(27)[t]);
    let ks = suit_choices(c, t);
    let j = choose|j: int| 0 <= j < ks.len() && ks[j] == k;
    assert(shape_ids(k, t)[0] == tid(t));
}

/// Puts the groups `pgs` in front of each group list.
pub open spec fn prefix_with(pgs: Seq<(MeldType, int)>, ss: Seq<Seq<(MeldType, int)>>) -> Seq<
    Seq<(MeldType, int)>,
> {
    ss.map_values(|s: Seq<(MeldType, int)>| pgs + s)
}

pub proof fn lemma_meld_lists_append(
    a: Seq<Vec<TileMeld>>,
    b: Seq<Vec<TileMeld>>,
    x: Seq<Seq<(MeldType, int)>>,
    y: Seq<Seq<(MeldType, int)>>,
)
    requires
        meld_lists_match(a, x),
        meld_lists_match(b, y),
    ensures
        meld_lists_match(a + b, x + y),
{
    assert forall|i: int| 0 <= i < (a + b).len() implies #[trigger] melds_match((a + b)[i]@, (x
        + y)[i]) by {
        if i >= a.len() {
            assert(melds_match(b[i - a.len()]@, y[i - a.len()]));
        } else {
            assert(melds_match(a[i]@, x[i]));
        }
    }
}

/// The lowest numbered tile with a nonzero count (27 when there is none).
fn find_first_suit_tile(tile_count_array: &[u8; 34]) -> (t: u8)
    ensures
        t == suit_first(tile_count_array@),
        t <= 27,
{
    let ghost c = tile_count_array@.take(27);
    proof {
        lemma_first_nonzero(c);
    }
    let mut tile_id: u8 = 0;
    while tile_id < FIRST_HONOR_ID && tile_count_array[tile_id as usize] == 0
        invariant
            c == tile_count_array@.take(27),
            tile_id <= 27,
            forall|j: int| 0 <= j < tile_id ==> c[j] == 0,
            tile_id <= first_nonzero(c) <= 27,
            first_nonzero(c) < 27 ==> c[first_nonzero(c)] != 0,
        decreases 27 - tile_id,
    {
        assert(c[tile_id as int] == tile_count_array@[tile_id as int]);
        tile_id += 1;
    }
    if tile_id < 27 {
        assert(c[tile_id as int] == tile_count_array@[tile_id as int]);
    }
    tile_id
}

/// The meld of kind `k` whose lowest tile is `t`.
fn shape_meld(k: MeldType, t: u8) -> (m: TileMeld)
    requires
        t < 34,
        classify_sorted(shape_ids(k, t as int)) == Some(k),
        ids_sorted(shape_ids(k, t as int)),
    ensures
        meld_matches(m, (k, t as int)),
        tile_meld_wf(m),
{
    let mut ids: Vec<MahjongTileId> = Vec::new();
    match k {
        MeldType::Triplet => {
            ids.push(MahjongTileId(t));
            ids.push(MahjongTileId(t));
            ids.push(MahjongTileId(t));
        },
        MeldType::Quadruplet => {
            ids.push(MahjongTileId(t));
            ids.push(MahjongTileId(t));
            ids.push(MahjongTileId(t));
            ids.push(MahjongTileId(t));
        },
        MeldType::Sequence => {
            ids.push(MahjongTileId(t));
            ids.push(MahjongTileId(t + 1));
            ids.push(MahjongTileId(t + 2));
        },
        MeldType::Pair => {
            ids.push(MahjongTileId(t));
            ids.push(MahjongTileId(t));
        },
        MeldType::Ryanmen | MeldType::Penchan => {
            ids.push(MahjongTileId(t));
            ids.push(MahjongTileId(t + 1));
        },
        MeldType::Kanchan => {
            ids.push(MahjongTileId(t));
            ids.push(MahjongTileId(t + 2));
        },
        MeldType::SingleTile => {
            ids.push(MahjongTileId(t));
        },
    }
    assert(ids@ =~= shape_ids(k, t as int));
    proof {
        lemma_sort_sorted(ids@);
    }
    TileMeld::new(ids)
}

/// The counts left after taking out the group of kind `k` whose lowest tile is `t`.
fn remove_shape_exec(tile_count_array: &[u8; 34], k: MeldType, t: u8) -> (r: [u8; 34])
    requires
        t + 2 < 34,
        forall|i: int| 0 <= i < 34 ==> #[trigger] tile_count_array@[i] >= shape_count(k, t as int, i),
    ensures
        r@ == remove_shape(tile_count_array@, k, t as int),
{
    let mut r = *tile_count_array;
    let i = t as usize;
    assert(r@[i as int] >= shape_count(k, t as int, i as int));
    assert(r@[i + 1] >= shape_count(k, t as int, i + 1));
    assert(r@[i + 2] >= shape_count(k, t as int, i + 2));
    match k {
        MeldType::Triplet => {
            r[i] = r[i] - 3;
        },
        MeldType::Quadruplet => {
            r[i] = r[i] - 4;
        },
        MeldType::Sequence => {
            r[i] = r[i] - 1;
            r[i + 1] = r[i + 1] - 1;
            r[i + 2] = r[i + 2] - 1;
        },
        MeldType::Pair => {
            r[i] = r[i] - 2;
        },
        MeldType::Ryanmen | MeldType::Penchan => {
            r[i] = r[i] - 1;
            r[i + 1] = r[i + 1] - 1;
        },
        MeldType::Kanchan => {
            r[i] = r[i] - 1;
            r[i + 2] = r[i + 2] - 1;
        },
        MeldType::SingleTile => {
            r[i] = r[i] - 1;
        },
    }
    assert(r@ =~= remove_shape(tile_count_array@, k, t as int));
    r
}

/// The kinds of group that can start at the lowest numbered tile `t`, in exploring order.
fn suit_choice_list(tile_count_array: &[u8; 34], t: u8) -> (r: Vec<MeldType>)
    requires
        t < 27,
    ensures
        r@ == suit_choices(tile_count_array@, t as int),
{
    let c = tile_count_array;
    let seqs = can_make_sequence(c, t);
    let mut r: Vec<MeldType> = Vec::new();
    r.push(MeldType::SingleTile);
    if can_make_kanchan(c, t) && !seqs {
        r.push(MeldType::Kanchan);
    }
    if can_make_penchan(c, t) {
        r.push(MeldType::Penchan);
    }
    if can_make_ryanmen(c, t) {
        r.push(MeldType::Ryanmen);
    }
    if seqs {
        r.push(MeldType::Sequence);
    }
    if c[t as usize] >= 2 {
        r.push(MeldType::Pair);
    }
    if c[t as usize] >= 3 {
        r.push(MeldType::Triplet);
    }
    assert(r@ =~= suit_choices(tile_count_array@, t as int));
    r
}

/// A copy of a list of melds.
fn copy_melds(melds: &Vec<TileMeld>) -> (r: Vec<TileMeld>)
    ensures
        r@.len() == melds@.len(),
        forall|i: int|
            0 <= i < melds@.len() ==> (#[trigger] r@[i]).meld_type == melds@[i].meld_type
                && r@[i].tile_ids@ == melds@[i].tile_ids@,
{
    let mut r: Vec<TileMeld> = Vec::new();
    let mut i: usize = 0;
    while i < melds.len()
        invariant
            i <= melds.len(),
            r@.len() == i,
            forall|j: int|
                0 <= j < i ==> (#[trigger] r@[j]).meld_type == melds@[j].meld_type
                    && r@[j].tile_ids@ == melds@[j].tile_ids@,
        decreases melds.len() - i,
    {
        r.push(melds[i].duplicate());
        i += 1;
    }
    r
}

/// Every interpretation of the numbered tiles of the counts, each put after a copy of `prefix`.
fn suit_melds_rec(
    tile_count_array: [u8; 34],
    prefix: &Vec<TileMeld>,
    Ghost(pgs): Ghost<Seq<(MeldType, int)>>,
) -> (r: Vec<Vec<TileMeld>>)
    requires
        melds_match(prefix@, pgs),
    ensures
        meld_lists_match(r@, prefix_with(pgs, suit_interpretations(tile_count_array@))),
    decreases count_sum(tile_count_array@),
{
    let ghost c = tile_count_array@;
    let t = find_first_suit_tile(&tile_count_array);
    if t == 27 {
        let mut r: Vec<Vec<TileMeld>> = Vec::new();
        let copy = copy_melds(prefix);
        r.push(copy);
        proof {
            assert(pgs + seq![] =~= pgs);
            assert forall|i: int| 0 <= i < copy@.len() implies #[trigger] meld_matches(
                copy@[i],
                pgs[i],
            ) by {
                assert(meld_matches(prefix@[i], pgs[i]));
            }
            assert(melds_match(copy@, pgs));
            assert(prefix_with(pgs, suit_interpretations(c)) =~= seq![pgs]);
            assert(r@[0] == copy);
        }
        return r;
    }
    let choices = suit_choice_list(&tile_count_array, t);
    let ghost ks = choices@;
    let mut r: Vec<Vec<TileMeld>> = Vec::new();
    let ghost mut done: Seq<Seq<(MeldType, int)>> = seq![];
    let mut j: usize = 0;
    proof {
        assert(ks.skip(0) =~= ks);
        assert(done + suit_interpretations_via(c, t as int, ks.skip(0)) =~= suit_interpretations_via(c, t as int, ks));
    }
    while j < choices.len()
        invariant
            c == tile_count_array@,
            c.len() == 34,
            ks == choices@,
            ks == suit_choices(c, t as int),
            t == suit_first(c),
            t < 27,
            melds_match(prefix@, pgs),
            j <= ks.len(),
            meld_lists_match(r@, prefix_with(pgs, done)),
            suit_interpretations_via(c, t as int, ks) == done + suit_interpretations_via(
                c,
                t as int,
                ks.skip(j as int),
            ),
        decreases ks.len() - j,
    {
        let k = choices[j];
        let ghost g = (k, t as int);
        proof {
            assert(ks[j as int] == k);
            lemma_choice_valid(c, k);
        }
        let child_counts = remove_shape_exec(&tile_count_array, k, t);
        let meld = shape_meld(k, t);
        let mut new_prefix = copy_melds(prefix);
        new_prefix.push(meld);
        proof {
            assert forall|i: int| 0 <= i < new_prefix@.len() implies #[trigger] meld_matches(
                new_prefix@[i],
                pgs.push(g)[i],
            ) by {
                if i < pgs.len() {
                    assert(meld_matches(prefix@[i], pgs[i]));
                }
            }
            lemma_remove_shape_decreases(c, k, t as int);
            lemma_count_sum_nonneg(child_counts@);
        }
        let mut child = suit_melds_rec(child_counts, &new_prefix, Ghost(pgs.push(g)));
        let ghost block = prepend_all(g, suit_interpretations(child_counts@));
        proof {
            let s = suit_interpretations(child_counts@);
            assert(prefix_with(pgs.push(g), s) =~= prefix_with(pgs, block)) by {
                assert forall|i: int| 0 <= i < s.len() implies (pgs.push(g) + s[i]) =~= (pgs + (
                seq![g] + s[i])) by {}
            }
            lemma_meld_lists_append(r@, child@, prefix_with(pgs, done), prefix_with(pgs, block));
            assert(prefix_with(pgs, done) + prefix_with(pgs, block) =~= prefix_with(
                pgs,
                done + block,
            ));
            let rest = ks.skip(j as int);
            assert(rest[0] == k);
            assert(rest.drop_first() =~= ks.skip(j + 1));
            assert(suit_interpretations_via(c, t as int, rest) == block + suit_interpretations_via(
                c,
                t as int,
                ks.skip(j + 1),
            ));
            assert(done + (block + suit_interpretations_via(c, t as int, ks.skip(j + 1))) =~= (done
                + block) + suit_interpretations_via(c, t as int, ks.skip(j + 1)));
        }
        r.append(&mut child);
        proof {
            done = done + block;
        }
        j += 1;
    }
    proof {
        assert(ks.skip(j as int) =~= Seq::<MeldType>::empty());
        assert(done + seq![] =~= done);
    }
    r
}

/// Every way of splitting the numbered tiles of the counts into groups (see
/// `suit_interpretations`); honor tiles are left alone.
pub fn get_suit_melds(suit_tile_count_array: [u8; 34]) -> (r: Vec<Vec<TileMeld>>)
    ensures
        meld_lists_match(r@, suit_interpretations(suit_tile_count_array@)),
{
    let empty: Vec<TileMeld> = Vec::new();
    let r = suit_melds_rec(suit_tile_count_array, &empty, Ghost(Seq::empty()));
    proof {
        let s = suit_interpretations(suit_tile_count_array@);
        assert forall|i: int| 0 <= i < s.len() implies (Seq::<(MeldType, int)>::empty() + s[i])
            =~= s[i] by {}
        assert(prefix_with(seq![], s) =~= s);
    }
    r
}

/// How many tiles a group of kind `k` holds.
pub open spec fn shape_size(k: MeldType) -> int {
    match k {
        MeldType::Triplet => 3,
        MeldType::Quadruplet => 4,
        MeldType::Sequence => 3,
        MeldType::Pair => 2,
        MeldType::Ryanmen => 2,
        MeldType::Penchan => 2,
        MeldType::Kanchan => 2,
        MeldType::SingleTile => 1,
    }
}

/// How many tiles the group models hold in all.
pub open spec fn g_size(gs: Seq<(MeldType, int)>) -> int
    decreases gs.len(),
{
    if gs.len() == 0 {
        0
    } else {
        g_size(gs.drop_last()) + shape_size(gs.last().0)
    }
}

pub proof fn lemma_g_size_prepend(g: (MeldType, int), s: Seq<(MeldType, int)>)
    ensures
        g_size(seq![g] + s) == shape_size(g.0) + g_size(s),
    decreases s.len(),
{
    if s.len() > 0 {
        lemma_g_size_prepend(g, s.drop_last());
        assert((seq![g] + s).drop_last() =~= seq![g] + s.drop_last());
        assert((seq![g] + s).last() == s.last());
    } else {
        assert(seq![g] + s =~= seq![g]);
        assert(seq![g].drop_last() =~= Seq::<(MeldType, int)>::empty());
        assert(g_size(Seq::<(MeldType, int)>::empty()) == 0);
        assert(g_size(seq![g]) == g_size(seq![g].drop_last()) + shape_size(g.0));
    }
}

/// Taking a group out lowers the tile total by the group's size.
pub proof fn lemma_count_sum_remove_shape(c: Seq<u8>, k: MeldType, t: int)
    requires
        c.len() == 34,
        0 <= t,
        t + 2 < 34,
        forall|i: int| 0 <= i < 34 ==> #[trigger] c[i] >= shape_count(k, t, i),
    ensures
        count_sum(remove_shape(c, k, t)) == count_sum(c) - shape_size(k),
{
    assert(c[t] >= shape_count(k, t, t));
    assert(c[t + 1] >= shape_count(k, t, t + 1));
    assert(c[t + 2] >= shape_count(k, t, t + 2));
    let a = (c[t] - shape_count(k, t, t)) as u8;
    let c1 = c.update(t, a);
    let b = (c[t + 1] - shape_count(k, t, t + 1)) as u8;
    let c2 = c1.update(t + 1, b);
    let d = (c[t + 2] - shape_count(k, t, t + 2)) as u8;
    let c3 = c2.update(t + 2, d);
    lemma_count_sum_update(c, t, a);
    lemma_count_sum_update(c1, t + 1, b);
    lemma_count_sum_update(c2, t + 2, d);
    assert(c3 =~= remove_shape(c, k, t));
}

/// No honor tile is counted.
pub open spec fn honors_zero(c: Seq<u8>) -> bool {
    forall|h: int| 27 <= h < 34 ==> #[trigger] c[h] == 0
}

/// Every interpretation of counts without honors holds all the tiles, in groups whose lowest
/// tile is a numbered tile.
pub proof fn lemma_suit_interpretations_size(c: Seq<u8>)
    requires
        c.len() == 34,
        honors_zero(c),
    ensures
        forall|i: int|
            0 <= i < suit_interpretations(c).len() ==> g_size(#[trigger] suit_interpretations(
                c,
            )[i]) == count_sum(c),
        forall|i: int, j: int|
            0 <= i < suit_interpretations(c).len() && 0 <= j < suit_interpretations(c)[i].len()
                ==> 0 <= #[trigger] suit_interpretations(c)[i][j].1 < 27,
    decreases count_sum(c), 1int, 0int,
{
    let t = suit_first(c);
    if t >= 27 {
        lemma_first_nonzero(c.take(27));
        assert forall|i: int| 0 <= i < 34 implies c[i] == 0 by {
            if i < 27 {
                assert(c.take(27)[i] == c[i]);
            }
        }
        lemma_count_sum_zeros(c);
        assert(suit_interpretations(c) == seq![Seq::<(MeldType, int)>::empty()]);
        assert(g_size(Seq::<(MeldType, int)>::empty()) == 0);
    } else {
        lemma_suit_via_size(c, t, suit_choices(c, t));
        assert(suit_interpretations(c) == suit_interpretations_via(c, t, suit_choices(c, t)));
    }
}

pub proof fn lemma_suit_via_size(c: Seq<u8>, t: int, ks: Seq<MeldType>)
    requires
        c.len() == 34,
        honors_zero(c),
        t == suit_first(c),
        t < 27,
        forall|j: int| 0 <= j < ks.len() ==> suit_choices(c, t).contains(#[trigger] ks[j]),
    ensures
        forall|i: int|
            0 <= i < suit_interpretations_via(c, t, ks).len() ==> g_size(
                #[trigger] suit_interpretations_via(c, t, ks)[i],
            ) == count_sum(c),
        forall|i: int, j: int|
            0 <= i < suit_interpretations_via(c, t, ks).len() && 0 <= j
                < suit_interpretations_via(c, t, ks)[i].len() ==> 0
                <= #[trigger] suit_interpretations_via(c, t, ks)[i][j].1 < 27,
    decreases count_sum(c), 0int, ks.len(),
{
    if ks.len() > 0 {
        let k = ks[0];
        lemma_first_nonzero(c.take(27));
        assert(suit_choices(c, t).contains(ks[0]));
        lemma_choice_valid(c, k);
        let c2 = remove_shape(c, k, t);
        lemma_remove_shape_decreases(c, k, t);
        lemma_count_sum_nonneg(c2);
        lemma_count_sum_remove_shape(c, k, t);
        assert(honors_zero(c2));
        lemma_suit_interpretations_size(c2);
        assert forall|j: int| 0 <= j < ks.drop_first().len() implies suit_choices(c, t).contains(
            #[trigger] ks.drop_first()[j],
        ) by {
            assert(ks.drop_first()[j] == ks[j + 1]);
        }
        lemma_suit_via_size(c, t, ks.drop_first());
        let head = prepend_all((k, t), suit_interpretations(c2));
        let tail = suit_interpretations_via(c, t, ks.drop_first());
        assert(suit_interpretations_via(c, t, ks) == head + tail);
        assert forall|i: int| 0 <= i < head.len() implies g_size(#[trigger] head[i]) == count_sum(
            c,
        ) by {
            lemma_g_size_prepend((k, t), suit_interpretations(c2)[i]);
        }
        assert forall|i: int, j: int| 0 <= i < head.len() && 0 <= j < head[i].len() implies 0
            <= #[trigger] head[i][j].1 < 27 by {
            if j > 0 {
                assert(head[i][j] == suit_interpretations(c2)[i][j - 1]);
            }
        }
        assert forall|i: int| 0 <= i < (head + tail).len() implies g_size(#[trigger] (head
            + tail)[i]) == count_sum(c) by {
            if i >= head.len() {
                assert((head + tail)[i] == tail[i - head.len()]);
            }
        }
        assert forall|i: int, j: int| 0 <= i < (head + tail).len() && 0 <= j < (head
            + tail)[i].len() implies 0 <= #[trigger] (head + tail)[i][j].1 < 27 by {
            if i >= head.len() {
                assert((head + tail)[i] == tail[i - head.len()]);
            } else {
                assert((head + tail)[i] == head[i]);
            }
        }
    }
}

/// How many copies of tile `i` the groups hold together.
pub open spec fn shapes_total(gs: Seq<(MeldType, int)>, i: int) -> int
    decreases gs.len(),
{
    if gs.len() == 0 {
        0
    } else {
        shape_count(gs[0].0, gs[0].1, i) + shapes_total(gs.drop_first(), i)
    }
}

/// The numbered tiles of the counts, each copy a single tile, from the lowest tile up.
pub open spec fn all_singles(c: Seq<u8>) -> Seq<(MeldType, int)>
    decreases count_sum(c),
{
    let t = suit_first(c);
    if c.len() != 34 || t >= 27 {
        seq![]
    } else {
        proof {
            lemma_first_nonzero(c.take(27));
            assert(c.take(27)[t] == c[t]);
            lemma_remove_shape_decreases(c, MeldType::SingleTile, t);
            lemma_count_sum_nonneg(remove_shape(c, MeldType::SingleTile, t));
        }
        seq![(MeldType::SingleTile, t)] + all_singles(remove_shape(c, MeldType::SingleTile, t))
    }
}

/// The groups of every split of the numbered tiles hold exactly those tiles.
proof fn lemma_suit_interpretations_total(c: Seq<u8>)
    requires
        c.len() == 34,
    ensures
        forall|x: int, i: int|
            0 <= x < suit_interpretations(c).len() && 0 <= i < 34 ==> #[trigger] shapes_total(
                suit_interpretations(c)[x],
                i,
            ) == if i < 27 {
                c[i] as int
            } else {
                0int
            },
    decreases count_sum(c), 1int, 0int,
{
    let t = suit_first(c);
    if t >= 27 {
        lemma_first_nonzero(c.take(27));
        assert forall|i: int| 0 <= i < 27 implies c[i] == 0 by {
            assert(c.take(27)[i] == c[i]);
        }
        assert(suit_interpretations(c) == seq![Seq::<(MeldType, int)>::empty()]);
    } else {
        lemma_suit_via_total(c, t, suit_choices(c, t));
        assert(suit_interpretations(c) == suit_interpretations_via(c, t, suit_choices(c, t)));
    }
}

proof fn lemma_suit_via_total(c: Seq<u8>, t: int, ks: Seq<MeldType>)
    requires
        c.len() == 34,
        t == suit_first(c),
        t < 27,
        forall|j: int| 0 <= j < ks.len() ==> suit_choices(c, t).contains(#[trigger] ks[j]),
    ensures
        forall|x: int, i: int|
            0 <= x < suit_interpretations_via(c, t, ks).len() && 0 <= i < 34 ==> #[trigger] shapes_total(
                suit_interpretations_via(c, t, ks)[x],
                i,
            ) == if i < 27 {
                c[i] as int
            } else {
                0int
            },
    decreases count_sum(c), 0int, ks.len(),
{
    if ks.len() > 0 {
        let k = ks[0];
        lemma_first_nonzero(c.take(27));
        assert(suit_choices(c, t).contains(ks[0]));
        lemma_choice_valid(c, k);
        let c2 = remove_shape(c, k, t);
        lemma_remove_shape_decreases(c, k, t);
        lemma_count_sum_nonneg(c2);
        lemma_suit_interpretations_total(c2);
        assert forall|j: int| 0 <= j < ks.drop_first().len() implies suit_choices(c, t).contains(
            #[trigger] ks.drop_first()[j],
        ) by {
            assert(ks.drop_first()[j] == ks[j + 1]);
        }
        lemma_suit_via_total(c, t, ks.drop_first());
        let head = prepend_all((k, t), suit_interpretations(c2));
        let tail = suit_interpretations_via(c, t, ks.drop_first());
        assert(suit_interpretations_via(c, t, ks) == head + tail);
        assert forall|x: int, i: int| 0 <= x < (head + tail).len() && 0 <= i < 34 implies #[trigger] shapes_total(
            (head + tail)[x],
            i,
        ) == if i < 27 {
            c[i] as int
        } else {
            0int
        } by {
            if x >= head.len() {
                assert((head + tail)[x] == tail[x - head.len()]);
            } else {
                let y = suit_interpretations(c2)[x];
                assert((head + tail)[x] == seq![(k, t)] + y);
                assert((seq![(k, t)] + y).drop_first() =~= y);
                assert(shapes_total(y, i) == if i < 27 {
                    c2[i] as int
                } else {
                    0int
                });
                assert(c[i] >= shape_count(k, t, i));
                if i >= 27 {
                    assert(shape_count(k, t, i) == 0);
                }
            }
        }
    }
}

/// The first split of the numbered tiles takes every copy as a single tile.
proof fn lemma_suit_interpretations_first(c: Seq<u8>)
    requires
        c.len() == 34,
    ensures
        suit_interpretations(c).len() > 0,
        suit_interpretations(c)[0] == all_singles(c),
    decreases count_sum(c),
{
    let t = suit_first(c);
    if t < 27 {
        lemma_first_nonzero(c.take(27));
        assert(c.take(27)[t] == c[t]);
        let ks = suit_choices(c, t);
        assert(ks[0] == MeldType::SingleTile);
        let c2 = remove_shape(c, MeldType::SingleTile, t);
        lemma_remove_shape_decreases(c, MeldType::SingleTile, t);
        lemma_count_sum_nonneg(c2);
        lemma_suit_interpretations_first(c2);
        assert(suit_interpretations(c) == suit_interpretations_via(c, t, ks));
        let head = prepend_all((MeldType::SingleTile, t), suit_interpretations(c2));
        assert(suit_interpretations_via(c, t, ks) == head + suit_interpretations_via(
            c,
            t,
            ks.drop_first(),
        ));
        assert(head[0] == seq![(MeldType::SingleTile, t)] + suit_interpretations(c2)[0]);
    }
}

/// Every split of the numbered tiles of a hand (see `get_suit_melds`) holds exactly those
/// tiles, tile by tile, and no honor tile; the first split takes every copy as a single tile.
pub proof fn law_suit_splits_hold_the_tiles(c: Seq<u8>)
    requires
        c.len() == 34,
    ensures
        forall|x: int, i: int|
            0 <= x < suit_interpretations(c).len() && 0 <= i < 34 ==> #[trigger] shapes_total(
                suit_interpretations(c)[x],
                i,
            ) == if i < 27 {
                c[i] as int
            } else {
                0int
            },
        suit_interpretations(c).len() > 0,
        suit_interpretations(c)[0] == all_singles(c),
{
    lemma_suit_interpretations_total(c);
    lemma_suit_interpretations_first(c);
}

/// The group model of each meld: its kind and its lowest tile.
pub open spec fn groups_model(ms: Seq<TileMeld>) -> Seq<(MeldType, int)> {
    ms.map_values(|m: TileMeld| (m.meld_type, m.tile_ids@[0].0 as int))
}

/// Every meld is well formed.
pub open spec fn melds_wf(ms: Seq<TileMeld>) -> bool {
    forall|i: int| 0 <= i < ms.len() ==> tile_meld_wf(#[trigger] ms[i])
}

pub proof fn lemma_melds_match_model(ms: Seq<TileMeld>, gs: Seq<(MeldType, int)>)
    requires
        melds_match(ms, gs),
        forall|j: int| 0 <= j < gs.len() ==> 0 <= #[trigger] gs[j].1 < 34,
    ensures
        groups_model(ms) == gs,
        melds_wf(ms),
{
    assert forall|j: int| 0 <= j < gs.len() implies #[trigger] groups_model(ms)[j] == gs[j] by {
        assert(meld_matches(ms[j], gs[j]));
        assert(ms[j].tile_ids@[0] == tid(gs[j].1));
    }
    assert(groups_model(ms) =~= gs);
    assert forall|j: int| 0 <= j < ms.len() implies tile_meld_wf(#[trigger] ms[j]) by {
        assert(meld_matches(ms[j], gs[j]));
    }
}

/// A group of this kind needs one more tile (a pair or a two-tile wait).
pub open spec fn is_incomplete_kind(k: MeldType) -> bool {
    k is Pair || k is Ryanmen || k is Kanchan || k is Penchan
}

/// How many of the groups are complete.
pub open spec fn g_num_complete(gs: Seq<(MeldType, int)>) -> int
    decreases gs.len(),
{
    if gs.len() == 0 {
        0
    } else {
        g_num_complete(gs.drop_last()) + if spec_is_complete(gs.last().0) {
            1int
        } else {
            0int
        }
    }
}

/// How many of the groups are pairs or two-tile waits.
pub open spec fn g_num_incomplete(gs: Seq<(MeldType, int)>) -> int
    decreases gs.len(),
{
    if gs.len() == 0 {
        0
    } else {
        g_num_incomplete(gs.drop_last()) + if is_incomplete_kind(gs.last().0) {
            1int
        } else {
            0int
        }
    }
}

/// The tile of each pair among the groups, in order.
pub open spec fn g_pair_ids(gs: Seq<(MeldType, int)>) -> Seq<MahjongTileId>
    decreases gs.len(),
{
    if gs.len() == 0 {
        seq![]
    } else if gs.last().0 is Pair {
        g_pair_ids(gs.drop_last()).push(tid(gs.last().1))
    } else {
        g_pair_ids(gs.drop_last())
    }
}

/// The tile of each single tile among the groups, in order.
pub open spec fn g_single_ids(gs: Seq<(MeldType, int)>) -> Seq<MahjongTileId>
    decreases gs.len(),
{
    if gs.len() == 0 {
        seq![]
    } else if gs.last().0 is SingleTile {
        g_single_ids(gs.drop_last()).push(tid(gs.last().1))
    } else {
        g_single_ids(gs.drop_last())
    }
}

/// The standard-shape shanten of `num_complete` complete groups and `num_incomplete`
/// incomplete ones: only up to 4 groups count, and a pair among 5 or more groups counts as the
/// head of the hand.
pub open spec fn shanten_formula(num_complete: int, num_incomplete: int, has_pair: bool) -> int {
    8 - 2 * num_complete - (if num_incomplete <= 4 - num_complete {
        num_incomplete
    } else {
        4 - num_complete
    }) - if has_pair && num_complete + num_incomplete >= 5 {
        1int
    } else {
        0int
    }
}

/// The standard-shape shanten of an interpretation.
pub open spec fn g_standard_shanten(gs: Seq<(MeldType, int)>) -> int {
    shanten_formula(g_num_complete(gs), g_num_incomplete(gs), g_pair_ids(gs).len() > 0)
}

/// The group counts of an interpretation fit the `i8` arithmetic of the shanten formula.
pub open spec fn counts_fit(gs: Seq<(MeldType, int)>) -> bool {
    g_num_complete(gs) <= 63 && g_num_complete(gs) + g_num_incomplete(gs) <= 127
}

pub proof fn lemma_group_counts_bound(gs: Seq<(MeldType, int)>)
    ensures
        0 <= g_num_complete(gs),
        0 <= g_num_incomplete(gs),
        3 * g_num_complete(gs) + 2 * g_num_incomplete(gs) <= g_size(gs),
        g_pair_ids(gs).len() <= g_num_incomplete(gs),
    decreases gs.len(),
{
    if gs.len() > 0 {
        lemma_group_counts_bound(gs.drop_last());
    }
}

pub fn standard_shanten_formula(num_complete_groups: i8, num_incomplete_groups: i8, has_pair: bool)
    -> (r: i8)
    requires
        0 <= num_complete_groups <= 63,
        0 <= num_incomplete_groups,
        num_complete_groups + num_incomplete_groups <= 127,
    ensures
        r == shanten_formula(num_complete_groups as int, num_incomplete_groups as int, has_pair),
{
    let mut shanten = 8i8;
    // first, only count up to 4 groups (either complete or incomplete)
    shanten -= 2 * num_complete_groups;
    let cap = 4 - num_complete_groups;
    shanten -= if num_incomplete_groups <= cap {
        num_incomplete_groups
    } else {
        cap
    };
    // then reduce by 1 if there is a pair and at least 5 groups (one of the pairs can count
    // towards the 5)
    if has_pair && num_complete_groups + num_incomplete_groups >= 5 {
        shanten -= 1;
    }
    shanten
}

pub proof fn lemma_groups_model_push(ms: Seq<TileMeld>, i: int)
    requires
        0 <= i < ms.len(),
    ensures
        groups_model(ms.take(i + 1)) == groups_model(ms.take(i)).push(
            (ms[i].meld_type, ms[i].tile_ids@[0].0 as int),
        ),
        groups_model(ms.take(i + 1)).drop_last() == groups_model(ms.take(i)),
{
    assert(groups_model(ms.take(i + 1)) =~= groups_model(ms.take(i)).push(
        (ms[i].meld_type, ms[i].tile_ids@[0].0 as int),
    ));
}

fn get_num_complete_groups(groups: &Vec<TileMeld>) -> (r: i8)
    requires
        g_num_complete(groups_model(groups@)) <= 127,
    ensures
        r == g_num_complete(groups_model(groups@)),
{
    let mut num_complete_groups: i8 = 0;
    let mut i: usize = 0;
    while i < groups.len()
        invariant
            i <= groups.len(),
            g_num_complete(groups_model(groups@)) <= 127,
            num_complete_groups == g_num_complete(groups_model(groups@.take(i as int))),
        decreases groups.len() - i,
    {
        proof {
            lemma_groups_model_push(groups@, i as int);
            lemma_group_counts_prefix(groups_model(groups@), i + 1);
            assert(groups_model(groups@.take(i + 1)) =~= groups_model(groups@).take(i + 1));
        }
        if groups[i].is_complete() {
            num_complete_groups += 1;
        }
        i += 1;
    }
    assert(groups@.take(i as int) =~= groups@);
    num_complete_groups
}

/// Counts over a prefix are no larger than over the whole.
pub proof fn lemma_group_counts_prefix(gs: Seq<(MeldType, int)>, n: int)
    requires
        0 <= n <= gs.len(),
    ensures
        g_num_complete(gs.take(n)) <= g_num_complete(gs),
        g_num_incomplete(gs.take(n)) <= g_num_incomplete(gs),
    decreases gs.len(),
{
    if n < gs.len() {
        lemma_group_counts_prefix(gs.drop_last(), n);
        assert(gs.drop_last().take(n) =~= gs.take(n));
    } else {
        assert(gs.take(n) =~= gs);
    }
}

fn get_num_incomplete_groups(groups: &Vec<TileMeld>) -> (r: i8)
    requires
        melds_wf(groups@),
        g_num_incomplete(groups_model(groups@)) <= 127,
    ensures
        r == g_num_incomplete(groups_model(groups@)),
{
    let mut num_incomplete_groups: i8 = 0;
    let mut i: usize = 0;
    while i < groups.len()
        invariant
            i <= groups.len(),
            melds_wf(groups@),
            g_num_incomplete(groups_model(groups@)) <= 127,
            num_incomplete_groups == g_num_incomplete(groups_model(groups@.take(i as int))),
        decreases groups.len() - i,
    {
        proof {
            lemma_groups_model_push(groups@, i as int);
            lemma_group_counts_prefix(groups_model(groups@), i + 1);
            assert(groups_model(groups@.take(i + 1)) =~= groups_model(groups@).take(i + 1));
            assert(tile_meld_wf(groups@[i as int]));
        }
        // single tiles need more than one tile to become a complete group, so they are not
        // incomplete groups; pairs are
        if !groups[i].is_complete() && groups[i].tile_ids.len() == 2 {
            num_incomplete_groups += 1;
        }
        i += 1;
    }
    assert(groups@.take(i as int) =~= groups@);
    num_incomplete_groups
}

fn get_pair_tile_ids(groups: &Vec<TileMeld>) -> (r: Vec<MahjongTileId>)
    requires
        melds_wf(groups@),
    ensures
        r@ == g_pair_ids(groups_model(groups@)),
{
    let mut pair_tile_ids: Vec<MahjongTileId> = Vec::new();
    let mut i: usize = 0;
    while i < groups.len()
        invariant
            i <= groups.len(),
            melds_wf(groups@),
            pair_tile_ids@ == g_pair_ids(groups_model(groups@.take(i as int))),
        decreases groups.len() - i,
    {
        proof {
            lemma_groups_model_push(groups@, i as int);
            assert(tile_meld_wf(groups@[i as int]));
        }
        if groups[i].meld_type == MeldType::Pair {
            pair_tile_ids.push(groups[i].tile_ids[0]);
        }
        i += 1;
    }
    assert(groups@.take(i as int) =~= groups@);
    pair_tile_ids
}

fn get_single_tile_ids(groups: &Vec<TileMeld>) -> (r: Vec<MahjongTileId>)
    requires
        melds_wf(groups@),
    ensures
        r@ == g_single_ids(groups_model(groups@)),
{
    let mut single_tile_ids: Vec<MahjongTileId> = Vec::new();
    let mut i: usize = 0;
    while i < groups.len()
        invariant
            i <= groups.len(),
            melds_wf(groups@),
            single_tile_ids@ == g_single_ids(groups_model(groups@.take(i as int))),
        decreases groups.len() - i,
    {
        proof {
            lemma_groups_model_push(groups@, i as int);
            assert(tile_meld_wf(groups@[i as int]));
        }
        if groups[i].meld_type == MeldType::SingleTile {
            single_tile_ids.push(groups[i].tile_ids[0]);
        }
        i += 1;
    }
    assert(groups@.take(i as int) =~= groups@);
    single_tile_ids
}

pub proof fn lemma_count_sum_take(c: Seq<u8>, n: int)
    requires
        0 <= n <= c.len(),
    ensures
        0 <= count_sum(c.take(n)) <= count_sum(c),
    decreases c.len(),
{
    lemma_count_sum_nonneg(c.take(n));
    if n < c.len() {
        lemma_count_sum_take(c.drop_last(), n);
        assert(c.drop_last().take(n) =~= c.take(n));
    } else {
        assert(c.take(n) =~= c);
    }
}

pub proof fn lemma_melds_match_append(
    a: Seq<TileMeld>,
    b: Seq<TileMeld>,
    x: Seq<(MeldType, int)>,
    y: Seq<(MeldType, int)>,
)
    requires
        melds_match(a, x),
        melds_match(b, y),
    ensures
        melds_match(a + b, x + y),
{
    assert forall|i: int| 0 <= i < (a + b).len() implies #[trigger] meld_matches((a + b)[i], (x
        + y)[i]) by {
        if i >= a.len() {
            assert(meld_matches(b[i - a.len()], y[i - a.len()]));
        } else {
            assert(meld_matches(a[i], x[i]));
        }
    }
}

/// One interpretation of a whole hand: the hand's counts and a split of its tiles into groups.
pub struct HandInterpretation {
    pub total_tile_count_array: [u8; 34],
    pub groups: Vec<TileMeld>,
}

impl HandInterpretation {
    /// The group models of the interpretation.
    pub open spec fn model(&self) -> Seq<(MeldType, int)> {
        groups_model(self.groups@)
    }

    /// Every group is a well-formed meld.
    pub open spec fn wf(&self) -> bool {
        melds_wf(self.groups@)
    }

    /// The tile total of the hand.
    pub open spec fn total(&self) -> int {
        count_sum(self.total_tile_count_array@)
    }

    fn get_num_complete_groups(&self) -> (r: i8)
        requires
            g_num_complete(self.model()) <= 127,
        ensures
            r == g_num_complete(self.model()),
    {
        get_num_complete_groups(&self.groups)
    }

    fn get_num_incomplete_groups(&self) -> (r: i8)
        requires
            self.wf(),
            g_num_incomplete(self.model()) <= 127,
        ensures
            r == g_num_incomplete(self.model()),
    {
        get_num_incomplete_groups(&self.groups)
    }

    fn get_pair_tile_ids(&self) -> (r: Vec<MahjongTileId>)
        requires
            self.wf(),
        ensures
            r@ == g_pair_ids(self.model()),
    {
        get_pair_tile_ids(&self.groups)
    }

    fn get_single_tile_ids(&self) -> (r: Vec<MahjongTileId>)
        requires
            self.wf(),
        ensures
            r@ == g_single_ids(self.model()),
    {
        get_single_tile_ids(&self.groups)
    }

    /// The standard-shape shanten of this interpretation, from its complete groups, its
    /// incomplete groups (pairs and two-tile waits) and whether it has a pair.
    pub fn get_standard_shanten(&self) -> (r: i8)
        requires
            self.wf(),
            self.total() == 13 || self.total() == 14,
            counts_fit(self.model()),
        ensures
            r == g_standard_shanten(self.model()),
    {
        proof {
            lemma_group_counts_bound(self.model());
        }
        let num_complete_groups = self.get_num_complete_groups();
        let num_incomplete_groups = self.get_num_incomplete_groups();
        let has_pair = self.get_pair_tile_ids().len() > 0;
        standard_shanten_formula(num_complete_groups, num_incomplete_groups, has_pair)
    }
}

/// The kind of group that all `n` copies (one to four) of an honor tile form.
pub open spec fn honor_kind(n: int) -> MeldType {
    if n == 1 {
        MeldType::SingleTile
    } else if n == 2 {
        MeldType::Pair
    } else if n == 3 {
        MeldType::Triplet
    } else {
        MeldType::Quadruplet
    }
}

/// The groups made of the honor tiles below `h`: each held honor tile forms one group of all
/// its copies.
pub open spec fn honor_groups_upto(c: Seq<u8>, h: int) -> Seq<(MeldType, int)>
    decreases h,
{
    if h <= 27 {
        seq![]
    } else {
        honor_groups_upto(c, h - 1) + if c[h - 1] > 0 {
            seq![(honor_kind(c[h - 1] as int), h - 1)]
        } else {
            seq![]
        }
    }
}

/// The counts with every honor tile taken out.
pub open spec fn zero_honors(c: Seq<u8>) -> Seq<u8> {
    Seq::new(
        34,
        |i: int|
            if i >= 27 {
                0u8
            } else {
                c[i]
            },
    )
}

/// Every interpretation of a hand: the honor groups, then an interpretation of the numbered
/// tiles.
pub open spec fn hand_interpretations(c: Seq<u8>) -> Seq<Seq<(MeldType, int)>> {
    prefix_with(honor_groups_upto(c, 34), suit_interpretations(zero_honors(c)))
}

pub proof fn lemma_honor_groups_range(c: Seq<u8>, h: int)
    ensures
        forall|j: int|
            0 <= j < honor_groups_upto(c, h).len() ==> 27 <= #[trigger] honor_groups_upto(
                c,
                h,
            )[j].1 < h,
        g_size(honor_groups_upto(c, h)) >= 0,
        27 <= h <= 34 && honors_at_most_four(c) ==> g_size(honor_groups_upto(c, h)) <= 4 * (h
            - 27),
    decreases h,
{
    if h > 27 {
        lemma_honor_groups_range(c, h - 1);
        let a = honor_groups_upto(c, h - 1);
        let b = if c[h - 1] > 0 {
            seq![(honor_kind(c[h - 1] as int), h - 1)]
        } else {
            seq![]
        };
        assert forall|j: int| 0 <= j < (a + b).len() implies 27 <= #[trigger] (a + b)[j].1 < h by {
            if j >= a.len() {
                assert((a + b)[j] == b[j - a.len()]);
            }
        }
        lemma_g_size_nonneg(a + b);
        lemma_g_size_append(a, b);
        if 28 <= h <= 34 && honors_at_most_four(c) && c[h - 1] > 0 {
            assert(c[h - 1] <= 4);
            assert(g_size(b) == g_size(b.drop_last()) + shape_size(b.last().0));
            assert(b.drop_last() =~= Seq::<(MeldType, int)>::empty());
        }
    }
}

pub proof fn lemma_g_size_nonneg(gs: Seq<(MeldType, int)>)
    ensures
        g_size(gs) >= 0,
    decreases gs.len(),
{
    if gs.len() > 0 {
        lemma_g_size_nonneg(gs.drop_last());
    }
}

/// Every interpretation of a hand (see `hand_interpretations`): the copies of each honor tile
/// form one group, and the numbered tiles are split in every way `get_suit_melds` finds.
pub fn get_hand_interpretations(tile_count_array: [u8; 34]) -> (r: Vec<HandInterpretation>)
    requires
        honors_at_most_four(tile_count_array@),
    ensures
        r@.len() == hand_interpretations(tile_count_array@).len(),
        forall|i: int|
            0 <= i < r@.len() ==> (#[trigger] r@[i]).total_tile_count_array == tile_count_array
                && melds_match(r@[i].groups@, hand_interpretations(tile_count_array@)[i]),
{
    let ghost c = tile_count_array@;
    let mut honor_tile_melds: Vec<TileMeld> = Vec::new();
    // start with the honor tiles: all copies of each honor tile must build one group
    let mut updated_tile_count_array = tile_count_array;
    let mut tile_id: u8 = FIRST_HONOR_ID;
    while tile_id < 34
        invariant
            27 <= tile_id <= 34,
            c == tile_count_array@,
            honors_at_most_four(c),
            melds_match(honor_tile_melds@, honor_groups_upto(c, tile_id as int)),
            updated_tile_count_array@ == Seq::new(
                34,
                |i: int|
                    if 27 <= i < tile_id {
                        0u8
                    } else {
                        c[i]
                    },
            ),
        decreases 34 - tile_id,
    {
        let tile_idx = tile_id as usize;
        let honor_tile_count = tile_count_array[tile_idx];
        let ghost before = honor_tile_melds@;
        if honor_tile_count > 0 {
            let kind = if honor_tile_count == 1 {
                MeldType::SingleTile
            } else if honor_tile_count == 2 {
                MeldType::Pair
            } else if honor_tile_count == 3 {
                MeldType::Triplet
            } else {
                MeldType::Quadruplet
            };
            assert(c[tile_idx as int] <= 4);
            assert(kind == honor_kind(c[tile_idx as int] as int));
            let new_meld = shape_meld(kind, tile_id);
            honor_tile_melds.push(new_meld);
            proof {
                lemma_melds_match_append(
                    before,
                    seq![new_meld],
                    honor_groups_upto(c, tile_id as int),
                    seq![(kind, tile_id as int)],
                );
                assert(before + seq![new_meld] =~= honor_tile_melds@);
            }
        } else {
            assert(honor_groups_upto(c, tile_id + 1) =~= honor_groups_upto(c, tile_id as int));
        }
        updated_tile_count_array[tile_idx] = 0;
        tile_id += 1;
    }
    assert(updated_tile_count_array@ =~= zero_honors(c));
    let ghost hg = honor_groups_upto(c, 34);
    let meld_interpretations = get_suit_melds(updated_tile_count_array);
    let ghost si = suit_interpretations(zero_honors(c));
    let mut hand_interpretations: Vec<HandInterpretation> = Vec::new();
    let mut i: usize = 0;
    while i < meld_interpretations.len()
        invariant
            i <= meld_interpretations.len(),
            c == tile_count_array@,
            hg == honor_groups_upto(c, 34),
            si == suit_interpretations(zero_honors(c)),
            melds_match(honor_tile_melds@, hg),
            meld_lists_match(meld_interpretations@, si),
            hand_interpretations@.len() == i,
            forall|j: int|
                0 <= j < i ==> (#[trigger] hand_interpretations@[j]).total_tile_count_array
                    == tile_count_array && melds_match(
                    hand_interpretations@[j].groups@,
                    hg + si[j],
                ),
        decreases meld_interpretations.len() - i,
    {
        let mut all_melds = copy_melds(&honor_tile_melds);
        let mut melds = copy_melds(&meld_interpretations[i]);
        proof {
            assert(melds_match(meld_interpretations@[i as int]@, si[i as int]));
            assert forall|j: int| 0 <= j < all_melds@.len() implies #[trigger] meld_matches(
                all_melds@[j],
                hg[j],
            ) by {
                assert(meld_matches(honor_tile_melds@[j], hg[j]));
            }
            assert forall|j: int| 0 <= j < melds@.len() implies #[trigger] meld_matches(
                melds@[j],
                si[i as int][j],
            ) by {
                assert(meld_matches(meld_interpretations@[i as int]@[j], si[i as int][j]));
            }
            lemma_melds_match_append(all_melds@, melds@, hg, si[i as int]);
        }
        all_melds.append(&mut melds);
        hand_interpretations.push(
            HandInterpretation { total_tile_count_array: tile_count_array, groups: all_melds },
        );
        i += 1;
    }
    hand_interpretations
}

/// `x` alone when `b` holds, else nothing.
pub open spec fn opt_id(b: bool, x: MahjongTileId) -> Seq<MahjongTileId> {
    if b {
        seq![x]
    } else {
        seq![]
    }
}

/// The tiles that turn a single tile `t` into a pair or a two-tile wait: itself, then its
/// neighbours one and two ranks up, then one and two ranks down (within its suit).
pub open spec fn single_completions(t: int) -> Seq<MahjongTileId> {
    if t < 27 {
        let r = id_rank(t);
        seq![tid(t)] + opt_id(r <= 8, tid(t + 1)) + opt_id(r <= 7, tid(t + 2)) + opt_id(
            r >= 2,
            tid(t - 1),
        ) + opt_id(r >= 3, tid(t - 2))
    } else {
        seq![tid(t)]
    }
}

/// The tiles that advance a group of kind `k` with lowest tile `t`: those that complete an
/// incomplete group, or those that join a single tile; none for a complete group.
pub open spec fn shape_completions(k: MeldType, t: int) -> Seq<MahjongTileId> {
    match k {
        MeldType::SingleTile => single_completions(t),
        MeldType::Pair => seq![tid(t)],
        MeldType::Ryanmen => seq![tid(t - 1), tid(t + 2)],
        MeldType::Kanchan => seq![tid(t + 1)],
        MeldType::Penchan => if id_rank(t) == 1 {
            seq![tid(t + 2)]
        } else {
            seq![tid(t - 1)]
        },
        _ => seq![],
    }
}

impl TileMeld {
    /// The tiles that advance this group (see `shape_completions`).
    pub fn tile_ids_to_complete_group(&self) -> (r: Vec<MahjongTileId>)
        requires
            tile_meld_wf(*self),
        ensures
            r@ == shape_completions(self.meld_type, self.tile_ids@[0].0 as int),
    {
        let ghost t = self.tile_ids@[0].0 as int;
        let mut tile_ids: Vec<MahjongTileId> = Vec::new();
        match self.meld_type {
            MeldType::SingleTile => {
                let tile_id = self.tile_ids[0];
                tile_ids.push(tile_id);
                match tile_id.get_num_tile_rank() {
                    Some(tile_rank) => {
                        if tile_rank <= 8 {
                            tile_ids.push(MahjongTileId(tile_id.0 + 1));
                        }
                        if tile_rank <= 7 {
                            tile_ids.push(MahjongTileId(tile_id.0 + 2));
                        }
                        if tile_rank >= 2 {
                            tile_ids.push(MahjongTileId(tile_id.0 - 1));
                        }
                        if tile_rank >= 3 {
                            tile_ids.push(MahjongTileId(tile_id.0 - 2));
                        }
                    },
                    None => {},
                }
                assert(tile_ids@ =~= single_completions(t));
            },
            MeldType::Pair => {
                tile_ids.push(self.tile_ids[0]);
                assert(tile_ids@ =~= seq![tid(t)]);
            },
            MeldType::Ryanmen => {
                let min_tile_id = self.tile_ids[0];
                let max_tile_id = self.tile_ids[1];
                tile_ids.push(MahjongTileId(min_tile_id.0 - 1));
                tile_ids.push(MahjongTileId(max_tile_id.0 + 1));
                assert(tile_ids@ =~= seq![tid(t - 1), tid(t + 2)]);
            },
            MeldType::Kanchan => {
                let min_tile_id = self.tile_ids[0];
                tile_ids.push(MahjongTileId(min_tile_id.0 + 1));
                assert(tile_ids@ =~= seq![tid(t + 1)]);
            },
            MeldType::Penchan => {
                let min_tile_id = self.tile_ids[0];
                let min_tile_rank = get_num_tile_rank(min_tile_id.0).unwrap();
                if min_tile_rank == 1 {
                    tile_ids.push(MahjongTileId(min_tile_id.0 + 2));
                    assert(tile_ids@ =~= seq![tid(t + 2)]);
                } else {
                    tile_ids.push(MahjongTileId(min_tile_id.0 - 1));
                    assert(tile_ids@ =~= seq![tid(t - 1)]);
                }
            },
            _ => {
                assert(tile_ids@ =~= Seq::<MahjongTileId>::empty());
            },
        }
        tile_ids
    }
}

/// `acc` with `x` added at the end unless it is already there.
pub open spec fn add_one(acc: Seq<MahjongTileId>, x: MahjongTileId) -> Seq<MahjongTileId> {
    if acc.contains(x) {
        acc
    } else {
        acc.push(x)
    }
}

/// `acc` with each tile of `xs` not yet in it added at the end, in order.
pub open spec fn add_new(acc: Seq<MahjongTileId>, xs: Seq<MahjongTileId>) -> Seq<MahjongTileId>
    decreases xs.len(),
{
    if xs.len() == 0 {
        acc
    } else {
        add_new(add_one(acc, xs[0]), xs.drop_first())
    }
}

/// Adding only tiles not yet held keeps a list free of repeats.
pub proof fn lemma_add_new_no_duplicates(acc: Seq<MahjongTileId>, xs: Seq<MahjongTileId>)
    requires
        acc.no_duplicates(),
    ensures
        add_new(acc, xs).no_duplicates(),
    decreases xs.len(),
{
    if xs.len() > 0 {
        let a1 = add_one(acc, xs[0]);
        if !acc.contains(xs[0]) {
            assert forall|i: int, j: int| 0 <= i < a1.len() && 0 <= j < a1.len() && i != j implies a1[i]
                != a1[j] by {
                if i < acc.len() && j < acc.len() {
                } else if i < acc.len() {
                    assert(a1[j] == xs[0]);
                    assert(acc[i] == a1[i]);
                } else if j < acc.len() {
                    assert(a1[i] == xs[0]);
                    assert(acc[j] == a1[j]);
                }
            }
        }
        lemma_add_new_no_duplicates(a1, xs.drop_first());
    }
}

/// Whether the list holds the tile id.
pub fn ids_contain(tile_ids: &Vec<MahjongTileId>, x: MahjongTileId) -> (r: bool)
    ensures
        r == tile_ids@.contains(x),
{
    let mut i: usize = 0;
    while i < tile_ids.len()
        invariant
            i <= tile_ids.len(),
            forall|j: int| 0 <= j < i ==> tile_ids@[j] != x,
        decreases tile_ids.len() - i,
    {
        if tile_ids[i] == x {
            return true;
        }
        i += 1;
    }
    false
}

/// Adds each tile id of `xs` that `acc` does not hold yet, in order.
fn add_new_ids(acc: &mut Vec<MahjongTileId>, xs: &Vec<MahjongTileId>)
    ensures
        final(acc)@ == add_new(old(acc)@, xs@),
{
    let mut i: usize = 0;
    proof {
        assert(xs@.skip(0) =~= xs@);
    }
    while i < xs.len()
        invariant
            i <= xs.len(),
            add_new(old(acc)@, xs@) == add_new(acc@, xs@.skip(i as int)),
        decreases xs.len() - i,
    {
        let x = xs[i];
        proof {
            assert(xs@.skip(i as int)[0] == x);
            assert(xs@.skip(i as int).drop_first() =~= xs@.skip(i + 1));
        }
        if !ids_contain(acc, x) {
            acc.push(x);
        }
        i += 1;
    }
    proof {
        assert(xs@.skip(i as int).len() == 0);
    }
}

/// The position of the first `x` in `s` (its length when there is none).
pub open spec fn first_index(s: Seq<MahjongTileId>, x: MahjongTileId) -> int
    decreases s.len(),
{
    if s.len() == 0 {
        0
    } else if s[0] == x {
        0
    } else {
        1 + first_index(s.drop_first(), x)
    }
}

pub proof fn lemma_first_index(s: Seq<MahjongTileId>, x: MahjongTileId)
    ensures
        0 <= first_index(s, x) <= s.len(),
        first_index(s, x) < s.len() <==> s.contains(x),
        first_index(s, x) < s.len() ==> s[first_index(s, x)] == x,
        forall|j: int| 0 <= j < first_index(s, x) ==> s[j] != x,
    decreases s.len(),
{
    if s.len() > 0 && s[0] != x {
        lemma_first_index(s.drop_first(), x);
        assert forall|j: int| 0 <= j < first_index(s, x) implies s[j] != x by {
            if j > 0 {
                assert(s[j] == s.drop_first()[j - 1]);
            }
        }
        if s.contains(x) {
            let j = choose|j: int| 0 <= j < s.len() && s[j] == x;
            assert(s.drop_first()[j - 1] == x);
        }
        if s.drop_first().contains(x) {
            let j = choose|j: int| 0 <= j < s.drop_first().len() && s.drop_first()[j] == x;
            assert(s[j + 1] == x);
        }
    }
}

/// `s` with its first `x` replaced by its last element and the last element dropped (a swap
/// removal); `s` itself when it holds no `x`.
pub open spec fn swap_remove_value(s: Seq<MahjongTileId>, x: MahjongTileId) -> Seq<
    MahjongTileId,
> {
    if s.contains(x) {
        s.update(first_index(s, x), s.last()).drop_last()
    } else {
        s
    }
}

/// The tiles that a group (k, t) of interpretation `gs` adds to the interpretation's ukiere:
/// a single tile only helps while fewer than 5 groups are formed, and only by becoming the pair
/// when 4 groups and no pair are formed; a single tile of a paired tile cannot help by drawing
/// itself; a pair only helps while it is not the only pair among 5 or more groups, the hand is
/// not complete, and no single copy of the same tile is left.
pub open spec fn group_ukiere(gs: Seq<(MeldType, int)>, k: MeldType, t: int) -> Seq<
    MahjongTileId,
> {
    let num_complete = g_num_complete(gs);
    let total_groups = num_complete + g_num_incomplete(gs);
    let pair_ids = g_pair_ids(gs);
    let has_pair = pair_ids.len() > 0;
    if k is SingleTile {
        if total_groups >= 5 {
            seq![]
        } else {
            let ids = if total_groups == 4 && !has_pair {
                seq![tid(t)]
            } else {
                shape_completions(k, t)
            };
            if pair_ids.contains(tid(t)) {
                swap_remove_value(ids, tid(t))
            } else {
                ids
            }
        }
    } else if k is Pair {
        if num_complete == 4 || (total_groups >= 5 && pair_ids.len() == 1) {
            seq![]
        } else if g_single_ids(gs).contains(tid(t)) {
            seq![]
        } else {
            shape_completions(k, t)
        }
    } else {
        shape_completions(k, t)
    }
}

/// The ukiere gathered from the groups of `gs` from position `i` on, added to `acc`.
pub open spec fn interp_ukiere_from(gs: Seq<(MeldType, int)>, i: int, acc: Seq<MahjongTileId>)
    -> Seq<MahjongTileId>
    decreases gs.len() - i,
{
    if i < 0 || i >= gs.len() {
        acc
    } else {
        interp_ukiere_from(gs, i + 1, add_new(acc, group_ukiere(gs, gs[i].0, gs[i].1)))
    }
}

/// The tiles that lower the standard shanten of an interpretation (none for a complete hand),
/// each once, in the order of the groups they advance.
pub open spec fn spec_interp_ukiere(gs: Seq<(MeldType, int)>) -> Seq<MahjongTileId> {
    if g_standard_shanten(gs) == -1 {
        seq![]
    } else {
        interp_ukiere_from(gs, 0, seq![])
    }
}

impl HandInterpretation {
    /// The tiles that lower the standard shanten of this interpretation (see
    /// `spec_interp_ukiere`).
    pub fn get_ukiere(&self) -> (r: Vec<MahjongTileId>)
        requires
            self.wf(),
            self.total() == 13 || self.total() == 14,
            counts_fit(self.model()),
            self.total() == 13 || g_standard_shanten(self.model()) == -1,
        ensures
            r@ == spec_interp_ukiere(self.model()),
    {
        let ghost gs = self.model();
        if self.get_standard_shanten() == -1 {
            return Vec::new();
        }
        proof {
            lemma_group_counts_bound(gs);
        }
        let num_complete_groups = self.get_num_complete_groups();
        let num_incomplete_groups = self.get_num_incomplete_groups();
        let pair_tile_ids = self.get_pair_tile_ids();
        let single_tile_ids = self.get_single_tile_ids();
        let has_pair = pair_tile_ids.len() > 0;
        let total_groups = num_complete_groups + num_incomplete_groups;
        let mut ukiere_tile_ids: Vec<MahjongTileId> = Vec::new();
        let mut i: usize = 0;
        while i < self.groups.len()
            invariant
                i <= self.groups.len(),
                gs == self.model(),
                self.wf(),
                num_complete_groups == g_num_complete(gs),
                total_groups == g_num_complete(gs) + g_num_incomplete(gs),
                pair_tile_ids@ == g_pair_ids(gs),
                single_tile_ids@ == g_single_ids(gs),
                has_pair == (g_pair_ids(gs).len() > 0),
                interp_ukiere_from(gs, 0, seq![]) == interp_ukiere_from(
                    gs,
                    i as int,
                    ukiere_tile_ids@,
                ),
            decreases self.groups.len() - i,
        {
            let group = &self.groups[i];
            let ghost k = gs[i as int].0;
            let ghost t = gs[i as int].1;
            proof {
                assert(tile_meld_wf(self.groups@[i as int]));
                assert(k == group.meld_type);
                assert(t == group.tile_ids@[0].0 as int);
            }
            let mut tile_ids = group.tile_ids_to_complete_group();
            let mut contributes = true;
            if group.meld_type == MeldType::SingleTile {
                // an isolated tile only adds to the ukiere if making another incomplete group
                // would reduce shanten
                if total_groups >= 5 {
                    contributes = false;
                } else {
                    let single_tile_id = group.tile_ids[0];
                    if total_groups == 4 && !has_pair {
                        // in this case, you can decrease shanten, but only by drawing the same
                        // tile to form a new group which is the only pair
                        tile_ids = Vec::new();
                        tile_ids.push(single_tile_id);
                    }
                    // edge case - if the hand already contains a pair of the same value as the
                    // isolated tile, then drawing another copy of the isolated tile doesn't
                    // reduce shanten
                    if ids_contain(&pair_tile_ids, single_tile_id) {
                        let ghost before = tile_ids@;
                        let mut position: usize = 0;
                        proof {
                            lemma_first_index(before, single_tile_id);
                        }
                        while position < tile_ids.len() && tile_ids[position] != single_tile_id
                            invariant
                                tile_ids@ == before,
                                position <= first_index(before, single_tile_id),
                                first_index(before, single_tile_id) <= before.len(),
                                first_index(before, single_tile_id) < before.len() ==> before[first_index(before, single_tile_id)] == single_tile_id,
                                forall|j: int| 0 <= j < first_index(before, single_tile_id) ==> before[j] != single_tile_id,
                            decreases tile_ids.len() - position,
                        {
                            position += 1;
                        }
                        if position < tile_ids.len() {
                            tile_ids.swap_remove(position);
                        }
                        assert(tile_ids@ =~= swap_remove_value(before, single_tile_id));
                    }
                }
            } else if group.meld_type == MeldType::Pair {
                let pair_tile_id = group.tile_ids[0];
                // with 4 complete groups (and this pair) the hand is complete; with 5 or more
                // groups and a single pair, completing the pair into a triplet loses the pair
                if num_complete_groups == 4 || (total_groups >= 5 && pair_tile_ids.len() == 1) {
                    contributes = false;
                } else if ids_contain(&single_tile_ids, pair_tile_id) {
                    // an isolated tile of the same value as the pair: completing the pair into
                    // a triplet doesn't decrease shanten
                    contributes = false;
                }
            }
            if contributes {
                proof {
                    assert(tile_ids@ == group_ukiere(gs, k, t));
                }
                add_new_ids(&mut ukiere_tile_ids, &tile_ids);
            } else {
                proof {
                    assert(group_ukiere(gs, k, t) =~= Seq::<MahjongTileId>::empty());
                }
            }
            i += 1;
        }
        ukiere_tile_ids
    }
}

/// The group models of each interpretation.
pub open spec fn interps_model(his: Seq<HandInterpretation>) -> Seq<Seq<(MeldType, int)>> {
    his.map_values(|h: HandInterpretation| h.model())
}

/// An interpretation of a hand of 13 or 14 tiles whose standard shanten can be computed.
pub open spec fn interp_ok(h: HandInterpretation) -> bool {
    &&& h.wf()
    &&& (h.total() == 13 || h.total() == 14)
    &&& counts_fit(h.model())
}

/// The lowest standard shanten of the interpretations; 8 (the worst possible) if there are none.
pub open spec fn min_standard_shanten(gss: Seq<Seq<(MeldType, int)>>) -> int
    decreases gss.len(),
{
    if gss.len() == 0 {
        8
    } else {
        let m = min_standard_shanten(gss.drop_last());
        let s = g_standard_shanten(gss.last());
        if s < m {
            s
        } else {
            m
        }
    }
}

/// The lowest standard shanten among the interpretations (8 if there are none).
pub fn get_shanten_helper(hand_interpretations: &Vec<HandInterpretation>) -> (r: i8)
    requires
        forall|i: int|
            0 <= i < hand_interpretations@.len() ==> interp_ok(#[trigger] hand_interpretations@[i]),
    ensures
        r == min_standard_shanten(interps_model(hand_interpretations@)),
{
    let ghost gss = interps_model(hand_interpretations@);
    let mut best: i8 = 8;
    let mut i: usize = 0;
    while i < hand_interpretations.len()
        invariant
            i <= hand_interpretations.len(),
            gss == interps_model(hand_interpretations@),
            forall|j: int|
                0 <= j < hand_interpretations@.len() ==> interp_ok(
                    #[trigger] hand_interpretations@[j],
                ),
            best == min_standard_shanten(gss.take(i as int)),
        decreases hand_interpretations.len() - i,
    {
        assert(interp_ok(hand_interpretations@[i as int]));
        let s = hand_interpretations[i].get_standard_shanten();
        proof {
            assert(gss.take(i + 1).drop_last() =~= gss.take(i as int));
            assert(gss.take(i + 1).last() == gss[i as int]);
        }
        if s < best {
            best = s;
        }
        i += 1;
    }
    assert(gss.take(i as int) =~= gss);
    best
}

/// The ukiere of the interpretations of standard shanten `shanten`, gathered from `acc` on.
pub open spec fn ukiere_helper_from(
    gss: Seq<Seq<(MeldType, int)>>,
    shanten: int,
    i: int,
    acc: Seq<MahjongTileId>,
) -> Seq<MahjongTileId>
    decreases gss.len() - i,
{
    if i < 0 || i >= gss.len() {
        acc
    } else {
        ukiere_helper_from(
            gss,
            shanten,
            i + 1,
            if g_standard_shanten(gss[i]) == shanten {
                add_new(acc, spec_interp_ukiere(gss[i]))
            } else {
                acc
            },
        )
    }
}

/// An interpretation whose ukiere can be asked for when its shanten is `shanten`.
pub open spec fn interp_ukiere_ok(h: HandInterpretation, shanten: int) -> bool {
    &&& interp_ok(h)
    &&& g_standard_shanten(h.model()) == shanten ==> (h.total() == 13 || shanten == -1)
}

/// The tiles that lower the shanten of some interpretation of standard shanten `shanten`, each
/// once, in the order of the interpretations.
pub fn get_ukiere_helper(hand_interpretations: &Vec<HandInterpretation>, shanten: i8) -> (r: Vec<
    MahjongTileId,
>)
    requires
        forall|i: int|
            0 <= i < hand_interpretations@.len() ==> interp_ukiere_ok(
                #[trigger] hand_interpretations@[i],
                shanten as int,
            ),
    ensures
        r@ == ukiere_helper_from(interps_model(hand_interpretations@), shanten as int, 0, seq![]),
{
    let ghost gss = interps_model(hand_interpretations@);
    let mut ukiere_tiles: Vec<MahjongTileId> = Vec::new();
    let mut i: usize = 0;
    while i < hand_interpretations.len()
        invariant
            i <= hand_interpretations.len(),
            gss == interps_model(hand_interpretations@),
            forall|j: int|
                0 <= j < hand_interpretations@.len() ==> interp_ukiere_ok(
                    #[trigger] hand_interpretations@[j],
                    shanten as int,
                ),
            ukiere_helper_from(gss, shanten as int, 0, seq![]) == ukiere_helper_from(
                gss,
                shanten as int,
                i as int,
                ukiere_tiles@,
            ),
        decreases hand_interpretations.len() - i,
    {
        let interpretation = &hand_interpretations[i];
        assert(interp_ukiere_ok(hand_interpretations@[i as int], shanten as int));
        if interpretation.get_standard_shanten() == shanten {
            let new_tile_ids = interpretation.get_ukiere();
            add_new_ids(&mut ukiere_tiles, &new_tile_ids);
        }
        i += 1;
    }
    ukiere_tiles
}

/// How many tile ids have at least two copies.
pub open spec fn num_pairs_upto(c: Seq<u8>, n: int) -> int
    decreases n,
{
    if n <= 0 {
        0
    } else {
        num_pairs_upto(c, n - 1) + if c[n - 1] >= 2 {
            1int
        } else {
            0int
        }
    }
}

/// The seven-pairs shanten: 6 minus the number of distinct pairs.
pub open spec fn spec_chiitoi_shanten(c: Seq<u8>) -> int {
    6 - num_pairs_upto(c, 34)
}

pub fn get_chiitoi_shanten(tile_count_array: [u8; 34]) -> (r: i8)
    ensures
        r == spec_chiitoi_shanten(tile_count_array@),
{
    let mut tile_id: usize = 0;
    let mut num_pairs: i8 = 0;
    while tile_id < 34
        invariant
            tile_id <= 34,
            num_pairs == num_pairs_upto(tile_count_array@, tile_id as int),
            0 <= num_pairs <= tile_id,
        decreases 34 - tile_id,
    {
        if tile_count_array[tile_id] >= 2 {
            num_pairs += 1;
        }
        tile_id += 1;
    }
    6 - num_pairs
}

/// The ids held exactly once, in ascending order.
pub open spec fn singles_upto(c: Seq<u8>, n: int) -> Seq<MahjongTileId>
    decreases n,
{
    if n <= 0 {
        seq![]
    } else if c[n - 1] == 1 {
        singles_upto(c, n - 1).push(tid(n - 1))
    } else {
        singles_upto(c, n - 1)
    }
}

/// The seven-pairs ukiere: every tile held exactly once.
pub fn get_chiitoi_ukiere(tile_count_array: [u8; 34]) -> (r: Vec<MahjongTileId>)
    ensures
        r@ == singles_upto(tile_count_array@, 34),
{
    let mut tile_id: u8 = 0;
    let mut ukiere_tile_ids: Vec<MahjongTileId> = Vec::new();
    while tile_id < 34
        invariant
            tile_id <= 34,
            ukiere_tile_ids@ == singles_upto(tile_count_array@, tile_id as int),
        decreases 34 - tile_id,
    {
        if tile_count_array[tile_id as usize] == 1 {
            ukiere_tile_ids.push(MahjongTileId(tile_id));
        }
        tile_id += 1;
    }
    ukiere_tile_ids
}

/// The thirteen terminal and honor tiles of thirteen orphans: 19m19p19s1234567z.
pub open spec fn kokushi_ids() -> Seq<MahjongTileId> {
    seq![
        tid(0),
        tid(8),
        tid(9),
        tid(17),
        tid(18),
        tid(26),
        tid(27),
        tid(28),
        tid(29),
        tid(30),
        tid(31),
        tid(32),
        tid(33),
    ]
}

fn kokushi_tile_ids() -> (r: Vec<MahjongTileId>)
    ensures
        r@ == kokushi_ids(),
{
    let r = vec![
        MahjongTileId(0),
        MahjongTileId(8),
        MahjongTileId(9),
        MahjongTileId(17),
        MahjongTileId(18),
        MahjongTileId(26),
        MahjongTileId(27),
        MahjongTileId(28),
        MahjongTileId(29),
        MahjongTileId(30),
        MahjongTileId(31),
        MahjongTileId(32),
        MahjongTileId(33),
    ];
    assert(r@ =~= kokushi_ids());
    r
}

/// How many of the first `n` thirteen-orphans tiles are held.
pub open spec fn kokushi_held(c: Seq<u8>, n: int) -> int
    decreases n,
{
    if n <= 0 {
        0
    } else {
        kokushi_held(c, n - 1) + if c[kokushi_ids()[n - 1].0 as int] >= 1 {
            1int
        } else {
            0int
        }
    }
}

/// Some thirteen-orphans tile is held at least twice.
pub open spec fn kokushi_has_pair(c: Seq<u8>) -> bool {
    exists|j: int| 0 <= j < 13 && c[#[trigger] kokushi_ids()[j].0 as int] >= 2
}

/// The thirteen-orphans shanten: 13 minus the distinct orphans held, minus one more with a pair
/// of them.
pub open spec fn spec_kokushi_shanten(c: Seq<u8>) -> int {
    13 - kokushi_held(c, 13) - if kokushi_has_pair(c) {
        1int
    } else {
        0int
    }
}

pub fn get_kokushi_shanten(tile_count_array: [u8; 34]) -> (r: i8)
    ensures
        r == spec_kokushi_shanten(tile_count_array@),
{
    let kokushi_tile_ids = kokushi_tile_ids();
    let mut num_kokushi_tiles: i8 = 0;
    let mut has_kokushi_pair = false;
    let mut j: usize = 0;
    while j < kokushi_tile_ids.len()
        invariant
            kokushi_tile_ids@ == kokushi_ids(),
            j <= 13,
            num_kokushi_tiles == kokushi_held(tile_count_array@, j as int),
            0 <= num_kokushi_tiles <= j,
            has_kokushi_pair == exists|i: int|
                0 <= i < j && tile_count_array@[#[trigger] kokushi_ids()[i].0 as int] >= 2,
        decreases 13 - j,
    {
        let kokushi_tile_idx = kokushi_tile_ids[j].0 as usize;
        let kokushi_tile_count = tile_count_array[kokushi_tile_idx];
        if kokushi_tile_count >= 1 {
            num_kokushi_tiles += 1;
        }
        if kokushi_tile_count >= 2 {
            has_kokushi_pair = true;
        }
        j += 1;
    }
    let mut kokushi_shanten = 13 - num_kokushi_tiles;
    if has_kokushi_pair {
        kokushi_shanten -= 1;
    }
    kokushi_shanten
}

/// The orphans among the first `n` that are not held.
pub open spec fn kokushi_missing(c: Seq<u8>, n: int) -> Seq<MahjongTileId>
    decreases n,
{
    if n <= 0 {
        seq![]
    } else if c[kokushi_ids()[n - 1].0 as int] == 0 {
        kokushi_missing(c, n - 1).push(kokushi_ids()[n - 1])
    } else {
        kokushi_missing(c, n - 1)
    }
}

/// The thirteen-orphans ukiere: every orphan while no orphan is paired, else the missing ones.
pub open spec fn spec_kokushi_ukiere(c: Seq<u8>) -> Seq<MahjongTileId> {
    if !kokushi_has_pair(c) {
        kokushi_ids()
    } else {
        kokushi_missing(c, 13)
    }
}

pub fn get_kokushi_ukiere(tile_count_array: [u8; 34]) -> (r: Vec<MahjongTileId>)
    ensures
        r@ == spec_kokushi_ukiere(tile_count_array@),
{
    let mut missing_kokushi_tiles: Vec<MahjongTileId> = Vec::new();
    let kokushi_tile_ids = kokushi_tile_ids();
    let mut has_kokushi_pair = false;
    let mut j: usize = 0;
    while j < kokushi_tile_ids.len()
        invariant
            kokushi_tile_ids@ == kokushi_ids(),
            j <= 13,
            missing_kokushi_tiles@ == kokushi_missing(tile_count_array@, j as int),
            has_kokushi_pair == exists|i: int|
                0 <= i < j && tile_count_array@[#[trigger] kokushi_ids()[i].0 as int] >= 2,
        decreases 13 - j,
    {
        let kokushi_tile_id = kokushi_tile_ids[j];
        let kokushi_tile_count = tile_count_array[kokushi_tile_id.0 as usize];
        if kokushi_tile_count == 0 {
            missing_kokushi_tiles.push(kokushi_tile_id);
        } else if kokushi_tile_count >= 2 {
            has_kokushi_pair = true;
        }
        j += 1;
    }
    if !has_kokushi_pair {
        // any orphan helps: it either forms the pair or is a new orphan
        kokushi_tile_ids
    } else {
        missing_kokushi_tiles
    }
}

pub proof fn lemma_g_size_append(a: Seq<(MeldType, int)>, b: Seq<(MeldType, int)>)
    ensures
        g_size(a + b) == g_size(a) + g_size(b),
    decreases b.len(),
{
    if b.len() == 0 {
        assert(a + b =~= a);
    } else {
        lemma_g_size_append(a, b.drop_last());
        assert((a + b).drop_last() =~= a + b.drop_last());
        assert((a + b).last() == b.last());
    }
}

/// The interpretations of a hand of at most 14 tiles have group counts that fit the shanten
/// formula, and name real tiles.
pub proof fn lemma_hand_interpretations_ok(c: Seq<u8>)
    requires
        c.len() == 34,
        honors_at_most_four(c),
        count_sum(c) <= 14,
    ensures
        forall|i: int|
            0 <= i < hand_interpretations(c).len() ==> counts_fit(
                #[trigger] hand_interpretations(c)[i],
            ),
        forall|i: int, j: int|
            0 <= i < hand_interpretations(c).len() && 0 <= j < hand_interpretations(c)[i].len()
                ==> 0 <= #[trigger] hand_interpretations(c)[i][j].1 < 34,
{
    let z = zero_honors(c);
    let hg = honor_groups_upto(c, 34);
    let si = suit_interpretations(z);
    assert(honors_zero(z));
    lemma_suit_interpretations_size(z);
    lemma_honor_groups_range(c, 34);
    assert forall|k: int| 0 <= k < z.len() implies #[trigger] z[k] <= c[k] by {}
    lemma_count_sum_pointwise(z, c, 0);
    assert forall|i: int| 0 <= i < hand_interpretations(c).len() implies counts_fit(
        #[trigger] hand_interpretations(c)[i],
    ) by {
        assert(hand_interpretations(c)[i] == hg + si[i]);
        lemma_g_size_append(hg, si[i]);
        lemma_group_counts_bound(hg + si[i]);
    }
    assert forall|i: int, j: int|
        0 <= i < hand_interpretations(c).len() && 0 <= j < hand_interpretations(c)[i].len()
            implies 0 <= #[trigger] hand_interpretations(c)[i][j].1 < 34 by {
        assert(hand_interpretations(c)[i] == hg + si[i]);
        if j >= hg.len() {
            assert((hg + si[i])[j] == si[i][j - hg.len()]);
        } else {
            assert((hg + si[i])[j] == hg[j]);
        }
    }
}

/// The interpretations built for a hand of 13 or 14 tiles all have a computable shanten, and
/// their models are the hand's interpretations.
proof fn lemma_built_interpretations_ok(c: Seq<u8>, his: Seq<HandInterpretation>)
    requires
        c.len() == 34,
        honors_at_most_four(c),
        count_sum(c) == 13 || count_sum(c) == 14,
        his.len() == hand_interpretations(c).len(),
        forall|i: int|
            0 <= i < his.len() ==> (#[trigger] his[i]).total_tile_count_array@ == c
                && melds_match(his[i].groups@, hand_interpretations(c)[i]),
    ensures
        interps_model(his) == hand_interpretations(c),
        forall|i: int| 0 <= i < his.len() ==> interp_ok(#[trigger] his[i]),
{
    lemma_hand_interpretations_ok(c);
    assert forall|i: int| 0 <= i < his.len() implies #[trigger] his[i].model()
        == hand_interpretations(c)[i] && interp_ok(his[i]) by {
        assert(his[i].total_tile_count_array@ == c);
        assert forall|j: int| 0 <= j < hand_interpretations(c)[i].len() implies 0
            <= #[trigger] hand_interpretations(c)[i][j].1 < 34 by {}
        lemma_melds_match_model(his[i].groups@, hand_interpretations(c)[i]);
    }
    assert(interps_model(his) =~= hand_interpretations(c));
}

/// The lowest standard-shape shanten of a hand over all its interpretations.
pub open spec fn spec_standard_shanten(c: Seq<u8>) -> int {
    min_standard_shanten(hand_interpretations(c))
}

/// The smaller of two integers.
pub open spec fn min_int(a: int, b: int) -> int {
    if a < b {
        a
    } else {
        b
    }
}

/// The shanten of a hand: the lowest of its seven-pairs, thirteen-orphans and standard-shape
/// shanten.
pub open spec fn spec_shanten(c: Seq<u8>) -> int {
    min_int(
        min_int(spec_chiitoi_shanten(c), spec_kokushi_shanten(c)),
        spec_standard_shanten(c),
    )
}

/// The shanten of a hand of 13 or 14 tiles (see `spec_shanten`), from every interpretation of
/// the hand.
pub fn get_shanten(tile_count_array: [u8; 34]) -> (r: i8)
    requires
        honors_at_most_four(tile_count_array@),
        count_sum(tile_count_array@) == 13 || count_sum(tile_count_array@) == 14,
    ensures
        r == spec_shanten(tile_count_array@),
{
    let chiitoi_shanten = get_chiitoi_shanten(tile_count_array);
    let kokushi_shanten = get_kokushi_shanten(tile_count_array);
    let mut shanten = if chiitoi_shanten < kokushi_shanten {
        chiitoi_shanten
    } else {
        kokushi_shanten
    };
    let interpretations = get_hand_interpretations(tile_count_array);
    proof {
        lemma_built_interpretations_ok(tile_count_array@, interpretations@);
    }
    let standard_shanten = get_shanten_helper(&interpretations);
    if standard_shanten < shanten {
        shanten = standard_shanten;
    }
    shanten
}

/// The ukiere of a hand given its standard, seven-pairs and thirteen-orphans shanten: the
/// ukiere of every shape whose shanten is the lowest, each tile once, standard shape first.
pub open spec fn spec_generate_ukiere(
    c: Seq<u8>,
    standard_shanten: int,
    chiitoi_shanten: int,
    kokushi_shanten: int,
    gss: Seq<Seq<(MeldType, int)>>,
) -> Seq<MahjongTileId> {
    let min_shanten = min_int(min_int(chiitoi_shanten, kokushi_shanten), standard_shanten);
    let a = if standard_shanten == min_shanten {
        add_new(seq![], ukiere_helper_from(gss, standard_shanten, 0, seq![]))
    } else {
        seq![]
    };
    let b = if chiitoi_shanten == min_shanten {
        add_new(a, singles_upto(c, 34))
    } else {
        a
    };
    if kokushi_shanten == min_shanten {
        add_new(b, spec_kokushi_ukiere(c))
    } else {
        b
    }
}

fn generate_ukiere_tiles(
    tile_count_array: [u8; 34],
    standard_shanten: i8,
    chiitoi_shanten: i8,
    kokushi_shanten: i8,
    hand_interpretations: &Vec<HandInterpretation>,
) -> (r: Vec<MahjongTileId>)
    requires
        standard_shanten == min_int(
            min_int(chiitoi_shanten as int, kokushi_shanten as int),
            standard_shanten as int,
        ) ==> forall|i: int|
            0 <= i < hand_interpretations@.len() ==> interp_ukiere_ok(
                #[trigger] hand_interpretations@[i],
                standard_shanten as int,
            ),
    ensures
        r@ == spec_generate_ukiere(
            tile_count_array@,
            standard_shanten as int,
            chiitoi_shanten as int,
            kokushi_shanten as int,
            interps_model(hand_interpretations@),
        ),
{
    let special_shanten = if chiitoi_shanten < kokushi_shanten {
        chiitoi_shanten
    } else {
        kokushi_shanten
    };
    let min_shanten = if special_shanten < standard_shanten {
        special_shanten
    } else {
        standard_shanten
    };
    let mut ukiere_tile_ids: Vec<MahjongTileId> = Vec::new();
    if standard_shanten == min_shanten {
        let standard_ukiere_tiles = get_ukiere_helper(hand_interpretations, standard_shanten);
        add_new_ids(&mut ukiere_tile_ids, &standard_ukiere_tiles);
    }
    if chiitoi_shanten == min_shanten {
        let chiitoi_ukiere_tiles = get_chiitoi_ukiere(tile_count_array);
        add_new_ids(&mut ukiere_tile_ids, &chiitoi_ukiere_tiles);
    }
    if kokushi_shanten == min_shanten {
        let kokushi_ukiere_tiles = get_kokushi_ukiere(tile_count_array);
        add_new_ids(&mut ukiere_tile_ids, &kokushi_ukiere_tiles);
    }
    ukiere_tile_ids
}

/// The ukiere of a hand: the tiles that lower its shanten (see `spec_generate_ukiere`).
pub open spec fn spec_ukiere(c: Seq<u8>) -> Seq<MahjongTileId> {
    spec_generate_ukiere(
        c,
        spec_standard_shanten(c),
        spec_chiitoi_shanten(c),
        spec_kokushi_shanten(c),
        hand_interpretations(c),
    )
}

/// The ukiere of a hand can be computed: it has 13 tiles, or its standard shape is complete or
/// not among its best shapes.
pub open spec fn ukiere_defined(c: Seq<u8>) -> bool {
    ||| count_sum(c) == 13
    ||| (count_sum(c) == 14 && (spec_standard_shanten(c) == -1 || spec_standard_shanten(c)
        > min_int(spec_chiitoi_shanten(c), spec_kokushi_shanten(c))))
}

/// The tiles that lower the shanten of a hand (see `spec_ukiere`), from every interpretation of
/// the hand.
pub fn get_ukiere(tile_count_array: [u8; 34]) -> (r: Vec<MahjongTileId>)
    requires
        honors_at_most_four(tile_count_array@),
        ukiere_defined(tile_count_array@),
    ensures
        r@ == spec_ukiere(tile_count_array@),
        r@.no_duplicates(),
{
    proof {
        lemma_spec_ukiere_no_duplicates(tile_count_array@);
    }
    let interpretations = get_hand_interpretations(tile_count_array);
    proof {
        lemma_built_interpretations_ok(tile_count_array@, interpretations@);
    }
    let standard_shanten = get_shanten_helper(&interpretations);
    let chiitoi_shanten = get_chiitoi_shanten(tile_count_array);
    let kokushi_shanten = get_kokushi_shanten(tile_count_array);
    generate_ukiere_tiles(
        tile_count_array,
        standard_shanten,
        chiitoi_shanten,
        kokushi_shanten,
        &interpretations,
    )
}

/// The ukiere of a hand hold each tile once.
pub proof fn lemma_spec_ukiere_no_duplicates(c: Seq<u8>)
    ensures
        spec_ukiere(c).no_duplicates(),
{
    let st = spec_standard_shanten(c);
    let ch = spec_chiitoi_shanten(c);
    let ko = spec_kokushi_shanten(c);
    let gss = hand_interpretations(c);
    let mn = min_int(min_int(ch, ko), st);
    let e: Seq<MahjongTileId> = seq![];
    lemma_add_new_no_duplicates(e, ukiere_helper_from(gss, st, 0, seq![]));
    let a = if st == mn {
        add_new(e, ukiere_helper_from(gss, st, 0, seq![]))
    } else {
        e
    };
    lemma_add_new_no_duplicates(a, singles_upto(c, 34));
    let b = if ch == mn {
        add_new(a, singles_upto(c, 34))
    } else {
        a
    };
    lemma_add_new_no_duplicates(b, spec_kokushi_ukiere(c));
}

/// The shanten formula never exceeds 8 (the worst standard shape).
pub proof fn lemma_shanten_formula_at_most_8(num_complete: int, num_incomplete: int, has_pair: bool)
    requires
        num_complete >= 0,
        num_incomplete >= 0,
    ensures
        shanten_formula(num_complete, num_incomplete, has_pair) <= 8,
{
}

/// The best shanten that groups `num_complete` complete and `num_incomplete` incomplete groups
/// can still reach with `remaining` more tiles (every three of them a complete group, two left
/// over a pair) is a lower bound of every way of grouping those tiles, in a hand of at most 14
/// tiles.
pub proof fn lemma_best_possible_bound(
    num_complete: int,
    num_incomplete: int,
    remaining: int,
    more_complete: int,
    more_incomplete: int,
    has_pair: bool,
)
    requires
        num_complete >= 0,
        num_incomplete >= 0,
        more_complete >= 0,
        more_incomplete >= 0,
        3 * more_complete + 2 * more_incomplete <= remaining,
        3 * num_complete + 2 * num_incomplete + remaining <= 14,
    ensures
        shanten_formula(
            num_complete + more_complete,
            num_incomplete + more_incomplete,
            has_pair,
        ) >= shanten_formula(
            num_complete + remaining / 3,
            num_incomplete + if remaining % 3 == 2 {
                1int
            } else {
                0int
            },
            true,
        ),
{
}

pub proof fn lemma_min_standard_shanten(gss: Seq<Seq<(MeldType, int)>>)
    ensures
        min_standard_shanten(gss) <= 8,
        forall|i: int|
            0 <= i < gss.len() ==> min_standard_shanten(gss) <= g_standard_shanten(
                #[trigger] gss[i],
            ),
        min_standard_shanten(gss) == 8 || exists|i: int|
            0 <= i < gss.len() && g_standard_shanten(#[trigger] gss[i]) == min_standard_shanten(
                gss,
            ),
    decreases gss.len(),
{
    if gss.len() > 0 {
        let d = gss.drop_last();
        lemma_min_standard_shanten(d);
        assert forall|i: int| 0 <= i < gss.len() implies min_standard_shanten(gss)
            <= g_standard_shanten(#[trigger] gss[i]) by {
            if i < gss.len() - 1 {
                assert(gss[i] == d[i]);
            }
        }
        if min_standard_shanten(gss) != 8 {
            if min_standard_shanten(gss) == min_standard_shanten(d) {
                let i = choose|i: int|
                    0 <= i < d.len() && g_standard_shanten(#[trigger] d[i]) == min_standard_shanten(
                        d,
                    );
                assert(gss[i] == d[i]);
            } else {
                assert(g_standard_shanten(gss[gss.len() - 1]) == min_standard_shanten(gss));
            }
        }
    }
}

pub proof fn lemma_group_counts_append(a: Seq<(MeldType, int)>, b: Seq<(MeldType, int)>)
    ensures
        g_num_complete(a + b) == g_num_complete(a) + g_num_complete(b),
        g_num_incomplete(a + b) == g_num_incomplete(a) + g_num_incomplete(b),
    decreases b.len(),
{
    if b.len() == 0 {
        assert(a + b =~= a);
    } else {
        lemma_group_counts_append(a, b.drop_last());
        assert((a + b).drop_last() =~= a + b.drop_last());
        assert((a + b).last() == b.last());
    }
}

/// Some interpretation always exists: every tile can stand alone.
pub proof fn lemma_suit_interpretations_nonempty(c: Seq<u8>)
    ensures
        suit_interpretations(c).len() >= 1,
    decreases count_sum(c), 1int, 0int,
{
    let t = suit_first(c);
    if c.len() == 34 && t < 27 {
        lemma_first_nonzero(c.take(27));
        assert(c[t] == c.take(27)[t]);
        let ks = suit_choices(c, t);
        assert(ks[0] == MeldType::SingleTile);
        lemma_remove_shape_decreases(c, ks[0], t);
        lemma_count_sum_nonneg(remove_shape(c, ks[0], t));
        lemma_suit_interpretations_nonempty(remove_shape(c, ks[0], t));
    }
}

/// An interpretation follows a list of choices at tile `t` exactly when it follows the
/// interpretations after one of them.
pub proof fn lemma_via_members(
    c: Seq<u8>,
    t: int,
    ks: Seq<MeldType>,
    pgs: Seq<(MeldType, int)>,
    x: Seq<(MeldType, int)>,
)
    requires
        0 <= t < c.len(),
        c[t] >= 1,
    ensures
        prefix_with(pgs, suit_interpretations_via(c, t, ks)).contains(x) <==> exists|j: int|
            0 <= j < ks.len() && #[trigger] prefix_with(
                pgs.push((ks[j], t)),
                suit_interpretations(remove_shape(c, ks[j], t)),
            ).contains(x),
    decreases ks.len(),
{
    if ks.len() > 0 {
        let g = (ks[0], t);
        let s = suit_interpretations(remove_shape(c, ks[0], t));
        let rest = suit_interpretations_via(c, t, ks.drop_first());
        let block = prepend_all(g, s);
        assert(prefix_with(pgs.push(g), s) =~= prefix_with(pgs, block)) by {
            assert forall|i: int| 0 <= i < s.len() implies (pgs.push(g) + s[i]) =~= (pgs + (
            seq![g] + s[i])) by {}
        }
        assert(prefix_with(pgs, block + rest) =~= prefix_with(pgs, block) + prefix_with(pgs, rest));
        lemma_via_members(c, t, ks.drop_first(), pgs, x);
        let whole = prefix_with(pgs, block) + prefix_with(pgs, rest);
        if whole.contains(x) {
            let i = choose|i: int| 0 <= i < whole.len() && whole[i] == x;
            if i < prefix_with(pgs, block).len() {
                assert(prefix_with(pgs, block)[i] == x);
                assert(prefix_with(pgs.push((ks[0], t)), suit_interpretations(
                    remove_shape(c, ks[0], t),
                )).contains(x));
            } else {
                assert(prefix_with(pgs, rest)[i - prefix_with(pgs, block).len()] == x);
                let j = choose|j: int|
                    0 <= j < ks.drop_first().len() && #[trigger] prefix_with(
                        pgs.push((ks.drop_first()[j], t)),
                        suit_interpretations(remove_shape(c, ks.drop_first()[j], t)),
                    ).contains(x);
                assert(ks.drop_first()[j] == ks[j + 1]);
                assert(prefix_with(pgs.push((ks[j + 1], t)), suit_interpretations(
                    remove_shape(c, ks[j + 1], t),
                )).contains(x));
            }
        }
        if exists|j: int|
            0 <= j < ks.len() && #[trigger] prefix_with(
                pgs.push((ks[j], t)),
                suit_interpretations(remove_shape(c, ks[j], t)),
            ).contains(x) {
            let j = choose|j: int|
                0 <= j < ks.len() && #[trigger] prefix_with(
                    pgs.push((ks[j], t)),
                    suit_interpretations(remove_shape(c, ks[j], t)),
                ).contains(x);
            if j == 0 {
                let i = choose|i: int|
                    0 <= i < prefix_with(pgs, block).len() && prefix_with(pgs, block)[i] == x;
                assert(whole[i] == x);
            } else {
                assert(ks.drop_first()[j - 1] == ks[j]);
                assert(prefix_with(pgs.push((ks.drop_first()[j - 1], t)), suit_interpretations(
                    remove_shape(c, ks.drop_first()[j - 1], t),
                )).contains(x));
                let i = choose|i: int|
                    0 <= i < prefix_with(pgs, rest).len() && prefix_with(pgs, rest)[i] == x;
                assert(whole[i + prefix_with(pgs, block).len()] == x);
            }
        }
    }
}

/// A partly interpreted hand: the tiles not grouped yet and the groups formed so far.
pub struct PartialMeldInterpretation {
    pub remaining_tile_count_array: [u8; 34],
    pub groups: Vec<TileMeld>,
}

impl PartialMeldInterpretation {
    /// Every full interpretation this state can still become.
    pub open spec fn completions(&self) -> Seq<Seq<(MeldType, int)>> {
        prefix_with(
            groups_model(self.groups@),
            suit_interpretations(self.remaining_tile_count_array@),
        )
    }

    /// Well-formed groups, only numbered tiles left, and at most 14 tiles in all.
    pub open spec fn size_ok(&self) -> bool {
        &&& melds_wf(self.groups@)
        &&& honors_zero(self.remaining_tile_count_array@)
        &&& g_size(groups_model(self.groups@)) + count_sum(self.remaining_tile_count_array@) <= 14
    }

    /// The shanten the groups formed so far would reach if the remaining tiles formed as many
    /// complete groups as they can, a pair from two left-over tiles.
    pub open spec fn spec_best_possible_shanten(&self) -> int {
        let gs = groups_model(self.groups@);
        let remaining = count_sum(self.remaining_tile_count_array@);
        shanten_formula(
            g_num_complete(gs) + remaining / 3,
            g_num_incomplete(gs) + if remaining % 3 == 2 {
                1int
            } else {
                0int
            },
            true,
        )
    }

    /// A lower bound of the shanten of every completion (see `spec_best_possible_shanten`).
    pub fn best_possible_shanten(&self) -> (r: i8)
        requires
            self.size_ok(),
        ensures
            r == self.spec_best_possible_shanten(),
    {
        let ghost gs = groups_model(self.groups@);
        proof {
            lemma_group_counts_bound(gs);
            lemma_count_sum_nonneg(self.remaining_tile_count_array@);
        }
        let num_complete_groups = get_num_complete_groups(&self.groups);
        let num_incomplete_groups = get_num_incomplete_groups(&self.groups);
        // assume that, of the remaining tiles, we can form complete groups
        let remaining_tiles = get_total_tiles_from_count_array(
            MahjongTileCountArray(self.remaining_tile_count_array),
        );
        let ideal_remaining_complete_groups = (remaining_tiles / 3) as i8;
        let ideal_remaining_incomplete_groups: i8 = if remaining_tiles % 3 == 2 {
            1
        } else {
            0
        };
        standard_shanten_formula(
            num_complete_groups + ideal_remaining_complete_groups,
            num_incomplete_groups + ideal_remaining_incomplete_groups,
            true,
        )
    }
}

/// No completion of a state has a shanten below its best possible shanten.
pub proof fn lemma_completion_bound(st: PartialMeldInterpretation, x: Seq<(MeldType, int)>)
    requires
        st.size_ok(),
        st.completions().contains(x),
    ensures
        g_standard_shanten(x) >= st.spec_best_possible_shanten(),
{
    let gs = groups_model(st.groups@);
    let rem = st.remaining_tile_count_array@;
    let si = suit_interpretations(rem);
    let i = choose|i: int| 0 <= i < st.completions().len() && st.completions()[i] == x;
    let p = si[i];
    assert(x == gs + p);
    lemma_suit_interpretations_size(rem);
    lemma_group_counts_append(gs, p);
    lemma_group_counts_bound(gs);
    lemma_group_counts_bound(p);
    lemma_best_possible_bound(
        g_num_complete(gs),
        g_num_incomplete(gs),
        count_sum(rem),
        g_num_complete(p),
        g_num_incomplete(p),
        g_pair_ids(x).len() > 0,
    );
}

/// How many tiles the melds hold in all.
fn get_total_num_tiles(groups: &Vec<TileMeld>) -> (r: usize)
    requires
        melds_wf(groups@),
        g_size(groups_model(groups@)) <= 1000,
    ensures
        r == g_size(groups_model(groups@)),
{
    let mut num_tiles: usize = 0;
    let mut i: usize = 0;
    while i < groups.len()
        invariant
            i <= groups.len(),
            melds_wf(groups@),
            g_size(groups_model(groups@)) <= 1000,
            num_tiles == g_size(groups_model(groups@.take(i as int))),
        decreases groups.len() - i,
    {
        proof {
            lemma_groups_model_push(groups@, i as int);
            assert(tile_meld_wf(groups@[i as int]));
            assert(groups_model(groups@.take(i + 1)) =~= groups_model(groups@).take(i + 1));
            lemma_g_size_take(groups_model(groups@), i + 1);
        }
        num_tiles += groups[i].tile_ids.len();
        i += 1;
    }
    assert(groups@.take(i as int) =~= groups@);
    num_tiles
}

pub proof fn lemma_g_size_take(gs: Seq<(MeldType, int)>, n: int)
    requires
        0 <= n <= gs.len(),
    ensures
        0 <= g_size(gs.take(n)) <= g_size(gs),
    decreases gs.len(),
{
    lemma_g_size_nonneg(gs.take(n));
    if n < gs.len() {
        lemma_g_size_take(gs.drop_last(), n);
        assert(gs.drop_last().take(n) =~= gs.take(n));
    } else {
        assert(gs.take(n) =~= gs);
    }
}

/// The number of tiles grouped so far in a state.
pub open spec fn grouped_tiles(st: PartialMeldInterpretation) -> int {
    g_size(groups_model(st.groups@))
}

/// Puts a state at the front of the queue when it has grouped at least as many tiles as the
/// state at the front (so states closer to a full interpretation are explored first), else at
/// the back.
fn add_to_queue(queue: &mut VecDeque<PartialMeldInterpretation>, new_state: PartialMeldInterpretation)
    requires
        new_state.size_ok(),
        old(queue)@.len() > 0 ==> old(queue)@[0].size_ok(),
    ensures
        final(queue)@ == if grouped_tiles(new_state) >= (if old(queue)@.len() > 0 {
            grouped_tiles(old(queue)@[0])
        } else {
            0
        }) {
            seq![new_state] + old(queue)@
        } else {
            old(queue)@.push(new_state)
        },
{
    proof {
        broadcast use vstd::std_specs::vecdeque::axiom_spec_len;
        lemma_count_sum_nonneg(new_state.remaining_tile_count_array@);
        if queue@.len() > 0 {
            lemma_count_sum_nonneg(queue@[0].remaining_tile_count_array@);
        }
    }
    let num_melded_tiles_next_in_queue = if queue.len() > 0 {
        get_total_num_tiles(&queue[0].groups)
    } else {
        0
    };
    if get_total_num_tiles(&new_state.groups) >= num_melded_tiles_next_in_queue {
        queue.push_front(new_state);
    } else {
        queue.push_back(new_state);
    }
}

/// 8 to the power `n`.
pub open spec fn pow8(n: int) -> int
    decreases n,
{
    if n <= 0 {
        1
    } else {
        8 * pow8(n - 1)
    }
}

pub proof fn lemma_pow8_mono(a: int, b: int)
    requires
        a <= b,
    ensures
        1 <= pow8(a) <= pow8(b),
    decreases b - a,
{
    if a < b {
        lemma_pow8_mono(a, b - 1);
        if b > 0 {
            assert(pow8(b) == 8 * pow8(b - 1));
        }
    } else {
        lemma_pow8_positive(a);
    }
}

pub proof fn lemma_pow8_positive(a: int)
    ensures
        pow8(a) >= 1,
    decreases a,
{
    if a > 0 {
        lemma_pow8_positive(a - 1);
    }
}

/// A termination measure of the search queue: states with more tiles left weigh more than any
/// six states with fewer.
pub open spec fn qweight(q: Seq<PartialMeldInterpretation>) -> int
    decreases q.len(),
{
    if q.len() == 0 {
        0
    } else {
        qweight(q.drop_last()) + pow8(count_sum(q.last().remaining_tile_count_array@))
    }
}

pub proof fn lemma_qweight_front(y: PartialMeldInterpretation, q: Seq<PartialMeldInterpretation>)
    ensures
        qweight(seq![y] + q) == pow8(count_sum(y.remaining_tile_count_array@)) + qweight(q),
        qweight(q) >= 0,
    decreases q.len(),
{
    if q.len() == 0 {
        assert(seq![y] + q =~= seq![y]);
        assert(seq![y].drop_last() =~= Seq::<PartialMeldInterpretation>::empty());
        assert(seq![y].last() == y);
        assert(qweight(seq![y]) == qweight(seq![y].drop_last()) + pow8(
            count_sum(seq![y].last().remaining_tile_count_array@),
        ));
    } else {
        lemma_qweight_front(y, q.drop_last());
        assert((seq![y] + q).drop_last() =~= seq![y] + q.drop_last());
        assert((seq![y] + q).last() == q.last());
        lemma_pow8_positive(count_sum(q.last().remaining_tile_count_array@));
    }
}

/// Some state of the queue can still become `x`.
pub open spec fn queue_covers(q: Seq<PartialMeldInterpretation>, x: Seq<(MeldType, int)>) -> bool {
    exists|i: int| 0 <= i < q.len() && (#[trigger] q[i]).completions().contains(x)
}

/// A state whose completions are all among `comps`.
pub open spec fn state_sound(st: PartialMeldInterpretation, comps: Seq<Seq<(MeldType, int)>>) -> bool {
    &&& st.size_ok()
    &&& forall|x: Seq<(MeldType, int)>| #[trigger] st.completions().contains(x) ==> comps.contains(x)
}

pub proof fn lemma_covers_pop(q: Seq<PartialMeldInterpretation>, x: Seq<(MeldType, int)>)
    requires
        queue_covers(q, x),
    ensures
        q[0].completions().contains(x) || queue_covers(q.subrange(1, q.len() as int), x),
{
    let i = choose|i: int| 0 <= i < q.len() && (#[trigger] q[i]).completions().contains(x);
    if i > 0 {
        assert(q.subrange(1, q.len() as int)[i - 1] == q[i]);
    }
}

/// The state after taking out the group of kind `k` at the lowest numbered tile `t` of a state.
fn make_child(partial: &PartialMeldInterpretation, k: MeldType, t: u8) -> (child:
    PartialMeldInterpretation)
    requires
        partial.size_ok(),
        t == suit_first(partial.remaining_tile_count_array@),
        t < 27,
        suit_choices(partial.remaining_tile_count_array@, t as int).contains(k),
    ensures
        child.size_ok(),
        child.completions() == prefix_with(
            groups_model(partial.groups@).push((k, t as int)),
            suit_interpretations(remove_shape(partial.remaining_tile_count_array@, k, t as int)),
        ),
        count_sum(child.remaining_tile_count_array@) < count_sum(
            partial.remaining_tile_count_array@,
        ),
{
    let ghost rem = partial.remaining_tile_count_array@;
    proof {
        lemma_choice_valid(rem, k);
        lemma_first_nonzero(rem.take(27));
        lemma_count_sum_remove_shape(rem, k, t as int);
        lemma_remove_shape_decreases(rem, k, t as int);
    }
    let remaining = remove_shape_exec(&partial.remaining_tile_count_array, k, t);
    let meld = shape_meld(k, t);
    let mut groups = copy_melds(&partial.groups);
    groups.push(meld);
    proof {
        assert(groups_model(groups@) =~= groups_model(partial.groups@).push((k, t as int))) by {
            assert(meld.tile_ids@[0] == tid(t as int));
        }
        assert forall|i: int| 0 <= i < groups@.len() implies tile_meld_wf(#[trigger] groups@[i]) by {
            if i < partial.groups@.len() {
                assert(tile_meld_wf(partial.groups@[i]));
            }
        }
        assert(g_size(groups_model(groups@)) == g_size(groups_model(partial.groups@)) + shape_size(
            k,
        )) by {
            assert(groups_model(groups@).drop_last() =~= groups_model(partial.groups@));
        }
        assert(honors_zero(remaining@));
    }
    PartialMeldInterpretation { remaining_tile_count_array: remaining, groups: groups }
}

/// A copy of an interpretation.
fn copy_interpretation(h: &HandInterpretation) -> (r: HandInterpretation)
    ensures
        r.total_tile_count_array == h.total_tile_count_array,
        r.model() == h.model(),
        h.wf() ==> r.wf(),
{
    let groups = copy_melds(&h.groups);
    let r = HandInterpretation { total_tile_count_array: h.total_tile_count_array, groups };
    assert(r.model() =~= h.model());
    proof {
        if h.wf() {
            assert forall|i: int| 0 <= i < r.groups@.len() implies tile_meld_wf(
                #[trigger] r.groups@[i],
            ) by {
                assert(tile_meld_wf(h.groups@[i]));
            }
        }
    }
    r
}

/// At most six kinds of group can start at a tile.
pub proof fn lemma_suit_choices_len(c: Seq<u8>, t: int)
    ensures
        1 <= suit_choices(c, t).len() <= 6,
{
}

/// The completions of a state after a group of kind `k` at tile `t` is taken out.
pub open spec fn choice_block(
    rem: Seq<u8>,
    pgs: Seq<(MeldType, int)>,
    t: int,
    k: MeldType,
) -> Seq<Seq<(MeldType, int)>> {
    prefix_with(pgs.push((k, t)), suit_interpretations(remove_shape(rem, k, t)))
}

/// Adding a sound state to the front or the back of the queue keeps the queue sound, keeps
/// what it covered, covers the new state's completions, and adds the new state's weight.
pub proof fn lemma_queue_add(
    q: Seq<PartialMeldInterpretation>,
    new_q: Seq<PartialMeldInterpretation>,
    y: PartialMeldInterpretation,
    comps: Seq<Seq<(MeldType, int)>>,
)
    requires
        new_q == seq![y] + q || new_q == q.push(y),
        state_sound(y, comps),
        forall|i: int| 0 <= i < q.len() ==> state_sound(#[trigger] q[i], comps),
    ensures
        forall|i: int| 0 <= i < new_q.len() ==> state_sound(#[trigger] new_q[i], comps),
        forall|x: Seq<(MeldType, int)>| queue_covers(q, x) ==> #[trigger] queue_covers(new_q, x),
        forall|x: Seq<(MeldType, int)>|
            y.completions().contains(x) ==> #[trigger] queue_covers(new_q, x),
        qweight(new_q) == qweight(q) + pow8(count_sum(y.remaining_tile_count_array@)),
{
    lemma_qweight_front(y, q);
    assert(q.push(y).drop_last() =~= q);
    assert forall|x: Seq<(MeldType, int)>| y.completions().contains(x) implies #[trigger] queue_covers(
        new_q,
        x,
    ) by {
        if new_q == seq![y] + q {
            assert(new_q[0] == y);
        } else {
            assert(new_q[q.len() as int] == y);
        }
    }
    assert forall|x: Seq<(MeldType, int)>| queue_covers(q, x) implies #[trigger] queue_covers(
        new_q,
        x,
    ) by {
        let i = choose|i: int| 0 <= i < q.len() && (#[trigger] q[i]).completions().contains(x);
        if new_q == seq![y] + q {
            assert(new_q[i + 1] == q[i]);
        } else {
            assert(new_q[i] == q[i]);
        }
    }
    assert forall|i: int| 0 <= i < new_q.len() implies state_sound(#[trigger] new_q[i], comps) by {
        if new_q == seq![y] + q {
            if i > 0 {
                assert(new_q[i] == q[i - 1]);
            }
        } else {
            if i < q.len() {
                assert(new_q[i] == q[i]);
            }
        }
    }
}

/// Puts into the queue every state that follows from `partial` by taking out one kind of group
/// at its lowest numbered tile `t`, triplets and pairs first, single tiles last.
#[verifier::rlimit(60)]
fn expand_state(
    queue: &mut VecDeque<PartialMeldInterpretation>,
    partial: &PartialMeldInterpretation,
    t: u8,
    Ghost(comps): Ghost<Seq<Seq<(MeldType, int)>>>,
)
    requires
        state_sound(*partial, comps),
        t == suit_first(partial.remaining_tile_count_array@),
        t < 27,
        forall|i: int| 0 <= i < old(queue)@.len() ==> state_sound(#[trigger] old(queue)@[i], comps),
    ensures
        forall|i: int| 0 <= i < final(queue)@.len() ==> state_sound(#[trigger] final(queue)@[i], comps),
        forall|x: Seq<(MeldType, int)>|
            queue_covers(old(queue)@, x) ==> #[trigger] queue_covers(final(queue)@, x),
        forall|x: Seq<(MeldType, int)>|
            partial.completions().contains(x) ==> #[trigger] queue_covers(final(queue)@, x),
        qweight(final(queue)@) < qweight(old(queue)@) + pow8(
            count_sum(partial.remaining_tile_count_array@),
        ),
{
    let tile_count_array = partial.remaining_tile_count_array;
    let choices = suit_choice_list(&tile_count_array, t);
    let ghost ks = choices@;
    let ghost rem = tile_count_array@;
    let ghost pgs = groups_model(partial.groups@);
    let ghost n = count_sum(rem);
    let ghost q0 = queue@;
    proof {
        lemma_suit_choices_len(rem, t as int);
        lemma_first_nonzero(rem.take(27));
        assert(rem[t as int] == rem.take(27)[t as int]);
        lemma_count_sum_zero(rem, t as int);
        assert(suit_interpretations(rem) == suit_interpretations_via(rem, t as int, ks));
        assert forall|m: int, x: Seq<(MeldType, int)>|
            0 <= m < ks.len() && #[trigger] choice_block(rem, pgs, t as int, ks[m]).contains(
                x,
            ) implies comps.contains(x) by {
            lemma_via_members(rem, t as int, ks, pgs, x);
            assert(partial.completions().contains(x));
        }
    }
    let mut j = choices.len();
    while j > 0
        invariant
            j <= ks.len(),
            ks == choices@,
            ks == suit_choices(rem, t as int),
            ks.len() <= 6,
            rem == partial.remaining_tile_count_array@,
            pgs == groups_model(partial.groups@),
            t == suit_first(rem),
            0 <= t < 27,
            rem.len() == 34,
            rem[t as int] >= 1,
            n == count_sum(rem),
            n >= 1,
            state_sound(*partial, comps),
            forall|m: int, x: Seq<(MeldType, int)>|
                0 <= m < ks.len() && #[trigger] choice_block(rem, pgs, t as int, ks[m]).contains(x)
                    ==> comps.contains(x),
            forall|i: int| 0 <= i < queue@.len() ==> state_sound(#[trigger] queue@[i], comps),
            forall|x: Seq<(MeldType, int)>| queue_covers(q0, x) ==> #[trigger] queue_covers(queue@, x),
            forall|m: int, x: Seq<(MeldType, int)>|
                j <= m < ks.len() && #[trigger] choice_block(rem, pgs, t as int, ks[m]).contains(x)
                    ==> queue_covers(queue@, x),
            qweight(queue@) <= qweight(q0) + (ks.len() - j) * pow8(n - 1),
        decreases j,
    {
        j -= 1;
        let k = choices[j];
        proof {
            assert(ks[j as int] == k);
        }
        let child = make_child(partial, k, t);
        let ghost q_before = queue@;
        proof {
            lemma_count_sum_nonneg(child.remaining_tile_count_array@);
            lemma_pow8_mono(count_sum(child.remaining_tile_count_array@), n - 1);
            assert(child.completions() == choice_block(rem, pgs, t as int, k));
            assert forall|x: Seq<(MeldType, int)>| #[trigger]
                child.completions().contains(x) implies comps.contains(x) by {
                assert(choice_block(rem, pgs, t as int, ks[j as int]).contains(x));
            }
        }
        add_to_queue(queue, child);
        proof {
            lemma_queue_add(q_before, queue@, child, comps);
            assert((ks.len() - j) * pow8(n - 1) == (ks.len() - (j + 1)) * pow8(n - 1) + pow8(n - 1))
                by (nonlinear_arith);
        }
    }
    proof {
        assert(pow8(n) == 8 * pow8(n - 1));
        lemma_pow8_positive(n - 1);
        assert(ks.len() * pow8(n - 1) <= 6 * pow8(n - 1)) by (nonlinear_arith)
            requires
                ks.len() <= 6,
                pow8(n - 1) >= 1,
        ;
        assert forall|x: Seq<(MeldType, int)>| partial.completions().contains(
            x,
        ) implies #[trigger] queue_covers(queue@, x) by {
            assert(partial.completions() == prefix_with(pgs, suit_interpretations_via(rem, t as int, ks)));
            lemma_via_members(rem, t as int, ks, pgs, x);
            let m = choose|m: int|
                0 <= m < ks.len() && #[trigger] prefix_with(
                    pgs.push((ks[m], t as int)),
                    suit_interpretations(remove_shape(rem, ks[m], t as int)),
                ).contains(x);
            assert(choice_block(rem, pgs, t as int, ks[m]).contains(x));
        }
    }
}

/// Some interpretation of the list has the group models `x`.
pub open spec fn holds_model(rs: Seq<HandInterpretation>, x: Seq<(MeldType, int)>) -> bool {
    exists|k: int| 0 <= k < rs.len() && (#[trigger] rs[k]).model() == x
}

pub proof fn lemma_holds_model_push(rs: Seq<HandInterpretation>, y: HandInterpretation)
    ensures
        forall|x: Seq<(MeldType, int)>| holds_model(rs, x) ==> #[trigger] holds_model(rs.push(y), x),
        holds_model(rs.push(y), y.model()),
{
    assert forall|x: Seq<(MeldType, int)>| holds_model(rs, x) implies #[trigger] holds_model(
        rs.push(y),
        x,
    ) by {
        let k = choose|k: int| 0 <= k < rs.len() && (#[trigger] rs[k]).model() == x;
        assert(rs.push(y)[k] == rs[k]);
    }
    assert(rs.push(y)[rs.len() as int] == y);
}

pub proof fn lemma_qweight_nonneg(q: Seq<PartialMeldInterpretation>)
    ensures
        qweight(q) >= 0,
    decreases q.len(),
{
    if q.len() > 0 {
        lemma_qweight_nonneg(q.drop_last());
        lemma_pow8_positive(count_sum(q.last().remaining_tile_count_array@));
    }
}

/// The interpretations of the lowest standard shanten among the completions of a state, or
/// none when that shanten is above `shanten_cutoff`: a search that drops every state whose
/// best possible shanten is worse than the best found so far, exploring the states that have
/// grouped the most tiles first.
pub fn get_suit_melds_min_shanten(
    original_tile_count_array: [u8; 34],
    initial_partial_interpretation: PartialMeldInterpretation,
    shanten_cutoff: i8,
) -> (r: Vec<HandInterpretation>)
    requires
        initial_partial_interpretation.size_ok(),
        count_sum(original_tile_count_array@) == 13 || count_sum(original_tile_count_array@) == 14,
    ensures
        ({
            let comps = initial_partial_interpretation.completions();
            let best = min_int(shanten_cutoff as int, min_standard_shanten(comps));
            &&& forall|j: int|
                0 <= j < r@.len() ==> {
                    &&& interp_ok(#[trigger] r@[j])
                    &&& r@[j].total_tile_count_array == original_tile_count_array
                    &&& comps.contains(r@[j].model())
                    &&& g_standard_shanten(r@[j].model()) == best
                }
            &&& forall|x: Seq<(MeldType, int)>|
                #[trigger] comps.contains(x) && g_standard_shanten(x) == best ==> exists|j: int|
                    0 <= j < r@.len() && r@[j].model() == x
            &&& min_standard_shanten(comps) <= shanten_cutoff ==> r@.len() > 0
        }),
{
    let ghost comps = initial_partial_interpretation.completions();
    proof {
        broadcast use vstd::std_specs::vecdeque::axiom_spec_len;
        lemma_suit_interpretations_nonempty(
            initial_partial_interpretation.remaining_tile_count_array@,
        );
        lemma_min_standard_shanten(comps);
    }
    let mut queue: VecDeque<PartialMeldInterpretation> = VecDeque::new();
    let ghost init = initial_partial_interpretation;
    queue.push_back(initial_partial_interpretation);
    let mut found: Vec<HandInterpretation> = Vec::new();
    let mut found_shanten: Vec<i8> = Vec::new();
    let mut best_shanten_so_far = shanten_cutoff;
    proof {
        assert(queue@[0] == init);
        assert forall|x: Seq<(MeldType, int)>| #[trigger]
            comps.contains(x) implies queue_covers(queue@, x) by {
            assert(queue@[0].completions().contains(x));
        }
    }
    while queue.len() > 0
        invariant
            count_sum(original_tile_count_array@) == 13 || count_sum(original_tile_count_array@)
                == 14,
            forall|i: int| 0 <= i < queue@.len() ==> state_sound(#[trigger] queue@[i], comps),
            found@.len() == found_shanten@.len(),
            forall|j: int|
                0 <= j < found@.len() ==> {
                    &&& interp_ok(#[trigger] found@[j])
                    &&& found@[j].total_tile_count_array == original_tile_count_array
                    &&& comps.contains(found@[j].model())
                    &&& found_shanten@[j] == g_standard_shanten(found@[j].model())
                    &&& best_shanten_so_far <= found_shanten@[j]
                },
            best_shanten_so_far <= shanten_cutoff,
            best_shanten_so_far == shanten_cutoff || exists|j: int|
                0 <= j < found@.len() && found_shanten@[j] == best_shanten_so_far,
            forall|x: Seq<(MeldType, int)>|
                #[trigger] comps.contains(x) && g_standard_shanten(x) <= best_shanten_so_far ==> (
                exists|j: int| 0 <= j < found@.len() && found@[j].model() == x) || queue_covers(
                    queue@,
                    x,
                ),
        decreases qweight(queue@),
    {
        let ghost q_old = queue@;
        let partial = queue.pop_front().unwrap();
        let ghost q_rest = queue@;
        proof {
            assert(q_old == seq![partial] + q_rest);
            lemma_qweight_front(partial, q_rest);
            lemma_pow8_positive(count_sum(partial.remaining_tile_count_array@));
            assert(state_sound(q_old[0], comps));
            assert forall|i: int| 0 <= i < q_rest.len() implies state_sound(
                #[trigger] q_rest[i],
                comps,
            ) by {
                assert(q_rest[i] == q_old[i + 1]);
            }
        }
        let best_possible_shanten = partial.best_possible_shanten();
        if best_possible_shanten > best_shanten_so_far {
            // cannot make a hand with a shanten at least as good as the best so far
            proof {
                assert forall|x: Seq<(MeldType, int)>| #[trigger]
                    comps.contains(x) && g_standard_shanten(x) <= best_shanten_so_far implies (
                exists|j: int| 0 <= j < found@.len() && found@[j].model() == x) || queue_covers(
                    queue@,
                    x,
                ) by {
                    if !(exists|j: int| 0 <= j < found@.len() && found@[j].model() == x) {
                        lemma_covers_pop(q_old, x);
                        if partial.completions().contains(x) {
                            lemma_completion_bound(partial, x);
                        }
                    }
                }
                assert(qweight(queue@) < qweight(q_old));
                lemma_qweight_nonneg(queue@);
            }
            continue;
        }
        let tile_count_array = partial.remaining_tile_count_array;
        let t = find_first_suit_tile(&tile_count_array);
        if t == 27 {
            // every tile is grouped: a complete interpretation
            let ghost gs = groups_model(partial.groups@);
            proof {
                assert(partial.completions() =~= seq![gs]) by {
                    assert(gs + seq![] =~= gs);
                }
                assert(partial.completions().contains(gs)) by {
                    assert(partial.completions()[0] == gs);
                }
                lemma_count_sum_nonneg(partial.remaining_tile_count_array@);
                lemma_group_counts_bound(gs);
            }
            let new_hand_interpretation = HandInterpretation {
                total_tile_count_array: original_tile_count_array,
                groups: partial.groups,
            };
            let new_interpretation_standard_shanten =
                new_hand_interpretation.get_standard_shanten();
            if new_interpretation_standard_shanten < best_shanten_so_far {
                best_shanten_so_far = new_interpretation_standard_shanten;
            }
            let ghost found_old = found@;
            let ghost found_shanten_old = found_shanten@;
            found.push(new_hand_interpretation);
            found_shanten.push(new_interpretation_standard_shanten);
            proof {
                assert(found@[found_old.len() as int] == new_hand_interpretation);
                assert forall|j: int| 0 <= j < found@.len() implies {
                    &&& interp_ok(#[trigger] found@[j])
                    &&& found@[j].total_tile_count_array == original_tile_count_array
                    &&& comps.contains(found@[j].model())
                    &&& found_shanten@[j] == g_standard_shanten(found@[j].model())
                    &&& best_shanten_so_far <= found_shanten@[j]
                } by {
                    if j < found_old.len() {
                        assert(found@[j] == found_old[j]);
                    }
                }
                assert forall|x: Seq<(MeldType, int)>| #[trigger]
                    comps.contains(x) && g_standard_shanten(x) <= best_shanten_so_far implies (
                exists|j: int| 0 <= j < found@.len() && found@[j].model() == x) || queue_covers(
                    queue@,
                    x,
                ) by {
                    if exists|j: int| 0 <= j < found_old.len() && found_old[j].model() == x {
                        let j = choose|j: int|
                            0 <= j < found_old.len() && found_old[j].model() == x;
                        assert(found@[j] == found_old[j]);
                    } else {
                        lemma_covers_pop(q_old, x);
                        if partial.completions().contains(x) {
                            let i = choose|i: int|
                                0 <= i < partial.completions().len()
                                    && partial.completions()[i] == x;
                            assert(found@[found_old.len() as int].model() == x);
                        }
                    }
                }
                if best_shanten_so_far != shanten_cutoff {
                    if best_shanten_so_far == new_interpretation_standard_shanten {
                        assert(found_shanten@[found_old.len() as int] == best_shanten_so_far);
                    } else {
                        let j = choose|j: int|
                            0 <= j < found_old.len() && found_shanten_old[j]
                                == best_shanten_so_far;
                        assert(found_shanten@[j] == found_shanten_old[j]);
                    }
                }
                assert(qweight(queue@) < qweight(q_old));
                lemma_qweight_nonneg(queue@);
            }
            continue;
        }
        // break out every kind of group at the lowest remaining tile
        let ghost q_mid = queue@;
        expand_state(&mut queue, &partial, t, Ghost(comps));
        proof {
            assert forall|x: Seq<(MeldType, int)>| #[trigger]
                comps.contains(x) && g_standard_shanten(x) <= best_shanten_so_far implies (
            exists|j: int| 0 <= j < found@.len() && found@[j].model() == x) || queue_covers(
                queue@,
                x,
            ) by {
                if !(exists|j: int| 0 <= j < found@.len() && found@[j].model() == x) {
                    lemma_covers_pop(q_old, x);
                }
            }
            assert(qweight(queue@) < qweight(q_old));
            lemma_qweight_nonneg(queue@);
        }
    }
    // the interpretations found with the best shanten
    let mut result: Vec<HandInterpretation> = Vec::new();
    let mut j: usize = 0;
    while j < found.len()
        invariant
            j <= found@.len(),
            found@.len() == found_shanten@.len(),
            forall|i: int|
                0 <= i < found@.len() ==> {
                    &&& interp_ok(#[trigger] found@[i])
                    &&& found@[i].total_tile_count_array == original_tile_count_array
                    &&& comps.contains(found@[i].model())
                    &&& found_shanten@[i] == g_standard_shanten(found@[i].model())
                },
            forall|i: int|
                0 <= i < result@.len() ==> {
                    &&& interp_ok(#[trigger] result@[i])
                    &&& result@[i].total_tile_count_array == original_tile_count_array
                    &&& comps.contains(result@[i].model())
                    &&& g_standard_shanten(result@[i].model()) == best_shanten_so_far
                },
            forall|i: int|
                0 <= i < j && found_shanten@[i] == best_shanten_so_far ==> holds_model(
                    result@,
                    (#[trigger] found@[i]).model(),
                ),
        decreases found@.len() - j,
    {
        let ghost result_old = result@;
        if found_shanten[j] == best_shanten_so_far {
            let copy = copy_interpretation(&found[j]);
            result.push(copy);
            proof {
                lemma_holds_model_push(result_old, copy);
                assert(interp_ok(found@[j as int]));
                assert(result@[result_old.len() as int] == copy);
                assert forall|i: int| 0 <= i < result@.len() implies {
                    &&& interp_ok(#[trigger] result@[i])
                    &&& result@[i].total_tile_count_array == original_tile_count_array
                    &&& comps.contains(result@[i].model())
                    &&& g_standard_shanten(result@[i].model()) == best_shanten_so_far
                } by {
                    if i < result_old.len() {
                        assert(result@[i] == result_old[i]);
                    }
                }
            }
        }
        j += 1;
    }
    proof {
        let m = min_standard_shanten(comps);
        // no completion beats the best shanten found
        assert forall|x: Seq<(MeldType, int)>| #[trigger] comps.contains(x) implies g_standard_shanten(x)
            >= best_shanten_so_far by {
            if g_standard_shanten(x) < best_shanten_so_far {
                let j = choose|j: int| 0 <= j < found@.len() && found@[j].model() == x;
                assert(best_shanten_so_far <= found_shanten@[j]);
            }
        }
        let x0 = comps[0];
        assert(comps.contains(x0));
        if best_shanten_so_far != shanten_cutoff {
            let j = choose|j: int| 0 <= j < found@.len() && found_shanten@[j] == best_shanten_so_far;
            assert(comps.contains(found@[j].model()));
            let jj = choose|jj: int| 0 <= jj < comps.len() && comps[jj] == found@[j].model();
            assert(m <= g_standard_shanten(comps[jj]));
        }
        if m != 8 {
            let i = choose|i: int| 0 <= i < comps.len() && g_standard_shanten(#[trigger] comps[i]) == m;
            assert(comps.contains(comps[i]));
        } else {
            assert(g_standard_shanten(x0) >= m);
            lemma_group_counts_bound(x0);
            lemma_shanten_formula_at_most_8(
                g_num_complete(x0),
                g_num_incomplete(x0),
                g_pair_ids(x0).len() > 0,
            );
        }
        assert forall|x: Seq<(MeldType, int)>| #[trigger] comps.contains(x) && g_standard_shanten(x)
            == min_int(shanten_cutoff as int, m) implies exists|j: int|
            0 <= j < result@.len() && result@[j].model() == x by {
            let j = choose|j: int| 0 <= j < found@.len() && found@[j].model() == x;
            assert(found_shanten@[j] == best_shanten_so_far);
            assert(holds_model(result@, found@[j].model()));
        }
        if m <= shanten_cutoff {
            if m != 8 {
                let i = choose|i: int| 0 <= i < comps.len() && g_standard_shanten(#[trigger] comps[i]) == m;
                assert(comps.contains(comps[i]));
                assert(g_standard_shanten(comps[i]) == min_int(shanten_cutoff as int, m));
            } else {
                assert(g_standard_shanten(x0) == min_int(shanten_cutoff as int, m));
            }
        }
    }
    result
}

/// The honor groups below `h` hold exactly the honor tiles taken out of the counts below `h`.
pub proof fn lemma_honor_split(c: Seq<u8>, h: int)
    requires
        c.len() == 34,
        27 <= h <= 34,
        honors_at_most_four(c),
    ensures
        g_size(honor_groups_upto(c, h)) + count_sum(
            Seq::new(
                34,
                |i: int|
                    if 27 <= i < h {
                        0u8
                    } else {
                        c[i]
                    },
            ),
        ) == count_sum(c),
    decreases h,
{
    let z = Seq::new(
        34,
        |i: int|
            if 27 <= i < h {
                0u8
            } else {
                c[i]
            },
    );
    if h == 27 {
        assert(z =~= c);
    } else {
        lemma_honor_split(c, h - 1);
        let z1 = Seq::new(
            34,
            |i: int|
                if 27 <= i < h - 1 {
                    0u8
                } else {
                    c[i]
                },
        );
        lemma_count_sum_update(z1, h - 1, 0);
        assert(z1.update(h - 1, 0) =~= z);
        let a = honor_groups_upto(c, h - 1);
        let b = if c[h - 1] > 0 {
            seq![(honor_kind(c[h - 1] as int), h - 1)]
        } else {
            seq![]
        };
        lemma_g_size_append(a, b);
        assert(c[h - 1] <= 4);
        if c[h - 1] > 0 {
            assert(g_size(b) == g_size(b.drop_last()) + shape_size(b.last().0));
            assert(b.drop_last() =~= Seq::<(MeldType, int)>::empty());
        }
    }
}

/// The interpretations of a hand with the lowest standard shanten, or none when that shanten is
/// above `shanten_cutoff` (see `get_suit_melds_min_shanten`).
pub fn get_hand_interpretations_min_shanten(tile_count_array: [u8; 34], shanten_cutoff: i8) -> (r:
    Vec<HandInterpretation>)
    requires
        honors_at_most_four(tile_count_array@),
        count_sum(tile_count_array@) == 13 || count_sum(tile_count_array@) == 14,
    ensures
        ({
            let comps = hand_interpretations(tile_count_array@);
            let best = min_int(shanten_cutoff as int, min_standard_shanten(comps));
            &&& forall|j: int|
                0 <= j < r@.len() ==> {
                    &&& interp_ok(#[trigger] r@[j])
                    &&& r@[j].total_tile_count_array == tile_count_array
                    &&& comps.contains(r@[j].model())
                    &&& g_standard_shanten(r@[j].model()) == best
                }
            &&& forall|x: Seq<(MeldType, int)>|
                #[trigger] comps.contains(x) && g_standard_shanten(x) == best ==> exists|j: int|
                    0 <= j < r@.len() && r@[j].model() == x
            &&& min_standard_shanten(comps) <= shanten_cutoff ==> r@.len() > 0
        }),
{
    let ghost c = tile_count_array@;
    let mut honor_tile_melds: Vec<TileMeld> = Vec::new();
    // start with the honor tiles: all copies of each honor tile must build one group
    let mut updated_tile_count_array = tile_count_array;
    let mut tile_id: u8 = FIRST_HONOR_ID;
    while tile_id < 34
        invariant
            27 <= tile_id <= 34,
            c == tile_count_array@,
            honors_at_most_four(c),
            melds_match(honor_tile_melds@, honor_groups_upto(c, tile_id as int)),
            updated_tile_count_array@ == Seq::new(
                34,
                |i: int|
                    if 27 <= i < tile_id {
                        0u8
                    } else {
                        c[i]
                    },
            ),
        decreases 34 - tile_id,
    {
        let tile_idx = tile_id as usize;
        let honor_tile_count = tile_count_array[tile_idx];
        let ghost before = honor_tile_melds@;
        if honor_tile_count > 0 {
            let kind = if honor_tile_count == 1 {
                MeldType::SingleTile
            } else if honor_tile_count == 2 {
                MeldType::Pair
            } else if honor_tile_count == 3 {
                MeldType::Triplet
            } else {
                MeldType::Quadruplet
            };
            assert(c[tile_idx as int] <= 4);
            assert(kind == honor_kind(c[tile_idx as int] as int));
            let new_meld = shape_meld(kind, tile_id);
            honor_tile_melds.push(new_meld);
            proof {
                lemma_melds_match_append(
                    before,
                    seq![new_meld],
                    honor_groups_upto(c, tile_id as int),
                    seq![(kind, tile_id as int)],
                );
                assert(before + seq![new_meld] =~= honor_tile_melds@);
            }
        } else {
            assert(honor_groups_upto(c, tile_id + 1) =~= honor_groups_upto(c, tile_id as int));
        }
        updated_tile_count_array[tile_idx] = 0;
        tile_id += 1;
    }
    let ghost hg = honor_groups_upto(c, 34);
    proof {
        assert(updated_tile_count_array@ =~= zero_honors(c));
        lemma_honor_groups_range(c, 34);
        lemma_melds_match_model(honor_tile_melds@, hg);
        lemma_honor_split(c, 34);
        assert(honors_zero(updated_tile_count_array@));
    }
    // all interpretations follow from this starting point
    let partial_hand_interpretation = PartialMeldInterpretation {
        remaining_tile_count_array: updated_tile_count_array,
        groups: honor_tile_melds,
    };
    assert(partial_hand_interpretation.completions() == hand_interpretations(c));
    get_suit_melds_min_shanten(tile_count_array, partial_hand_interpretation, shanten_cutoff)
}

pub proof fn lemma_special_shanten_bound(c: Seq<u8>)
    ensures
        spec_chiitoi_shanten(c) <= 6,
{
    lemma_num_pairs_nonneg(c, 34);
}

pub proof fn lemma_num_pairs_nonneg(c: Seq<u8>, n: int)
    ensures
        num_pairs_upto(c, n) >= 0,
    decreases n,
{
    if n > 0 {
        lemma_num_pairs_nonneg(c, n - 1);
    }
}

/// The standard shanten of the interpretations kept by the search is the lowest standard
/// shanten of the hand, unless that is above the cutoff; then none is kept.
proof fn lemma_min_search_standard(
    c: Seq<u8>,
    cutoff: int,
    his: Seq<HandInterpretation>,
)
    requires
        cutoff <= 6,
        forall|j: int|
            0 <= j < his.len() ==> hand_interpretations(c).contains((#[trigger] his[j]).model())
                && g_standard_shanten(his[j].model()) == min_int(
                cutoff,
                spec_standard_shanten(c),
            ),
        forall|x: Seq<(MeldType, int)>|
            #[trigger] hand_interpretations(c).contains(x) && g_standard_shanten(x) == min_int(
                cutoff,
                spec_standard_shanten(c),
            ) ==> exists|j: int| 0 <= j < his.len() && his[j].model() == x,
    ensures
        spec_standard_shanten(c) <= cutoff ==> min_standard_shanten(interps_model(his))
            == spec_standard_shanten(c),
        spec_standard_shanten(c) > cutoff ==> his.len() == 0,
{
    let hi = hand_interpretations(c);
    let m = spec_standard_shanten(c);
    let gss = interps_model(his);
    lemma_min_standard_shanten(hi);
    lemma_min_standard_shanten(gss);
    if m <= cutoff {
        // a best interpretation exists, and is kept
        let i = choose|i: int| 0 <= i < hi.len() && g_standard_shanten(#[trigger] hi[i]) == m;
        assert(hi.contains(hi[i]));
        let j = choose|j: int| 0 <= j < his.len() && his[j].model() == hi[i];
        assert(gss[j] == his[j].model());
        assert forall|k: int| 0 <= k < gss.len() implies g_standard_shanten(#[trigger] gss[k]) == m by {
            assert(gss[k] == his[k].model());
        }
    } else {
        if his.len() > 0 {
            let x = his[0].model();
            let i = choose|i: int| 0 <= i < hi.len() && hi[i] == x;
            assert(m <= g_standard_shanten(hi[i]));
        }
    }
}

/// The shanten of a hand of 13 or 14 tiles (see `spec_shanten`), from only the interpretations
/// that can still beat the seven-pairs and thirteen-orphans shanten.
pub fn get_shanten_optimized(tile_count_array: [u8; 34]) -> (r: i8)
    requires
        honors_at_most_four(tile_count_array@),
        count_sum(tile_count_array@) == 13 || count_sum(tile_count_array@) == 14,
    ensures
        r == spec_shanten(tile_count_array@),
{
    let chiitoi_shanten = get_chiitoi_shanten(tile_count_array);
    let kokushi_shanten = get_kokushi_shanten(tile_count_array);
    let mut shanten = if chiitoi_shanten < kokushi_shanten {
        chiitoi_shanten
    } else {
        kokushi_shanten
    };
    proof {
        lemma_special_shanten_bound(tile_count_array@);
    }
    let interpretations = get_hand_interpretations_min_shanten(tile_count_array, shanten);
    proof {
        lemma_min_search_standard(tile_count_array@, shanten as int, interpretations@);
    }
    let standard_shanten = get_shanten_helper(&interpretations);
    if standard_shanten < shanten {
        shanten = standard_shanten;
    }
    shanten
}

pub proof fn lemma_add_new_contains(acc: Seq<MahjongTileId>, xs: Seq<MahjongTileId>, x: MahjongTileId)
    ensures
        add_new(acc, xs).contains(x) <==> acc.contains(x) || xs.contains(x),
    decreases xs.len(),
{
    if xs.len() > 0 {
        let a1 = add_one(acc, xs[0]);
        lemma_add_new_contains(a1, xs.drop_first(), x);
        if acc.contains(x) {
            let i = choose|i: int| 0 <= i < acc.len() && acc[i] == x;
            if !acc.contains(xs[0]) {
                assert(a1[i] == x);
            }
        }
        if a1.contains(x) && !acc.contains(x) {
            assert(x == xs[0]);
        }
        if xs.contains(x) {
            let i = choose|i: int| 0 <= i < xs.len() && xs[i] == x;
            if i > 0 {
                assert(xs.drop_first()[i - 1] == x);
            } else {
                if !acc.contains(xs[0]) {
                    assert(a1[acc.len() as int] == x);
                }
            }
        }
        if xs.drop_first().contains(x) {
            let i = choose|i: int| 0 <= i < xs.drop_first().len() && xs.drop_first()[i] == x;
            assert(xs[i + 1] == x);
        }
    }
}

pub proof fn lemma_helper_contains(
    gss: Seq<Seq<(MeldType, int)>>,
    shanten: int,
    i: int,
    acc: Seq<MahjongTileId>,
    x: MahjongTileId,
)
    requires
        0 <= i,
    ensures
        ukiere_helper_from(gss, shanten, i, acc).contains(x) <==> acc.contains(x) || exists|j: int|
            i <= j < gss.len() && g_standard_shanten(#[trigger] gss[j]) == shanten
                && spec_interp_ukiere(gss[j]).contains(x),
    decreases gss.len() - i,
{
    if i < gss.len() {
        let acc1 = if g_standard_shanten(gss[i]) == shanten {
            add_new(acc, spec_interp_ukiere(gss[i]))
        } else {
            acc
        };
        lemma_helper_contains(gss, shanten, i + 1, acc1, x);
        lemma_add_new_contains(acc, spec_interp_ukiere(gss[i]), x);
    }
}

/// The tiles that lower the shanten of a hand (the tiles of `spec_ukiere`, each once), from
/// only the interpretations that can still beat the seven-pairs and thirteen-orphans shanten.
pub fn get_ukiere_optimized(tile_count_array: [u8; 34]) -> (r: Vec<MahjongTileId>)
    requires
        honors_at_most_four(tile_count_array@),
        ukiere_defined(tile_count_array@),
    ensures
        forall|x: MahjongTileId| r@.contains(x) <==> spec_ukiere(tile_count_array@).contains(x),
        r@.no_duplicates(),
{
    let ghost c = tile_count_array@;
    let chiitoi_shanten = get_chiitoi_shanten(tile_count_array);
    let kokushi_shanten = get_kokushi_shanten(tile_count_array);
    let special_shanten = if chiitoi_shanten < kokushi_shanten {
        chiitoi_shanten
    } else {
        kokushi_shanten
    };
    proof {
        lemma_special_shanten_bound(c);
    }
    let interpretations = get_hand_interpretations_min_shanten(tile_count_array, special_shanten);
    let ghost gss = interps_model(interpretations@);
    let ghost hi = hand_interpretations(c);
    let ghost m = spec_standard_shanten(c);
    proof {
        lemma_min_search_standard(c, special_shanten as int, interpretations@);
        assert forall|j: int| 0 <= j < interpretations@.len() implies interp_ok(
            #[trigger] interpretations@[j],
        ) by {}
    }
    let standard_shanten = get_shanten_helper(&interpretations);
    proof {
        if m <= special_shanten {
            assert forall|j: int| 0 <= j < interpretations@.len() implies interp_ukiere_ok(
                #[trigger] interpretations@[j],
                standard_shanten as int,
            ) by {}
        }
    }
    let r = generate_ukiere_tiles(
        tile_count_array,
        standard_shanten,
        chiitoi_shanten,
        kokushi_shanten,
        &interpretations,
    );
    proof {
        let mn = min_int(min_int(chiitoi_shanten as int, kokushi_shanten as int), standard_shanten as int);
        let e: Seq<MahjongTileId> = seq![];
        let a = if standard_shanten == mn {
            add_new(e, ukiere_helper_from(gss, standard_shanten as int, 0, seq![]))
        } else {
            e
        };
        lemma_add_new_no_duplicates(e, ukiere_helper_from(gss, standard_shanten as int, 0, seq![]));
        lemma_add_new_no_duplicates(a, singles_upto(c, 34));
        let b = if chiitoi_shanten == mn {
            add_new(a, singles_upto(c, 34))
        } else {
            a
        };
        lemma_add_new_no_duplicates(b, spec_kokushi_ukiere(c));
        assert(r@.no_duplicates());
        assert forall|x: MahjongTileId| r@.contains(x) <==> spec_ukiere(c).contains(x) by {
            if m <= special_shanten {
                let sp = min_int(spec_chiitoi_shanten(c), spec_kokushi_shanten(c));
                lemma_helper_contains(gss, m, 0, seq![], x);
                lemma_helper_contains(hi, m, 0, seq![], x);
                lemma_add_new_contains(seq![], ukiere_helper_from(gss, m, 0, seq![]), x);
                lemma_add_new_contains(seq![], ukiere_helper_from(hi, m, 0, seq![]), x);
                let a1 = add_new(seq![], ukiere_helper_from(gss, m, 0, seq![]));
                let a2 = add_new(seq![], ukiere_helper_from(hi, m, 0, seq![]));
                // the kept interpretations give the same standard-shape ukiere tiles
                if exists|j: int|
                    0 <= j < gss.len() && g_standard_shanten(#[trigger] gss[j]) == m
                        && spec_interp_ukiere(gss[j]).contains(x) {
                    let j = choose|j: int|
                        0 <= j < gss.len() && g_standard_shanten(#[trigger] gss[j]) == m
                            && spec_interp_ukiere(gss[j]).contains(x);
                    assert(gss[j] == interpretations@[j].model());
                    assert(hi.contains(gss[j]));
                    let i = choose|i: int| 0 <= i < hi.len() && hi[i] == gss[j];
                    assert(g_standard_shanten(hi[i]) == m);
                }
                if exists|i: int|
                    0 <= i < hi.len() && g_standard_shanten(#[trigger] hi[i]) == m
                        && spec_interp_ukiere(hi[i]).contains(x) {
                    let i = choose|i: int|
                        0 <= i < hi.len() && g_standard_shanten(#[trigger] hi[i]) == m
                            && spec_interp_ukiere(hi[i]).contains(x);
                    assert(hi.contains(hi[i]));
                    let j = choose|j: int|
                        0 <= j < interpretations@.len() && interpretations@[j].model() == hi[i];
                    assert(gss[j] == hi[i]);
                }
                assert(a1.contains(x) == a2.contains(x));
                let b1 = if spec_chiitoi_shanten(c) == min_int(sp, m) {
                    add_new(a1, singles_upto(c, 34))
                } else {
                    a1
                };
                let b2 = if spec_chiitoi_shanten(c) == min_int(sp, m) {
                    add_new(a2, singles_upto(c, 34))
                } else {
                    a2
                };
                lemma_add_new_contains(a1, singles_upto(c, 34), x);
                lemma_add_new_contains(a2, singles_upto(c, 34), x);
                assert(b1.contains(x) == b2.contains(x));
                lemma_add_new_contains(b1, spec_kokushi_ukiere(c), x);
                lemma_add_new_contains(b2, spec_kokushi_ukiere(c), x);
            }
        }
    }
    r
}

/// The counts with one more copy of a tile.
pub fn add_tile_id_to_count_array(tile_count_array: [u8; 34], new_tile_id: MahjongTileId) -> (r: [u8;
    34])
    requires
        valid_id(new_tile_id.0 as int),
        tile_count_array@[new_tile_id.0 as int] < 255,
    ensures
        r@ == tile_count_array@.update(
            new_tile_id.0 as int,
            (tile_count_array@[new_tile_id.0 as int] + 1) as u8,
        ),
{
    let mut new_count_array = tile_count_array;
    let new_tile_idx = new_tile_id.0 as usize;
    new_count_array[new_tile_idx] = new_count_array[new_tile_idx] + 1;
    new_count_array
}

/// The counts after one copy of tile `t` is taken out (none when it is not held).
pub open spec fn after_discard(c: Seq<u8>, t: int) -> Seq<u8> {
    if c[t] > 0 {
        c.update(t, (c[t] - 1) as u8)
    } else {
        c
    }
}

/// The counts with one copy of a tile taken out, if there is one.
pub fn remove_tile_id_from_count_array(tile_count_array: [u8; 34], discard_tile_id: MahjongTileId)
    -> (r: [u8; 34])
    requires
        valid_id(discard_tile_id.0 as int),
    ensures
        r@ == after_discard(tile_count_array@, discard_tile_id.0 as int),
{
    let mut new_count_array = tile_count_array;
    let discard_tile_idx = discard_tile_id.0 as usize;
    if new_count_array[discard_tile_idx] > 0 {
        new_count_array[discard_tile_idx] = new_count_array[discard_tile_idx] - 1;
    }
    assert(new_count_array@ =~= after_discard(tile_count_array@, discard_tile_id.0 as int));
    new_count_array
}

/// Every tile id of the counts, each as often as it is held, in ascending order.
pub fn tile_count_array_to_tile_ids(tile_count_array: [u8; 34]) -> (r: Vec<MahjongTileId>)
    ensures
        r@ == expand_counts(tile_count_array@),
{
    let mut tile_ids: Vec<MahjongTileId> = Vec::new();
    let mut tile_id: u8 = 0;
    while tile_id < 34
        invariant
            tile_id <= 34,
            tile_ids@ == expand_counts(tile_count_array@.take(tile_id as int)),
        decreases 34 - tile_id,
    {
        let tile_idx = tile_id as usize;
        let ghost before = tile_ids@;
        let count = tile_count_array[tile_idx];
        let mut k: u8 = 0;
        while k < count
            invariant
                k <= count,
                tile_ids@ =~= before + Seq::new(k as nat, |j: int| MahjongTileId(tile_id)),
            decreases count - k,
        {
            tile_ids.push(MahjongTileId(tile_id));
            k += 1;
        }
        assert(tile_count_array@.take(tile_id + 1).drop_last() =~= tile_count_array@.take(
            tile_id as int,
        ));
        tile_id += 1;
    }
    assert(tile_count_array@.take(34) =~= tile_count_array@);
    tile_ids
}

/// Combines tile ids from a hand (in the form of a count array) with other visible tile ids
/// (e.g. discard pools, dora indicator, visible melds from opponents): the other tiles first,
/// then the hand's tiles in ascending order.
pub fn combine_tile_ids_from_count_array_and_vec(
    tile_count_array: [u8; 34],
    tile_ids: &Vec<MahjongTileId>,
) -> (r: Vec<MahjongTileId>)
    ensures
        r@ == tile_ids@ + expand_counts(tile_count_array@),
{
    let mut new_tile_ids = copy_tile_ids(tile_ids);
    let mut hand_tile_ids = tile_count_array_to_tile_ids(tile_count_array);
    new_tile_ids.append(&mut hand_tile_ids);
    new_tile_ids
}

/// How many of the visible tiles are among the target tiles.
pub open spec fn count_visible_in(targets: Seq<MahjongTileId>, visible: Seq<MahjongTileId>) -> int
    decreases visible.len(),
{
    if visible.len() == 0 {
        0
    } else {
        count_visible_in(targets, visible.drop_last()) + if targets.contains(visible.last()) {
            1int
        } else {
            0int
        }
    }
}

/// How many times `x` occurs in `s`.
pub open spec fn occurrences(s: Seq<MahjongTileId>, x: MahjongTileId) -> int
    decreases s.len(),
{
    if s.len() == 0 {
        0
    } else {
        occurrences(s.drop_last(), x) + if s.last() == x {
            1int
        } else {
            0int
        }
    }
}

pub proof fn lemma_visible_counts_prefix(
    targets: Seq<MahjongTileId>,
    s: Seq<MahjongTileId>,
    n: int,
    x: MahjongTileId,
)
    requires
        0 <= n <= s.len(),
    ensures
        0 <= occurrences(s.take(n), x) <= occurrences(s, x),
        0 <= count_visible_in(targets, s.take(n)) <= count_visible_in(targets, s),
    decreases s.len(),
{
    if n < s.len() {
        lemma_visible_counts_prefix(targets, s.drop_last(), n, x);
        assert(s.drop_last().take(n) =~= s.take(n));
    } else {
        assert(s.take(n) =~= s);
        lemma_visible_counts_nonneg(targets, s, x);
    }
}

pub proof fn lemma_visible_counts_nonneg(targets: Seq<MahjongTileId>, s: Seq<MahjongTileId>, x: MahjongTileId)
    ensures
        occurrences(s, x) >= 0,
        count_visible_in(targets, s) >= 0,
    decreases s.len(),
{
    if s.len() > 0 {
        lemma_visible_counts_nonneg(targets, s.drop_last(), x);
    }
}

/// A list of distinct tile ids holds at most 256 of them.
pub proof fn lemma_distinct_ids_len(s: Seq<MahjongTileId>)
    requires
        s.no_duplicates(),
    ensures
        s.len() <= 256,
{
    let m = s.map_values(|x: MahjongTileId| x.0 as int);
    assert forall|i: int, j: int| 0 <= i < m.len() && 0 <= j < m.len() && i != j implies m[i] != m[j] by {
        assert(s[i] != s[j]);
    }
    assert(m.no_duplicates());
    m.unique_seq_to_set();
    vstd::set_lib::lemma_int_range(0, 256);
    assert forall|v: int| m.to_set().contains(v) implies vstd::set_lib::set_int_range(0, 256).contains(v) by {
        let i = choose|i: int| 0 <= i < m.len() && m[i] == v;
    }
    vstd::set_lib::lemma_len_subset(m.to_set(), vstd::set_lib::set_int_range(0, 256));
}

/// Counting the visible tiles among distinct targets, target by target.
proof fn lemma_count_visible_split(targets: Seq<MahjongTileId>, visible: Seq<MahjongTileId>)
    requires
        targets.no_duplicates(),
        targets.len() > 0,
    ensures
        count_visible_in(targets, visible) == count_visible_in(targets.drop_last(), visible)
            + occurrences(visible, targets.last()),
    decreases visible.len(),
{
    if visible.len() > 0 {
        lemma_count_visible_split(targets, visible.drop_last());
        let z = visible.last();
        let d = targets.drop_last();
        if z == targets.last() {
            assert(targets.contains(z)) by {
                assert(targets[targets.len() - 1] == z);
            }
            if d.contains(z) {
                let i = choose|i: int| 0 <= i < d.len() && d[i] == z;
                assert(targets[i] == targets[targets.len() - 1]);
            }
        } else {
            if targets.contains(z) {
                let i = choose|i: int| 0 <= i < targets.len() && targets[i] == z;
                assert(d[i] == z);
            }
            if d.contains(z) {
                let i = choose|i: int| 0 <= i < d.len() && d[i] == z;
                assert(targets[i] == z);
            }
        }
    }
}

/// At most four copies of each of distinct targets are visible, then at most four per target.
pub proof fn lemma_count_visible_bound(targets: Seq<MahjongTileId>, visible: Seq<MahjongTileId>)
    requires
        targets.no_duplicates(),
        forall|x: MahjongTileId| targets.contains(x) ==> #[trigger] occurrences(visible, x) <= 4,
    ensures
        count_visible_in(targets, visible) <= 4 * targets.len(),
    decreases targets.len(),
{
    if targets.len() == 0 {
        assert forall|i: int| 0 <= i <= visible.len() implies count_visible_in(targets, #[trigger] visible.take(i)) == 0 by {
            lemma_count_visible_empty(targets, visible.take(i));
        }
        assert(visible.take(visible.len() as int) =~= visible);
    } else {
        let d = targets.drop_last();
        assert forall|i: int, j: int| 0 <= i < d.len() && 0 <= j < d.len() && i != j implies d[i] != d[j] by {
            assert(d[i] == targets[i] && d[j] == targets[j]);
        }
        assert forall|x: MahjongTileId| d.contains(x) implies #[trigger] occurrences(visible, x) <= 4 by {
            let i = choose|i: int| 0 <= i < d.len() && d[i] == x;
            assert(targets[i] == x);
        }
        lemma_count_visible_bound(d, visible);
        lemma_count_visible_split(targets, visible);
        assert(targets.contains(targets.last())) by {
            assert(targets[targets.len() - 1] == targets.last());
        }
    }
}

proof fn lemma_count_visible_empty(targets: Seq<MahjongTileId>, visible: Seq<MahjongTileId>)
    requires
        targets.len() == 0,
    ensures
        count_visible_in(targets, visible) == 0,
    decreases visible.len(),
{
    if visible.len() > 0 {
        lemma_count_visible_empty(targets, visible.drop_last());
    }
}

/// The visible tiles can all be real: at most four copies of each target tile are visible, and
/// every visible target tile is one of the 34 tiles.
pub open spec fn visible_ok(targets: Seq<MahjongTileId>, visible: Seq<MahjongTileId>) -> bool {
    &&& 4 * targets.len() <= 65535
    &&& count_visible_in(targets, visible) <= 4 * targets.len()
    &&& forall|x: MahjongTileId| targets.contains(x) ==> #[trigger] occurrences(visible, x) <= 4
    &&& forall|i: int|
        0 <= i < visible.len() && targets.contains(visible[i]) ==> valid_id(
            (#[trigger] visible[i]).0 as int,
        )
}

/// How many copies of the target tiles are left unseen: four per target tile, less each visible
/// copy of a target tile.
pub fn get_num_tiles_remaining(target_tile_ids: &Vec<MahjongTileId>, visible_tile_ids: &Vec<
    MahjongTileId,
>) -> (r: u16)
    requires
        visible_ok(target_tile_ids@, visible_tile_ids@),
    ensures
        r == 4 * target_tile_ids@.len() - count_visible_in(target_tile_ids@, visible_tile_ids@),
{
    let ghost targets = target_tile_ids@;
    let ghost visible = visible_tile_ids@;
    let mut base_tile_count = [4u16; 34];
    let mut remaining_tile_count: u16 = (4 * target_tile_ids.len()) as u16;
    let mut i: usize = 0;
    while i < visible_tile_ids.len()
        invariant
            i <= visible.len(),
            targets == target_tile_ids@,
            visible == visible_tile_ids@,
            visible_ok(targets, visible),
            remaining_tile_count == 4 * targets.len() - count_visible_in(targets, visible.take(i as int)),
            forall|x: int|
                0 <= x < 34 && #[trigger] targets.contains(tid(x)) ==> base_tile_count@[x] == 4
                    - occurrences(visible.take(i as int), tid(x)),
        decreases visible.len() - i,
    {
        let tile_id = visible_tile_ids[i];
        proof {
            assert(visible.take(i + 1).drop_last() =~= visible.take(i as int));
            assert(visible.take(i + 1).last() == tile_id);
        }
        if ids_contain(target_tile_ids, tile_id) {
            let tile_idx = tile_id.0 as usize;
            proof {
                assert(valid_id(visible[i as int].0 as int));
                assert(tid(tile_idx as int) == tile_id);
                lemma_visible_counts_prefix(targets, visible, i + 1, tile_id);
            }
            base_tile_count[tile_idx] = base_tile_count[tile_idx] - 1;
            remaining_tile_count = remaining_tile_count - 1;
        }
        proof {
            assert forall|x: int|
                0 <= x < 34 && #[trigger] targets.contains(tid(x)) implies base_tile_count@[x] == 4
                - occurrences(visible.take(i + 1), tid(x)) by {}
        }
        i += 1;
    }
    assert(visible.take(i as int) =~= visible);
    remaining_tile_count
}

/// Some run of the shanten function `f` on the hand after discarding tile `t` gives `s`.
pub open spec fn discard_gives<F: Fn([u8; 34]) -> i8>(f: F, c: Seq<u8>, t: int, s: i8) -> bool {
    exists|a: [u8; 34]| a@ == after_discard(c, t) && call_ensures(f, (a,), s)
}

/// The shanten function `f` accepts the hand after discarding any tile it holds.
pub open spec fn accepts_discards<F: Fn([u8; 34]) -> i8>(f: F, c: Seq<u8>) -> bool {
    forall|t: int, a: [u8; 34]|
        #![trigger after_discard(c, t), call_requires(f, (a,))]
        0 <= t < 34 && c[t] > 0 && a@ == after_discard(c, t) ==> call_requires(f, (a,))
}

/// The shanten after each discard, one entry per held tile in ascending order, each a result
/// that `f` can give.
pub open spec fn discard_list_ok<F: Fn([u8; 34]) -> i8>(
    f: F,
    c: Seq<u8>,
    list: Seq<(MahjongTileId, i8)>,
) -> bool {
    &&& list.map_values(|p: (MahjongTileId, i8)| p.0) == distinct_counted_ids(c)
    &&& forall|i: int| 0 <= i < list.len() ==> discard_gives(f, c, (#[trigger] list[i]).0.0 as int, list[i].1)
}

/// The shanten after each discard, in ascending order of the discarded tile.
fn shanten_after_each_discard_list<F: Fn([u8; 34]) -> i8>(
    tile_count_array: [u8; 34],
    shanten_function: &F,
) -> (r: Vec<(MahjongTileId, i8)>)
    requires
        accepts_discards(*shanten_function, tile_count_array@),
    ensures
        discard_list_ok(*shanten_function, tile_count_array@, r@),
{
    let ghost c = tile_count_array@;
    let mut r: Vec<(MahjongTileId, i8)> = Vec::new();
    let mut tile_id: u8 = 0;
    while tile_id < 34
        invariant
            tile_id <= 34,
            c == tile_count_array@,
            accepts_discards(*shanten_function, c),
            r@.map_values(|p: (MahjongTileId, i8)| p.0) == distinct_counted_ids(c.take(tile_id as int)),
            forall|i: int|
                0 <= i < r@.len() ==> discard_gives(
                    *shanten_function,
                    c,
                    (#[trigger] r@[i]).0.0 as int,
                    r@[i].1,
                ),
        decreases 34 - tile_id,
    {
        let tile_idx = tile_id as usize;
        let ghost before = r@;
        proof {
            assert(c.take(tile_id + 1).drop_last() =~= c.take(tile_id as int));
        }
        if tile_count_array[tile_idx] > 0 {
            let tile_count_after_discard = remove_tile_id_from_count_array(
                tile_count_array,
                MahjongTileId(tile_id),
            );
            proof {
                assert(call_requires(*shanten_function, (tile_count_after_discard,)));
            }
            let shanten_after_discard = shanten_function(tile_count_after_discard);
            r.push((MahjongTileId(tile_id), shanten_after_discard));
            proof {
                assert(r@.map_values(|p: (MahjongTileId, i8)| p.0) =~= before.map_values(
                    |p: (MahjongTileId, i8)| p.0,
                ).push(MahjongTileId(tile_id)));
                assert forall|i: int| 0 <= i < r@.len() implies discard_gives(
                    *shanten_function,
                    c,
                    (#[trigger] r@[i]).0.0 as int,
                    r@[i].1,
                ) by {
                    if i < before.len() {
                        assert(r@[i] == before[i]);
                    }
                }
            }
        }
        tile_id += 1;
    }
    assert(c.take(34) =~= c);
    r
}

/// The discarded tiles of the entries whose shanten is `s`, in order.
pub open spec fn ids_with_shanten(list: Seq<(MahjongTileId, i8)>, s: i8) -> Seq<MahjongTileId>
    decreases list.len(),
{
    if list.len() == 0 {
        seq![]
    } else if list.last().1 == s {
        ids_with_shanten(list.drop_last(), s).push(list.last().0)
    } else {
        ids_with_shanten(list.drop_last(), s)
    }
}

/// Gets the possible shanten for each possible discard from the given set of tiles: the
/// discards (ascending) that lead to each shanten.
pub fn get_shanten_after_each_discard<F: Fn([u8; 34]) -> i8>(
    tile_count_array: [u8; 34],
    shanten_function: &F,
) -> (r: HashMap<i8, Vec<MahjongTileId>>)
    requires
        count_sum(tile_count_array@) == 14,
        accepts_discards(*shanten_function, tile_count_array@),
    ensures
        exists|list: Seq<(MahjongTileId, i8)>|
            {
                &&& discard_list_ok(*shanten_function, tile_count_array@, list)
                &&& forall|s: i8| #[trigger]
                    r@.contains_key(s) <==> ids_with_shanten(list, s).len() > 0
                &&& forall|s: i8| r@.contains_key(s) ==> #[trigger] r@[s]@ == ids_with_shanten(
                    list,
                    s,
                )
            },
{
    broadcast use vstd::std_specs::hash::group_hash_axioms;

    let list = shanten_after_each_discard_list(tile_count_array, shanten_function);
    let mut shanten_by_discard_tile_id: HashMap<i8, Vec<MahjongTileId>> = HashMap::new();
    let mut k: usize = 0;
    while k < list.len()
        invariant
            k <= list@.len(),
            forall|s: i8| #[trigger]
                shanten_by_discard_tile_id@.contains_key(s) <==> ids_with_shanten(
                    list@.take(k as int),
                    s,
                ).len() > 0,
            forall|s: i8|
                shanten_by_discard_tile_id@.contains_key(s) ==> #[trigger] shanten_by_discard_tile_id@[s]@
                    == ids_with_shanten(list@.take(k as int), s),
        decreases list@.len() - k,
    {
        let (tile_id, shanten_after_discard) = list[k];
        proof {
            assert(list@.take(k + 1).drop_last() =~= list@.take(k as int));
        }
        if shanten_by_discard_tile_id.contains_key(&shanten_after_discard) {
            let mut tile_ids_for_shanten = shanten_by_discard_tile_id.remove(
                &shanten_after_discard,
            ).unwrap();
            tile_ids_for_shanten.push(tile_id);
            shanten_by_discard_tile_id.insert(shanten_after_discard, tile_ids_for_shanten);
        } else {
            let mut tile_ids_for_shanten: Vec<MahjongTileId> = Vec::new();
            tile_ids_for_shanten.push(tile_id);
            shanten_by_discard_tile_id.insert(shanten_after_discard, tile_ids_for_shanten);
        }
        k += 1;
    }
    assert(list@.take(k as int) =~= list@);
    shanten_by_discard_tile_id
}

/// The lowest shanten among the entries (99 when there are none).
pub open spec fn min_discard_shanten(list: Seq<(MahjongTileId, i8)>) -> int
    decreases list.len(),
{
    if list.len() == 0 {
        99
    } else {
        let m = min_discard_shanten(list.drop_last());
        if list.last().1 < m {
            list.last().1 as int
        } else {
            m
        }
    }
}

/// Gets the best shanten reachable by discarding one tile from a hand of 14 tiles.
pub fn get_best_shanten_after_discard<F: Fn([u8; 34]) -> i8>(
    tile_count_array: [u8; 34],
    shanten_function: &F,
) -> (r: i8)
    requires
        count_sum(tile_count_array@) == 14,
        accepts_discards(*shanten_function, tile_count_array@),
    ensures
        exists|list: Seq<(MahjongTileId, i8)>|
            discard_list_ok(*shanten_function, tile_count_array@, list) && r
                == min_discard_shanten(list),
{
    let list = shanten_after_each_discard_list(tile_count_array, shanten_function);
    let mut best_shanten: i8 = 99;
    let mut k: usize = 0;
    while k < list.len()
        invariant
            k <= list@.len(),
            best_shanten == min_discard_shanten(list@.take(k as int)),
        decreases list@.len() - k,
    {
        proof {
            assert(list@.take(k + 1).drop_last() =~= list@.take(k as int));
        }
        if list[k].1 < best_shanten {
            best_shanten = list[k].1;
        }
        k += 1;
    }
    assert(list@.take(k as int) =~= list@);
    best_shanten
}

/// Some run of the ukiere function `u` on the hand after discarding tile `t` gives `r`.
pub open spec fn ukiere_gives<U: Fn([u8; 34]) -> Vec<MahjongTileId>>(
    u: U,
    c: Seq<u8>,
    t: int,
    r: Vec<MahjongTileId>,
) -> bool {
    exists|a: [u8; 34]| a@ == after_discard(c, t) && call_ensures(u, (a,), r)
}

/// The ukiere function `u` accepts the hand after discarding any tile it holds.
pub open spec fn accepts_ukiere_discards<U: Fn([u8; 34]) -> Vec<MahjongTileId>>(u: U, c: Seq<u8>) -> bool {
    forall|t: int, a: [u8; 34]|
        #![trigger after_discard(c, t), call_requires(u, (a,))]
        0 <= t < 34 && c[t] > 0 && a@ == after_discard(c, t) ==> call_requires(u, (a,))
}

/// The ukiere tiles after discarding a tile from a hand of 14 tiles.
pub fn get_ukiere_after_discard<U: Fn([u8; 34]) -> Vec<MahjongTileId>>(
    tile_count_array: [u8; 34],
    discard_tile_id: MahjongTileId,
    ukiere_function: &U,
) -> (r: Vec<MahjongTileId>)
    requires
        count_sum(tile_count_array@) == 14,
        valid_id(discard_tile_id.0 as int),
        forall|a: [u8; 34]|
            a@ == after_discard(tile_count_array@, discard_tile_id.0 as int) ==> #[trigger] call_requires(
                *ukiere_function,
                (a,),
            ),
    ensures
        ukiere_gives(*ukiere_function, tile_count_array@, discard_tile_id.0 as int, r),
{
    let new_count_array = remove_tile_id_from_count_array(tile_count_array, discard_tile_id);
    ukiere_function(new_count_array)
}

/// The tiles seen after discarding tile `t`: the other visible tiles, the hand after the
/// discard, and the discarded tile itself.
pub open spec fn visible_after_discard(c: Seq<u8>, t: int, other: Seq<MahjongTileId>) -> Seq<
    MahjongTileId,
> {
    (other + expand_counts(after_discard(c, t))).push(tid(t))
}

/// Every ukiere list that `u` can give after a discard can be counted against the tiles seen.
pub open spec fn ukiere_results_ok<U: Fn([u8; 34]) -> Vec<MahjongTileId>>(
    u: U,
    c: Seq<u8>,
    other: Seq<MahjongTileId>,
) -> bool {
    forall|t: int, a: [u8; 34], uk: Vec<MahjongTileId>|
        #![trigger after_discard(c, t), call_ensures(u, (a,), uk)]
        0 <= t < 34 && c[t] > 0 && a@ == after_discard(c, t) && call_ensures(u, (a,), uk)
            ==> visible_ok(uk@, visible_after_discard(c, t, other))
}

/// A discard option: the ukiere tiles `uk` that `u` gives after discarding `discard`, and how
/// many copies of them are left unseen.
pub open spec fn ukiere_entry_ok<U: Fn([u8; 34]) -> Vec<MahjongTileId>>(
    u: U,
    c: Seq<u8>,
    other: Seq<MahjongTileId>,
    discard: MahjongTileId,
    uk: Vec<MahjongTileId>,
    n: u16,
) -> bool {
    &&& ukiere_gives(u, c, discard.0 as int, uk)
    &&& n == 4 * uk@.len() - count_visible_in(
        uk@,
        visible_after_discard(c, discard.0 as int, other),
    )
}

/// The ukiere tiles after discarding `discard_tile_id`, and how many of them are left unseen.
fn ukiere_option<U: Fn([u8; 34]) -> Vec<MahjongTileId>>(
    tile_count_array: [u8; 34],
    discard_tile_id: MahjongTileId,
    ukiere_function: &U,
    other_visible_tiles: &Vec<MahjongTileId>,
) -> (r: (Vec<MahjongTileId>, u16))
    requires
        count_sum(tile_count_array@) == 14,
        valid_id(discard_tile_id.0 as int),
        tile_count_array@[discard_tile_id.0 as int] > 0,
        accepts_ukiere_discards(*ukiere_function, tile_count_array@),
        ukiere_results_ok(*ukiere_function, tile_count_array@, other_visible_tiles@),
    ensures
        ukiere_entry_ok(
            *ukiere_function,
            tile_count_array@,
            other_visible_tiles@,
            discard_tile_id,
            r.0,
            r.1,
        ),
{
    let ghost c = tile_count_array@;
    let ghost t = discard_tile_id.0 as int;
    proof {
        assert forall|a: [u8; 34]| a@ == after_discard(c, t) implies #[trigger] call_requires(
            *ukiere_function,
            (a,),
        ) by {}
    }
    let ukiere_tiles_after_discard = get_ukiere_after_discard(
        tile_count_array,
        discard_tile_id,
        ukiere_function,
    );
    let new_count_array = remove_tile_id_from_count_array(tile_count_array, discard_tile_id);
    let mut visible_tiles_after_discard = combine_tile_ids_from_count_array_and_vec(
        new_count_array,
        other_visible_tiles,
    );
    visible_tiles_after_discard.push(discard_tile_id);
    proof {
        let a = choose|a: [u8; 34]|
            a@ == after_discard(c, t) && call_ensures(
                *ukiere_function,
                (a,),
                ukiere_tiles_after_discard,
            );
        assert(visible_tiles_after_discard@ == visible_after_discard(c, t, other_visible_tiles@));
        assert(visible_ok(
            ukiere_tiles_after_discard@,
            visible_after_discard(c, t, other_visible_tiles@),
        ));
    }
    let ukiere_count = get_num_tiles_remaining(
        &ukiere_tiles_after_discard,
        &visible_tiles_after_discard,
    );
    (ukiere_tiles_after_discard, ukiere_count)
}

/// Some discard certainly gives shanten `best`: every result of `f` after it is `best`.
pub open spec fn discard_certainly_gives<F: Fn([u8; 34]) -> i8>(f: F, c: Seq<u8>, best: i8) -> bool {
    exists|t: int|
        0 <= t < 34 && c[t] > 0 && forall|a: [u8; 34], s: i8|
            a@ == after_discard(c, t) && #[trigger] call_ensures(f, (a,), s) ==> s == best
}

/// A discard list holds `best` when some discard certainly gives it.
proof fn lemma_best_listed<F: Fn([u8; 34]) -> i8>(
    f: F,
    c: Seq<u8>,
    best: i8,
    list: Seq<(MahjongTileId, i8)>,
)
    requires
        c.len() == 34,
        discard_list_ok(f, c, list),
        discard_certainly_gives(f, c, best),
    ensures
        ids_with_shanten(list, best).len() > 0,
{
    let t = choose|t: int|
        0 <= t < 34 && c[t] > 0 && forall|a: [u8; 34], s: i8|
            a@ == after_discard(c, t) && #[trigger] call_ensures(f, (a,), s) ==> s == best;
    lemma_distinct_counted_contains(c, 34, t);
    assert(c.take(34) =~= c);
    let ids = list.map_values(|p: (MahjongTileId, i8)| p.0);
    let i = choose|i: int| 0 <= i < ids.len() && ids[i] == tid(t);
    assert(list[i].0 == tid(t));
    assert(discard_gives(f, c, list[i].0.0 as int, list[i].1));
    let a = choose|a: [u8; 34]| a@ == after_discard(c, t) && call_ensures(f, (a,), list[i].1);
    assert(list[i].1 == best);
    lemma_ids_with_shanten_member(list, best, i);
}

pub proof fn lemma_distinct_counted_contains(c: Seq<u8>, n: int, t: int)
    requires
        0 <= t < n <= c.len(),
        c[t] > 0,
    ensures
        distinct_counted_ids(c.take(n)).contains(tid(t)),
    decreases n,
{
    assert(c.take(n).drop_last() =~= c.take(n - 1));
    if t < n - 1 {
        lemma_distinct_counted_contains(c, n - 1, t);
        let d = distinct_counted_ids(c.take(n - 1));
        let j = choose|j: int| 0 <= j < d.len() && d[j] == tid(t);
        if c.take(n).last() > 0 {
            assert(distinct_counted_ids(c.take(n))[j] == tid(t));
        } else {
            assert(distinct_counted_ids(c.take(n))[j] == tid(t));
        }
    } else {
        let d = distinct_counted_ids(c.take(n));
        assert(d[d.len() - 1] == MahjongTileId((n - 1) as u8));
    }
}

pub proof fn lemma_ids_with_shanten_member(list: Seq<(MahjongTileId, i8)>, s: i8, i: int)
    requires
        0 <= i < list.len(),
        list[i].1 == s,
    ensures
        ids_with_shanten(list, s).len() > 0,
    decreases list.len(),
{
    if i < list.len() - 1 {
        lemma_ids_with_shanten_member(list.drop_last(), s, i);
    }
}

pub proof fn lemma_distinct_counted_held(c: Seq<u8>, n: int)
    requires
        0 <= n <= c.len(),
        c.len() <= 34,
    ensures
        forall|j: int|
            0 <= j < distinct_counted_ids(c.take(n)).len() ==> {
                let id = (#[trigger] distinct_counted_ids(c.take(n))[j]).0 as int;
                &&& 0 <= id < n
                &&& c[id] > 0
            },
    decreases n,
{
    if n > 0 {
        lemma_distinct_counted_held(c, n - 1);
        let cn = c.take(n);
        assert(cn.drop_last() =~= c.take(n - 1));
        let d0 = distinct_counted_ids(c.take(n - 1));
        let d = distinct_counted_ids(cn);
        assert forall|j: int| 0 <= j < d.len() implies {
            let id = (#[trigger] d[j]).0 as int;
            &&& 0 <= id < n
            &&& c[id] > 0
        } by {
            if j < d0.len() {
                assert(d[j] == d0[j]);
            } else {
                assert(cn.last() > 0);
                assert(d[j] == MahjongTileId((n - 1) as u8));
                assert(cn.last() == c[n - 1]);
            }
        }
    }
}

/// The discards of the entries of shanten `s` are among the discards of the list.
pub proof fn lemma_ids_with_shanten_sub(list: Seq<(MahjongTileId, i8)>, s: i8)
    ensures
        forall|j: int|
            0 <= j < ids_with_shanten(list, s).len() ==> exists|i: int|
                0 <= i < list.len() && list[i].0 == #[trigger] ids_with_shanten(list, s)[j],
    decreases list.len(),
{
    if list.len() > 0 {
        lemma_ids_with_shanten_sub(list.drop_last(), s);
        let w = ids_with_shanten(list, s);
        let w0 = ids_with_shanten(list.drop_last(), s);
        assert forall|j: int| 0 <= j < w.len() implies exists|i: int|
            0 <= i < list.len() && list[i].0 == #[trigger] w[j] by {
            if j < w0.len() {
                assert(w[j] == w0[j]);
                let i = choose|i: int|
                    0 <= i < list.drop_last().len() && list.drop_last()[i].0 == w0[j];
                assert(list[i] == list.drop_last()[i]);
            } else {
                assert(w[j] == list.last().0);
                assert(list[list.len() - 1] == list.last());
            }
        }
    }
}

/// Every discard of shanten `best` in a discard list is a held tile.
proof fn lemma_best_ids_held<F: Fn([u8; 34]) -> i8>(
    f: F,
    c: Seq<u8>,
    list: Seq<(MahjongTileId, i8)>,
    best: i8,
)
    requires
        c.len() == 34,
        discard_list_ok(f, c, list),
    ensures
        forall|j: int|
            0 <= j < ids_with_shanten(list, best).len() ==> valid_id(
                (#[trigger] ids_with_shanten(list, best)[j]).0 as int,
            ) && c[ids_with_shanten(list, best)[j].0 as int] > 0,
{
    lemma_ids_with_shanten_sub(list, best);
    lemma_distinct_counted_held(c, 34);
    assert(c.take(34) =~= c);
    let ids = list.map_values(|p: (MahjongTileId, i8)| p.0);
    assert forall|j: int| 0 <= j < ids_with_shanten(list, best).len() implies valid_id(
        (#[trigger] ids_with_shanten(list, best)[j]).0 as int,
    ) && c[ids_with_shanten(list, best)[j].0 as int] > 0 by {
        let i = choose|i: int|
            0 <= i < list.len() && list[i].0 == ids_with_shanten(list, best)[j];
        assert(ids[i] == list[i].0);
        assert(distinct_counted_ids(c.take(34))[i] == ids[i]);
    }
}

/// The tile ids that discards of shanten `best` in the map from shanten to discards lead to.
fn best_discards<F: Fn([u8; 34]) -> i8>(
    tile_count_array: [u8; 34],
    best_shanten: i8,
    shanten_function: &F,
) -> (r: (Vec<MahjongTileId>, Ghost<Seq<(MahjongTileId, i8)>>))
    requires
        count_sum(tile_count_array@) == 14,
        accepts_discards(*shanten_function, tile_count_array@),
        discard_certainly_gives(*shanten_function, tile_count_array@, best_shanten),
    ensures
        discard_list_ok(*shanten_function, tile_count_array@, r.1@),
        r.0@ == ids_with_shanten(r.1@, best_shanten),
        forall|j: int|
            0 <= j < r.0@.len() ==> valid_id((#[trigger] r.0@[j]).0 as int) && tile_count_array@[r.0@[j].0 as int] > 0,
{
    broadcast use vstd::std_specs::hash::group_hash_axioms;

    let shanten_by_discard_tile_id = get_shanten_after_each_discard(
        tile_count_array,
        shanten_function,
    );
    let ghost list = choose|list: Seq<(MahjongTileId, i8)>|
        {
            &&& discard_list_ok(*shanten_function, tile_count_array@, list)
            &&& forall|s: i8| #[trigger]
                shanten_by_discard_tile_id@.contains_key(s) <==> ids_with_shanten(list, s).len()
                    > 0
            &&& forall|s: i8|
                shanten_by_discard_tile_id@.contains_key(s) ==> #[trigger] shanten_by_discard_tile_id@[s]@
                    == ids_with_shanten(list, s)
        };
    proof {
        lemma_best_listed(*shanten_function, tile_count_array@, best_shanten, list);
        lemma_best_ids_held(*shanten_function, tile_count_array@, list, best_shanten);
        assert(shanten_by_discard_tile_id@.contains_key(best_shanten));
    }
    let best_shanten_discard_tile_ids = shanten_by_discard_tile_id.get(&best_shanten).unwrap();
    (copy_tile_ids(best_shanten_discard_tile_ids), Ghost(list))
}

/// Every discard option (discard tile id, ukiere tile ids, number of ukiere tiles left unseen)
/// with the best shanten `best_shanten`, in ascending order of the discarded tile.
pub fn get_all_ukiere_after_discard<F: Fn([u8; 34]) -> i8, U: Fn([u8; 34]) -> Vec<MahjongTileId>>(
    tile_count_array: [u8; 34],
    best_shanten: i8,
    shanten_function: &F,
    ukiere_function: &U,
    other_visible_tiles: &Vec<MahjongTileId>,
) -> (r: Vec<(MahjongTileId, Vec<MahjongTileId>, u16)>)
    requires
        count_sum(tile_count_array@) == 14,
        accepts_discards(*shanten_function, tile_count_array@),
        discard_certainly_gives(*shanten_function, tile_count_array@, best_shanten),
        accepts_ukiere_discards(*ukiere_function, tile_count_array@),
        ukiere_results_ok(*ukiere_function, tile_count_array@, other_visible_tiles@),
    ensures
        exists|list: Seq<(MahjongTileId, i8)>|
            {
                &&& discard_list_ok(*shanten_function, tile_count_array@, list)
                &&& r@.map_values(|e: (MahjongTileId, Vec<MahjongTileId>, u16)| e.0)
                    == ids_with_shanten(list, best_shanten)
                &&& forall|i: int|
                    0 <= i < r@.len() ==> ukiere_entry_ok(
                        *ukiere_function,
                        tile_count_array@,
                        other_visible_tiles@,
                        (#[trigger] r@[i]).0,
                        r@[i].1,
                        r@[i].2,
                    )
            },
{
    let (best_shanten_discard_tile_ids, Ghost(list)) = best_discards(
        tile_count_array,
        best_shanten,
        shanten_function,
    );
    let mut ukiere_discard_options: Vec<(MahjongTileId, Vec<MahjongTileId>, u16)> = Vec::new();
    let mut k: usize = 0;
    while k < best_shanten_discard_tile_ids.len()
        invariant
            k <= best_shanten_discard_tile_ids@.len(),
            count_sum(tile_count_array@) == 14,
            accepts_ukiere_discards(*ukiere_function, tile_count_array@),
            ukiere_results_ok(*ukiere_function, tile_count_array@, other_visible_tiles@),
            forall|j: int|
                0 <= j < best_shanten_discard_tile_ids@.len() ==> valid_id(
                    (#[trigger] best_shanten_discard_tile_ids@[j]).0 as int,
                ) && tile_count_array@[best_shanten_discard_tile_ids@[j].0 as int] > 0,
            ukiere_discard_options@.map_values(|e: (MahjongTileId, Vec<MahjongTileId>, u16)| e.0)
                == best_shanten_discard_tile_ids@.take(k as int),
            forall|i: int|
                0 <= i < ukiere_discard_options@.len() ==> ukiere_entry_ok(
                    *ukiere_function,
                    tile_count_array@,
                    other_visible_tiles@,
                    (#[trigger] ukiere_discard_options@[i]).0,
                    ukiere_discard_options@[i].1,
                    ukiere_discard_options@[i].2,
                ),
        decreases best_shanten_discard_tile_ids@.len() - k,
    {
        let discard_tile_id = best_shanten_discard_tile_ids[k];
        assert(valid_id(best_shanten_discard_tile_ids@[k as int].0 as int));
        let (ukiere_tiles_after_discard, ukiere_count) = ukiere_option(
            tile_count_array,
            discard_tile_id,
            ukiere_function,
            other_visible_tiles,
        );
        let ghost before = ukiere_discard_options@;
        ukiere_discard_options.push((discard_tile_id, ukiere_tiles_after_discard, ukiere_count));
        proof {
            assert(ukiere_discard_options@.map_values(
                |e: (MahjongTileId, Vec<MahjongTileId>, u16)| e.0,
            ) =~= before.map_values(|e: (MahjongTileId, Vec<MahjongTileId>, u16)| e.0).push(
                discard_tile_id,
            ));
            assert(best_shanten_discard_tile_ids@.take(k + 1) =~= best_shanten_discard_tile_ids@.take(
                k as int,
            ).push(discard_tile_id));
            assert forall|i: int| 0 <= i < ukiere_discard_options@.len() implies ukiere_entry_ok(
                *ukiere_function,
                tile_count_array@,
                other_visible_tiles@,
                (#[trigger] ukiere_discard_options@[i]).0,
                ukiere_discard_options@[i].1,
                ukiere_discard_options@[i].2,
            ) by {
                if i < before.len() {
                    assert(ukiere_discard_options@[i] == before[i]);
                }
            }
        }
        k += 1;
    }
    assert(best_shanten_discard_tile_ids@.take(k as int) =~= best_shanten_discard_tile_ids@);
    ukiere_discard_options
}

/// The options kept while scanning discard options for the most unseen ukiere tiles: the
/// highest count so far and the options with that count (those with no unseen tiles are kept
/// while nothing better turns up).
pub open spec fn keep_most(all: Seq<(MahjongTileId, Vec<MahjongTileId>, u16)>) -> (int, Seq<
    (MahjongTileId, Vec<MahjongTileId>, u16),
>)
    decreases all.len(),
{
    if all.len() == 0 {
        (0, seq![])
    } else {
        let prev = keep_most(all.drop_last());
        let e = all.last();
        if e.2 > prev.0 {
            (e.2 as int, seq![e])
        } else if e.2 == prev.0 {
            (prev.0, prev.1.push(e))
        } else {
            prev
        }
    }
}

/// The discard options (discard tile id, ukiere tile ids, number of ukiere tiles left unseen)
/// with the best shanten `best_shanten` that leave the most ukiere tiles unseen, in ascending
/// order of the discarded tile.
pub fn get_most_ukiere_after_discard<
    F: Fn([u8; 34]) -> i8,
    U: Fn([u8; 34]) -> Vec<MahjongTileId>,
>(
    tile_count_array: [u8; 34],
    best_shanten: i8,
    shanten_function: &F,
    ukiere_function: &U,
    other_visible_tiles: &Vec<MahjongTileId>,
) -> (r: Vec<(MahjongTileId, Vec<MahjongTileId>, u16)>)
    requires
        count_sum(tile_count_array@) == 14,
        accepts_discards(*shanten_function, tile_count_array@),
        discard_certainly_gives(*shanten_function, tile_count_array@, best_shanten),
        accepts_ukiere_discards(*ukiere_function, tile_count_array@),
        ukiere_results_ok(*ukiere_function, tile_count_array@, other_visible_tiles@),
    ensures
        exists|list: Seq<(MahjongTileId, i8)>, all: Seq<(MahjongTileId, Vec<MahjongTileId>, u16)>|
            {
                &&& discard_list_ok(*shanten_function, tile_count_array@, list)
                &&& all.map_values(|e: (MahjongTileId, Vec<MahjongTileId>, u16)| e.0)
                    == ids_with_shanten(list, best_shanten)
                &&& forall|i: int|
                    0 <= i < all.len() ==> ukiere_entry_ok(
                        *ukiere_function,
                        tile_count_array@,
                        other_visible_tiles@,
                        (#[trigger] all[i]).0,
                        all[i].1,
                        all[i].2,
                    )
                &&& r@ == keep_most(all).1
            },
{
    let (best_shanten_discard_tile_ids, Ghost(list)) = best_discards(
        tile_count_array,
        best_shanten,
        shanten_function,
    );
    let mut ukiere_discard_options: Vec<(MahjongTileId, Vec<MahjongTileId>, u16)> = Vec::new();
    let mut highest_ukiere_count_so_far: u16 = 0;
    let ghost mut all: Seq<(MahjongTileId, Vec<MahjongTileId>, u16)> = seq![];
    let mut k: usize = 0;
    while k < best_shanten_discard_tile_ids.len()
        invariant
            k <= best_shanten_discard_tile_ids@.len(),
            count_sum(tile_count_array@) == 14,
            accepts_ukiere_discards(*ukiere_function, tile_count_array@),
            ukiere_results_ok(*ukiere_function, tile_count_array@, other_visible_tiles@),
            forall|j: int|
                0 <= j < best_shanten_discard_tile_ids@.len() ==> valid_id(
                    (#[trigger] best_shanten_discard_tile_ids@[j]).0 as int,
                ) && tile_count_array@[best_shanten_discard_tile_ids@[j].0 as int] > 0,
            all.map_values(|e: (MahjongTileId, Vec<MahjongTileId>, u16)| e.0)
                == best_shanten_discard_tile_ids@.take(k as int),
            forall|i: int|
                0 <= i < all.len() ==> ukiere_entry_ok(
                    *ukiere_function,
                    tile_count_array@,
                    other_visible_tiles@,
                    (#[trigger] all[i]).0,
                    all[i].1,
                    all[i].2,
                ),
            highest_ukiere_count_so_far == keep_most(all).0,
            ukiere_discard_options@ == keep_most(all).1,
        decreases best_shanten_discard_tile_ids@.len() - k,
    {
        let discard_tile_id = best_shanten_discard_tile_ids[k];
        assert(valid_id(best_shanten_discard_tile_ids@[k as int].0 as int));
        let (ukiere_tiles_after_discard, ukiere_count) = ukiere_option(
            tile_count_array,
            discard_tile_id,
            ukiere_function,
            other_visible_tiles,
        );
        let new_entry = (discard_tile_id, ukiere_tiles_after_discard, ukiere_count);
        let ghost before = all;
        proof {
            all = all.push(new_entry);
            assert(all.drop_last() =~= before);
            assert(all.map_values(|e: (MahjongTileId, Vec<MahjongTileId>, u16)| e.0)
                =~= before.map_values(|e: (MahjongTileId, Vec<MahjongTileId>, u16)| e.0).push(
                discard_tile_id,
            ));
            assert(best_shanten_discard_tile_ids@.take(k + 1) =~= best_shanten_discard_tile_ids@.take(
                k as int,
            ).push(discard_tile_id));
            assert forall|i: int| 0 <= i < all.len() implies ukiere_entry_ok(
                *ukiere_function,
                tile_count_array@,
                other_visible_tiles@,
                (#[trigger] all[i]).0,
                all[i].1,
                all[i].2,
            ) by {
                if i < before.len() {
                    assert(all[i] == before[i]);
                }
            }
        }
        if ukiere_count > highest_ukiere_count_so_far {
            highest_ukiere_count_so_far = ukiere_count;
            ukiere_discard_options = Vec::new();
            ukiere_discard_options.push(new_entry);
            proof {
                assert(ukiere_discard_options@ =~= seq![new_entry]);
            }
        } else if ukiere_count == highest_ukiere_count_so_far {
            ukiere_discard_options.push(new_entry);
        }
        k += 1;
    }
    ukiere_discard_options
}

/// For every discard, in ascending order of the discarded tile: the tile, the shanten after it,
/// the ukiere tiles after it and how many of them are left unseen.
pub fn get_shanten_ukiere_after_each_discard<
    F: Fn([u8; 34]) -> i8,
    U: Fn([u8; 34]) -> Vec<MahjongTileId>,
>(
    tile_count_array: [u8; 34],
    shanten_function: &F,
    ukiere_function: &U,
    other_visible_tiles: &Vec<MahjongTileId>,
) -> (r: Vec<(MahjongTileId, i8, Vec<MahjongTileId>, u16)>)
    requires
        count_sum(tile_count_array@) == 14,
        accepts_discards(*shanten_function, tile_count_array@),
        accepts_ukiere_discards(*ukiere_function, tile_count_array@),
        ukiere_results_ok(*ukiere_function, tile_count_array@, other_visible_tiles@),
    ensures
        exists|list: Seq<(MahjongTileId, i8)>|
            {
                &&& discard_list_ok(*shanten_function, tile_count_array@, list)
                &&& r@.len() == list.len()
                &&& forall|i: int|
                    0 <= i < r@.len() ==> (#[trigger] r@[i]).0 == list[i].0 && r@[i].1 == list[i].1
                        && ukiere_entry_ok(
                        *ukiere_function,
                        tile_count_array@,
                        other_visible_tiles@,
                        r@[i].0,
                        r@[i].2,
                        r@[i].3,
                    )
            },
{
    let list = shanten_after_each_discard_list(tile_count_array, shanten_function);
    proof {
        lemma_distinct_counted_held(tile_count_array@, 34);
        assert(tile_count_array@.take(34) =~= tile_count_array@);
    }
    let mut ukiere_discard_options: Vec<(MahjongTileId, i8, Vec<MahjongTileId>, u16)> = Vec::new();
    let mut k: usize = 0;
    while k < list.len()
        invariant
            k <= list@.len(),
            count_sum(tile_count_array@) == 14,
            discard_list_ok(*shanten_function, tile_count_array@, list@),
            forall|j: int|
                0 <= j < distinct_counted_ids(tile_count_array@.take(34)).len() ==> {
                    let id = (#[trigger] distinct_counted_ids(tile_count_array@.take(34))[j]).0 as int;
                    &&& 0 <= id < 34
                    &&& tile_count_array@[id] > 0
                },
            tile_count_array@.take(34) == tile_count_array@,
            accepts_ukiere_discards(*ukiere_function, tile_count_array@),
            ukiere_results_ok(*ukiere_function, tile_count_array@, other_visible_tiles@),
            ukiere_discard_options@.len() == k,
            forall|i: int|
                0 <= i < k ==> (#[trigger] ukiere_discard_options@[i]).0 == list@[i].0
                    && ukiere_discard_options@[i].1 == list@[i].1 && ukiere_entry_ok(
                    *ukiere_function,
                    tile_count_array@,
                    other_visible_tiles@,
                    ukiere_discard_options@[i].0,
                    ukiere_discard_options@[i].2,
                    ukiere_discard_options@[i].3,
                ),
        decreases list@.len() - k,
    {
        let (discard_tile_id, shanten) = list[k];
        proof {
            let ids = list@.map_values(|p: (MahjongTileId, i8)| p.0);
            assert(ids[k as int] == discard_tile_id);
        }
        let (ukiere_tiles_after_discard, ukiere_count) = ukiere_option(
            tile_count_array,
            discard_tile_id,
            ukiere_function,
            other_visible_tiles,
        );
        ukiere_discard_options.push(
            (discard_tile_id, shanten, ukiere_tiles_after_discard, ukiere_count),
        );
        k += 1;
    }
    ukiere_discard_options
}

/// The counts with one more copy of tile `d`.
pub open spec fn added(c: Seq<u8>, d: int) -> Seq<u8> {
    c.update(d, (c[d] + 1) as u8)
}

/// Every ukiere list that `u` can give after a discard from the counts `n` can be counted
/// against the tiles `vis`.
pub open spec fn ukiere_results_fit<U: Fn([u8; 34]) -> Vec<MahjongTileId>>(
    u: U,
    n: Seq<u8>,
    vis: Seq<MahjongTileId>,
) -> bool {
    forall|t: int, a: [u8; 34], uk: Vec<MahjongTileId>|
        #![trigger after_discard(n, t), call_ensures(u, (a,), uk)]
        0 <= t < 34 && n[t] > 0 && a@ == after_discard(n, t) && call_ensures(u, (a,), uk)
            ==> visible_ok(uk@, vis)
}

/// What the upgrade search may ask of the shanten function `f` and the ukiere function `u`
/// after any draw: they accept every hand after a discard, and every ukiere list fits the
/// tiles then seen.
pub open spec fn upgrade_functions_ok<F: Fn([u8; 34]) -> i8, U: Fn([u8; 34]) -> Vec<MahjongTileId>>(
    f: F,
    u: U,
    c: Seq<u8>,
    other: Seq<MahjongTileId>,
) -> bool {
    forall|d: int|
        0 <= d < 34 ==> {
            &&& accepts_discards(f, #[trigger] added(c, d))
            &&& accepts_ukiere_discards(u, added(c, d))
            &&& ukiere_results_fit(u, added(c, d), other + expand_counts(added(c, d)))
        }
}

/// An upgrade option: after drawing `d` and discarding `t`, the shanten is `s0` again (some
/// result of `f`), `uk` is ukiere that `u` gives, and its `n` unseen copies beat `n0`.
pub open spec fn upgrade_option_ok<F: Fn([u8; 34]) -> i8, U: Fn([u8; 34]) -> Vec<MahjongTileId>>(
    f: F,
    u: U,
    c: Seq<u8>,
    other: Seq<MahjongTileId>,
    s0: i8,
    n0: int,
    d: int,
    t: MahjongTileId,
    uk: Vec<MahjongTileId>,
    n: u16,
) -> bool {
    let new = added(c, d);
    &&& valid_id(t.0 as int)
    &&& new[t.0 as int] > 0
    &&& discard_gives(f, new, t.0 as int, s0)
    &&& ukiere_gives(u, new, t.0 as int, uk)
    &&& n == 4 * uk@.len() - count_visible_in(uk@, other + expand_counts(new))
    &&& n > n0
}

/// The tiles that, drawn into a hand of 13 tiles, upgrade it: drawing a tile that is not an
/// ukiere tile and then discarding some tile keeps the shanten and leaves more ukiere tiles
/// unseen. For each such draw (ascending), the discards (ascending) that do so, with their
/// ukiere tiles and unseen count.
pub fn get_upgrade_tiles<F: Fn([u8; 34]) -> i8, U: Fn([u8; 34]) -> Vec<MahjongTileId>>(
    tile_count_array: [u8; 34],
    shanten_function: &F,
    ukiere_function: &U,
    other_visible_tiles: &Vec<MahjongTileId>,
) -> (r: Vec<(MahjongTileId, Vec<(MahjongTileId, (Vec<MahjongTileId>, u16))>)>)
    requires
        count_sum(tile_count_array@) == 13,
        call_requires(*shanten_function, (tile_count_array,)),
        call_requires(*ukiere_function, (tile_count_array,)),
        forall|uk: Vec<MahjongTileId>|
            #[trigger] call_ensures(*ukiere_function, (tile_count_array,), uk) ==> visible_ok(
                uk@,
                other_visible_tiles@ + expand_counts(tile_count_array@),
            ),
        upgrade_functions_ok(
            *shanten_function,
            *ukiere_function,
            tile_count_array@,
            other_visible_tiles@,
        ),
    ensures
        exists|s0: i8, uk0: Vec<MahjongTileId>|
            #![trigger call_ensures(*shanten_function, (tile_count_array,), s0), call_ensures(*ukiere_function, (tile_count_array,), uk0)]
            {
                &&& call_ensures(*shanten_function, (tile_count_array,), s0)
                &&& call_ensures(*ukiere_function, (tile_count_array,), uk0)
                &&& forall|i: int|
                    0 <= i < r@.len() ==> {
                        let d = (#[trigger] r@[i]).0;
                        &&& valid_id(d.0 as int)
                        &&& !uk0@.contains(d)
                        &&& r@[i].1@.len() > 0
                        &&& forall|j: int|
                            0 <= j < r@[i].1@.len() ==> upgrade_option_ok(
                                *shanten_function,
                                *ukiere_function,
                                tile_count_array@,
                                other_visible_tiles@,
                                s0,
                                4 * uk0@.len() - count_visible_in(
                                    uk0@,
                                    other_visible_tiles@ + expand_counts(tile_count_array@),
                                ),
                                d.0 as int,
                                (#[trigger] r@[i].1@[j]).0,
                                r@[i].1@[j].1.0,
                                r@[i].1@[j].1.1,
                            )
                    }
                &&& forall|i: int, k: int| 0 <= i < k < r@.len() ==> r@[i].0.0 < r@[k].0.0
            },
{
    let ghost c = tile_count_array@;
    let mut upgrades: Vec<(MahjongTileId, Vec<(MahjongTileId, (Vec<MahjongTileId>, u16))>)> =
        Vec::new();
    let starting_shanten = shanten_function(tile_count_array);
    let starting_ukiere_tiles = ukiere_function(tile_count_array);
    let visible_tile_ids = combine_tile_ids_from_count_array_and_vec(
        tile_count_array,
        other_visible_tiles,
    );
    let starting_num_ukiere_tiles = get_num_tiles_remaining(
        &starting_ukiere_tiles,
        &visible_tile_ids,
    );
    proof {
        lemma_count_sum_bound_each(c);
    }
    let mut draw_tile_id: u8 = 0;
    while draw_tile_id < 34
        invariant
            draw_tile_id <= 34,
            c == tile_count_array@,
            count_sum(c) == 13,
            forall|t: int| 0 <= t < 34 ==> c[t] <= 13,
            upgrade_functions_ok(*shanten_function, *ukiere_function, c, other_visible_tiles@),
            call_ensures(*shanten_function, (tile_count_array,), starting_shanten),
            call_ensures(*ukiere_function, (tile_count_array,), starting_ukiere_tiles),
            starting_num_ukiere_tiles == 4 * starting_ukiere_tiles@.len() - count_visible_in(
                starting_ukiere_tiles@,
                other_visible_tiles@ + expand_counts(c),
            ),
            forall|i: int|
                0 <= i < upgrades@.len() ==> {
                    let d = (#[trigger] upgrades@[i]).0;
                    &&& valid_id(d.0 as int)
                    &&& d.0 < draw_tile_id
                    &&& !starting_ukiere_tiles@.contains(d)
                    &&& upgrades@[i].1@.len() > 0
                    &&& forall|j: int|
                        0 <= j < upgrades@[i].1@.len() ==> upgrade_option_ok(
                            *shanten_function,
                            *ukiere_function,
                            c,
                            other_visible_tiles@,
                            starting_shanten,
                            starting_num_ukiere_tiles as int,
                            d.0 as int,
                            (#[trigger] upgrades@[i].1@[j]).0,
                            upgrades@[i].1@[j].1.0,
                            upgrades@[i].1@[j].1.1,
                        )
                },
            forall|i: int, k: int| 0 <= i < k < upgrades@.len() ==> upgrades@[i].0.0 < upgrades@[k].0.0,
        decreases 34 - draw_tile_id,
    {
        let draw = MahjongTileId(draw_tile_id);
        if ids_contain(&starting_ukiere_tiles, draw) {
            // drawing an ukiere tile is not an upgrade (upgrade = same shanten, more ukiere)
            draw_tile_id += 1;
            continue;
        }
        let new_count_array = add_tile_id_to_count_array(tile_count_array, draw);
        let ghost new = new_count_array@;
        proof {
            assert(new == added(c, draw_tile_id as int));
            lemma_count_sum_update(c, draw_tile_id as int, (c[draw_tile_id as int] + 1) as u8);
            assert(accepts_discards(*shanten_function, added(c, draw_tile_id as int)));
            lemma_distinct_counted_held(new, 34);
            assert(new.take(34) =~= new);
        }
        let new_tiles = crate::mahjong_tile::get_distinct_tile_ids_from_count_array(
            MahjongTileCountArray(new_count_array),
        );
        let visible_tile_ids = combine_tile_ids_from_count_array_and_vec(
            new_count_array,
            other_visible_tiles,
        );
        let mut discard_to_ukiere: Vec<(MahjongTileId, (Vec<MahjongTileId>, u16))> = Vec::new();
        let mut k: usize = 0;
        while k < new_tiles.len()
            invariant
                k <= new_tiles@.len(),
                new == new_count_array@,
                new == added(c, draw_tile_id as int),
                count_sum(new) == 14,
                new_tiles@ == distinct_counted_ids(new),
                forall|j: int|
                    0 <= j < distinct_counted_ids(new.take(34)).len() ==> {
                        let id = (#[trigger] distinct_counted_ids(new.take(34))[j]).0 as int;
                        &&& 0 <= id < 34
                        &&& new[id] > 0
                    },
                new.take(34) == new,
                visible_tile_ids@ == other_visible_tiles@ + expand_counts(new),
                accepts_discards(*shanten_function, new),
                accepts_ukiere_discards(*ukiere_function, new),
                ukiere_results_fit(*ukiere_function, new, other_visible_tiles@ + expand_counts(new)),
                forall|j: int|
                    0 <= j < discard_to_ukiere@.len() ==> upgrade_option_ok(
                        *shanten_function,
                        *ukiere_function,
                        c,
                        other_visible_tiles@,
                        starting_shanten,
                        starting_num_ukiere_tiles as int,
                        draw_tile_id as int,
                        (#[trigger] discard_to_ukiere@[j]).0,
                        discard_to_ukiere@[j].1.0,
                        discard_to_ukiere@[j].1.1,
                    ),
            decreases new_tiles@.len() - k,
        {
            let discard_tile_id = new_tiles[k];
            let ghost t = discard_tile_id.0 as int;
            proof {
                assert(new_tiles@[k as int] == distinct_counted_ids(new.take(34))[k as int]);
            }
            let tile_count_array_after_discard = remove_tile_id_from_count_array(
                new_count_array,
                discard_tile_id,
            );
            proof {
                assert(call_requires(*shanten_function, (tile_count_array_after_discard,)));
            }
            let shanten_after_discard = shanten_function(tile_count_array_after_discard);
            if shanten_after_discard != starting_shanten {
                // a higher shanten is no upgrade; a lower one means the draw advanced the hand
                k += 1;
                continue;
            }
            proof {
                assert forall|a: [u8; 34]| a@ == after_discard(new, t) implies #[trigger] call_requires(
                    *ukiere_function,
                    (a,),
                ) by {}
            }
            let ukiere_after_discard = get_ukiere_after_discard(
                new_count_array,
                discard_tile_id,
                ukiere_function,
            );
            proof {
                let a = choose|a: [u8; 34]|
                    a@ == after_discard(new, t) && call_ensures(
                        *ukiere_function,
                        (a,),
                        ukiere_after_discard,
                    );
                assert(visible_ok(ukiere_after_discard@, other_visible_tiles@ + expand_counts(new)));
            }
            let num_ukiere_tiles_after_discard = get_num_tiles_remaining(
                &ukiere_after_discard,
                &visible_tile_ids,
            );
            if num_ukiere_tiles_after_discard > starting_num_ukiere_tiles {
                // only an upgrade if the total number of ukiere tiles remaining increases
                let ghost before = discard_to_ukiere@;
                discard_to_ukiere.push(
                    (discard_tile_id, (ukiere_after_discard, num_ukiere_tiles_after_discard)),
                );
                proof {
                    assert(discard_gives(*shanten_function, new, t, starting_shanten));
                    assert forall|j: int| 0 <= j < discard_to_ukiere@.len() implies upgrade_option_ok(
                        *shanten_function,
                        *ukiere_function,
                        c,
                        other_visible_tiles@,
                        starting_shanten,
                        starting_num_ukiere_tiles as int,
                        draw_tile_id as int,
                        (#[trigger] discard_to_ukiere@[j]).0,
                        discard_to_ukiere@[j].1.0,
                        discard_to_ukiere@[j].1.1,
                    ) by {
                        if j < before.len() {
                            assert(discard_to_ukiere@[j] == before[j]);
                        }
                    }
                }
            }
            k += 1;
        }
        if discard_to_ukiere.len() > 0 {
            let ghost before = upgrades@;
            upgrades.push((draw, discard_to_ukiere));
            proof {
                assert forall|i: int| 0 <= i < upgrades@.len() implies {
                    let d = (#[trigger] upgrades@[i]).0;
                    &&& valid_id(d.0 as int)
                    &&& d.0 < draw_tile_id + 1
                    &&& !starting_ukiere_tiles@.contains(d)
                    &&& upgrades@[i].1@.len() > 0
                    &&& forall|j: int|
                        0 <= j < upgrades@[i].1@.len() ==> upgrade_option_ok(
                            *shanten_function,
                            *ukiere_function,
                            c,
                            other_visible_tiles@,
                            starting_shanten,
                            starting_num_ukiere_tiles as int,
                            d.0 as int,
                            (#[trigger] upgrades@[i].1@[j]).0,
                            upgrades@[i].1@[j].1.0,
                            upgrades@[i].1@[j].1.1,
                        )
                } by {
                    if i < before.len() {
                        assert(upgrades@[i] == before[i]);
                    }
                }
            }
        }
        draw_tile_id += 1;
    }
    upgrades
}

pub proof fn lemma_count_sum_bound_each(c: Seq<u8>)
    ensures
        forall|t: int| 0 <= t < c.len() ==> c[t] <= count_sum(c),
    decreases c.len(),
{
    if c.len() > 0 {
        lemma_count_sum_bound_each(c.drop_last());
        lemma_count_sum_nonneg(c.drop_last());
        assert forall|t: int| 0 <= t < c.len() implies c[t] <= count_sum(c) by {
            if t < c.len() - 1 {
                assert(c[t] == c.drop_last()[t]);
            }
        }
    }
}

/// The MSPZ text of each tile, one after another.
pub open spec fn spec_ids_text(ids: Seq<MahjongTileId>) -> Seq<char>
    decreases ids.len(),
{
    if ids.len() == 0 {
        seq![]
    } else {
        spec_ids_text(ids.drop_last()) + spec_tile_text(ids.last().0 as int)
    }
}

/// The MSPZ text of each tile id, one after another (e.g. "1m2m3m").
pub fn tile_ids_to_string(tile_ids: &Vec<MahjongTileId>) -> (r: String)
    requires
        forall|i: int| 0 <= i < tile_ids@.len() ==> valid_id((#[trigger] tile_ids@[i]).0 as int),
    ensures
        r@ == spec_ids_text(tile_ids@),
{
    let mut tiles_string = String::new();
    let mut i: usize = 0;
    while i < tile_ids.len()
        invariant
            i <= tile_ids@.len(),
            forall|k: int| 0 <= k < tile_ids@.len() ==> valid_id((#[trigger] tile_ids@[k]).0 as int),
            tiles_string@ == spec_ids_text(tile_ids@.take(i as int)),
        decreases tile_ids@.len() - i,
    {
        let tile_id = tile_ids[i];
        assert(valid_id(tile_ids@[i as int].0 as int));
        let tile_string = get_tile_text_from_id(tile_id.0);
        tiles_string.append(tile_string.as_str());
        proof {
            assert(tile_ids@.take(i + 1).drop_last() =~= tile_ids@.take(i as int));
        }
        i += 1;
    }
    assert(tile_ids@.take(i as int) =~= tile_ids@);
    tiles_string
}

/// How many of the tile ids are `t`.
pub open spec fn id_count(ids: Seq<MahjongTileId>, t: int) -> int
    decreases ids.len(),
{
    if ids.len() == 0 {
        0
    } else {
        id_count(ids.drop_last(), t) + if ids.last().0 == t {
            1int
        } else {
            0int
        }
    }
}

pub proof fn lemma_id_count_prefix(ids: Seq<MahjongTileId>, n: int, t: int)
    requires
        0 <= n <= ids.len(),
    ensures
        0 <= id_count(ids.take(n), t) <= id_count(ids, t),
    decreases ids.len(),
{
    if n < ids.len() {
        lemma_id_count_prefix(ids.drop_last(), n, t);
        assert(ids.drop_last().take(n) =~= ids.take(n));
    } else {
        assert(ids.take(n) =~= ids);
        lemma_id_count_nonneg(ids, t);
    }
}

pub proof fn lemma_id_count_nonneg(ids: Seq<MahjongTileId>, t: int)
    ensures
        id_count(ids, t) >= 0,
    decreases ids.len(),
{
    if ids.len() > 0 {
        lemma_id_count_nonneg(ids.drop_last(), t);
    }
}

/// The count array of the tiles named by a string in condensed MSPZ notation.
pub fn tiles_to_count_array(tiles_string: &str) -> (r: [u8; 34])
    requires
        tiles_text_valid(tiles_string@, seq![], true),
        forall|i: int|
            0 <= i < spec_tile_ids_from_text(tiles_string@).len() ==> valid_id(
                (#[trigger] spec_tile_ids_from_text(tiles_string@)[i]).0 as int,
            ),
        forall|t: int| 0 <= t < 34 ==> id_count(spec_tile_ids_from_text(tiles_string@), t) <= 255,
    ensures
        forall|t: int|
            0 <= t < 34 ==> r@[t] == id_count(spec_tile_ids_from_text(tiles_string@), t),
{
    let tile_ids = get_tile_ids_from_string(tiles_string);
    let ghost ids = tile_ids@;
    let mut tile_count_array: [u8; 34] = [0; 34];
    let mut i: usize = 0;
    while i < tile_ids.len()
        invariant
            i <= ids.len(),
            ids == tile_ids@,
            forall|k: int| 0 <= k < ids.len() ==> valid_id((#[trigger] ids[k]).0 as int),
            forall|t: int| 0 <= t < 34 ==> id_count(ids, t) <= 255,
            forall|t: int| 0 <= t < 34 ==> tile_count_array@[t] == id_count(ids.take(i as int), t),
        decreases ids.len() - i,
    {
        let tile_idx = tile_ids[i].0 as usize;
        proof {
            assert(valid_id(ids[i as int].0 as int));
            assert(ids.take(i + 1).drop_last() =~= ids.take(i as int));
            lemma_id_count_prefix(ids, i + 1, tile_idx as int);
        }
        tile_count_array[tile_idx] = tile_count_array[tile_idx] + 1;
        i += 1;
    }
    assert(ids.take(i as int) =~= ids);
    tile_count_array
}

/// Discarding a tile that was just added gives back the counts before the addition.
pub proof fn law_remove_undoes_add(c: Seq<u8>, t: int)
    requires
        valid_id(t),
        c.len() == 34,
        c[t] < 255,
    ensures
        after_discard(c.update(t, (c[t] + 1) as u8), t) == c,
{
    assert(after_discard(c.update(t, (c[t] + 1) as u8), t) =~= c);
}

} // verus!
