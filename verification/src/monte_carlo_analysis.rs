use rand::rngs::ThreadRng;
use vstd::prelude::*;

use crate::mahjong_tile::{
    count_sum, expand_counts, four_of_each_tile_count_array, get_tile_ids_from_count_array,
    law_expanded_counts_total, valid_id, MahjongTileCountArray, MahjongTileId,
};
use crate::random::{random_index, thread_rng};
use crate::shanten::{
    count_visible_in, id_count, lemma_id_count_nonneg, lemma_id_count_prefix, occurrences,
    visible_ok,
};

verus! {

/// Every tile of the expanded list of a count array is held: it names a tile with a nonzero
/// count.
pub proof fn lemma_expanded_tiles_held(c: Seq<u8>)
    requires
        c.len() <= 34,
    ensures
        forall|i: int|
            0 <= i < expand_counts(c).len() ==> {
                let id = (#[trigger] expand_counts(c)[i]).0 as int;
                0 <= id < c.len() && c[id] > 0
            },
    decreases c.len(),
{
    if c.len() > 0 {
        lemma_expanded_tiles_held(c.drop_last());
        let prev = expand_counts(c.drop_last());
        let n = c.len() - 1;
        let tail = Seq::new(c.last() as nat, |k: int| MahjongTileId(n as u8));
        assert(expand_counts(c) == prev + tail);
        assert forall|i: int| 0 <= i < expand_counts(c).len() implies {
            let id = (#[trigger] expand_counts(c)[i]).0 as int;
            0 <= id < c.len() && c[id] > 0
        } by {
            if i < prev.len() {
                assert(expand_counts(c)[i] == prev[i]);
                assert(c.drop_last()[prev[i].0 as int] == c[prev[i].0 as int]);
            } else {
                assert(expand_counts(c)[i] == tail[i - prev.len()]);
            }
        }
    }
}

/// Picks a random tile from the pool of tiles remaining, weighted by the number of copies of
/// each tile remaining (the pool must not be empty).
pub fn generate_random_tile_id(
    remaining_tile_count: MahjongTileCountArray,
    rng: &mut ThreadRng,
) -> (r: MahjongTileId)
    requires
        count_sum(remaining_tile_count.0@) > 0,
    ensures
        valid_id(r.0 as int),
        remaining_tile_count.0@[r.0 as int] > 0,
{
    let tiles_remaining = get_tile_ids_from_count_array(remaining_tile_count);
    proof {
        law_expanded_counts_total(remaining_tile_count.0@);
        lemma_expanded_tiles_held(remaining_tile_count.0@);
    }
    let n = random_index(rng, tiles_remaining.len());
    tiles_remaining[n]
}

/// Picks a random tile from the pool of tiles remaining (see `generate_random_tile_id`), with
/// the generator of the current thread.
pub fn generate_random_tile_id_rng(remaining_tile_count: MahjongTileCountArray) -> (r:
    MahjongTileId)
    requires
        count_sum(remaining_tile_count.0@) > 0,
    ensures
        valid_id(r.0 as int),
        remaining_tile_count.0@[r.0 as int] > 0,
{
    let mut rng = thread_rng();
    generate_random_tile_id(remaining_tile_count, &mut rng)
}

/// The counts with one copy of each listed tile taken out (the counts must hold them all).
pub fn remove_tile_ids_from_count_array(
    tile_count_array: MahjongTileCountArray,
    tile_ids_to_remove: &Vec<MahjongTileId>,
) -> (r: MahjongTileCountArray)
    requires
        forall|i: int|
            0 <= i < tile_ids_to_remove@.len() ==> valid_id(
                (#[trigger] tile_ids_to_remove@[i]).0 as int,
            ),
        forall|t: int|
            0 <= t < 34 ==> id_count(tile_ids_to_remove@, t) <= #[trigger] tile_count_array.0@[t],
    ensures
        forall|t: int|
            0 <= t < 34 ==> #[trigger] r.0@[t] == tile_count_array.0@[t] - id_count(
                tile_ids_to_remove@,
                t,
            ),
        count_sum(r.0@) == count_sum(tile_count_array.0@) - tile_ids_to_remove@.len(),
{
    let ids = tile_ids_to_remove;
    let mut tiles_after_remove = tile_count_array;
    let mut i: usize = 0;
    while i < ids.len()
        invariant
            i <= ids@.len(),
            forall|k: int| 0 <= k < ids@.len() ==> valid_id((#[trigger] ids@[k]).0 as int),
            forall|t: int| 0 <= t < 34 ==> id_count(ids@, t) <= #[trigger] tile_count_array.0@[t],
            forall|t: int|
                0 <= t < 34 ==> #[trigger] tiles_after_remove.0@[t] == tile_count_array.0@[t]
                    - id_count(ids@.take(i as int), t),
            count_sum(tiles_after_remove.0@) == count_sum(tile_count_array.0@) - i,
        decreases ids@.len() - i,
    {
        let id = ids[i].0 as usize;
        proof {
            assert(valid_id(ids@[i as int].0 as int));
            assert(ids@.take(i + 1).drop_last() =~= ids@.take(i as int));
            lemma_id_count_prefix(ids@, i + 1, id as int);
        }
        let ghost before = tiles_after_remove.0@;
        tiles_after_remove.0[id] = tiles_after_remove.0[id] - 1;
        proof {
            lemma_id_count_nonneg(ids@.take(i as int), id as int);
            lemma_count_sum_decrement(before, id as int);
        }
        i += 1;
    }
    assert(ids@.take(i as int) =~= ids@);
    tiles_after_remove
}

/// Taking one copy of a tile out lowers the total by one.
pub proof fn lemma_count_sum_decrement(c: Seq<u8>, i: int)
    requires
        0 <= i < c.len(),
        c[i] > 0,
    ensures
        count_sum(c.update(i, (c[i] - 1) as u8)) == count_sum(c) - 1,
    decreases c.len(),
{
    let d = c.update(i, (c[i] - 1) as u8);
    if i < c.len() - 1 {
        lemma_count_sum_decrement(c.drop_last(), i);
        assert(d.drop_last() =~= c.drop_last().update(i, (c[i] - 1) as u8));
    } else {
        assert(d.drop_last() =~= c.drop_last());
    }
}

/// Four copies of each of `n` tiles are `4 * n` tiles.
proof fn lemma_count_sum_all_fours(c: Seq<u8>)
    requires
        forall|i: int| 0 <= i < c.len() ==> c[i] == 4,
    ensures
        count_sum(c) == 4 * c.len(),
    decreases c.len(),
{
    if c.len() > 0 {
        lemma_count_sum_all_fours(c.drop_last());
    }
}

/// Occurrences of a tile are the count of its id.
pub proof fn lemma_occurrences_id_count(s: Seq<MahjongTileId>, x: MahjongTileId)
    ensures
        occurrences(s, x) == id_count(s, x.0 as int),
    decreases s.len(),
{
    if s.len() > 0 {
        lemma_occurrences_id_count(s.drop_last(), x);
    }
}

proof fn lemma_id_count_concat(a: Seq<MahjongTileId>, b: Seq<MahjongTileId>, t: int)
    ensures
        id_count(a + b, t) == id_count(a, t) + id_count(b, t),
    decreases b.len(),
{
    if b.len() == 0 {
        assert(a + b =~= a);
    } else {
        lemma_id_count_concat(a, b.drop_last(), t);
        assert((a + b).drop_last() =~= a + b.drop_last());
    }
}

proof fn lemma_id_count_copies(n: nat, v: MahjongTileId, t: int)
    ensures
        id_count(Seq::new(n, |k: int| v), t) == if v.0 == t {
            n as int
        } else {
            0int
        },
    decreases n,
{
    if n > 0 {
        lemma_id_count_copies((n - 1) as nat, v, t);
        assert(Seq::new(n, |k: int| v).drop_last() =~= Seq::new((n - 1) as nat, |k: int| v));
    }
}

/// The expanded list of a count array holds each tile as often as it is counted.
pub proof fn lemma_expand_id_count(c: Seq<u8>, t: int)
    requires
        c.len() <= 34,
    ensures
        id_count(expand_counts(c), t) == if 0 <= t < c.len() {
            c[t] as int
        } else {
            0int
        },
    decreases c.len(),
{
    if c.len() > 0 {
        let n = c.len() - 1;
        let tail = Seq::new(c.last() as nat, |k: int| MahjongTileId(n as u8));
        lemma_expand_id_count(c.drop_last(), t);
        lemma_id_count_concat(expand_counts(c.drop_last()), tail, t);
        lemma_id_count_copies(c.last() as nat, MahjongTileId(n as u8), t);
        assert(expand_counts(c) == expand_counts(c.drop_last()) + tail);
        if 0 <= t < n {
            assert(c.drop_last()[t] == c[t]);
        }
    }
}

/// The highest count of unseen ukiere tiles among the discard options: the number of copies of
/// each option's ukiere tiles not among the visible tiles (0 with no option).
pub open spec fn best_remaining(
    options: Seq<(MahjongTileId, Vec<MahjongTileId>, u16)>,
    visible: Seq<MahjongTileId>,
) -> int
    decreases options.len(),
{
    if options.len() == 0 {
        0
    } else {
        let prev = best_remaining(options.drop_last(), visible);
        let uk = options.last().1@;
        let a = 4 * uk.len() - count_visible_in(uk, visible);
        if a > prev {
            a
        } else {
            prev
        }
    }
}

/// The most unseen ukiere tiles that one of the discard options leaves (see `best_remaining`).
pub fn best_ukiere_count(
    options: &Vec<(MahjongTileId, Vec<MahjongTileId>, u16)>,
    visible_tile_ids: &Vec<MahjongTileId>,
) -> (r: u16)
    requires
        forall|k: int| 0 <= k < options@.len() ==> visible_ok(#[trigger] options@[k].1@, visible_tile_ids@),
    ensures
        r == best_remaining(options@, visible_tile_ids@),
{
    let mut max_num_ukiere_after_improve_discard: u16 = 0;
    let mut k: usize = 0;
    while k < options.len()
        invariant
            k <= options@.len(),
            forall|j: int| 0 <= j < options@.len() ==> visible_ok(#[trigger] options@[j].1@, visible_tile_ids@),
            max_num_ukiere_after_improve_discard == best_remaining(options@.take(k as int), visible_tile_ids@),
        decreases options@.len() - k,
    {
        proof {
            assert(options@.take(k + 1).drop_last() =~= options@.take(k as int));
            assert(options@.take(k + 1).last() == options@[k as int]);
        }
        let actual_num_ukiere_after_improve_discard = crate::shanten::get_num_tiles_remaining(
            &options[k].1,
            visible_tile_ids,
        );
        if actual_num_ukiere_after_improve_discard > max_num_ukiere_after_improve_discard {
            max_num_ukiere_after_improve_discard = actual_num_ukiere_after_improve_discard;
        }
        k += 1;
    }
    assert(options@.take(k as int) =~= options@);
    max_num_ukiere_after_improve_discard
}

/// Drawing tile `x` into the hand `c` (13 tiles, one from tenpai) is an improvement that the
/// analysis can follow: `x` is a real tile, the hand does not hold all four copies of it, and
/// after drawing it some discard brings the hand to tenpai.
pub open spec fn improvement_ok(c: Seq<u8>, x: MahjongTileId, visible: Seq<MahjongTileId>) -> bool {
    let c14 = c.update(x.0 as int, (c[x.0 as int] + 1) as u8);
    &&& valid_id(x.0 as int)
    &&& c[x.0 as int] < 4
    &&& exists|t: int|
        0 <= t < 34 && c14[t] > 0 && crate::shanten::spec_shanten(
            crate::shanten::after_discard(c14, t),
        ) == 0
}

/// The seen tiles are real tiles, no more than four copies of each with the hand.
pub open spec fn seen_tiles_ok(c: Seq<u8>, visible: Seq<MahjongTileId>) -> bool {
    &&& forall|i: int| 0 <= i < visible.len() ==> valid_id((#[trigger] visible[i]).0 as int)
    &&& forall|t: int| 0 <= t < 34 ==> id_count(visible, t) + #[trigger] c[t] <= 4
}

proof fn lemma_id_count_invalid(s: Seq<MahjongTileId>, t: int)
    requires
        forall|i: int| 0 <= i < s.len() ==> valid_id((#[trigger] s[i]).0 as int),
        !(0 <= t < 34),
    ensures
        id_count(s, t) == 0,
    decreases s.len(),
{
    if s.len() > 0 {
        assert forall|i: int| 0 <= i < s.drop_last().len() implies valid_id(
            (#[trigger] s.drop_last()[i]).0 as int,
        ) by {
            assert(s.drop_last()[i] == s[i]);
        }
        lemma_id_count_invalid(s.drop_last(), t);
        assert(valid_id(s[s.len() - 1].0 as int));
    }
}

/// The tiles seen after drawing an improvement and discarding: at most four copies of each.
proof fn lemma_seen_after_improvement(
    c: Seq<u8>,
    x: MahjongTileId,
    visible: Seq<MahjongTileId>,
    t: int,
    y: MahjongTileId,
)
    requires
        c.len() == 34,
        seen_tiles_ok(c, visible),
        improvement_ok(c, x, visible),
        id_count(visible, x.0 as int) + c[x.0 as int] < 4,
        0 <= t < 34,
        c.update(x.0 as int, (c[x.0 as int] + 1) as u8)[t] > 0,
    ensures
        occurrences(
            crate::shanten::visible_after_discard(
                c.update(x.0 as int, (c[x.0 as int] + 1) as u8),
                t,
                visible,
            ),
            y,
        ) <= 4,
        forall|i: int|
            0 <= i < crate::shanten::visible_after_discard(
                c.update(x.0 as int, (c[x.0 as int] + 1) as u8),
                t,
                visible,
            ).len() ==> valid_id(
                (#[trigger] crate::shanten::visible_after_discard(
                    c.update(x.0 as int, (c[x.0 as int] + 1) as u8),
                    t,
                    visible,
                )[i]).0 as int,
            ),
{
    let c14 = c.update(x.0 as int, (c[x.0 as int] + 1) as u8);
    let ad = crate::shanten::after_discard(c14, t);
    let e = expand_counts(ad);
    let v = crate::shanten::visible_after_discard(c14, t, visible);
    assert(v == (visible + e).push(crate::shanten::tid(t)));
    lemma_occurrences_id_count(v, y);
    lemma_id_count_concat(visible, e, y.0 as int);
    assert(v.drop_last() == visible + e);
    lemma_expand_id_count(ad, y.0 as int);
    lemma_expanded_tiles_held(ad);
    if 0 <= y.0 < 34 {
        assert(id_count(visible, y.0 as int) + c[y.0 as int] <= 4);
    } else {
        lemma_id_count_invalid(visible, y.0 as int);
    }
    assert forall|i: int| 0 <= i < v.len() implies valid_id((#[trigger] v[i]).0 as int) by {
        if i < visible.len() {
            assert(v[i] == visible[i]);
        } else if i < visible.len() + e.len() {
            assert(v[i] == e[i - visible.len()]);
        }
    }
}

/// The hand `c` with one more copy of tile `x`.
pub open spec fn hand_after_draw(c: Seq<u8>, x: MahjongTileId) -> Seq<u8> {
    c.update(x.0 as int, (c[x.0 as int] + 1) as u8)
}

/// Each tile held in `c` (ascending) with the shanten of the hand after discarding it.
pub open spec fn discard_shanten_list(c: Seq<u8>) -> Seq<(MahjongTileId, i8)> {
    let d = crate::mahjong_tile::distinct_counted_ids(c);
    Seq::new(
        d.len(),
        |i: int| (d[i], crate::shanten::spec_shanten(crate::shanten::after_discard(c, d[i].0 as int)) as i8),
    )
}

/// The discard options after drawing `x` into the hand `c` with the tiles `visible` seen
/// (see `ukiere_after_improvement`): the discards back to tenpai (ascending), each with its
/// ukiere tiles (each once) and the count of their unseen copies.
pub open spec fn improvement_options_ok(
    c: Seq<u8>,
    x: MahjongTileId,
    visible: Seq<MahjongTileId>,
    opts: Seq<(MahjongTileId, Vec<MahjongTileId>, u16)>,
) -> bool {
    &&& opts.map_values(|e: (MahjongTileId, Vec<MahjongTileId>, u16)| e.0)
        == crate::shanten::ids_with_shanten(discard_shanten_list(hand_after_draw(c, x)), 0)
    &&& forall|i: int| 0 <= i < opts.len() ==> (#[trigger] opts[i]).1@.no_duplicates()
    &&& forall|i: int, y: MahjongTileId|
        #![trigger opts[i].1@.contains(y)]
        0 <= i < opts.len() ==> (opts[i].1@.contains(y) <==> crate::shanten::spec_ukiere(
            crate::shanten::after_discard(hand_after_draw(c, x), opts[i].0.0 as int),
        ).contains(y))
    &&& forall|i: int|
        0 <= i < opts.len() ==> (#[trigger] opts[i]).2 == 4 * opts[i].1@.len() - count_visible_in(
            opts[i].1@,
            crate::shanten::visible_after_discard(hand_after_draw(c, x), opts[i].0.0 as int, visible),
        )
}

/// The discard options after drawing the improvement `improve` into the hand (see
/// `get_all_ukiere_after_discard`): the discards back to tenpai (ascending), each with its
/// ukiere tiles (each once) and the count of their unseen copies.
fn ukiere_after_improvement(
    hand: [u8; 34],
    improve: MahjongTileId,
    visible_tile_ids: &Vec<MahjongTileId>,
) -> (r: Vec<(MahjongTileId, Vec<MahjongTileId>, u16)>)
    requires
        count_sum(hand@) == 13,
        crate::hand_shape::honors_at_most_four(hand@),
        seen_tiles_ok(hand@, visible_tile_ids@),
        improvement_ok(hand@, improve, visible_tile_ids@),
        id_count(visible_tile_ids@, improve.0 as int) + hand@[improve.0 as int] < 4,
    ensures
        improvement_options_ok(hand@, improve, visible_tile_ids@, r@),
{
    let ghost c = hand@;
    let ghost v = visible_tile_ids@;
    let x = improve.0 as usize;
    proof {
        lemma_id_count_nonneg(v, x as int);
    }
    let mut tile_count_array_after_draw = hand;
    tile_count_array_after_draw[x] = tile_count_array_after_draw[x] + 1;
    let ghost c14 = tile_count_array_after_draw@;
    proof {
        assert(c14 == c.update(x as int, (c[x as int] + 1) as u8));
        crate::scoring::han_fu::lemma_count_sum_add_one(c, x as int);
        assert forall|h: int| 27 <= h < 34 implies #[trigger] c14[h] <= 4 by {
            lemma_id_count_nonneg(v, h);
        }
        // every discard leaves a hand of 13 tiles whose shanten and ukiere can be computed
        assert forall|t: int, a: [u8; 34]|
            0 <= t < 34 && c14[t] > 0 && a@ == crate::shanten::after_discard(c14, t) implies {
            &&& crate::hand_shape::honors_at_most_four(a@)
            &&& count_sum(a@) == 13
        } by {
            lemma_count_sum_decrement(c14, t);
            assert forall|h: int| 27 <= h < 34 implies #[trigger] a@[h] <= 4 by {
                assert(c14[h] <= 4);
            }
        }
        assert(crate::shanten::accepts_discards(crate::shanten::get_shanten_optimized, c14));
        let t0 = choose|t: int|
            0 <= t < 34 && c14[t] > 0 && crate::shanten::spec_shanten(
                crate::shanten::after_discard(c14, t),
            ) == 0;
        assert(crate::shanten::discard_certainly_gives(crate::shanten::get_shanten_optimized, c14, 0));
        assert(crate::shanten::accepts_ukiere_discards(crate::shanten::get_ukiere_optimized, c14));
        assert forall|t: int, a: [u8; 34], uk: Vec<MahjongTileId>|
            #![trigger crate::shanten::after_discard(c14, t), call_ensures(crate::shanten::get_ukiere_optimized, (a,), uk)]
            0 <= t < 34 && c14[t] > 0 && a@ == crate::shanten::after_discard(c14, t) && call_ensures(
                crate::shanten::get_ukiere_optimized,
                (a,),
                uk,
            ) implies visible_ok(uk@, crate::shanten::visible_after_discard(c14, t, v)) by {
            let vv = crate::shanten::visible_after_discard(c14, t, v);
            assert(uk@.no_duplicates());
            crate::shanten::lemma_distinct_ids_len(uk@);
            assert forall|y: MahjongTileId| uk@.contains(y) implies #[trigger] occurrences(vv, y) <= 4 by {
                lemma_seen_after_improvement(c, improve, v, t, y);
            }
            lemma_seen_after_improvement(c, improve, v, t, improve);
            crate::shanten::lemma_count_visible_bound(uk@, vv);
        }
    }
    let r = crate::shanten::get_all_ukiere_after_discard(
        tile_count_array_after_draw,
        0,
        &crate::shanten::get_shanten_optimized,
        &crate::shanten::get_ukiere_optimized,
        visible_tile_ids,
    );
    proof {
        let list = choose|list: Seq<(MahjongTileId, i8)>|
            {
                &&& crate::shanten::discard_list_ok(crate::shanten::get_shanten_optimized, c14, list)
                &&& r@.map_values(|e: (MahjongTileId, Vec<MahjongTileId>, u16)| e.0)
                    == crate::shanten::ids_with_shanten(list, 0)
                &&& forall|k: int|
                    0 <= k < r@.len() ==> crate::shanten::ukiere_entry_ok(
                        crate::shanten::get_ukiere_optimized,
                        c14,
                        v,
                        (#[trigger] r@[k]).0,
                        r@[k].1,
                        r@[k].2,
                    )
            };
        let d = crate::mahjong_tile::distinct_counted_ids(c14);
        let dl = discard_shanten_list(c14);
        assert(c14 == hand_after_draw(c, improve));
        assert(list.map_values(|p: (MahjongTileId, i8)| p.0).len() == d.len());
        assert forall|i: int| 0 <= i < list.len() implies list[i] == dl[i] by {
            assert(list.map_values(|p: (MahjongTileId, i8)| p.0)[i] == d[i]);
            assert(crate::shanten::discard_gives(
                crate::shanten::get_shanten_optimized,
                c14,
                list[i].0.0 as int,
                list[i].1,
            ));
            let a = choose|a: [u8; 34]|
                a@ == crate::shanten::after_discard(c14, list[i].0.0 as int) && call_ensures(
                    crate::shanten::get_shanten_optimized,
                    (a,),
                    list[i].1,
                );
            assert(list[i].1 == crate::shanten::spec_shanten(a@));
        }
        assert(list =~= dl);
        assert forall|i: int| 0 <= i < r@.len() implies {
            &&& (#[trigger] r@[i]).1@.no_duplicates()
            &&& forall|y: MahjongTileId|
                r@[i].1@.contains(y) <==> crate::shanten::spec_ukiere(
                    crate::shanten::after_discard(c14, r@[i].0.0 as int),
                ).contains(y)
        } by {
            assert(crate::shanten::ukiere_entry_ok(
                crate::shanten::get_ukiere_optimized,
                c14,
                v,
                r@[i].0,
                r@[i].1,
                r@[i].2,
            ));
            let a = choose|a: [u8; 34]|
                a@ == crate::shanten::after_discard(c14, r@[i].0.0 as int) && call_ensures(
                    crate::shanten::get_ukiere_optimized,
                    (a,),
                    r@[i].1,
                );
        }
        assert forall|i: int|
            0 <= i < r@.len() implies (#[trigger] r@[i]).2 == 4 * r@[i].1@.len() - count_visible_in(
                r@[i].1@,
                crate::shanten::visible_after_discard(c14, r@[i].0.0 as int, v),
            ) by {
            assert(crate::shanten::ukiere_entry_ok(
                crate::shanten::get_ukiere_optimized,
                c14,
                v,
                r@[i].0,
                r@[i].1,
                r@[i].2,
            ));
        }
    }
    r
}

/// What a basic analysis found over its trials.
pub struct BasicAnalysisSummary {
    pub num_trials: u32,
    pub max_allowed_draws: u16,
    /// how many trials reached tenpai within the allowed draws
    pub num_times_reached_tenpai: u32,
    /// the draws it took, added up over the trials that reached tenpai
    pub total_num_turns_to_reach_tenpai: u64,
    /// the unseen ukiere tiles at tenpai (choosing the discard that leaves the most), added up
    /// over the trials that reached tenpai
    pub total_num_ukiere_at_tenpai: u64,
    /// how many trials reached tenpai on each draw, from the first draw on
    pub count_turns_reached_tenpai: Vec<u32>,
}

/// The sum of the counts.
pub open spec fn count_total(s: Seq<u32>) -> int
    decreases s.len(),
{
    if s.len() == 0 {
        0
    } else {
        count_total(s.drop_last()) + s.last()
    }
}

/// The sum of the counts, each weighted by its draw number (its index plus one).
pub open spec fn turn_total(s: Seq<u32>) -> int
    decreases s.len(),
{
    if s.len() == 0 {
        0
    } else {
        turn_total(s.drop_last()) + s.len() * s.last()
    }
}

proof fn lemma_totals_increment(s: Seq<u32>, d: int)
    requires
        0 <= d < s.len(),
        s[d] < u32::MAX,
    ensures
        count_total(s.update(d, (s[d] + 1) as u32)) == count_total(s) + 1,
        turn_total(s.update(d, (s[d] + 1) as u32)) == turn_total(s) + d + 1,
    decreases s.len(),
{
    let u = s.update(d, (s[d] + 1) as u32);
    if d < s.len() - 1 {
        lemma_totals_increment(s.drop_last(), d);
        assert(u.drop_last() =~= s.drop_last().update(d, (s[d] + 1) as u32));
    } else {
        assert(u.drop_last() =~= s.drop_last());
        assert(s.len() * u.last() == s.len() * s.last() + s.len()) by (nonlinear_arith)
            requires
                u.last() == s.last() + 1,
        ;
    }
}

proof fn lemma_totals_zero(s: Seq<u32>)
    requires
        forall|i: int| 0 <= i < s.len() ==> s[i] == 0,
    ensures
        count_total(s) == 0,
        turn_total(s) == 0,
    decreases s.len(),
{
    if s.len() > 0 {
        lemma_totals_zero(s.drop_last());
    }
}

proof fn lemma_best_remaining_bound(options: Seq<(MahjongTileId, Vec<MahjongTileId>, u16)>, visible: Seq<MahjongTileId>)
    requires
        forall|k: int| 0 <= k < options.len() ==> (#[trigger] options[k]).1@.len() <= 256,
    ensures
        0 <= best_remaining(options, visible) <= 1024,
    decreases options.len(),
{
    if options.len() > 0 {
        assert forall|k: int| 0 <= k < options.drop_last().len() implies (#[trigger] options.drop_last()[k]).1@.len() <= 256 by {
            assert(options.drop_last()[k] == options[k]);
        }
        lemma_best_remaining_bound(options.drop_last(), visible);
        crate::shanten::lemma_visible_counts_nonneg(options.last().1@, visible, MahjongTileId(0));
        assert(options.last() == options[options.len() - 1]);
    }
}

/// The tiles seen before a trial (the visible tiles, then the hand) and the counts of the tiles
/// not seen: four of each, less the seen ones.
fn unseen_tiles(hand: [u8; 34], visible_tile_ids: &Vec<MahjongTileId>) -> (r: (
    Vec<MahjongTileId>,
    MahjongTileCountArray,
))
    requires
        count_sum(hand@) == 13,
        seen_tiles_ok(hand@, visible_tile_ids@),
    ensures
        r.0@ == visible_tile_ids@ + expand_counts(hand@),
        r.0@.len() == visible_tile_ids@.len() + 13,
        forall|i: int| 0 <= i < r.0@.len() ==> valid_id((#[trigger] r.0@[i]).0 as int),
        forall|t: int|
            0 <= t < 34 ==> #[trigger] id_count(r.0@, t) == id_count(visible_tile_ids@, t) + hand@[t],
        forall|t: int| 0 <= t < 34 ==> #[trigger] r.1.0@[t] == 4 - id_count(r.0@, t),
        count_sum(r.1.0@) == 136 - r.0@.len(),
{
    let ghost c = hand@;
    let ghost v = visible_tile_ids@;
    let seen = crate::shanten::combine_tile_ids_from_count_array_and_vec(hand, visible_tile_ids);
    let full = four_of_each_tile_count_array();
    proof {
        let tv = seen@;
        crate::mahjong_tile::law_expanded_counts_total(c);
        lemma_expanded_tiles_held(c);
        assert forall|t: int| 0 <= t < 34 implies #[trigger] id_count(tv, t) == id_count(v, t) + c[t] by {
            lemma_id_count_concat(v, expand_counts(c), t);
            lemma_expand_id_count(c, t);
        }
        assert forall|t: int| 0 <= t < 34 implies id_count(tv, t) <= #[trigger] full.0@[t] by {
            assert(id_count(tv, t) == id_count(v, t) + c[t]);
        }
        assert forall|i: int| 0 <= i < tv.len() implies valid_id((#[trigger] tv[i]).0 as int) by {
            if i >= v.len() {
                assert(tv[i] == expand_counts(c)[i - v.len()]);
            }
        }
        lemma_count_sum_all_fours(full.0@);
    }
    let unseen = remove_tile_ids_from_count_array(full, &seen);
    (seen, unseen)
}

/// Draws `n` tiles at random, one after another, from the tiles not seen, without putting them
/// back.
pub fn draw_tiles(remaining_tile_count: MahjongTileCountArray, n: u16) -> (r: Vec<MahjongTileId>)
    requires
        count_sum(remaining_tile_count.0@) >= n,
    ensures
        r@.len() == n,
        forall|i: int| 0 <= i < r@.len() ==> valid_id((#[trigger] r@[i]).0 as int),
        forall|t: int| 0 <= t < 34 ==> #[trigger] id_count(r@, t) <= remaining_tile_count.0@[t],
{
    let ghost orig = remaining_tile_count.0@;
    let mut remaining = remaining_tile_count;
    let mut draws: Vec<MahjongTileId> = Vec::new();
    let mut k: u16 = 0;
    while k < n
        invariant
            k <= n,
            draws@.len() == k,
            count_sum(remaining.0@) == count_sum(orig) - k,
            count_sum(orig) >= n,
            forall|t: int| 0 <= t < 34 ==> #[trigger] remaining.0@[t] + id_count(draws@, t) == orig[t],
            forall|i: int| 0 <= i < draws@.len() ==> valid_id((#[trigger] draws@[i]).0 as int),
        decreases n - k,
    {
        let drawn_tile_id = generate_random_tile_id_rng(remaining);
        let x = drawn_tile_id.0 as usize;
        let ghost rem_before = remaining.0@;
        let ghost draws_before = draws@;
        remaining.0[x] = remaining.0[x] - 1;
        draws.push(drawn_tile_id);
        proof {
            lemma_count_sum_decrement(rem_before, x as int);
            assert(draws@.drop_last() == draws_before);
            assert forall|t: int| 0 <= t < 34 implies #[trigger] remaining.0@[t] + id_count(draws@, t)
                == orig[t] by {
                assert(rem_before[t] + id_count(draws_before, t) == orig[t]);
            }
        }
        k += 1;
    }
    proof {
        assert forall|t: int| 0 <= t < 34 implies #[trigger] id_count(draws@, t) <= orig[t] by {
            assert(remaining.0@[t] + id_count(draws@, t) == orig[t]);
        }
    }
    draws
}

/// The first draw that is an ukiere tile: it is one, and no draw before it is.
pub open spec fn first_ukiere_draw(ukiere: Seq<MahjongTileId>, draws: Seq<MahjongTileId>, d: int) -> bool {
    &&& 0 <= d < draws.len()
    &&& ukiere.contains(draws[d])
    &&& forall|j: int| 0 <= j < d ==> !ukiere.contains(#[trigger] draws[j])
}

/// The outcome of one trial on the draws `draws` (see `run_trial`): the number of the first draw
/// that is an ukiere tile and the unseen ukiere tiles the best discard then leaves, or `None`
/// where no draw is an ukiere tile.
pub open spec fn trial_outcome(
    ukiere: Seq<MahjongTileId>,
    options: Seq<Vec<(MahjongTileId, Vec<MahjongTileId>, u16)>>,
    seen: Seq<MahjongTileId>,
    draws: Seq<MahjongTileId>,
) -> Option<(int, int)> {
    if exists|d: int| first_ukiere_draw(ukiere, draws, d) {
        let d = choose|d: int| first_ukiere_draw(ukiere, draws, d);
        let i = choose|i: int| 0 <= i < ukiere.len() && ukiere[i] == draws[d];
        Some((d + 1, best_remaining(options[i]@, seen + draws.take(d + 1))))
    } else {
        None
    }
}

/// One trial of the basic analysis on given draws: the hand reaches tenpai on the first draw
/// that is one of its ukiere tiles. Returns that draw's number (from 1) and the unseen ukiere
/// tiles that the best discard then leaves, counted against the tiles seen before the trial and
/// the draws up to it (see `best_ukiere_count`); `None` where no draw is an ukiere tile.
/// `options_after_draw[i]` holds the discard options after drawing `ukiere_tile_ids[i]`.
pub fn run_trial(
    ukiere_tile_ids: &Vec<MahjongTileId>,
    options_after_draw: &Vec<Vec<(MahjongTileId, Vec<MahjongTileId>, u16)>>,
    seen_before_draws: &Vec<MahjongTileId>,
    draws: &Vec<MahjongTileId>,
) -> (r: Option<(u16, u16)>)
    requires
        ukiere_tile_ids@.no_duplicates(),
        options_after_draw@.len() == ukiere_tile_ids@.len(),
        forall|j: int, i: int|
            0 <= j < options_after_draw@.len() && 0 <= i < options_after_draw@[j]@.len()
                ==> (#[trigger] options_after_draw@[j]@[i]).1@.no_duplicates(),
        draws@.len() <= u16::MAX,
        forall|i: int|
            0 <= i < (seen_before_draws@ + draws@).len() ==> valid_id(
                (#[trigger] (seen_before_draws@ + draws@)[i]).0 as int,
            ),
        forall|t: int| 0 <= t < 34 ==> #[trigger] id_count(seen_before_draws@ + draws@, t) <= 4,
    ensures
        r is None <==> forall|j: int| 0 <= j < draws@.len() ==> !ukiere_tile_ids@.contains(
            #[trigger] draws@[j],
        ),
        r matches Some(res) ==> {
            &&& first_ukiere_draw(ukiere_tile_ids@, draws@, res.0 - 1)
            &&& forall|i: int|
                0 <= i < ukiere_tile_ids@.len() && ukiere_tile_ids@[i] == draws@[res.0 - 1]
                    ==> res.1 == best_remaining(
                    (#[trigger] options_after_draw@[i])@,
                    seen_before_draws@ + draws@.take(res.0 as int),
                )
            &&& res.1 <= 1024
        },
        match r {
            None => trial_outcome(ukiere_tile_ids@, options_after_draw@, seen_before_draws@, draws@)
                is None,
            Some(res) => trial_outcome(
                ukiere_tile_ids@,
                options_after_draw@,
                seen_before_draws@,
                draws@,
            ) == Some((res.0 as int, res.1 as int)),
        },
{
    let ghost all = seen_before_draws@ + draws@;
    let ghost ukiere = ukiere_tile_ids@;
    let mut seen = crate::shanten::copy_tile_ids(seen_before_draws);
    assert(seen@ =~= seen_before_draws@ + draws@.take(0));
    let mut d: usize = 0;
    while d < draws.len()
        invariant
            d <= draws@.len(),
            all == seen_before_draws@ + draws@,
            ukiere == ukiere_tile_ids@,
            seen@ == seen_before_draws@ + draws@.take(d as int),
            forall|j: int| 0 <= j < d ==> !ukiere.contains(#[trigger] draws@[j]),
            ukiere.no_duplicates(),
            options_after_draw@.len() == ukiere.len(),
            forall|j: int, i: int|
                0 <= j < options_after_draw@.len() && 0 <= i < options_after_draw@[j]@.len()
                    ==> (#[trigger] options_after_draw@[j]@[i]).1@.no_duplicates(),
            draws@.len() <= u16::MAX,
            forall|i: int| 0 <= i < all.len() ==> valid_id((#[trigger] all[i]).0 as int),
            forall|t: int| 0 <= t < 34 ==> #[trigger] id_count(all, t) <= 4,
        decreases draws@.len() - d,
    {
        let drawn_tile_id = draws[d];
        seen.push(drawn_tile_id);
        proof {
            assert(draws@.take(d + 1) == draws@.take(d as int).push(drawn_tile_id));
        }
        if crate::shanten::ids_contain(ukiere_tile_ids, drawn_tile_id) {
            let mut j: usize = 0;
            while j < ukiere_tile_ids.len() && ukiere_tile_ids[j] != drawn_tile_id
                invariant
                    j <= ukiere.len(),
                    ukiere == ukiere_tile_ids@,
                    forall|i: int| 0 <= i < j ==> ukiere[i] != drawn_tile_id,
                decreases ukiere.len() - j,
            {
                j += 1;
            }
            assert(j < ukiere.len()) by {
                if j >= ukiere.len() {
                    let i = choose|i: int| 0 <= i < ukiere.len() && ukiere[i] == drawn_tile_id;
                    assert(ukiere[i] != drawn_tile_id);
                }
            }
            let ukiere_options = &options_after_draw[j];
            proof {
                let tv = seen@;
                let n = d + 1;
                assert(tv == seen_before_draws@ + draws@.take(n as int));
                assert(all.take(seen_before_draws@.len() + n) =~= tv);
                assert forall|i: int| 0 <= i < tv.len() implies valid_id((#[trigger] tv[i]).0 as int) by {
                    assert(tv[i] == all[i]);
                }
                assert forall|k: int| 0 <= k < ukiere_options@.len() implies visible_ok(
                    #[trigger] ukiere_options@[k].1@,
                    tv,
                ) by {
                    let uk = ukiere_options@[k].1@;
                    assert(uk.no_duplicates());
                    crate::shanten::lemma_distinct_ids_len(uk);
                    assert forall|y: MahjongTileId| uk.contains(y) implies #[trigger] occurrences(tv, y) <= 4 by {
                        lemma_occurrences_id_count(tv, y);
                        if 0 <= y.0 < 34 {
                            crate::shanten::lemma_id_count_prefix(
                                all,
                                seen_before_draws@.len() + n,
                                y.0 as int,
                            );
                            assert(id_count(all, y.0 as int) <= 4);
                        } else {
                            lemma_id_count_invalid(tv, y.0 as int);
                        }
                    }
                    crate::shanten::lemma_count_visible_bound(uk, tv);
                }
                assert forall|k: int| 0 <= k < ukiere_options@.len() implies (#[trigger] ukiere_options@[k]).1@.len() <= 256 by {
                    crate::shanten::lemma_distinct_ids_len(ukiere_options@[k].1@);
                }
                lemma_best_remaining_bound(ukiere_options@, tv);
                assert forall|i: int|
                    0 <= i < ukiere.len() && ukiere[i] == drawn_tile_id implies i == j by {
                    if i != j {
                        assert(ukiere[i] != ukiere[j as int]);
                    }
                }
            }
            // the drawn tile reaches tenpai: keep the discard that leaves the most ukiere
            let count = best_ukiere_count(ukiere_options, &seen);
            let draw_number = (d + 1) as u16;
            proof {
                let dd = d as int;
                assert(first_ukiere_draw(ukiere, draws@, dd));
                let d2 = choose|d2: int| first_ukiere_draw(ukiere, draws@, d2);
                if d2 < dd {
                    assert(!ukiere.contains(draws@[d2]));
                }
                if d2 > dd {
                    assert(!ukiere.contains(draws@[dd]));
                }
                assert(d2 == dd);
                let i2 = choose|i2: int| 0 <= i2 < ukiere.len() && ukiere[i2] == draws@[d2];
                assert(ukiere[j as int] == drawn_tile_id);
                assert(i2 == j);
                assert(seen@ == seen_before_draws@ + draws@.take(dd + 1));
            }
            return Some((draw_number, count));
        }
        d += 1;
    }
    proof {
        assert forall|dd: int| !first_ukiere_draw(ukiere, draws@, dd) by {
            if 0 <= dd < draws@.len() {
                assert(!ukiere.contains(draws@[dd]));
            }
        }
    }
    None
}

/// How many of the outcomes reach tenpai.
pub open spec fn tenpai_count(outs: Seq<Option<(int, int)>>) -> int
    decreases outs.len(),
{
    if outs.len() == 0 {
        0
    } else {
        tenpai_count(outs.drop_last()) + if outs.last() is Some {
            1int
        } else {
            0int
        }
    }
}

/// How many of the outcomes reach tenpai on draw `n`.
pub open spec fn tenpai_count_at(outs: Seq<Option<(int, int)>>, n: int) -> int
    decreases outs.len(),
{
    if outs.len() == 0 {
        0
    } else {
        tenpai_count_at(outs.drop_last(), n) + if outs.last() matches Some(o) && o.0 == n {
            1int
        } else {
            0int
        }
    }
}

/// The draws the outcomes took to reach tenpai, added up.
pub open spec fn turns_total(outs: Seq<Option<(int, int)>>) -> int
    decreases outs.len(),
{
    if outs.len() == 0 {
        0
    } else {
        turns_total(outs.drop_last()) + match outs.last() {
            Some(o) => o.0,
            None => 0,
        }
    }
}

/// The unseen ukiere tiles at tenpai of the outcomes, added up.
pub open spec fn ukiere_total(outs: Seq<Option<(int, int)>>) -> int
    decreases outs.len(),
{
    if outs.len() == 0 {
        0
    } else {
        ukiere_total(outs.drop_last()) + match outs.last() {
            Some(o) => o.1,
            None => 0,
        }
    }
}

/// The outcome of each trial (see `trial_outcome`).
pub open spec fn trial_outcomes(
    ukiere: Seq<MahjongTileId>,
    options: Seq<Vec<(MahjongTileId, Vec<MahjongTileId>, u16)>>,
    seen: Seq<MahjongTileId>,
    trials: Seq<Vec<MahjongTileId>>,
) -> Seq<Option<(int, int)>> {
    Seq::new(trials.len(), |j: int| trial_outcome(ukiere, options, seen, trials[j]@))
}

/// The summary counts what the outcomes reached: how many reached tenpai, on which draw, after
/// how many draws in all, and with how many unseen ukiere tiles in all.
pub open spec fn summary_of(r: BasicAnalysisSummary, outs: Seq<Option<(int, int)>>) -> bool {
    &&& r.num_trials == outs.len()
    &&& r.count_turns_reached_tenpai@.len() == r.max_allowed_draws
    &&& r.num_times_reached_tenpai == tenpai_count(outs)
    &&& r.total_num_turns_to_reach_tenpai == turns_total(outs)
    &&& r.total_num_ukiere_at_tenpai == ukiere_total(outs)
    &&& forall|d: int|
        0 <= d < r.max_allowed_draws ==> #[trigger] r.count_turns_reached_tenpai@[d]
            == tenpai_count_at(outs, d + 1)
}

/// The draws of a trial: `n` tiles not among the seen ones (no tile more than four times in
/// all).
pub open spec fn trial_draws_ok(seen: Seq<MahjongTileId>, draws: Seq<MahjongTileId>, n: int) -> bool {
    &&& draws.len() == n
    &&& forall|i: int| 0 <= i < (seen + draws).len() ==> valid_id((#[trigger] (seen + draws)[i]).0 as int)
    &&& forall|t: int| 0 <= t < 34 ==> #[trigger] id_count(seen + draws, t) <= 4
}

proof fn lemma_outcome_totals_step(outs: Seq<Option<(int, int)>>, o: Option<(int, int)>)
    ensures
        tenpai_count(outs.push(o)) == tenpai_count(outs) + if o is Some {
            1int
        } else {
            0int
        },
        turns_total(outs.push(o)) == turns_total(outs) + match o {
            Some(p) => p.0,
            None => 0,
        },
        ukiere_total(outs.push(o)) == ukiere_total(outs) + match o {
            Some(p) => p.1,
            None => 0,
        },
        forall|n: int|
            #[trigger] tenpai_count_at(outs.push(o), n) == tenpai_count_at(outs, n) + if o matches Some(
                p,
            ) && p.0 == n {
                1int
            } else {
                0int
            },
{
    assert(outs.push(o).drop_last() =~= outs);
}

/// Counts the outcomes of trials on given draws (see `run_trial`): each trial draws the tiles
/// of one entry of `trials`, in order, after the tiles `seen_before_draws` were seen.
pub fn summarize_trials(
    ukiere_tile_ids: &Vec<MahjongTileId>,
    options_after_draw: &Vec<Vec<(MahjongTileId, Vec<MahjongTileId>, u16)>>,
    seen_before_draws: &Vec<MahjongTileId>,
    trials: &Vec<Vec<MahjongTileId>>,
    max_allowed_draws: u16,
) -> (r: BasicAnalysisSummary)
    requires
        ukiere_tile_ids@.no_duplicates(),
        options_after_draw@.len() == ukiere_tile_ids@.len(),
        forall|j: int, i: int|
            0 <= j < options_after_draw@.len() && 0 <= i < options_after_draw@[j]@.len()
                ==> (#[trigger] options_after_draw@[j]@[i]).1@.no_duplicates(),
        trials@.len() <= u32::MAX,
        forall|j: int|
            0 <= j < trials@.len() ==> trial_draws_ok(
                seen_before_draws@,
                (#[trigger] trials@[j])@,
                max_allowed_draws as int,
            ),
    ensures
        r.max_allowed_draws == max_allowed_draws,
        summary_of(
            r,
            trial_outcomes(ukiere_tile_ids@, options_after_draw@, seen_before_draws@, trials@),
        ),
        r.num_times_reached_tenpai <= r.num_trials,
        count_total(r.count_turns_reached_tenpai@) == r.num_times_reached_tenpai,
        turn_total(r.count_turns_reached_tenpai@) == r.total_num_turns_to_reach_tenpai,
        r.total_num_ukiere_at_tenpai <= 1024 * r.num_times_reached_tenpai,
{
    let ghost outs = trial_outcomes(ukiere_tile_ids@, options_after_draw@, seen_before_draws@, trials@);
    let mut num_times_reached_tenpai: u32 = 0;
    let mut total_num_turns_to_reach_tenpai: u64 = 0;
    let mut total_num_ukiere_at_tenpai: u64 = 0;
    let mut count_turns_reached_tenpai: Vec<u32> = Vec::new();
    let mut d: u16 = 0;
    while d < max_allowed_draws
        invariant
            d <= max_allowed_draws,
            count_turns_reached_tenpai@.len() == d,
            forall|i: int| 0 <= i < d ==> count_turns_reached_tenpai@[i] == 0,
        decreases max_allowed_draws - d,
    {
        count_turns_reached_tenpai.push(0);
        d += 1;
    }
    proof {
        lemma_totals_zero(count_turns_reached_tenpai@);
        assert(outs.take(0) =~= Seq::<Option<(int, int)>>::empty());
        assert forall|dd: int| 0 <= dd < max_allowed_draws implies #[trigger] count_turns_reached_tenpai@[dd]
            == tenpai_count_at(outs.take(0), dd + 1) by {}
    }
    let mut j: usize = 0;
    while j < trials.len()
        invariant
            j <= trials@.len(),
            outs == trial_outcomes(ukiere_tile_ids@, options_after_draw@, seen_before_draws@, trials@),
            ukiere_tile_ids@.no_duplicates(),
            options_after_draw@.len() == ukiere_tile_ids@.len(),
            forall|jj: int, i: int|
                0 <= jj < options_after_draw@.len() && 0 <= i < options_after_draw@[jj]@.len()
                    ==> (#[trigger] options_after_draw@[jj]@[i]).1@.no_duplicates(),
            trials@.len() <= u32::MAX,
            forall|jj: int|
                0 <= jj < trials@.len() ==> trial_draws_ok(
                    seen_before_draws@,
                    (#[trigger] trials@[jj])@,
                    max_allowed_draws as int,
                ),
            count_turns_reached_tenpai@.len() == max_allowed_draws,
            num_times_reached_tenpai == tenpai_count(outs.take(j as int)),
            total_num_turns_to_reach_tenpai == turns_total(outs.take(j as int)),
            total_num_ukiere_at_tenpai == ukiere_total(outs.take(j as int)),
            forall|dd: int|
                0 <= dd < max_allowed_draws ==> #[trigger] count_turns_reached_tenpai@[dd]
                    == tenpai_count_at(outs.take(j as int), dd + 1),
            count_total(count_turns_reached_tenpai@) == num_times_reached_tenpai,
            turn_total(count_turns_reached_tenpai@) == total_num_turns_to_reach_tenpai,
            num_times_reached_tenpai <= j,
            total_num_turns_to_reach_tenpai <= j * max_allowed_draws,
            total_num_ukiere_at_tenpai <= 1024 * num_times_reached_tenpai,
        decreases trials@.len() - j,
    {
        proof {
            assert(trial_draws_ok(seen_before_draws@, trials@[j as int]@, max_allowed_draws as int));
        }
        let outcome = run_trial(
            ukiere_tile_ids,
            options_after_draw,
            seen_before_draws,
            &trials[j],
        );
        let ghost o = outs[j as int];
        proof {
            assert(outs.take(j + 1) =~= outs.take(j as int).push(o));
            lemma_outcome_totals_step(outs.take(j as int), o);
        }
        match outcome {
            Some((draw_number, max_num_ukiere_after_improve_discard)) => {
                let ghost counts_before = count_turns_reached_tenpai@;
                let draw_number_index = (draw_number - 1) as usize;
                proof {
                    assert(1 <= draw_number <= max_allowed_draws);
                    lemma_count_total_each(counts_before, draw_number_index as int);
                    assert(j * max_allowed_draws + draw_number <= (j + 1) * max_allowed_draws)
                        by (nonlinear_arith)
                        requires
                            draw_number <= max_allowed_draws,
                    ;
                    assert((j + 1) * max_allowed_draws <= 0x1_0000_0000 * 0x1_0000)
                        by (nonlinear_arith)
                        requires
                            j + 1 <= 0x1_0000_0000,
                            max_allowed_draws <= 0xffff,
                    ;
                }
                num_times_reached_tenpai = num_times_reached_tenpai + 1;
                total_num_turns_to_reach_tenpai = total_num_turns_to_reach_tenpai
                    + draw_number as u64;
                count_turns_reached_tenpai.set(
                    draw_number_index,
                    count_turns_reached_tenpai[draw_number_index] + 1,
                );
                total_num_ukiere_at_tenpai = total_num_ukiere_at_tenpai
                    + max_num_ukiere_after_improve_discard as u64;
                proof {
                    lemma_totals_increment(counts_before, draw_number_index as int);
                    assert(count_turns_reached_tenpai@ == counts_before.update(
                        draw_number_index as int,
                        (counts_before[draw_number_index as int] + 1) as u32,
                    ));
                    assert forall|dd: int| 0 <= dd < max_allowed_draws implies #[trigger] count_turns_reached_tenpai@[dd]
                        == tenpai_count_at(outs.take(j + 1), dd + 1) by {
                        assert(tenpai_count_at(outs.take(j + 1), dd + 1) == tenpai_count_at(
                            outs.take(j as int),
                            dd + 1,
                        ) + if o matches Some(p) && p.0 == dd + 1 {
                            1int
                        } else {
                            0int
                        });
                        if dd != draw_number_index {
                            assert(count_turns_reached_tenpai@[dd] == counts_before[dd]);
                        }
                    }
                }
            },
            None => {
                proof {
                    assert(j * max_allowed_draws <= (j + 1) * max_allowed_draws)
                        by (nonlinear_arith);
                    assert forall|dd: int| 0 <= dd < max_allowed_draws implies #[trigger] count_turns_reached_tenpai@[dd]
                        == tenpai_count_at(outs.take(j + 1), dd + 1) by {
                        assert(tenpai_count_at(outs.take(j + 1), dd + 1) == tenpai_count_at(
                            outs.take(j as int),
                            dd + 1,
                        ));
                    }
                }
            },
        }
        j += 1;
    }
    proof {
        assert(outs.take(j as int) =~= outs);
    }
    BasicAnalysisSummary {
        num_trials: trials.len() as u32,
        max_allowed_draws,
        num_times_reached_tenpai,
        total_num_turns_to_reach_tenpai,
        total_num_ukiere_at_tenpai,
        count_turns_reached_tenpai,
    }
}

/// The ukiere tiles of the hand `c` (each once) and, for each of them in turn, the discard
/// options after drawing it (none for a tile with no copy left unseen).
pub open spec fn analysis_tables_ok(
    c: Seq<u8>,
    visible: Seq<MahjongTileId>,
    ukiere: Seq<MahjongTileId>,
    options: Seq<Vec<(MahjongTileId, Vec<MahjongTileId>, u16)>>,
) -> bool {
    &&& ukiere.no_duplicates()
    &&& forall|x: MahjongTileId| #[trigger] ukiere.contains(x) <==> crate::shanten::spec_ukiere(c).contains(x)
    &&& options.len() == ukiere.len()
    &&& forall|k: int|
        0 <= k < ukiere.len() ==> if id_count(visible, ukiere[k].0 as int) + c[ukiere[k].0 as int] < 4 {
            improvement_options_ok(c, ukiere[k], visible, (#[trigger] options[k])@)
        } else {
            options[k]@.len() == 0
        }
}

/// Runs a basic analysis of a hand one step from tenpai: in each trial, tiles are drawn at
/// random from the tiles not seen (all tiles but the hand and the visible ones, without
/// replacement), and the trial reaches tenpai on the first draw that is an ukiere tile of the
/// hand, within the allowed number of draws, with as many unseen ukiere tiles as the best
/// discard then leaves (see `run_trial`); the summary counts the trials' outcomes (see
/// `summarize_trials`). Only the ukiere tiles count, not the tiles that would upgrade the hand.
pub fn run_basic_analysis(
    starting_hand: MahjongTileCountArray,
    visible_tile_ids: &Vec<MahjongTileId>,
    num_trials: u32,
    max_allowed_draws: u16,
) -> (r: BasicAnalysisSummary)
    requires
        count_sum(starting_hand.0@) == 13,
        crate::hand_shape::honors_at_most_four(starting_hand.0@),
        crate::shanten::spec_shanten(starting_hand.0@) == 1,
        seen_tiles_ok(starting_hand.0@, visible_tile_ids@),
        forall|x: MahjongTileId|
            #[trigger] crate::shanten::spec_ukiere(starting_hand.0@).contains(x) ==> improvement_ok(
                starting_hand.0@,
                x,
                visible_tile_ids@,
            ),
        visible_tile_ids@.len() + 13 + max_allowed_draws <= 136,
    ensures
        r.num_trials == num_trials,
        r.max_allowed_draws == max_allowed_draws,
        exists|
            ukiere: Seq<MahjongTileId>,
            options: Seq<Vec<(MahjongTileId, Vec<MahjongTileId>, u16)>>,
            trials: Seq<Vec<MahjongTileId>>,
        |
            {
                &&& analysis_tables_ok(starting_hand.0@, visible_tile_ids@, ukiere, options)
                &&& trials.len() == num_trials
                &&& forall|j: int|
                    0 <= j < trials.len() ==> trial_draws_ok(
                        visible_tile_ids@ + expand_counts(starting_hand.0@),
                        (#[trigger] trials[j])@,
                        max_allowed_draws as int,
                    )
                &&& summary_of(
                    r,
                    trial_outcomes(
                        ukiere,
                        options,
                        visible_tile_ids@ + expand_counts(starting_hand.0@),
                        trials,
                    ),
                )
            },
        r.num_times_reached_tenpai <= num_trials,
        count_total(r.count_turns_reached_tenpai@) == r.num_times_reached_tenpai,
        turn_total(r.count_turns_reached_tenpai@) == r.total_num_turns_to_reach_tenpai,
        r.total_num_ukiere_at_tenpai <= 1024 * r.num_times_reached_tenpai,
{
    let ghost c = starting_hand.0@;
    let ghost v = visible_tile_ids@;
    let starting_ukiere_tile_ids = crate::shanten::get_ukiere_optimized(starting_hand.0);
    let ghost ukiere = starting_ukiere_tile_ids@;
    let (seen_initially, unseen_initially) = unseen_tiles(starting_hand.0, visible_tile_ids);
    // precompute the discard options (and their ukiere tiles) after each improvement draw; a
    // tile with no copy left unseen is never drawn and gets no options
    let mut draw_tile_id_to_ukiere_tile_ids: Vec<Vec<(MahjongTileId, Vec<MahjongTileId>, u16)>> =
        Vec::new();
    let mut k: usize = 0;
    while k < starting_ukiere_tile_ids.len()
        invariant
            k <= ukiere.len(),
            ukiere == starting_ukiere_tile_ids@,
            c == starting_hand.0@,
            v == visible_tile_ids@,
            count_sum(c) == 13,
            crate::hand_shape::honors_at_most_four(c),
            seen_tiles_ok(c, v),
            forall|x: MahjongTileId| ukiere.contains(x) ==> improvement_ok(c, x, v),
            forall|t: int|
                0 <= t < 34 ==> #[trigger] unseen_initially.0@[t] == 4 - (id_count(v, t) + c[t]),
            draw_tile_id_to_ukiere_tile_ids@.len() == k,
            forall|kk: int|
                0 <= kk < k ==> if id_count(v, ukiere[kk].0 as int) + c[ukiere[kk].0 as int] < 4 {
                    improvement_options_ok(
                        c,
                        ukiere[kk],
                        v,
                        (#[trigger] draw_tile_id_to_ukiere_tile_ids@[kk])@,
                    )
                } else {
                    draw_tile_id_to_ukiere_tile_ids@[kk]@.len() == 0
                },
        decreases ukiere.len() - k,
    {
        let improve_tile_id = starting_ukiere_tile_ids[k];
        assert(ukiere.contains(improve_tile_id)) by {
            assert(ukiere[k as int] == improve_tile_id);
        }
        let ghost before = draw_tile_id_to_ukiere_tile_ids@;
        if unseen_initially.0[improve_tile_id.0 as usize] > 0 {
            let ukiere_after_improve = ukiere_after_improvement(
                starting_hand.0,
                improve_tile_id,
                visible_tile_ids,
            );
            draw_tile_id_to_ukiere_tile_ids.push(ukiere_after_improve);
        } else {
            draw_tile_id_to_ukiere_tile_ids.push(Vec::new());
        }
        proof {
            assert forall|kk: int| 0 <= kk < k implies (#[trigger] draw_tile_id_to_ukiere_tile_ids@[kk])
                == before[kk] by {}
        }
        k += 1;
    }
    // the draws of each trial: all tiles not seen are available, without replacement
    let mut trials: Vec<Vec<MahjongTileId>> = Vec::new();
    let mut iter_number: u32 = 0;
    while iter_number < num_trials
        invariant
            iter_number <= num_trials,
            trials@.len() == iter_number,
            c == starting_hand.0@,
            v == visible_tile_ids@,
            count_sum(c) == 13,
            seen_tiles_ok(c, v),
            v.len() + 13 + max_allowed_draws <= 136,
            forall|j: int|
                0 <= j < trials@.len() ==> trial_draws_ok(
                    v + expand_counts(c),
                    (#[trigger] trials@[j])@,
                    max_allowed_draws as int,
                ),
        decreases num_trials - iter_number,
    {
        let (seen, unseen) = unseen_tiles(starting_hand.0, visible_tile_ids);
        let draws = draw_tiles(unseen, max_allowed_draws);
        proof {
            let all = seen@ + draws@;
            assert forall|t: int| 0 <= t < 34 implies #[trigger] id_count(all, t) <= 4 by {
                lemma_id_count_concat(seen@, draws@, t);
            }
            assert forall|i: int| 0 <= i < all.len() implies valid_id((#[trigger] all[i]).0 as int) by {
                if i < seen@.len() {
                    assert(all[i] == seen@[i]);
                } else {
                    assert(all[i] == draws@[i - seen@.len()]);
                }
            }
            assert(trial_draws_ok(v + expand_counts(c), draws@, max_allowed_draws as int));
        }
        let ghost before = trials@;
        trials.push(draws);
        proof {
            assert forall|j: int| 0 <= j < trials@.len() implies trial_draws_ok(
                v + expand_counts(c),
                (#[trigger] trials@[j])@,
                max_allowed_draws as int,
            ) by {
                if j < before.len() {
                    assert(trials@[j] == before[j]);
                }
            }
        }
        iter_number += 1;
    }
    proof {
        assert forall|j: int, i: int|
            0 <= j < draw_tile_id_to_ukiere_tile_ids@.len() && 0 <= i
                < draw_tile_id_to_ukiere_tile_ids@[j]@.len() implies (#[trigger] draw_tile_id_to_ukiere_tile_ids@[j]@[i]).1@.no_duplicates() by {
            if id_count(v, ukiere[j].0 as int) + c[ukiere[j].0 as int] < 4 {
                assert(improvement_options_ok(c, ukiere[j], v, draw_tile_id_to_ukiere_tile_ids@[j]@));
            }
        }
    }
    let r = summarize_trials(
        &starting_ukiere_tile_ids,
        &draw_tile_id_to_ukiere_tile_ids,
        &seen_initially,
        &trials,
        max_allowed_draws,
    );
    proof {
        assert(analysis_tables_ok(c, v, ukiere, draw_tile_id_to_ukiere_tile_ids@));
    }
    r
}

/// Each count is at most the total.
proof fn lemma_count_total_each(s: Seq<u32>, d: int)
    requires
        0 <= d < s.len(),
    ensures
        s[d] <= count_total(s),
        count_total(s) >= 0,
    decreases s.len(),
{
    lemma_count_total_nonneg(s.drop_last());
    if d < s.len() - 1 {
        lemma_count_total_each(s.drop_last(), d);
    }
}

proof fn lemma_count_total_nonneg(s: Seq<u32>)
    ensures
        count_total(s) >= 0,
    decreases s.len(),
{
    if s.len() > 0 {
        lemma_count_total_nonneg(s.drop_last());
    }
}

} // verus!
