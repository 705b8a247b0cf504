//! Readable text of hands, their groupings and their discard options.
use vstd::prelude::*;

use crate::mahjong_hand::{spec_count_array_text, tile_count_array_to_string};
use crate::mahjong_tile::{
    digit_char, digit_text, get_tile_text_from_id, spec_tile_text, valid_id, MahjongTileId,
};
use crate::hand_grouping::PartialHandGroupingState;
use crate::shanten::{
    insert_sorted, sort_ids, sorted_tile_ids, spec_ids_text, tile_ids_to_string, HandInterpretation,
    PartialMeldInterpretation, TileMeld,
};

verus! {

/// The decimal digits of a number, most significant first, without leading zeros.
pub open spec fn spec_decimal(n: nat) -> Seq<char>
    decreases n,
{
    if n < 10 {
        seq![digit_char(n as int)]
    } else {
        spec_decimal(n / 10) + seq![digit_char((n % 10) as int)]
    }
}

/// The decimal text of a number (e.g. 120 -> "120").
pub fn decimal_text(n: u64) -> (r: String)
    ensures
        r@ == spec_decimal(n as nat),
    decreases n,
{
    if n < 10 {
        let mut s = String::new();
        s.append(digit_text(n as u8));
        s
    } else {
        let mut s = decimal_text(n / 10);
        s.append(digit_text((n % 10) as u8));
        s
    }
}

/// The parts one after another, with `sep` between each two of them.
pub open spec fn spec_joined(parts: Seq<Seq<char>>, sep: Seq<char>) -> Seq<char>
    decreases parts.len(),
{
    if parts.len() == 0 {
        seq![]
    } else if parts.len() == 1 {
        parts[0]
    } else {
        spec_joined(parts.drop_last(), sep) + sep + parts.last()
    }
}

/// The tile ids of every group are real tiles.
pub open spec fn groups_ids_valid(groups: Seq<TileMeld>) -> bool {
    forall|i: int, j: int|
        0 <= i < groups.len() && 0 <= j < groups[i].tile_ids@.len() ==> valid_id(
            (#[trigger] groups[i].tile_ids@[j]).0 as int,
        )
}

/// The text of each group: the MSPZ text of its tiles.
pub open spec fn groups_texts(groups: Seq<TileMeld>) -> Seq<Seq<char>> {
    Seq::new(groups.len(), |i: int| spec_ids_text(groups[i].tile_ids@))
}

/// The groups' texts separated by ", " (e.g. "1m2m3m, 5p5p").
pub fn groups_text(groups: &Vec<TileMeld>) -> (r: String)
    requires
        groups_ids_valid(groups@),
    ensures
        r@ == spec_joined(groups_texts(groups@), ", "@),
{
    proof {
        reveal_strlit(", ");
    }
    let mut text = String::new();
    let mut i: usize = 0;
    while i < groups.len()
        invariant
            i <= groups@.len(),
            groups_ids_valid(groups@),
            text@ == spec_joined(groups_texts(groups@).take(i as int), ", "@),
        decreases groups@.len() - i,
    {
        let ghost parts = groups_texts(groups@).take(i + 1);
        assert(parts.drop_last() =~= groups_texts(groups@).take(i as int));
        if i > 0 {
            text.append(", ");
        }
        proof {
            assert forall|j: int| 0 <= j < groups@[i as int].tile_ids@.len() implies valid_id(
                (#[trigger] groups@[i as int].tile_ids@[j]).0 as int,
            ) by {
                assert(valid_id(groups@[i as int].tile_ids@[j].0 as int));
            }
        }
        let group_text = tile_ids_to_string(&groups[i].tile_ids);
        text.append(group_text.as_str());
        proof {
            if i == 0 {
                assert(parts.len() == 1);
            }
        }
        i += 1;
    }
    assert(groups_texts(groups@).take(i as int) =~= groups_texts(groups@));
    text
}

impl HandInterpretation {
    /// The text of an interpretation: all its tiles, then its groups.
    pub open spec fn spec_text(self) -> Seq<char> {
        "tiles="@ + spec_count_array_text(self.total_tile_count_array@) + ", tile_groups=["@
            + spec_joined(groups_texts(self.groups@), ", "@) + "]"@
    }

    /// The text of an interpretation, e.g. "tiles=1m2m3m5p5p, tile_groups=[1m2m3m, 5p5p]".
    pub fn to_string(&self) -> (r: String)
        requires
            groups_ids_valid(self.groups@),
        ensures
            r@ == self.spec_text(),
    {
        let mut text = String::new();
        text.append("tiles=");
        let tiles = tile_count_array_to_string(&self.total_tile_count_array);
        text.append(tiles.as_str());
        text.append(", tile_groups=[");
        let groups = groups_text(&self.groups);
        text.append(groups.as_str());
        text.append("]");
        text
    }
}

impl PartialMeldInterpretation {
    /// The text of a partial interpretation: the tiles not grouped yet, then its groups.
    pub open spec fn spec_text(self) -> Seq<char> {
        "remaining tiles="@ + spec_count_array_text(self.remaining_tile_count_array@)
            + ", tile_groups=["@ + spec_joined(groups_texts(self.groups@), ", "@) + "]"@
    }

    /// The text of a partial interpretation, e.g. "remaining tiles=5p5p, tile_groups=[1m2m3m]".
    pub fn to_string(&self) -> (r: String)
        requires
            groups_ids_valid(self.groups@),
        ensures
            r@ == self.spec_text(),
    {
        let mut text = String::new();
        text.append("remaining tiles=");
        let tiles = tile_count_array_to_string(&self.remaining_tile_count_array);
        text.append(tiles.as_str());
        text.append(", tile_groups=[");
        let groups = groups_text(&self.groups);
        text.append(groups.as_str());
        text.append("]");
        text
    }
}

/// The text of each group of counts: the MSPZ text of its tiles.
pub open spec fn count_groups_texts(groups: Seq<[u8; 34]>) -> Seq<Seq<char>> {
    Seq::new(groups.len(), |i: int| spec_count_array_text(groups[i]@))
}

/// The texts of groups of counts, separated by ", ".
fn count_groups_text(groups: &Vec<[u8; 34]>) -> (r: String)
    ensures
        r@ == spec_joined(count_groups_texts(groups@), ", "@),
{
    proof {
        reveal_strlit(", ");
    }
    let mut text = String::new();
    let mut i: usize = 0;
    while i < groups.len()
        invariant
            i <= groups@.len(),
            text@ == spec_joined(count_groups_texts(groups@).take(i as int), ", "@),
        decreases groups@.len() - i,
    {
        let ghost parts = count_groups_texts(groups@).take(i + 1);
        assert(parts.drop_last() =~= count_groups_texts(groups@).take(i as int));
        if i > 0 {
            text.append(", ");
        }
        let group_text = tile_count_array_to_string(&groups[i]);
        text.append(group_text.as_str());
        proof {
            if i == 0 {
                assert(parts.len() == 1);
            }
        }
        i += 1;
    }
    assert(count_groups_texts(groups@).take(i as int) =~= count_groups_texts(groups@));
    text
}

impl PartialHandGroupingState {
    /// The text of a grouping state: the tiles not grouped yet, the groups, and the counters.
    pub open spec fn spec_text(self) -> Seq<char> {
        "remaining tiles="@ + spec_count_array_text(self.tile_count_array@) + ", tile_groups=["@
            + spec_joined(count_groups_texts(self.groups_tile_counts@), ", "@)
            + "], num_complete_groups="@ + spec_decimal(self.num_complete_groups as nat)
            + ", num_incomplete_groups="@ + spec_decimal(self.num_incomplete_groups as nat)
            + ", num_pairs="@ + spec_decimal(self.num_pairs as nat)
    }

    /// The text of a grouping state, e.g. "remaining tiles=5m, tile_groups=[1m2m3m],
    /// num_complete_groups=1, num_incomplete_groups=0, num_pairs=0" (on one line).
    pub fn to_string(&self) -> (r: String)
        ensures
            r@ == self.spec_text(),
    {
        let mut text = String::new();
        text.append("remaining tiles=");
        let tiles = tile_count_array_to_string(&self.tile_count_array);
        text.append(tiles.as_str());
        text.append(", tile_groups=[");
        let groups = count_groups_text(&self.groups_tile_counts);
        text.append(groups.as_str());
        text.append("], num_complete_groups=");
        let complete = decimal_text(self.num_complete_groups as u64);
        text.append(complete.as_str());
        text.append(", num_incomplete_groups=");
        let incomplete = decimal_text(self.num_incomplete_groups as u64);
        text.append(incomplete.as_str());
        text.append(", num_pairs=");
        let pairs = decimal_text(self.num_pairs as u64);
        text.append(pairs.as_str());
        text
    }
}

/// Every tile of `insert_sorted(s, x)` is `x` or a tile of `s`.
proof fn lemma_insert_sorted_members(s: Seq<MahjongTileId>, x: MahjongTileId)
    ensures
        forall|j: int|
            0 <= j < insert_sorted(s, x).len() ==> #[trigger] insert_sorted(s, x)[j] == x
                || s.contains(insert_sorted(s, x)[j]),
    decreases s.len(),
{
    if s.len() > 0 && s.last().0 > x.0 {
        let d = s.drop_last();
        lemma_insert_sorted_members(d, x);
        assert forall|j: int| 0 <= j < insert_sorted(s, x).len() implies #[trigger] insert_sorted(
            s,
            x,
        )[j] == x || s.contains(insert_sorted(s, x)[j]) by {
            let y = insert_sorted(s, x)[j];
            if j < insert_sorted(d, x).len() {
                if y != x {
                    let k = choose|k: int| 0 <= k < d.len() && d[k] == y;
                    assert(s[k] == y);
                }
            } else {
                assert(s[s.len() - 1] == y);
            }
        }
    } else if s.len() > 0 {
        assert forall|j: int| 0 <= j < insert_sorted(s, x).len() implies #[trigger] insert_sorted(
            s,
            x,
        )[j] == x || s.contains(insert_sorted(s, x)[j]) by {
            if j < s.len() {
                assert(s[j] == insert_sorted(s, x)[j]);
            }
        }
    }
}

/// Sorting keeps the tiles real.
proof fn lemma_sort_ids_valid(s: Seq<MahjongTileId>)
    requires
        forall|j: int| 0 <= j < s.len() ==> valid_id((#[trigger] s[j]).0 as int),
    ensures
        forall|j: int| 0 <= j < sort_ids(s).len() ==> valid_id((#[trigger] sort_ids(s)[j]).0 as int),
    decreases s.len(),
{
    if s.len() > 0 {
        let d = s.drop_last();
        lemma_sort_ids_valid(d);
        lemma_insert_sorted_members(sort_ids(d), s.last());
        assert forall|j: int| 0 <= j < sort_ids(s).len() implies valid_id(
            (#[trigger] sort_ids(s)[j]).0 as int,
        ) by {
            let y = sort_ids(s)[j];
            if y != s.last() {
                let k = choose|k: int| 0 <= k < sort_ids(d).len() && sort_ids(d)[k] == y;
                assert(valid_id(sort_ids(d)[k].0 as int));
            } else {
                assert(valid_id(s[s.len() - 1].0 as int));
            }
        }
    }
}

/// A discard option of a hand: the tile discarded, the ukiere tiles after the discard and how
/// many copies of them are unseen. Its line of text, keyed by the unseen count.
pub open spec fn option_line(o: (MahjongTileId, Vec<MahjongTileId>, u16)) -> (u16, Seq<char>) {
    (
        o.2,
        "cut "@ + spec_tile_text(o.0.0 as int) + " => "@ + spec_decimal(o.2 as nat) + " ukiere: "@
            + spec_ids_text(sort_ids(o.1@)),
    )
}

/// Inserts a line before the first line of a lower count (after all lines of a higher or equal
/// count).
pub open spec fn insert_by_count(s: Seq<(u16, Seq<char>)>, x: (u16, Seq<char>)) -> Seq<
    (u16, Seq<char>),
>
    decreases s.len(),
{
    if s.len() == 0 {
        seq![x]
    } else if s[0].0 < x.0 {
        seq![x] + s
    } else {
        seq![s[0]] + insert_by_count(s.drop_first(), x)
    }
}

/// The lines by descending count; lines of equal count keep their order (a stable sort).
pub open spec fn sort_by_count(s: Seq<(u16, Seq<char>)>) -> Seq<(u16, Seq<char>)>
    decreases s.len(),
{
    if s.len() == 0 {
        s
    } else {
        insert_by_count(sort_by_count(s.drop_last()), s.last())
    }
}

/// The lines of the discard options, most unseen ukiere first, separated by "; ".
pub open spec fn spec_ukiere_after_discard_text(
    options: Seq<(MahjongTileId, Vec<MahjongTileId>, u16)>,
) -> Seq<char> {
    let sorted = sort_by_count(Seq::new(options.len(), |k: int| option_line(options[k])));
    spec_joined(Seq::new(sorted.len(), |k: int| sorted[k].1), "; "@)
}

/// Inserting at the first position of a lower count is `insert_by_count`.
proof fn lemma_insert_by_count_at(s: Seq<(u16, Seq<char>)>, x: (u16, Seq<char>), i: int)
    requires
        0 <= i <= s.len(),
        forall|j: int| 0 <= j < i ==> s[j].0 >= x.0,
        i < s.len() ==> s[i].0 < x.0,
    ensures
        insert_by_count(s, x) == s.insert(i, x),
    decreases i,
{
    if i == 0 {
        if s.len() == 0 {
            assert(s.insert(0, x) =~= seq![x]);
        } else {
            assert(s.insert(0, x) =~= seq![x] + s);
        }
    } else {
        let t = s.drop_first();
        assert forall|j: int| 0 <= j < i - 1 implies t[j].0 >= x.0 by {
            assert(t[j] == s[j + 1]);
        }
        if i - 1 < t.len() {
            assert(t[i - 1] == s[i]);
        }
        lemma_insert_by_count_at(t, x, i - 1);
        assert(seq![s[0]] + t.insert(i - 1, x) =~= s.insert(i, x));
    }
}

proof fn lemma_insert_by_count_len(s: Seq<(u16, Seq<char>)>, x: (u16, Seq<char>))
    ensures
        insert_by_count(s, x).len() == s.len() + 1,
    decreases s.len(),
{
    if s.len() > 0 && s[0].0 >= x.0 {
        lemma_insert_by_count_len(s.drop_first(), x);
    }
}

proof fn lemma_sort_by_count_len(s: Seq<(u16, Seq<char>)>)
    ensures
        sort_by_count(s).len() == s.len(),
    decreases s.len(),
{
    if s.len() > 0 {
        lemma_sort_by_count_len(s.drop_last());
        lemma_insert_by_count_len(sort_by_count(s.drop_last()), s.last());
    }
}

/// The line of one discard option (see `option_line`).
fn option_line_text(o: &(MahjongTileId, Vec<MahjongTileId>, u16)) -> (r: String)
    requires
        valid_id(o.0.0 as int),
        forall|j: int| 0 <= j < o.1@.len() ==> valid_id((#[trigger] o.1@[j]).0 as int),
    ensures
        r@ == option_line(*o).1,
{
    let sorted_ukiere = sorted_tile_ids(&o.1);
    proof {
        lemma_sort_ids_valid(o.1@);
    }
    let mut text = String::new();
    text.append("cut ");
    let discard = get_tile_text_from_id(o.0.0);
    text.append(discard.as_str());
    text.append(" => ");
    let count = decimal_text(o.2 as u64);
    text.append(count.as_str());
    text.append(" ukiere: ");
    let ukiere = tile_ids_to_string(&sorted_ukiere);
    text.append(ukiere.as_str());
    text
}

/// The discard options of a hand as one line of text: for each option, the discard, the number
/// of unseen ukiere tiles and the ukiere tiles (ascending), the options with the most unseen
/// ukiere first, options of equal count in their given order, separated by "; ".
pub fn ukiere_after_discard_text(
    options_after_discard: &Vec<(MahjongTileId, Vec<MahjongTileId>, u16)>,
) -> (r: String)
    requires
        forall|k: int|
            0 <= k < options_after_discard@.len() ==> valid_id(
                (#[trigger] options_after_discard@[k]).0.0 as int,
            ),
        forall|k: int, j: int|
            0 <= k < options_after_discard@.len() && 0 <= j < options_after_discard@[k].1@.len()
                ==> valid_id((#[trigger] options_after_discard@[k].1@[j]).0 as int),
    ensures
        r@ == spec_ukiere_after_discard_text(options_after_discard@),
{
    let ghost options = options_after_discard@;
    let ghost all_lines = Seq::new(options.len(), |k: int| option_line(options[k]));
    let mut counts: Vec<u16> = Vec::new();
    let mut lines: Vec<String> = Vec::new();
    let mut k: usize = 0;
    while k < options_after_discard.len()
        invariant
            k <= options.len(),
            options == options_after_discard@,
            all_lines == Seq::new(options.len(), |k: int| option_line(options[k])),
            forall|m: int| 0 <= m < options.len() ==> valid_id((#[trigger] options[m]).0.0 as int),
            forall|m: int, j: int|
                0 <= m < options.len() && 0 <= j < options[m].1@.len() ==> valid_id(
                    (#[trigger] options[m].1@[j]).0 as int,
                ),
            counts@.len() == lines@.len(),
            counts@.len() == sort_by_count(all_lines.take(k as int)).len(),
            forall|i: int|
                0 <= i < counts@.len() ==> #[trigger] counts@[i] == sort_by_count(
                    all_lines.take(k as int),
                )[i].0 && lines@[i]@ == sort_by_count(all_lines.take(k as int))[i].1,
        decreases options.len() - k,
    {
        let ghost sorted = sort_by_count(all_lines.take(k as int));
        proof {
            assert forall|j: int| 0 <= j < options[k as int].1@.len() implies valid_id(
                (#[trigger] options[k as int].1@[j]).0 as int,
            ) by {
                assert(valid_id(options[k as int].1@[j].0 as int));
            }
        }
        let line = option_line_text(&options_after_discard[k]);
        let n = options_after_discard[k].2;
        let ghost x = (n, line@);
        assert(x == all_lines[k as int]);
        let mut i: usize = 0;
        while i < counts.len() && counts[i] >= n
            invariant
                i <= counts@.len(),
                forall|j: int| 0 <= j < i ==> counts@[j] >= n,
            decreases counts@.len() - i,
        {
            i += 1;
        }
        proof {
            assert forall|j: int| 0 <= j < i implies sorted[j].0 >= x.0 by {
                assert(counts@[j] == sorted[j].0);
            }
            if i < sorted.len() {
                assert(counts@[i as int] == sorted[i as int].0);
            }
            lemma_insert_by_count_at(sorted, x, i as int);
            assert(all_lines.take(k + 1).drop_last() =~= all_lines.take(k as int));
            assert(all_lines.take(k + 1).last() == x);
        }
        let ghost counts_before = counts@;
        let ghost lines_before = lines@;
        counts.insert(i, n);
        lines.insert(i, line);
        proof {
            let sorted_next = sort_by_count(all_lines.take(k + 1));
            assert(sorted_next == sorted.insert(i as int, x));
            assert forall|m: int| 0 <= m < counts@.len() implies #[trigger] counts@[m]
                == sorted_next[m].0 && lines@[m]@ == sorted_next[m].1 by {
                if m < i {
                    assert(counts@[m] == counts_before[m]);
                    assert(lines@[m] == lines_before[m]);
                } else if m > i {
                    assert(counts@[m] == counts_before[m - 1]);
                    assert(lines@[m] == lines_before[m - 1]);
                }
            }
        }
        k += 1;
    }
    assert(all_lines.take(k as int) =~= all_lines);
    let ghost sorted = sort_by_count(all_lines);
    let ghost texts = Seq::new(sorted.len(), |m: int| sorted[m].1);
    proof {
        reveal_strlit("; ");
        assert forall|m: int| 0 <= m < lines@.len() implies #[trigger] lines@[m]@ == texts[m] by {
            assert(counts@[m] == sorted[m].0);
        }
    }
    let mut text = String::new();
    let mut i: usize = 0;
    while i < lines.len()
        invariant
            i <= lines@.len(),
            lines@.len() == texts.len(),
            forall|m: int| 0 <= m < lines@.len() ==> #[trigger] lines@[m]@ == texts[m],
            text@ == spec_joined(texts.take(i as int), "; "@),
        decreases lines@.len() - i,
    {
        let ghost parts = texts.take(i + 1);
        assert(parts.drop_last() =~= texts.take(i as int));
        if i > 0 {
            text.append("; ");
        }
        text.append(lines[i].as_str());
        proof {
            assert(lines@[i as int]@ == texts[i as int]);
            if i == 0 {
                assert(parts.len() == 1);
            }
        }
        i += 1;
    }
    assert(texts.take(i as int) =~= texts);
    text
}

} // verus!
