use riichi_bot::hand_grouping::PartialHandGroupingState;
use riichi_bot::hand_text::{decimal_text, ukiere_after_discard_text};
use riichi_bot::mahjong_tile::{get_tile_ids_from_string, MahjongTileId};
use riichi_bot::shanten::{
    tiles_to_count_array, HandInterpretation, MeldType, PartialMeldInterpretation, TileMeld,
};

fn meld(text: &str) -> TileMeld {
    TileMeld::new(get_tile_ids_from_string(text))
}

fn id(text: &str) -> MahjongTileId {
    get_tile_ids_from_string(text)[0]
}

#[test]
fn decimal_text_of_numbers() {
    assert_eq!(decimal_text(0), "0");
    assert_eq!(decimal_text(7), "7");
    assert_eq!(decimal_text(10), "10");
    assert_eq!(decimal_text(120), "120");
    assert_eq!(decimal_text(65535), "65535");
}

#[test]
fn interpretation_text() {
    let interpretation = HandInterpretation {
        total_tile_count_array: tiles_to_count_array("123m55p"),
        groups: vec![meld("123m"), meld("55p")],
    };
    assert_eq!(interpretation.groups[0].meld_type, MeldType::Sequence);
    assert_eq!(
        interpretation.to_string(),
        "tiles=1m2m3m5p5p, tile_groups=[1m2m3m, 5p5p]"
    );
    let empty = HandInterpretation {
        total_tile_count_array: tiles_to_count_array(""),
        groups: vec![],
    };
    assert_eq!(empty.to_string(), "tiles=, tile_groups=[]");
}

#[test]
fn partial_interpretation_text() {
    let partial = PartialMeldInterpretation {
        remaining_tile_count_array: tiles_to_count_array("55p"),
        groups: vec![meld("123m")],
    };
    assert_eq!(
        partial.to_string(),
        "remaining tiles=5p5p, tile_groups=[1m2m3m]"
    );
}

#[test]
fn grouping_state_text() {
    let state = PartialHandGroupingState {
        tile_count_array: tiles_to_count_array("5m"),
        groups_tile_counts: vec![tiles_to_count_array("123m"), tiles_to_count_array("99s")],
        num_complete_groups: 1,
        num_incomplete_groups: 0,
        num_pairs: 1,
    };
    assert_eq!(
        state.to_string(),
        "remaining tiles=5m, tile_groups=[1m2m3m, 9s9s], num_complete_groups=1, \
         num_incomplete_groups=0, num_pairs=1"
    );
}

#[test]
fn ukiere_after_discard_lines_by_descending_count() {
    let options = vec![
        (id("1m"), get_tile_ids_from_string("6p3p"), 5u16),
        (id("9s"), get_tile_ids_from_string("2m5m8m"), 12u16),
        (id("4z"), get_tile_ids_from_string("7p"), 5u16),
    ];
    assert_eq!(
        ukiere_after_discard_text(&options),
        "cut 9s => 12 ukiere: 2m5m8m; cut 1m => 5 ukiere: 3p6p; cut 4z => 5 ukiere: 7p"
    );
    assert_eq!(ukiere_after_discard_text(&vec![]), "");
}
