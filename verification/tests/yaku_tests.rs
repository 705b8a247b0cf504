use riichi_bot::mahjong_tile::{get_tile_ids_from_string, MahjongWindOrder};
use riichi_bot::scoring::{HandInfo, HandState};
use riichi_bot::shanten::TileMeld;
use riichi_bot::yaku::{has_yakuhai_yaku, Yaku};

fn group(text: &str) -> TileMeld {
    TileMeld::new(get_tile_ids_from_string(text))
}

#[test]
fn test_yakuhai_closed_white_dragon_triplet() {
    // winning hands taken from my Mahjong Soul logs
    // game: 4-player East round, Silver room, 2023-06-03 09:26
    // round: East 4 (0 repeat), winning hand by West (open hand, ron)
    // scoring: 4 han, 30 fu = 7700 pts (white dragon, dora x3 (7m, 8p))
    let tile_groups: Vec<TileMeld> = vec![
        group("453s"),
        group("777m"),
        group("342m"),
        group("555z"), // white dragon
        group("88m"),
    ];

    // check yaku
    // dora indicators 6m and 7p; 12 tiles remaining in the wall
    let hand_info = HandInfo {
        hand_state: HandState::Open,
        round_wind: MahjongWindOrder::East,
        seat_wind: MahjongWindOrder::West,
        round_number: 4,
        honba_counter: 0,
        dora_tiles: get_tile_ids_from_string("7m8p"),
    };
    assert!(has_yakuhai_yaku(&tile_groups, &hand_info));
}

#[test]
fn yakuhai_needs_a_value_honor_set() {
    let hand_info = HandInfo {
        hand_state: HandState::Open,
        round_wind: MahjongWindOrder::East,
        seat_wind: MahjongWindOrder::West,
        round_number: 1,
        honba_counter: 0,
        dora_tiles: vec![],
    };
    // a south wind triplet is no value tile for the west seat in the east round
    assert!(!has_yakuhai_yaku(&vec![group("222z"), group("123m"), group("55z")], &hand_info));
    // a pair of dragons is no set
    assert!(!has_yakuhai_yaku(&vec![group("77z"), group("999p")], &hand_info));
    // the seat wind and the round wind count, as do quads
    assert!(has_yakuhai_yaku(&vec![group("333z")], &hand_info));
    assert!(has_yakuhai_yaku(&vec![group("1111z")], &hand_info));
    assert_eq!(Yaku::han_value(&Yaku::Yakuhai), 1);
}
