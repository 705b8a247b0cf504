use std::collections::HashMap;

use riichi_bot::mahjong_hand::MahjongHand;
use riichi_bot::mahjong_tile::{
    four_of_each_tile_count_array, get_id_from_tile_text, get_tile_ids_from_string,
    get_tile_text_from_id, get_tiles_from_string, MahjongTileCountArray, MahjongTileId,
    MahjongWindOrder,
};
use riichi_bot::mini_mahjong::mini_game::MiniTile;
use riichi_bot::mini_mahjong::simulator::{
    display_hand, initialize_mini_game_state, play_game, play_game_with_wall, MiniGameState,
};
use riichi_bot::mini_mahjong::strategy::{
    discard_highest_rank, discard_isolated, discard_isolated_with_pick, discard_lowest_rank,
    discard_random, hardcoded_initial_wait, hold_tenpai, isolated_tile_indices,
};
use riichi_bot::monte_carlo_analysis::{generate_random_tile_id, remove_tile_ids_from_count_array};
use riichi_bot::scoring::compute_base_points;
use riichi_bot::scoring::{
    compute_han_and_fu, compute_han_and_fu_hand_interpretation, compute_raw_fu,
    compute_ron_score, compute_tsumo_score, get_yaku_list, HandInfo, HandState, JunchanYaku,
    PinfuYaku, RiichiInfo, RyanpeikouYaku, ToitoiYaku, WinningTileInfo, WinningTileSource, Yaku,
    YakuhaiYaku,
};
use riichi_bot::shanten::{
    add_tile_id_to_count_array, remove_tile_id_from_count_array, tiles_to_count_array,
    HandInterpretation, TileMeld,
};

/// The id of a tile given in MSPZ notation.
fn id(text: &str) -> MahjongTileId {
    get_id_from_tile_text(text).unwrap()
}

/// A meld of the given tiles.
fn meld(text: &str) -> TileMeld {
    TileMeld::new(get_tile_ids_from_string(text))
}

/// An interpretation of the given hand into the given groups.
fn interpretation(hand: &str, groups: &[&str]) -> HandInterpretation {
    HandInterpretation {
        total_tile_count_array: tiles_to_count_array(hand),
        groups: groups.iter().map(|g| meld(g)).collect(),
    }
}

fn closed_hand_info(seat_wind: MahjongWindOrder) -> HandInfo {
    HandInfo {
        hand_state: HandState::Closed {
            riichi_info: RiichiInfo::Riichi {
                is_ippatsu: false,
                is_double_riichi: false,
            },
        },
        round_wind: MahjongWindOrder::East,
        seat_wind,
        round_number: 1,
        honba_counter: 0,
        dora_tiles: Vec::new(),
    }
}

fn ron() -> WinningTileInfo {
    WinningTileInfo {
        source: WinningTileSource::Discard {
            is_last_discard: false,
        },
    }
}

fn tsumo() -> WinningTileInfo {
    WinningTileInfo {
        source: WinningTileSource::SelfDraw {
            is_first_draw: false,
            is_last_draw: false,
        },
    }
}

#[test]
fn base_points_below_mangan() {
    // fu * 2^(2 + han)
    assert_eq!(compute_base_points(1, 30), 240);
    assert_eq!(compute_base_points(2, 40), 640);
    assert_eq!(compute_base_points(3, 60), 1920);
    // capped at 2000
    assert_eq!(compute_base_points(4, 30), 1920);
    assert_eq!(compute_base_points(3, 110), 2000);
}

#[test]
fn base_points_of_limit_hands() {
    assert_eq!(compute_base_points(5, 30), 2000);
    assert_eq!(compute_base_points(4, 40), 2000);
    assert_eq!(compute_base_points(3, 70), 2000);
    assert_eq!(compute_base_points(6, 30), 3000);
    assert_eq!(compute_base_points(7, 30), 3000);
    assert_eq!(compute_base_points(8, 30), 4000);
    assert_eq!(compute_base_points(11, 30), 6000);
    assert_eq!(compute_base_points(13, 30), 8000);
    assert_eq!(compute_base_points(26, 30), 16000);
}

#[test]
fn ron_and_tsumo_payments() {
    let dealer = closed_hand_info(MahjongWindOrder::East);
    let non_dealer = closed_hand_info(MahjongWindOrder::South);
    assert_eq!(compute_ron_score(1, 30, &dealer), 1440);
    assert_eq!(compute_ron_score(1, 30, &non_dealer), 960);
    assert_eq!(compute_tsumo_score(1, 30, &dealer), (480, 480, 480));
    assert_eq!(compute_tsumo_score(1, 30, &non_dealer), (240, 240, 480));
    // the three payments of a tsumo add up to a ron
    let (a, b, c) = compute_tsumo_score(3, 40, &non_dealer);
    assert_eq!(a + b + c, compute_ron_score(3, 40, &non_dealer));
    let (a, b, c) = compute_tsumo_score(3, 40, &dealer);
    assert_eq!(a + b + c, compute_ron_score(3, 40, &dealer));
}

#[test]
fn every_yaku_is_listed() {
    assert_eq!(get_yaku_list().len(), 26);
}

#[test]
fn raw_fu_of_a_closed_ron_with_a_seat_wind_pair() {
    // 123m 456p 789s 22z 34m, waiting on 2m or 5m; the pair is the seat wind (South)
    let hi = interpretation("12334m456p789s22z", &["123m", "456p", "789s", "22z", "34m"]);
    let info = closed_hand_info(MahjongWindOrder::South);
    // 20 + 2 (yakuhai pair) + 10 (closed ron)
    assert_eq!(compute_raw_fu(&hi, &Vec::new(), id("2m"), &info, &ron()), 32);
    // riichi only (the yakuhai pair rules out pinfu): 1 han, 40 fu after rounding
    assert_eq!(
        compute_han_and_fu_hand_interpretation(&hi, &Vec::new(), id("2m"), &info, &ron()),
        (1, 40)
    );
    assert_eq!(
        PinfuYaku.han_value(&hi, &Vec::new(), id("2m"), &info, &tsumo()),
        0
    );
}

#[test]
fn pinfu_tsumo_has_no_tsumo_fu() {
    // 123m 456p 789s 99p 34m: pinfu, won by self-draw on 5m
    let hi = interpretation("12334m45699p789s", &["123m", "456p", "789s", "99p", "34m"]);
    let info = closed_hand_info(MahjongWindOrder::South);
    assert_eq!(PinfuYaku.han_value(&hi, &Vec::new(), id("5m"), &info, &tsumo()), 1);
    assert_eq!(compute_raw_fu(&hi, &Vec::new(), id("5m"), &info, &tsumo()), 20);
    // menzen tsumo + riichi + pinfu
    assert_eq!(
        compute_han_and_fu_hand_interpretation(&hi, &Vec::new(), id("5m"), &info, &tsumo()),
        (3, 20)
    );
}

#[test]
fn toitoi_and_yakuhai_groups() {
    // 111m 999p 555z 77z 3s: tanki on 3s, completing four triplets and a pair
    let hi = interpretation("111m999p3s55577z", &["111m", "999p", "555z", "77z", "3s"]);
    let info = closed_hand_info(MahjongWindOrder::South);
    assert!(ToitoiYaku::is_toitoi_hand(&hi, &Vec::new(), id("3s"), &ron()) == false);
    // 111m 999p 555z 777z 3s: the triplet of 7z is there already
    let hi = interpretation("111m999p3s555777z", &["111m", "999p", "555z", "777z", "3s"]);
    assert!(ToitoiYaku::is_toitoi_hand(&hi, &Vec::new(), id("3s"), &ron()));
    // two dragon triplets: 2 han of yakuhai
    assert_eq!(YakuhaiYaku.han_value(&hi, &Vec::new(), id("3s"), &info, &ron()), 2);
    // a winning tile that forms no pair gives no winning hand
    assert!(!ToitoiYaku::is_toitoi_hand(&hi, &Vec::new(), id("7s"), &ron()));
}

#[test]
fn junchan_and_ryanpeikou_hands() {
    // 123m 123m 789p 789p 9s, tanki on 9s
    let hi = interpretation(
        "112233m778899p9s",
        &["123m", "123m", "789p", "789p", "9s"],
    );
    let info = closed_hand_info(MahjongWindOrder::South);
    assert!(JunchanYaku::is_junchan_hand(&hi, &Vec::new(), id("9s"), &ron()));
    assert!(RyanpeikouYaku::is_ryanpeikou_hand(&hi, &Vec::new(), id("9s"), &info, &ron()));
    assert!(!JunchanYaku::is_junchan_hand(&hi, &Vec::new(), id("5s"), &ron()));
}

#[test]
fn closed_hand_score_picks_the_best_interpretation() {
    // 111222333m 456p 7s: won on 7s, it is three triplets or three identical sequences
    let hand = tiles_to_count_array("111222333m456p7s");
    let info = closed_hand_info(MahjongWindOrder::South);
    let (han, fu) = compute_han_and_fu(hand, Vec::new(), id("7s"), info.clone(), tsumo());
    // as triplets: menzen tsumo + riichi + sanankou (4 han, 40 fu) beats the three identical
    // sequences (menzen tsumo + riichi + iipeikou: 3 han, 30 fu)
    assert_eq!((han, fu), (4, 40));
    // a tile that does not complete the hand scores nothing
    assert_eq!(
        compute_han_and_fu(hand, Vec::new(), id("9s"), info, tsumo()),
        (0, 0)
    );
}

#[test]
fn remove_tile_ids_takes_out_one_copy_each() {
    let counts = MahjongTileCountArray(tiles_to_count_array("1123m55z"));
    let removed = remove_tile_ids_from_count_array(counts, &get_tile_ids_from_string("12m5z"));
    assert_eq!(removed.0, tiles_to_count_array("13m5z"));
    let full = four_of_each_tile_count_array();
    let removed = remove_tile_ids_from_count_array(full, &get_tile_ids_from_string("1m1m9s"));
    assert_eq!(removed.0[usize::from(id("1m").0)], 2);
    assert_eq!(removed.0[usize::from(id("9s").0)], 3);
    assert_eq!(removed.0[usize::from(id("2m").0)], 4);
}

#[test]
fn random_tiles_come_from_the_pool() {
    let counts = MahjongTileCountArray(tiles_to_count_array("3m7z"));
    let mut rng = rand::rng();
    for _ in 0..50 {
        let tile = generate_random_tile_id(counts, &mut rng);
        assert!(tile == id("3m") || tile == id("7z"));
    }
}

#[test]
fn tile_text_round_trip() {
    for text in ["1m", "9m", "5p", "7s", "1z", "7z"] {
        assert_eq!(get_tile_text_from_id(id(text).0), text);
    }
}

#[test]
fn removing_an_added_tile_restores_the_counts() {
    let counts = tiles_to_count_array("123m456p789s11z");
    let added = add_tile_id_to_count_array(counts, id("5p"));
    assert_eq!(added[usize::from(id("5p").0)], 2);
    assert_eq!(remove_tile_id_from_count_array(added, id("5p")), counts);
}

#[test]
fn winning_shape_searches_agree() {
    for text in ["123m456p789s11122z", "11122233344455m", "123m456p789s12345z"] {
        let hand = MahjongHand {
            tiles: get_tiles_from_string(text),
            ..Default::default()
        };
        let expected = hand.is_winning_shape_iterative();
        assert_eq!(hand.is_winning_shape_build_shapes(), expected);
        assert_eq!(hand.is_winning_shape_recursive(), expected);
    }
}

fn mini_state(serials: &[u32], dead: &[(u32, u32)]) -> MiniGameState {
    MiniGameState {
        hand_tiles: serials.iter().map(|s| MiniTile { serial: *s }).collect(),
        dead_tiles_by_rank: dead.iter().cloned().collect::<HashMap<u32, u32>>(),
    }
}

#[test]
fn mini_hand_display_lists_ranks_in_order() {
    let state = mini_state(&[4, 0, 13, 8, 9], &[]);
    assert_eq!(display_hand(&state.hand_tiles), "11559");
}

#[test]
fn mini_strategies_pick_their_tiles() {
    // ranks 2, 2, 5, 7, 1
    let state = mini_state(&[1, 10, 4, 6, 0], &[(2, 2), (5, 1), (7, 1), (1, 1)]);
    assert_eq!(discard_lowest_rank(&state), 4);
    assert_eq!(discard_highest_rank(&state), 3);
    // the 1 is the first tile outside the 22 + 5 + 7 wait
    assert_eq!(hardcoded_initial_wait(&state), 4);
    assert!(discard_random(&state) < 5);
    // 5 and 7 are isolated (the 1 is next to the 2s)
    let isolated = discard_isolated(&state);
    assert!(isolated == 2 || isolated == 3);
    // discarding the 1 leaves 2257: waiting on 6; discarding the 5 or the 7 leaves a shape
    // without tenpai
    assert_eq!(hold_tenpai(&state), 4);
}

#[test]
fn mini_game_with_a_fixed_wall() {
    // 1 2 3 4 5 in hand: discarding the 5 (highest) and drawing a 4 wins
    let state = mini_state(&[0, 1, 2, 3, 4], &[(1, 1), (2, 1), (3, 1), (4, 1), (5, 1)]);
    let wall = vec![MiniTile { serial: 12 }];
    let (draws, won, final_state) = play_game_with_wall(state, wall, &discard_highest_rank);
    assert_eq!(draws, 1);
    assert!(won);
    assert_eq!(display_hand(&final_state.hand_tiles), "12344");
}

#[test]
fn mini_games_end_within_the_wall() {
    let state = mini_state(&[1, 10, 4, 6, 0], &[(2, 2), (5, 1), (7, 1), (1, 1)]);
    for _ in 0..20 {
        let (draws, won) = play_game(&state, &hold_tenpai);
        assert!((0..=31).contains(&draws));
        // 36 tiles less the 5 seen: a game that does not win draws the whole wall
        if !won {
            assert_eq!(draws, 31);
        }
    }
    // a hand of three tiles is filled from the wall first: 33 unseen, 2 of them fill the hand
    let short = mini_state(&[0, 9, 18], &[(1, 3)]);
    let (draws, won) = play_game(&short, &discard_lowest_rank);
    assert!((0..=31).contains(&draws));
    if !won {
        assert_eq!(draws, 31);
    }
    let dealt = initialize_mini_game_state();
    assert_eq!(dealt.hand_tiles.len(), 5);
    let seen: u32 = dealt.dead_tiles_by_rank.values().sum();
    assert_eq!(seen, 5);
}

#[test]
fn two_bytes_of_one_wide_char_are_no_tile() {
    let err = get_id_from_tile_text("é").unwrap_err();
    assert_eq!(err.message, "Tile string representation length must be 2");
    assert!(riichi_bot::mahjong_tile::MahjongTile::from_text("é").is_err());
    assert!(get_id_from_tile_text("1é").is_err());
}

#[test]
fn groupings_add_up_to_the_hand() {
    let hand = MahjongHand {
        tiles: get_tiles_from_string("234578m11p"),
        ..Default::default()
    };
    let counts = hand.get_tile_count_array();
    let groupings = hand.build_shapes(2);
    assert!(!groupings.is_empty());
    for grouping in groupings.iter() {
        let mut total = [0u8; 34];
        for group in grouping.groups_tile_counts.iter() {
            let size: u8 = group.iter().sum();
            assert!((1..=4).contains(&size));
            for i in 0..34 {
                total[i] += group[i];
            }
        }
        assert_eq!(total, counts);
    }
}

#[test]
fn suit_splits_hold_the_tiles_and_start_with_singles() {
    let counts = tiles_to_count_array("1123m5p");
    let splits = riichi_bot::shanten::get_suit_melds(counts);
    assert!(!splits.is_empty());
    assert_eq!(splits[0].len(), 5);
    assert!(splits[0]
        .iter()
        .all(|m| m.meld_type == riichi_bot::shanten::MeldType::SingleTile));
    for split in splits.iter() {
        let mut total = [0u8; 34];
        for meld in split.iter() {
            for id in meld.tile_ids.iter() {
                total[usize::from(id.0)] += 1;
            }
        }
        assert_eq!(total, counts);
    }
}

#[test]
fn grouping_wins_agree_with_melds_and_a_pair() {
    let winning = MahjongHand {
        tiles: get_tiles_from_string("22234m789s345p33z2m"),
        ..Default::default()
    };
    assert!(winning.is_winning_shape_build_shapes());
    assert!(winning.is_winning_shape_recursive());
    let not_winning = MahjongHand {
        tiles: get_tiles_from_string("122234m789s345p33z"),
        ..Default::default()
    };
    assert!(!not_winning.is_winning_shape_build_shapes());
    assert!(!not_winning.is_winning_shape_recursive());
    // several honor pairs: a pair beyond the first is an incomplete group
    let honor_pairs = MahjongHand {
        tiles: get_tiles_from_string("11z22z33z44z123m456m"),
        ..Default::default()
    };
    assert!(!honor_pairs.is_winning_shape_build_shapes());
    assert!(!honor_pairs.is_winning_shape_recursive());
    // two honor quads are complete groups to the groupings, though they make no pair
    let honor_quads = MahjongHand {
        tiles: get_tiles_from_string("1111z2222z123m456m"),
        ..Default::default()
    };
    assert!(honor_quads.is_winning_shape_build_shapes());
    assert!(!honor_quads.is_winning_shape_recursive());
}

#[test]
fn isolated_discards_follow_the_pick() {
    // ranks 2 2 5 7 1: the 5 and the 7 are isolated (the 1 sits next to the 2s)
    let state = mini_state(&[1, 10, 4, 6, 0], &[]);
    assert_eq!(isolated_tile_indices(&state), vec![2, 3]);
    assert_eq!(discard_isolated_with_pick(&state, 0), 2);
    assert_eq!(discard_isolated_with_pick(&state, 1), 3);
    // ranks 1 2 3 4 5: nothing is isolated, the pick names the tile
    let connected = mini_state(&[0, 1, 2, 3, 4], &[]);
    assert!(isolated_tile_indices(&connected).is_empty());
    assert_eq!(discard_isolated_with_pick(&connected, 4), 4);
}

#[test]
fn a_new_deal_holds_five_different_tiles() {
    for _ in 0..50 {
        let dealt = initialize_mini_game_state();
        assert_eq!(dealt.hand_tiles.len(), 5);
        for (i, a) in dealt.hand_tiles.iter().enumerate() {
            assert!(a.serial < 36);
            for b in dealt.hand_tiles.iter().skip(i + 1) {
                assert_ne!(a.serial, b.serial);
            }
        }
        assert!(dealt.dead_tiles_by_rank.values().all(|c| *c <= 4));
    }
}
