use riichi_bot::mahjong_tile::{get_id_from_tile_text, get_tile_ids_from_string, MahjongWindOrder};
use riichi_bot::scoring::{
    compute_han_and_fu, HandInfo, HandState, RiichiInfo, WinningTileInfo, WinningTileSource,
};
use riichi_bot::shanten::tiles_to_count_array;

#[test]
fn jpml_pro_test_part1_hand_scoring_q1() {
    // https://mahjong-ny.com/features/sample-pro-test/
    // 1) 123m11222p23456s, win on 1s, dora = 1p, riichi
    let hand = tiles_to_count_array("123m11222p23456s");
    let melded_tiles = Vec::new();
    let dora_tiles = get_tile_ids_from_string("1p");
    let win_tile = get_id_from_tile_text("1s").unwrap();

    // winning methods (ron vs tsumo)
    let ron = WinningTileInfo {
        source: WinningTileSource::Discard {
            is_last_discard: false,
        },
    };
    let tsumo = WinningTileInfo {
        source: WinningTileSource::SelfDraw {
            is_first_draw: false,
            is_last_draw: false,
        },
    };

    // situations (dealer in East-1 vs. south in East-1)
    let as_dealer = HandInfo {
        hand_state: HandState::Closed {
            riichi_info: RiichiInfo::Riichi {
                is_ippatsu: false,
                is_double_riichi: false,
            },
        },
        round_wind: MahjongWindOrder::East,
        seat_wind: MahjongWindOrder::East,
        round_number: 1,
        honba_counter: 0,
        dora_tiles: dora_tiles.clone(),
    };
    let mut as_nondealer = as_dealer.clone();
    as_nondealer.seat_wind = MahjongWindOrder::South;
    let as_nondealer = as_nondealer;

    // Dealer Tsumo = 4 han 30 fu
    assert_eq!(
        (4, 30),
        compute_han_and_fu(
            hand.clone(),
            melded_tiles.clone(),
            win_tile,
            as_dealer.clone(),
            tsumo.clone()
        )
    );

    // Dealer Ron = 3 han 40 fu
    assert_eq!(
        (3, 40),
        compute_han_and_fu(
            hand.clone(),
            melded_tiles.clone(),
            win_tile,
            as_dealer.clone(),
            ron.clone()
        )
    );

    // Non-dealer Tsumo = 4 han 30 fu
    assert_eq!(
        (4, 30),
        compute_han_and_fu(
            hand.clone(),
            melded_tiles.clone(),
            win_tile,
            as_nondealer.clone(),
            tsumo.clone()
        )
    );

    // Non-dealer Ron = 3 han 40 fu
    assert_eq!(
        (3, 40),
        compute_han_and_fu(
            hand.clone(),
            melded_tiles.clone(),
            win_tile,
            as_nondealer.clone(),
            ron.clone()
        )
    );
}

#[test]
fn jpml_pro_test_part1_hand_scoring_q2() {
    // https://mahjong-ny.com/features/sample-pro-test/
    // 2) 56789m344556p88s, win on 4m, dora = 3p, riichi
    let hand = tiles_to_count_array("56789m344556p88s");
    let melded_tiles = Vec::new();
    let dora_tiles = get_tile_ids_from_string("3p");
    let win_tile = get_id_from_tile_text("4m").unwrap();

    // winning methods (ron vs tsumo)
    let ron = WinningTileInfo {
        source: WinningTileSource::Discard {
            is_last_discard: false,
        },
    };
    let tsumo = WinningTileInfo {
        source: WinningTileSource::SelfDraw {
            is_first_draw: false,
            is_last_draw: false,
        },
    };

    // situations (dealer in East-1 vs. south in East-1)
    let as_dealer = HandInfo {
        hand_state: HandState::Closed {
            riichi_info: RiichiInfo::Riichi {
                is_ippatsu: false,
                is_double_riichi: false,
            },
        },
        round_wind: MahjongWindOrder::East,
        seat_wind: MahjongWindOrder::East,
        round_number: 1,
        honba_counter: 0,
        dora_tiles: dora_tiles.clone(),
    };
    let mut as_nondealer = as_dealer.clone();
    as_nondealer.seat_wind = MahjongWindOrder::South;
    let as_nondealer = as_nondealer;

    // Dealer Tsumo = 4 han 20 fu
    assert_eq!(
        (4, 20),
        compute_han_and_fu(
            hand.clone(),
            melded_tiles.clone(),
            win_tile,
            as_dealer.clone(),
            tsumo.clone()
        )
    );

    // Dealer Ron = 3 han 30 fu
    assert_eq!(
        (3, 30),
        compute_han_and_fu(
            hand.clone(),
            melded_tiles.clone(),
            win_tile,
            as_dealer.clone(),
            ron.clone()
        )
    );

    // Non-dealer Tsumo = 4 han 20 fu
    assert_eq!(
        (4, 20),
        compute_han_and_fu(
            hand.clone(),
            melded_tiles.clone(),
            win_tile,
            as_nondealer.clone(),
            tsumo.clone()
        )
    );

    // Non-dealer Ron = 3 han 30 fu
    assert_eq!(
        (3, 30),
        compute_han_and_fu(
            hand.clone(),
            melded_tiles.clone(),
            win_tile,
            as_nondealer.clone(),
            ron.clone()
        )
    );
}

#[test]
fn jpml_pro_test_part1_hand_scoring_q3() {
    // https://mahjong-ny.com/features/sample-pro-test/
    // 3) 44556m4488p3399s, win on 6m, dora = 1m, not riichi
    let hand = tiles_to_count_array("44556m4488p3399s");
    let melded_tiles = Vec::new();
    let dora_tiles = get_tile_ids_from_string("1m");
    let win_tile = get_id_from_tile_text("6m").unwrap();

    // winning methods (ron vs tsumo)
    let ron = WinningTileInfo {
        source: WinningTileSource::Discard {
            is_last_discard: false,
        },
    };
    let tsumo = WinningTileInfo {
        source: WinningTileSource::SelfDraw {
            is_first_draw: false,
            is_last_draw: false,
        },
    };

    // situations (dealer in East-1 vs. south in East-1)
    let as_dealer = HandInfo {
        hand_state: HandState::Closed {
            riichi_info: RiichiInfo::NoRiichi,
        },
        round_wind: MahjongWindOrder::East,
        seat_wind: MahjongWindOrder::East,
        round_number: 1,
        honba_counter: 0,
        dora_tiles: dora_tiles.clone(),
    };
    let mut as_nondealer = as_dealer.clone();
    as_nondealer.seat_wind = MahjongWindOrder::South;
    let as_nondealer = as_nondealer;

    // Dealer Tsumo = 3 han 25 fu
    assert_eq!(
        (3, 25),
        compute_han_and_fu(
            hand.clone(),
            melded_tiles.clone(),
            win_tile,
            as_dealer.clone(),
            tsumo.clone()
        )
    );

    // Dealer Ron = 2 han 25 fu
    assert_eq!(
        (2, 25),
        compute_han_and_fu(
            hand.clone(),
            melded_tiles.clone(),
            win_tile,
            as_dealer.clone(),
            ron.clone()
        )
    );

    // Non-dealer Tsumo = 3 han 25 fu
    assert_eq!(
        (3, 25),
        compute_han_and_fu(
            hand.clone(),
            melded_tiles.clone(),
            win_tile,
            as_nondealer.clone(),
            tsumo.clone()
        )
    );

    // Non-dealer Ron = 2 han 25 fu
    assert_eq!(
        (2, 25),
        compute_han_and_fu(
            hand.clone(),
            melded_tiles.clone(),
            win_tile,
            as_nondealer.clone(),
            ron.clone()
        )
    );
}

#[test]
fn jpml_pro_test_part1_hand_scoring_q8() {
    // https://mahjong-ny.com/features/sample-pro-test/
    // 8) 2223444777888s, win on 4s, dora = 3s
    // (this is a "tatsumaki" wait, a 4-sided wait on 12345s - as it's effectively two ryantans: 2223-444 and 222-3444 -> win on 3s is always tanki. Other winning tiles can be ryanmen, and 24s can be shanpon)
    let hand = tiles_to_count_array("2223444777888s");
    let melded_tiles = Vec::new();
    let dora_tiles = get_tile_ids_from_string("3s");
    let win_tile = get_id_from_tile_text("4s").unwrap();

    // winning methods (ron vs tsumo)
    let ron = WinningTileInfo {
        source: WinningTileSource::Discard {
            is_last_discard: false,
        },
    };
    let tsumo = WinningTileInfo {
        source: WinningTileSource::SelfDraw {
            is_first_draw: false,
            is_last_draw: false,
        },
    };

    // situations (dealer in East-1 vs. south in East-1)
    let as_dealer = HandInfo {
        hand_state: HandState::Closed {
            riichi_info: RiichiInfo::NoRiichi,
        },
        round_wind: MahjongWindOrder::East,
        seat_wind: MahjongWindOrder::East,
        round_number: 1,
        honba_counter: 0,
        dora_tiles: dora_tiles.clone(),
    };
    let mut as_nondealer = as_dealer.clone();
    as_nondealer.seat_wind = MahjongWindOrder::South;
    let as_nondealer = as_nondealer;

    // Dealer Tsumo = 11 han 40 fu
    assert_eq!(
        (11, 40),
        compute_han_and_fu(
            hand.clone(),
            melded_tiles.clone(),
            win_tile,
            as_dealer.clone(),
            tsumo.clone()
        )
    );

    // Dealer Ron = 10 han 50 fu
    assert_eq!(
        (10, 50),
        compute_han_and_fu(
            hand.clone(),
            melded_tiles.clone(),
            win_tile,
            as_dealer.clone(),
            ron.clone()
        )
    );

    // Non-dealer Tsumo = 11 han 40 fu
    assert_eq!(
        (11, 40),
        compute_han_and_fu(
            hand.clone(),
            melded_tiles.clone(),
            win_tile,
            as_nondealer.clone(),
            tsumo.clone()
        )
    );

    // Non-dealer Ron = 10 han 50 fu
    assert_eq!(
        (10, 50),
        compute_han_and_fu(
            hand.clone(),
            melded_tiles.clone(),
            win_tile,
            as_nondealer.clone(),
            ron.clone()
        )
    );
}

#[test]
fn menzentsumo_only_hand() {
    // https://zh.wikipedia.org/wiki/%E9%96%80%E5%89%8D%E6%B8%85%E8%87%AA%E6%91%B8
    let hand = tiles_to_count_array("345567m111p3368s");
    let melded_tiles = Vec::new();
    let dora_tiles = get_tile_ids_from_string("1z"); // no dora
    let win_tile = get_id_from_tile_text("7s").unwrap();

    // winning methods (ron vs tsumo)
    let ron = WinningTileInfo {
        source: WinningTileSource::Discard {
            is_last_discard: false,
        },
    };
    let tsumo = WinningTileInfo {
        source: WinningTileSource::SelfDraw {
            is_first_draw: false,
            is_last_draw: false,
        },
    };

    // situations (dealer in East-1 vs. south in East-1)
    let as_dealer = HandInfo {
        hand_state: HandState::Closed {
            riichi_info: RiichiInfo::NoRiichi,
        },
        round_wind: MahjongWindOrder::East,
        seat_wind: MahjongWindOrder::East,
        round_number: 1,
        honba_counter: 0,
        dora_tiles: dora_tiles.clone(),
    };
    let mut as_nondealer = as_dealer.clone();
    as_nondealer.seat_wind = MahjongWindOrder::South;
    let as_nondealer = as_nondealer;

    for hand_info in vec![as_dealer, as_nondealer] {
        // Tsumo = 1 han 40 fu
        assert_eq!(
            (1, 40),
            compute_han_and_fu(
                hand.clone(),
                melded_tiles.clone(),
                win_tile,
                hand_info.clone(),
                tsumo.clone()
            )
        );

        // Ron = no yaku
        assert_eq!(
            (0, 0),
            compute_han_and_fu(
                hand.clone(),
                melded_tiles.clone(),
                win_tile,
                hand_info.clone(),
                ron.clone()
            )
        );
    }
}

#[test]
fn mentanpin_sanshoku_iipeikou_hand() {
    // https://ja.wikipedia.org/wiki/%E9%96%80%E5%89%8D%E6%B8%85%E8%87%AA%E6%91%B8%E5%92%8C
    // yaku: sanshoku (345) + iipeikou (334455s) + tanyao + pinfu (+ menzentsumo if tsumo)
    let hand = tiles_to_count_array("345m345p3344588s");
    let melded_tiles = Vec::new();
    let dora_tiles = get_tile_ids_from_string("1z"); // no dora
    let win_tile = get_id_from_tile_text("5s").unwrap();

    // winning methods (ron vs tsumo)
    let ron = WinningTileInfo {
        source: WinningTileSource::Discard {
            is_last_discard: false,
        },
    };
    let tsumo = WinningTileInfo {
        source: WinningTileSource::SelfDraw {
            is_first_draw: false,
            is_last_draw: false,
        },
    };

    // situations (dealer in East-1 vs. south in East-1)
    let as_dealer = HandInfo {
        hand_state: HandState::Closed {
            riichi_info: RiichiInfo::NoRiichi,
        },
        round_wind: MahjongWindOrder::East,
        seat_wind: MahjongWindOrder::East,
        round_number: 1,
        honba_counter: 0,
        dora_tiles: dora_tiles.clone(),
    };
    let mut as_nondealer = as_dealer.clone();
    as_nondealer.seat_wind = MahjongWindOrder::South;
    let as_nondealer = as_nondealer;

    for hand_info in vec![as_dealer, as_nondealer] {
        // Tsumo = 6 han 20 fu
        assert_eq!(
            (6, 20),
            compute_han_and_fu(
                hand.clone(),
                melded_tiles.clone(),
                win_tile,
                hand_info.clone(),
                tsumo.clone()
            )
        );

        // Ron = 5 han 30 fu
        assert_eq!(
            (5, 30),
            compute_han_and_fu(
                hand.clone(),
                melded_tiles.clone(),
                win_tile,
                hand_info.clone(),
                ron.clone()
            )
        );
    }
}

#[test]
fn iipeikou_only_guaranteed_hand() {
    // https://ja.wikipedia.org/wiki/%E4%B8%80%E7%9B%83%E5%8F%A3
    // yaku = iipeikou guaranteed
    let hand = tiles_to_count_array("33455m111p33789s");
    let melded_tiles = Vec::new();
    let dora_tiles = get_tile_ids_from_string("1z"); // no dora
    let iipeikou_win_tile = get_id_from_tile_text("4m").unwrap();

    // winning methods (ron vs tsumo)
    let ron = WinningTileInfo {
        source: WinningTileSource::Discard {
            is_last_discard: false,
        },
    };
    let tsumo = WinningTileInfo {
        source: WinningTileSource::SelfDraw {
            is_first_draw: false,
            is_last_draw: false,
        },
    };

    // situations (dealer in East-1 vs. south in East-1)
    let as_dealer = HandInfo {
        hand_state: HandState::Closed {
            riichi_info: RiichiInfo::NoRiichi,
        },
        round_wind: MahjongWindOrder::East,
        seat_wind: MahjongWindOrder::East,
        round_number: 1,
        honba_counter: 0,
        dora_tiles: dora_tiles.clone(),
    };
    let mut as_nondealer = as_dealer.clone();
    as_nondealer.seat_wind = MahjongWindOrder::South;
    let as_nondealer = as_nondealer;

    let hand_info_choices = vec![as_dealer, as_nondealer];
    for hand_info in hand_info_choices.iter() {
        // Tsumo = 2 han 40 fu
        assert_eq!(
            (2, 40),
            compute_han_and_fu(
                hand.clone(),
                melded_tiles.clone(),
                iipeikou_win_tile,
                hand_info.clone(),
                tsumo.clone()
            )
        );

        // Ron = 1 han 40 fu
        assert_eq!(
            (1, 40),
            compute_han_and_fu(
                hand.clone(),
                melded_tiles.clone(),
                iipeikou_win_tile,
                hand_info.clone(),
                ron.clone()
            )
        );
    }
}

#[test]
fn iipeikou_not_guaranteed_hand() {
    // https://ja.wikipedia.org/wiki/%E4%B8%80%E7%9B%83%E5%8F%A3
    // yaku = pinfu guaranteed, but iipeikou only if winning on 5m (+ menzen tsumo if win by tsumo)
    let hand = tiles_to_count_array("33445m234p33789s");
    let melded_tiles = Vec::new();
    let dora_tiles = get_tile_ids_from_string("1z"); // no dora
    let iipeikou_win_tile = get_id_from_tile_text("5m").unwrap();
    let no_iipeikou_win_tile = get_id_from_tile_text("2m").unwrap();

    // winning methods (ron vs tsumo)
    let ron = WinningTileInfo {
        source: WinningTileSource::Discard {
            is_last_discard: false,
        },
    };
    let tsumo = WinningTileInfo {
        source: WinningTileSource::SelfDraw {
            is_first_draw: false,
            is_last_draw: false,
        },
    };

    // situations (dealer in East-1 vs. south in East-1)
    let as_dealer = HandInfo {
        hand_state: HandState::Closed {
            riichi_info: RiichiInfo::NoRiichi,
        },
        round_wind: MahjongWindOrder::East,
        seat_wind: MahjongWindOrder::East,
        round_number: 1,
        honba_counter: 0,
        dora_tiles: dora_tiles.clone(),
    };
    let mut as_nondealer = as_dealer.clone();
    as_nondealer.seat_wind = MahjongWindOrder::South;
    let as_nondealer = as_nondealer;

    let hand_info_choices = vec![as_dealer, as_nondealer];
    // win on 5m -> iipeikou
    for hand_info in hand_info_choices.iter() {
        // Tsumo = 3 han 20 fu
        assert_eq!(
            (3, 20),
            compute_han_and_fu(
                hand.clone(),
                melded_tiles.clone(),
                iipeikou_win_tile,
                hand_info.clone(),
                tsumo.clone()
            )
        );

        // Ron = 2 han 30 fu
        assert_eq!(
            (2, 30),
            compute_han_and_fu(
                hand.clone(),
                melded_tiles.clone(),
                iipeikou_win_tile,
                hand_info.clone(),
                ron.clone()
            )
        );
    }

    // win on 2m -> no iipeikou
    for hand_info in hand_info_choices.iter() {
        // Tsumo = 2 han 20 fu
        assert_eq!(
            (2, 20),
            compute_han_and_fu(
                hand.clone(),
                melded_tiles.clone(),
                no_iipeikou_win_tile,
                hand_info.clone(),
                tsumo.clone()
            )
        );

        // Ron = 1 han 30 fu
        assert_eq!(
            (1, 30),
            compute_han_and_fu(
                hand.clone(),
                melded_tiles.clone(),
                no_iipeikou_win_tile,
                hand_info.clone(),
                ron.clone()
            )
        );
    }
}

#[test]
fn chiitoi_not_iipeikou() {
    // https://ja.wikipedia.org/wiki/%E4%B8%80%E7%9B%83%E5%8F%A3
    // this is chiitoitsu (seven pairs), not iipeikou
    let hand = tiles_to_count_array("12233m3377p2277z");
    let melded_tiles = Vec::new();
    let dora_tiles = get_tile_ids_from_string("1z"); // no dora
    let win_tile = get_id_from_tile_text("1m").unwrap();

    // winning methods (ron vs tsumo)
    let ron = WinningTileInfo {
        source: WinningTileSource::Discard {
            is_last_discard: false,
        },
    };
    let tsumo = WinningTileInfo {
        source: WinningTileSource::SelfDraw {
            is_first_draw: false,
            is_last_draw: false,
        },
    };

    // situations (dealer in East-1 vs. south in East-1)
    let as_dealer = HandInfo {
        hand_state: HandState::Closed {
            riichi_info: RiichiInfo::NoRiichi,
        },
        round_wind: MahjongWindOrder::East,
        seat_wind: MahjongWindOrder::East,
        round_number: 1,
        honba_counter: 0,
        dora_tiles: dora_tiles.clone(),
    };
    let mut as_nondealer = as_dealer.clone();
    as_nondealer.seat_wind = MahjongWindOrder::South;
    let as_nondealer = as_nondealer;

    let hand_info_choices = vec![as_dealer, as_nondealer];
    for hand_info in hand_info_choices.iter() {
        // Tsumo = 3 han 25 fu
        assert_eq!(
            (3, 25),
            compute_han_and_fu(
                hand.clone(),
                melded_tiles.clone(),
                win_tile,
                hand_info.clone(),
                tsumo.clone()
            )
        );

        // Ron = 2 han 25 fu
        assert_eq!(
            (2, 25),
            compute_han_and_fu(
                hand.clone(),
                melded_tiles.clone(),
                win_tile,
                hand_info.clone(),
                ron.clone()
            )
        );
    }
}

#[test]
fn sanankou_outscores_iipeikou() {
    // https://ja.wikipedia.org/wiki/%E4%B8%80%E7%9B%83%E5%8F%A3
    // if interpreting the manzu tiles as 333-444-555 -> scores sanshoku
    // but if interpreting the manzu tiles as 345-345-345 -> scores iipeikou + pinfu
    let hand = tiles_to_count_array("333444555m34p33s");
    let melded_tiles = Vec::new();
    let dora_tiles = get_tile_ids_from_string("1z"); // no dora
    let win_tile = get_id_from_tile_text("2p").unwrap();

    // winning methods (ron vs tsumo)
    let ron = WinningTileInfo {
        source: WinningTileSource::Discard {
            is_last_discard: false,
        },
    };
    let tsumo = WinningTileInfo {
        source: WinningTileSource::SelfDraw {
            is_first_draw: false,
            is_last_draw: false,
        },
    };

    // situations (dealer in East-1 vs. south in East-1)
    let as_dealer = HandInfo {
        hand_state: HandState::Closed {
            riichi_info: RiichiInfo::NoRiichi,
        },
        round_wind: MahjongWindOrder::East,
        seat_wind: MahjongWindOrder::East,
        round_number: 1,
        honba_counter: 0,
        dora_tiles: dora_tiles.clone(),
    };
    let mut as_nondealer = as_dealer.clone();
    as_nondealer.seat_wind = MahjongWindOrder::South;
    let as_nondealer = as_nondealer;

    let hand_info_choices = vec![as_dealer, as_nondealer];
    for hand_info in hand_info_choices.iter() {
        // Tsumo = 4 han 40 fu
        assert_eq!(
            (4, 40),
            compute_han_and_fu(
                hand.clone(),
                melded_tiles.clone(),
                win_tile,
                hand_info.clone(),
                tsumo.clone()
            )
        );

        // Ron = 3 han 50 fu
        assert_eq!(
            (3, 50),
            compute_han_and_fu(
                hand.clone(),
                melded_tiles.clone(),
                win_tile,
                hand_info.clone(),
                ron.clone()
            )
        );
    }
}

#[test]
fn sanshoku_doujun_closed() {
    // https://riichi.wiki/Sanshoku_doujun
    let hand = tiles_to_count_array("123m123p123678s1z");
    let melded_tiles = Vec::new();
    let dora_tiles = get_tile_ids_from_string("2z"); // no dora
    let win_tile = get_id_from_tile_text("1z").unwrap();

    // winning methods (ron vs tsumo)
    let ron = WinningTileInfo {
        source: WinningTileSource::Discard {
            is_last_discard: false,
        },
    };
    let tsumo = WinningTileInfo {
        source: WinningTileSource::SelfDraw {
            is_first_draw: false,
            is_last_draw: false,
        },
    };

    // situations (dealer in East-1 vs. south in East-1)
    let as_dealer = HandInfo {
        hand_state: HandState::Closed {
            riichi_info: RiichiInfo::NoRiichi,
        },
        round_wind: MahjongWindOrder::East,
        seat_wind: MahjongWindOrder::East,
        round_number: 1,
        honba_counter: 0,
        dora_tiles: dora_tiles.clone(),
    };
    let mut as_nondealer = as_dealer.clone();
    as_nondealer.seat_wind = MahjongWindOrder::South;
    let as_nondealer = as_nondealer;

    let hand_info_choices = vec![as_dealer, as_nondealer];
    for hand_info in hand_info_choices.iter() {
        // Tsumo = 3 han 30 fu
        assert_eq!(
            (3, 30),
            compute_han_and_fu(
                hand.clone(),
                melded_tiles.clone(),
                win_tile,
                hand_info.clone(),
                tsumo.clone()
            )
        );

        // Ron = 2 han 40 fu
        assert_eq!(
            (2, 40),
            compute_han_and_fu(
                hand.clone(),
                melded_tiles.clone(),
                win_tile,
                hand_info.clone(),
                ron.clone()
            )
        );
    }
}

#[test]
fn ittsu_pinfu_closed_guaranteed() {
    // https://riichi.wiki/Ikki_tsuukan
    let hand = tiles_to_count_array("123456789m34p55s");
    let melded_tiles = Vec::new();
    let dora_tiles = get_tile_ids_from_string("2z"); // no dora
    let win_tile = get_id_from_tile_text("2p").unwrap();

    // winning methods (ron vs tsumo)
    let ron = WinningTileInfo {
        source: WinningTileSource::Discard {
            is_last_discard: false,
        },
    };
    let tsumo = WinningTileInfo {
        source: WinningTileSource::SelfDraw {
            is_first_draw: false,
            is_last_draw: false,
        },
    };

    // situations (dealer in East-1 vs. south in East-1)
    let as_dealer = HandInfo {
        hand_state: HandState::Closed {
            riichi_info: RiichiInfo::NoRiichi,
        },
        round_wind: MahjongWindOrder::East,
        seat_wind: MahjongWindOrder::East,
        round_number: 1,
        honba_counter: 0,
        dora_tiles: dora_tiles.clone(),
    };
    let mut as_nondealer = as_dealer.clone();
    as_nondealer.seat_wind = MahjongWindOrder::South;
    let as_nondealer = as_nondealer;

    let hand_info_choices = vec![as_dealer, as_nondealer];
    for hand_info in hand_info_choices.iter() {
        // Tsumo = 4 han 20 fu (ittsu + pinfu + menzen)
        assert_eq!(
            (4, 20),
            compute_han_and_fu(
                hand.clone(),
                melded_tiles.clone(),
                win_tile,
                hand_info.clone(),
                tsumo.clone()
            )
        );

        // Ron = 3 han 30 fu (ittsu + pinfu)
        assert_eq!(
            (3, 30),
            compute_han_and_fu(
                hand.clone(),
                melded_tiles.clone(),
                win_tile,
                hand_info.clone(),
                ron.clone()
            )
        );
    }
}

#[test]
fn haitei_or_houtei_hand() {
    // from https://riichi.wiki/Haitei_raoyue_and_houtei_raoyui, replay in tenpai on haitei draw: http://tenhou.net/0/?log=2013122508gm-0009-7447-3e04d9d5&tw=3
    // win on 6s -> haitei+menzen or houtei, tanyao, pinfu, dora 1, sanshoku = 7 han on haitei+tsumo, 6 han otherwise
    let hand = tiles_to_count_array("234678m55678p78s");
    let melded_tiles = Vec::new();
    let dora_tiles = get_tile_ids_from_string("7m");
    let win_tile = get_id_from_tile_text("6s").unwrap();

    // winning methods (ron / houtei vs tsumo / haitei)
    let ron = WinningTileInfo {
        source: WinningTileSource::Discard {
            is_last_discard: true,
        },
    };
    let tsumo = WinningTileInfo {
        source: WinningTileSource::SelfDraw {
            is_first_draw: false,
            is_last_draw: true,
        },
    };

    // situations (dealer in East-1 vs. south in East-1)
    let as_dealer = HandInfo {
        hand_state: HandState::Closed {
            riichi_info: RiichiInfo::NoRiichi,
        },
        round_wind: MahjongWindOrder::East,
        seat_wind: MahjongWindOrder::East,
        round_number: 1,
        honba_counter: 0,
        dora_tiles: dora_tiles.clone(),
    };
    let mut as_nondealer = as_dealer.clone();
    as_nondealer.seat_wind = MahjongWindOrder::South;
    let as_nondealer = as_nondealer;

    let hand_info_choices = vec![as_dealer, as_nondealer];
    for hand_info in hand_info_choices.iter() {
        // Tsumo = 7 han 20 fu
        assert_eq!(
            (7, 20),
            compute_han_and_fu(
                hand.clone(),
                melded_tiles.clone(),
                win_tile,
                hand_info.clone(),
                tsumo.clone()
            )
        );

        // Ron = 6 han 30 fu
        assert_eq!(
            (6, 30),
            compute_han_and_fu(
                hand.clone(),
                melded_tiles.clone(),
                win_tile,
                hand_info.clone(),
                ron.clone()
            )
        );
    }
}

#[test]
fn chankan_hand_example() {
    // from https://riichi.wiki/Chankan, replay: http://tenhou.net/0/?log=2012112813gm-0009-7447-af4e435f&tw=2&ts=8
    // win on 1p -> riichi, ippatsu, chankan, pinfu, dora 2 (no uradora) = 6 han on chankan
    let hand = tiles_to_count_array("345m23345678p77s");
    let melded_tiles = Vec::new();
    let dora_tiles = get_tile_ids_from_string("7s5s"); // 5s is uradora
    let win_tile = get_id_from_tile_text("1p").unwrap();

    // winning methods (ron on chankan)
    let ron = WinningTileInfo {
        source: WinningTileSource::RobbingKan,
    };

    // situations (dealer in East-1 vs. south in East-1)
    let as_dealer = HandInfo {
        hand_state: HandState::Closed {
            riichi_info: RiichiInfo::Riichi {
                is_ippatsu: true,
                is_double_riichi: false,
            },
        },
        round_wind: MahjongWindOrder::East,
        seat_wind: MahjongWindOrder::East,
        round_number: 1,
        honba_counter: 0,
        dora_tiles: dora_tiles.clone(),
    };
    let mut as_nondealer = as_dealer.clone();
    as_nondealer.seat_wind = MahjongWindOrder::South;
    let as_nondealer = as_nondealer;

    let hand_info_choices = vec![as_dealer, as_nondealer];
    for hand_info in hand_info_choices.iter() {
        // Ron = 6 han 30 fu
        assert_eq!(
            (6, 30),
            compute_han_and_fu(
                hand.clone(),
                melded_tiles.clone(),
                win_tile,
                hand_info.clone(),
                ron.clone()
            )
        );
    }
}

#[test]
fn honroutou_chiitoi_hand_example() {
    // from https://riichi.wiki/Honroutou
    // win on 4z -> honroutou, chiitoi
    // this hand is scored incorrectly by https://mahjongo.com/tools/riichi-calculator: it scores it as chanta ("Half Outside Hand") for 1 han, instead of chinroutou for 2 han
    let hand = tiles_to_count_array("99m11p1199s22334z");
    let melded_tiles = Vec::new();
    let dora_tiles = get_tile_ids_from_string("1z"); // no dora
    let win_tile = get_id_from_tile_text("4z").unwrap();

    // winning method
    let ron = WinningTileInfo {
        source: WinningTileSource::Discard {
            is_last_discard: false,
        },
    };

    // situations (dealer in East-1 vs. south in East-1)
    let as_dealer = HandInfo {
        hand_state: HandState::Closed {
            riichi_info: RiichiInfo::NoRiichi,
        },
        round_wind: MahjongWindOrder::East,
        seat_wind: MahjongWindOrder::East,
        round_number: 1,
        honba_counter: 0,
        dora_tiles: dora_tiles.clone(),
    };
    let mut as_nondealer = as_dealer.clone();
    as_nondealer.seat_wind = MahjongWindOrder::West;
    let as_nondealer = as_nondealer;

    // Dealer Ron = 4 han 25 fu
    assert_eq!(
        (4, 25),
        compute_han_and_fu(
            hand.clone(),
            melded_tiles.clone(),
            win_tile,
            as_dealer.clone(),
            ron.clone()
        )
    );

    // Non-dealer Ron = 4 han 25 fu
    assert_eq!(
        (4, 25),
        compute_han_and_fu(
            hand.clone(),
            melded_tiles.clone(),
            win_tile,
            as_nondealer.clone(),
            ron.clone()
        )
    );
}

#[test]
fn chanta_hand_example() {
    // from https://riichi.wiki/Chanta
    // win on 1m -> chanta only (the triplet of 9s blocks pinfu)
    // win on 4m -> no yaku
    let hand = tiles_to_count_array("123p999s44z23789m");
    let melded_tiles = Vec::new();
    let dora_tiles = get_tile_ids_from_string("1z"); // no dora
    let chanta_win_tile = get_id_from_tile_text("1m").unwrap();
    let no_chanta_win_tile = get_id_from_tile_text("4m").unwrap();

    // winning method
    let ron = WinningTileInfo {
        source: WinningTileSource::Discard {
            is_last_discard: false,
        },
    };

    // situations (dealer in East-1 vs. south in East-1)
    let as_dealer = HandInfo {
        hand_state: HandState::Closed {
            riichi_info: RiichiInfo::NoRiichi,
        },
        round_wind: MahjongWindOrder::East,
        seat_wind: MahjongWindOrder::East,
        round_number: 1,
        honba_counter: 0,
        dora_tiles: dora_tiles.clone(),
    };
    let mut as_nondealer = as_dealer.clone();
    as_nondealer.seat_wind = MahjongWindOrder::West;
    let as_nondealer = as_nondealer;

    // Dealer Ron (on 1m) = 2 han 40 fu
    assert_eq!(
        (2, 40),
        compute_han_and_fu(
            hand.clone(),
            melded_tiles.clone(),
            chanta_win_tile,
            as_dealer.clone(),
            ron.clone()
        )
    );

    // Non-dealer Ron (on 1m) = 2 han 40 fu
    assert_eq!(
        (2, 40),
        compute_han_and_fu(
            hand.clone(),
            melded_tiles.clone(),
            chanta_win_tile,
            as_nondealer.clone(),
            ron.clone()
        )
    );

    // Dealer Ron (on 4m) = no yakue
    assert_eq!(
        (0, 0),
        compute_han_and_fu(
            hand.clone(),
            melded_tiles.clone(),
            no_chanta_win_tile,
            as_dealer.clone(),
            ron.clone()
        )
    );

    // Non-dealer Ron (on 4m) = no yakue
    assert_eq!(
        (0, 0),
        compute_han_and_fu(
            hand.clone(),
            melded_tiles.clone(),
            no_chanta_win_tile,
            as_nondealer.clone(),
            ron.clone()
        )
    );
}

#[test]
fn ryanpeikou_hand_example() {
    // from https://riichi.wiki/Ryanpeikou
    // ryanpeikou + pinfu
    let hand = tiles_to_count_array("223344p66778m11s");
    let melded_tiles = Vec::new();
    let dora_tiles = get_tile_ids_from_string("1z"); // no dora
    let ryanpeikou_win_tile = get_id_from_tile_text("8m").unwrap();

    // winning method
    let ron = WinningTileInfo {
        source: WinningTileSource::Discard {
            is_last_discard: false,
        },
    };

    // situations (dealer in East-1 vs. south in East-1)
    let as_dealer = HandInfo {
        hand_state: HandState::Closed {
            riichi_info: RiichiInfo::NoRiichi,
        },
        round_wind: MahjongWindOrder::East,
        seat_wind: MahjongWindOrder::East,
        round_number: 1,
        honba_counter: 0,
        dora_tiles: dora_tiles.clone(),
    };
    let mut as_nondealer = as_dealer.clone();
    as_nondealer.seat_wind = MahjongWindOrder::West;
    let as_nondealer = as_nondealer;

    // Dealer Ron = 4 han 30 fu
    assert_eq!(
        (4, 30),
        compute_han_and_fu(
            hand.clone(),
            melded_tiles.clone(),
            ryanpeikou_win_tile,
            as_dealer.clone(),
            ron.clone()
        )
    );

    // Non-dealer Ron = 4 han 30 fu
    assert_eq!(
        (4, 30),
        compute_han_and_fu(
            hand.clone(),
            melded_tiles.clone(),
            ryanpeikou_win_tile,
            as_nondealer.clone(),
            ron.clone()
        )
    );
}

#[test]
fn junchan_hand_example() {
    // from https://riichi.wiki/Junchantaiyaochuu
    // win on 9s -> junchan only (the triplet of 9m blocks pinfu), 10 fu for ron by closed hand + 8 fu (closed 9m)
    // win on 6s -> no yaku
    let hand = tiles_to_count_array("123999m789p1178s");
    let melded_tiles = Vec::new();
    let dora_tiles = get_tile_ids_from_string("1z"); // no dora
    let junchan_win_tile = get_id_from_tile_text("9s").unwrap();
    let no_junchan_win_tile = get_id_from_tile_text("6s").unwrap();

    // winning method
    let ron = WinningTileInfo {
        source: WinningTileSource::Discard {
            is_last_discard: false,
        },
    };

    // situations (dealer in East-1 vs. south in East-1)
    let as_dealer = HandInfo {
        hand_state: HandState::Closed {
            riichi_info: RiichiInfo::NoRiichi,
        },
        round_wind: MahjongWindOrder::East,
        seat_wind: MahjongWindOrder::East,
        round_number: 1,
        honba_counter: 0,
        dora_tiles: dora_tiles.clone(),
    };
    let mut as_nondealer = as_dealer.clone();
    as_nondealer.seat_wind = MahjongWindOrder::West;
    let as_nondealer = as_nondealer;

    // Dealer Ron (on 9s) = 3 han 40 fu
    assert_eq!(
        (3, 40),
        compute_han_and_fu(
            hand.clone(),
            melded_tiles.clone(),
            junchan_win_tile,
            as_dealer.clone(),
            ron.clone()
        )
    );

    // Non-dealer Ron (on 9s) = 3 han 40 fu
    assert_eq!(
        (3, 40),
        compute_han_and_fu(
            hand.clone(),
            melded_tiles.clone(),
            junchan_win_tile,
            as_nondealer.clone(),
            ron.clone()
        )
    );

    // Dealer Ron (on 6s) = no yaku
    assert_eq!(
        (0, 0),
        compute_han_and_fu(
            hand.clone(),
            melded_tiles.clone(),
            no_junchan_win_tile,
            as_dealer.clone(),
            ron.clone()
        )
    );

    // Non-dealer Ron (on 6s) = no yaku
    assert_eq!(
        (0, 0),
        compute_han_and_fu(
            hand.clone(),
            melded_tiles.clone(),
            no_junchan_win_tile,
            as_nondealer.clone(),
            ron.clone()
        )
    );
}
