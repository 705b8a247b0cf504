use std::time::Instant;

use riichi_bot::mahjong_hand::{
    can_make_kanchan, can_make_penchan, can_make_ryanmen, can_make_sequence, MahjongHand,
};
use riichi_bot::mahjong_tile::{
    get_id_from_tile_text, get_tiles_from_string, tile_ids_to_strings, MahjongTile,
};

/// The id of a tile given in MSPZ notation.
fn tid(text: &str) -> u8 {
    get_id_from_tile_text(text).unwrap().0
}


#[test]
fn hand_add_tile_and_get_tile_count_array() {
    let mut hand = MahjongHand {
        tiles: get_tiles_from_string("12m3z"),
        ..Default::default()
    };

    let new_tile = MahjongTile::from_text("2m").unwrap();
    hand.add_tile(new_tile);
    assert_eq!(hand.tiles.len(), 4);
    let tile_counts = hand.get_tile_count_array();
    assert_eq!(
        1,
        tile_counts[usize::from(tid("1m"))]
    );
    assert_eq!(
        2,
        tile_counts[usize::from(tid("2m"))]
    );
    assert_eq!(
        1,
        tile_counts[usize::from(tid("3z"))]
    );

    let new_suit_tile = MahjongTile::from_text("3s").unwrap();
    hand.add_tile(new_suit_tile);
    assert_eq!(hand.tiles.len(), 5);
    let new_tile_counts = hand.get_tile_count_array();
    assert_eq!(
        1,
        new_tile_counts[usize::from(tid("1m"))]
    );
    assert_eq!(
        2,
        new_tile_counts[usize::from(tid("2m"))]
    );
    assert_eq!(
        1,
        new_tile_counts[usize::from(tid("3z"))]
    );
    assert_eq!(
        1,
        new_tile_counts[usize::from(tid("3s"))]
    );
}

#[test]
fn hand_get_and_update_tile_count_array() {
    let mut hand = MahjongHand {
        tiles: get_tiles_from_string("12m3z"),
        ..Default::default()
    };
    assert!(hand.tile_count_array.is_none());
    let mut expected_tile_count_array = [0; 34];
    expected_tile_count_array
        [usize::from(tid("1m"))] = 1;
    expected_tile_count_array
        [usize::from(tid("2m"))] = 1;
    expected_tile_count_array
        [usize::from(tid("3z"))] = 1;
    assert_eq!(hand.get_tile_count_array(), expected_tile_count_array);

    hand.update_tile_count_array();
    assert!(
        hand.tile_count_array.is_some()
            && hand.tile_count_array.unwrap() == expected_tile_count_array
    );
}

#[test]
fn hand_is_winning_shape() {
    let hand = MahjongHand {
        // hand: 22234m789s345p33z - waits on 2m,5m,3z, so add a 2m tile to make it a winning hand
        tiles: get_tiles_from_string("22234m789s345p33z2m"),
        ..Default::default()
    };
    assert!(hand.is_winning_shape_iterative());
    assert!(hand.is_winning_shape_recursive());
    assert!(hand.is_winning_shape_recursive_heuristic());
    assert!(hand.is_winning_shape_build_shapes());
    assert!(hand.is_winning_shape());
}

fn complex_winning_shape_hand() -> MahjongHand {
    MahjongHand {
        // hand: 2223444567m111z - waits on 1m,2m,3m,4m,5m,8m, so add a 3m tile to make it a winning hand
        tiles: get_tiles_from_string("2223444567m111z3m"),
        ..Default::default()
    }
}

#[test]
fn hand_is_winning_shape_complex() {
    let hand = complex_winning_shape_hand();
    assert!(hand.is_winning_shape_iterative());
    assert!(hand.is_winning_shape_recursive());
    assert!(hand.is_winning_shape_recursive_heuristic());
    assert!(hand.is_winning_shape_build_shapes());
    assert!(hand.is_winning_shape());
}

fn not_winning_shape_hand() -> MahjongHand {
    MahjongHand {
        // hand: 122234m789s345p33z
        tiles: get_tiles_from_string("122234m789s345p33z"),
        ..Default::default()
    }
}

#[test]
fn hand_is_not_winning_shape() {
    let hand = not_winning_shape_hand();
    assert!(!hand.is_winning_shape_iterative());
    assert!(!hand.is_winning_shape_recursive());
    assert!(!hand.is_winning_shape_recursive_heuristic());
    assert!(!hand.is_winning_shape_build_shapes());
    assert!(!hand.is_winning_shape());
}

#[test]
fn time_is_winning_shape_iterative() {
    let hand = complex_winning_shape_hand();
    let before = Instant::now();
    hand.is_winning_shape_iterative();
    println!(
        "Elapsed time for is_winning_shape_iterative: {:.2?}",
        before.elapsed()
    );
}

#[test]
fn time_is_winning_shape_recursive() {
    let hand = complex_winning_shape_hand();
    let before_recursive = Instant::now();
    hand.is_winning_shape_recursive();
    println!(
        "Elapsed time for is_winning_shape_recursive: {:.2?}",
        before_recursive.elapsed()
    );
}

#[test]
fn time_is_winning_shape_recursive_heuristic() {
    let hand = complex_winning_shape_hand();
    let before_recursive_heuristic = Instant::now();
    hand.is_winning_shape_recursive_heuristic();
    println!(
        "Elapsed time for is_winning_shape_recursive_heuristic: {:.2?}",
        before_recursive_heuristic.elapsed()
    );
}

#[test]
fn time_is_winning_shape_build_shapes() {
    let hand = complex_winning_shape_hand();
    let before_build_shapes = Instant::now();
    hand.is_winning_shape_build_shapes();
    println!(
        "Elapsed time for is_winning_shape_build_shapes: {:.2?}",
        before_build_shapes.elapsed()
    );
}

#[test]
fn time_not_winning_shape_iterative() {
    let hand = not_winning_shape_hand();
    let before = Instant::now();
    hand.is_winning_shape_iterative();
    println!(
        "Elapsed time for is_winning_shape_iterative: {:.2?}",
        before.elapsed()
    );
}

#[test]
fn time_not_winning_shape_recursive() {
    let hand = not_winning_shape_hand();
    let before_recursive = Instant::now();
    hand.is_winning_shape_recursive();
    println!(
        "Elapsed time for is_winning_shape_recursive: {:.2?}",
        before_recursive.elapsed()
    );
}

#[test]
fn time_not_winning_shape_recursive_heuristic() {
    let hand = not_winning_shape_hand();
    let before_recursive_heuristic = Instant::now();
    hand.is_winning_shape_recursive_heuristic();
    println!(
        "Elapsed time for is_winning_shape_recursive_heuristic: {:.2?}",
        before_recursive_heuristic.elapsed()
    );
}

#[test]
fn time_not_winning_shape_build_shapes() {
    let hand = not_winning_shape_hand();
    let before_build_shapes = Instant::now();
    hand.is_winning_shape_build_shapes();
    println!(
        "Elapsed time for is_winning_shape_build_shapes: {:.2?}",
        before_build_shapes.elapsed()
    );
}

fn ryanmen_tenpai_hand() -> MahjongHand {
    MahjongHand {
        // hand: 22s111234p34789m (wins on 25m)
        tiles: get_tiles_from_string("22s111234p34789m"),
        ..Default::default()
    }
}

fn shanpon_tenpai_hand() -> MahjongHand {
    MahjongHand {
        // hand: 22s111234p33789m (wins on 2s3m)
        tiles: get_tiles_from_string("22s111234p33789m"),
        ..Default::default()
    }
}

fn tanki_tenpai_hand() -> MahjongHand {
    MahjongHand {
        // hand: 2s111234p333789m (wins on 2s)
        tiles: get_tiles_from_string("2s111234p333789m"),
        ..Default::default()
    }
}

#[test]
fn hand_is_tenpai_ryanmen() {
    let hand = ryanmen_tenpai_hand();
    assert!(hand.is_tenpai_brute_force());
    assert!(hand.is_tenpai_build_shapes());
    assert!(hand.is_tenpai());
    let tenpai_tile_ids = hand.get_tenpai_tiles_brute_force();
    assert_eq!(tenpai_tile_ids.len(), 2);
    assert!(tenpai_tile_ids.contains(&tid("2m")));
    assert!(tenpai_tile_ids.contains(&tid("5m")));

    let tenpai_tile_ids = hand.get_tenpai_tiles_build_shapes();
    // let tenpai_tile_id_strs = tile_ids_to_strings(&tenpai_tile_ids);
    // println!("{}", tenpai_tile_id_strs.join(", "));
    assert_eq!(tenpai_tile_ids.len(), 2);
    assert!(tenpai_tile_ids.contains(&tid("2m")));
    assert!(tenpai_tile_ids.contains(&tid("5m")));
}

#[test]
fn hand_is_tenpai_shanpon() {
    let hand = shanpon_tenpai_hand();
    assert!(hand.is_tenpai_brute_force());
    assert!(hand.is_tenpai_build_shapes());
    assert!(hand.is_tenpai());
    let tenpai_tile_ids = hand.get_tenpai_tiles_brute_force();
    assert_eq!(tenpai_tile_ids.len(), 2);
    assert!(tenpai_tile_ids.contains(&tid("2s")));
    assert!(tenpai_tile_ids.contains(&tid("3m")));

    let tenpai_tile_ids = hand.get_tenpai_tiles_build_shapes();
    // let tenpai_tile_id_strs = tile_ids_to_strings(&tenpai_tile_ids);
    // println!("{}", tenpai_tile_id_strs.join(", "));
    assert_eq!(tenpai_tile_ids.len(), 2);
    assert!(tenpai_tile_ids.contains(&tid("2s")));
    assert!(tenpai_tile_ids.contains(&tid("3m")));
}

#[test]
fn hand_is_tenpai_tanki() {
    let hand = tanki_tenpai_hand();
    assert!(hand.is_tenpai_brute_force());
    assert!(hand.is_tenpai_build_shapes());
    assert!(hand.is_tenpai());
    let tenpai_tile_ids = hand.get_tenpai_tiles_brute_force();
    assert_eq!(tenpai_tile_ids.len(), 1);
    assert!(tenpai_tile_ids.contains(&tid("2s")));

    let tenpai_tile_ids = hand.get_tenpai_tiles_build_shapes();
    // let tenpai_tile_id_strs = tile_ids_to_strings(&tenpai_tile_ids);
    // println!("{}", tenpai_tile_id_strs.join(", "));
    assert_eq!(tenpai_tile_ids.len(), 1);
    assert!(tenpai_tile_ids.contains(&tid("2s")));
}

#[test]
fn time_is_tenpai_brute_force() {
    let hand = ryanmen_tenpai_hand();
    let before = Instant::now();
    hand.is_tenpai_brute_force();
    println!(
        "Elapsed time for is_tenpai_brute_force: {:.2?}",
        before.elapsed()
    );
}

#[test]
fn time_is_tenpai_build_shapes() {
    let hand = ryanmen_tenpai_hand();
    let before = Instant::now();
    hand.is_tenpai_build_shapes();
    println!(
        "Elapsed time for is_tenpai_build_shapes: {:.2?}",
        before.elapsed()
    );
}

#[test]
fn time_get_tenpai_tiles_brute_force() {
    let hand = ryanmen_tenpai_hand();
    let before = Instant::now();
    hand.get_tenpai_tiles_brute_force();
    println!(
        "Elapsed time for get_tenpai_tiles_brute_force: {:.2?}",
        before.elapsed()
    );
}

fn not_tenpai_hand() -> MahjongHand {
    MahjongHand {
        // hand: 23445588s345p11z
        tiles: get_tiles_from_string("23445588s345p11z"),
        ..Default::default()
    }
}

#[test]
fn hand_is_not_tenpai() {
    let hand = not_tenpai_hand();
    assert!(!hand.is_tenpai_brute_force());
    assert!(!hand.is_tenpai_build_shapes());
    assert!(!hand.is_tenpai());
    let tenpai_tile_ids = hand.get_tenpai_tiles_brute_force();
    assert_eq!(tenpai_tile_ids.len(), 0);
    let tenpai_tile_ids = hand.get_tenpai_tiles_build_shapes();
    assert_eq!(tenpai_tile_ids.len(), 0);
}

fn chuuren_poutou_tenpai_hand() -> MahjongHand {
    // aka pure nine gates
    MahjongHand {
        // hand: 1112345678999p (wins on 123456789p)
        tiles: get_tiles_from_string("1112345678999p"),
        ..Default::default()
    }
}

#[test]
fn chuuren_poutou_hand_is_tenpai() {
    let hand = chuuren_poutou_tenpai_hand();
    assert!(hand.is_tenpai_brute_force());
    assert!(hand.is_tenpai_build_shapes());
    assert!(hand.is_tenpai());
    let tenpai_tile_ids = hand.get_tenpai_tiles_brute_force();
    let tenpai_tile_id_strs = tile_ids_to_strings(&tenpai_tile_ids);
    println!("{}", tenpai_tile_id_strs.join(", "));
    assert_eq!(tenpai_tile_ids.len(), 9);
    assert!(tenpai_tile_ids.contains(&tid("1p")));
    assert!(tenpai_tile_ids.contains(&tid("2p")));
    assert!(tenpai_tile_ids.contains(&tid("3p")));
    assert!(tenpai_tile_ids.contains(&tid("4p")));
    assert!(tenpai_tile_ids.contains(&tid("5p")));
    assert!(tenpai_tile_ids.contains(&tid("6p")));
    assert!(tenpai_tile_ids.contains(&tid("7p")));
    assert!(tenpai_tile_ids.contains(&tid("8p")));
    assert!(tenpai_tile_ids.contains(&tid("9p")));

    let tenpai_tile_ids = hand.get_tenpai_tiles_build_shapes();
    assert_eq!(tenpai_tile_ids.len(), 9);
    assert!(tenpai_tile_ids.contains(&tid("1p")));
    assert!(tenpai_tile_ids.contains(&tid("2p")));
    assert!(tenpai_tile_ids.contains(&tid("3p")));
    assert!(tenpai_tile_ids.contains(&tid("4p")));
    assert!(tenpai_tile_ids.contains(&tid("5p")));
    assert!(tenpai_tile_ids.contains(&tid("6p")));
    assert!(tenpai_tile_ids.contains(&tid("7p")));
    assert!(tenpai_tile_ids.contains(&tid("8p")));
    assert!(tenpai_tile_ids.contains(&tid("9p")));
}

#[test]
fn time_get_tenpai_tiles_brute_force_chuuren_poutou() {
    let hand = chuuren_poutou_tenpai_hand();
    let before = Instant::now();
    hand.get_tenpai_tiles_brute_force();
    println!(
        "Elapsed time for get_tenpai_tiles_brute_force (on chuuren poutou hand): {:.2?}",
        before.elapsed()
    );
}

#[test]
fn test_can_make_sequence() {
    // valid sequence 1m-2m-3m
    let mut tile_counts: [u8; 34] = [0; 34];
    let tile_id_1m = tid("1m");
    tile_counts[usize::from(tile_id_1m)] = 1;
    let tile_id_2m = tid("2m");
    tile_counts[usize::from(tile_id_2m)] = 1;
    let tile_id_3m = tid("3m");
    tile_counts[usize::from(tile_id_3m)] = 1;
    let tile_id_4m = tid("4m");

    assert!(can_make_sequence(&tile_counts, tile_id_1m));
    assert!(can_make_sequence(&tile_counts, tile_id_2m));
    assert!(can_make_sequence(&tile_counts, tile_id_3m));
    assert!(!can_make_sequence(&tile_counts, tile_id_4m));

    // valid sequence 4s-5s-6s
    let mut tile_counts: [u8; 34] = [0; 34];
    let tile_id_4s = tid("4s");
    tile_counts[usize::from(tile_id_4s)] = 1;
    let tile_id_5s = tid("5s");
    tile_counts[usize::from(tile_id_5s)] = 1;
    let tile_id_6s = tid("6s");
    tile_counts[usize::from(tile_id_6s)] = 1;
    let tile_id_7s = tid("7s");

    assert!(can_make_sequence(&tile_counts, tile_id_4s));
    assert!(can_make_sequence(&tile_counts, tile_id_5s));
    assert!(can_make_sequence(&tile_counts, tile_id_6s));
    assert!(!can_make_sequence(&tile_counts, tile_id_7s));

    // sequence cannot wrap around (9m-1m-2m is not a sequence)
    let mut tile_counts: [u8; 34] = [0; 34];
    let tile_id_9m = tid("9m");
    tile_counts[usize::from(tile_id_9m)] = 1;
    let tile_id_1m = tid("1m");
    tile_counts[usize::from(tile_id_1m)] = 1;
    let tile_id_2m = tid("2m");
    tile_counts[usize::from(tile_id_2m)] = 1;

    assert!(!can_make_sequence(&tile_counts, tile_id_9m));
    assert!(!can_make_sequence(&tile_counts, tile_id_1m));
    assert!(!can_make_sequence(&tile_counts, tile_id_2m));

    // sequence cannot wrap in tile_id (9m-1p-2p is not a sequence)
    let mut tile_counts: [u8; 34] = [0; 34];
    let tile_id_9m = tid("9m");
    tile_counts[usize::from(tile_id_9m)] = 1;
    let tile_id_1p = tile_id_9m + 1;
    tile_counts[usize::from(tile_id_1p)] = 1;
    let tile_id_2p = tile_id_9m + 2;
    tile_counts[usize::from(tile_id_2p)] = 1;

    assert!(!can_make_sequence(&tile_counts, tile_id_9m));
    assert!(!can_make_sequence(&tile_counts, tile_id_1p));
    assert!(!can_make_sequence(&tile_counts, tile_id_2p));

    // sequence must be in the same suit
    let mut tile_counts: [u8; 34] = [0; 34];
    let tile_id_7m = tid("7m");
    tile_counts[usize::from(tile_id_7m)] = 1;
    let tile_id_8p = tid("8p");
    tile_counts[usize::from(tile_id_8p)] = 1;
    let tile_id_9p = tid("9p");
    tile_counts[usize::from(tile_id_9p)] = 1;

    assert!(!can_make_sequence(&tile_counts, tile_id_7m));
    assert!(!can_make_sequence(&tile_counts, tile_id_8p));
    assert!(!can_make_sequence(&tile_counts, tile_id_9p));

    // honor tiles cannot form a sequence
    let mut tile_counts: [u8; 34] = [0; 34];
    let tile_id_1z = tid("1z");
    tile_counts[usize::from(tile_id_1z)] = 1;
    let tile_id_2z = tid("2z");
    tile_counts[usize::from(tile_id_2z)] = 1;
    let tile_id_3z = tid("3z");
    tile_counts[usize::from(tile_id_3z)] = 1;
    assert!(!can_make_sequence(&tile_counts, tile_id_1z));
    assert!(!can_make_sequence(&tile_counts, tile_id_2z));
    assert!(!can_make_sequence(&tile_counts, tile_id_3z));
}

#[test]
fn test_can_make_ryanmen() {
    // valid ryanmen 2m-3m
    let mut tile_counts: [u8; 34] = [0; 34];
    let tile_id_1m = tid("1m");
    let tile_id_2m = tid("2m");
    tile_counts[usize::from(tile_id_2m)] = 1;
    let tile_id_3m = tid("3m");
    tile_counts[usize::from(tile_id_3m)] = 1;
    let tile_id_4m = tid("4m");

    assert!(!can_make_ryanmen(&tile_counts, tile_id_1m));
    assert!(can_make_ryanmen(&tile_counts, tile_id_2m));
    assert!(can_make_ryanmen(&tile_counts, tile_id_3m));
    assert!(!can_make_ryanmen(&tile_counts, tile_id_4m));

    // valid ryanmen 5s-6s
    let mut tile_counts: [u8; 34] = [0; 34];
    let tile_id_4s = tid("4s");
    let tile_id_5s = tid("5s");
    tile_counts[usize::from(tile_id_5s)] = 1;
    let tile_id_6s = tid("6s");
    tile_counts[usize::from(tile_id_6s)] = 1;
    let tile_id_7s = tid("7s");

    assert!(!can_make_ryanmen(&tile_counts, tile_id_4s));
    assert!(can_make_ryanmen(&tile_counts, tile_id_5s));
    assert!(can_make_ryanmen(&tile_counts, tile_id_6s));
    assert!(!can_make_ryanmen(&tile_counts, tile_id_7s));

    // ryanmen cannot include terminal (8m-9m is not a ryanmen)
    let mut tile_counts: [u8; 34] = [0; 34];
    let tile_id_8m = tid("8m");
    tile_counts[usize::from(tile_id_8m)] = 1;
    let tile_id_9m = tid("9m");
    tile_counts[usize::from(tile_id_9m)] = 1;

    assert!(!can_make_ryanmen(&tile_counts, tile_id_8m));
    assert!(!can_make_ryanmen(&tile_counts, tile_id_9m));

    // ryanmen cannot wrap in tile_id (9p-1s is not a ryanmen)
    let mut tile_counts: [u8; 34] = [0; 34];
    let tile_id_9p = tid("9p");
    tile_counts[usize::from(tile_id_9p)] = 1;
    let tile_id_1s = tile_id_9p + 1;
    tile_counts[usize::from(tile_id_1s)] = 1;

    assert!(!can_make_ryanmen(&tile_counts, tile_id_9p));
    assert!(!can_make_ryanmen(&tile_counts, tile_id_1s));

    // ryanmen must be in the same suit (7m-8p is not a ryanmen)
    let mut tile_counts: [u8; 34] = [0; 34];
    let tile_id_7m = tid("7m");
    tile_counts[usize::from(tile_id_7m)] = 1;
    let tile_id_8p = tid("8p");
    tile_counts[usize::from(tile_id_8p)] = 1;

    assert!(!can_make_ryanmen(&tile_counts, tile_id_7m));
    assert!(!can_make_ryanmen(&tile_counts, tile_id_8p));

    // honor tiles cannot form a ryanmen
    let mut tile_counts: [u8; 34] = [0; 34];
    let tile_id_2z = tid("2z");
    tile_counts[usize::from(tile_id_2z)] = 1;
    let tile_id_3z = tid("3z");
    tile_counts[usize::from(tile_id_3z)] = 1;
    assert!(!can_make_ryanmen(&tile_counts, tile_id_2z));
    assert!(!can_make_ryanmen(&tile_counts, tile_id_3z));
}

#[test]
fn test_can_make_penchan() {
    // valid penchan 1m-2m
    let mut tile_counts: [u8; 34] = [0; 34];
    let tile_id_1m = tid("1m");
    tile_counts[usize::from(tile_id_1m)] = 1;
    let tile_id_2m = tid("2m");
    tile_counts[usize::from(tile_id_2m)] = 1;
    let tile_id_3m = tid("3m");

    assert!(can_make_penchan(&tile_counts, tile_id_1m));
    assert!(can_make_penchan(&tile_counts, tile_id_2m));
    assert!(!can_make_penchan(&tile_counts, tile_id_3m));

    // valid penchan 8s-9s
    let mut tile_counts: [u8; 34] = [0; 34];
    let tile_id_8s = tid("8s");
    tile_counts[usize::from(tile_id_8s)] = 1;
    let tile_id_9s = tid("9s");
    tile_counts[usize::from(tile_id_9s)] = 1;
    let tile_id_7s = tid("7s");

    assert!(!can_make_penchan(&tile_counts, tile_id_7s));
    assert!(can_make_penchan(&tile_counts, tile_id_8s));
    assert!(can_make_penchan(&tile_counts, tile_id_9s));

    // 7p-8p is not a penchan
    let mut tile_counts: [u8; 34] = [0; 34];
    let tile_id_8p = tid("8p");
    tile_counts[usize::from(tile_id_8p)] = 1;
    let tile_id_7p = tid("7p");
    tile_counts[usize::from(tile_id_7p)] = 1;

    assert!(!can_make_penchan(&tile_counts, tile_id_7p));
    assert!(!can_make_penchan(&tile_counts, tile_id_8p));

    // penchan cannot wrap in tile_id (9p-1s is not a penchan)
    let mut tile_counts: [u8; 34] = [0; 34];
    let tile_id_9p = tid("9p");
    tile_counts[usize::from(tile_id_9p)] = 1;
    let tile_id_1s = tile_id_9p + 1;
    tile_counts[usize::from(tile_id_1s)] = 1;

    assert!(!can_make_penchan(&tile_counts, tile_id_9p));
    assert!(!can_make_penchan(&tile_counts, tile_id_1s));

    // penchan must be in the same suit (8p-9m is not a penchan)
    let mut tile_counts: [u8; 34] = [0; 34];
    let tile_id_8p = tid("8p");
    tile_counts[usize::from(tile_id_8p)] = 1;
    let tile_id_9m = tid("9m");
    tile_counts[usize::from(tile_id_9m)] = 1;

    assert!(!can_make_penchan(&tile_counts, tile_id_8p));
    assert!(!can_make_penchan(&tile_counts, tile_id_9m));

    // honor tiles cannot form a penchan
    let mut tile_counts: [u8; 34] = [0; 34];
    let tile_id_6z = tid("6z");
    tile_counts[usize::from(tile_id_6z)] = 1;
    let tile_id_7z = tid("7z");
    tile_counts[usize::from(tile_id_7z)] = 1;
    assert!(!can_make_penchan(&tile_counts, tile_id_6z));
    assert!(!can_make_penchan(&tile_counts, tile_id_7z));
}

#[test]
fn test_can_make_kanchan() {
    // valid kanchan 1m-3m
    let mut tile_counts: [u8; 34] = [0; 34];
    let tile_id_1m = tid("1m");
    tile_counts[usize::from(tile_id_1m)] = 1;
    let tile_id_2m = tid("2m");
    let tile_id_3m = tid("3m");
    tile_counts[usize::from(tile_id_3m)] = 1;
    let tile_id_4m = tid("4m");

    assert!(can_make_kanchan(&tile_counts, tile_id_1m));
    assert!(!can_make_kanchan(&tile_counts, tile_id_2m));
    assert!(can_make_kanchan(&tile_counts, tile_id_3m));
    assert!(!can_make_kanchan(&tile_counts, tile_id_4m));

    // valid kanchan 4s-6s (from 4s-5s-6s)
    let mut tile_counts: [u8; 34] = [0; 34];
    let tile_id_4s = tid("4s");
    tile_counts[usize::from(tile_id_4s)] = 1;
    let tile_id_5s = tid("5s");
    tile_counts[usize::from(tile_id_5s)] = 1;
    let tile_id_6s = tid("6s");
    tile_counts[usize::from(tile_id_6s)] = 1;
    let tile_id_7s = tid("7s");

    assert!(can_make_kanchan(&tile_counts, tile_id_4s));
    assert!(!can_make_kanchan(&tile_counts, tile_id_5s));
    assert!(can_make_kanchan(&tile_counts, tile_id_6s));
    assert!(!can_make_kanchan(&tile_counts, tile_id_7s));

    // kanchan cannot wrap around (8m-1m is not a kanchan)
    let mut tile_counts: [u8; 34] = [0; 34];
    let tile_id_8m = tid("8m");
    tile_counts[usize::from(tile_id_8m)] = 1;
    let tile_id_1m = tid("1m");
    tile_counts[usize::from(tile_id_1m)] = 1;

    assert!(!can_make_kanchan(&tile_counts, tile_id_8m));
    assert!(!can_make_kanchan(&tile_counts, tile_id_1m));

    // kanchan cannot wrap in tile_id (9m-2p is not a kanchan)
    let mut tile_counts: [u8; 34] = [0; 34];
    let tile_id_9m = tid("9m");
    tile_counts[usize::from(tile_id_9m)] = 1;
    let tile_id_2p = tile_id_9m + 2;
    tile_counts[usize::from(tile_id_2p)] = 1;

    assert!(!can_make_kanchan(&tile_counts, tile_id_9m));
    assert!(!can_make_kanchan(&tile_counts, tile_id_2p));

    // kanchan must be in the same suit (7m-9p is not kanchan)
    let mut tile_counts: [u8; 34] = [0; 34];
    let tile_id_7m = tid("7m");
    tile_counts[usize::from(tile_id_7m)] = 1;
    let tile_id_9p = tid("9p");
    tile_counts[usize::from(tile_id_9p)] = 1;

    assert!(!can_make_kanchan(&tile_counts, tile_id_7m));
    assert!(!can_make_kanchan(&tile_counts, tile_id_9p));

    // honor tiles cannot form a kanchan
    let mut tile_counts: [u8; 34] = [0; 34];
    let tile_id_1z = tid("1z");
    tile_counts[usize::from(tile_id_1z)] = 1;
    let tile_id_3z = tid("3z");
    tile_counts[usize::from(tile_id_3z)] = 1;
    assert!(!can_make_kanchan(&tile_counts, tile_id_1z));
    assert!(!can_make_kanchan(&tile_counts, tile_id_3z));
}

#[test]
fn build_shapes_complete_hand() {
    let hand = complex_winning_shape_hand();
    let groupings = hand.build_shapes(0);
    println!("returned groupings:");
    for grouping in groupings.iter() {
        println!("{:?}", grouping);
    }

    let mut complete_groupings = vec![];
    for grouping in groupings.iter() {
        if grouping.num_complete_groups == 4
            && grouping.num_incomplete_groups == 0
            && grouping.num_pairs == 1
        {
            complete_groupings.push(grouping.clone());
        }
    }

    assert_eq!(complete_groupings.len(), 1);
    let returned_grouping = complete_groupings.get(0).unwrap();
    assert_eq!(returned_grouping.tile_count_array, [0; 34]);
    assert_eq!(returned_grouping.num_complete_groups, 4);
    assert_eq!(returned_grouping.num_incomplete_groups, 0);
    assert_eq!(returned_grouping.num_pairs, 1);

    let mut honor_group_counts = [0; 34];
    honor_group_counts[usize::from(tid("1z"))] = 3;
    assert!(returned_grouping
        .groups_tile_counts
        .contains(&honor_group_counts));

    let mut meld_group_counts = [0; 34];
    meld_group_counts[usize::from(tid("2m"))] = 3;
    assert!(returned_grouping
        .groups_tile_counts
        .contains(&meld_group_counts));

    let mut pair_group_counts = [0; 34];
    pair_group_counts[usize::from(tid("3m"))] = 2;
    assert!(returned_grouping
        .groups_tile_counts
        .contains(&pair_group_counts));

    let mut meld_group_counts = [0; 34];
    meld_group_counts[usize::from(tid("4m"))] = 3;
    assert!(returned_grouping
        .groups_tile_counts
        .contains(&meld_group_counts));

    let mut sequence_group_counts = [0; 34];
    sequence_group_counts[usize::from(tid("5m"))] = 1;
    sequence_group_counts[usize::from(tid("6m"))] = 1;
    sequence_group_counts[usize::from(tid("7m"))] = 1;
    assert!(returned_grouping
        .groups_tile_counts
        .contains(&sequence_group_counts));
}

fn nobetan_shape() -> MahjongHand {
    MahjongHand {
        // hand: 2m3m4m5m
        tiles: get_tiles_from_string("2345m"),
        ..Default::default()
    }
}

#[test]
fn build_shapes_nobetan_shape() {
    // test with a four-in-a-row shape (yonrenkei, aka nobetan)
    let hand = nobetan_shape();
    let groupings = hand.build_shapes(2);
    println!("returned groupings:");
    for grouping in groupings.iter() {
        println!("{:?}", grouping);
    }

    assert_eq!(groupings.len(), 3);
    // there are three main ways to parse this shape
    // 234-5, 2-345, and 23-45
    // other interpretations are unnecessarily wide/inefficient e.g. 24-35, or 2-34-5
}

fn embedded_ryankan_shape() -> MahjongHand {
    MahjongHand {
        // hand: 2m3m3m4m5m7m8m
        tiles: get_tiles_from_string("234578m"),
        ..Default::default()
    }
}

#[test]
fn build_shapes_embedded_ryankan_shape() {
    // test with a shape that has an embedded ryankan (3m-5m-7m)
    let hand = embedded_ryankan_shape();
    let groupings = hand.build_shapes(2);
    println!("returned groupings:");
    for grouping in groupings.iter() {
        println!("{:?}", grouping);
    }

    assert_eq!(groupings.len(), 3);
    // there are several main ways to parse this shape
    // 23-345-78, 234-357-8, 234-35-78
    // other interpretations are unnecessarily wide/inefficient
}
