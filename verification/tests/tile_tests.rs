use riichi_bot::mahjong_tile::{
    four_of_each_tile_count_array, get_distinct_tile_ids_from_count_array, get_id_from_tile_text,
    get_num_tile_rank, get_num_tile_suit, get_tile_ids_from_count_array, get_tile_ids_from_string,
    get_tile_text_from_id, get_tiles_from_string, get_total_tiles_from_count_array,
    tile_ids_to_strings, MahjongTile, MahjongTileCountArray, MahjongTileId,
    MahjongTileNumberedSuit,
};

#[test]
fn test_get_num_tile_suit_and_rank() {
    // tile_id for 1m = 0
    assert_eq!(get_num_tile_suit(0), Some(MahjongTileNumberedSuit::Man));
    assert_eq!(get_num_tile_rank(0), Some(1));

    // tile_id for 5m = 4
    assert_eq!(get_num_tile_suit(4), Some(MahjongTileNumberedSuit::Man));
    assert_eq!(get_num_tile_rank(4), Some(5));

    // tile_id for 7p = 15
    assert_eq!(get_num_tile_suit(15), Some(MahjongTileNumberedSuit::Pin));
    assert_eq!(get_num_tile_rank(15), Some(7));

    // tile_id for 2s = 19
    assert_eq!(get_num_tile_suit(19), Some(MahjongTileNumberedSuit::Sou));
    assert_eq!(get_num_tile_rank(19), Some(2));

    // tile_id for 1z = 27
    assert_eq!(get_num_tile_suit(27), None);
    assert_eq!(get_num_tile_rank(27), None);
}

#[test]
fn test_mahjong_tile_id_new() {
    let one_man = MahjongTileId::new_number_tile(1, MahjongTileNumberedSuit::Man);
    assert_eq!(one_man, MahjongTileId(0));
    let five_man = MahjongTileId::new_number_tile(5, MahjongTileNumberedSuit::Man);
    assert_eq!(five_man, MahjongTileId(4));
    let nine_man = MahjongTileId::new_number_tile(9, MahjongTileNumberedSuit::Man);
    assert_eq!(nine_man, MahjongTileId(8));

    let three_pin = MahjongTileId::new_number_tile(3, MahjongTileNumberedSuit::Pin);
    assert_eq!(three_pin, MahjongTileId(11));
    let four_pin = MahjongTileId::new_number_tile(4, MahjongTileNumberedSuit::Pin);
    assert_eq!(four_pin, MahjongTileId(12));
    let seven_pin = MahjongTileId::new_number_tile(7, MahjongTileNumberedSuit::Pin);
    assert_eq!(seven_pin, MahjongTileId(15));

    let two_sou = MahjongTileId::new_number_tile(2, MahjongTileNumberedSuit::Sou);
    assert_eq!(two_sou, MahjongTileId(19));
    let six_sou = MahjongTileId::new_number_tile(6, MahjongTileNumberedSuit::Sou);
    assert_eq!(six_sou, MahjongTileId(23));
    let eight_sou = MahjongTileId::new_number_tile(8, MahjongTileNumberedSuit::Sou);
    assert_eq!(eight_sou, MahjongTileId(25));

    let east_wind = MahjongTileId::new_honor_tile(1);
    assert_eq!(east_wind, MahjongTileId(27));
    let south_wind = MahjongTileId::new_honor_tile(2);
    assert_eq!(south_wind, MahjongTileId(28));
    let west_wind = MahjongTileId::new_honor_tile(3);
    assert_eq!(west_wind, MahjongTileId(29));
    let north_wind = MahjongTileId::new_honor_tile(4);
    assert_eq!(north_wind, MahjongTileId(30));
    let white_dragon = MahjongTileId::new_honor_tile(5);
    assert_eq!(white_dragon, MahjongTileId(31));
    let green_dragon = MahjongTileId::new_honor_tile(6);
    assert_eq!(green_dragon, MahjongTileId(32));
    let red_dragon = MahjongTileId::new_honor_tile(7);
    assert_eq!(red_dragon, MahjongTileId(33));
}

#[test]
fn tile_from_text() {
    let one_man = MahjongTile::from_text("1m");
    assert!(one_man.is_ok());
    let one_man_tile = one_man.unwrap();
    assert!(
        one_man_tile.value == MahjongTileId::new_number_tile(1, MahjongTileNumberedSuit::Man)
            && !one_man_tile.is_red
    );
    let three_pin = MahjongTile::from_text("3p");
    assert!(three_pin.is_ok());
    let three_pin_tile = three_pin.unwrap();
    assert!(
        three_pin_tile.value == MahjongTileId::new_number_tile(3, MahjongTileNumberedSuit::Pin)
            && !three_pin_tile.is_red
    );
    let five_sou = MahjongTile::from_text("5s");
    assert!(five_sou.is_ok());
    let five_sou_tile = five_sou.unwrap();
    assert!(
        five_sou_tile.value == MahjongTileId::new_number_tile(5, MahjongTileNumberedSuit::Sou)
            && !five_sou_tile.is_red
    );
    let red_five_sou = MahjongTile::from_text("0s");
    assert!(red_five_sou.is_ok());
    let red_five_sou_tile = red_five_sou.unwrap();
    assert!(
        red_five_sou_tile.value == MahjongTileId::new_number_tile(5, MahjongTileNumberedSuit::Sou)
            && red_five_sou_tile.is_red
    );

    let south_wind = MahjongTile::from_text("2z");
    assert!(south_wind.is_ok());
    let south_wind_tile = south_wind.unwrap();
    assert!(south_wind_tile.value == MahjongTileId::new_honor_tile(2) && !south_wind_tile.is_red);
    let west_wind = MahjongTile::from_text("3z");
    assert!(west_wind.is_ok());
    let west_wind_tile = west_wind.unwrap();
    assert!(west_wind_tile.value == MahjongTileId::new_honor_tile(3) && !west_wind_tile.is_red);
    let green_dragon = MahjongTile::from_text("6z");
    assert!(green_dragon.is_ok());
    let green_dragon_tile = green_dragon.unwrap();
    assert!(
        green_dragon_tile.value == MahjongTileId::new_honor_tile(6) && !green_dragon_tile.is_red
    );

    // invalid values
    let invalid_man = MahjongTile::from_text("am");
    assert!(invalid_man.is_err());
    let invalid_suit = MahjongTile::from_text("1w");
    assert!(invalid_suit.is_err());
    let invalid_format = MahjongTile::from_text("06");
    assert!(invalid_format.is_err());
    let too_long = MahjongTile::from_text("14m");
    assert!(too_long.is_err());
    let too_short = MahjongTile::from_text("3");
    assert!(too_short.is_err());
    let invalid_dragon = MahjongTile::from_text("8z");
    assert!(invalid_dragon.is_err());
}

#[test]
fn test_get_id_from_tile_text() {
    match get_id_from_tile_text("1m") {
        Ok(tile_id) => assert_eq!(tile_id, MahjongTileId(0)),
        Err(_) => assert!(false),
    };

    match get_id_from_tile_text("3p") {
        Ok(tile_id) => assert_eq!(tile_id, MahjongTileId(11)),
        Err(_) => assert!(false),
    };

    match get_id_from_tile_text("8s") {
        Ok(tile_id) => assert_eq!(tile_id, MahjongTileId(25)),
        Err(_) => assert!(false),
    };

    match get_id_from_tile_text("1z") {
        Ok(tile_id) => assert_eq!(tile_id, MahjongTileId(27)),
        Err(_) => assert!(false),
    };

    match get_id_from_tile_text("4z") {
        Ok(tile_id) => assert_eq!(tile_id, MahjongTileId(30)),
        Err(_) => assert!(false),
    };

    // invalid tile string should return Err(...)
    assert!(get_id_from_tile_text("9z").is_err());

    // handle red fives
    match get_id_from_tile_text("0m") {
        Ok(tile_id) => assert_eq!(tile_id, MahjongTileId(4)),
        Err(_) => assert!(false),
    };
    match get_id_from_tile_text("0p") {
        Ok(tile_id) => assert_eq!(tile_id, MahjongTileId(13)),
        Err(_) => assert!(false),
    };
    match get_id_from_tile_text("0s") {
        Ok(tile_id) => assert_eq!(tile_id, MahjongTileId(22)),
        Err(_) => assert!(false),
    };

    // but there is no "0z"
    assert!(get_id_from_tile_text("0z").is_err());
}

#[test]
fn test_get_tile_text_from_id() {
    assert_eq!(get_tile_text_from_id(0), "1m");
    assert_eq!(get_tile_text_from_id(2), "3m");
    assert_eq!(get_tile_text_from_id(11), "3p");
    assert_eq!(get_tile_text_from_id(15), "7p");
    assert_eq!(get_tile_text_from_id(22), "5s");
    assert_eq!(get_tile_text_from_id(25), "8s");
    assert_eq!(get_tile_text_from_id(27), "1z");
    assert_eq!(get_tile_text_from_id(32), "6z");
    assert_eq!(get_tile_text_from_id(33), "7z");
}

#[test]
fn test_get_tiles_from_string_single_suit() {
    let tile_string = "2333344445678s".to_string();
    let mut tiles_from_string = get_tiles_from_string(&tile_string);
    tiles_from_string.sort();

    let mut expected_tiles = vec![
        MahjongTile::from_text("2s").unwrap(),
        MahjongTile::from_text("3s").unwrap(),
        MahjongTile::from_text("3s").unwrap(),
        MahjongTile::from_text("3s").unwrap(),
        MahjongTile::from_text("3s").unwrap(),
        MahjongTile::from_text("4s").unwrap(),
        MahjongTile::from_text("4s").unwrap(),
        MahjongTile::from_text("4s").unwrap(),
        MahjongTile::from_text("4s").unwrap(),
        MahjongTile::from_text("5s").unwrap(),
        MahjongTile::from_text("6s").unwrap(),
        MahjongTile::from_text("7s").unwrap(),
        MahjongTile::from_text("8s").unwrap(),
    ];
    expected_tiles.sort();
    assert_eq!(tiles_from_string, expected_tiles);
}

#[test]
fn test_get_tiles_from_string_mixed_suits() {
    let tile_string = "23445588s345p11z".to_string();
    let mut tiles_from_string = get_tiles_from_string(&tile_string);
    tiles_from_string.sort();

    let mut expected_tiles = vec![
        MahjongTile::from_text("2s").unwrap(),
        MahjongTile::from_text("3s").unwrap(),
        MahjongTile::from_text("4s").unwrap(),
        MahjongTile::from_text("4s").unwrap(),
        MahjongTile::from_text("5s").unwrap(),
        MahjongTile::from_text("5s").unwrap(),
        MahjongTile::from_text("8s").unwrap(),
        MahjongTile::from_text("8s").unwrap(),
        MahjongTile::from_text("3p").unwrap(),
        MahjongTile::from_text("4p").unwrap(),
        MahjongTile::from_text("5p").unwrap(),
        MahjongTile::from_text("1z").unwrap(),
        MahjongTile::from_text("1z").unwrap(),
    ];
    expected_tiles.sort();
    assert_eq!(tiles_from_string, expected_tiles);

    let tile_string = "122234m789s345p33z".to_string();
    let mut tiles_from_string = get_tiles_from_string(&tile_string);
    tiles_from_string.sort();

    let mut expected_tiles = vec![
        MahjongTile::from_text("3z").unwrap(),
        MahjongTile::from_text("3z").unwrap(),
        MahjongTile::from_text("1m").unwrap(),
        MahjongTile::from_text("2m").unwrap(),
        MahjongTile::from_text("2m").unwrap(),
        MahjongTile::from_text("2m").unwrap(),
        MahjongTile::from_text("3m").unwrap(),
        MahjongTile::from_text("4m").unwrap(),
        MahjongTile::from_text("7s").unwrap(),
        MahjongTile::from_text("8s").unwrap(),
        MahjongTile::from_text("9s").unwrap(),
        MahjongTile::from_text("3p").unwrap(),
        MahjongTile::from_text("4p").unwrap(),
        MahjongTile::from_text("5p").unwrap(),
    ];
    expected_tiles.sort();
    assert_eq!(tiles_from_string, expected_tiles);
}

#[test]
fn test_get_tile_ids_from_string() {
    let mut tiles = get_tile_ids_from_string("3m4m5m");
    tiles.sort();
    let mut expected_tiles = vec![
        MahjongTile::from_text("3m").unwrap().value,
        MahjongTile::from_text("4m").unwrap().value,
        MahjongTile::from_text("5m").unwrap().value,
    ];
    expected_tiles.sort();
    assert_eq!(tiles, expected_tiles);

    let mut tiles = get_tile_ids_from_string("345m");
    tiles.sort();
    let mut expected_tiles = vec![
        MahjongTile::from_text("3m").unwrap().value,
        MahjongTile::from_text("4m").unwrap().value,
        MahjongTile::from_text("5m").unwrap().value,
    ];
    expected_tiles.sort();
    assert_eq!(tiles, expected_tiles);
}

#[test]
fn test_get_total_tiles_from_count_array() {
    let empty_tile_count_array: MahjongTileCountArray = Default::default();
    assert_eq!(get_total_tiles_from_count_array(empty_tile_count_array), 0);

    assert_eq!(
        get_total_tiles_from_count_array(four_of_each_tile_count_array()),
        4 * 34
    );

    let mut tile_count_array: MahjongTileCountArray = Default::default();
    tile_count_array.0[usize::from(get_id_from_tile_text("3m").unwrap().0)] = 2;
    tile_count_array.0[usize::from(get_id_from_tile_text("2p").unwrap().0)] = 1;
    tile_count_array.0[usize::from(get_id_from_tile_text("4s").unwrap().0)] = 1;
    tile_count_array.0[usize::from(get_id_from_tile_text("6z").unwrap().0)] = 2;
    assert_eq!(get_total_tiles_from_count_array(tile_count_array), 6);
}

#[test]
fn test_get_tile_ids_from_count_array() {
    let empty_tile_count_array: MahjongTileCountArray = Default::default();
    let empty_tile_ids = get_tile_ids_from_count_array(empty_tile_count_array);
    assert!(empty_tile_ids.is_empty());

    let mut tile_count_array: MahjongTileCountArray = Default::default();
    tile_count_array.0[usize::from(get_id_from_tile_text("3m").unwrap().0)] = 2;
    tile_count_array.0[usize::from(get_id_from_tile_text("2p").unwrap().0)] = 1;
    let tile_ids = get_tile_ids_from_count_array(tile_count_array);
    assert_eq!(tile_ids.len(), 3);
    let matching_3m_tiles: Vec<MahjongTileId> = tile_ids
        .iter()
        .cloned()
        .filter(|&tile_id| tile_id == get_id_from_tile_text("3m").unwrap())
        .collect();
    assert_eq!(matching_3m_tiles.len(), 2);
    let matching_2p_tiles: Vec<MahjongTileId> = tile_ids
        .iter()
        .cloned()
        .filter(|&tile_id| tile_id == get_id_from_tile_text("2p").unwrap())
        .collect();
    assert_eq!(matching_2p_tiles.len(), 1);
}

#[test]
fn test_get_distinct_tile_ids_from_count_array() {
    let empty_tile_count_array: MahjongTileCountArray = Default::default();
    let empty_tile_ids = get_distinct_tile_ids_from_count_array(empty_tile_count_array);
    assert!(empty_tile_ids.is_empty());

    let mut tile_count_array: MahjongTileCountArray = Default::default();
    tile_count_array.0[usize::from(get_id_from_tile_text("3m").unwrap().0)] = 2;
    tile_count_array.0[usize::from(get_id_from_tile_text("2p").unwrap().0)] = 1;
    let distinct_tile_ids = get_distinct_tile_ids_from_count_array(tile_count_array);
    assert_eq!(distinct_tile_ids.len(), 2);
    assert!(distinct_tile_ids.contains(&get_id_from_tile_text("3m").unwrap()));
    assert!(distinct_tile_ids.contains(&get_id_from_tile_text("2p").unwrap()));

    assert!(!distinct_tile_ids.contains(&get_id_from_tile_text("3p").unwrap()));
    assert!(!distinct_tile_ids.contains(&get_id_from_tile_text("2m").unwrap()));
}

#[test]
fn tile_id_text_round_trip() {
    for id in 0u8..34 {
        let text = get_tile_text_from_id(id);
        assert_eq!(get_id_from_tile_text(&text).unwrap(), MahjongTileId(id));
    }
}

#[test]
fn tile_ids_to_strings_each_id() {
    let strings = tile_ids_to_strings(&vec![0, 13, 26, 27, 33]);
    assert_eq!(strings, vec!["1m", "5p", "9s", "1z", "7z"]);
}

#[test]
fn tile_text_errors_carry_messages() {
    let err = MahjongTile::from_text("1mm").unwrap_err();
    assert_eq!(err.message, "Tile string representation length must be 2");
    let err = MahjongTile::from_text("1w").unwrap_err();
    assert_eq!(err.message, "Second char must be m, p, s, or z");
}
