use std::cmp::Ordering;
use std::collections::{HashMap, HashSet};

use riichi_bot::mahjong_tile::{
    get_id_from_tile_text, get_tile_ids_from_string, get_tile_text_from_id,
    get_total_tiles_from_count_array, MahjongTileCountArray, MahjongTileId,
    NUM_DISTINCT_TILE_VALUES,
};
use riichi_bot::shanten::{
    add_tile_id_to_count_array, combine_tile_ids_from_count_array_and_vec,
    get_best_shanten_after_discard, get_most_ukiere_after_discard, get_num_tiles_remaining,
    get_shanten, get_shanten_optimized, get_shanten_ukiere_after_each_discard, get_ukiere,
    get_ukiere_after_discard, get_ukiere_optimized, get_upgrade_tiles,
    remove_tile_id_from_count_array, tile_count_array_to_tile_ids, tile_ids_to_string,
    tiles_to_count_array, HandInterpretation, TileMeld,
};

/// A map holding the given entries.
fn hm<K: std::hash::Hash + Eq, V>(pairs: Vec<(K, V)>) -> HashMap<K, V> {
    pairs.into_iter().collect()
}

/// The MSPZ text of a tile id.
fn text_of(id: impl Into<u8>) -> String {
    get_tile_text_from_id(id.into())
}

fn assert_tile_ids_match(tile_ids: &Vec<MahjongTileId>, expected_tile_ids: &Vec<MahjongTileId>) {
    // assert_eq!(tile_ids.len(), expected_tile_ids.len());
    let mut sorted_tile_ids: Vec<MahjongTileId> = tile_ids.iter().cloned().map(|t| t.into()).collect();
    sorted_tile_ids.sort();
    let mut sorted_expected_tile_ids: Vec<MahjongTileId> = expected_tile_ids.iter().cloned().map(|t| t.into()).collect();
    sorted_expected_tile_ids.sort();
    assert_eq!(
        sorted_tile_ids,
        sorted_expected_tile_ids,
        "got {} but expected {}",
        tile_ids_to_string(&sorted_tile_ids),
        tile_ids_to_string(&sorted_expected_tile_ids)
    );
}

fn assert_ukiere_tiles_after_discard_match(
    tile_count_array: [u8; 34],
    expected_ukiere_after_discard: &HashMap<&'static str, Vec<MahjongTileId>>,
) {
    for (discard_tile_str, expected_ukiere_tiles) in expected_ukiere_after_discard {
        let ukiere_tiles = get_ukiere_after_discard(
            tile_count_array,
            get_id_from_tile_text(discard_tile_str).unwrap(),
            &get_ukiere,
        );
        let expected_ukiere_tiles: Vec<MahjongTileId> = expected_ukiere_tiles.iter().cloned().map(|t| t.into()).collect();
        assert_tile_ids_match(&ukiere_tiles, &expected_ukiere_tiles);

        let ukiere_tiles = get_ukiere_after_discard(
            tile_count_array,
            get_id_from_tile_text(discard_tile_str).unwrap(),
            &get_ukiere_optimized,
        );
        assert_tile_ids_match(&ukiere_tiles, &expected_ukiere_tiles);
    }
}

fn assert_upgrade_tiles_match(
    tile_count_array: [u8; 34],
    expected_upgrades: &HashMap<&'static str, HashMap<&'static str, Vec<MahjongTileId>>>,
    other_visible_tiles: &Vec<MahjongTileId>,
) {
    // println!(
    //     "asserting upgrade tiles for {}",
    //     tile_ids_to_string(&tile_count_array_to_tile_ids(tile_count_array))
    // );
    if get_total_tiles_from_count_array(MahjongTileCountArray(tile_count_array)) != 13 {
        // hands with quads hold more tiles and are not handled here
        panic!("invalid number of tiles");
    }

    for (draw_tile_str, discard_tile_str_to_ukiere_tiles) in expected_upgrades {
        let new_count_array = add_tile_id_to_count_array(
            tile_count_array,
            get_id_from_tile_text(&draw_tile_str).unwrap(),
        );
        // println!("considering ukiere tiles after discard for {}", tile_ids_to_string(&tile_count_array_to_tile_ids(new_count_array)));

        for (discard_tile_str, new_ukiere_tiles) in discard_tile_str_to_ukiere_tiles {
            let ukiere_tiles = get_ukiere_after_discard(
                new_count_array,
                get_id_from_tile_text(*discard_tile_str).unwrap(),
                &get_ukiere,
            );
            let new_ukiere_tiles: Vec<MahjongTileId> = new_ukiere_tiles.iter().cloned().map(|t| t.into()).collect();
            assert_tile_ids_match(&ukiere_tiles, &new_ukiere_tiles);

            let ukiere_tiles = get_ukiere_after_discard(
                new_count_array,
                get_id_from_tile_text(*discard_tile_str).unwrap(),
                &get_ukiere_optimized,
            );
            assert_tile_ids_match(&ukiere_tiles, &new_ukiere_tiles);
        }

        // check that the discard tile ids (after upgrade draw) mapping in `expected_upgrades` are correct:
        // we shouldn't have missed anything!
        let best_shanten =
            get_best_shanten_after_discard(new_count_array, &get_shanten_optimized);
        let best_ukiere_discards = get_most_ukiere_after_discard(
            new_count_array,
            best_shanten,
            &get_shanten_optimized,
            &get_ukiere_optimized,
            &other_visible_tiles,
        );

        let discard_tiles_after_upgrade_draw: HashSet<String> =
            HashSet::from_iter(best_ukiere_discards.into_iter().map(
                |(discard_tile_id, _, _)| {
                    text_of(discard_tile_id)
                },
            ));
        let expected_best_discard_tiles_after_upgrade_draw: HashSet<String> =
            HashSet::from_iter((*discard_tile_str_to_ukiere_tiles).keys().map(|&s| {
                let mut new_str = String::new();
                new_str.push_str(s);
                new_str
            }));
        assert_eq!(
            discard_tiles_after_upgrade_draw,
            expected_best_discard_tiles_after_upgrade_draw,
            "expected {:?} to be the best discard(s) (by ukiere tile count) after an upgrade {}, but instead got the following tiles as best discard(s): {:?}",
            expected_best_discard_tiles_after_upgrade_draw,
            draw_tile_str,
            discard_tiles_after_upgrade_draw
        );
    }

    // println!(
    //     "getting shanten for {}",
    //     tile_ids_to_string(&tile_count_array_to_tile_ids(tile_count_array))
    // );
    let shanten = get_shanten_optimized(tile_count_array);
    // println!(
    //     "getting ukiere for {}",
    //     tile_ids_to_string(&tile_count_array_to_tile_ids(tile_count_array))
    // );
    let ukiere_tile_ids = get_ukiere_optimized(tile_count_array);

    let visible_tile_ids =
        combine_tile_ids_from_count_array_and_vec(tile_count_array, other_visible_tiles);
    let num_ukiere = get_num_tiles_remaining(&ukiere_tile_ids, &visible_tile_ids);

    // check non-upgrade & non-ukiere tiles: drawing these should not change the max possible ukiere
    // -> the max num of ukiere of the discard options should be the same as the num ukiere before drawing the non-upgrade tile
    for potential_tile_id in 0..NUM_DISTINCT_TILE_VALUES {
        let potential_tile_string =
            text_of(potential_tile_id);
        let potential_tile_str = potential_tile_string.as_str();
        if expected_upgrades.contains_key(&potential_tile_str)
            || ukiere_tile_ids.contains(&MahjongTileId(potential_tile_id))
        {
            continue;
        }
        let new_count_array = add_tile_id_to_count_array(tile_count_array, MahjongTileId(potential_tile_id));

        println!(
            "checking ukiere after draw {} -> discard for {}",
            potential_tile_string,
            tile_ids_to_string(&tile_count_array_to_tile_ids(new_count_array))
        );
        // check that the best discard from this new hand is the same tile that was just added - and we don't get any more ukiere
        let ukiere_after_nonupgrade = get_most_ukiere_after_discard(
            new_count_array,
            shanten,
            &get_shanten_optimized,
            &get_ukiere_optimized,
            other_visible_tiles,
        );
        let mut best_num_ukiere_after_nonupgrade = 0;
        let mut discard_tile_id_to_ukiere = HashMap::new();
        for (discard_tile_id, ukiere_tiles_after_nonupgrade, num_ukiere_after_nonupgrade) in
            ukiere_after_nonupgrade
        {
            if num_ukiere_after_nonupgrade > best_num_ukiere_after_nonupgrade {
                best_num_ukiere_after_nonupgrade = num_ukiere_after_nonupgrade;
                discard_tile_id_to_ukiere = HashMap::new();
                discard_tile_id_to_ukiere
                    .insert(discard_tile_id, ukiere_tiles_after_nonupgrade);
            } else if num_ukiere_after_nonupgrade == best_num_ukiere_after_nonupgrade {
                discard_tile_id_to_ukiere
                    .insert(discard_tile_id, ukiere_tiles_after_nonupgrade);
            }
        }

        // format for display
        let mut discard_tile_str_to_ukiere = HashMap::new();
        for (discard_tile_id, ukiere_tiles_after_discard) in discard_tile_id_to_ukiere {
            let discard_tile_str =
                text_of(discard_tile_id);
            let mut sorted_ukiere_tiles_after_discard = ukiere_tiles_after_discard.clone();
            sorted_ukiere_tiles_after_discard.sort();
            let ukiere_tiles_str = tile_ids_to_string(&sorted_ukiere_tiles_after_discard);
            discard_tile_str_to_ukiere.insert(discard_tile_str, ukiere_tiles_str);
        }
        assert_eq!(
            best_num_ukiere_after_nonupgrade,
            num_ukiere,
            "tile {} was not in expected_upgrade tiles, but ukiere has increased to {} tiles: {:?}",
            potential_tile_str,
            best_num_ukiere_after_nonupgrade,
            discard_tile_str_to_ukiere,
        );
    }
}

fn assert_discards_ukiere_match(
    discards_ukiere: &Vec<(MahjongTileId, Vec<MahjongTileId>, u16)>,
    expected_discards_ukiere: &Vec<(MahjongTileId, Vec<MahjongTileId>, u16)>,
) {
    let mut sorted_discards_ukiere = discards_ukiere.clone();
    for (_, ukiere_tile_ids_after_discard, _) in sorted_discards_ukiere.iter_mut() {
        ukiere_tile_ids_after_discard.sort();
    }
    sorted_discards_ukiere.sort();

    let mut sorted_expected_discards_ukiere = expected_discards_ukiere.clone();
    for (_, ukiere_tile_ids_after_discard, _) in sorted_expected_discards_ukiere.iter_mut() {
        ukiere_tile_ids_after_discard.sort();
    }
    sorted_expected_discards_ukiere.sort();
    assert_eq!(sorted_discards_ukiere, sorted_expected_discards_ukiere);
}

#[test]
fn tile_counts_from_string() {
    let tiles = tiles_to_count_array("1234m");
    assert_eq!(
        tiles[usize::from(get_id_from_tile_text("1m").unwrap().0)],
        1
    );
    assert_eq!(
        tiles[usize::from(get_id_from_tile_text("2m").unwrap().0)],
        1
    );
    assert_eq!(
        tiles[usize::from(get_id_from_tile_text("3m").unwrap().0)],
        1
    );
    assert_eq!(
        tiles[usize::from(get_id_from_tile_text("4m").unwrap().0)],
        1
    );
}

#[test]
fn tile_ids_from_string() {
    let tile_ids = get_tile_ids_from_string("1234m");
    assert_eq!(tile_ids.len(), 4);
    assert!(tile_ids.contains(&get_id_from_tile_text("1m").unwrap()));
    assert!(tile_ids.contains(&get_id_from_tile_text("2m").unwrap()));
    assert!(tile_ids.contains(&get_id_from_tile_text("3m").unwrap()));
    assert!(tile_ids.contains(&get_id_from_tile_text("4m").unwrap()));
}

#[test]
fn hand_tile_counts_from_string() {
    let tiles = tiles_to_count_array("46p255567s33478m4s");
    assert_eq!(
        tiles[usize::from(get_id_from_tile_text("4p").unwrap().0)],
        1
    );
    assert_eq!(
        tiles[usize::from(get_id_from_tile_text("6p").unwrap().0)],
        1
    );
    assert_eq!(
        tiles[usize::from(get_id_from_tile_text("2s").unwrap().0)],
        1
    );
    assert_eq!(
        tiles[usize::from(get_id_from_tile_text("4s").unwrap().0)],
        1
    );
    assert_eq!(
        tiles[usize::from(get_id_from_tile_text("5s").unwrap().0)],
        3
    );
    assert_eq!(
        tiles[usize::from(get_id_from_tile_text("6s").unwrap().0)],
        1
    );
    assert_eq!(
        tiles[usize::from(get_id_from_tile_text("7s").unwrap().0)],
        1
    );
    assert_eq!(
        tiles[usize::from(get_id_from_tile_text("3m").unwrap().0)],
        2
    );
    assert_eq!(
        tiles[usize::from(get_id_from_tile_text("4m").unwrap().0)],
        1
    );
    assert_eq!(
        tiles[usize::from(get_id_from_tile_text("7m").unwrap().0)],
        1
    );
    assert_eq!(
        tiles[usize::from(get_id_from_tile_text("8m").unwrap().0)],
        1
    );
}

#[test]
fn hand_tile_ids_from_string() {
    let tile_ids = get_tile_ids_from_string("46p255567s33478m4s");
    assert_eq!(tile_ids.len(), 14);
    assert!(tile_ids.contains(&get_id_from_tile_text("4p").unwrap()));
    assert!(tile_ids.contains(&get_id_from_tile_text("6p").unwrap()));
    assert!(tile_ids.contains(&get_id_from_tile_text("2s").unwrap()));
    assert!(tile_ids.contains(&get_id_from_tile_text("4s").unwrap()));
    assert!(tile_ids.contains(&get_id_from_tile_text("5s").unwrap()));
    assert!(tile_ids.contains(&get_id_from_tile_text("6s").unwrap()));
    assert!(tile_ids.contains(&get_id_from_tile_text("7s").unwrap()));
    assert!(tile_ids.contains(&get_id_from_tile_text("3m").unwrap()));
    assert!(tile_ids.contains(&get_id_from_tile_text("4m").unwrap()));
    assert!(tile_ids.contains(&get_id_from_tile_text("7m").unwrap()));
    assert!(tile_ids.contains(&get_id_from_tile_text("8m").unwrap()));
}

#[test]
fn test_tile_ids_to_complete_group() {
    let single_terminal_tile =
        TileMeld::new(vec![get_id_from_tile_text("1m").unwrap()]);
    let ukiere_tile_ids = single_terminal_tile.tile_ids_to_complete_group();
    let expected_ukiere_tile_ids = get_tile_ids_from_string("123m");
    assert_tile_ids_match(&ukiere_tile_ids, &expected_ukiere_tile_ids);

    let single_middle_tile =
        TileMeld::new(vec![get_id_from_tile_text("8p").unwrap()]);
    let ukiere_tile_ids = single_middle_tile.tile_ids_to_complete_group();
    let expected_ukiere_tile_ids = get_tile_ids_from_string("6789p");
    assert_tile_ids_match(&ukiere_tile_ids, &expected_ukiere_tile_ids);

    let single_middle_tile =
        TileMeld::new(vec![get_id_from_tile_text("3s").unwrap()]);
    let ukiere_tile_ids = single_middle_tile.tile_ids_to_complete_group();
    let expected_ukiere_tile_ids = get_tile_ids_from_string("12345s");
    assert_tile_ids_match(&ukiere_tile_ids, &expected_ukiere_tile_ids);

    let single_honor_tile =
        TileMeld::new(vec![get_id_from_tile_text("6z").unwrap()]);
    let ukiere_tile_ids = single_honor_tile.tile_ids_to_complete_group();
    let expected_ukiere_tile_ids = get_tile_ids_from_string("6z");
    assert_tile_ids_match(&ukiere_tile_ids, &expected_ukiere_tile_ids);

    let pair = TileMeld::new(vec![
        get_id_from_tile_text("2z").unwrap(),
        get_id_from_tile_text("2z").unwrap(),
    ]);
    let ukiere_tile_ids = pair.tile_ids_to_complete_group();
    let expected_ukiere_tile_ids = get_tile_ids_from_string("2z");
    assert_tile_ids_match(&ukiere_tile_ids, &expected_ukiere_tile_ids);

    let ryanmen = TileMeld::new(vec![
        get_id_from_tile_text("3p").unwrap(),
        get_id_from_tile_text("4p").unwrap(),
    ]);
    let ukiere_tile_ids = ryanmen.tile_ids_to_complete_group();
    let expected_ukiere_tile_ids = get_tile_ids_from_string("25p");
    assert_tile_ids_match(&ukiere_tile_ids, &expected_ukiere_tile_ids);

    let kanchan = TileMeld::new(vec![
        get_id_from_tile_text("7m").unwrap(),
        get_id_from_tile_text("9m").unwrap(),
    ]);
    let ukiere_tile_ids = kanchan.tile_ids_to_complete_group();
    let expected_ukiere_tile_ids = get_tile_ids_from_string("8m");
    assert_tile_ids_match(&ukiere_tile_ids, &expected_ukiere_tile_ids);

    let penchan = TileMeld::new(vec![
        get_id_from_tile_text("8p").unwrap(),
        get_id_from_tile_text("9p").unwrap(),
    ]);
    let ukiere_tile_ids = penchan.tile_ids_to_complete_group();
    let expected_ukiere_tile_ids = get_tile_ids_from_string("7p");
    assert_tile_ids_match(&ukiere_tile_ids, &expected_ukiere_tile_ids);
}

#[test]
fn hand_two_shanten_and_ukiere() {
    let tiles = tiles_to_count_array("46p455567s33478m");
    // hand is 2-shanten: 46p - 455s - 567s - 334m - 78m
    assert_eq!(get_shanten(tiles), 2);
    assert_eq!(get_shanten_optimized(tiles), 2);

    // ukiere tiles: 5p3568s23569m
    let expected_ukiere_tiles = get_tile_ids_from_string("5p3568s23569m");
    let ukiere_tiles = get_ukiere(tiles);
    assert_tile_ids_match(&ukiere_tiles, &expected_ukiere_tiles);

    let ukiere_tiles = get_ukiere_optimized(tiles);
    assert_tile_ids_match(&ukiere_tiles, &expected_ukiere_tiles);
}

#[test]
fn hand_one_shanten_and_ukiere() {
    let tiles = tiles_to_count_array("56m23346778p234s");
    // hand is 1-shanten: 56m - 234p - 678p - 3p - 7p - 234s
    assert_eq!(get_shanten(tiles), 1);
    assert_eq!(get_shanten_optimized(tiles), 1);

    // ukiere tiles: 47m37p
    let expected_ukiere_tiles = get_tile_ids_from_string("47m37p");
    let ukiere_tiles = get_ukiere(tiles);
    assert_tile_ids_match(&ukiere_tiles, &expected_ukiere_tiles);

    let ukiere_tiles = get_ukiere_optimized(tiles);
    assert_tile_ids_match(&ukiere_tiles, &expected_ukiere_tiles);
}

#[test]
fn complex_souzu_one_shanten() {
    let tiles = tiles_to_count_array("12234455s345p11z");
    // hand is 1-shanten: 123s - 24s - 455s - 345p - 11z
    assert_eq!(get_shanten(tiles), 1);
    assert_eq!(get_shanten_optimized(tiles), 1);

    // ukiere tiles: 23456s1z
    let expected_ukiere_tiles = get_tile_ids_from_string("23456s1z");
    let ukiere_tiles = get_ukiere(tiles);
    assert_tile_ids_match(&ukiere_tiles, &expected_ukiere_tiles);

    let ukiere_tiles = get_ukiere_optimized(tiles);
    assert_tile_ids_match(&ukiere_tiles, &expected_ukiere_tiles);
}

#[test]
fn floating_one_shanten() {
    // floating 1-shanten is characterized by 2 complete groups + 1 pair + 2 incomplete groups
    // plus 1 unused/floating tile
    // https://riichi.wiki/Iishanten#Yojouhai
    let tiles = tiles_to_count_array("233445m56p4455s7z");
    // hand is 1-shanten: 234m - 345m - 56p - 44s - 55s - 7z
    assert_eq!(get_shanten(tiles), 1);
    assert_eq!(get_shanten_optimized(tiles), 1);

    // ukiere tiles: 47p45s
    let expected_ukiere_tiles = get_tile_ids_from_string("47p45s");
    let ukiere_tiles = get_ukiere(tiles);
    assert_tile_ids_match(&ukiere_tiles, &expected_ukiere_tiles);

    let ukiere_tiles = get_ukiere_optimized(tiles);
    assert_tile_ids_match(&ukiere_tiles, &expected_ukiere_tiles);
}

#[test]
fn complete_one_shanten() {
    // complete 1-shanten is characterized by 2 complete groups + 1 pair + 2 incomplete groups,
    // but the last tile is also part of one of the incomplete groups e.g. 223s
    // https://riichi.wiki/Iishanten#Kanzenkei
    let tiles = tiles_to_count_array("234m22378s22567p");
    // hand is 1-shanten: 234m - 223s - 78s - 22p - 567p
    assert_eq!(get_shanten(tiles), 1);
    assert_eq!(get_shanten_optimized(tiles), 1);

    // ukiere tiles: 12469s2p
    let expected_ukiere_tiles = get_tile_ids_from_string("12469s2p");
    let ukiere_tiles = get_ukiere(tiles);
    assert_tile_ids_match(&ukiere_tiles, &expected_ukiere_tiles);

    let ukiere_tiles = get_ukiere_optimized(tiles);
    assert_tile_ids_match(&ukiere_tiles, &expected_ukiere_tiles);
}

#[test]
fn hand_headless_one_shanten_with_ankou() {
    // headless 1-shanten is characterized by 3 complete groups + no pair (must have at least 1 incomplete group)
    // https://riichi.wiki/Iishanten#Atamanashi
    let tiles = tiles_to_count_array("23s678s56p888p888m");
    // hand is 1-shanten: 23s - 678s - 56p - 888p - 888m
    assert_eq!(get_shanten(tiles), 1);
    assert_eq!(get_shanten_optimized(tiles), 1);

    // ukiere tiles: completing either ryanmen group or pairing a tile in the ryanmen group
    // total: 1234s4567p
    let expected_ukiere_tiles = get_tile_ids_from_string("1234s4567p");
    let ukiere_tiles = get_ukiere(tiles);
    assert_tile_ids_match(&ukiere_tiles, &expected_ukiere_tiles);

    let ukiere_tiles = get_ukiere_optimized(tiles);
    assert_tile_ids_match(&ukiere_tiles, &expected_ukiere_tiles);
}

#[test]
fn hand_kutsuki_one_shanten() {
    // kutsuki 1-shanten is characterized by 3 complete groups + 1 pair: https://riichi.wiki/Iishanten#Kuttsuki
    // example from wiki:
    let tiles = tiles_to_count_array("234678m37s22567p");
    // hand is 1-shanten: 234m - 678m - 3s - 7s - 22p - 567p
    assert_eq!(get_shanten(tiles), 1);
    assert_eq!(get_shanten_optimized(tiles), 1);

    // ukiere tiles: anything within 2 of a floating tile (3s7s), and 2p
    // total: 123456789s2p
    let expected_ukiere_tiles = get_tile_ids_from_string("123456789s2p");
    let ukiere_tiles = get_ukiere(tiles);
    assert_tile_ids_match(&ukiere_tiles, &expected_ukiere_tiles);

    let ukiere_tiles = get_ukiere_optimized(tiles);
    assert_tile_ids_match(&ukiere_tiles, &expected_ukiere_tiles);

    // example from youtube video: https://youtu.be/TulF31VKJ94?si=DlCBB2flwB-Y7P18 (timestamp 1:33:59)
    let tiles = tiles_to_count_array("2344567m556p678s");
    // hand is 1-shanten: 234m - 456m - 7m - 556p - 678s (but the 4m could be considered floating as well, or as part of 2344m shape)
    assert_eq!(get_shanten(tiles), 1);
    assert_eq!(get_shanten_optimized(tiles), 1);

    // ukiere tiles: anything within 2 of a floating tile (4m7m6p), and
    // the manzu complex shape can accept 147m (2344m-567m or 234m-4567m), 2358m (24m-34567m)
    // total: 123456789m45678p
    let expected_ukiere_tiles = get_tile_ids_from_string("123456789m45678p");
    let ukiere_tiles = get_ukiere(tiles);
    assert_tile_ids_match(&ukiere_tiles, &expected_ukiere_tiles);

    let ukiere_tiles = get_ukiere_optimized(tiles);
    assert_tile_ids_match(&ukiere_tiles, &expected_ukiere_tiles);
}

#[test]
fn complete_hand_shanten() {
    let tiles = tiles_to_count_array("55588m234s11p666z1p");
    assert_eq!(get_shanten(tiles), -1);
    assert_eq!(get_shanten_optimized(tiles), -1);

    let ukiere_tiles = get_ukiere(tiles);
    assert_eq!(ukiere_tiles.len(), 0);
    let ukiere_tiles = get_ukiere_optimized(tiles);
    assert_eq!(ukiere_tiles.len(), 0);
}

#[test]
fn complete_honitsu_hand_shanten() {
    let tiles = tiles_to_count_array("3335577899m111z8m");
    assert_eq!(get_shanten(tiles), -1);
    assert_eq!(get_shanten_optimized(tiles), -1);

    let ukiere_tiles = get_ukiere(tiles);
    assert_eq!(ukiere_tiles.len(), 0);
    let ukiere_tiles = get_ukiere_optimized(tiles);
    assert_eq!(ukiere_tiles.len(), 0);
}

#[test]
fn six_block_hand_two_shanten() {
    // example from: https://pathofhouou.blogspot.com/2019/05/calculating-shanten-and-ukeire.html
    let tiles = tiles_to_count_array("12346m6799p1268s");
    assert_eq!(get_shanten(tiles), 2);
    assert_eq!(get_shanten_optimized(tiles), 2);

    // ukiere tiles: 5m58p37s
    let expected_ukiere_tiles = get_tile_ids_from_string("5m58p37s");
    let ukiere_tiles = get_ukiere(tiles);
    assert_tile_ids_match(&ukiere_tiles, &expected_ukiere_tiles);

    let ukiere_tiles = get_ukiere_optimized(tiles);
    assert_tile_ids_match(&ukiere_tiles, &expected_ukiere_tiles);
}

#[test]
fn three_shanten_hand() {
    // example from: https://pathofhouou.blogspot.com/2019/05/calculating-shanten-and-ukeire.html
    let tiles = tiles_to_count_array("12588m27789p889s");
    assert_eq!(get_shanten(tiles), 3);
    assert_eq!(get_shanten_optimized(tiles), 3);

    // ukiere tiles: 12345678m123456789p6789s (12m-5m-88m-2p-7p-789p-889s; also 3-shanten from chiitoi)
    let expected_ukiere_tiles = get_tile_ids_from_string("12345678m123456789p6789s");
    let ukiere_tiles = get_ukiere(tiles);
    assert_tile_ids_match(&ukiere_tiles, &expected_ukiere_tiles);

    let ukiere_tiles = get_ukiere_optimized(tiles);
    assert_tile_ids_match(&ukiere_tiles, &expected_ukiere_tiles);
}

#[test]
fn tenpai_tanki_wait() {
    let tiles = tiles_to_count_array("123999m5558p666z");
    assert_eq!(get_shanten(tiles), 0);
    assert_eq!(get_shanten_optimized(tiles), 0);

    // ukiere tiles: 8p
    let expected_ukiere_tiles = get_tile_ids_from_string("8p");
    let ukiere_tiles = get_ukiere(tiles);
    assert_tile_ids_match(&ukiere_tiles, &expected_ukiere_tiles);

    let ukiere_tiles = get_ukiere_optimized(tiles);
    assert_tile_ids_match(&ukiere_tiles, &expected_ukiere_tiles);
}

#[test]
fn tenpai_kanchan_wait() {
    let tiles = tiles_to_count_array("13p456777999s33z");
    assert_eq!(get_shanten(tiles), 0);
    assert_eq!(get_shanten_optimized(tiles), 0);

    // ukiere tiles: 2p
    let expected_ukiere_tiles = get_tile_ids_from_string("2p");
    let ukiere_tiles = get_ukiere(tiles);
    assert_tile_ids_match(&ukiere_tiles, &expected_ukiere_tiles);

    let ukiere_tiles = get_ukiere_optimized(tiles);
    assert_tile_ids_match(&ukiere_tiles, &expected_ukiere_tiles);
}

#[test]
fn tenpai_penchan_wait() {
    let tiles = tiles_to_count_array("12777m345p67899s");
    assert_eq!(get_shanten(tiles), 0);
    assert_eq!(get_shanten_optimized(tiles), 0);

    // ukiere tiles: 3m
    let expected_ukiere_tiles = get_tile_ids_from_string("3m");
    let ukiere_tiles = get_ukiere(tiles);
    assert_tile_ids_match(&ukiere_tiles, &expected_ukiere_tiles);

    let ukiere_tiles = get_ukiere_optimized(tiles);
    assert_tile_ids_match(&ukiere_tiles, &expected_ukiere_tiles);
}

#[test]
fn tenpai_shanpon_wait() {
    let tiles = tiles_to_count_array("123999m44p99s777z");
    assert_eq!(get_shanten(tiles), 0);
    assert_eq!(get_shanten_optimized(tiles), 0);

    // ukiere tiles: 4p9s
    let expected_ukiere_tiles = get_tile_ids_from_string("4p9s");
    let ukiere_tiles = get_ukiere(tiles);
    assert_tile_ids_match(&ukiere_tiles, &expected_ukiere_tiles);

    let ukiere_tiles = get_ukiere_optimized(tiles);
    assert_tile_ids_match(&ukiere_tiles, &expected_ukiere_tiles);
}

#[test]
fn tenpai_ryanmen_wait() {
    let tiles = tiles_to_count_array("666m78p666789s22z");
    assert_eq!(get_shanten(tiles), 0);
    assert_eq!(get_shanten_optimized(tiles), 0);

    // ukiere tiles: 69p
    let expected_ukiere_tiles = get_tile_ids_from_string("69p");
    let ukiere_tiles = get_ukiere(tiles);
    assert_tile_ids_match(&ukiere_tiles, &expected_ukiere_tiles);

    let ukiere_tiles = get_ukiere_optimized(tiles);
    assert_tile_ids_match(&ukiere_tiles, &expected_ukiere_tiles);
}

#[test]
fn tenpai_nobetan_wait() {
    //e.g. 3456p - https://riichi.wiki/Nobetan
    let tiles = tiles_to_count_array("777m3456p555666s");
    assert_eq!(get_shanten(tiles), 0);
    assert_eq!(get_shanten_optimized(tiles), 0);

    // ukiere tiles: 36p
    let expected_ukiere_tiles = get_tile_ids_from_string("36p");
    let ukiere_tiles = get_ukiere(tiles);
    assert_tile_ids_match(&ukiere_tiles, &expected_ukiere_tiles);

    let ukiere_tiles = get_ukiere_optimized(tiles);
    assert_tile_ids_match(&ukiere_tiles, &expected_ukiere_tiles);
}

#[test]
fn tenpai_aryanmen_wait() {
    // e.g. 3455s - https://riichi.wiki/Aryanmen
    let tiles = tiles_to_count_array("567m123456p3455s");
    assert_eq!(get_shanten(tiles), 0);
    assert_eq!(get_shanten_optimized(tiles), 0);

    // ukiere tiles: 25s
    let expected_ukiere_tiles = get_tile_ids_from_string("25s");
    let ukiere_tiles = get_ukiere(tiles);
    assert_tile_ids_match(&ukiere_tiles, &expected_ukiere_tiles);

    let ukiere_tiles = get_ukiere_optimized(tiles);
    assert_tile_ids_match(&ukiere_tiles, &expected_ukiere_tiles);
}

#[test]
fn tenpai_kantan_wait() {
    // 2-sided wait e.g. 6888m - https://riichi.wiki/Ryantan#Kantan
    let tiles = tiles_to_count_array("2226888m444p111z");
    assert_eq!(get_shanten(tiles), 0);
    assert_eq!(get_shanten_optimized(tiles), 0);

    // ukiere tiles: 67m
    let expected_ukiere_tiles = get_tile_ids_from_string("67m");
    let ukiere_tiles = get_ukiere(tiles);
    assert_tile_ids_match(&ukiere_tiles, &expected_ukiere_tiles);

    let ukiere_tiles = get_ukiere_optimized(tiles);
    assert_tile_ids_match(&ukiere_tiles, &expected_ukiere_tiles);
}

#[test]
fn tenpai_pentan_wait() {
    // 2-sided wait e.g. 1222m - https://riichi.wiki/Kantan#Pentan
    let tiles = tiles_to_count_array("1222m678p345789s");
    assert_eq!(get_shanten(tiles), 0);
    assert_eq!(get_shanten_optimized(tiles), 0);

    // ukiere tiles: 13m
    let expected_ukiere_tiles = get_tile_ids_from_string("13m");
    let ukiere_tiles = get_ukiere(tiles);
    assert_tile_ids_match(&ukiere_tiles, &expected_ukiere_tiles);

    let ukiere_tiles = get_ukiere_optimized(tiles);
    assert_tile_ids_match(&ukiere_tiles, &expected_ukiere_tiles);
}

#[test]
fn tenpai_standard_sanmenchan_wait() {
    // 3-sided wait e.g. 34567s - https://riichi.wiki/Sanmenchan
    let tiles = tiles_to_count_array("666m33678p34567s");
    assert_eq!(get_shanten(tiles), 0);
    assert_eq!(get_shanten_optimized(tiles), 0);

    // ukiere tiles: 258s
    let expected_ukiere_tiles = get_tile_ids_from_string("258s");
    let ukiere_tiles = get_ukiere(tiles);
    assert_tile_ids_match(&ukiere_tiles, &expected_ukiere_tiles);

    let ukiere_tiles = get_ukiere_optimized(tiles);
    assert_tile_ids_match(&ukiere_tiles, &expected_ukiere_tiles);
}

#[test]
fn tenpai_ryantan_wait() {
    // 3-sided wait e.g. 5556m - https://riichi.wiki/Kantan#Ryantan
    let tiles = tiles_to_count_array("5556m234789p666z");
    assert_eq!(get_shanten(tiles), 0);
    assert_eq!(get_shanten_optimized(tiles), 0);

    // ukiere tiles: 467m
    let expected_ukiere_tiles = get_tile_ids_from_string("467m");
    let ukiere_tiles = get_ukiere(tiles);
    assert_tile_ids_match(&ukiere_tiles, &expected_ukiere_tiles);

    let ukiere_tiles = get_ukiere_optimized(tiles);
    assert_tile_ids_match(&ukiere_tiles, &expected_ukiere_tiles);
}

#[test]
fn tenpai_entotsu_wait() {
    // 3-sided wait e.g. 11m45666s - https://riichi.wiki/Sanmenchan#Entotsu
    let tiles = tiles_to_count_array("11m222456p45666s");
    assert_eq!(get_shanten(tiles), 0);
    assert_eq!(get_shanten_optimized(tiles), 0);

    // ukiere tiles: 1m36s
    let expected_ukiere_tiles = get_tile_ids_from_string("1m36s");
    let ukiere_tiles = get_ukiere(tiles);
    assert_tile_ids_match(&ukiere_tiles, &expected_ukiere_tiles);

    let ukiere_tiles = get_ukiere_optimized(tiles);
    assert_tile_ids_match(&ukiere_tiles, &expected_ukiere_tiles);
}

#[test]
fn tenpai_sanmentan_wait() {
    // 3-sided wait e.g. 2345678p -  https://riichi.wiki/Sanmenchan#Sanmentan
    let tiles = tiles_to_count_array("233445m2345678p");
    assert_eq!(get_shanten(tiles), 0);
    assert_eq!(get_shanten_optimized(tiles), 0);

    // ukiere tiles: 258p
    let expected_ukiere_tiles = get_tile_ids_from_string("258p");
    let ukiere_tiles = get_ukiere(tiles);
    assert_tile_ids_match(&ukiere_tiles, &expected_ukiere_tiles);

    let ukiere_tiles = get_ukiere_optimized(tiles);
    assert_tile_ids_match(&ukiere_tiles, &expected_ukiere_tiles);
}

#[test]
fn chiitoi_one_shanten() {
    // https://riichi.wiki/Iishanten#Chiitoitsu
    // example with no triplets
    let tiles = tiles_to_count_array("1166m4499s667p25z");
    assert_eq!(get_shanten(tiles), 1);
    assert_eq!(get_shanten_optimized(tiles), 1);

    // ukiere tiles: 7p25z
    let expected_ukiere_tiles = get_tile_ids_from_string("7p25z");
    let ukiere_tiles = get_ukiere(tiles);
    assert_tile_ids_match(&ukiere_tiles, &expected_ukiere_tiles);

    let ukiere_tiles = get_ukiere_optimized(tiles);
    assert_tile_ids_match(&ukiere_tiles, &expected_ukiere_tiles);

    // example with a triplet
    let tiles = tiles_to_count_array("3388m229p111s337z");
    assert_eq!(get_shanten(tiles), 1);
    assert_eq!(get_shanten_optimized(tiles), 1);

    // ukiere tiles: 9p7z
    let expected_ukiere_tiles = get_tile_ids_from_string("9p7z");
    let ukiere_tiles = get_ukiere(tiles);
    assert_tile_ids_match(&ukiere_tiles, &expected_ukiere_tiles);

    let ukiere_tiles = get_ukiere_optimized(tiles);
    assert_tile_ids_match(&ukiere_tiles, &expected_ukiere_tiles);

    // example that is 1-shanten for both chiitoi and standard hand structure
    let tiles = tiles_to_count_array("233m11223399p56s");
    assert_eq!(get_shanten(tiles), 1);
    assert_eq!(get_shanten_optimized(tiles), 1);

    // ukiere tiles: 2m56s (to form a sixth pair), 134m9p47s (to complete a group)
    let expected_ukiere_tiles = get_tile_ids_from_string("1234m9p4567s");
    let ukiere_tiles = get_ukiere(tiles);
    assert_tile_ids_match(&ukiere_tiles, &expected_ukiere_tiles);

    let ukiere_tiles = get_ukiere_optimized(tiles);
    assert_tile_ids_match(&ukiere_tiles, &expected_ukiere_tiles);
}

#[test]
fn chiitoi_tenpai() {
    let tiles = tiles_to_count_array("1166m4499s667p55z");
    assert_eq!(get_shanten(tiles), 0);
    assert_eq!(get_shanten_optimized(tiles), 0);

    // ukiere tiles: 7p
    let expected_ukiere_tiles = get_tile_ids_from_string("7p");
    let ukiere_tiles = get_ukiere(tiles);
    assert_tile_ids_match(&ukiere_tiles, &expected_ukiere_tiles);

    let ukiere_tiles = get_ukiere_optimized(tiles);
    assert_tile_ids_match(&ukiere_tiles, &expected_ukiere_tiles);
}

#[test]
fn chiitoi_complete_hand() {
    let tiles = tiles_to_count_array("1166m4499s6677p55z");
    assert_eq!(get_shanten(tiles), -1);
    assert_eq!(get_shanten_optimized(tiles), -1);

    let ukiere_tiles = get_ukiere(tiles);
    assert_eq!(ukiere_tiles.len(), 0);
    let ukiere_tiles = get_ukiere_optimized(tiles);
    assert_eq!(ukiere_tiles.len(), 0);
}

#[test]
fn kokushi_musou_one_shanten() {
    // https://riichi.wiki/Iishanten#Kokushi_musou
    // example with a pair
    let tiles = tiles_to_count_array("1m139p19s1234566z");
    assert_eq!(get_shanten(tiles), 1);
    assert_eq!(get_shanten_optimized(tiles), 1);

    // ukiere tiles: 9m7z
    let expected_ukiere_tiles = get_tile_ids_from_string("9m7z");
    let ukiere_tiles = get_ukiere(tiles);
    assert_tile_ids_match(&ukiere_tiles, &expected_ukiere_tiles);

    let ukiere_tiles = get_ukiere_optimized(tiles);
    assert_tile_ids_match(&ukiere_tiles, &expected_ukiere_tiles);

    // example with no pair
    let tiles = tiles_to_count_array("19m139p19s123456z");
    assert_eq!(get_shanten(tiles), 1);
    assert_eq!(get_shanten_optimized(tiles), 1);

    // ukiere tiles: 19m19p19s1234567z (in particular, drawing 7z gives a 13-sided wait)
    let expected_ukiere_tiles = get_tile_ids_from_string("19m19p19s1234567z");
    let ukiere_tiles = get_ukiere(tiles);
    assert_tile_ids_match(&ukiere_tiles, &expected_ukiere_tiles);

    let ukiere_tiles = get_ukiere_optimized(tiles);
    assert_tile_ids_match(&ukiere_tiles, &expected_ukiere_tiles);
}

#[test]
fn kokushi_musou_tenpai() {
    // aka thirteen orphans - https://riichi.wiki/Kokushi_musou
    // 1-sided wait
    let tiles = tiles_to_count_array("1m19p19s12345667z");
    assert_eq!(get_shanten(tiles), 0);
    assert_eq!(get_shanten_optimized(tiles), 0);

    // ukiere tiles: 9m
    let expected_ukiere_tiles = get_tile_ids_from_string("9m");
    let ukiere_tiles = get_ukiere(tiles);
    assert_tile_ids_match(&ukiere_tiles, &expected_ukiere_tiles);

    let ukiere_tiles = get_ukiere_optimized(tiles);
    assert_tile_ids_match(&ukiere_tiles, &expected_ukiere_tiles);

    // 13-sided wait
    let tiles = tiles_to_count_array("19m19p19s1234567z");
    assert_eq!(get_shanten(tiles), 0);
    assert_eq!(get_shanten_optimized(tiles), 0);

    // ukiere tiles: 19m19p19s1234567z (any terminal or honor tile)
    let expected_ukiere_tiles = get_tile_ids_from_string("19m19p19s1234567z");
    let ukiere_tiles = get_ukiere(tiles);
    assert_tile_ids_match(&ukiere_tiles, &expected_ukiere_tiles);

    let ukiere_tiles = get_ukiere_optimized(tiles);
    assert_tile_ids_match(&ukiere_tiles, &expected_ukiere_tiles);
}

#[test]
fn kokushi_musou_complete() {
    // aka thirteen orphans - https://riichi.wiki/Kokushi_musou
    let tiles = tiles_to_count_array("19m19p199s1234567z");
    assert_eq!(get_shanten(tiles), -1);
    assert_eq!(get_shanten_optimized(tiles), -1);

    let ukiere_tiles = get_ukiere(tiles);
    assert_eq!(ukiere_tiles.len(), 0);
    let ukiere_tiles = get_ukiere_optimized(tiles);
    assert_eq!(ukiere_tiles.len(), 0);
}



// #[test]
// fn debug_get_hand_interpretations() {
//     let tiles = tiles_to_count_array("12234455s345p11z");
//     let hand_interpretations = get_hand_interpretations(tiles);
//     for hand_interpretation in hand_interpretations {
//         println!(
//             "{} -> ukiere tiles {}",
//             hand_interpretation,
//             tile_ids_to_string(&hand_interpretation.get_ukiere())
//         );
//     }
// }

// #[test]
// fn debug_get_hand_interpretations_min_shanten() {
//     // let tiles = tiles_to_count_array("23s678s56p888p888m");
//     let tiles = tiles_to_count_array("12234455s345p11z");
//     let hand_interpretations = get_hand_interpretations_min_shanten(tiles, 3);
//     for hand_interpretation in hand_interpretations {
//         println!(
//             "{} -> ukiere tiles {}",
//             hand_interpretation,
//             tile_ids_to_string(&hand_interpretation.get_ukiere())
//         );
//     }
// }



#[test]
fn wwyd_efficiency_problem_example1() {
    // examples from https://justanotherjapanesemahjongblog.blogspot.com/2012/01/choosing-multi-wait-tenpai-problem.html
    let tiles = tiles_to_count_array("123667m6889p1278s");
    assert_eq!(get_best_shanten_after_discard(tiles, &get_shanten), 2);
    assert_eq!(
        get_best_shanten_after_discard(tiles, &get_shanten_optimized),
        2
    );
    // best discard 9p (or 6p) -> 2-shanten

    // ukiere tiles after discard 9p (or 6p): 568m78p369s
    let mut expected_ukiere_tiles_after_discard = HashMap::new();
    expected_ukiere_tiles_after_discard.insert("6p", get_tile_ids_from_string("568m78p369s"));
    expected_ukiere_tiles_after_discard.insert("9p", get_tile_ids_from_string("568m78p369s"));
    expected_ukiere_tiles_after_discard.insert("6m", get_tile_ids_from_string("58m369s"));
    expected_ukiere_tiles_after_discard.insert("7m", get_tile_ids_from_string("6m78p369s"));
    expected_ukiere_tiles_after_discard.insert("8p", get_tile_ids_from_string("7p369s"));
    expected_ukiere_tiles_after_discard.insert("1s", get_tile_ids_from_string("7p69s"));
    expected_ukiere_tiles_after_discard.insert("2s", get_tile_ids_from_string("7p69s"));
    expected_ukiere_tiles_after_discard.insert("7s", get_tile_ids_from_string("7p3s"));
    expected_ukiere_tiles_after_discard.insert("8s", get_tile_ids_from_string("7p3s"));

    for (discard_tile_str, expected_ukiere_tiles) in expected_ukiere_tiles_after_discard {
        let ukiere_tiles = get_ukiere_after_discard(
            tiles,
            get_id_from_tile_text(discard_tile_str).unwrap(),
            &get_ukiere,
        );
        assert_tile_ids_match(&ukiere_tiles, &expected_ukiere_tiles);

        let ukiere_tiles = get_ukiere_after_discard(
            tiles,
            get_id_from_tile_text(discard_tile_str).unwrap(),
            &get_ukiere_optimized,
        );
        assert_tile_ids_match(&ukiere_tiles, &expected_ukiere_tiles);
    }
}

#[test]
fn wwyd_efficiency_problem_example2() {
    // examples from https://justanotherjapanesemahjongblog.blogspot.com/2012/01/choosing-multi-wait-tenpai-problem.html
    let tiles = tiles_to_count_array("2334578m34p66999s");
    assert_eq!(get_best_shanten_after_discard(tiles, &get_shanten), 1);
    assert_eq!(
        get_best_shanten_after_discard(tiles, &get_shanten_optimized),
        1
    );
    // best discard 8m -> 1-shanten

    // ukiere tiles after discard 8m: 146m25p
    let mut expected_ukiere_tiles_after_discard = HashMap::new();
    expected_ukiere_tiles_after_discard.insert("8m", get_tile_ids_from_string("146m25p"));
    expected_ukiere_tiles_after_discard.insert("2m", get_tile_ids_from_string("69m25p"));
    expected_ukiere_tiles_after_discard.insert("3m", get_tile_ids_from_string("69m25p"));
    expected_ukiere_tiles_after_discard.insert("5m", get_tile_ids_from_string("69m25p"));
    expected_ukiere_tiles_after_discard.insert("7m", get_tile_ids_from_string("14m25p"));
    expected_ukiere_tiles_after_discard.insert("3p", get_tile_ids_from_string("1469m"));
    expected_ukiere_tiles_after_discard.insert("4p", get_tile_ids_from_string("1469m"));

    for (discard_tile_str, expected_ukiere_tiles) in expected_ukiere_tiles_after_discard {
        let ukiere_tiles = get_ukiere_after_discard(
            tiles,
            get_id_from_tile_text(discard_tile_str).unwrap(),
            &get_ukiere,
        );
        assert_tile_ids_match(&ukiere_tiles, &expected_ukiere_tiles);

        let ukiere_tiles = get_ukiere_after_discard(
            tiles,
            get_id_from_tile_text(discard_tile_str).unwrap(),
            &get_ukiere_optimized,
        );
        assert_tile_ids_match(&ukiere_tiles, &expected_ukiere_tiles);
    }
}

#[test]
fn wwyd_efficiency_problem_example3() {
    // examples from https://justanotherjapanesemahjongblog.blogspot.com/2012/01/choosing-multi-wait-tenpai-problem.html
    let tiles = tiles_to_count_array("2368m24888p33567s");
    assert_eq!(get_best_shanten_after_discard(tiles, &get_shanten), 1);
    assert_eq!(
        get_best_shanten_after_discard(tiles, &get_shanten_optimized),
        1
    );
    // best discard -> 1-shanten

    // ukiere tiles after discard 6m or 8m: 14m3p - but the argument is that, if you keep 68m (and cut 24p),
    // then if you were to draw 5m (upgrade to ryanmen wait), you have overlapping wait on 4m (between 23m and now 56m)
    let mut expected_ukiere_tiles_after_discard = HashMap::new();
    expected_ukiere_tiles_after_discard.insert("8m", get_tile_ids_from_string("14m3p"));
    expected_ukiere_tiles_after_discard.insert("6m", get_tile_ids_from_string("14m3p"));
    expected_ukiere_tiles_after_discard.insert("2p", get_tile_ids_from_string("147m"));
    expected_ukiere_tiles_after_discard.insert("4p", get_tile_ids_from_string("147m"));
    expected_ukiere_tiles_after_discard.insert("2m", get_tile_ids_from_string("7m3p"));
    expected_ukiere_tiles_after_discard.insert("3m", get_tile_ids_from_string("7m3p"));
    assert_ukiere_tiles_after_discard_match(tiles, &expected_ukiere_tiles_after_discard);
}

#[test]
fn tenpai_and_n_shanten_examples_riichi_book_1() {
    // examples from riichi book 1: section 3.2.3 (ready and n-away)
    // tenpai hand
    let tiles = tiles_to_count_array("34588p23678s777z");
    assert_eq!(get_shanten(tiles), 0);
    assert_eq!(get_shanten_optimized(tiles), 0);

    // ukiere tiles: 14s
    let expected_ukiere_tiles = get_tile_ids_from_string("14s");
    let ukiere_tiles = get_ukiere(tiles);
    assert_tile_ids_match(&ukiere_tiles, &expected_ukiere_tiles);

    let ukiere_tiles = get_ukiere_optimized(tiles);
    assert_tile_ids_match(&ukiere_tiles, &expected_ukiere_tiles);

    // 1-shanten hand:
    let tiles = tiles_to_count_array("35588p23678s777z");
    assert_eq!(get_shanten(tiles), 1);
    assert_eq!(get_shanten_optimized(tiles), 1);

    // ukiere tiles: 458p14s
    let expected_ukiere_tiles = get_tile_ids_from_string("458p14s");
    let ukiere_tiles = get_ukiere(tiles);
    assert_tile_ids_match(&ukiere_tiles, &expected_ukiere_tiles);

    let ukiere_tiles = get_ukiere_optimized(tiles);
    assert_tile_ids_match(&ukiere_tiles, &expected_ukiere_tiles);

    // 2-shanten hand
    let tiles = tiles_to_count_array("35588p23677s777z");
    assert_eq!(get_shanten(tiles), 2);
    assert_eq!(get_shanten_optimized(tiles), 2);

    // ukiere tiles: 3458p12345678s (3p236s will make the hand 1-shanten for chiitoi)
    let expected_ukiere_tiles = get_tile_ids_from_string("3458p12345678s");
    let ukiere_tiles = get_ukiere(tiles);
    assert_tile_ids_match(&ukiere_tiles, &expected_ukiere_tiles);

    let ukiere_tiles = get_ukiere_optimized(tiles);
    assert_tile_ids_match(&ukiere_tiles, &expected_ukiere_tiles);
}

#[test]
fn wwyd_basic_efficiency_riichi_book_1() {
    // examples from riichi book 1: section 3.2.3 (ready and n-away > advancing your hand)
    let tiles = tiles_to_count_array("5677m34p45579s666z");
    assert_eq!(get_shanten(tiles), 1);
    assert_eq!(get_shanten_optimized(tiles), 1);
    // 567m - 7m - 34p - 455s - 79s - 666z
    // (can't interpret as 45s-579s because you need the pair of 5s)

    let mut expected_ukiere_tiles_after_discard = HashMap::new();
    expected_ukiere_tiles_after_discard.insert("7m", get_tile_ids_from_string("25p8s"));
    expected_ukiere_tiles_after_discard.insert("4s", get_tile_ids_from_string("25p8s"));
    assert_ukiere_tiles_after_discard_match(tiles, &expected_ukiere_tiles_after_discard);
}

#[test]
fn wwyd_kutsuki_iishanten() {
    // examples from youtube video (recording of a presentation/lesson): https://youtu.be/TulF31VKJ94?si=baGLLhyg-Mr2cbqd
    // 1st example (timestamp 1:33:59)
    let tiles = tiles_to_count_array("2344567m556p6678s");
    assert_eq!(get_shanten(tiles), 1);
    assert_eq!(get_shanten_optimized(tiles), 1);

    // discarding 6p, 6s, 4m, or 7m leaves with kutsuki iishanten:
    // discard 6p: 55p - 678s - 6s - 234m - 4567m -> floating 6s, 4m, and 7m; 1m will form an indirect incomplete group (123m-44m-567m) and 9s forms 66s-789s
    // discard 6s: 556p - 678s - 234m - 4567m -> floating 6p, 4m, and 7m; 1m will form incomplete group as well
    // discard 4m/7m: 556p - 678s - 6s (+ two sequences in manzu) -> floating 6p, 6s; 9s will form incomplete group as well
    // discard 5p (headless 1-shanten if 6678s is one group): 147m will form a pair in manzu, 47p leaves you with 6678s aryanmen, 69s forms pair in souzu
    let mut expected_ukiere_tiles_after_discard = HashMap::new();
    expected_ukiere_tiles_after_discard.insert("6p", get_tile_ids_from_string("123456789m5p456789s"));
    expected_ukiere_tiles_after_discard.insert("6s", get_tile_ids_from_string("123456789m45678p"));
    expected_ukiere_tiles_after_discard.insert("4m", get_tile_ids_from_string("45678p456789s"));
    expected_ukiere_tiles_after_discard.insert("7m", get_tile_ids_from_string("45678p456789s"));
    expected_ukiere_tiles_after_discard.insert("5p", get_tile_ids_from_string("147m47p69s"));
    assert_ukiere_tiles_after_discard_match(tiles, &expected_ukiere_tiles_after_discard);

    // 2nd example (timestamp 1:40:29)
    let tiles = tiles_to_count_array("2446888m4678999p");
    assert_eq!(get_shanten(tiles), 1);
    assert_eq!(get_shanten_optimized(tiles), 1);

    // discarding 2m, 6m, or 4p leaves with kutsuki iishanten:
    // discard 2m: 44m - 6m - 888m - 4p - 678p - 999p -> note: can accept 9p as well, which forms an incomplete group 46p-789p-999p
    // discard 6m: 44m - 2m - 888m - 4p - 678p - 999p -> note: can accept 9p as well, which forms an incomplete group 46p-789p-999p
    // discard 4p: 2m - 44m - 6m - 888m - 678p - 999p
    // discard 4m (headless + ankou): 246m - 888m - 4p - 678p - 999p -> can accept 7m (24m-678m-88m) and 5p (456p-789p-99p) as well
    let mut expected_ukiere_tiles_after_discard = HashMap::new();
    expected_ukiere_tiles_after_discard.insert("2m", get_tile_ids_from_string("45678m234569p"));
    expected_ukiere_tiles_after_discard.insert("6m", get_tile_ids_from_string("1234m234569p"));
    expected_ukiere_tiles_after_discard.insert("4m", get_tile_ids_from_string("23567m45p"));
    expected_ukiere_tiles_after_discard.insert("4p", get_tile_ids_from_string("12345678m"));
    // remaining options lock in a pair of 8m or 9p, which means the 4p doesn't count towards shanten and the 2446m needs to form 2 groups
    expected_ukiere_tiles_after_discard.insert("8m", get_tile_ids_from_string("35m"));
    expected_ukiere_tiles_after_discard.insert("6p", get_tile_ids_from_string("35m"));
    expected_ukiere_tiles_after_discard.insert("9p", get_tile_ids_from_string("35m"));
    assert_ukiere_tiles_after_discard_match(tiles, &expected_ukiere_tiles_after_discard);
}

#[test]
fn tanki_tenpai_upgrade() {
    // example from riichi book 1, section 3.2.5 (Pairs (toitsu) > Building the head)
    let tiles = tiles_to_count_array("789m234567p3457s");
    // currently, the hand is tenpai, with tanki wait on 7s
    assert_eq!(get_shanten(tiles), 0);
    assert_eq!(get_shanten_optimized(tiles), 0);

    let expected_ukiere_tiles = get_tile_ids_from_string("7s");
    let ukiere_tiles = get_ukiere(tiles);
    assert_tile_ids_match(&ukiere_tiles, &expected_ukiere_tiles);

    let ukiere_tiles = get_ukiere_optimized(tiles);
    assert_tile_ids_match(&ukiere_tiles, &expected_ukiere_tiles);

    // but if you were to draw 69m124578p2356s, the wait improves significantly
    // (you would discard 7s and have at least 6 ukiere, either nobetan or aryanmen)
    // even drawing 4s would slightly improve the wait: could discard 3s for a 4457s with a kanchan wait on 6s (4 ukiere)
    let mut expected_upgrade_tiles: HashMap<&'static str, HashMap<&'static str, Vec<MahjongTileId>>> =
        HashMap::new();
    expected_upgrade_tiles.insert("1p", hm(vec![("7s", get_tile_ids_from_string("147p"))]));
    expected_upgrade_tiles.insert("2p", hm(vec![("7s", get_tile_ids_from_string("258p"))]));
    expected_upgrade_tiles.insert("4p", hm(vec![("7s", get_tile_ids_from_string("147p"))]));
    expected_upgrade_tiles.insert("5p", hm(vec![("7s", get_tile_ids_from_string("258p"))]));
    expected_upgrade_tiles.insert("7p", hm(vec![("7s", get_tile_ids_from_string("147p"))]));
    expected_upgrade_tiles.insert("8p", hm(vec![("7s", get_tile_ids_from_string("258p"))]));
    expected_upgrade_tiles.insert("6m", hm(vec![("7s", get_tile_ids_from_string("69m"))]));
    expected_upgrade_tiles.insert("9m", hm(vec![("7s", get_tile_ids_from_string("69m"))]));
    expected_upgrade_tiles.insert("2s", hm(vec![("7s", get_tile_ids_from_string("25s"))]));
    expected_upgrade_tiles.insert("3s", hm(vec![("7s", get_tile_ids_from_string("36s"))]));
    expected_upgrade_tiles.insert("5s", hm(vec![("7s", get_tile_ids_from_string("25s"))]));
    expected_upgrade_tiles.insert(
        "6s",
        hm(vec![("7s", get_tile_ids_from_string("36s")), ("3s", get_tile_ids_from_string("47s"))]),
    );
    expected_upgrade_tiles.insert("4s", hm(vec![("3s", get_tile_ids_from_string("6s"))]));

    // calculate the tiles that, if drawn, upgrade the ukiere of the hand at the current shanten
    let other_visible_tiles = vec![];
    assert_upgrade_tiles_match(tiles, &expected_upgrade_tiles, &other_visible_tiles);

    // for example, test that the ukiere tiles count is correct after drawing 1p
    let ukiere_tiles = get_tile_ids_from_string("147p");
    // remove the original tiles in hand, plus the next tile that is drawn
    let mut visible_tile_ids = Vec::new();
    let tiles_as_ids = tile_count_array_to_tile_ids(tiles);
    visible_tile_ids.extend_from_slice(&tiles_as_ids.as_slice());
    visible_tile_ids.push(get_id_from_tile_text("1p").unwrap());
    // println!(
    //     "visible tile ids = {}",
    //     tile_ids_to_string(&visible_tile_ids)
    // );
    assert_eq!(9, get_num_tiles_remaining(&ukiere_tiles, &visible_tile_ids));

    // check the situation after drawing 1p: still in tenpai, but with improved wait after discarding 7s
    let tiles_after_draw =
        add_tile_id_to_count_array(tiles, get_id_from_tile_text("1p").unwrap());
    let shanten_after_discard =
        get_best_shanten_after_discard(tiles_after_draw, &get_shanten_optimized);
    assert_eq!(shanten_after_discard, 0);

    let other_visible_tiles = Vec::new();
    let best_ukiere_after_discard = get_most_ukiere_after_discard(
        tiles_after_draw,
        shanten_after_discard,
        &get_shanten_optimized,
        &get_ukiere_optimized,
        &other_visible_tiles,
    );
    let mut expected_discard_ukiere: Vec<(MahjongTileId, Vec<MahjongTileId>, u16)> = Vec::new();
    expected_discard_ukiere.push((
        get_id_from_tile_text("7s").unwrap(),
        get_tile_ids_from_string("147p"),
        9,
    ));
    assert_discards_ukiere_match(&best_ukiere_after_discard, &expected_discard_ukiere);

    // for (discard_tile_id, ukiere_tile_ids_after_discard, num_ukiere_after_discard) in
    //     best_ukiere_after_discard
    // {
    //     println!(
    //         "discard {} -> {} ukiere tiles: {} ",
    //         text_of(discard_tile_id),
    //         num_ukiere_after_discard,
    //         tile_ids_to_string(&ukiere_tile_ids_after_discard)
    //     );
    // }

    let shanten_ukiere_after_each_discard = get_shanten_ukiere_after_each_discard(
        tiles_after_draw,
        &get_shanten_optimized,
        &get_ukiere_optimized,
        &other_visible_tiles,
    );
    print_shanten_ukiere_after_each_discard(
        tiles_after_draw,
        &shanten_ukiere_after_each_discard,
        &other_visible_tiles,
    );
}

fn print_shanten_ukiere_after_each_discard(
    tile_count_array: [u8; 34],
    shanten_ukiere_after_each_discard: &Vec<(MahjongTileId, i8, Vec<MahjongTileId>, u16)>,
    other_visible_tiles: &Vec<MahjongTileId>,
) {
    if get_total_tiles_from_count_array(MahjongTileCountArray(tile_count_array)) != 14 {
        // hands with quads hold more tiles and are not handled here
        panic!("invalid number of tiles")
    }
    let original_tiles = tile_count_array_to_tile_ids(tile_count_array);
    println!(
        "shanten + ukiere after each discard: {}",
        tile_ids_to_string(&original_tiles)
    );
    let mut sorted_shanten_ukiere_after_each_discard =
        shanten_ukiere_after_each_discard.clone();
    sorted_shanten_ukiere_after_each_discard.sort_by(
        |(_, shanten_1, _, ukiere_1), (_, shanten_2, _, ukiere_2)| match shanten_1
            .cmp(shanten_2)
        {
            // sort by shanten ascending, then by ukiere descending
            Ordering::Equal => ukiere_2.cmp(ukiere_1),
            Ordering::Less => Ordering::Less,
            Ordering::Greater => Ordering::Greater,
        },
    );

    let best_shanten = get_best_shanten_after_discard(tile_count_array, &get_shanten_optimized);

    // from the initial hand - try each discard
    for (
        discard_tile_id,
        shanten_after_discard,
        ukiere_tile_ids_after_discard,
        num_ukiere_after_discard,
    ) in sorted_shanten_ukiere_after_each_discard
    {
        let mut sorted_ukiere_tile_ids_after_discard: Vec<MahjongTileId> = ukiere_tile_ids_after_discard.iter().cloned().map(|t| t.into()).collect();
        sorted_ukiere_tile_ids_after_discard.sort();
        println!(
            "discard {} -> {} shanten, {} ukiere tiles: {} ",
            text_of(discard_tile_id.clone()),
            shanten_after_discard,
            num_ukiere_after_discard,
            tile_ids_to_string(&sorted_ukiere_tile_ids_after_discard)
        );

        let new_count_array =
            remove_tile_id_from_count_array(tile_count_array, discard_tile_id);
        let new_shanten = get_shanten_optimized(new_count_array);
        // println!(
        //     "hand {} is {} shanten",
        //     mahjong_hand::tile_count_array_to_string(&new_count_array),
        //     new_shanten
        // );

        // for performance, only print out improve results (i.e. results after drawing an ukiere tile)
        // for the discards that result in best shanten (i.e. don't print out for suboptimal discards)
        if new_shanten == best_shanten {
            println!("  after advancing shanten:");
            let mut improve_options = Vec::new();
            for improve_tile_id in ukiere_tile_ids_after_discard {
                let after_improve_draw_count_array =
                    add_tile_id_to_count_array(new_count_array, improve_tile_id.clone());
                let mut options_after_ukiere_draw = get_most_ukiere_after_discard(
                    after_improve_draw_count_array,
                    new_shanten,
                    &get_shanten_optimized,
                    &get_ukiere_optimized,
                    other_visible_tiles,
                );
                options_after_ukiere_draw.iter_mut().for_each(
                    |(_, ukiere_after_upgrade_discard, _)| {
                        ukiere_after_upgrade_discard.sort();
                    },
                );

                // sort discard options (after drawing improvement tile) by descending number of ukiere tiles
                // let mut options_after_improve_sorted = options_after_ukiere_draw.clone();
                options_after_ukiere_draw.sort_by(
                    |(_, _, num_ukiere_tiles_after_improve1),
                     (_, _, num_ukiere_tiles_after_improve2)| {
                        num_ukiere_tiles_after_improve2.cmp(num_ukiere_tiles_after_improve1)
                    },
                );
                improve_options.push((improve_tile_id, options_after_ukiere_draw));
            }

            // sort improve options by max number of ukiere tiles after discard (descending)
            improve_options.sort_by(
                |(_, options_after_improve_sorted1), (_, options_after_improve_sorted2)| {
                    let max_ukiere_after_improve1 =
                        options_after_improve_sorted1.get(0).unwrap().2;
                    let max_ukiere_after_improve2 =
                        options_after_improve_sorted2.get(0).unwrap().2;
                    max_ukiere_after_improve2.cmp(&max_ukiere_after_improve1)
                },
            );

            let improve_options_str_parts: Vec<String> = improve_options
                .into_iter()
                .map(|(improve_tile_id, options_after_improve)| {
                    let options_after_improve_str_parts: Vec<String> = options_after_improve
                        .into_iter()
                        .map(
                            |(
                                discard_after_improve_tile_id,
                                ukiere_tiles_after_improve_discard,
                                num_ukiere_tiles_after_improve_discard,
                            )| {
                                format!(
                                    "cut {} => {} ukiere: {}",
                                    text_of(discard_after_improve_tile_id),
                                    num_ukiere_tiles_after_improve_discard,
                                    tile_ids_to_string(&ukiere_tiles_after_improve_discard)
                                )
                            },
                        )
                        .collect();
                    format!(
                        "    draw {} -> {}",
                        text_of(improve_tile_id),
                        options_after_improve_str_parts.join("; ")
                    )
                })
                .collect();
            println!("{}", improve_options_str_parts.join("\n"));
        }

        // for performance, only print out upgrades for the discards that result in best shanten
        // (i.e. don't print out for suboptimal discards)
        if new_shanten == best_shanten {
            let upgrades = get_upgrade_tiles(
                new_count_array,
                &get_shanten_optimized,
                &get_ukiere_optimized,
                other_visible_tiles,
            );
            let has_upgrades = !upgrades.is_empty();
            if has_upgrades {
                println!("  upgrades:");
                let mut upgrade_options = Vec::new();
                for (upgrade_tile_id, discard_to_ukiere) in upgrades {
                    let mut discard_to_ukiere_options = Vec::new();
                    for (discard_tile_id, (ukiere_after_discard, num_ukiere_after_discard)) in
                        discard_to_ukiere
                    {
                        // sort the ukiere tiles by tile id
                        let mut sorted_ukiere_after_discard = ukiere_after_discard.clone();
                        sorted_ukiere_after_discard.sort();

                        discard_to_ukiere_options.push((
                            discard_tile_id,
                            sorted_ukiere_after_discard,
                            num_ukiere_after_discard,
                        ));
                    }
                    // sort discard options (after drawing upgrade) by num ukiere tiles after discard (descending)
                    discard_to_ukiere_options.sort_by(
                        |(_, _, num_ukiere_after_discard1),
                         (_, _, num_ukiere_after_discard2)| {
                            num_ukiere_after_discard2.cmp(num_ukiere_after_discard1)
                        },
                    );
                    upgrade_options.push((upgrade_tile_id, discard_to_ukiere_options));
                }
                // sort upgrade options by max num ukiere tiles after discard (descending)
                upgrade_options.sort_by(
                    |(_, options_after_upgrade1), (_, options_after_upgrade2)| {
                        let max_ukiere_after_upgrade1 =
                            options_after_upgrade1.get(0).unwrap().2;
                        let max_ukiere_after_upgrade2 =
                            options_after_upgrade2.get(0).unwrap().2;
                        max_ukiere_after_upgrade2.cmp(&max_ukiere_after_upgrade1)
                    },
                );

                let upgrade_options_str_parts: Vec<String> = upgrade_options
                    .into_iter()
                    .map(|(upgrade_tile_id, discard_options)| {
                        let discard_to_ukiere_str_parts: Vec<String> = discard_options
                            .into_iter()
                            .map(
                                |(
                                    discard_after_upgrade_tile_id,
                                    sorted_ukiere_after_upgrade_discard,
                                    num_ukiere_after_upgrade_discard,
                                )| {
                                    format!(
                                        "cut {} => {} ukiere: {}",
                                        text_of(discard_after_upgrade_tile_id),
                                        num_ukiere_after_upgrade_discard,
                                        tile_ids_to_string(
                                            &sorted_ukiere_after_upgrade_discard
                                        )
                                    )
                                },
                            )
                            .collect();
                        format!(
                            "    draw {} -> {}",
                            text_of(upgrade_tile_id),
                            discard_to_ukiere_str_parts.join("; ")
                        )
                    })
                    .collect();
                println!("{}", upgrade_options_str_parts.join("\n"));
            }
        }
    }
}

#[test]
fn upgrade_analysis_tenhou_hand_example() {
    // hand: 345m1156p4666778s (in game: i had 345m11256p46778s6s, could discard 2p and draw 6s to reach this hand state)
    // my program's analysis outputs: cut 4s => 17 ukiere: 147p679s
    // but this is wrong: https://tenhou.net/2/?q=345m1156p4666778s - it's missing 58s as additional ukiere tiles
    // cut 4s => 24 ukiere: 147p56789s (my program's analysis of ukiere after cut 7s is correct: 147p569s)
    let tiles_after_draw = tiles_to_count_array("345m1156p4666778s");
    let shanten_after_discard =
        get_best_shanten_after_discard(tiles_after_draw, &get_shanten_optimized);
    assert_eq!(shanten_after_discard, 1);

    let tile_id_4s = get_id_from_tile_text("4s").unwrap();
    let tiles_after_discard_4s = remove_tile_id_from_count_array(tiles_after_draw, tile_id_4s);
    // this hand interpretation is missing from the hand interpretations, because it splits up the three 6s tiles into a sequence, an incomplete group, and a isolated tile
    let hand_interpretation = HandInterpretation {
        total_tile_count_array: tiles_after_discard_4s,
        groups: vec![
            TileMeld::new(get_tile_ids_from_string("345m")),
            TileMeld::new(get_tile_ids_from_string("11p")),
            TileMeld::new(get_tile_ids_from_string("56p")),
            TileMeld::new(get_tile_ids_from_string("6s")),
            TileMeld::new(get_tile_ids_from_string("67s")),
            TileMeld::new(get_tile_ids_from_string("678s")),
        ],
    };
    assert_tile_ids_match(
        &hand_interpretation.get_ukiere(),
        &get_tile_ids_from_string("47p58s"),
    );
    assert_eq!(hand_interpretation.get_standard_shanten(), 1);

    let expected_ukiere_after_discard_4s = get_tile_ids_from_string("147p56789s");
    let ukiere_after_discard_4s =
        get_ukiere_after_discard(tiles_after_draw, tile_id_4s, &get_ukiere);
    // println!("checking ukiere after discard 4s from 345m1156p4666778s (using get_ukiere):");
    assert_tile_ids_match(&ukiere_after_discard_4s, &expected_ukiere_after_discard_4s);
    // println!("get_ukiere after discard 4s from 345m1156p4666778s is correct");

    let ukiere_after_discard_4s = get_ukiere_after_discard(
        tiles_after_draw,
        get_id_from_tile_text("4s").unwrap(),
        &get_ukiere_optimized,
    );
    // println!(
    //     "checking ukiere after discard 4s from 345m1156p4666778s (using get_ukiere_optimized):"
    // );
    assert_tile_ids_match(&ukiere_after_discard_4s, &expected_ukiere_after_discard_4s);
    // println!("get_ukiere_optimized after discard 4s from 345m1156p4666778s is correct");
}

#[test]
fn wwyd_hand_game_example() {
    // east-1, seat: east, (25k points all), dora indicator: 1m (dora: 2m)
    let tiles_after_draw = tiles_to_count_array("5789s357p34667m11z");
    let shanten_after_discard =
        get_best_shanten_after_discard(tiles_after_draw, &get_shanten_optimized);
    let other_visible_tiles = Vec::new();
    let best_ukiere_after_discard = get_most_ukiere_after_discard(
        tiles_after_draw,
        shanten_after_discard,
        &get_shanten_optimized,
        &get_ukiere_optimized,
        &other_visible_tiles,
    );

    let mut expected_discard_ukiere: Vec<(MahjongTileId, Vec<MahjongTileId>, u16)> = Vec::new();
    expected_discard_ukiere.push((
        get_id_from_tile_text("5s").unwrap(),
        get_tile_ids_from_string("2568m46p1z"),
        24,
    ));
    assert_discards_ukiere_match(&best_ukiere_after_discard, &expected_discard_ukiere);

    // best discard = 5s -> 2 shanten, 24 ukiere: 2568m46p1z
    // for (discard_tile_id, ukiere_tile_ids_after_discard, num_ukiere_after_discard) in
    //     best_ukiere_after_discard
    // {
    //     println!(
    //         "discard {} -> {} ukiere tiles: {} ",
    //         text_of(discard_tile_id),
    //         num_ukiere_after_discard,
    //         tile_ids_to_string(&ukiere_tile_ids_after_discard)
    //     );
    // }

    let shanten_ukiere_after_each_discard = get_shanten_ukiere_after_each_discard(
        tiles_after_draw,
        &get_shanten_optimized,
        &get_ukiere_optimized,
        &other_visible_tiles,
    );
    print_shanten_ukiere_after_each_discard(
        tiles_after_draw,
        &shanten_ukiere_after_each_discard,
        &other_visible_tiles,
    );

    // next turn: after discarding 3p and calling 1z
    println!("check after discard 3p and calling 1z");
    let tiles_after_call = tiles_to_count_array("5789s57p34667m111z");
    let shanten_after_discard =
        get_best_shanten_after_discard(tiles_after_call, &get_shanten_optimized);
    let other_visible_tiles = get_tile_ids_from_string("3p");
    let best_ukiere_after_discard = get_most_ukiere_after_discard(
        tiles_after_call,
        shanten_after_discard,
        &get_shanten_optimized,
        &get_ukiere_optimized,
        &other_visible_tiles,
    );

    println!("checking if discard ukiere matches...");
    let mut expected_discard_ukiere: Vec<(MahjongTileId, Vec<MahjongTileId>, u16)> = Vec::new();
    expected_discard_ukiere.push((
        get_id_from_tile_text("5s").unwrap(),
        get_tile_ids_from_string("25m6p"),
        12,
    ));
    expected_discard_ukiere.push((
        get_id_from_tile_text("7m").unwrap(),
        get_tile_ids_from_string("25m6p"),
        12,
    ));
    assert_discards_ukiere_match(&best_ukiere_after_discard, &expected_discard_ukiere);
    println!("finished checking if discard ukiere matches!");

    let shanten_ukiere_after_each_discard = get_shanten_ukiere_after_each_discard(
        tiles_after_call,
        &get_shanten_optimized,
        &get_ukiere_optimized,
        &other_visible_tiles,
    );
    print_shanten_ukiere_after_each_discard(
        tiles_after_call,
        &shanten_ukiere_after_each_discard,
        &other_visible_tiles,
    );

    println!("checking if upgrade tiles matches...");
    // upgrades after discarding 5s
    let mut expected_upgrade_tiles: HashMap<&'static str, HashMap<&'static str, Vec<MahjongTileId>>> =
        HashMap::new();
    expected_upgrade_tiles.insert("6m", hm(vec![("7m", get_tile_ids_from_string("2345m567p"))]));
    expected_upgrade_tiles.insert("8m", hm(vec![("6m", get_tile_ids_from_string("2345m567p"))]));
    // the upgrade options below: 34m345789p are not included in the results from this efficiency trainer:
    // https://euophrys.itch.io/mahjong-efficiency-trainer
    // 34667m57p789s111z: 1 shanten, 12 ukiere: 25m6p
    // draw 3m is an upgrade -> cut 4m -> 33667m57p789s111z: 1 shanten, 16 ukiere: 3568m6p
    // or draw 3m -> cut 7m -> 33466m57p789s111z: 1 shanten, 16 ukiere: 2356m6p
    expected_upgrade_tiles.insert(
        "3m",
        hm(vec![("4m", get_tile_ids_from_string("3568m6p")), ("7m", get_tile_ids_from_string("2356m6p"))]),
    );
    // draw 4m is an upgrade -> cut 3m -> 44667m57p789s111z: 1 shanten, 16 ukiere: 4568m6p
    // or draw 4m -> cut 7m -> 34466m57p789s111z: 1 shanten, 16 ukiere: 2456m6p
    expected_upgrade_tiles.insert(
        "4m",
        hm(vec![("3m", get_tile_ids_from_string("4568m6p")), ("7m", get_tile_ids_from_string("2456m6p"))]),
    );
    // draw 3p is an upgrade (357p ryankan) -> cut 7m -> 3466m357p789s111z: 1 shanten, 16 ukiere: 25m46p
    expected_upgrade_tiles.insert("3p", hm(vec![("7m", get_tile_ids_from_string("25m46p"))]));
    // draw 4p is an upgrade (57p kanchan -> 45p ryanmen) -> cut 7p -> 34667m45p789s111z: 1 shanten, 16 ukiere: 25m36p
    // or draw 4p -> cut 7m -> 3466m457p789s111z: 1 shanten, 16 ukiere: 256m56p
    expected_upgrade_tiles.insert(
        "4p",
        hm(vec![("7p", get_tile_ids_from_string("25m36p")), ("7m", get_tile_ids_from_string("25m36p"))]),
    );
    // draw 5p is an upgrade -> cut 7m -> 3466m557p789s111z: 1 shanten, 16 ukiere: 256m56p
    // or draw 5p -> cut 7p -> 34667m55p789s111z: 1 shanten, 16 ukiere: 2568m5p
    expected_upgrade_tiles.insert(
        "5p",
        hm(vec![("7m", get_tile_ids_from_string("256m56p")), ("7p", get_tile_ids_from_string("2568m5p"))]),
    );
    // draw 7p is an upgrade -> cut 7m -> 3466m577p789s111z: 1 shanten, 16 ukiere: 256m67p
    // or draw 7p -> cut 5p -> 34667m77p789s111z: 1 shanten, 16 ukiere: 2568m7p
    expected_upgrade_tiles.insert(
        "7p",
        hm(vec![("7m", get_tile_ids_from_string("256m67p")), ("5p", get_tile_ids_from_string("2568m7p"))]),
    );
    // draw 8p is an upgrade (57p kanchan -> 78p ryanmen) -> cut 5p -> 34667m78p789s111z: 1 shanten, 16 ukiere: 25m69p
    // or draw 8p -> cut 7m -> 3466m578p789s111z: 1 shanten, 16 ukiere: 25m69p
    expected_upgrade_tiles.insert(
        "8p",
        hm(vec![("5p", get_tile_ids_from_string("25m69p")), ("7m", get_tile_ids_from_string("25m69p"))]),
    );
    // draw 9p is an upgrade (579p ryankan) -> cut 7m -> 3466m579p789s111z: 1 shanten, 16 ukiere: 25m68p
    expected_upgrade_tiles.insert("9p", hm(vec![("7m", get_tile_ids_from_string("25m68p"))]));

    // calculate the tiles that, if drawn, upgrade the ukiere of the hand at the current shanten
    let tiles_after_cut_5s = remove_tile_id_from_count_array(
        tiles_after_call,
        get_id_from_tile_text("5s").unwrap(),
    );
    assert_upgrade_tiles_match(
        tiles_after_cut_5s,
        &expected_upgrade_tiles,
        &other_visible_tiles,
    );
}

#[test]
fn wwyd_tenhou_hand_east1_turn8() {
    // east-1, seat: east, (25k points all), dora indicator: 6s (dora: 7s)
    let tiles_after_draw = tiles_to_count_array("345m11256p46778s6s");
    let shanten_after_discard =
        get_best_shanten_after_discard(tiles_after_draw, &get_shanten_optimized);
    assert_eq!(shanten_after_discard, 1);
    let other_visible_tiles = Vec::new();
    let best_ukiere_after_discard = get_most_ukiere_after_discard(
        tiles_after_draw,
        shanten_after_discard,
        &get_shanten_optimized,
        &get_ukiere_optimized,
        &other_visible_tiles,
    );

    let mut expected_discard_ukiere: Vec<(MahjongTileId, Vec<MahjongTileId>, u16)> = Vec::new();
    expected_discard_ukiere.push((
        get_id_from_tile_text("4s").unwrap(),
        get_tile_ids_from_string("47p58s"),
        15,
    ));
    expected_discard_ukiere.push((
        get_id_from_tile_text("2p").unwrap(),
        get_tile_ids_from_string("47p58s"),
        15,
    ));
    // discard 7s -> also 1 shanten, but only 12 ukiere: 47p5s
    assert_discards_ukiere_match(&best_ukiere_after_discard, &expected_discard_ukiere);

    // for (discard_tile_id, ukiere_tile_ids_after_discard, num_ukiere_after_discard) in
    //     best_ukiere_after_discard
    // {
    //     println!(
    //         "discard {} -> {} ukiere tiles: {} ",
    //         text_of(discard_tile_id),
    //         num_ukiere_after_discard,
    //         tile_ids_to_string(&ukiere_tile_ids_after_discard)
    //     );
    // }

    let shanten_ukiere_after_each_discard = get_shanten_ukiere_after_each_discard(
        tiles_after_draw,
        &get_shanten_optimized,
        &get_ukiere_optimized,
        &other_visible_tiles,
    );
    print_shanten_ukiere_after_each_discard(
        tiles_after_draw,
        &shanten_ukiere_after_each_discard,
        &other_visible_tiles,
    );
}

#[test]
fn wwyd_tenhou_hand_east1_turn7() {
    // I think there was a bigger mistake on the previous turn/discard decision in this same hand:
    // 345m11256p46778s6m
    let tiles_after_draw = tiles_to_count_array("345m11256p46778s6m");
    let shanten_after_discard =
        get_best_shanten_after_discard(tiles_after_draw, &get_shanten_optimized);
    assert_eq!(shanten_after_discard, 2);
    let other_visible_tiles = Vec::new();
    let best_ukiere_after_discard = get_most_ukiere_after_discard(
        tiles_after_draw,
        shanten_after_discard,
        &get_shanten_optimized,
        &get_ukiere_optimized,
        &other_visible_tiles,
    );
    let mut expected_discard_ukiere: Vec<(MahjongTileId, Vec<MahjongTileId>, u16)> = Vec::new();
    expected_discard_ukiere.push((
        get_id_from_tile_text("7s").unwrap(),
        get_tile_ids_from_string("12345678m12347p234569s"),
        67,
    ));
    assert_discards_ukiere_match(&best_ukiere_after_discard, &expected_discard_ukiere);

    let shanten_ukiere_after_each_discard = get_shanten_ukiere_after_each_discard(
        tiles_after_draw,
        &get_shanten_optimized,
        &get_ukiere_optimized,
        &other_visible_tiles,
    );
    print_shanten_ukiere_after_each_discard(
        tiles_after_draw,
        &shanten_ukiere_after_each_discard,
        &other_visible_tiles,
    );
}

#[test]
fn wwyd_solitaire_hand_turn7() {
    // dora indicator: 5m (dora 6m) - discarded so far: 3z5z7z1z4z9p
    let tiles_after_draw = tiles_to_count_array("46p255567s33478m4s");
    let shanten_after_discard =
        get_best_shanten_after_discard(tiles_after_draw, &get_shanten_optimized);
    assert_eq!(shanten_after_discard, 2);
    let other_visible_tiles = Vec::new();
    let best_ukiere_after_discard = get_most_ukiere_after_discard(
        tiles_after_draw,
        shanten_after_discard,
        &get_shanten_optimized,
        &get_ukiere_optimized,
        &other_visible_tiles,
    );

    let mut expected_discard_ukiere: Vec<(MahjongTileId, Vec<MahjongTileId>, u16)> = Vec::new();
    expected_discard_ukiere.push((
        get_id_from_tile_text("2s").unwrap(),
        get_tile_ids_from_string("5p3568s23569m"),
        34,
    ));
    // expected_discard_ukiere.push((
    //     get_id_from_tile_text("4p").unwrap(),
    //     get_tile_ids_from_string("358s23569m"),
    //     27,
    // ));
    // expected_discard_ukiere.push((
    //     get_id_from_tile_text("6p").unwrap(),
    //     get_tile_ids_from_string("358s23569m"),
    //     27,
    // ));
    assert_discards_ukiere_match(&best_ukiere_after_discard, &expected_discard_ukiere);

    let shanten_ukiere_after_each_discard = get_shanten_ukiere_after_each_discard(
        tiles_after_draw,
        &get_shanten_optimized,
        &get_ukiere_optimized,
        &other_visible_tiles,
    );
    print_shanten_ukiere_after_each_discard(
        tiles_after_draw,
        &shanten_ukiere_after_each_discard,
        &other_visible_tiles,
    );
}

#[test]
fn wwyd_tenhou_hand2_east1_turn1() {
    // 4557m2307p23067s6p - dora indicator 8s (I'm sitting west, dealer discarded 2z, south discarded 3z, and I just drew 6p -> 1 shanten)
    // red fives are not parsed
    // The main options are cut 4m vs cut 7m. Both lead to 1-shanten waiting on 14s14p, with upgrades to headless 1-shanten.
    // In game, I cut 4m to try to chase 567 sanshoku.
    // What is the loss in efficiency? Cutting 7m (instead of 4m) means my hand can also upgrade on 3m (in addition to 56m -> headless 1-shanten and 23s23p -> complete 1-shanten)
    // What is the value-speed tradeoff? My hand already has 2 dora locked in - the remaining potential yaku are:
    // tanyao (which isn't guaranteed due to the two 23 ryanmen shapes), pinfu (which is more likely but prevents the hand from calling),
    // and 567 sanshoku (but calling 6m to complete 567m leads to headless 1-shanten, which could result in tanki wait at tenpai).
    // -> can we open the hand at all? if we discard 4m and call 6m, that locks in sanshoku. But besides that, there isn't a completely
    // safe option to call and guarantee yaku. For example, if I discard 4m or 7m and then decide to call on 4s, the 23p shape
    // means I can't ron on 1p (and drawing 1p myself is worse: I don't have yaku since I opened the hand and I will be in furiten)
    // -> so if we can't safely open the hand (unless we can call on 6m after cut 4m), is that extra han worth it to not be able to upgrade on 3m?
    // with the call on 6m, the value is 3 han (and could be tanki wait)
    // but without call, the value could be 3-4 hand (with riichi and pinfu) and the wait could still be a tanki wait
    // the other thing is: it's so early in the hand, it seems unlikely that kamicha (player to my left) would discard a 6m for me to call
    // -> overall, I think cutting 7m is better - I cannot guarantee yaku if I open the hand (unless I specifically call 6m for sanshoku,
    // and kamicha probably shouldn't drop 6m this early into the hand)
    let tiles_after_draw = tiles_to_count_array("4557m2357p23567s6p");
    let shanten_after_discard =
    get_best_shanten_after_discard(tiles_after_draw, &get_shanten_optimized);
    assert_eq!(shanten_after_discard, 1);
    let other_visible_tiles = Vec::new();
    let best_ukiere_after_discard = get_most_ukiere_after_discard(
        tiles_after_draw,
        shanten_after_discard,
        &get_shanten_optimized,
        &get_ukiere_optimized,
        &other_visible_tiles,
    );
    let mut expected_discard_ukiere: Vec<(MahjongTileId, Vec<MahjongTileId>, u16)> = Vec::new();
    expected_discard_ukiere.push((
        get_id_from_tile_text("4m").unwrap(),
        get_tile_ids_from_string("14p14s"),
        16,
    ));
    expected_discard_ukiere.push((
        get_id_from_tile_text("7m").unwrap(),
        get_tile_ids_from_string("14p14s"),
        16,
    ));
    assert_discards_ukiere_match(&best_ukiere_after_discard, &expected_discard_ukiere);

    let shanten_ukiere_after_each_discard = get_shanten_ukiere_after_each_discard(
        tiles_after_draw,
        &get_shanten_optimized,
        &get_ukiere_optimized,
        &other_visible_tiles,
    );
    print_shanten_ukiere_after_each_discard(
        tiles_after_draw,
        &shanten_ukiere_after_each_discard,
        &other_visible_tiles,
    );
}




// hand: "234678s2345577p6z" - tenpai (57p shanpon) - but how many upgrade tiles? and how much value does it add?
