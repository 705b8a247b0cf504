use riichi_bot::mini_mahjong::mini_game::{
    contains_sequence, contains_triplet, count_mini_tiles_by_rank, is_winning_mini_hand, MiniTile,
};

#[test]
fn test_get_mini_tile_rank() {
    assert_eq!(MiniTile { serial: 0 }.rank(), 1);
    assert_eq!(MiniTile { serial: 3 }.rank(), 4);
    assert_eq!(MiniTile { serial: 8 }.rank(), 9);
    assert_eq!(MiniTile { serial: 9 }.rank(), 1);
    assert_eq!(MiniTile { serial: 10 }.rank(), 2);
    assert_eq!(MiniTile { serial: 35 }.rank(), 9);
}

#[test]
fn test_count_mini_tiles_by_rank() {
    let tiles = vec![
        MiniTile { serial: 0 },  // 1p
        MiniTile { serial: 9 },  // 1p
        MiniTile { serial: 1 },  // 2p
        MiniTile { serial: 34 }, // 8p
        MiniTile { serial: 6 },  // 7p
    ];

    let tile_counts = count_mini_tiles_by_rank(&tiles);
    assert_eq!(tile_counts.get(&1), Some(&2));
    assert_eq!(tile_counts.get(&2), Some(&1));
    assert_eq!(tile_counts.get(&8), Some(&1));
    assert_eq!(tile_counts.get(&7), Some(&1));
    assert_eq!(tile_counts.get(&9), None);
}

#[test]
fn test_contains_sequence() {
    let tiles: Vec<MiniTile> = vec![
        MiniTile { serial: 4 }, // 5p
        MiniTile { serial: 5 }, // 6p
        MiniTile { serial: 6 }, // 7p
        MiniTile { serial: 1 }, // 2p
        MiniTile { serial: 1 }, // 2p
    ];

    let tile_counts = count_mini_tiles_by_rank(&tiles);
    assert_eq!(contains_sequence(&tile_counts), true);
}

#[test]
fn test_contains_edge_sequence() {
    let tiles: Vec<MiniTile> = vec![
        MiniTile { serial: 6 }, // 7p
        MiniTile { serial: 7 }, // 8p
        MiniTile { serial: 8 }, // 9p
        MiniTile { serial: 1 }, // 2p
        MiniTile { serial: 1 }, // 2p
    ];

    let tile_counts = count_mini_tiles_by_rank(&tiles);
    assert_eq!(contains_sequence(&tile_counts), true);
}

#[test]
fn test_sequence_cannot_wrap() {
    let tiles: Vec<MiniTile> = vec![
        MiniTile { serial: 7 }, // 8p
        MiniTile { serial: 8 }, // 9p
        MiniTile { serial: 9 }, // 1p
        MiniTile { serial: 1 }, // 2p
        MiniTile { serial: 0 }, // 1p
    ];

    let tile_counts = count_mini_tiles_by_rank(&tiles);
    assert_eq!(contains_sequence(&tile_counts), false);
}

#[test]
fn test_does_not_contain_sequence() {
    let tiles: Vec<MiniTile> = vec![
        MiniTile { serial: 0 }, // 1p
        MiniTile { serial: 1 }, // 2p
        MiniTile { serial: 3 }, // 4p
        MiniTile { serial: 4 }, // 5p
        MiniTile { serial: 6 }, // 7p
    ];

    let tile_counts = count_mini_tiles_by_rank(&tiles);
    assert_eq!(contains_sequence(&tile_counts), false);
}

#[test]
fn test_contains_triplet() {
    let tiles: Vec<MiniTile> = vec![
        MiniTile { serial: 0 },  // 1p
        MiniTile { serial: 9 },  // 1p
        MiniTile { serial: 18 }, // 1p
        MiniTile { serial: 4 },  // 5p
        MiniTile { serial: 6 },  // 7p
    ];

    let tile_counts = count_mini_tiles_by_rank(&tiles);
    assert_eq!(contains_triplet(&tile_counts), true);
}

#[test]
fn test_does_not_contain_triplet() {
    let tiles: Vec<MiniTile> = vec![
        MiniTile { serial: 0 },  // 1p
        MiniTile { serial: 9 },  // 1p
        MiniTile { serial: 1 },  // 2p
        MiniTile { serial: 19 }, // 2p
        MiniTile { serial: 8 },  // 9p
    ];

    let tile_counts = count_mini_tiles_by_rank(&tiles);
    assert_eq!(contains_triplet(&tile_counts), false);
}

#[test]
fn test_winning_mini_hand_with_triplet() {
    let tiles: Vec<MiniTile> = vec![
        MiniTile { serial: 0 },  // 1p
        MiniTile { serial: 9 },  // 1p
        MiniTile { serial: 1 },  // 2p
        MiniTile { serial: 19 }, // 2p
        MiniTile { serial: 28 }, // 2p
    ];

    assert_eq!(is_winning_mini_hand(&tiles), true);
}

#[test]
fn test_winning_mini_hand_with_triplet2() {
    let tiles: Vec<MiniTile> = vec![
        MiniTile { serial: 0 },  // 1p
        MiniTile { serial: 9 },  // 1p
        MiniTile { serial: 3 },  // 4p
        MiniTile { serial: 12 }, // 4p
        MiniTile { serial: 21 }, // 4p
    ];

    assert_eq!(is_winning_mini_hand(&tiles), true);
}

#[test]
fn test_winning_mini_hand_with_sequence() {
    let tiles: Vec<MiniTile> = vec![
        MiniTile { serial: 7 },  // 8p
        MiniTile { serial: 16 }, // 8p
        MiniTile { serial: 1 },  // 2p
        MiniTile { serial: 11 }, // 3p
        MiniTile { serial: 3 },  // 4p
    ];

    assert_eq!(is_winning_mini_hand(&tiles), true);
}

#[test]
fn test_winning_mini_hand_pair_in_sequence() {
    let tiles: Vec<MiniTile> = vec![
        MiniTile { serial: 4 },  // 5p
        MiniTile { serial: 13 }, // 5p
        MiniTile { serial: 22 }, // 5p
        MiniTile { serial: 2 },  // 3p
        MiniTile { serial: 3 },  // 4p
    ];

    assert_eq!(is_winning_mini_hand(&tiles), true);
}

#[test]
fn test_not_winning_mini_hand_missing_pair() {
    let tiles: Vec<MiniTile> = vec![
        MiniTile { serial: 1 }, // 2p
        MiniTile { serial: 2 }, // 3p
        MiniTile { serial: 3 }, // 4p
        MiniTile { serial: 4 }, // 5p
        MiniTile { serial: 5 }, // 6p
    ];

    assert_eq!(is_winning_mini_hand(&tiles), false);
}

#[test]
fn test_not_winning_mini_hand_despite_sequence() {
    let tiles: Vec<MiniTile> = vec![
        MiniTile { serial: 1 },  // 2p
        MiniTile { serial: 2 },  // 3p
        MiniTile { serial: 11 }, // 3p
        MiniTile { serial: 3 },  // 4p
        MiniTile { serial: 4 },  // 5p
    ];

    assert_eq!(is_winning_mini_hand(&tiles), false);
}

#[test]
fn test_not_winning_mini_hand_despite_triplet() {
    let tiles: Vec<MiniTile> = vec![
        MiniTile { serial: 1 },  // 2p
        MiniTile { serial: 2 },  // 3p
        MiniTile { serial: 11 }, // 3p
        MiniTile { serial: 20 }, // 3p
        MiniTile { serial: 4 },  // 5p
    ];

    assert_eq!(is_winning_mini_hand(&tiles), false);
}

#[test]
fn test_not_winning_mini_hand_too_few_tiles() {
    let tiles: Vec<MiniTile> = vec![
        MiniTile { serial: 1 }, // 2p
        MiniTile { serial: 2 }, // 3p
        MiniTile { serial: 3 }, // 4p
        MiniTile { serial: 4 }, // 5p
    ];

    assert_eq!(is_winning_mini_hand(&tiles), false);
}

#[test]
fn test_not_winning_mini_hand_too_many_tiles() {
    let tiles: Vec<MiniTile> = vec![
        MiniTile { serial: 1 },  // 2p
        MiniTile { serial: 2 },  // 3p
        MiniTile { serial: 3 },  // 4p
        MiniTile { serial: 4 },  // 5p
        MiniTile { serial: 13 }, // 5p
        MiniTile { serial: 22 }, // 5p
    ];

    assert_eq!(is_winning_mini_hand(&tiles), false);
}

#[test]
fn mini_tile_serials_valid() {
    assert!(MiniTile { serial: 0 }.is_valid_serial());
    assert!(MiniTile { serial: 35 }.is_valid_serial());
    assert!(!MiniTile { serial: 36 }.is_valid_serial());
}

#[test]
fn contains_triplet_in_any_entry() {
    let mut tile_counts = std::collections::HashMap::new();
    tile_counts.insert(100u32, 3u32);
    tile_counts.insert(2u32, 1u32);
    assert!(contains_triplet(&tile_counts));
    tile_counts.insert(100u32, 2u32);
    assert!(!contains_triplet(&tile_counts));
}

#[test]
fn winning_mini_hand_with_run_of_three_and_pair() {
    let tiles: Vec<MiniTile> = vec![
        MiniTile { serial: 6 },  // 7p
        MiniTile { serial: 7 },  // 8p
        MiniTile { serial: 8 },  // 9p
        MiniTile { serial: 0 },  // 1p
        MiniTile { serial: 9 },  // 1p
    ];
    assert!(is_winning_mini_hand(&tiles));
}
