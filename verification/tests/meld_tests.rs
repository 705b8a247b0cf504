use riichi_bot::mahjong_meld::{is_valid_meld, MahjongMeld, MeldType};
use riichi_bot::mahjong_tile::get_id_from_tile_text;

/// The id of a tile given in MSPZ notation.
fn tid(text: &str) -> u8 {
    get_id_from_tile_text(text).unwrap().0
}

#[test]
fn check_is_valid_meld_sequence() {
    // honor tiles cannot form sequences
    let wind_tile_ids = [
        tid("1z"),
        tid("2z"),
        tid("3z"),
    ];
    assert!(!is_valid_meld(&wind_tile_ids, MeldType::ClosedSequence));

    // honor tiles cannot form sequences
    let dragon_tile_ids = [
        tid("5z"),
        tid("6z"),
        tid("7z"),
    ];
    assert!(!is_valid_meld(&dragon_tile_ids, MeldType::ClosedSequence));

    // must be in same suit
    let different_suit = [
        tid("3m"),
        tid("4m"),
        tid("5s"),
    ];
    assert!(!is_valid_meld(&different_suit, MeldType::ClosedSequence));

    // must be consecutive
    let nonconsecutive = [
        tid("1m"),
        tid("2m"),
        tid("4m"),
    ];
    assert!(!is_valid_meld(&nonconsecutive, MeldType::ClosedSequence));

    let duplicate_rank = [
        tid("4p"),
        tid("3p"),
        tid("4p"),
    ];
    assert!(!is_valid_meld(&duplicate_rank, MeldType::ClosedSequence));

    // sequences cannot wrap around
    let wrap_around = [
        tid("1m"),
        tid("8m"),
        tid("9m"),
    ];
    assert!(!is_valid_meld(&wrap_around, MeldType::ClosedSequence));

    // too many tiles
    let too_many_tiles = [
        tid("1p"),
        tid("1p"),
        tid("2p"),
        tid("3p"),
    ];
    assert!(!is_valid_meld(&too_many_tiles, MeldType::ClosedSequence));

    // not enough tiles
    let not_enough_tiles = [
        tid("7s"),
        tid("8s"),
    ];
    assert!(!is_valid_meld(&not_enough_tiles, MeldType::ClosedSequence));

    // tile ids can be given in any order
    let tile_ids = [
        tid("2p"),
        tid("4p"),
        tid("3p"),
    ];
    assert!(is_valid_meld(&tile_ids, MeldType::ClosedSequence));

    // open sequence is okay too
    let tile_ids = [
        tid("9s"),
        tid("8s"),
        tid("7s"),
    ];
    assert!(is_valid_meld(&tile_ids, MeldType::OpenSequence));
}

#[test]
fn check_is_valid_meld_triplet() {
    // honor tiles can form triplets
    let wind_triplet = [
        tid("2z"),
        tid("2z"),
        tid("2z"),
    ];
    assert!(is_valid_meld(&wind_triplet, MeldType::ClosedTriplet));

    // honor tiles can form triplets
    let dragon_triplet = [
        tid("5z"),
        tid("5z"),
        tid("5z"),
    ];
    assert!(is_valid_meld(&dragon_triplet, MeldType::ClosedTriplet));

    // must be in same suit
    let different_suit = [
        tid("3m"),
        tid("3m"),
        tid("3s"),
    ];
    assert!(!is_valid_meld(&different_suit, MeldType::ClosedTriplet));

    // must be all identical
    let not_identical = [
        tid("1m"),
        tid("1m"),
        tid("2m"),
    ];
    assert!(!is_valid_meld(&not_identical, MeldType::ClosedTriplet));

    // too many tiles
    let too_many_tiles = [
        tid("1p"),
        tid("1p"),
        tid("1p"),
        tid("1p"),
    ];
    assert!(!is_valid_meld(&too_many_tiles, MeldType::ClosedTriplet));

    // not enough tiles
    let not_enough_tiles = [
        tid("7s"),
        tid("7s"),
    ];
    assert!(!is_valid_meld(&not_enough_tiles, MeldType::ClosedTriplet));

    let tile_ids = [
        tid("4p"),
        tid("4p"),
        tid("4p"),
    ];
    assert!(is_valid_meld(&tile_ids, MeldType::ClosedTriplet));

    // open triplet is okay too
    let tile_ids = [
        tid("3s"),
        tid("3s"),
        tid("3s"),
    ];
    assert!(is_valid_meld(&tile_ids, MeldType::OpenTriplet));
}

#[test]
fn check_is_valid_meld_quad() {
    // honor tiles can form quads
    let wind_quad = [
        tid("4z"),
        tid("4z"),
        tid("4z"),
        tid("4z"),
    ];
    assert!(is_valid_meld(&wind_quad, MeldType::ClosedQuad));

    // honor tiles can form quads
    let dragon_quad = [
        tid("7z"),
        tid("7z"),
        tid("7z"),
        tid("7z"),
    ];
    assert!(is_valid_meld(&dragon_quad, MeldType::ClosedQuad));

    // must be in same suit
    let different_suit = [
        tid("3m"),
        tid("3m"),
        tid("3m"),
        tid("3s"),
    ];
    assert!(!is_valid_meld(&different_suit, MeldType::ClosedQuad));

    // must be all identical
    let not_identical = [
        tid("6s"),
        tid("6s"),
        tid("6s"),
        tid("2s"),
    ];
    assert!(!is_valid_meld(&not_identical, MeldType::ClosedQuad));

    // too many tiles
    let too_many_tiles = [
        tid("9m"),
        tid("9m"),
        tid("9m"),
        tid("9m"),
        tid("9m"),
    ];
    assert!(!is_valid_meld(&too_many_tiles, MeldType::ClosedQuad));

    // not enough tiles
    let not_enough_tiles = [
        tid("4s"),
        tid("4s"),
        tid("4s"),
    ];
    assert!(!is_valid_meld(&not_enough_tiles, MeldType::ClosedQuad));

    let tile_ids = [
        tid("2p"),
        tid("2p"),
        tid("2p"),
        tid("2p"),
    ];
    assert!(is_valid_meld(&tile_ids, MeldType::ClosedQuad));

    // open quad is okay too
    let tile_ids = [
        tid("3s"),
        tid("3s"),
        tid("3s"),
        tid("3s"),
    ];
    assert!(is_valid_meld(&tile_ids, MeldType::OpenQuad));

    // added quad is okay too
    let tile_ids = [
        tid("8m"),
        tid("8m"),
        tid("8m"),
        tid("8m"),
    ];
    assert!(is_valid_meld(&tile_ids, MeldType::AddedQuad));
}

#[test]
fn check_is_valid_meld_pair() {
    // honor tiles can form pairs
    let wind_pair = [
        tid("3z"),
        tid("3z"),
    ];
    assert!(is_valid_meld(&wind_pair, MeldType::Pair));

    // honor tiles can form pairs
    let dragon_pair = [
        tid("6z"),
        tid("6z"),
    ];
    assert!(is_valid_meld(&dragon_pair, MeldType::Pair));

    // must be in same suit
    let different_suit = [
        tid("3m"),
        tid("3s"),
    ];
    assert!(!is_valid_meld(&different_suit, MeldType::Pair));

    // must be identical
    let not_identical = [
        tid("6s"),
        tid("2s"),
    ];
    assert!(!is_valid_meld(&not_identical, MeldType::Pair));

    // too many tiles
    let too_many_tiles = [
        tid("9m"),
        tid("9m"),
        tid("9m"),
    ];
    assert!(!is_valid_meld(&too_many_tiles, MeldType::Pair));

    // not enough tiles
    let not_enough_tiles = [tid("4s")];
    assert!(!is_valid_meld(&not_enough_tiles, MeldType::Pair));

    let tile_ids = [
        tid("2p"),
        tid("2p"),
    ];
    assert!(is_valid_meld(&tile_ids, MeldType::Pair));
}

#[test]
fn meld_from_tile_ids() {
    let sequence_tile_ids = [
        tid("1m"),
        tid("2m"),
        tid("3m"),
    ];
    match MahjongMeld::from_tile_ids(&sequence_tile_ids, MeldType::ClosedSequence) {
        Ok(_meld) => assert!(true),
        Err(_) => assert!(false),
    };

    let red_five_sequence_tile_ids = [
        tid("3p"),
        tid("4p"),
        tid("0p"),
    ];
    match MahjongMeld::from_tile_ids(&red_five_sequence_tile_ids, MeldType::ClosedSequence) {
        Ok(_meld) => assert!(true),
        Err(_) => assert!(false),
    };

    let triplet_tile_ids = [
        tid("6s"),
        tid("6s"),
        tid("6s"),
    ];
    match MahjongMeld::from_tile_ids(&triplet_tile_ids, MeldType::ClosedTriplet) {
        Ok(_meld) => assert!(true),
        Err(_) => assert!(false),
    };

    let quad_tile_ids = [
        tid("1z"),
        tid("1z"),
        tid("1z"),
        tid("1z"),
    ];
    match MahjongMeld::from_tile_ids(&quad_tile_ids, MeldType::ClosedQuad) {
        Ok(_meld) => assert!(true),
        Err(_) => assert!(false),
    };

    let pair_tile_ids = [
        tid("5z"),
        tid("5z"),
    ];
    match MahjongMeld::from_tile_ids(&pair_tile_ids, MeldType::Pair) {
        Ok(_meld) => assert!(true),
        Err(_) => assert!(false),
    };
}

#[test]
fn meld_from_tile_ids_records_tiles() {
    let meld = MahjongMeld::from_tile_ids(&[tid("5z"), tid("5z")], MeldType::Pair).unwrap();
    assert!(meld.meld_type == MeldType::Pair);
    assert_eq!(meld.tile_ids, [Some(tid("5z")), Some(tid("5z")), None, None]);
    assert_eq!(meld.added_tile_id, None);
    assert_eq!(meld.added_tile_player, None);
    assert_eq!(meld.num_tiles(), 2);
    assert!(!meld.is_open());

    let quad = MahjongMeld::from_tile_ids(&[1, 1, 1, 1], MeldType::AddedQuad).unwrap();
    assert_eq!(quad.num_tiles(), 4);
    assert!(quad.is_open());
}

#[test]
fn meld_from_tile_ids_rejects_wrong_tiles() {
    let err = MahjongMeld::from_tile_ids(&[tid("1m"), tid("2m")], MeldType::ClosedSequence);
    match err {
        Ok(_) => assert!(false),
        Err(e) => assert_eq!(e.message, "Wrong number of tile_ids for MahjongMeld type"),
    }
    assert!(MahjongMeld::from_tile_ids(&[1, 2, 3, 4, 5], MeldType::Isolated).is_err());
}

#[test]
fn meld_types_open_or_closed() {
    assert!(MeldType::OpenTriplet.is_open());
    assert!(MeldType::OpenQuad.is_open());
    assert!(MeldType::AddedQuad.is_open());
    assert!(MeldType::OpenSequence.is_open());
    assert!(!MeldType::ClosedTriplet.is_open());
    assert!(!MeldType::ClosedQuad.is_open());
    assert!(!MeldType::ClosedSequence.is_open());
    assert!(!MeldType::Pair.is_open());
    assert!(!MeldType::Isolated.is_open());
    assert!(is_valid_meld(&[tid("7z")], MeldType::Isolated));
    assert!(!is_valid_meld(&[tid("7z"), tid("7z")], MeldType::Isolated));
}
