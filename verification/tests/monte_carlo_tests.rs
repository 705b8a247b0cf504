use riichi_bot::mahjong_tile::{
    four_of_each_tile_count_array, get_id_from_tile_text, get_tile_ids_from_string,
    MahjongTileCountArray,
};
use riichi_bot::monte_carlo_analysis::{
    draw_tiles, generate_random_tile_id_rng, remove_tile_ids_from_count_array, run_basic_analysis,
    run_trial, summarize_trials,
};
use riichi_bot::shanten::{remove_tile_id_from_count_array, tiles_to_count_array};

#[test]
fn test_copy_tile_count_array() {
    let mut tile_count_array = MahjongTileCountArray(tiles_to_count_array("135m"));
    let new_count_array = tile_count_array;
    let tile_id_4m = get_id_from_tile_text("4m").unwrap().0;
    assert_eq!(tile_count_array.0[usize::from(tile_id_4m)], 0);
    assert_eq!(new_count_array.0[usize::from(tile_id_4m)], 0);

    tile_count_array.0[usize::from(tile_id_4m)] += 1;
    assert_eq!(tile_count_array.0[usize::from(tile_id_4m)], 1);
    assert_eq!(new_count_array.0[usize::from(tile_id_4m)], 0);
}

#[test]
fn test_manual_copy_tile_count_array() {
    let mut tile_count_array = MahjongTileCountArray(tiles_to_count_array("135m"));
    let mut new_count_array: MahjongTileCountArray = Default::default();
    for tile_id in 0..tile_count_array.0.len() {
        new_count_array.0[tile_id] = tile_count_array.0[tile_id];
    }
    let tile_id_4m = get_id_from_tile_text("4m").unwrap().0;
    assert_eq!(tile_count_array.0[usize::from(tile_id_4m)], 0);
    assert_eq!(new_count_array.0[usize::from(tile_id_4m)], 0);

    tile_count_array.0[usize::from(tile_id_4m)] += 1;
    assert_eq!(tile_count_array.0[usize::from(tile_id_4m)], 1);
    assert_eq!(new_count_array.0[usize::from(tile_id_4m)], 0);
}

#[test]
fn test_basic_analysis() {
    let hand_before_discard = tiles_to_count_array("345m11256p46778s6s");
    let starting_hand = MahjongTileCountArray(remove_tile_id_from_count_array(
        hand_before_discard,
        get_id_from_tile_text("2p").unwrap(),
    ));
    // visible tiles:
    // dora indicator: 6s
    // discard pools:
    // self   (east): 4z2z3z9m9p7z6m2p
    // shimo (south): 8p4z1z2z3p3p9s
    // toimen (west): 4z5z6z3z1s3z7z
    // kami  (north): 4z1z6z5z1s4m9m
    let visible_tiles = get_tile_ids_from_string(
        "6s4z2z3z9m9p7z6m2p8p4z1z2z3p3p9s4z5z6z3z1s3z7z4z1z6z5z1s4m9m",
    );
    let summary = run_basic_analysis(starting_hand, &visible_tiles, 100_000, 12);
    assert_eq!(summary.num_trials, 100_000);
    assert_eq!(summary.max_allowed_draws, 12);
    assert_eq!(summary.count_turns_reached_tenpai.len(), 12);
    let total: u32 = summary.count_turns_reached_tenpai.iter().sum();
    assert_eq!(total, summary.num_times_reached_tenpai);
    let turns: u64 = summary
        .count_turns_reached_tenpai
        .iter()
        .enumerate()
        .map(|(i, c)| (i as u64 + 1) * u64::from(*c))
        .sum();
    assert_eq!(turns, summary.total_num_turns_to_reach_tenpai);
    // with 15 ukiere tiles among 93 unseen, most trials reach tenpai within 12 draws
    assert!(summary.num_times_reached_tenpai > 80_000);
    assert!(summary.num_times_reached_tenpai <= 100_000);
}

#[test]
fn test_random_tile_distribution() {
    let mut visible_tile_ids = get_tile_ids_from_string(
        "6s4z2z3z9m9p7z6m2p8p4z1z2z3p3p9s4z5z6z3z1s3z7z4z1z6z5z1s4m9m",
    );
    // hand after discarding 2p
    let mut hand_tile_ids = get_tile_ids_from_string("345m1156p46778s6s");
    visible_tile_ids.append(&mut hand_tile_ids);

    let remaining_tile_count =
        remove_tile_ids_from_count_array(four_of_each_tile_count_array(), &visible_tile_ids);
    println!("actual remaining tile count:\n{:?}", remaining_tile_count);
    let expected_remaining_tile_count: MahjongTileCountArray = MahjongTileCountArray([
        4, 4, 3, 2, 3, 3, 4, 4, 2, // manzu
        2, 3, 2, 4, 3, 3, 4, 3, 3, // pinzu
        2, 4, 4, 3, 4, 1, 2, 3, 3, // souzu
        2, 2, 1, 0, 2, 2, 2, // honor
    ]);
    let tile_id_4p = get_id_from_tile_text("4p").unwrap().0;
    let tile_id_7p = get_id_from_tile_text("7p").unwrap().0;
    let tile_id_5s = get_id_from_tile_text("5s").unwrap().0;
    let tile_id_8s = get_id_from_tile_text("8s").unwrap().0;
    assert_eq!(remaining_tile_count, expected_remaining_tile_count);
    assert_eq!(
        remaining_tile_count.0[usize::from(tile_id_4p)]
            + remaining_tile_count.0[usize::from(tile_id_7p)]
            + remaining_tile_count.0[usize::from(tile_id_5s)]
            + remaining_tile_count.0[usize::from(tile_id_8s)],
        15
    );

    let mut generated_tile_count_array = [0u32; 34]; // need u32 here to count instances
    let num_iters = 1_000_000;
    for _i in 0..num_iters {
        let generated_tile_id = generate_random_tile_id_rng(remaining_tile_count);
        generated_tile_count_array[usize::from(generated_tile_id.0)] += 1;
    }
    println!(
        "generated tile distribution: over {} iterations\n{:?}",
        num_iters, generated_tile_count_array
    );
    let mut num_ukiere_iters: u32 = 0;
    num_ukiere_iters += generated_tile_count_array[usize::from(tile_id_4p)];
    num_ukiere_iters += generated_tile_count_array[usize::from(tile_id_7p)];
    num_ukiere_iters += generated_tile_count_array[usize::from(tile_id_5s)];
    num_ukiere_iters += generated_tile_count_array[usize::from(tile_id_8s)];
    println!(
        "sampled percentage of drawing an ukiere tile = {:.2}%",
        (num_ukiere_iters as f64) / (num_iters as f64) * 100.0
    );
    println!(
        "expected percentage (15 / 93) = {:.2}%",
        15.0 / 93.0 * 100.0
    );
    // only tiles with copies remaining are ever drawn
    for t in 0..34 {
        if remaining_tile_count.0[t] == 0 {
            assert_eq!(generated_tile_count_array[t], 0);
        }
    }
}

#[test]
fn trial_reaches_tenpai_on_the_first_ukiere_draw() {
    let ukiere = get_tile_ids_from_string("1m4p");
    let options = vec![
        // after drawing 1m: discard 9m, waiting on 2m (one 2m seen), or discard 8m, waiting on 2m5m
        vec![
            (
                get_id_from_tile_text("9m").unwrap(),
                get_tile_ids_from_string("2m"),
                3u16,
            ),
            (
                get_id_from_tile_text("8m").unwrap(),
                get_tile_ids_from_string("2m5m"),
                7u16,
            ),
        ],
        // after drawing 4p: no options
        vec![],
    ];
    let seen = get_tile_ids_from_string("2m");
    // the 1m is the first ukiere draw, on draw 2; the draws so far show one 5m
    let draws = get_tile_ids_from_string("5m1m4p");
    assert_eq!(run_trial(&ukiere, &options, &seen, &draws), Some((2, 6)));
    // no ukiere tile among the draws
    let draws = get_tile_ids_from_string("5m6m7z");
    assert_eq!(run_trial(&ukiere, &options, &seen, &draws), None);
    // the 4p first: its (empty) options leave nothing
    let draws = get_tile_ids_from_string("4p1m");
    assert_eq!(run_trial(&ukiere, &options, &seen, &draws), Some((1, 0)));
}

#[test]
fn drawn_tiles_come_from_the_unseen_ones() {
    let mut remaining = MahjongTileCountArray([0; 34]);
    remaining.0[3] = 2;
    remaining.0[30] = 1;
    let draws = draw_tiles(remaining, 3);
    assert_eq!(draws.len(), 3);
    assert_eq!(draws.iter().filter(|t| t.0 == 3).count(), 2);
    assert_eq!(draws.iter().filter(|t| t.0 == 30).count(), 1);
}

#[test]
fn analysis_runs_when_an_ukiere_tile_is_all_visible() {
    // 345m1156p46778s6s waits to improve on 4p, 7p, 5s and 8s; every 4p is visible
    let starting_hand = MahjongTileCountArray(tiles_to_count_array("345m1156p46778s6s"));
    let visible_tiles = get_tile_ids_from_string("4p4p4p4p1z2z");
    let summary = run_basic_analysis(starting_hand, &visible_tiles, 2_000, 12);
    assert_eq!(summary.num_trials, 2_000);
    assert_eq!(summary.count_turns_reached_tenpai.len(), 12);
    let total: u32 = summary.count_turns_reached_tenpai.iter().sum();
    assert_eq!(total, summary.num_times_reached_tenpai);
    assert!(summary.num_times_reached_tenpai > 0);
}

#[test]
fn summary_counts_the_outcomes_of_given_trials() {
    let ukiere = get_tile_ids_from_string("1m4p");
    let options = vec![
        vec![(
            get_id_from_tile_text("8m").unwrap(),
            get_tile_ids_from_string("2m5m"),
            7u16,
        )],
        vec![],
    ];
    let seen = get_tile_ids_from_string("2m");
    let trials = vec![
        get_tile_ids_from_string("5m1m4p"), // tenpai on draw 2, 6 unseen (one 2m, one 5m seen)
        get_tile_ids_from_string("5m6m7z"), // no tenpai
        get_tile_ids_from_string("1m3s3s"), // tenpai on draw 1, 7 unseen
        get_tile_ids_from_string("6m5m1m"), // tenpai on draw 3, 6 unseen
    ];
    let summary = summarize_trials(&ukiere, &options, &seen, &trials, 3);
    assert_eq!(summary.num_trials, 4);
    assert_eq!(summary.max_allowed_draws, 3);
    assert_eq!(summary.num_times_reached_tenpai, 3);
    assert_eq!(summary.count_turns_reached_tenpai, vec![1, 1, 1]);
    assert_eq!(summary.total_num_turns_to_reach_tenpai, 6);
    assert_eq!(summary.total_num_ukiere_at_tenpai, 19);
}
