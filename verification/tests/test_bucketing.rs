use gto_cli::bucketing::{
    assign_buckets, buckets_from_equities, combo_equity_vs_random, equity_lt, sample_points, Equity,
};
use gto_cli::card_encoding::card_to_index;
use gto_cli::cards::{parse_board, parse_card};

fn board_indices(s: &str) -> Vec<u8> {
    parse_board(s).unwrap().iter().map(|c| card_to_index(c)).collect()
}

fn as_fraction(e: Equity) -> f64 {
    if e.total == 0 {
        0.5
    } else {
        e.half_wins as f64 / (2.0 * e.total as f64)
    }
}

#[test]
fn river_equity_aces_vs_random() {
    // AA on a low board should have very high equity
    let board = board_indices("2s3h4d5c8h");
    // As Ac
    let c0 = card_to_index(&parse_card("As").unwrap());
    let c1 = card_to_index(&parse_card("Ac").unwrap());

    let eq = as_fraction(combo_equity_vs_random(c0, c1, &board, 0));
    assert!(eq > 0.7, "AA should have high equity on low board, got {:.3}", eq);
}

#[test]
fn river_equity_low_hand() {
    // 72o on a high board should have low equity
    let board = board_indices("AsKdQc9h6s");
    let c0 = card_to_index(&parse_card("7h").unwrap());
    let c1 = card_to_index(&parse_card("2c").unwrap());

    let eq = as_fraction(combo_equity_vs_random(c0, c1, &board, 0));
    assert!(eq < 0.5, "72o should have low equity on AKQ96 board, got {:.3}", eq);
}

#[test]
fn flop_equity_reasonable() {
    let board = board_indices("Ks9d4c");
    let c0 = card_to_index(&parse_card("As").unwrap());
    let c1 = card_to_index(&parse_card("Ah").unwrap());

    let eq = as_fraction(combo_equity_vs_random(c0, c1, &board, 500));
    assert!(eq > 0.5, "AA should have >50% equity on flop, got {:.3}", eq);
    assert!(eq < 1.0, "Equity should be <1.0, got {:.3}", eq);
}

#[test]
fn bucket_assignment_correct_count() {
    let board = board_indices("2s3h4d5c8h");
    let combos: Vec<(u8, u8)> = vec![(48, 49), (44, 45), (40, 41), (36, 37)]; // 4 combos
    let buckets = assign_buckets(&combos, &board, 2, 0);
    assert_eq!(buckets.len(), 4);
    // Should have 2 in each bucket
    let b0_count = buckets.iter().filter(|&&b| b == 0).count();
    let b1_count = buckets.iter().filter(|&&b| b == 1).count();
    assert_eq!(b0_count, 2);
    assert_eq!(b1_count, 2);
}

#[test]
fn bucket_more_buckets_than_combos() {
    let board = board_indices("2s3h4d5c8h");
    let combos: Vec<(u8, u8)> = vec![(48, 49), (44, 45)]; // 2 combos
    let buckets = assign_buckets(&combos, &board, 10, 0);
    assert_eq!(buckets.len(), 2);
    // Each combo should be in its own bucket (0 and 1)
    assert!(buckets[0] != buckets[1] || combos.len() <= 1);
}

#[test]
fn bucket_empty_combos() {
    let board = board_indices("2s3h4d5c8h");
    let combos: Vec<(u8, u8)> = vec![];
    let buckets = assign_buckets(&combos, &board, 10, 0);
    assert!(buckets.is_empty());
}

// -----------------------------------------------------------------------
// Further cases
// -----------------------------------------------------------------------

#[test]
fn river_equity_counts_every_opponent() {
    // 45 live cards: 990 opponent hands.
    let board = board_indices("2s3h4d5c8h");
    let c0 = card_to_index(&parse_card("As").unwrap());
    let c1 = card_to_index(&parse_card("Ac").unwrap());
    let e = combo_equity_vs_random(c0, c1, &board, 0);
    assert_eq!(e.total, 990);
    assert!(e.half_wins <= 2 * e.total);
}

#[test]
fn river_equity_of_the_nuts_is_exact() {
    // Royal flush in spades: no opponent ties or wins.
    let board = board_indices("AsKsQs2h3d");
    let c0 = card_to_index(&parse_card("Js").unwrap());
    let c1 = card_to_index(&parse_card("Ts").unwrap());
    let e = combo_equity_vs_random(c0, c1, &board, 0);
    assert_eq!(e, Equity { half_wins: 1980, total: 990 });
}

#[test]
fn river_equity_when_the_board_plays_is_one_half() {
    // Royal flush on the board: every opponent ties.
    let board = board_indices("AsKsQsJsTs");
    let c0 = card_to_index(&parse_card("2h").unwrap());
    let c1 = card_to_index(&parse_card("3d").unwrap());
    let e = combo_equity_vs_random(c0, c1, &board, 0);
    assert_eq!(e, Equity { half_wins: 990, total: 990 });
}

#[test]
fn sampled_equity_counts_the_samples() {
    let board = board_indices("Ks9d4c");
    let c0 = card_to_index(&parse_card("As").unwrap());
    let c1 = card_to_index(&parse_card("Ah").unwrap());
    let e = combo_equity_vs_random(c0, c1, &board, 400);
    assert_eq!(e.total, 400);
    assert!(e.half_wins <= 800);
    // The deals differ from sample to sample: aces neither win them all
    // nor lose them all nor tie them all.
    assert!(e.half_wins > 0 && e.half_wins < 800 && e.half_wins != 400);
}

#[test]
fn sampled_equity_without_samples_is_empty() {
    let board = board_indices("Ks9d4c2h");
    let e = combo_equity_vs_random(48, 49, &board, 0);
    assert_eq!(e, Equity { half_wins: 0, total: 0 });
}

#[test]
fn sample_points_of_a_given_deal() {
    // Board Ks 9d 4c, runout 2h 3d; aces against queens, then the reverse.
    let board = board_indices("Ks9d4c");
    let c = |s: &str| card_to_index(&parse_card(s).unwrap());
    let drawn = vec![c("2h"), c("3d"), c("Qs"), c("Qh")];
    assert_eq!(sample_points(c("As"), c("Ah"), &board, &drawn), 2);
    let drawn = vec![c("2h"), c("3d"), c("As"), c("Ah")];
    assert_eq!(sample_points(c("Qs"), c("Qh"), &board, &drawn), 0);
    // Ace-queen against ace-queen: a tie.
    let drawn = vec![c("2h"), c("3d"), c("Ad"), c("Qd")];
    assert_eq!(sample_points(c("As"), c("Qs"), &board, &drawn), 1);
}

#[test]
fn equities_compare_as_fractions() {
    let third = Equity { half_wins: 2, total: 3 }; // 1/3
    let half = Equity { half_wins: 5, total: 5 }; // 1/2
    let nothing = Equity { half_wins: 0, total: 0 }; // counts as 1/2
    let two_thirds = Equity { half_wins: 4, total: 3 };
    assert!(equity_lt(third, half));
    assert!(!equity_lt(half, third));
    assert!(!equity_lt(half, nothing));
    assert!(!equity_lt(nothing, half));
    assert!(equity_lt(nothing, two_thirds));
    assert!(equity_lt(third, nothing));
}

#[test]
fn buckets_follow_the_order_of_equity() {
    let e = |w: u64| Equity { half_wins: w, total: 100 };
    // Places in ascending order: 40 (0), 50 (1), 50 (2, later of the two), 90 (3), 120 (4), 200 (5).
    let equities = vec![e(90), e(50), e(200), e(40), e(50), e(120)];
    assert_eq!(buckets_from_equities(&equities, 3), vec![1, 0, 2, 0, 1, 2]);
    assert_eq!(buckets_from_equities(&equities, 1), vec![0, 0, 0, 0, 0, 0]);
    assert_eq!(buckets_from_equities(&equities, 6), vec![3, 1, 5, 0, 2, 4]);
    // More buckets than hands: one bucket for each hand.
    assert_eq!(buckets_from_equities(&equities, 100), vec![3, 1, 5, 0, 2, 4]);
    // Four hands in three buckets: places 0..3 fall into 0, 0, 1, 2.
    let four = vec![e(10), e(20), e(30), e(40)];
    assert_eq!(buckets_from_equities(&four, 3), vec![0, 0, 1, 2]);
}

#[test]
fn river_buckets_are_exact() {
    // Aces, kings, queens and jacks as overpairs on a low board: higher
    // pairs have higher equity.
    let board = board_indices("2s3h4d5c8h");
    let combos: Vec<(u8, u8)> = vec![(48, 49), (44, 45), (40, 41), (36, 37)];
    assert_eq!(assign_buckets(&combos, &board, 2, 0), vec![1, 1, 0, 0]);
    assert_eq!(assign_buckets(&combos, &board, 4, 0), vec![3, 2, 1, 0]);
}
