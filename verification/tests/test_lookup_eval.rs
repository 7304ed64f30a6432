//! Cross-validation between the fast evaluator and a plain reference that
//! ranks every five-card subset. They must agree on every hand category,
//! kicker ordering, and comparison result.

use gto_cli::card_encoding::{card_to_index, index_to_card};
use rand::seq::SliceRandom;
use std::time::Instant;
use gto_cli::cards::{parse_board, parse_card, Card};
use gto_cli::hand_evaluator::HandCategory;
use gto_cli::lookup_eval::{
    category_from_score, evaluate_fast, evaluate_non_flush, evaluate_with_table, straight_high,
    StraightTable,
};

fn c(notation: &str) -> Card {
    parse_card(notation).unwrap()
}

fn fast_score(hole: &[Card], board: &[Card]) -> u32 {
    let indices: Vec<u8> = hole.iter().chain(board.iter()).map(card_to_index).collect();
    evaluate_fast(&indices)
}

// -------------------------------------------------------------------------
// Reference: rank five cards by the book, take the best of all subsets
// -------------------------------------------------------------------------

/// Category number (0 high card .. 9 royal flush) and tie-break ranks of
/// exactly five cards.
fn rank_five(cards: &[u8; 5]) -> (u8, Vec<u8>) {
    let mut ranks: Vec<u8> = cards.iter().map(|&x| x / 4 + 2).collect();
    ranks.sort_by(|a, b| b.cmp(a));
    let flush = cards.iter().all(|&x| x % 4 == cards[0] % 4);
    let mut distinct = ranks.clone();
    distinct.dedup();
    let straight_top = if distinct.len() == 5 && ranks[0] - ranks[4] == 4 {
        Some(ranks[0])
    } else if ranks == vec![14, 5, 4, 3, 2] {
        Some(5)
    } else {
        None
    };
    // Ranks grouped by how often they occur: most frequent first, then high.
    let mut groups: Vec<(usize, u8)> = distinct
        .iter()
        .map(|&r| (ranks.iter().filter(|&&x| x == r).count(), r))
        .collect();
    groups.sort_by(|a, b| b.cmp(a));
    let by_group: Vec<u8> = groups.iter().map(|g| g.1).collect();
    let shape: Vec<usize> = groups.iter().map(|g| g.0).collect();
    match (flush, straight_top) {
        (true, Some(14)) => return (9, vec![14]),
        (true, Some(top)) => return (8, vec![top]),
        _ => {}
    }
    if shape == vec![4, 1] {
        (7, by_group)
    } else if shape == vec![3, 2] {
        (6, by_group)
    } else if flush {
        (5, ranks)
    } else if let Some(top) = straight_top {
        (4, vec![top])
    } else if shape == vec![3, 1, 1] {
        (3, by_group)
    } else if shape == vec![2, 2, 1] {
        (2, by_group)
    } else if shape == vec![2, 1, 1, 1] {
        (1, by_group)
    } else {
        (0, ranks)
    }
}

/// The best five-card hand among 5 to 7 cards.
fn reference_rank(cards: &[u8]) -> (u8, Vec<u8>) {
    let n = cards.len();
    let mut best: Option<(u8, Vec<u8>)> = None;
    for a in 0..n {
        for b in a + 1..n {
            for d in b + 1..n {
                for e in d + 1..n {
                    for f in e + 1..n {
                        let five = [cards[a], cards[b], cards[d], cards[e], cards[f]];
                        let r = rank_five(&five);
                        if best.as_ref().map_or(true, |x| r > *x) {
                            best = Some(r);
                        }
                    }
                }
            }
        }
    }
    best.unwrap()
}

fn category_of_number(n: u8) -> HandCategory {
    match n {
        9 => HandCategory::RoyalFlush,
        8 => HandCategory::StraightFlush,
        7 => HandCategory::FourOfAKind,
        6 => HandCategory::FullHouse,
        5 => HandCategory::Flush,
        4 => HandCategory::Straight,
        3 => HandCategory::ThreeOfAKind,
        2 => HandCategory::TwoPair,
        1 => HandCategory::OnePair,
        _ => HandCategory::HighCard,
    }
}

fn reference_category(hole: &[Card], board: &[Card]) -> HandCategory {
    let indices: Vec<u8> = hole.iter().chain(board.iter()).map(card_to_index).collect();
    category_of_number(reference_rank(&indices).0)
}

fn reference_compare(h1: &[Card], h2: &[Card], board: &[Card]) -> i32 {
    let i1: Vec<u8> = h1.iter().chain(board.iter()).map(card_to_index).collect();
    let i2: Vec<u8> = h2.iter().chain(board.iter()).map(card_to_index).collect();
    let r1 = reference_rank(&i1);
    let r2 = reference_rank(&i2);
    if r1 > r2 {
        1
    } else if r1 < r2 {
        -1
    } else {
        0
    }
}

// -------------------------------------------------------------------------
// Cross-validation: reference and evaluator agree on category
// -------------------------------------------------------------------------

fn assert_same_category(hole: &[Card], board: &[Card], label: &str) {
    let by_the_book = reference_category(hole, board);
    let score = fast_score(hole, board);
    let fast = category_from_score(score);
    assert_eq!(by_the_book, fast, "{}: reference={:?} fast={:?}", label, by_the_book, fast);
}

#[test]
fn cross_validate_royal_flush() {
    let hole = vec![c("As"), c("Ks")];
    let board = parse_board("QsTsJs2h3d").unwrap();
    assert_same_category(&hole, &board, "royal flush");
    assert_eq!(reference_category(&hole, &board), HandCategory::RoyalFlush);
}

#[test]
fn cross_validate_straight_flush() {
    let hole = vec![c("9h"), c("8h")];
    let board = parse_board("7h6h5hAcKd").unwrap();
    assert_same_category(&hole, &board, "straight flush");
    assert_eq!(reference_category(&hole, &board), HandCategory::StraightFlush);
}

#[test]
fn cross_validate_quads() {
    let hole = vec![c("Ks"), c("Kh")];
    let board = parse_board("KdKc5s2h3d").unwrap();
    assert_same_category(&hole, &board, "quads");
    assert_eq!(reference_category(&hole, &board), HandCategory::FourOfAKind);
}

#[test]
fn cross_validate_full_house() {
    let hole = vec![c("As"), c("Ah")];
    let board = parse_board("AdKsKh2c3d").unwrap();
    assert_same_category(&hole, &board, "full house");
    assert_eq!(reference_category(&hole, &board), HandCategory::FullHouse);
}

#[test]
fn cross_validate_flush() {
    let hole = vec![c("As"), c("Ts")];
    let board = parse_board("8s5s2sKdQh").unwrap();
    assert_same_category(&hole, &board, "flush");
    assert_eq!(reference_category(&hole, &board), HandCategory::Flush);
}

#[test]
fn cross_validate_straight() {
    let hole = vec![c("9s"), c("8h")];
    let board = parse_board("7d6c5sAhKd").unwrap();
    assert_same_category(&hole, &board, "straight");
    assert_eq!(reference_category(&hole, &board), HandCategory::Straight);
}

#[test]
fn cross_validate_wheel() {
    let hole = vec![c("As"), c("2h")];
    let board = parse_board("3d4c5sKhQd").unwrap();
    assert_same_category(&hole, &board, "wheel");
    assert_eq!(reference_category(&hole, &board), HandCategory::Straight);
}

#[test]
fn cross_validate_trips() {
    let hole = vec![c("Qs"), c("Qh")];
    let board = parse_board("Qd7s3h2cKd").unwrap();
    assert_same_category(&hole, &board, "trips");
    assert_eq!(reference_category(&hole, &board), HandCategory::ThreeOfAKind);
}

#[test]
fn cross_validate_two_pair() {
    let hole = vec![c("As"), c("Kh")];
    let board = parse_board("AdKs5c2h3d").unwrap();
    assert_same_category(&hole, &board, "two pair");
    assert_eq!(reference_category(&hole, &board), HandCategory::TwoPair);
}

#[test]
fn cross_validate_one_pair() {
    let hole = vec![c("As"), c("Ah")];
    let board = parse_board("Kd7s3c2h5d").unwrap();
    assert_same_category(&hole, &board, "one pair");
    assert_eq!(reference_category(&hole, &board), HandCategory::OnePair);
}

#[test]
fn cross_validate_high_card() {
    let hole = vec![c("As"), c("Kh")];
    let board = parse_board("Qd9s3c2h5d").unwrap();
    assert_same_category(&hole, &board, "high card");
    assert_eq!(reference_category(&hole, &board), HandCategory::HighCard);
}

// -------------------------------------------------------------------------
// Cross-validation: reference and evaluator agree on comparison results
// -------------------------------------------------------------------------

fn fast_compare(idx1: &[u8], idx2: &[u8]) -> i32 {
    let s1 = evaluate_fast(idx1);
    let s2 = evaluate_fast(idx2);
    if s1 > s2 {
        1
    } else if s1 < s2 {
        -1
    } else {
        0
    }
}

fn assert_same_comparison(h1: &[Card], h2: &[Card], board: &[Card], label: &str) -> i32 {
    let reference_cmp = reference_compare(h1, h2, board);

    let idx1: Vec<u8> = h1.iter().chain(board.iter()).map(card_to_index).collect();
    let idx2: Vec<u8> = h2.iter().chain(board.iter()).map(card_to_index).collect();
    let fast_cmp = fast_compare(&idx1, &idx2);

    assert_eq!(
        reference_cmp,
        fast_cmp,
        "{}: reference={} fast={} (categories: h1={:?} h2={:?}, scores: h1={} h2={})",
        label,
        reference_cmp,
        fast_cmp,
        reference_category(h1, board),
        reference_category(h2, board),
        evaluate_fast(&idx1),
        evaluate_fast(&idx2)
    );
    fast_cmp
}

#[test]
fn cross_cmp_flush_beats_straight() {
    let board = parse_board("7s6s5s4dAh").unwrap();
    let r = assert_same_comparison(&[c("As"), c("2s")], &[c("8h"), c("9h")], &board, "flush vs straight");
    assert_eq!(r, 1);
}

#[test]
fn cross_cmp_higher_pair_wins() {
    let board = parse_board("2s5d8cTh3d").unwrap();
    let r = assert_same_comparison(&[c("As"), c("Ah")], &[c("Ks"), c("Kh")], &board, "AA vs KK on board");
    assert_eq!(r, 1);
}

#[test]
fn cross_cmp_kicker_decides() {
    let board = parse_board("As5d8cTh3d").unwrap();
    let r = assert_same_comparison(&[c("Ad"), c("Kh")], &[c("Ah"), c("Qd")], &board, "AK vs AQ kicker");
    assert_eq!(r, 1);
}

#[test]
fn cross_cmp_tie() {
    let board = parse_board("AsKdQhJsTs").unwrap();
    let r = assert_same_comparison(&[c("2h"), c("3d")], &[c("4h"), c("5d")], &board, "board plays tie");
    assert_eq!(r, 0);
}

#[test]
fn cross_cmp_two_pair_kicker() {
    let board = parse_board("AsAd5s5d2c").unwrap();
    let r = assert_same_comparison(&[c("Kh"), c("3c")], &[c("Qh"), c("3d")], &board, "AA55K vs AA55Q");
    assert_eq!(r, 1);
}

#[test]
fn cross_cmp_full_house_pair_rank() {
    let board = parse_board("AsAhAd2c3d").unwrap();
    let r = assert_same_comparison(&[c("Ks"), c("Kh")], &[c("Qs"), c("Qh")], &board, "AAAKK vs AAAQQ");
    assert_eq!(r, 1);
}

#[test]
fn cross_cmp_trips_second_kicker() {
    let board = parse_board("AsAhAdKc2s").unwrap();
    let r = assert_same_comparison(
        &[c("Qh"), c("3d")],
        &[c("Jh"), c("4d")],
        &board,
        "trips A with Q vs J kicker",
    );
    assert_eq!(r, 1);
}

// -------------------------------------------------------------------------
// Random 7-card hands: reference and evaluator agree
// -------------------------------------------------------------------------

#[test]
fn cross_validate_1000_random_comparisons() {

    let mut rng = rand::thread_rng();
    let full_deck: Vec<u8> = (0..52).collect();

    for _ in 0..1000 {
        let mut deck = full_deck.clone();
        deck.shuffle(&mut rng);

        // Deal two 2-card hands + 5-card board
        let h1_idx = [deck[0], deck[1]];
        let h2_idx = [deck[2], deck[3]];
        let board_idx = [deck[4], deck[5], deck[6], deck[7], deck[8]];

        let h1_cards: Vec<Card> = h1_idx.iter().map(|&i| index_to_card(i)).collect();
        let h2_cards: Vec<Card> = h2_idx.iter().map(|&i| index_to_card(i)).collect();
        let board_cards: Vec<Card> = board_idx.iter().map(|&i| index_to_card(i)).collect();

        let all1: Vec<u8> = h1_idx.iter().chain(board_idx.iter()).copied().collect();
        let all2: Vec<u8> = h2_idx.iter().chain(board_idx.iter()).copied().collect();
        // Reference comparison
        let reference_cmp = reference_compare(&h1_cards, &h2_cards, &board_cards);

        // Evaluator comparison
        let s1 = evaluate_fast(&all1);
        let s2 = evaluate_fast(&all2);
        let fast_cmp = fast_compare(&all1, &all2);

        assert_eq!(
            reference_cmp, fast_cmp,
            "Mismatch on h1={:?} h2={:?} board={:?}: reference={} fast={} (scores {} vs {})",
            h1_cards, h2_cards, board_cards, reference_cmp, fast_cmp, s1, s2
        );
        assert_eq!(category_from_score(s1), reference_category(&h1_cards, &board_cards));
    }
}

// -------------------------------------------------------------------------
// Benchmark-style: evaluate many hands to confirm speed
// -------------------------------------------------------------------------

#[test]
fn speed_sanity_check() {

    let mut rng = rand::thread_rng();
    let full_deck: Vec<u8> = (0..52).collect();
    let n = 100_000;

    let start = Instant::now();
    for _ in 0..n {
        let mut deck = full_deck.clone();
        deck.shuffle(&mut rng);
        let cards: [u8; 7] = [deck[0], deck[1], deck[2], deck[3], deck[4], deck[5], deck[6]];
        let _ = evaluate_fast(&cards);
    }
    let elapsed = start.elapsed();
    let per_sec = n as f64 / elapsed.as_secs_f64();

    // Includes the shuffle; just check it doesn't catastrophically regress.
    println!(
        "Fast evaluator: {:.0} evals/sec ({:.2}ms for {})",
        per_sec,
        elapsed.as_secs_f64() * 1000.0,
        n
    );
    assert!(per_sec > 10_000.0, "Expected >10K evals/sec even in debug, got {:.0}", per_sec);
}

// -------------------------------------------------------------------------
// Further cases
// -------------------------------------------------------------------------

fn idx(notation: &str) -> u8 {
    card_to_index(&c(notation))
}

fn ids(cards: &[&str]) -> Vec<u8> {
    cards.iter().map(|s| idx(s)).collect()
}

#[test]
fn exact_scores() {
    // category << 20 | five 4-bit rank fields
    assert_eq!(evaluate_fast(&ids(&["As", "Ks", "Qs", "Js", "Ts"])), 0x9E0000);
    assert_eq!(evaluate_fast(&ids(&["7h", "6h", "5h", "4h", "3h"])), 0x870000);
    assert_eq!(evaluate_fast(&ids(&["Ah", "2h", "3h", "4h", "5h"])), 0x850000);
    assert_eq!(evaluate_fast(&ids(&["Ks", "Kh", "Kd", "Kc", "As"])), 0x7DE000);
    assert_eq!(evaluate_fast(&ids(&["As", "Ah", "Ad", "Ks", "Kh"])), 0x6ED000);
    assert_eq!(evaluate_fast(&ids(&["As", "Ts", "8s", "5s", "2s"])), 0x5EA852);
    assert_eq!(evaluate_fast(&ids(&["9s", "8h", "7d", "6c", "5s"])), 0x490000);
    assert_eq!(evaluate_fast(&ids(&["As", "2h", "3d", "4c", "5s"])), 0x450000);
    assert_eq!(evaluate_fast(&ids(&["Qs", "Qh", "Qd", "Ks", "7h"])), 0x3CD700);
    assert_eq!(evaluate_fast(&ids(&["As", "Ad", "Kh", "Ks", "Qc"])), 0x2EDC00);
    assert_eq!(evaluate_fast(&ids(&["As", "Ah", "Kd", "Qs", "Jh"])), 0x1EDCB0);
    assert_eq!(evaluate_fast(&ids(&["As", "Kh", "Qd", "Js", "9c"])), 0x0EDCB9);
}

#[test]
fn six_card_hands() {
    // Six cards: the best five count.
    assert_eq!(evaluate_fast(&ids(&["As", "Ah", "Kd", "Qs", "Jh", "2c"])), 0x1EDCB0);
    assert_eq!(evaluate_fast(&ids(&["2s", "3h", "4d", "5c", "6s", "Ah"])), 0x460000);
    assert_eq!(evaluate_fast(&ids(&["2s", "4s", "6s", "8s", "Ts", "Qs"])), 0x5CA864);
}

#[test]
fn seven_cards_two_trips_make_a_full_house() {
    let score = evaluate_fast(&ids(&["As", "Ah", "Ad", "Ks", "Kh", "Kd", "2c"]));
    assert_eq!(score, 0x6ED000);
}

#[test]
fn quads_take_the_best_card_beside_them_as_second_rank() {
    // Kings with three deuces: the deuce.
    assert_eq!(evaluate_fast(&ids(&["Ks", "Kh", "Kd", "Kc", "2s", "2h", "2d"])), 0x7D2000);
    // Kings with a pair of threes and an ace: the ace.
    assert_eq!(evaluate_fast(&ids(&["Ks", "Kh", "Kd", "Kc", "3s", "3h", "As"])), 0x7DE000);
    // Kings with a pair of deuces and an ace: the ace, as with the ace alone.
    assert_eq!(evaluate_fast(&[44, 45, 46, 47, 0, 1, 48]), 0x7DE000);
    assert_eq!(evaluate_fast(&[44, 45, 46, 47, 48]), 0x7DE000);
    // The pair where it is higher than the single card.
    assert_eq!(evaluate_fast(&ids(&["Ks", "Kh", "Kd", "Kc", "Qs", "Qh", "3s"])), 0x7DC000);
    // Kings with single cards only: the best of them.
    assert_eq!(evaluate_fast(&ids(&["Ks", "Kh", "Kd", "Kc", "3s", "9h", "As"])), 0x7DE000);
    // Six cards: four deuces, a pair of fives.
    assert_eq!(evaluate_fast(&ids(&["2s", "2h", "2d", "2c", "5s", "5h"])), 0x725000);
}

#[test]
fn quads_order_and_ties_follow_the_kicker() {
    let with_ace = evaluate_fast(&ids(&["Ks", "Kh", "Kd", "Kc", "2s", "2h", "As"]));
    let with_queen = evaluate_fast(&ids(&["Ks", "Kh", "Kd", "Kc", "Qs"]));
    let with_three = evaluate_fast(&ids(&["Ks", "Kh", "Kd", "Kc", "2s", "2h", "3s"]));
    assert!(with_ace > with_queen);
    assert!(with_queen > with_three);
    assert_eq!(with_three, 0x7D3000);
    // From the counts of the ranks: two deuces, four kings, one ace.
    let counts: [u8; 13] = [2, 0, 0, 0, 0, 0, 0, 0, 0, 0, 0, 4, 1];
    assert_eq!(evaluate_non_flush(&counts), 0x7DE000);
}

#[test]
fn every_hand_with_quads_on_the_board_equals_its_best_five() {
    // Four kings and a three on the board, every pair of hole cards.
    let board = ids(&["Ks", "Kh", "Kd", "Kc", "3s"]);
    let live: Vec<u8> = (0..52u8).filter(|c| !board.contains(c)).collect();
    for (i, &a) in live.iter().enumerate() {
        for &b in &live[i + 1..] {
            let mut cards = vec![a, b];
            cards.extend_from_slice(&board);
            let (category, ranks) = reference_rank(&cards);
            assert_eq!(category, 7);
            let expected = 0x700000 | (ranks[0] as u32) << 16 | (ranks[1] as u32) << 12;
            assert_eq!(evaluate_fast(&cards), expected, "cards {:?}", cards);
        }
    }
}

#[test]
fn flush_beats_the_straight_it_hides() {
    // Seven cards with a straight and a flush that is no straight flush.
    let score = evaluate_fast(&ids(&["2s", "3s", "4s", "5s", "6h", "9s", "Kd"]));
    assert_eq!(category_from_score(score), HandCategory::Flush);
    assert_eq!(score, 0x595432);
}

#[test]
fn straight_table_matches_direct_detection_for_all_masks() {
    let table = StraightTable::new();
    for mask in 0u16..8192 {
        // Direct statement: highest run of five, else the wheel.
        let mut expected = 0u8;
        for top in 4..=12u16 {
            if (0..5).all(|k| mask & (1 << (top - k)) != 0) {
                expected = top as u8 + 2;
            }
        }
        if expected == 0 && mask & 0x100F == 0x100F {
            expected = 5;
        }
        assert_eq!(straight_high(mask), expected, "mask {:013b}", mask);
        assert_eq!(table.lookup(mask), expected, "mask {:013b}", mask);
    }
}

#[test]
fn table_and_direct_evaluation_agree() {
    let table = StraightTable::new();
    let mut rng = rand::thread_rng();
    let full_deck: Vec<u8> = (0..52).collect();
    for round in 0..3000 {
        let mut deck = full_deck.clone();
        deck.shuffle(&mut rng);
        let n = 5 + round % 3;
        assert_eq!(evaluate_fast(&deck[..n]), evaluate_with_table(&table, &deck[..n]));
    }
}

#[test]
fn random_hands_equal_their_best_five_cards() {
    let mut rng = rand::thread_rng();
    let full_deck: Vec<u8> = (0..52).collect();
    for round in 0..2000 {
        let mut deck = full_deck.clone();
        deck.shuffle(&mut rng);
        let n = 5 + round % 3;
        let cards = &deck[..n];
        let score = evaluate_fast(cards);
        let mut best = 0u32;
        for a in 0..n {
            for b in a + 1..n {
                for d in b + 1..n {
                    for e in d + 1..n {
                        for f in e + 1..n {
                            let five = [cards[a], cards[b], cards[d], cards[e], cards[f]];
                            best = best.max(evaluate_fast(&five));
                        }
                    }
                }
            }
        }
        assert_eq!(score, best, "cards {:?}", cards);
        // The category in the score is that of the best five by the book.
        assert_eq!(
            category_from_score(score),
            category_of_number(reference_rank(cards).0),
            "cards {:?}",
            cards
        );
        assert_eq!((score >> 20) & 0xF, reference_rank(cards).0 as u32);
    }
}
