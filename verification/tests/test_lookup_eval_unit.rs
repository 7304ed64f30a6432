use gto_cli::hand_evaluator::HandCategory;
use gto_cli::lookup_eval::{category_from_score, evaluate_fast, kickers_from_score};


// Helper: encode cards from notation like "As" = Ace of spades
fn idx(notation: &str) -> u8 {
    let chars: Vec<char> = notation.chars().collect();
    let rank = match chars[0] {
        '2' => 0, '3' => 1, '4' => 2, '5' => 3, '6' => 4,
        '7' => 5, '8' => 6, '9' => 7, 'T' => 8, 'J' => 9,
        'Q' => 10, 'K' => 11, 'A' => 12, _ => panic!("bad rank"),
    };
    let suit = match chars[1] {
        's' => 0, 'h' => 1, 'd' => 2, 'c' => 3, _ => panic!("bad suit"),
    };
    rank * 4 + suit
}

fn ids(cards: &[&str]) -> Vec<u8> {
    cards.iter().map(|s| idx(s)).collect()
}

#[test]
fn royal_flush() {
    let cards = ids(&["As", "Ks", "Qs", "Js", "Ts"]);
    let score = evaluate_fast(&cards);
    assert_eq!(category_from_score(score), HandCategory::RoyalFlush);
}

#[test]
fn straight_flush_7high() {
    let cards = ids(&["7h", "6h", "5h", "4h", "3h"]);
    let score = evaluate_fast(&cards);
    assert_eq!(category_from_score(score), HandCategory::StraightFlush);
}

#[test]
fn steel_wheel() {
    // A-2-3-4-5 of hearts = straight flush, 5-high
    let cards = ids(&["Ah", "2h", "3h", "4h", "5h"]);
    let score = evaluate_fast(&cards);
    assert_eq!(category_from_score(score), HandCategory::StraightFlush);
}

#[test]
fn quads() {
    let cards = ids(&["Ks", "Kh", "Kd", "Kc", "As"]);
    let score = evaluate_fast(&cards);
    assert_eq!(category_from_score(score), HandCategory::FourOfAKind);
}

#[test]
fn full_house() {
    let cards = ids(&["As", "Ah", "Ad", "Ks", "Kh"]);
    let score = evaluate_fast(&cards);
    assert_eq!(category_from_score(score), HandCategory::FullHouse);
}

#[test]
fn flush() {
    let cards = ids(&["As", "Ts", "8s", "5s", "2s"]);
    let score = evaluate_fast(&cards);
    assert_eq!(category_from_score(score), HandCategory::Flush);
}

#[test]
fn straight() {
    let cards = ids(&["9s", "8h", "7d", "6c", "5s"]);
    let score = evaluate_fast(&cards);
    assert_eq!(category_from_score(score), HandCategory::Straight);
}

#[test]
fn wheel_straight() {
    let cards = ids(&["As", "2h", "3d", "4c", "5s"]);
    let score = evaluate_fast(&cards);
    assert_eq!(category_from_score(score), HandCategory::Straight);
}

#[test]
fn trips() {
    let cards = ids(&["Qs", "Qh", "Qd", "Ks", "7h"]);
    let score = evaluate_fast(&cards);
    assert_eq!(category_from_score(score), HandCategory::ThreeOfAKind);
}

#[test]
fn two_pair() {
    let cards = ids(&["As", "Ad", "Kh", "Ks", "Qc"]);
    let score = evaluate_fast(&cards);
    assert_eq!(category_from_score(score), HandCategory::TwoPair);
}

#[test]
fn one_pair() {
    let cards = ids(&["As", "Ah", "Kd", "Qs", "Jh"]);
    let score = evaluate_fast(&cards);
    assert_eq!(category_from_score(score), HandCategory::OnePair);
}

#[test]
fn high_card() {
    let cards = ids(&["As", "Kh", "Qd", "Js", "9c"]);
    let score = evaluate_fast(&cards);
    assert_eq!(category_from_score(score), HandCategory::HighCard);
}

#[test]
fn category_ordering() {
    // Each hand type beats the one below it
    let hands: Vec<(Vec<u8>, HandCategory)> = vec![
        (ids(&["As", "Ks", "Qs", "Js", "Ts"]), HandCategory::RoyalFlush),
        (ids(&["9h", "8h", "7h", "6h", "5h"]), HandCategory::StraightFlush),
        (ids(&["Ks", "Kh", "Kd", "Kc", "As"]), HandCategory::FourOfAKind),
        (ids(&["As", "Ah", "Ad", "Ks", "Kh"]), HandCategory::FullHouse),
        (ids(&["As", "Ts", "8s", "5s", "2s"]), HandCategory::Flush),
        (ids(&["9s", "8h", "7d", "6c", "5s"]), HandCategory::Straight),
        (ids(&["Qs", "Qh", "Qd", "Ks", "7h"]), HandCategory::ThreeOfAKind),
        (ids(&["As", "Ad", "Kh", "Ks", "Qc"]), HandCategory::TwoPair),
        (ids(&["As", "Ah", "Kd", "Qs", "Jh"]), HandCategory::OnePair),
        (ids(&["As", "Kh", "Qd", "Js", "9c"]), HandCategory::HighCard),
    ];

    let scores: Vec<u32> = hands.iter().map(|(h, _)| evaluate_fast(h)).collect();

    for i in 0..scores.len() - 1 {
        assert!(
            scores[i] > scores[i + 1],
            "{:?} (score {}) should beat {:?} (score {})",
            hands[i].1, scores[i], hands[i + 1].1, scores[i + 1]
        );
    }
}

#[test]
fn kicker_resolution_pairs() {
    // AA with K kicker vs AA with Q kicker
    let aak = ids(&["As", "Ah", "Kd", "7s", "3c"]);
    let aaq = ids(&["Ad", "Ac", "Qh", "7d", "3h"]);
    assert!(evaluate_fast(&aak) > evaluate_fast(&aaq));
}

#[test]
fn seven_card_royal_flush() {
    let cards = ids(&["As", "Ks", "Qs", "Js", "Ts", "2h", "3d"]);
    let score = evaluate_fast(&cards);
    assert_eq!(category_from_score(score), HandCategory::RoyalFlush);
}

#[test]
fn seven_card_finds_best() {
    // 7h8h on 6h5h4hAcKd → straight flush beats the straight/pair
    let cards = ids(&["7h", "8h", "6h", "5h", "4h", "Ac", "Kd"]);
    let score = evaluate_fast(&cards);
    assert_eq!(category_from_score(score), HandCategory::StraightFlush);
}

#[test]
fn seven_card_full_house_over_pair() {
    // AhAs on AdKsKh2c3d → full house (AAA-KK)
    let cards = ids(&["Ah", "As", "Ad", "Ks", "Kh", "2c", "3d"]);
    let score = evaluate_fast(&cards);
    assert_eq!(category_from_score(score), HandCategory::FullHouse);
}

#[test]
fn wheel_below_six_high() {
    let wheel = ids(&["As", "2h", "3d", "4c", "5s"]);
    let six_high = ids(&["2s", "3h", "4d", "5c", "6s"]);
    assert!(evaluate_fast(&six_high) > evaluate_fast(&wheel));
}

#[test]
fn seven_card_two_pair_best_kicker() {
    // 7 cards with 3 pairs: should pick best 2 pairs + best kicker
    let cards = ids(&["As", "Ad", "Kh", "Kd", "Qs", "Qd", "Jc"]);
    let score = evaluate_fast(&cards);
    assert_eq!(category_from_score(score), HandCategory::TwoPair);
    let kickers = kickers_from_score(score);
    assert_eq!(kickers[0], 14); // Ace pair
    assert_eq!(kickers[1], 13); // King pair
    assert_eq!(kickers[2], 12); // Queen kicker (from 3rd pair)
}

