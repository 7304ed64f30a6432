use gto_cli::card_encoding::{card_to_index, index_to_card, remaining_deck};
use gto_cli::cards::{Card, Rank, Suit};

#[test]
fn roundtrip() {
    for i in 0..52u8 {
        let card = index_to_card(i);
        assert_eq!(card_to_index(&card), i, "roundtrip failed for index {}", i);
    }
}

#[test]
fn known_cards() {
    // Two of spades = rank 0, suit 0 -> index 0
    assert_eq!(card_to_index(&Card::new(Rank::Two, Suit::Spades)), 0);
    // Ace of clubs = rank 12, suit 3 -> index 51
    assert_eq!(card_to_index(&Card::new(Rank::Ace, Suit::Clubs)), 51);
    // Ace of spades = rank 12, suit 0 -> index 48
    assert_eq!(card_to_index(&Card::new(Rank::Ace, Suit::Spades)), 48);
}

#[test]
fn remaining_deck_size() {
    let dead = vec![0, 1, 2, 3]; // 4 dead cards
    let deck = remaining_deck(&dead);
    assert_eq!(deck.len(), 48);
    assert!(!deck.contains(&0));
    assert!(!deck.contains(&3));
    assert!(deck.contains(&4));
}
