use gto_cli::card_encoding::{card_to_index, cards_to_indices, index_to_card, remaining_deck};
use gto_cli::cards::{
    card_chars, class_hands, hand_combos, parse_board, parse_card, parse_hand_class, Card,
    HandClass, NotationError, Rank, Shape, Suit,
};
use gto_cli::ranges::parse_range;
use gto_cli::text::{digit_to_char, push_decimal, push_one_decimal};

#[test]
fn parse_card_reads_rank_and_suit() {
    assert_eq!(parse_card("As"), Ok(Card { rank: Rank::Ace, suit: Suit::Spades }));
    assert_eq!(parse_card("Td"), Ok(Card { rank: Rank::Ten, suit: Suit::Diamonds }));
    assert_eq!(parse_card("2c"), Ok(Card { rank: Rank::Two, suit: Suit::Clubs }));
    assert_eq!(parse_card("9h"), Ok(Card { rank: Rank::Nine, suit: Suit::Hearts }));
}

#[test]
fn parse_card_errors() {
    assert_eq!(parse_card(""), Err(NotationError::BadLength));
    assert_eq!(parse_card("A"), Err(NotationError::BadLength));
    assert_eq!(parse_card("Ash"), Err(NotationError::BadLength));
    assert_eq!(parse_card("1s"), Err(NotationError::BadRank));
    assert_eq!(parse_card("as"), Err(NotationError::BadRank));
    assert_eq!(parse_card("AS"), Err(NotationError::BadSuit));
    assert_eq!(parse_card("Ax"), Err(NotationError::BadSuit));
    // The rank is looked at first.
    assert_eq!(parse_card("xx"), Err(NotationError::BadRank));
}

#[test]
fn parse_board_reads_cards_in_order() {
    let cards = parse_board("2s3h4d5c8s").unwrap();
    assert_eq!(cards_to_indices(&cards), vec![0, 5, 10, 15, 24]);
    assert_eq!(parse_board("").unwrap(), vec![]);
    assert_eq!(parse_board("Ks9d4c").unwrap().len(), 3);
}

#[test]
fn parse_board_errors() {
    assert_eq!(parse_board("2s3"), Err(NotationError::BadLength));
    assert_eq!(parse_board("2s3x"), Err(NotationError::BadSuit));
    assert_eq!(parse_board("2sZh4d"), Err(NotationError::BadRank));
    // The first group that is no card decides.
    assert_eq!(parse_board("2x3hZd"), Err(NotationError::BadSuit));
}

#[test]
fn every_card_survives_writing_and_reading() {
    for i in 0..52u8 {
        let card = index_to_card(i);
        let (r, s) = card_chars(card);
        let text: String = [r, s].iter().collect();
        assert_eq!(parse_card(&text), Ok(card));
        assert_eq!(card_to_index(&card), i);
        assert_eq!(card.rank.value(), i / 4 + 2);
        assert_eq!(card.suit.offset(), i % 4);
        assert_eq!(Rank::from_offset(i / 4), card.rank);
        assert_eq!(Suit::from_offset(i % 4), card.suit);
        assert_eq!(Rank::from_char(card.rank.to_char()), Some(card.rank));
        assert_eq!(Suit::from_char(card.suit.to_char()), Some(card.suit));
    }
    assert_eq!(Rank::from_char('1'), None);
    assert_eq!(Suit::from_char('S'), None);
}

#[test]
fn remaining_deck_is_ascending_and_complete() {
    let deck = remaining_deck(&[]);
    assert_eq!(deck, (0..52).collect::<Vec<u8>>());
    let deck = remaining_deck(&[51, 0, 17, 17, 200]);
    let expected: Vec<u8> = (1..51).filter(|&c| c != 17).collect();
    assert_eq!(deck, expected);
    let all: Vec<u8> = (0..52).collect();
    assert!(remaining_deck(&all).is_empty());
}

#[test]
fn hand_classes() {
    let class = |first, second, shape| Ok(HandClass { first, second, shape });
    assert_eq!(parse_hand_class("AA"), class(Rank::Ace, Rank::Ace, Shape::Pair));
    assert_eq!(parse_hand_class("AKs"), class(Rank::Ace, Rank::King, Shape::Suited));
    assert_eq!(parse_hand_class("72o"), class(Rank::Seven, Rank::Two, Shape::Offsuit));
    assert_eq!(parse_hand_class("T9"), class(Rank::Ten, Rank::Nine, Shape::Any));
    assert_eq!(parse_hand_class("A"), Err(NotationError::BadLength));
    assert_eq!(parse_hand_class("AKso"), Err(NotationError::BadLength));
    assert_eq!(parse_hand_class("A1s"), Err(NotationError::BadRank));
    assert_eq!(parse_hand_class("ak"), Err(NotationError::BadRank));
    assert_eq!(parse_hand_class("AKx"), Err(NotationError::BadSuffix));
    assert_eq!(parse_hand_class("AAs"), Err(NotationError::BadSuffix));
    assert_eq!(parse_hand_class("AAo"), Err(NotationError::BadSuffix));
}

#[test]
fn hand_class_sizes_and_order() {
    assert_eq!(hand_combos("AA").unwrap().len(), 6);
    assert_eq!(hand_combos("AKs").unwrap().len(), 4);
    assert_eq!(hand_combos("AKo").unwrap().len(), 12);
    assert_eq!(hand_combos("AK").unwrap().len(), 16);
    assert_eq!(hand_combos("AKq"), Err(NotationError::BadSuffix));
    let suited = hand_combos("KQs").unwrap();
    for (a, b) in &suited {
        assert_eq!(a.rank, Rank::King);
        assert_eq!(b.rank, Rank::Queen);
        assert_eq!(a.suit, b.suit);
    }
    let offsuit = class_hands(HandClass { first: Rank::King, second: Rank::Queen, shape: Shape::Offsuit });
    assert_eq!(offsuit[0], (Card::new(Rank::King, Suit::Spades), Card::new(Rank::Queen, Suit::Hearts)));
    assert_eq!(offsuit[11], (Card::new(Rank::King, Suit::Clubs), Card::new(Rank::Queen, Suit::Diamonds)));
    for (a, b) in &offsuit {
        assert_ne!(a.suit, b.suit);
    }
}

#[test]
fn range_text_is_split_at_commas() {
    assert_eq!(parse_range("AA,KK"), vec!["AA".to_string(), "KK".to_string()]);
    assert_eq!(parse_range(" AA , AKs ,72o "), vec!["AA", "AKs", "72o"]);
    assert_eq!(parse_range(""), Vec::<String>::new());
    assert_eq!(parse_range(",, ,"), Vec::<String>::new());
    assert_eq!(parse_range("AA,,KK,"), vec!["AA", "KK"]);
    assert_eq!(parse_range("QQ"), vec!["QQ"]);
}

#[test]
fn numbers_in_decimal() {
    let write = |n: u64| {
        let mut s = String::from("x");
        push_decimal(&mut s, n);
        s
    };
    assert_eq!(write(0), "x0");
    assert_eq!(write(7), "x7");
    assert_eq!(write(10), "x10");
    assert_eq!(write(1205), "x1205");
    assert_eq!(write(u64::MAX), "x18446744073709551615");
    for d in 0..10u8 {
        assert_eq!(digit_to_char(d), (b'0' + d) as char);
    }
}

#[test]
fn amounts_with_one_decimal() {
    let write = |n: u64| {
        let mut s = String::new();
        push_one_decimal(&mut s, n);
        s
    };
    assert_eq!(write(0), "0.0");
    assert_eq!(write(49), "0.0");
    assert_eq!(write(50), "0.1");
    assert_eq!(write(3300), "3.3");
    assert_eq!(write(9950), "10.0");
    assert_eq!(write(20_000), "20.0");
    assert_eq!(write(u64::MAX), "18446744073709551.6");
}
