//! Playing cards and their two-character notation (`As`, `Td`, `2c`).

use vstd::prelude::*;

verus! {

/// Card rank, deuce low and ace high.
#[derive(Debug, Clone, Copy, PartialEq, Eq, Hash, Structural)]
pub enum Rank {
    Two,
    Three,
    Four,
    Five,
    Six,
    Seven,
    Eight,
    Nine,
    Ten,
    Jack,
    Queen,
    King,
    Ace,
}

/// Card suit.
#[derive(Debug, Clone, Copy, PartialEq, Eq, Hash, Structural)]
pub enum Suit {
    Spades,
    Hearts,
    Diamonds,
    Clubs,
}

/// One of the 52 cards.
#[derive(Debug, Clone, Copy, PartialEq, Eq, Hash, Structural)]
pub struct Card {
    pub rank: Rank,
    pub suit: Suit,
}

/// Why a piece of card notation was rejected.
#[derive(Debug, Clone, Copy, PartialEq, Eq, Structural)]
pub enum NotationError {
    /// The text has the wrong number of characters.
    BadLength,
    /// A rank character is none of `23456789TJQKA`.
    BadRank,
    /// A suit character is none of `shdc`.
    BadSuit,
    /// The third character of a hand class is neither `s` nor `o`, or a
    /// pair carries a suffix.
    BadSuffix,
}

/// Position of a rank counted from the deuce: 0 for `Two`, 12 for `Ace`.
pub open spec fn rank_offset(r: Rank) -> int {
    match r {
        Rank::Two => 0,
        Rank::Three => 1,
        Rank::Four => 2,
        Rank::Five => 3,
        Rank::Six => 4,
        Rank::Seven => 5,
        Rank::Eight => 6,
        Rank::Nine => 7,
        Rank::Ten => 8,
        Rank::Jack => 9,
        Rank::Queen => 10,
        Rank::King => 11,
        Rank::Ace => 12,
    }
}

/// Position of a suit in the order spades, hearts, diamonds, clubs.
pub open spec fn suit_offset(s: Suit) -> int {
    match s {
        Suit::Spades => 0,
        Suit::Hearts => 1,
        Suit::Diamonds => 2,
        Suit::Clubs => 3,
    }
}

/// The rank that sits `k` places above the deuce (`Ace` for anything past 11).
pub open spec fn rank_at(k: int) -> Rank {
    if k <= 0 {
        Rank::Two
    } else if k == 1 {
        Rank::Three
    } else if k == 2 {
        Rank::Four
    } else if k == 3 {
        Rank::Five
    } else if k == 4 {
        Rank::Six
    } else if k == 5 {
        Rank::Seven
    } else if k == 6 {
        Rank::Eight
    } else if k == 7 {
        Rank::Nine
    } else if k == 8 {
        Rank::Ten
    } else if k == 9 {
        Rank::Jack
    } else if k == 10 {
        Rank::Queen
    } else if k == 11 {
        Rank::King
    } else {
        Rank::Ace
    }
}

/// The suit at position `k` (`Clubs` for anything past 2).
pub open spec fn suit_at(k: int) -> Suit {
    if k <= 0 {
        Suit::Spades
    } else if k == 1 {
        Suit::Hearts
    } else if k == 2 {
        Suit::Diamonds
    } else {
        Suit::Clubs
    }
}

/// The rank a notation character stands for, if any.
pub open spec fn rank_of_char(c: char) -> Option<Rank> {
    if c == '2' {
        Some(Rank::Two)
    } else if c == '3' {
        Some(Rank::Three)
    } else if c == '4' {
        Some(Rank::Four)
    } else if c == '5' {
        Some(Rank::Five)
    } else if c == '6' {
        Some(Rank::Six)
    } else if c == '7' {
        Some(Rank::Seven)
    } else if c == '8' {
        Some(Rank::Eight)
    } else if c == '9' {
        Some(Rank::Nine)
    } else if c == 'T' {
        Some(Rank::Ten)
    } else if c == 'J' {
        Some(Rank::Jack)
    } else if c == 'Q' {
        Some(Rank::Queen)
    } else if c == 'K' {
        Some(Rank::King)
    } else if c == 'A' {
        Some(Rank::Ace)
    } else {
        None
    }
}

/// The suit a notation character stands for, if any.
pub open spec fn suit_of_char(c: char) -> Option<Suit> {
    if c == 's' {
        Some(Suit::Spades)
    } else if c == 'h' {
        Some(Suit::Hearts)
    } else if c == 'd' {
        Some(Suit::Diamonds)
    } else if c == 'c' {
        Some(Suit::Clubs)
    } else {
        None
    }
}

/// The character that denotes a rank.
pub open spec fn char_of_rank(r: Rank) -> char {
    match r {
        Rank::Two => '2',
        Rank::Three => '3',
        Rank::Four => '4',
        Rank::Five => '5',
        Rank::Six => '6',
        Rank::Seven => '7',
        Rank::Eight => '8',
        Rank::Nine => '9',
        Rank::Ten => 'T',
        Rank::Jack => 'J',
        Rank::Queen => 'Q',
        Rank::King => 'K',
        Rank::Ace => 'A',
    }
}

/// The character that denotes a suit.
pub open spec fn char_of_suit(s: Suit) -> char {
    match s {
        Suit::Spades => 's',
        Suit::Hearts => 'h',
        Suit::Diamonds => 'd',
        Suit::Clubs => 'c',
    }
}

/// What two characters of notation denote: a card, or the reason they do not.
pub open spec fn card_of_chars(r: char, s: char) -> Result<Card, NotationError> {
    match rank_of_char(r) {
        None => Err(NotationError::BadRank),
        Some(rank) => match suit_of_char(s) {
            None => Err(NotationError::BadSuit),
            Some(suit) => Ok(Card { rank, suit }),
        },
    }
}

/// What a whole text denotes as a single card.
pub open spec fn card_of_text(text: Seq<char>) -> Result<Card, NotationError> {
    if text.len() != 2 {
        Err(NotationError::BadLength)
    } else {
        card_of_chars(text[0], text[1])
    }
}

/// The cards denoted by the first `n` two-character groups of `text`, or the
/// error of the first group that denotes none.
pub open spec fn board_prefix(text: Seq<char>, n: nat) -> Result<Seq<Card>, NotationError>
    decreases n,
{
    if n == 0 {
        Ok(Seq::empty())
    } else {
        match board_prefix(text, (n - 1) as nat) {
            Err(e) => Err(e),
            Ok(cards) => match card_of_chars(text[2 * (n - 1)], text[2 * (n - 1) + 1]) {
                Err(e) => Err(e),
                Ok(card) => Ok(cards.push(card)),
            },
        }
    }
}

/// What a whole text denotes as a run of cards written without separators.
pub open spec fn board_of_text(text: Seq<char>) -> Result<Seq<Card>, NotationError> {
    if text.len() % 2 != 0 {
        Err(NotationError::BadLength)
    } else {
        board_prefix(text, text.len() / 2)
    }
}

impl Rank {
    /// Face value of the rank, 2 for the deuce up to 14 for the ace.
    pub fn value(self) -> (v: u8)
        ensures
            v == rank_offset(self) + 2,
            2 <= v <= 14,
    {
        match self {
            Rank::Two => 2,
            Rank::Three => 3,
            Rank::Four => 4,
            Rank::Five => 5,
            Rank::Six => 6,
            Rank::Seven => 7,
            Rank::Eight => 8,
            Rank::Nine => 9,
            Rank::Ten => 10,
            Rank::Jack => 11,
            Rank::Queen => 12,
            Rank::King => 13,
            Rank::Ace => 14,
        }
    }

    /// The rank `offset` places above the deuce.
    pub fn from_offset(offset: u8) -> (r: Rank)
        requires
            offset < 13,
        ensures
            r == rank_at(offset as int),
            rank_offset(r) == offset,
    {
        if offset == 0 {
            Rank::Two
        } else if offset == 1 {
            Rank::Three
        } else if offset == 2 {
            Rank::Four
        } else if offset == 3 {
            Rank::Five
        } else if offset == 4 {
            Rank::Six
        } else if offset == 5 {
            Rank::Seven
        } else if offset == 6 {
            Rank::Eight
        } else if offset == 7 {
            Rank::Nine
        } else if offset == 8 {
            Rank::Ten
        } else if offset == 9 {
            Rank::Jack
        } else if offset == 10 {
            Rank::Queen
        } else if offset == 11 {
            Rank::King
        } else {
            Rank::Ace
        }
    }

    /// Reads a rank character.
    pub fn from_char(c: char) -> (r: Option<Rank>)
        ensures
            r == rank_of_char(c),
    {
        if c == '2' {
            Some(Rank::Two)
        } else if c == '3' {
            Some(Rank::Three)
        } else if c == '4' {
            Some(Rank::Four)
        } else if c == '5' {
            Some(Rank::Five)
        } else if c == '6' {
            Some(Rank::Six)
        } else if c == '7' {
            Some(Rank::Seven)
        } else if c == '8' {
            Some(Rank::Eight)
        } else if c == '9' {
            Some(Rank::Nine)
        } else if c == 'T' {
            Some(Rank::Ten)
        } else if c == 'J' {
            Some(Rank::Jack)
        } else if c == 'Q' {
            Some(Rank::Queen)
        } else if c == 'K' {
            Some(Rank::King)
        } else if c == 'A' {
            Some(Rank::Ace)
        } else {
            None
        }
    }

    /// The character that denotes this rank.
    pub fn to_char(self) -> (c: char)
        ensures
            c == char_of_rank(self),
            rank_of_char(c) == Some(self),
    {
        match self {
            Rank::Two => '2',
            Rank::Three => '3',
            Rank::Four => '4',
            Rank::Five => '5',
            Rank::Six => '6',
            Rank::Seven => '7',
            Rank::Eight => '8',
            Rank::Nine => '9',
            Rank::Ten => 'T',
            Rank::Jack => 'J',
            Rank::Queen => 'Q',
            Rank::King => 'K',
            Rank::Ace => 'A',
        }
    }
}

impl Suit {
    /// Position of the suit: 0 spades, 1 hearts, 2 diamonds, 3 clubs.
    pub fn offset(self) -> (v: u8)
        ensures
            v == suit_offset(self),
            v < 4,
    {
        match self {
            Suit::Spades => 0,
            Suit::Hearts => 1,
            Suit::Diamonds => 2,
            Suit::Clubs => 3,
        }
    }

    /// The suit at position `offset`.
    pub fn from_offset(offset: u8) -> (s: Suit)
        requires
            offset < 4,
        ensures
            s == suit_at(offset as int),
            suit_offset(s) == offset,
    {
        if offset == 0 {
            Suit::Spades
        } else if offset == 1 {
            Suit::Hearts
        } else if offset == 2 {
            Suit::Diamonds
        } else {
            Suit::Clubs
        }
    }

    /// Reads a suit character.
    pub fn from_char(c: char) -> (s: Option<Suit>)
        ensures
            s == suit_of_char(c),
    {
        if c == 's' {
            Some(Suit::Spades)
        } else if c == 'h' {
            Some(Suit::Hearts)
        } else if c == 'd' {
            Some(Suit::Diamonds)
        } else if c == 'c' {
            Some(Suit::Clubs)
        } else {
            None
        }
    }

    /// The character that denotes this suit.
    pub fn to_char(self) -> (c: char)
        ensures
            c == char_of_suit(self),
            suit_of_char(c) == Some(self),
    {
        match self {
            Suit::Spades => 's',
            Suit::Hearts => 'h',
            Suit::Diamonds => 'd',
            Suit::Clubs => 'c',
        }
    }
}

impl Card {
    pub fn new(rank: Rank, suit: Suit) -> (card: Card)
        ensures
            card == (Card { rank, suit }),
    {
        Card { rank, suit }
    }
}

/// Reads two characters as a card.
fn card_from_chars(r: char, s: char) -> (res: Result<Card, NotationError>)
    ensures
        res == card_of_chars(r, s),
{
    match Rank::from_char(r) {
        None => Err(NotationError::BadRank),
        Some(rank) => match Suit::from_char(s) {
            None => Err(NotationError::BadSuit),
            Some(suit) => Ok(Card { rank, suit }),
        },
    }
}

/// Reads a card from its notation, a rank character followed by a suit
/// character and nothing else.
pub fn parse_card(text: &str) -> (res: Result<Card, NotationError>)
    ensures
        res == card_of_text(text@),
{
    let n: usize = text.unicode_len();
    if n != 2 {
        return Err(NotationError::BadLength);
    }
    card_from_chars(text.get_char(0), text.get_char(1))
}

/// Reads a board: cards written one after another without separators. The
/// first group that is no card decides the error; an odd number of characters
/// is a length error.
pub fn parse_board(text: &str) -> (res: Result<Vec<Card>, NotationError>)
    ensures
        match board_of_text(text@) {
            Ok(cards) => res is Ok && res->Ok_0@ == cards,
            Err(e) => res == Err::<Vec<Card>, NotationError>(e),
        },
{
    let n: usize = text.unicode_len();
    if n % 2 != 0 {
        return Err(NotationError::BadLength);
    }
    let groups: usize = n / 2;
    let mut cards: Vec<Card> = Vec::new();
    let mut i: usize = 0;
    while i < groups
        invariant
            i <= groups,
            groups * 2 == n,
            n == text@.len(),
            board_prefix(text@, i as nat) == Ok::<Seq<Card>, NotationError>(cards@),
        decreases groups - i,
    {
        match card_from_chars(text.get_char(2 * i), text.get_char(2 * i + 1)) {
            Err(e) => {
                proof {
                    lemma_board_prefix_error(text@, (i + 1) as nat, groups as nat);
                }
                return Err(e);
            },
            Ok(card) => {
                cards.push(card);
            },
        }
        i += 1;
    }
    Ok(cards)
}

/// Once a prefix of the groups fails, every longer prefix fails the same way.
proof fn lemma_board_prefix_error(text: Seq<char>, k: nat, n: nat)
    requires
        k <= n,
        board_prefix(text, k) is Err,
    ensures
        board_prefix(text, n) == board_prefix(text, k),
    decreases n,
{
    if k < n {
        lemma_board_prefix_error(text, k, (n - 1) as nat);
    }
}

/// A successfully read board holds one card per two characters.
pub proof fn lemma_board_prefix_len(text: Seq<char>, n: nat)
    ensures
        board_prefix(text, n) is Ok ==> board_prefix(text, n)->Ok_0.len() == n,
    decreases n,
{
    if n > 0 {
        lemma_board_prefix_len(text, (n - 1) as nat);
    }
}

/// Writes a card in notation: its rank character, then its suit character.
pub fn card_chars(card: Card) -> (res: (char, char))
    ensures
        res.0 == char_of_rank(card.rank),
        res.1 == char_of_suit(card.suit),
        card_of_chars(res.0, res.1) == Ok::<Card, NotationError>(card),
{
    (card.rank.to_char(), card.suit.to_char())
}

/// How the two cards of a hand class relate.
#[derive(Debug, Clone, Copy, PartialEq, Eq, Hash, Structural)]
pub enum Shape {
    /// Two cards of one rank (`AA`).
    Pair,
    /// Two ranks in one suit (`AKs`).
    Suited,
    /// Two ranks in two suits (`AKo`).
    Offsuit,
    /// Two ranks in any suits (`AK`).
    Any,
}

/// A class of starting hands: two ranks and how their suits relate.
#[derive(Debug, Clone, Copy, PartialEq, Eq, Hash, Structural)]
pub struct HandClass {
    pub first: Rank,
    pub second: Rank,
    pub shape: Shape,
}

/// What a text denotes as a hand class: two rank characters, then `s` or
/// `o` or nothing. A pair takes no suffix.
pub open spec fn class_of_text(text: Seq<char>) -> Result<HandClass, NotationError> {
    if text.len() != 2 && text.len() != 3 {
        Err(NotationError::BadLength)
    } else {
        match (rank_of_char(text[0]), rank_of_char(text[1])) {
            (Some(first), Some(second)) => {
                if text.len() == 2 {
                    if first == second {
                        Ok(HandClass { first, second, shape: Shape::Pair })
                    } else {
                        Ok(HandClass { first, second, shape: Shape::Any })
                    }
                } else if first == second {
                    Err(NotationError::BadSuffix)
                } else if text[2] == 's' {
                    Ok(HandClass { first, second, shape: Shape::Suited })
                } else if text[2] == 'o' {
                    Ok(HandClass { first, second, shape: Shape::Offsuit })
                } else {
                    Err(NotationError::BadSuffix)
                }
            },
            _ => Err(NotationError::BadRank),
        }
    }
}

/// Whether a class of the given shape holds the hand whose first card has
/// suit offset `s1` and whose second has `s2`.
pub open spec fn shape_keeps(shape: Shape, s1: int, s2: int) -> bool {
    match shape {
        Shape::Pair => s1 < s2,
        Shape::Suited => s1 == s2,
        Shape::Offsuit => s1 != s2,
        Shape::Any => true,
    }
}

/// The hands of a class among the first `n` of the sixteen suit pairings.
/// Pairing `p` gives the first card suit `p / 4` and the second `p % 4`, so
/// the hands come in the order of the first suit, then of the second.
pub open spec fn class_combos(class: HandClass, n: nat) -> Seq<(Card, Card)>
    decreases n,
{
    if n == 0 {
        Seq::empty()
    } else {
        let p = (n - 1) as int;
        let before = class_combos(class, (n - 1) as nat);
        if shape_keeps(class.shape, p / 4, p % 4) {
            before.push(
                (
                    Card { rank: class.first, suit: suit_at(p / 4) },
                    Card { rank: class.second, suit: suit_at(p % 4) },
                ),
            )
        } else {
            before
        }
    }
}

/// Reads a hand class.
pub fn parse_hand_class(text: &str) -> (res: Result<HandClass, NotationError>)
    ensures
        res == class_of_text(text@),
{
    let n: usize = text.unicode_len();
    if n != 2 && n != 3 {
        return Err(NotationError::BadLength);
    }
    let first = match Rank::from_char(text.get_char(0)) {
        Some(r) => r,
        None => {
            return Err(NotationError::BadRank);
        },
    };
    let second = match Rank::from_char(text.get_char(1)) {
        Some(r) => r,
        None => {
            return Err(NotationError::BadRank);
        },
    };
    let same: bool = first.value() == second.value();
    assert(same <==> first == second);
    if n == 2 {
        if same {
            Ok(HandClass { first, second, shape: Shape::Pair })
        } else {
            Ok(HandClass { first, second, shape: Shape::Any })
        }
    } else if same {
        Err(NotationError::BadSuffix)
    } else {
        let suffix: char = text.get_char(2);
        if suffix == 's' {
            Ok(HandClass { first, second, shape: Shape::Suited })
        } else if suffix == 'o' {
            Ok(HandClass { first, second, shape: Shape::Offsuit })
        } else {
            Err(NotationError::BadSuffix)
        }
    }
}

/// The hands of a class, in the order of `class_combos`.
pub fn class_hands(class: HandClass) -> (hands: Vec<(Card, Card)>)
    ensures
        hands@ == class_combos(class, 16),
{
    let mut hands: Vec<(Card, Card)> = Vec::new();
    let mut p: u8 = 0;
    while p < 16
        invariant
            p <= 16,
            hands@ == class_combos(class, p as nat),
        decreases 16 - p,
    {
        let s1: u8 = p / 4;
        let s2: u8 = p % 4;
        let keep: bool = match class.shape {
            Shape::Pair => s1 < s2,
            Shape::Suited => s1 == s2,
            Shape::Offsuit => s1 != s2,
            Shape::Any => true,
        };
        if keep {
            hands.push(
                (
                    Card::new(class.first, Suit::from_offset(s1)),
                    Card::new(class.second, Suit::from_offset(s2)),
                ),
            );
        }
        p += 1;
    }
    hands
}

/// Expands a hand class in notation into its hands: six for a pair, four
/// for a suited class, twelve for an offsuit one, sixteen without suffix.
pub fn hand_combos(text: &str) -> (res: Result<Vec<(Card, Card)>, NotationError>)
    ensures
        match class_of_text(text@) {
            Ok(class) => res is Ok && res->Ok_0@ == class_combos(class, 16),
            Err(e) => res == Err::<Vec<(Card, Card)>, NotationError>(e),
        },
{
    match parse_hand_class(text) {
        Ok(class) => Ok(class_hands(class)),
        Err(e) => Err(e),
    }
}

/// How many hands a class of each shape holds.
pub proof fn lemma_class_sizes(class: HandClass)
    ensures
        class_combos(class, 16).len() == match class.shape {
            Shape::Pair => 6nat,
            Shape::Suited => 4nat,
            Shape::Offsuit => 12nat,
            Shape::Any => 16nat,
        },
{
    reveal_with_fuel(class_combos, 17);
}

} // verus!
