//! Hole-card combinations, range expansion against a board, and the
//! showdown table that a river solve reads.

use vstd::prelude::*;
use crate::cards::{
    Card, HandClass, NotationError, Rank, Shape, board_of_text, class_combos, class_of_text,
    hand_combos, parse_board, rank_offset,
};
use crate::card_encoding::{card_index, card_indices, card_to_index, cards_to_indices};
use crate::hand_evaluator::hand_value;
use crate::lookup_eval::{StraightTable, evaluate_with_table};
use crate::postflop_tree::{Player, TerminalType, index_of, opponent_of};
use crate::ranges::{parse_range, range_items, texts_of};

verus! {

/// A specific two-card hand as card indices (0-51).
#[derive(Debug, Clone, Copy, PartialEq, Eq, Hash, Structural)]
pub struct Combo(pub u8, pub u8);

/// Two hands hold the same two cards, in either order.
pub open spec fn same_cards(a: Combo, b: Combo) -> bool {
    (a.0 == b.0 && a.1 == b.1) || (a.0 == b.1 && a.1 == b.0)
}

/// Two hands share no card, so two players can hold them together.
pub open spec fn compatible(a: Combo, b: Combo) -> bool {
    a.0 != b.0 && a.0 != b.1 && a.1 != b.0 && a.1 != b.1
}

/// The hand is free of the board's cards.
pub open spec fn clear_of(c: Combo, board: Seq<u8>) -> bool {
    !board.contains(c.0) && !board.contains(c.1)
}

/// The hand that a pair of cards makes.
pub open spec fn combo_of(hand: (Card, Card)) -> Combo {
    Combo(card_index(hand.0) as u8, card_index(hand.1) as u8)
}

/// Adds a hand to a list unless the list already holds its two cards.
pub open spec fn add_new(list: Seq<Combo>, c: Combo) -> Seq<Combo> {
    if exists|k: int| 0 <= k < list.len() && same_cards(list[k], c) {
        list
    } else {
        list.push(c)
    }
}

/// Adds to `list` those of the first `n` hands that are clear of the board
/// and not yet in the list.
pub open spec fn add_hands(list: Seq<Combo>, hands: Seq<(Card, Card)>, board: Seq<u8>, n: nat) -> Seq<
    Combo,
>
    decreases n,
{
    if n == 0 {
        list
    } else {
        let before = add_hands(list, hands, board, (n - 1) as nat);
        let c = combo_of(hands[n - 1]);
        if clear_of(c, board) {
            add_new(before, c)
        } else {
            before
        }
    }
}

/// The hands of the first `n` items of a range that are clear of the
/// board, each two cards once, in the order in which they are first named.
/// An item that is no hand class adds nothing.
pub open spec fn expanded(range: Seq<Seq<char>>, board: Seq<u8>, n: nat) -> Seq<Combo>
    decreases n,
{
    if n == 0 {
        Seq::empty()
    } else {
        let before = expanded(range, board, (n - 1) as nat);
        match class_of_text(range[n - 1]) {
            Ok(class) => add_hands(
                before,
                class_combos(class, 16),
                board,
                class_combos(class, 16).len(),
            ),
            Err(_) => before,
        }
    }
}

/// Every hand of the list is made of two different cards of the deck that
/// are not on the board, and no two hands of the list hold the same two
/// cards.
pub open spec fn sound_hands(list: Seq<Combo>, board: Seq<u8>) -> bool {
    &&& forall|i: int|
        0 <= i < list.len() ==> (#[trigger] list[i]).0 < 52 && list[i].1 < 52 && list[i].0
            != list[i].1 && clear_of(list[i], board)
    &&& forall|i: int, j: int| 0 <= i < j < list.len() ==> !same_cards(list[i], list[j])
}

/// A class is a pair exactly when its two ranks are one.
pub open spec fn proper_class(class: HandClass) -> bool {
    class.shape == Shape::Pair <==> class.first == class.second
}

/// Adding the hands of a class keeps a list sound.
proof fn lemma_add_hands_sound(
    list: Seq<Combo>,
    class: HandClass,
    board: Seq<u8>,
    n: nat,
)
    requires
        sound_hands(list, board),
        proper_class(class),
        n <= class_combos(class, 16).len(),
    ensures
        sound_hands(add_hands(list, class_combos(class, 16), board, n), board),
    decreases n,
{
    if n > 0 {
        let hands = class_combos(class, 16);
        lemma_add_hands_sound(list, class, board, (n - 1) as nat);
        lemma_class_cards(class, 16, n - 1);
        crate::card_encoding::lemma_card_index_bijection();
        let before = add_hands(list, hands, board, (n - 1) as nat);
        let c = combo_of(hands[n - 1]);
        let after = add_hands(list, hands, board, n);
        if clear_of(c, board) && after != before {
            assert(after == before.push(c));
            assert forall|i: int, j: int| 0 <= i < j < after.len() implies !same_cards(
                after[i],
                after[j],
            ) by {
                if j == before.len() {
                    assert(!same_cards(before[i], c));
                }
            }
        }
    }
}

/// The hands of a class are made of two different cards.
proof fn lemma_class_cards(class: HandClass, n: nat, k: int)
    requires
        n <= 16,
        proper_class(class),
        0 <= k < class_combos(class, n).len(),
    ensures
        class_combos(class, n)[k].0 != class_combos(class, n)[k].1,
        card_index(class_combos(class, n)[k].0) != card_index(class_combos(class, n)[k].1),
    decreases n,
{
    if n > 0 {
        let before = class_combos(class, (n - 1) as nat);
        if k < before.len() {
            lemma_class_cards(class, (n - 1) as nat, k);
        } else {
            crate::card_encoding::lemma_card_index_bijection();
            let hand = class_combos(class, n)[k];
            let p = (n - 1) as int;
            assert(hand.0 == Card { rank: class.first, suit: crate::cards::suit_at(p / 4) });
            assert(hand.1 == Card { rank: class.second, suit: crate::cards::suit_at(p % 4) });
            if card_index(hand.0) == card_index(hand.1) {
                assert(crate::card_encoding::card_at(card_index(hand.0)) == hand.0);
                assert(crate::card_encoding::card_at(card_index(hand.1)) == hand.1);
            }
        }
    }
}

/// What an expanded range holds: hands of two different cards of the deck,
/// none of them on the board, and no two cards twice.
pub proof fn lemma_expanded_sound(range: Seq<Seq<char>>, board: Seq<u8>, n: nat)
    ensures
        sound_hands(expanded(range, board, n), board),
        combos_in_deck(expanded(range, board, n)),
    decreases n,
{
    if n > 0 {
        lemma_expanded_sound(range, board, (n - 1) as nat);
        let before = expanded(range, board, (n - 1) as nat);
        match class_of_text(range[n - 1]) {
            Ok(class) => {
                lemma_add_hands_sound(before, class, board, class_combos(class, 16).len());
            },
            Err(_) => {},
        }
    }
}

/// Whether the list holds the two cards of `c`.
fn holds(list: &Vec<Combo>, c: Combo) -> (found: bool)
    ensures
        found <==> exists|k: int| 0 <= k < list@.len() && same_cards(list@[k], c),
{
    let mut k: usize = 0;
    while k < list.len()
        invariant
            k <= list@.len(),
            forall|j: int| 0 <= j < k ==> !same_cards(list@[j], c),
        decreases list@.len() - k,
    {
        let other: Combo = list[k];
        if (other.0 == c.0 && other.1 == c.1) || (other.0 == c.1 && other.1 == c.0) {
            return true;
        }
        k += 1;
    }
    false
}

/// Marks which of the 52 cards lie on the board.
fn board_marks(board: &[u8]) -> (marks: [bool; 52])
    requires
        forall|i: int| 0 <= i < board@.len() ==> board@[i] < 52,
    ensures
        forall|c: int| 0 <= c < 52 ==> (#[trigger] marks@[c] <==> board@.contains(c as u8)),
{
    let mut marks: [bool; 52] = [false; 52];
    let mut k: usize = 0;
    while k < board.len()
        invariant
            k <= board@.len(),
            forall|i: int| 0 <= i < board@.len() ==> board@[i] < 52,
            forall|c: int|
                0 <= c < 52 ==> (#[trigger] marks@[c] <==> board@.subrange(0, k as int).contains(
                    c as u8,
                )),
        decreases board@.len() - k,
    {
        let b: u8 = board[k];
        let ghost before = board@.subrange(0, k as int);
        let ghost after = board@.subrange(0, k + 1);
        assert(after =~= before.push(b));
        marks[b as usize] = true;
        assert forall|c: int| 0 <= c < 52 implies (#[trigger] marks@[c] <==> after.contains(
            c as u8,
        )) by {
            if c == b {
                assert(after[k as int] == b);
            } else if before.contains(c as u8) {
                let j = choose|j: int| 0 <= j < before.len() && before[j] == c as u8;
                assert(after[j] == c as u8);
            } else if after.contains(c as u8) {
                let j = choose|j: int| 0 <= j < after.len() && after[j] == c as u8;
                assert(before[j] == c as u8);
            }
        }
        k += 1;
    }
    assert(board@.subrange(0, board@.len() as int) =~= board@);
    marks
}

/// Expands a range, given as hand classes in notation, into specific
/// hands, leaving out every hand that holds a card of the board. The hands
/// come in the order of the classes and, within a class, of its suit
/// pairings; two cards that were already named are not added again. A text
/// that is no hand class is passed over.
pub fn expand_range_to_combos(range: &[String], board: &[u8]) -> (combos: Vec<Combo>)
    requires
        forall|i: int| 0 <= i < board@.len() ==> board@[i] < 52,
    ensures
        combos@ == expanded(texts_of(range@), board@, range@.len()),
        sound_hands(combos@, board@),
        combos_in_deck(combos@),
{
    proof {
        lemma_expanded_sound(texts_of(range@), board@, range@.len());
    }
    let board_set: [bool; 52] = board_marks(board);
    let ghost texts = texts_of(range@);
    let mut combos: Vec<Combo> = Vec::new();
    let mut h: usize = 0;
    while h < range.len()
        invariant
            h <= range@.len(),
            texts == texts_of(range@),
            forall|c: int| 0 <= c < 52 ==> (#[trigger] board_set@[c] <==> board@.contains(c as u8)),
            combos@ == expanded(texts, board@, h as nat),
        decreases range@.len() - h,
    {
        let ghost before = combos@;
        assert(texts[h as int] == range@[h as int]@);
        match hand_combos(range[h].as_str()) {
            Ok(pairs) => {
                let ghost class = class_of_text(texts[h as int])->Ok_0;
                let mut p: usize = 0;
                while p < pairs.len()
                    invariant
                        p <= pairs@.len(),
                        pairs@ == class_combos(class, 16),
                        forall|c: int|
                            0 <= c < 52 ==> (#[trigger] board_set@[c] <==> board@.contains(
                                c as u8,
                            )),
                        combos@ == add_hands(before, pairs@, board@, p as nat),
                    decreases pairs@.len() - p,
                {
                    let i1: u8 = card_to_index(&pairs[p].0);
                    let i2: u8 = card_to_index(&pairs[p].1);
                    if !board_set[i1 as usize] && !board_set[i2 as usize] {
                        let c = Combo(i1, i2);
                        if !holds(&combos, c) {
                            combos.push(c);
                        }
                    }
                    p += 1;
                }
            },
            Err(_) => {},
        }
        h += 1;
    }
    combos
}

/// The seven cards that a hand makes with a five-card board.
pub open spec fn seven_cards(c: Combo, board: Seq<u8>) -> Seq<u8> {
    seq![c.0, c.1, board[0], board[1], board[2], board[3], board[4]]
}

/// The indices below `n` of the hands in `others` that share no card with
/// `c`, ascending.
pub open spec fn compatible_upto(c: Combo, others: Seq<Combo>, n: nat) -> Seq<u16>
    decreases n,
{
    if n == 0 {
        Seq::empty()
    } else if compatible(c, others[n - 1]) {
        compatible_upto(c, others, (n - 1) as nat).push((n - 1) as u16)
    } else {
        compatible_upto(c, others, (n - 1) as nat)
    }
}

/// The lists of one side: for each of its own hands, the indices of the
/// other side's hands that share no card with it.
pub open spec fn valid_lists(lists: Seq<Vec<u16>>, own: Seq<Combo>, other: Seq<Combo>) -> bool {
    &&& lists.len() == own.len()
    &&& forall|i: int|
        0 <= i < own.len() ==> (#[trigger] lists[i])@ == compatible_upto(own[i], other, other.len())
}

/// The scores of one side: for each hand, the value of its seven cards.
pub open spec fn scores_of(scores: Seq<u32>, combos: Seq<Combo>, board: Seq<u8>) -> bool {
    &&& scores.len() == combos.len()
    &&& forall|i: int|
        0 <= i < combos.len() ==> (#[trigger] scores[i]) == hand_value(seven_cards(combos[i], board))
}

/// Every card of the hands is a card index.
pub open spec fn combos_in_deck(combos: Seq<Combo>) -> bool {
    forall|i: int| 0 <= i < combos.len() ==> (#[trigger] combos[i]).0 < 52 && combos[i].1 < 52
}

/// How a showdown between two hands ends for the first.
#[derive(Debug, Clone, Copy, PartialEq, Eq, Structural)]
pub enum ShowdownResult {
    Win,
    Lose,
    Tie,
}

/// What a showdown gives the holder of `mine` against `theirs`.
pub open spec fn result_of(mine: u32, theirs: u32) -> ShowdownResult {
    if mine > theirs {
        ShowdownResult::Win
    } else if mine < theirs {
        ShowdownResult::Lose
    } else {
        ShowdownResult::Tie
    }
}

/// Precomputed showdown data for all valid hand pairs.
pub struct ShowdownTable {
    pub oop_combos: Vec<Combo>,
    pub ip_combos: Vec<Combo>,
    /// For each OOP hand i, the indices of the IP hands that share no card
    /// with it, ascending.
    pub valid_ip_for_oop: Vec<Vec<u16>>,
    /// For each IP hand j, the indices of the OOP hands that share no card
    /// with it, ascending.
    pub valid_oop_for_ip: Vec<Vec<u16>>,
    /// 7-card score of each OOP hand with the board.
    pub oop_scores: Vec<u32>,
    /// 7-card score of each IP hand with the board.
    pub ip_scores: Vec<u32>,
}

impl ShowdownTable {
    /// The lists of valid opponents belong to the hands, and each side has
    /// one score per hand.
    pub open spec fn consistent(&self) -> bool {
        &&& self.oop_combos@.len() <= 65536
        &&& self.ip_combos@.len() <= 65536
        &&& self.oop_scores@.len() == self.oop_combos@.len()
        &&& self.ip_scores@.len() == self.ip_combos@.len()
        &&& valid_lists(self.valid_ip_for_oop@, self.oop_combos@, self.ip_combos@)
        &&& valid_lists(self.valid_oop_for_ip@, self.ip_combos@, self.oop_combos@)
    }

    /// The table is consistent and its scores are those of the hands on
    /// the given board.
    pub open spec fn wf(&self, board: Seq<u8>) -> bool {
        &&& self.consistent()
        &&& scores_of(self.oop_scores@, self.oop_combos@, board)
        &&& scores_of(self.ip_scores@, self.ip_combos@, board)
    }

    /// The hands of a player.
    pub open spec fn hands(&self, player: Player) -> Seq<Combo> {
        match player {
            Player::OOP => self.oop_combos@,
            Player::IP => self.ip_combos@,
        }
    }

    /// The scores of a player's hands.
    pub open spec fn scores(&self, player: Player) -> Seq<u32> {
        match player {
            Player::OOP => self.oop_scores@,
            Player::IP => self.ip_scores@,
        }
    }

    /// Build the showdown table for a river (5-card board).
    pub fn new(oop_combos: Vec<Combo>, ip_combos: Vec<Combo>, board: &[u8]) -> (table: ShowdownTable)
        requires
            board@.len() == 5,
            forall|i: int| 0 <= i < 5 ==> board@[i] < 52,
            combos_in_deck(oop_combos@),
            combos_in_deck(ip_combos@),
            oop_combos@.len() <= 65536,
            ip_combos@.len() <= 65536,
        ensures
            table.wf(board@),
            table.oop_combos@ == oop_combos@,
            table.ip_combos@ == ip_combos@,
    {
        let straights = StraightTable::new();
        // 7-card scores of each hand.
        let oop_scores: Vec<u32> = score_hands(&straights, &oop_combos, board);
        let ip_scores: Vec<u32> = score_hands(&straights, &ip_combos, board);
        // Blocker-aware validity lists.
        let valid_ip_for_oop: Vec<Vec<u16>> = compatible_lists(&oop_combos, &ip_combos);
        let valid_oop_for_ip: Vec<Vec<u16>> = compatible_lists(&ip_combos, &oop_combos);
        ShowdownTable {
            oop_combos,
            ip_combos,
            valid_ip_for_oop,
            valid_oop_for_ip,
            oop_scores,
            ip_scores,
        }
    }

    pub fn num_oop(&self) -> (n: usize)
        ensures
            n == self.oop_combos@.len(),
    {
        self.oop_combos.len()
    }

    pub fn num_ip(&self) -> (n: usize)
        ensures
            n == self.ip_combos@.len(),
    {
        self.ip_combos.len()
    }

    /// Number of hands of a player.
    pub fn num_combos(&self, player: Player) -> (n: usize)
        ensures
            n == self.hands(player).len(),
    {
        match player {
            Player::OOP => self.oop_combos.len(),
            Player::IP => self.ip_combos.len(),
        }
    }

    /// How the showdown ends for the traverser holding hand `h` against
    /// the opponent's hand `j`: by the two scores alone.
    pub fn showdown_result(&self, traverser: Player, h: usize, j: usize) -> (result: ShowdownResult)
        requires
            self.consistent(),
            h < self.hands(traverser).len(),
            j < self.hands(opponent_of(traverser)).len(),
        ensures
            result == result_of(
                self.scores(traverser)[h as int],
                self.scores(opponent_of(traverser))[j as int],
            ),
    {
        let (my_score, opp_score) = match traverser {
            Player::OOP => (self.oop_scores[h], self.ip_scores[j]),
            Player::IP => (self.ip_scores[h], self.oop_scores[j]),
        };
        if my_score > opp_score {
            ShowdownResult::Win
        } else if my_score < opp_score {
            ShowdownResult::Lose
        } else {
            ShowdownResult::Tie
        }
    }

    /// Which of the opponent's hands the traverser's hand `h` leaves
    /// possible: entry `j` holds exactly when the two hands share no card.
    pub fn reach_mask(&self, traverser: Player, h: usize) -> (mask: Vec<bool>)
        requires
            self.consistent(),
            h < self.hands(traverser).len(),
        ensures
            mask@.len() == self.hands(opponent_of(traverser)).len(),
            forall|j: int|
                0 <= j < mask@.len() ==> (#[trigger] mask@[j] <==> compatible(
                    self.hands(traverser)[h as int],
                    self.hands(opponent_of(traverser))[j],
                )),
    {
        let (own, other) = match traverser {
            Player::OOP => (&self.oop_combos, &self.ip_combos),
            Player::IP => (&self.ip_combos, &self.oop_combos),
        };
        let mine: Combo = own[h];
        let mut mask: Vec<bool> = Vec::new();
        let mut j: usize = 0;
        while j < other.len()
            invariant
                j <= other@.len(),
                mask@.len() == j,
                forall|k: int| 0 <= k < j ==> (#[trigger] mask@[k] <==> compatible(mine, other@[k])),
            decreases other@.len() - j,
        {
            mask.push(shares_no_card(mine, other[j]));
            j += 1;
        }
        mask
    }
}

/// Whether two hands share no card.
pub fn shares_no_card(a: Combo, b: Combo) -> (free: bool)
    ensures
        free == compatible(a, b),
{
    a.0 != b.0 && a.0 != b.1 && a.1 != b.0 && a.1 != b.1
}

/// The score of each hand with the board.
fn score_hands(straights: &StraightTable, combos: &Vec<Combo>, board: &[u8]) -> (scores: Vec<u32>)
    requires
        board@.len() == 5,
        forall|i: int| 0 <= i < 5 ==> board@[i] < 52,
        combos_in_deck(combos@),
    ensures
        scores_of(scores@, combos@, board@),
{
    let mut scores: Vec<u32> = Vec::new();
    let mut i: usize = 0;
    while i < combos.len()
        invariant
            i <= combos@.len(),
            board@.len() == 5,
            forall|k: int| 0 <= k < 5 ==> board@[k] < 52,
            combos_in_deck(combos@),
            scores@.len() == i,
            forall|k: int|
                0 <= k < i ==> (#[trigger] scores@[k]) == hand_value(seven_cards(combos@[k], board@)),
        decreases combos@.len() - i,
    {
        let c: Combo = combos[i];
        let hand: [u8; 7] = [c.0, c.1, board[0], board[1], board[2], board[3], board[4]];
        assert(hand@ =~= seven_cards(c, board@));
        let score: u32 = evaluate_with_table(straights, &hand);
        scores.push(score);
        i += 1;
    }
    scores
}

/// For each hand of `own`, the indices of the hands of `other` that share
/// no card with it.
fn compatible_lists(own: &Vec<Combo>, other: &Vec<Combo>) -> (lists: Vec<Vec<u16>>)
    requires
        other@.len() <= 65536,
    ensures
        valid_lists(lists@, own@, other@),
{
    let mut lists: Vec<Vec<u16>> = Vec::new();
    let mut i: usize = 0;
    while i < own.len()
        invariant
            i <= own@.len(),
            other@.len() <= 65536,
            lists@.len() == i,
            forall|k: int|
                0 <= k < i ==> (#[trigger] lists@[k])@ == compatible_upto(
                    own@[k],
                    other@,
                    other@.len(),
                ),
        decreases own@.len() - i,
    {
        let mine: Combo = own[i];
        let mut valid: Vec<u16> = Vec::new();
        let mut j: usize = 0;
        while j < other.len()
            invariant
                j <= other@.len(),
                other@.len() <= 65536,
                valid@ == compatible_upto(mine, other@, j as nat),
            decreases other@.len() - j,
        {
            if shares_no_card(mine, other[j]) {
                valid.push(j as u16);
            }
            j += 1;
        }
        lists.push(valid);
        i += 1;
    }
    lists
}

/// How many of the four cards of a rank lie on the board.
pub open spec fn blocked_of_rank(rank: Rank, board: Seq<u8>) -> int {
    let first = 4 * rank_offset(rank);
    (if board.contains(first as u8) {
        1int
    } else {
        0int
    }) + (if board.contains((first + 1) as u8) {
        1int
    } else {
        0int
    }) + (if board.contains((first + 2) as u8) {
        1int
    } else {
        0int
    }) + (if board.contains((first + 3) as u8) {
        1int
    } else {
        0int
    })
}

/// A pocket pair keeps as many hands as two cards can be chosen from those
/// of its rank that are not on the board: with `k` of the four on the
/// board, `(4 - k) * (3 - k) / 2`.
pub proof fn lemma_pocket_pair_survivors(text: Seq<char>, rank: Rank, board: Seq<u8>)
    requires
        class_of_text(text) == Ok::<HandClass, NotationError>(
            HandClass { first: rank, second: rank, shape: Shape::Pair },
        ),
    ensures
        expanded(seq![text], board, 1).len() == (4 - blocked_of_rank(rank, board)) * (3
            - blocked_of_rank(rank, board)) / 2,
{
    let class = HandClass { first: rank, second: rank, shape: Shape::Pair };
    let hands = class_combos(class, 16);
    let first = (4 * rank_offset(rank)) as u8;
    reveal_with_fuel(class_combos, 17);
    assert(hands =~= seq![
        (Card { rank, suit: crate::cards::Suit::Spades }, Card { rank, suit: crate::cards::Suit::Hearts }),
        (Card { rank, suit: crate::cards::Suit::Spades }, Card { rank, suit: crate::cards::Suit::Diamonds }),
        (Card { rank, suit: crate::cards::Suit::Spades }, Card { rank, suit: crate::cards::Suit::Clubs }),
        (Card { rank, suit: crate::cards::Suit::Hearts }, Card { rank, suit: crate::cards::Suit::Diamonds }),
        (Card { rank, suit: crate::cards::Suit::Hearts }, Card { rank, suit: crate::cards::Suit::Clubs }),
        (Card { rank, suit: crate::cards::Suit::Diamonds }, Card { rank, suit: crate::cards::Suit::Clubs }),
    ]);
    let c0 = Combo(first, (first + 1) as u8);
    let c1 = Combo(first, (first + 2) as u8);
    let c2 = Combo(first, (first + 3) as u8);
    let c3 = Combo((first + 1) as u8, (first + 2) as u8);
    let c4 = Combo((first + 1) as u8, (first + 3) as u8);
    let c5 = Combo((first + 2) as u8, (first + 3) as u8);
    assert(combo_of(hands[0]) == c0);
    assert(combo_of(hands[1]) == c1);
    assert(combo_of(hands[2]) == c2);
    assert(combo_of(hands[3]) == c3);
    assert(combo_of(hands[4]) == c4);
    assert(combo_of(hands[5]) == c5);
    let e = Seq::<Combo>::empty();
    let l0 = add_hands(e, hands, board, 0);
    let l1 = add_hands(e, hands, board, 1);
    let l2 = add_hands(e, hands, board, 2);
    let l3 = add_hands(e, hands, board, 3);
    let l4 = add_hands(e, hands, board, 4);
    let l5 = add_hands(e, hands, board, 5);
    let l6 = add_hands(e, hands, board, 6);
    assert(l0 == e);
    lemma_add_fresh(l0, c0, first);
    assert(l1.len() == l0.len() + if clear_of(c0, board) { 1int } else { 0int });
    lemma_add_fresh(l1, c1, first);
    assert(l2.len() == l1.len() + if clear_of(c1, board) { 1int } else { 0int });
    lemma_add_fresh(l2, c2, first);
    assert(l3.len() == l2.len() + if clear_of(c2, board) { 1int } else { 0int });
    lemma_add_fresh(l3, c3, first);
    assert(l4.len() == l3.len() + if clear_of(c3, board) { 1int } else { 0int });
    lemma_add_fresh(l4, c4, first);
    assert(l5.len() == l4.len() + if clear_of(c4, board) { 1int } else { 0int });
    lemma_add_fresh(l5, c5, first);
    assert(l6.len() == l5.len() + if clear_of(c5, board) { 1int } else { 0int });
    assert(expanded(seq![text], board, 1) == l6) by {
        assert(expanded(seq![text], board, 0) == e);
        assert(seq![text][0] == text);
    }
    let k = blocked_of_rank(rank, board);
    if k == 0 {
        assert((4 - k) * (3 - k) / 2 == 6);
    } else if k == 1 {
        assert((4 - k) * (3 - k) / 2 == 3);
    } else if k == 2 {
        assert((4 - k) * (3 - k) / 2 == 1);
    } else if k == 3 {
        assert((4 - k) * (3 - k) / 2 == 0);
    } else {
        assert((4 - k) * (3 - k) == 0) by (nonlinear_arith)
            requires
                k == 4,
        ;
    }
}

/// The hands of a list, two cards of one rank each, are all of them
/// different from a hand that comes later in the order of the pairings.
spec fn all_before(list: Seq<Combo>, c: Combo, first: u8) -> bool {
    forall|k: int|
        0 <= k < list.len() ==> first <= (#[trigger] list[k]).0 < list[k].1 <= first + 3 && (
        list[k].0 < c.0 || (list[k].0 == c.0 && list[k].1 < c.1))
}

proof fn lemma_add_fresh(list: Seq<Combo>, c: Combo, first: u8)
    requires
        first <= 48,
        first <= c.0 < c.1 <= first + 3,
        all_before(list, c, first),
    ensures
        add_new(list, c) == list.push(c),
        forall|d: Combo|
            first <= d.0 < d.1 <= first + 3 && (c.0 < d.0 || (c.0 == d.0 && c.1 < d.1))
                ==> all_before(list, d, first) && all_before(list.push(c), d, first),
{
}

/// Why the inputs of a solve were rejected.
#[derive(Debug, Clone, Copy, PartialEq, Eq, Structural)]
pub enum ConfigError {
    /// The board is no run of cards, or has the wrong number of cards for
    /// the street.
    InvalidBoard,
    /// A range holds no hand once the hands that the board blocks are
    /// taken out.
    EmptyRange { player: Player },
    /// The starting pot is zero, or pot and stacks together do not fit the
    /// amount type.
    InvalidAmounts,
}

/// The inputs of a solve once they are read: the board as card indices and
/// the two ranges as hand classes.
pub struct SolveInputs {
    pub board: Vec<u8>,
    pub oop_range: Vec<String>,
    pub ip_range: Vec<String>,
}

/// What is wrong with the inputs of a solve, if anything. The board is
/// looked at first, then the range out of position, then the range in
/// position, then the amounts.
pub open spec fn input_error(
    board_text: Seq<char>,
    oop_text: Seq<char>,
    ip_text: Seq<char>,
    starting_pot: u64,
    effective_stack: u64,
    board_cards: nat,
) -> Option<ConfigError> {
    match board_of_text(board_text) {
        Err(_) => Some(ConfigError::InvalidBoard),
        Ok(cards) => {
            let board = card_indices(cards);
            let oop = range_items(oop_text);
            let ip = range_items(ip_text);
            if cards.len() != board_cards {
                Some(ConfigError::InvalidBoard)
            } else if expanded(oop, board, oop.len()).len() == 0 {
                Some(ConfigError::EmptyRange { player: Player::OOP })
            } else if expanded(ip, board, ip.len()).len() == 0 {
                Some(ConfigError::EmptyRange { player: Player::IP })
            } else if starting_pot == 0 || starting_pot + 2 * effective_stack > u64::MAX {
                Some(ConfigError::InvalidAmounts)
            } else {
                None
            }
        },
    }
}

/// Reads and checks the inputs of a solve on a street whose board has
/// `board_cards` cards.
pub fn read_inputs(
    board_str: &str,
    oop_range_str: &str,
    ip_range_str: &str,
    starting_pot: u64,
    effective_stack: u64,
    board_cards: usize,
) -> (res: Result<SolveInputs, ConfigError>)
    ensures
        match input_error(
            board_str@,
            oop_range_str@,
            ip_range_str@,
            starting_pot,
            effective_stack,
            board_cards as nat,
        ) {
            Some(e) => res == Err::<SolveInputs, ConfigError>(e),
            None => {
                &&& res is Ok
                &&& res->Ok_0.board@ == card_indices(board_of_text(board_str@)->Ok_0)
                &&& res->Ok_0.board@.len() == board_cards
                &&& forall|i: int| 0 <= i < board_cards ==> res->Ok_0.board@[i] < 52
                &&& texts_of(res->Ok_0.oop_range@) == range_items(oop_range_str@)
                &&& texts_of(res->Ok_0.ip_range@) == range_items(ip_range_str@)
            },
        },
{
    let board_cards_read: Vec<Card> = match parse_board(board_str) {
        Ok(cards) => cards,
        Err(_) => {
            return Err(ConfigError::InvalidBoard);
        },
    };
    if board_cards_read.len() != board_cards {
        return Err(ConfigError::InvalidBoard);
    }
    let board: Vec<u8> = cards_to_indices(board_cards_read.as_slice());
    proof {
        crate::card_encoding::lemma_card_index_bijection();
        assert forall|i: int| 0 <= i < board@.len() implies board@[i] < 52 by {
            assert(board@[i] == card_index(board_cards_read@[i]) as u8);
        }
    }
    let oop_range: Vec<String> = parse_range(oop_range_str);
    let ip_range: Vec<String> = parse_range(ip_range_str);
    let oop_combos: Vec<Combo> = expand_range_to_combos(oop_range.as_slice(), board.as_slice());
    if oop_combos.len() == 0 {
        return Err(ConfigError::EmptyRange { player: Player::OOP });
    }
    let ip_combos: Vec<Combo> = expand_range_to_combos(ip_range.as_slice(), board.as_slice());
    if ip_combos.len() == 0 {
        return Err(ConfigError::EmptyRange { player: Player::IP });
    }
    if starting_pot == 0 || effective_stack > (u64::MAX - starting_pot) / 2 {
        return Err(ConfigError::InvalidAmounts);
    }
    Ok(SolveInputs { board, oop_range, ip_range })
}

/// The inputs of a river solve.
pub struct RiverSolverConfig {
    pub board: Vec<u8>,
    pub oop_range: Vec<String>,
    pub ip_range: Vec<String>,
    /// Starting pot in chip units.
    pub starting_pot: u64,
    /// Effective stack in chip units.
    pub effective_stack: u64,
    pub iterations: usize,
    /// Bet sizes as fractions of the pot, in thousandths.
    pub bet_sizes: Vec<u64>,
    /// Raise sizes as fractions of the pot, in thousandths.
    pub raise_sizes: Vec<u64>,
    pub max_raises: usize,
}

impl RiverSolverConfig {
    /// Reads the inputs of a river solve: a board of five cards, two
    /// ranges that keep at least one hand each beside the board, a pot
    /// above zero. The bet sizes are the usual ones of the river.
    pub fn new(
        board_str: &str,
        oop_range_str: &str,
        ip_range_str: &str,
        starting_pot: u64,
        effective_stack: u64,
        iterations: usize,
    ) -> (res: Result<RiverSolverConfig, ConfigError>)
        ensures
            match input_error(
                board_str@,
                oop_range_str@,
                ip_range_str@,
                starting_pot,
                effective_stack,
                5,
            ) {
                Some(e) => res == Err::<RiverSolverConfig, ConfigError>(e),
                None => {
                    &&& res is Ok
                    &&& res->Ok_0.board@ == card_indices(board_of_text(board_str@)->Ok_0)
                    &&& res->Ok_0.board@.len() == 5
                    &&& forall|i: int| 0 <= i < 5 ==> res->Ok_0.board@[i] < 52
                    &&& texts_of(res->Ok_0.oop_range@) == range_items(oop_range_str@)
                    &&& texts_of(res->Ok_0.ip_range@) == range_items(ip_range_str@)
                    &&& res->Ok_0.starting_pot == starting_pot
                    &&& res->Ok_0.effective_stack == effective_stack
                    &&& res->Ok_0.iterations == iterations
                    &&& res->Ok_0.bet_sizes@ == seq![330u64, 670u64, 1000u64]
                    &&& res->Ok_0.raise_sizes@ == seq![1000u64]
                    &&& res->Ok_0.max_raises == 3
                },
            },
    {
        match read_inputs(board_str, oop_range_str, ip_range_str, starting_pot, effective_stack, 5) {
            Err(e) => Err(e),
            Ok(inputs) => Ok(
                RiverSolverConfig {
                    board: inputs.board,
                    oop_range: inputs.oop_range,
                    ip_range: inputs.ip_range,
                    starting_pot,
                    effective_stack,
                    iterations,
                    bet_sizes: vec![330u64, 670u64, 1000u64],
                    raise_sizes: vec![1000u64],
                    max_raises: 3,
                },
            ),
        }
    }
}

/// How a terminal node ends for the traverser: a fold is lost by the
/// folder and won by the other player, a showdown ends as the hands decide.
pub open spec fn ending_for(kind: TerminalType, traverser: Player, at_showdown: ShowdownResult) -> ShowdownResult {
    match kind {
        TerminalType::Fold { folder } => if folder == traverser {
            ShowdownResult::Lose
        } else {
            ShowdownResult::Win
        },
        TerminalType::Showdown => at_showdown,
    }
}

/// Twice what the traverser gains at a terminal node, in chip units and
/// counted from the start of the tree: the pot less the own investment for
/// a win, the loss of the investment for a loss, half the pot less the
/// investment for a tie.
pub open spec fn payoff_twice(ending: ShowdownResult, pot: int, invested: int) -> int {
    match ending {
        ShowdownResult::Win => 2 * (pot - invested),
        ShowdownResult::Lose => -2 * invested,
        ShowdownResult::Tie => pot - 2 * invested,
    }
}

/// Twice the traverser's gain at a terminal node, in chip units. The
/// doubling keeps the half pot of a tie whole.
pub fn terminal_payoff_twice(
    terminal_type: TerminalType,
    pot: u64,
    invested: &[u64; 2],
    traverser: Player,
    at_showdown: ShowdownResult,
) -> (payoff: i128)
    ensures
        payoff == payoff_twice(
            ending_for(terminal_type, traverser, at_showdown),
            pot as int,
            invested@[index_of(traverser)] as int,
        ),
{
    let my_invested: i128 = invested[traverser.index()] as i128;
    let pot: i128 = pot as i128;
    let ending: ShowdownResult = match terminal_type {
        TerminalType::Fold { folder } => if folder == traverser {
            ShowdownResult::Lose
        } else {
            ShowdownResult::Win
        },
        TerminalType::Showdown => at_showdown,
    };
    match ending {
        ShowdownResult::Win => 2 * (pot - my_invested),
        ShowdownResult::Lose => 0 - 2 * my_invested,
        ShowdownResult::Tie => pot - 2 * my_invested,
    }
}

/// Whether a hand holds the card.
pub fn combo_holds(c: Combo, card: u8) -> (held: bool)
    ensures
        held == (c.0 == card || c.1 == card),
{
    c.0 == card || c.1 == card
}

/// A copy of a list of hands.
fn copy_combos(combos: &Vec<Combo>) -> (copy: Vec<Combo>)
    ensures
        copy@ == combos@,
{
    let mut copy: Vec<Combo> = Vec::new();
    let mut i: usize = 0;
    while i < combos.len()
        invariant
            i <= combos@.len(),
            copy@ == combos@.subrange(0, i as int),
        decreases combos@.len() - i,
    {
        copy.push(combos[i]);
        assert(copy@ =~= combos@.subrange(0, i + 1));
        i += 1;
    }
    assert(combos@.subrange(0, combos@.len() as int) =~= combos@);
    copy
}

/// The showdown tables of a two-street solve: one for each river card, on
/// the board that the card completes. All tables hold the same hands and
/// the same lists of valid opponents; the scores are those of the
/// completed board.
pub fn river_tables(
    oop_combos: &Vec<Combo>,
    ip_combos: &Vec<Combo>,
    turn_board: &[u8],
    river_cards: &[u8],
) -> (tables: Vec<ShowdownTable>)
    requires
        turn_board@.len() == 4,
        forall|i: int| 0 <= i < 4 ==> turn_board@[i] < 52,
        forall|i: int| 0 <= i < river_cards@.len() ==> river_cards@[i] < 52,
        combos_in_deck(oop_combos@),
        combos_in_deck(ip_combos@),
        oop_combos@.len() <= 65536,
        ip_combos@.len() <= 65536,
    ensures
        tables@.len() == river_cards@.len(),
        forall|k: int|
            0 <= k < tables@.len() ==> {
                &&& (#[trigger] tables@[k]).wf(turn_board@.push(river_cards@[k]))
                &&& tables@[k].oop_combos@ == oop_combos@
                &&& tables@[k].ip_combos@ == ip_combos@
            },
{
    let mut tables: Vec<ShowdownTable> = Vec::new();
    let mut k: usize = 0;
    while k < river_cards.len()
        invariant
            k <= river_cards@.len(),
            turn_board@.len() == 4,
            forall|i: int| 0 <= i < 4 ==> turn_board@[i] < 52,
            forall|i: int| 0 <= i < river_cards@.len() ==> river_cards@[i] < 52,
            combos_in_deck(oop_combos@),
            combos_in_deck(ip_combos@),
            oop_combos@.len() <= 65536,
            ip_combos@.len() <= 65536,
            tables@.len() == k,
            forall|j: int|
                0 <= j < k ==> {
                    &&& (#[trigger] tables@[j]).wf(turn_board@.push(river_cards@[j]))
                    &&& tables@[j].oop_combos@ == oop_combos@
                    &&& tables@[j].ip_combos@ == ip_combos@
                },
        decreases river_cards@.len() - k,
    {
        let board: [u8; 5] = [
            turn_board[0],
            turn_board[1],
            turn_board[2],
            turn_board[3],
            river_cards[k],
        ];
        assert(board@ =~= turn_board@.push(river_cards@[k as int]));
        let table = ShowdownTable::new(copy_combos(oop_combos), copy_combos(ip_combos), &board);
        tables.push(table);
        k += 1;
    }
    tables
}

/// The places among the first `n` cards whose card the hand does not
/// hold, ascending.
pub open spec fn deals_upto(cards: Seq<u8>, hand: Combo, n: nat) -> Seq<usize>
    decreases n,
{
    if n == 0 {
        Seq::empty()
    } else if hand.0 == cards[n - 1] || hand.1 == cards[n - 1] {
        deals_upto(cards, hand, (n - 1) as nat)
    } else {
        deals_upto(cards, hand, (n - 1) as nat).push((n - 1) as usize)
    }
}

/// The cards of a chance node that can still be dealt to a player who
/// holds `hand`: the places of the cards that the hand does not hold.
pub fn legal_deals(cards: &[u8], hand: Combo) -> (places: Vec<usize>)
    ensures
        places@ == deals_upto(cards@, hand, cards@.len()),
{
    let mut places: Vec<usize> = Vec::new();
    let mut k: usize = 0;
    while k < cards.len()
        invariant
            k <= cards@.len(),
            places@ == deals_upto(cards@, hand, k as nat),
        decreases cards@.len() - k,
    {
        if !combo_holds(hand, cards[k]) {
            places.push(k);
        }
        k += 1;
    }
    places
}

/// Which hands stay possible once `card` is dealt: entry `j` holds exactly
/// when hand `j` does not hold the card.
pub fn free_of_card(combos: &Vec<Combo>, card: u8) -> (free: Vec<bool>)
    ensures
        free@.len() == combos@.len(),
        forall|j: int|
            0 <= j < free@.len() ==> (#[trigger] free@[j] <==> combos@[j].0 != card && combos@[j].1
                != card),
{
    let mut free: Vec<bool> = Vec::new();
    let mut j: usize = 0;
    while j < combos.len()
        invariant
            j <= combos@.len(),
            free@.len() == j,
            forall|k: int|
                0 <= k < j ==> (#[trigger] free@[k] <==> combos@[k].0 != card && combos@[k].1
                    != card),
        decreases combos@.len() - j,
    {
        free.push(!combo_holds(combos[j], card));
        j += 1;
    }
    free
}

} // verus!
