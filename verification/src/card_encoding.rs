//! Cards as integers 0..51: `index = 4 * rank_offset + suit_offset`, with
//! the deuce at rank offset 0 and suits in the order spades, hearts,
//! diamonds, clubs.

use vstd::prelude::*;
use crate::cards::{Card, Rank, Suit, rank_offset, suit_offset, rank_at, suit_at};

verus! {

/// The integer that stands for a card.
pub open spec fn card_index(card: Card) -> int {
    4 * rank_offset(card.rank) + suit_offset(card.suit)
}

/// The card an integer stands for.
pub open spec fn card_at(index: int) -> Card {
    Card { rank: rank_at(index / 4), suit: suit_at(index % 4) }
}

/// The integers of a run of cards, in order.
pub open spec fn card_indices(cards: Seq<Card>) -> Seq<u8> {
    Seq::new(cards.len(), |i: int| card_index(cards[i]) as u8)
}

/// The live cards below `n`, ascending: every index under `n` that does not
/// occur in `dead`.
pub open spec fn live_below(dead: Seq<u8>, n: nat) -> Seq<u8>
    decreases n,
{
    if n == 0 {
        Seq::empty()
    } else if dead.contains((n - 1) as u8) {
        live_below(dead, (n - 1) as nat)
    } else {
        live_below(dead, (n - 1) as nat).push((n - 1) as u8)
    }
}

/// Encodes a card as an integer below 52.
pub fn card_to_index(card: &Card) -> (index: u8)
    ensures
        index == card_index(*card),
        index < 52,
{
    let rank_idx: u8 = card.rank.value() - 2;
    let suit_idx: u8 = card.suit.offset();
    rank_idx * 4 + suit_idx
}

/// Decodes an integer below 52 into its card.
pub fn index_to_card(index: u8) -> (card: Card)
    requires
        index < 52,
    ensures
        card == card_at(index as int),
        card_index(card) == index,
{
    Card::new(Rank::from_offset(index / 4), Suit::from_offset(index % 4))
}

/// Encodes each card of a slice, keeping the order.
pub fn cards_to_indices(cards: &[Card]) -> (indices: Vec<u8>)
    ensures
        indices@ == card_indices(cards@),
{
    let mut indices: Vec<u8> = Vec::new();
    let mut i: usize = 0;
    while i < cards.len()
        invariant
            i <= cards.len(),
            indices@ == card_indices(cards@.subrange(0, i as int)),
        decreases cards.len() - i,
    {
        let index: u8 = card_to_index(&cards[i]);
        indices.push(index);
        assert(indices@ =~= card_indices(cards@.subrange(0, i + 1)));
        i += 1;
    }
    assert(cards@.subrange(0, cards.len() as int) =~= cards@);
    indices
}

/// The deck without the dead cards: every index below 52 that `dead` does
/// not mention, in ascending order. Dead entries of 52 and above name no
/// card and remove nothing.
pub fn remaining_deck(dead: &[u8]) -> (deck: Vec<u8>)
    ensures
        deck@ == live_below(dead@, 52),
{
    let mut dead_set: [bool; 52] = [false; 52];
    let mut k: usize = 0;
    while k < dead.len()
        invariant
            k <= dead.len(),
            forall|c: int| 0 <= c < 52 ==> (#[trigger] dead_set[c] <==> dead@.subrange(0, k as int).contains(c as u8)),
        decreases dead.len() - k,
    {
        let d: u8 = dead[k];
        let ghost before = dead@.subrange(0, k as int);
        let ghost after = dead@.subrange(0, k + 1);
        assert(after =~= before.push(d));
        if d < 52 {
            dead_set[d as usize] = true;
        }
        assert forall|c: int| 0 <= c < 52 implies (#[trigger] dead_set[c] <==> after.contains(c as u8)) by {
            if c == d {
                assert(after[k as int] == d);
            } else if before.contains(c as u8) {
                let j = choose|j: int| 0 <= j < before.len() && before[j] == c as u8;
                assert(after[j] == c as u8);
            } else if after.contains(c as u8) {
                let j = choose|j: int| 0 <= j < after.len() && after[j] == c as u8;
                assert(j < k);
                assert(before[j] == c as u8);
            }
        }
        k += 1;
    }
    assert(dead@.subrange(0, dead.len() as int) =~= dead@);
    let mut deck: Vec<u8> = Vec::new();
    let mut c: u8 = 0;
    while c < 52
        invariant
            c <= 52,
            deck@ == live_below(dead@, c as nat),
            forall|x: int| 0 <= x < 52 ==> (#[trigger] dead_set[x] <==> dead@.contains(x as u8)),
        decreases 52 - c,
    {
        if !dead_set[c as usize] {
            deck.push(c);
        }
        c += 1;
    }
    deck
}

/// Encoding and decoding are inverse to each other: the 52 cards and the
/// integers 0..51 correspond one to one.
pub proof fn lemma_card_index_bijection()
    ensures
        forall|card: Card| 0 <= #[trigger] card_index(card) < 52 && card_at(card_index(card)) == card,
        forall|i: int| 0 <= i < 52 ==> card_index(#[trigger] card_at(i)) == i,
{
    assert forall|card: Card| 0 <= #[trigger] card_index(card) < 52 && card_at(card_index(card)) == card by {
        let r = rank_offset(card.rank);
        let s = suit_offset(card.suit);
        assert((4 * r + s) / 4 == r);
        assert((4 * r + s) % 4 == s);
    }
}

/// What `live_below` holds: it is strictly ascending, stays below `n`, and a
/// card below `n` is in it exactly when it is not dead.
pub proof fn lemma_live_below(dead: Seq<u8>, n: nat)
    requires
        n <= 256,
    ensures
        forall|i: int| 0 <= i < live_below(dead, n).len() ==> (#[trigger] live_below(dead, n)[i]) < n,
        forall|i: int, j: int| 0 <= i < j < live_below(dead, n).len() ==> live_below(dead, n)[i] < live_below(dead, n)[j],
        forall|c: u8| c < n ==> (live_below(dead, n).contains(c) <==> !dead.contains(c)),
        live_below(dead, n).len() <= n,
    decreases n,
{
    if n > 0 {
        let prev = live_below(dead, (n - 1) as nat);
        lemma_live_below(dead, (n - 1) as nat);
        let cur = live_below(dead, n);
        let top = (n - 1) as u8;
        assert forall|c: u8| c < n implies (cur.contains(c) <==> !dead.contains(c)) by {
            if dead.contains(top) {
                if c == top {
                    if cur.contains(c) {
                        let j = choose|j: int| 0 <= j < cur.len() && cur[j] == c;
                        assert(prev[j] < n - 1);
                    }
                }
            } else {
                assert(cur == prev.push(top));
                if c == top {
                    assert(cur[prev.len() as int] == top);
                } else {
                    if prev.contains(c) {
                        let j = choose|j: int| 0 <= j < prev.len() && prev[j] == c;
                        assert(cur[j] == c);
                    }
                    if cur.contains(c) {
                        let j = choose|j: int| 0 <= j < cur.len() && cur[j] == c;
                        assert(j < prev.len());
                        assert(prev[j] == c);
                    }
                }
            }
        }
    }
}

/// No card occurs twice.
pub open spec fn distinct_cards(cards: Seq<u8>) -> bool {
    forall|i: int, j: int| 0 <= i < j < cards.len() ==> cards[i] != cards[j]
}

/// How many card indices below `n` are dead.
pub open spec fn dead_below(dead: Seq<u8>, n: nat) -> nat
    decreases n,
{
    if n == 0 {
        0
    } else if dead.contains((n - 1) as u8) {
        dead_below(dead, (n - 1) as nat) + 1
    } else {
        dead_below(dead, (n - 1) as nat)
    }
}

proof fn lemma_live_and_dead(dead: Seq<u8>, n: nat)
    ensures
        live_below(dead, n).len() + dead_below(dead, n) == n,
    decreases n,
{
    if n > 0 {
        lemma_live_and_dead(dead, (n - 1) as nat);
    }
}

proof fn lemma_dead_push(dead: Seq<u8>, card: u8, n: nat)
    requires
        !dead.contains(card),
        n <= 256,
    ensures
        dead_below(dead.push(card), n) == dead_below(dead, n) + if card < n {
            1nat
        } else {
            0nat
        },
    decreases n,
{
    if n > 0 {
        lemma_dead_push(dead, card, (n - 1) as nat);
        let c = (n - 1) as u8;
        let more = dead.push(card);
        if dead.contains(c) {
            let j = choose|j: int| 0 <= j < dead.len() && dead[j] == c;
            assert(more[j] == c);
        }
        if more.contains(c) && c != card {
            let j = choose|j: int| 0 <= j < more.len() && more[j] == c;
            assert(dead[j] == c);
        }
        if c == card {
            assert(more[dead.len() as int] == c);
        }
    }
}

proof fn lemma_dead_count(dead: Seq<u8>, n: nat)
    requires
        distinct_cards(dead),
        forall|i: int| 0 <= i < dead.len() ==> dead[i] < n,
        n <= 256,
    ensures
        dead_below(dead, n) == dead.len(),
    decreases dead.len(),
{
    if dead.len() == 0 {
        lemma_dead_none(dead, n);
    } else {
        let shorter = dead.drop_last();
        let card = dead.last();
        lemma_dead_count(shorter, n);
        if shorter.contains(card) {
            let j = choose|j: int| 0 <= j < shorter.len() && shorter[j] == card;
            assert(dead[j] == dead[dead.len() - 1]);
        }
        assert(dead =~= shorter.push(card));
        lemma_dead_push(shorter, card, n);
    }
}

proof fn lemma_dead_none(dead: Seq<u8>, n: nat)
    requires
        dead.len() == 0,
    ensures
        dead_below(dead, n) == 0,
    decreases n,
{
    if n > 0 {
        lemma_dead_none(dead, (n - 1) as nat);
    }
}

/// With `k` different dead cards, `52 - k` cards remain.
pub proof fn lemma_remaining_count(dead: Seq<u8>)
    requires
        distinct_cards(dead),
        forall|i: int| 0 <= i < dead.len() ==> dead[i] < 52,
    ensures
        live_below(dead, 52).len() == 52 - dead.len(),
{
    lemma_live_and_dead(dead, 52);
    lemma_dead_count(dead, 52);
}

} // verus!
