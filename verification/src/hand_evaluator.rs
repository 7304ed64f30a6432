//! The rules of poker hand ranking, stated over rank and suit histograms.
//!
//! A hand is a sequence of card indices. Its value is a packed integer: the
//! category in bits 20..23 and up to five rank values (2..14) in the 4-bit
//! fields below it, most significant first, so that comparing two values as
//! integers compares the hands.

use vstd::prelude::*;

verus! {

/// The ten hand categories, weakest first.
#[derive(Debug, Clone, Copy, PartialEq, Eq, Hash, Structural)]
pub enum HandCategory {
    HighCard,
    OnePair,
    TwoPair,
    ThreeOfAKind,
    Straight,
    Flush,
    FullHouse,
    FourOfAKind,
    StraightFlush,
    RoyalFlush,
}

/// The number that stands for a category inside a packed value.
pub open spec fn category_number(c: HandCategory) -> int {
    match c {
        HandCategory::HighCard => 0,
        HandCategory::OnePair => 1,
        HandCategory::TwoPair => 2,
        HandCategory::ThreeOfAKind => 3,
        HandCategory::Straight => 4,
        HandCategory::Flush => 5,
        HandCategory::FullHouse => 6,
        HandCategory::FourOfAKind => 7,
        HandCategory::StraightFlush => 8,
        HandCategory::RoyalFlush => 9,
    }
}

/// Rank offset (0 deuce .. 12 ace) of a card index.
pub open spec fn rank_of(card: u8) -> int {
    card as int / 4
}

/// Suit offset (0..3) of a card index.
pub open spec fn suit_of(card: u8) -> int {
    card as int % 4
}

/// How many cards of the hand have rank offset `r`.
pub open spec fn count_rank(cards: Seq<u8>, r: int) -> int
    decreases cards.len(),
{
    if cards.len() == 0 {
        0
    } else {
        count_rank(cards.drop_last(), r) + if rank_of(cards.last()) == r {
            1int
        } else {
            0int
        }
    }
}

/// How many cards of the hand have suit offset `s`.
pub open spec fn count_suit(cards: Seq<u8>, s: int) -> int
    decreases cards.len(),
{
    if cards.len() == 0 {
        0
    } else {
        count_suit(cards.drop_last(), s) + if suit_of(cards.last()) == s {
            1int
        } else {
            0int
        }
    }
}

/// How many times the card index `c` occurs in the hand.
pub open spec fn count_card(cards: Seq<u8>, c: int) -> int
    decreases cards.len(),
{
    if cards.len() == 0 {
        0
    } else {
        count_card(cards.drop_last(), c) + if cards.last() == c {
            1int
        } else {
            0int
        }
    }
}

/// Multiplicity of each of the 13 ranks in the hand.
pub open spec fn rank_histogram(cards: Seq<u8>) -> Seq<int> {
    Seq::new(13, |r: int| count_rank(cards, r))
}

/// Which ranks the hand holds in suit `s`: 1 where present, else 0.
pub open spec fn suit_presence(cards: Seq<u8>, s: int) -> Seq<int> {
    Seq::new(
        13,
        |r: int|
            if count_card(cards, 4 * r + s) > 0 {
                1int
            } else {
                0int
            },
    )
}

/// Sum of the histogram entries below rank offset `n`.
pub open spec fn histogram_total(h: Seq<int>, n: int) -> int
    decreases n,
{
    if n <= 0 {
        0
    } else {
        histogram_total(h, n - 1) + h[n - 1]
    }
}

/// The rank values (offset + 2) at offsets `start..13` whose multiplicity
/// lies in `lo..=hi`, highest first.
pub open spec fn ranks_from(h: Seq<int>, lo: int, hi: int, start: int) -> Seq<int>
    decreases 13 - start,
{
    if start >= 13 {
        Seq::empty()
    } else {
        let higher = ranks_from(h, lo, hi, start + 1);
        if lo <= h[start] <= hi {
            higher.push(start + 2)
        } else {
            higher
        }
    }
}

/// The rank values that occur exactly `c` times, highest first.
pub open spec fn ranks_with(h: Seq<int>, c: int) -> Seq<int> {
    ranks_from(h, c, c, 0)
}

/// The rank values that occur at all, highest first.
pub open spec fn ranks_present(h: Seq<int>) -> Seq<int> {
    ranks_from(h, 1, 7, 0)
}

/// Entry `i` of a list, or 0 past its end.
pub open spec fn entry(list: Seq<int>, i: int) -> int {
    if 0 <= i < list.len() {
        list[i]
    } else {
        0
    }
}

/// Five consecutive ranks are present, the highest at offset `top`.
pub open spec fn run_ends_at(h: Seq<int>, top: int) -> bool {
    &&& 4 <= top <= 12
    &&& h[top] > 0
    &&& h[top - 1] > 0
    &&& h[top - 2] > 0
    &&& h[top - 3] > 0
    &&& h[top - 4] > 0
}

/// Ace, deuce, three, four and five are present.
pub open spec fn wheel_present(h: Seq<int>) -> bool {
    h[12] > 0 && h[0] > 0 && h[1] > 0 && h[2] > 0 && h[3] > 0
}

/// Rank value of the highest card of the best ordinary straight whose top
/// offset is at most `top`, or 0 when there is none.
pub open spec fn best_run(h: Seq<int>, top: int) -> int
    decreases top,
{
    if top < 4 {
        0
    } else if run_ends_at(h, top) {
        top + 2
    } else {
        best_run(h, top - 1)
    }
}

/// Rank value of the high card of the best straight among the present
/// ranks: 6..14 for an ordinary straight, 5 for the wheel (which counts only
/// when no ordinary straight exists), 0 for none.
pub open spec fn straight_high_of(h: Seq<int>) -> int {
    if best_run(h, 12) > 0 {
        best_run(h, 12)
    } else if wheel_present(h) {
        5
    } else {
        0
    }
}

/// A category and up to five rank values as one integer. Entries past the
/// fifth are ignored, missing ones count as 0.
pub open spec fn pack(category: int, ranks: Seq<int>) -> int {
    category * 0x100000 + entry(ranks, 0) * 0x10000 + entry(ranks, 1) * 0x1000 + entry(ranks, 2)
        * 0x100 + entry(ranks, 3) * 0x10 + entry(ranks, 4)
}

/// The highest of three rank values.
pub open spec fn highest_of(a: int, b: int, c: int) -> int {
    if a >= b && a >= c {
        a
    } else if b >= c {
        b
    } else {
        c
    }
}

/// Value of a hand without a flush, from the multiplicities of its ranks.
///
/// Four of a kind takes as its second rank the highest rank held beside
/// the four, be it held once, twice or three times. A full house takes a
/// second set of trips as its pair. With three pairs the third pair
/// competes with the best single card for the kicker.
pub open spec fn non_flush_value(h: Seq<int>) -> int {
    let quads = ranks_with(h, 4);
    let trips = ranks_with(h, 3);
    let pairs = ranks_with(h, 2);
    let singles = ranks_with(h, 1);
    if quads.len() >= 1 {
        let kicker = highest_of(entry(trips, 0), entry(pairs, 0), entry(singles, 0));
        pack(7, seq![quads[0], kicker])
    } else if trips.len() >= 1 && (pairs.len() >= 1 || trips.len() >= 2) {
        let second = if trips.len() >= 2 {
            trips[1]
        } else {
            pairs[0]
        };
        pack(6, seq![trips[0], second])
    } else if straight_high_of(h) > 0 {
        pack(4, seq![straight_high_of(h)])
    } else if trips.len() >= 1 {
        pack(3, seq![trips[0], entry(singles, 0), entry(singles, 1)])
    } else if pairs.len() >= 2 {
        let kicker = if entry(pairs, 2) > entry(singles, 0) {
            entry(pairs, 2)
        } else {
            entry(singles, 0)
        };
        pack(2, seq![pairs[0], pairs[1], kicker])
    } else if pairs.len() == 1 {
        pack(1, seq![pairs[0], entry(singles, 0), entry(singles, 1), entry(singles, 2)])
    } else {
        pack(0, singles)
    }
}

/// Value of five or more cards of one suit, from the ranks present in it.
pub open spec fn flush_value(present: Seq<int>) -> int {
    let high = straight_high_of(present);
    if high == 14 {
        pack(9, seq![14])
    } else if high > 0 {
        pack(8, seq![high])
    } else {
        pack(5, ranks_present(present))
    }
}

/// The lowest suit offset at or above `s` that holds five or more cards of
/// the hand, or -1 when there is none.
pub open spec fn flush_suit_from(cards: Seq<u8>, s: int) -> int
    decreases 4 - s,
{
    if s >= 4 {
        -1
    } else if count_suit(cards, s) >= 5 {
        s
    } else {
        flush_suit_from(cards, s + 1)
    }
}

/// Value of a hand of card indices: that of its flush suit if one suit holds
/// five cards or more, else that of its rank multiplicities.
pub open spec fn hand_value(cards: Seq<u8>) -> int {
    let suit = flush_suit_from(cards, 0);
    if suit >= 0 {
        flush_value(suit_presence(cards, suit))
    } else {
        non_flush_value(rank_histogram(cards))
    }
}

/// The first five entries of `a` come before those of `b` in dictionary
/// order.
pub open spec fn ranks_below(a: Seq<int>, b: Seq<int>) -> bool {
    ||| entry(a, 0) < entry(b, 0)
    ||| (entry(a, 0) == entry(b, 0) && entry(a, 1) < entry(b, 1))
    ||| (entry(a, 0) == entry(b, 0) && entry(a, 1) == entry(b, 1) && entry(a, 2) < entry(b, 2))
    ||| (entry(a, 0) == entry(b, 0) && entry(a, 1) == entry(b, 1) && entry(a, 2) == entry(b, 2)
        && entry(a, 3) < entry(b, 3))
    ||| (entry(a, 0) == entry(b, 0) && entry(a, 1) == entry(b, 1) && entry(a, 2) == entry(b, 2)
        && entry(a, 3) == entry(b, 3) && entry(a, 4) < entry(b, 4))
}

/// The first five entries of `a` and `b` agree.
pub open spec fn ranks_equal(a: Seq<int>, b: Seq<int>) -> bool {
    forall|i: int| 0 <= i < 5 ==> entry(a, i) == entry(b, i)
}

/// The first five entries are rank fields: between 0 and 15.
pub open spec fn rank_fields(a: Seq<int>) -> bool {
    forall|i: int| 0 <= i < 5 ==> 0 <= #[trigger] entry(a, i) < 16
}

/// Packed values compare as their parts do: first by category, then by the
/// rank fields from the most significant down. Two values are equal only
/// when the categories and all five rank fields agree.
pub proof fn lemma_pack_order(c1: int, r1: Seq<int>, c2: int, r2: Seq<int>)
    requires
        rank_fields(r1),
        rank_fields(r2),
    ensures
        pack(c1, r1) < pack(c2, r2) <==> (c1 < c2 || (c1 == c2 && ranks_below(r1, r2))),
        pack(c1, r1) == pack(c2, r2) <==> (c1 == c2 && ranks_equal(r1, r2)),
{
    assert(0 <= entry(r1, 0) < 16 && 0 <= entry(r1, 1) < 16 && 0 <= entry(r1, 2) < 16 && 0
        <= entry(r1, 3) < 16 && 0 <= entry(r1, 4) < 16);
    assert(0 <= entry(r2, 0) < 16 && 0 <= entry(r2, 1) < 16 && 0 <= entry(r2, 2) < 16 && 0
        <= entry(r2, 3) < 16 && 0 <= entry(r2, 4) < 16);
}

/// The category and the five rank fields that a packed value holds.
pub proof fn lemma_pack_fields(c: int, r: Seq<int>)
    requires
        rank_fields(r),
    ensures
        pack(c, r) / 0x100000 == c,
        (pack(c, r) / 0x10000) % 16 == entry(r, 0),
        (pack(c, r) / 0x1000) % 16 == entry(r, 1),
        (pack(c, r) / 0x100) % 16 == entry(r, 2),
        (pack(c, r) / 0x10) % 16 == entry(r, 3),
        pack(c, r) % 16 == entry(r, 4),
{
    let f0 = entry(r, 0);
    let f1 = entry(r, 1);
    let f2 = entry(r, 2);
    let f3 = entry(r, 3);
    let f4 = entry(r, 4);
    assert(0 <= f0 < 16 && 0 <= f1 < 16 && 0 <= f2 < 16 && 0 <= f3 < 16 && 0 <= f4 < 16);
    let v = pack(c, r);
    let v4 = 16 * c + f0;
    let v3 = 16 * v4 + f1;
    let v2 = 16 * v3 + f2;
    let v1 = 16 * v2 + f3;
    assert(v == 16 * v1 + f4);
    assert(v / 0x10 == v1 && v % 16 == f4);
    assert(v1 / 0x10 == v2 && v1 % 16 == f3);
    assert(v2 / 0x10 == v3 && v2 % 16 == f2);
    assert(v3 / 0x10 == v4 && v3 % 16 == f1);
    assert(v4 / 0x10 == c && v4 % 16 == f0);
    assert(v / 0x100 == v2) by {
        assert(v == 0x100 * v2 + (16 * f3 + f4));
    }
    assert(v / 0x1000 == v3) by {
        assert(v == 0x1000 * v3 + (0x100 * f2 + 16 * f3 + f4));
    }
    assert(v / 0x10000 == v4) by {
        assert(v == 0x10000 * v4 + (0x1000 * f1 + 0x100 * f2 + 16 * f3 + f4));
    }
    assert(v / 0x100000 == c) by {
        assert(v == 0x100000 * c + (0x10000 * f0 + 0x1000 * f1 + 0x100 * f2 + 16 * f3 + f4));
    }
}

} // verus!
