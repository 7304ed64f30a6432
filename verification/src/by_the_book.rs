//! Five cards ranked by the book, and the evaluator against it.
//!
//! The book reads a hand of five from its ranks in descending order and
//! from whether its cards are of one suit. The fast evaluator counts ranks
//! and suits instead; here the two are shown to agree.

use vstd::prelude::*;
use crate::best_five::{
    descending, in_straight, is_pick, lemma_all_in_suit, lemma_best_five,
    lemma_best_run_at_least, lemma_card_counts, lemma_counts_by_card, lemma_hand_profile,
    lemma_straight_window, lemma_suit_count_bounds, pick_five, proper_cards,
};
use crate::hand_evaluator::{
    HandCategory, category_number, count_card, count_rank, count_suit, flush_suit_from,
    hand_value, non_flush_value, pack,
    rank_histogram, rank_of, ranks_from, ranks_present, ranks_with, run_ends_at,
    straight_high_of, suit_of, suit_presence, wheel_present,
};

verus! {

/// The rank values (2 to 14) of the cards, in the order of the cards.
pub open spec fn rank_values_of(cards: Seq<u8>) -> Seq<int> {
    Seq::new(cards.len(), |i: int| rank_of(cards[i]) + 2)
}

/// Five rank values in descending order, equal ones side by side.
pub open spec fn sorted_five(r: Seq<int>) -> bool {
    &&& r.len() == 5
    &&& 14 >= r[0] >= r[1] >= r[2] >= r[3] >= r[4] >= 2
}

/// All cards of the hand are of the suit of the first.
pub open spec fn of_one_suit(cards: Seq<u8>) -> bool {
    forall|i: int| 0 <= i < cards.len() ==> suit_of(#[trigger] cards[i]) == suit_of(cards[0])
}

/// The high card of the straight that five sorted ranks make: the highest
/// rank where the five are in a row, 5 for ace to five, 0 for no straight.
pub open spec fn straight_of_five(r: Seq<int>) -> int {
    if r[0] == r[1] + 1 && r[1] == r[2] + 1 && r[2] == r[3] + 1 && r[3] == r[4] + 1 {
        r[0]
    } else if r[0] == 14 && r[1] == 5 && r[2] == 4 && r[3] == 3 && r[4] == 2 {
        5
    } else {
        0
    }
}

/// The value of five cards by the book, from their ranks in descending
/// order and from whether they are of one suit.
pub open spec fn book_value(r: Seq<int>, one_suit: bool) -> int {
    let straight = straight_of_five(r);
    if one_suit && straight == 14 {
        pack(9, seq![14int])
    } else if one_suit && straight > 0 {
        pack(8, seq![straight])
    } else if r[0] == r[3] {
        pack(7, seq![r[0], r[4]])
    } else if r[1] == r[4] {
        pack(7, seq![r[1], r[0]])
    } else if r[0] == r[2] && r[3] == r[4] {
        pack(6, seq![r[0], r[3]])
    } else if r[0] == r[1] && r[2] == r[4] {
        pack(6, seq![r[2], r[0]])
    } else if one_suit {
        pack(5, r)
    } else if straight > 0 {
        pack(4, seq![straight])
    } else if r[0] == r[2] {
        pack(3, seq![r[0], r[3], r[4]])
    } else if r[1] == r[3] {
        pack(3, seq![r[1], r[0], r[4]])
    } else if r[2] == r[4] {
        pack(3, seq![r[2], r[0], r[1]])
    } else if r[0] == r[1] && r[2] == r[3] {
        pack(2, seq![r[0], r[2], r[4]])
    } else if r[0] == r[1] && r[3] == r[4] {
        pack(2, seq![r[0], r[3], r[2]])
    } else if r[1] == r[2] && r[3] == r[4] {
        pack(2, seq![r[1], r[3], r[0]])
    } else if r[0] == r[1] {
        pack(1, seq![r[0], r[2], r[3], r[4]])
    } else if r[1] == r[2] {
        pack(1, seq![r[1], r[0], r[3], r[4]])
    } else if r[2] == r[3] {
        pack(1, seq![r[2], r[0], r[1], r[4]])
    } else if r[3] == r[4] {
        pack(1, seq![r[3], r[0], r[1], r[2]])
    } else {
        pack(0, r)
    }
}

/// How often a value occurs in a sequence.
pub open spec fn occurrences_of(s: Seq<int>, v: int) -> int
    decreases s.len(),
{
    if s.len() == 0 {
        0
    } else {
        occurrences_of(s.drop_last(), v) + if s.last() == v {
            1int
        } else {
            0int
        }
    }
}

proof fn lemma_multiset_count(s: Seq<int>, v: int)
    ensures
        s.to_multiset().count(v) == occurrences_of(s, v),
    decreases s.len(),
{
    if s.len() == 0 {
        vstd::seq_lib::to_multiset_len(s);
        assert(s.to_multiset().len() == 0);
        if s.to_multiset().count(v) > 0 {
            vstd::seq_lib::to_multiset_contains(s, v);
        }
    } else {
        let shorter = s.drop_last();
        lemma_multiset_count(shorter, v);
        vstd::seq_lib::to_multiset_build(shorter, s.last());
        assert(shorter.push(s.last()) =~= s);
    }
}

proof fn lemma_rank_occurrences(cards: Seq<u8>, v: int)
    ensures
        occurrences_of(rank_values_of(cards), v) == count_rank(cards, v - 2),
    decreases cards.len(),
{
    if cards.len() > 0 {
        lemma_rank_occurrences(cards.drop_last(), v);
        assert(rank_values_of(cards).drop_last() =~= rank_values_of(cards.drop_last()));
    }
}

/// The counts of a hand whose ranks are the five sorted values.
proof fn lemma_histogram_of_five(cards: Seq<u8>, r: Seq<int>)
    requires
        sorted_five(r),
        rank_values_of(cards).to_multiset() == r.to_multiset(),
    ensures
        forall|x: int|
            0 <= x < 13 ==> #[trigger] rank_histogram(cards)[x] == (if r[0] == x + 2 {
                1int
            } else {
                0int
            }) + (if r[1] == x + 2 {
                1int
            } else {
                0int
            }) + (if r[2] == x + 2 {
                1int
            } else {
                0int
            }) + (if r[3] == x + 2 {
                1int
            } else {
                0int
            }) + (if r[4] == x + 2 {
                1int
            } else {
                0int
            }),
{
    assert forall|x: int| 0 <= x < 13 implies #[trigger] rank_histogram(cards)[x] == (if r[0] == x
        + 2 {
        1int
    } else {
        0int
    }) + (if r[1] == x + 2 {
        1int
    } else {
        0int
    }) + (if r[2] == x + 2 {
        1int
    } else {
        0int
    }) + (if r[3] == x + 2 {
        1int
    } else {
        0int
    }) + (if r[4] == x + 2 {
        1int
    } else {
        0int
    }) by {
        let v = x + 2;
        lemma_multiset_count(rank_values_of(cards), v);
        lemma_multiset_count(r, v);
        lemma_rank_occurrences(cards, v);
        reveal_with_fuel(occurrences_of, 6);
        let r4 = r.drop_last();
        let r3 = r4.drop_last();
        let r2 = r3.drop_last();
        let r1 = r2.drop_last();
        assert(r4.last() == r[3] && r3.last() == r[2] && r2.last() == r[1] && r1.last() == r[0]);
        assert(r1.drop_last().len() == 0);
    }
}

/// How many entries of a descending list are at least `v`: they stand at
/// its start.
pub open spec fn above(list: Seq<int>, v: int) -> int
    decreases list.len(),
{
    if list.len() == 0 {
        0
    } else if list.last() >= v {
        list.len() as int
    } else {
        above(list.drop_last(), v)
    }
}

proof fn lemma_above(list: Seq<int>, v: int)
    requires
        descending(list),
    ensures
        0 <= above(list, v) <= list.len(),
        forall|k: int| 0 <= k < above(list, v) ==> #[trigger] list[k] >= v,
        forall|k: int| above(list, v) <= k < list.len() ==> #[trigger] list[k] < v,
    decreases list.len(),
{
    if list.len() > 0 {
        let shorter = list.drop_last();
        if list.last() >= v {
            assert forall|k: int| 0 <= k < list.len() implies #[trigger] list[k] >= v by {
                if k < list.len() - 1 {
                    assert(list[k] > list[list.len() - 1]);
                }
            }
        } else {
            assert(descending(shorter)) by {
                assert forall|j: int, k: int| 0 <= j < k < shorter.len() implies shorter[j]
                    > shorter[k] by {
                    assert(list[j] > list[k]);
                }
            }
            lemma_above(shorter, v);
            assert forall|k: int| 0 <= k < above(list, v) implies #[trigger] list[k] >= v by {
                assert(shorter[k] >= v);
            }
            assert forall|k: int| above(list, v) <= k < list.len() implies #[trigger] list[k]
                < v by {
                if k < shorter.len() {
                    assert(shorter[k] < v);
                }
            }
        }
    }
}

/// A descending list that holds exactly the ranks whose count lies in a
/// range is the list of these ranks.
pub proof fn lemma_list_is(h: Seq<int>, lo: int, hi: int, list: Seq<int>)
    requires
        h.len() == 13,
        descending(list),
        forall|x: int| 0 <= x < 13 ==> ((lo <= #[trigger] h[x] <= hi) <==> list.contains(x + 2)),
    ensures
        ranks_from(h, lo, hi, 0) == list,
{
    lemma_list_from(h, lo, hi, list, 0);
    lemma_above(list, 2);
    assert(list.subrange(0, above(list, 2)) =~= list);
}

proof fn lemma_list_from(h: Seq<int>, lo: int, hi: int, list: Seq<int>, start: int)
    requires
        h.len() == 13,
        descending(list),
        forall|x: int| 0 <= x < 13 ==> ((lo <= #[trigger] h[x] <= hi) <==> list.contains(x + 2)),
        0 <= start <= 13,
    ensures
        ranks_from(h, lo, hi, start) == list.subrange(0, above(list, start + 2)),
    decreases 13 - start,
{
    lemma_above(list, start + 2);
    lemma_above(list, start + 3);
    let here = above(list, start + 2);
    let higher = above(list, start + 3);
    if start < 13 {
        lemma_list_from(h, lo, hi, list, start + 1);
        if lo <= h[start] <= hi {
            assert(list.contains(start + 2));
            let k = choose|k: int| 0 <= k < list.len() && list[k] == start + 2;
            assert(k == higher) by {
                if k < higher {
                    assert(list[k] >= start + 3);
                }
                if k > higher {
                    assert(list[higher] < start + 3);
                    assert(list[higher] > list[k]);
                }
            }
            assert(here == higher + 1) by {
                if here > higher + 1 {
                    assert(list[higher + 1] >= start + 2);
                    assert(list[higher] > list[higher + 1]);
                }
                if here < higher + 1 {
                    assert(list[higher] < start + 2);
                }
            }
            assert(list.subrange(0, here) =~= list.subrange(0, higher).push(start + 2));
        } else {
            assert(here == higher) by {
                if here > higher {
                    assert(list[higher] >= start + 2);
                    assert(list[higher] < start + 3);
                    assert(list.contains(start + 2));
                }
                if here < higher {
                    assert(list[here] >= start + 3);
                    assert(list[here] < start + 2);
                }
            }
        }
    } else {
        assert(here == 0) by {
            if here > 0 {
                assert(list[0] >= 15);
            }
        }
        assert(list.subrange(0, 0) =~= Seq::<int>::empty());
    }
}

/// A run of exactly `c` equal ranks starts at place `i` of five sorted
/// ranks.
pub open spec fn run_starts(r: Seq<int>, i: int, c: int) -> bool {
    &&& 0 <= i
    &&& 1 <= c
    &&& i + c <= 5
    &&& (i == 0 || r[i - 1] != r[i])
    &&& r[i + c - 1] == r[i]
    &&& (i + c == 5 || r[i + c] != r[i])
}

/// The ranks that occur exactly `c` times among the first `n` places of
/// five sorted ranks, counted where their run starts, highest first.
pub open spec fn groups(r: Seq<int>, c: int, n: int) -> Seq<int>
    decreases n,
{
    if n <= 0 {
        Seq::empty()
    } else if run_starts(r, n - 1, c) {
        groups(r, c, n - 1).push(r[n - 1])
    } else {
        groups(r, c, n - 1)
    }
}

proof fn lemma_groups(r: Seq<int>, c: int, n: int)
    requires
        sorted_five(r),
        1 <= c <= 5,
        0 <= n <= 5,
    ensures
        descending(groups(r, c, n)),
        groups(r, c, n).len() <= n,
        forall|k: int|
            0 <= k < groups(r, c, n).len() ==> n >= 1 && #[trigger] groups(r, c, n)[k] >= r[n - 1],
        forall|k: int|
            0 <= k < groups(r, c, n).len() && 1 <= n < 5 && r[n - 1] != r[n] ==> #[trigger] groups(
                r,
                c,
                n,
            )[k] > r[n],
        forall|v: int|
            groups(r, c, n).contains(v) <==> exists|i: int|
                0 <= i < n && run_starts(r, i, c) && #[trigger] r[i] == v,
    decreases n,
{
    if n > 0 {
        lemma_groups(r, c, n - 1);
        let before = groups(r, c, n - 1);
        let after = groups(r, c, n);
        if run_starts(r, n - 1, c) {
            assert(after == before.push(r[n - 1]));
            assert forall|v: int|
                after.contains(v) <==> exists|i: int|
                    0 <= i < n && run_starts(r, i, c) && #[trigger] r[i] == v by {
                if after.contains(v) {
                    let k = choose|k: int| 0 <= k < after.len() && after[k] == v;
                    if k < before.len() {
                        assert(before[k] == v);
                        assert(before.contains(v));
                    } else {
                        assert(run_starts(r, n - 1, c) && r[n - 1] == v);
                    }
                }
                if exists|i: int| 0 <= i < n && run_starts(r, i, c) && #[trigger] r[i] == v {
                    let i = choose|i: int| 0 <= i < n && run_starts(r, i, c) && #[trigger] r[i] == v;
                    if i < n - 1 {
                        assert(before.contains(v));
                        let k = choose|k: int| 0 <= k < before.len() && before[k] == v;
                        assert(after[k] == v);
                    } else {
                        assert(after[before.len() as int] == v);
                    }
                }
            }
        } else {
            assert forall|v: int|
                after.contains(v) <==> exists|i: int|
                    0 <= i < n && run_starts(r, i, c) && #[trigger] r[i] == v by {
                if exists|i: int| 0 <= i < n && run_starts(r, i, c) && #[trigger] r[i] == v {
                    let i = choose|i: int| 0 <= i < n && run_starts(r, i, c) && #[trigger] r[i] == v;
                    assert(i < n - 1);
                }
            }
        }
    }
}

/// The lists of a hand whose ranks are the five sorted values: for each
/// count, the ranks whose run in the sorted values has that length.
proof fn lemma_lists_of_five(h: Seq<int>, r: Seq<int>, c: int)
    requires
        sorted_five(r),
        h.len() == 13,
        1 <= c <= 4,
        forall|x: int|
            0 <= x < 13 ==> #[trigger] h[x] == (if r[0] == x + 2 {
                1int
            } else {
                0int
            }) + (if r[1] == x + 2 {
                1int
            } else {
                0int
            }) + (if r[2] == x + 2 {
                1int
            } else {
                0int
            }) + (if r[3] == x + 2 {
                1int
            } else {
                0int
            }) + (if r[4] == x + 2 {
                1int
            } else {
                0int
            }),
    ensures
        ranks_with(h, c) == groups(r, c, 5),
{
    let list = groups(r, c, 5);
    lemma_groups(r, c, 5);
    assert forall|x: int| 0 <= x < 13 implies ((c <= #[trigger] h[x] <= c) <==> list.contains(
        x + 2,
    )) by {
        let v = x + 2;
        if h[x] == c {
            // The run of `v` starts at its first place.
            let i = if r[0] == v {
                0int
            } else if r[1] == v {
                1int
            } else if r[2] == v {
                2int
            } else if r[3] == v {
                3int
            } else {
                4int
            };
            assert(run_starts(r, i, c) && r[i] == v);
        }
        if list.contains(v) {
            let i = choose|i: int| 0 <= i < 5 && run_starts(r, i, c) && #[trigger] r[i] == v;
            assert(h[x] == c);
        }
    }
    lemma_list_is(h, c, c, list);
}

/// The counts of the thirteen ranks among five sorted rank values.
pub open spec fn counts_of_five(h: Seq<int>, r: Seq<int>) -> bool {
    &&& h.len() == 13
    &&& forall|x: int|
        0 <= x < 13 ==> #[trigger] h[x] == (if r[0] == x + 2 {
            1int
        } else {
            0int
        }) + (if r[1] == x + 2 {
            1int
        } else {
            0int
        }) + (if r[2] == x + 2 {
            1int
        } else {
            0int
        }) + (if r[3] == x + 2 {
            1int
        } else {
            0int
        }) + (if r[4] == x + 2 {
            1int
        } else {
            0int
        })
}

/// The straight that the counts of five cards show is the straight that
/// their sorted ranks make.
proof fn lemma_straight_of_five(h: Seq<int>, r: Seq<int>)
    requires
        sorted_five(r),
        counts_of_five(h, r),
    ensures
        straight_high_of(h) == straight_of_five(r),
{
    let high = straight_high_of(h);
    crate::lookup_eval::lemma_straight_range(h);
    if high > 0 {
        lemma_straight_window(h);
        if high >= 6 {
            let top = high - 2;
            assert(in_straight(top, high) && in_straight(top - 1, high) && in_straight(
                top - 2,
                high,
            ) && in_straight(top - 3, high) && in_straight(top - 4, high));
            assert(h[top] > 0 && h[top - 1] > 0 && h[top - 2] > 0 && h[top - 3] > 0 && h[top - 4]
                > 0);
            assert(r[0] == high && r[1] == high - 1 && r[2] == high - 2 && r[3] == high - 3
                && r[4] == high - 4);
        } else {
            assert(in_straight(12, high) && in_straight(0, high) && in_straight(1, high)
                && in_straight(2, high) && in_straight(3, high));
            assert(h[12] > 0 && h[0] > 0 && h[1] > 0 && h[2] > 0 && h[3] > 0);
            assert(r[0] == 14 && r[1] == 5 && r[2] == 4 && r[3] == 3 && r[4] == 2);
        }
    } else {
        if straight_of_five(r) > 5 || (straight_of_five(r) == 5 && r[0] == 5) {
            let top = r[0] - 2;
            assert(h[top] > 0 && h[top - 1] > 0 && h[top - 2] > 0 && h[top - 3] > 0 && h[top - 4]
                > 0);
            assert(run_ends_at(h, top));
            lemma_best_run_at_least(h, top, 12);
        } else if straight_of_five(r) == 5 {
            assert(h[12] > 0 && h[0] > 0 && h[1] > 0 && h[2] > 0 && h[3] > 0);
            assert(wheel_present(h));
        }
    }
}

/// Five cards that make no flush are worth by their counts what they are
/// worth by the book.
#[verifier::rlimit(80)]
#[verifier::spinoff_prover]
proof fn lemma_non_flush_five(h: Seq<int>, r: Seq<int>)
    requires
        sorted_five(r),
        counts_of_five(h, r),
        r[0] != r[4],
    ensures
        non_flush_value(h) == book_value(r, false),
{
    lemma_straight_of_five(h, r);
    lemma_lists_of_five(h, r, 4);
    lemma_lists_of_five(h, r, 3);
    lemma_lists_of_five(h, r, 2);
    lemma_lists_of_five(h, r, 1);
    reveal_with_fuel(groups, 6);
}

proof fn lemma_card_absent(cards: Seq<u8>, s: int, x: int, t: int)
    requires
        forall|i: int| 0 <= i < cards.len() ==> suit_of(#[trigger] cards[i]) == s,
        0 <= x < 13,
        0 <= t < 4,
    ensures
        t != s ==> count_card(cards, 4 * x + t) == 0,
{
    if t != s {
        lemma_card_counts(cards, 4 * x + t);
        assert forall|i: int| 0 <= i < cards.len() implies cards[i] != 4 * x + t by {
            assert(suit_of(cards[i]) == s);
        }
    }
}

proof fn lemma_whole_suit(cards: Seq<u8>, s: int)
    requires
        count_suit(cards, s) == cards.len(),
    ensures
        forall|i: int| 0 <= i < cards.len() ==> suit_of(#[trigger] cards[i]) == s,
    decreases cards.len(),
{
    if cards.len() > 0 {
        let shorter = cards.drop_last();
        lemma_suit_count_bounds(shorter, s);
        lemma_whole_suit(shorter, s);
        assert forall|i: int| 0 <= i < cards.len() implies suit_of(#[trigger] cards[i]) == s by {
            if i < shorter.len() {
                assert(shorter[i] == cards[i]);
            }
        }
    }
}

/// Five different cards are worth what the book gives them: the evaluator's
/// value of the hand is the book's value of its ranks, put in descending
/// order, and of whether its cards are of one suit.
pub proof fn lemma_five_by_the_book(cards: Seq<u8>, r: Seq<int>)
    requires
        proper_cards(cards),
        cards.len() == 5,
        sorted_five(r),
        rank_values_of(cards).to_multiset() == r.to_multiset(),
    ensures
        hand_value(cards) == book_value(r, of_one_suit(cards)),
{
    let h = rank_histogram(cards);
    lemma_histogram_of_five(cards, r);
    lemma_hand_profile(cards);
    lemma_counts_by_card(cards);
    assert(counts_of_five(h, r));
    assert(r[0] != r[4]) by {
        if r[0] == r[4] {
            assert(h[r[0] - 2] == 5);
        }
    }
    lemma_non_flush_five(h, r);
    lemma_straight_of_five(h, r);
    let suit = flush_suit_from(cards, 0);
    if of_one_suit(cards) {
        let s = suit_of(cards[0]);
        lemma_all_in_suit(cards, s);
        assert(suit == s);
        let p = suit_presence(cards, s);
        assert(p =~= h) by {
            assert forall|x: int| 0 <= x < 13 implies p[x] == h[x] by {
                lemma_card_absent(cards, s, x, 0);
                lemma_card_absent(cards, s, x, 1);
                lemma_card_absent(cards, s, x, 2);
                lemma_card_absent(cards, s, x, 3);
                lemma_card_counts(cards, 4 * x + s);
                assert(h[x] == count_rank(cards, x));
            }
        }
        // One card of each rank: the sorted ranks are the ranks present.
        assert(r[0] > r[1] > r[2] > r[3] > r[4]) by {
            assert(h[r[0] - 2] <= 1 && h[r[1] - 2] <= 1 && h[r[2] - 2] <= 1 && h[r[3] - 2] <= 1);
        }
        assert forall|x: int| 0 <= x < 13 implies ((1 <= #[trigger] h[x] <= 7) <==> r.contains(
            x + 2,
        )) by {
            if r.contains(x + 2) {
                let k = choose|k: int| 0 <= k < r.len() && r[k] == x + 2;
                assert(h[x] >= 1);
            }
            if h[x] >= 1 {
                let k = if r[0] == x + 2 {
                    0int
                } else if r[1] == x + 2 {
                    1int
                } else if r[2] == x + 2 {
                    2int
                } else if r[3] == x + 2 {
                    3int
                } else {
                    4int
                };
                assert(r[k] == x + 2);
            }
        }
        lemma_list_is(h, 1, 7, r);
        assert(ranks_present(h) == r);
    } else {
        if suit >= 0 {
            lemma_suit_count_bounds(cards, suit);
            lemma_whole_suit(cards, suit);
            assert(suit_of(cards[0]) == suit);
        }
    }
}

/// The category of five cards by the book, from their ranks in descending
/// order and from whether they are of one suit.
pub open spec fn book_category(r: Seq<int>, one_suit: bool) -> HandCategory {
    let straight = straight_of_five(r);
    if one_suit && straight == 14 {
        HandCategory::RoyalFlush
    } else if one_suit && straight > 0 {
        HandCategory::StraightFlush
    } else if r[0] == r[3] || r[1] == r[4] {
        HandCategory::FourOfAKind
    } else if (r[0] == r[2] && r[3] == r[4]) || (r[0] == r[1] && r[2] == r[4]) {
        HandCategory::FullHouse
    } else if one_suit {
        HandCategory::Flush
    } else if straight > 0 {
        HandCategory::Straight
    } else if r[0] == r[2] || r[1] == r[3] || r[2] == r[4] {
        HandCategory::ThreeOfAKind
    } else if (r[0] == r[1] && r[2] == r[3]) || (r[0] == r[1] && r[3] == r[4]) || (r[1] == r[2]
        && r[3] == r[4]) {
        HandCategory::TwoPair
    } else if r[0] == r[1] || r[1] == r[2] || r[2] == r[3] || r[3] == r[4] {
        HandCategory::OnePair
    } else {
        HandCategory::HighCard
    }
}

/// The category that a value holds: the number above its rank fields.
pub open spec fn value_category(value: int) -> int {
    value / 0x100000
}

/// The book's value of five ranks holds the book's category of them.
pub proof fn lemma_book_category(r: Seq<int>, one_suit: bool)
    requires
        sorted_five(r),
    ensures
        value_category(book_value(r, one_suit)) == category_number(book_category(r, one_suit)),
        0 <= book_value(r, one_suit) < 10 * 0x100000,
{
    let v = book_value(r, one_suit);
    let c = category_number(book_category(r, one_suit));
    assert(c * 0x100000 <= v < (c + 1) * 0x100000);
}

/// The category in the score of five different cards, as
/// `category_from_score` reads it, is the category that the book gives
/// them.
pub proof fn lemma_category_by_the_book(cards: Seq<u8>, r: Seq<int>)
    requires
        proper_cards(cards),
        cards.len() == 5,
        sorted_five(r),
        rank_values_of(cards).to_multiset() == r.to_multiset(),
    ensures
        value_category(hand_value(cards)) == category_number(
            book_category(r, of_one_suit(cards)),
        ),
        0 <= value_category(hand_value(cards)) <= 9,
        crate::lookup_eval::category_of(value_category(hand_value(cards)) % 16) == book_category(
            r,
            of_one_suit(cards),
        ),
{
    lemma_five_by_the_book(cards, r);
    lemma_book_category(r, of_one_suit(cards));
}

/// The category in the score of five, six or seven different cards is the
/// best category among their fives: no five of them are of a higher
/// category, and some five are of the same.
pub proof fn lemma_best_category(cards: Seq<u8>)
    requires
        proper_cards(cards),
        5 <= cards.len() <= 7,
    ensures
        forall|i: int, j: int|
            is_pick(cards, i, j) ==> value_category(hand_value(#[trigger] pick_five(cards, i, j)))
                <= value_category(hand_value(cards)),
        exists|i: int, j: int|
            is_pick(cards, i, j) && value_category(hand_value(#[trigger] pick_five(cards, i, j)))
                == value_category(hand_value(cards)),
{
    lemma_best_five(cards);
    let (i, j) = choose|i: int, j: int|
        is_pick(cards, i, j) && hand_value(#[trigger] pick_five(cards, i, j)) == hand_value(cards);
    assert(value_category(hand_value(pick_five(cards, i, j))) == value_category(
        hand_value(cards),
    ));
}

} // verus!
