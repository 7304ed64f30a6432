//! The evaluator against the rules of five-card poker: the value of six or
//! seven cards is the value of the best five among them.

use vstd::prelude::*;
use crate::card_encoding::distinct_cards;
use crate::hand_evaluator::{
    best_run, count_card, count_rank, count_suit, entry, flush_suit_from, flush_value,
    hand_value, histogram_total, non_flush_value, rank_histogram, rank_of, ranks_from,
    ranks_present, ranks_with, run_ends_at, straight_high_of, suit_of, suit_presence,
    wheel_present,
};

verus! {

/// A hand of different cards, each an index below 52.
pub open spec fn proper_cards(cards: Seq<u8>) -> bool {
    &&& distinct_cards(cards)
    &&& forall|i: int| 0 <= i < cards.len() ==> cards[i] < 52
}

/// Taking one card out lowers the count of its rank, of its suit and of
/// the card itself by one and leaves all other counts as they are.
pub proof fn lemma_remove_counts(cards: Seq<u8>, i: int)
    requires
        0 <= i < cards.len(),
    ensures
        forall|r: int|
            #[trigger] count_rank(cards.remove(i), r) == count_rank(cards, r) - if rank_of(cards[i])
                == r {
                1int
            } else {
                0int
            },
        forall|s: int|
            #[trigger] count_suit(cards.remove(i), s) == count_suit(cards, s) - if suit_of(cards[i])
                == s {
                1int
            } else {
                0int
            },
        forall|c: int|
            #[trigger] count_card(cards.remove(i), c) == count_card(cards, c) - if cards[i] == c {
                1int
            } else {
                0int
            },
    decreases cards.len(),
{
    let rest = cards.remove(i);
    if i == cards.len() - 1 {
        assert(rest =~= cards.drop_last());
    } else {
        lemma_remove_counts(cards.drop_last(), i);
        assert(rest.drop_last() =~= cards.drop_last().remove(i));
        assert(rest.last() == cards.last());
        assert forall|r: int|
            #[trigger] count_rank(cards.remove(i), r) == count_rank(cards, r) - if rank_of(cards[i])
                == r {
                1int
            } else {
                0int
            } by {
            assert(count_rank(cards.drop_last().remove(i), r) == count_rank(cards.drop_last(), r)
                - if rank_of(cards[i]) == r {
                1int
            } else {
                0int
            });
        }
        assert forall|s: int|
            #[trigger] count_suit(cards.remove(i), s) == count_suit(cards, s) - if suit_of(cards[i])
                == s {
                1int
            } else {
                0int
            } by {
            assert(count_suit(cards.drop_last().remove(i), s) == count_suit(cards.drop_last(), s)
                - if suit_of(cards[i]) == s {
                1int
            } else {
                0int
            });
        }
        assert forall|c: int|
            #[trigger] count_card(cards.remove(i), c) == count_card(cards, c) - if cards[i] == c {
                1int
            } else {
                0int
            } by {
            assert(count_card(cards.drop_last().remove(i), c) == count_card(cards.drop_last(), c)
                - if cards[i] == c {
                1int
            } else {
                0int
            });
        }
    }
}

/// Counts are not negative; a card that is not in the hand counts zero,
/// and among different cards every card counts once.
pub proof fn lemma_card_counts(cards: Seq<u8>, c: int)
    ensures
        0 <= count_card(cards, c) <= cards.len(),
        (forall|i: int| 0 <= i < cards.len() ==> cards[i] != c) ==> count_card(cards, c) == 0,
        distinct_cards(cards) ==> count_card(cards, c) <= 1,
        (exists|i: int| 0 <= i < cards.len() && cards[i] == c) ==> count_card(cards, c) >= 1,
    decreases cards.len(),
{
    if cards.len() > 0 {
        let shorter = cards.drop_last();
        lemma_card_counts(shorter, c);
        if distinct_cards(cards) {
            assert(distinct_cards(shorter));
            if cards.last() == c {
                assert forall|i: int| 0 <= i < shorter.len() implies shorter[i] != c by {
                    assert(cards[i] != cards[cards.len() - 1]);
                }
            }
        }
        if exists|i: int| 0 <= i < cards.len() && cards[i] == c {
            let i = choose|i: int| 0 <= i < cards.len() && cards[i] == c;
            if i < cards.len() - 1 {
                assert(shorter[i] == c);
            }
        }
    }
}

/// A rank is held as often as its four cards together, a suit as often as
/// its thirteen.
#[verifier::rlimit(80)]
#[verifier::spinoff_prover]
pub proof fn lemma_counts_by_card(cards: Seq<u8>)
    requires
        forall|i: int| 0 <= i < cards.len() ==> cards[i] < 52,
    ensures
        forall|r: int|
            0 <= r < 13 ==> #[trigger] count_rank(cards, r) == count_card(cards, 4 * r) + count_card(
                cards,
                4 * r + 1,
            ) + count_card(cards, 4 * r + 2) + count_card(cards, 4 * r + 3),
        forall|s: int|
            0 <= s < 4 ==> #[trigger] count_suit(cards, s) == suit_cards(cards, s, 13),
        count_suit(cards, 0) + count_suit(cards, 1) + count_suit(cards, 2) + count_suit(cards, 3)
            == cards.len(),
    decreases cards.len(),
{
    reveal_with_fuel(suit_cards, 14);
    if cards.len() > 0 {
        let shorter = cards.drop_last();
        let last = cards.last();
        lemma_counts_by_card(shorter);
        assert forall|r: int| 0 <= r < 13 implies #[trigger] count_rank(cards, r) == count_card(
            cards,
            4 * r,
        ) + count_card(cards, 4 * r + 1) + count_card(cards, 4 * r + 2) + count_card(
            cards,
            4 * r + 3,
        ) by {
            assert(count_rank(shorter, r) == count_card(shorter, 4 * r) + count_card(
                shorter,
                4 * r + 1,
            ) + count_card(shorter, 4 * r + 2) + count_card(shorter, 4 * r + 3));
            assert(rank_of(last) == r <==> (4 * r <= last <= 4 * r + 3));
        }
        assert forall|s: int| 0 <= s < 4 implies #[trigger] count_suit(cards, s) == suit_cards(
            cards,
            s,
            13,
        ) by {
            assert(count_suit(shorter, s) == suit_cards(shorter, s, 13));
            let r = rank_of(last);
            assert(last == 4 * r + suit_of(last));
        }
    }
}

/// How many cards of suit `s` with a rank offset below `n` the hand holds.
pub open spec fn suit_cards(cards: Seq<u8>, s: int, n: int) -> int
    decreases n,
{
    if n <= 0 {
        0
    } else {
        suit_cards(cards, s, n - 1) + count_card(cards, 4 * (n - 1) + s)
    }
}

/// A histogram of at most seven cards of a deck: thirteen counts between
/// 0 and 4.
pub open spec fn fair_histogram(h: Seq<int>) -> bool {
    &&& h.len() == 13
    &&& forall|r: int| 0 <= r < 13 ==> 0 <= #[trigger] h[r] <= 4
    &&& histogram_total(h, 13) <= 7
}

/// Two histograms agree everywhere but at rank `r`.
pub open spec fn same_but_at(h: Seq<int>, g: Seq<int>, r: int) -> bool {
    &&& h.len() == 13
    &&& g.len() == 13
    &&& 0 <= r < 13
    &&& forall|x: int| 0 <= x < 13 && x != r ==> h[x] == g[x]
}

/// How a rank list changes when one count changes: the rank enters the
/// list at its place, leaves it, or the list stays as it is. Its place is
/// behind the ranks of the list that lie above it.
pub proof fn lemma_ranks_change(h: Seq<int>, g: Seq<int>, r: int, lo: int, hi: int, start: int)
    requires
        same_but_at(h, g, r),
        0 <= start <= 13,
    ensures
        ({
            let held = lo <= h[r] <= hi;
            let holds = lo <= g[r] <= hi;
            let before = ranks_from(h, lo, hi, start);
            let after = ranks_from(g, lo, hi, start);
            let place = ranks_from(h, lo, hi, r + 1).len() as int;
            &&& ranks_from(g, lo, hi, r + 1) == ranks_from(h, lo, hi, r + 1)
            &&& (start > r || held == holds) ==> after == before
            &&& (start <= r && held && !holds) ==> place < before.len() && before[place] == r + 2
                && after == before.remove(place)
            &&& (start <= r && !held && holds) ==> place <= before.len() && after == before.insert(
                place,
                r + 2,
            )
        }),
    decreases 13 - start,
{
    let before = ranks_from(h, lo, hi, start);
    let after = ranks_from(g, lo, hi, start);
    let place = ranks_from(h, lo, hi, r + 1).len() as int;
    if start < 13 {
        lemma_ranks_change(h, g, r, lo, hi, start + 1);
        let before_up = ranks_from(h, lo, hi, start + 1);
        let after_up = ranks_from(g, lo, hi, start + 1);
        let held = lo <= h[r] <= hi;
        let holds = lo <= g[r] <= hi;
        if start == r {
            assert(after_up == before_up);
            if held && !holds {
                assert(before == before_up.push(r + 2));
                assert(after =~= before.remove(place));
            } else if !held && holds {
                assert(after =~= before.insert(place, r + 2));
            }
        } else if start < r {
            if held && !holds {
                assert(after =~= before.remove(place));
            } else if !held && holds {
                assert(after =~= before.insert(place, r + 2));
            }
        }
    } else {
        lemma_ranks_change_top(h, g, r, lo, hi);
    }
    if start <= r {
        lemma_ranks_change_top(h, g, r, lo, hi);
    }
}

proof fn lemma_ranks_change_top(h: Seq<int>, g: Seq<int>, r: int, lo: int, hi: int)
    requires
        same_but_at(h, g, r),
    ensures
        ranks_from(g, lo, hi, r + 1) == ranks_from(h, lo, hi, r + 1),
{
    lemma_ranks_same_above(h, g, r, lo, hi, r + 1);
}

proof fn lemma_ranks_same_above(h: Seq<int>, g: Seq<int>, r: int, lo: int, hi: int, start: int)
    requires
        same_but_at(h, g, r),
        r < start <= 13,
    ensures
        ranks_from(g, lo, hi, start) == ranks_from(h, lo, hi, start),
    decreases 13 - start,
{
    if start < 13 {
        lemma_ranks_same_above(h, g, r, lo, hi, start + 1);
    }
}

/// The entries of a list with one more entry at a place.
pub proof fn lemma_entry_insert(list: Seq<int>, place: int, v: int)
    requires
        0 <= place <= list.len(),
    ensures
        forall|k: int|
            0 <= k ==> #[trigger] entry(list.insert(place, v), k) == if k < place {
                entry(list, k)
            } else if k == place {
                v
            } else {
                entry(list, k - 1)
            },
        list.insert(place, v).len() == list.len() + 1,
{
}

/// The entries of a list with the entry at a place taken out.
pub proof fn lemma_entry_remove(list: Seq<int>, place: int)
    requires
        0 <= place < list.len(),
    ensures
        forall|k: int|
            0 <= k ==> #[trigger] entry(list.remove(place), k) == if k < place {
                entry(list, k)
            } else {
                entry(list, k + 1)
            },
        list.remove(place).len() == list.len() - 1,
{
}

/// What a rank list holds: rank values between 2 and 14 in strictly
/// descending order, so that entries past the first are lower and every
/// entry of the list is above 0.
pub open spec fn descending(list: Seq<int>) -> bool {
    &&& forall|k: int| 0 <= k < list.len() ==> 2 <= #[trigger] list[k] <= 14
    &&& forall|j: int, k: int| 0 <= j < k < list.len() ==> list[j] > list[k]
}

/// The four lists of a histogram are descending, and together they hold
/// no more cards than the histogram counts.
pub proof fn lemma_lists(h: Seq<int>)
    requires
        fair_histogram(h),
    ensures
        descending(ranks_with(h, 4)),
        descending(ranks_with(h, 3)),
        descending(ranks_with(h, 2)),
        descending(ranks_with(h, 1)),
        4 * ranks_with(h, 4).len() + 3 * ranks_with(h, 3).len() + 2 * ranks_with(h, 2).len()
            + ranks_with(h, 1).len() == histogram_total(h, 13),
{
    crate::lookup_eval::lemma_ranks_from_values(h, 4, 4, 0);
    crate::lookup_eval::lemma_ranks_from_values(h, 3, 3, 0);
    crate::lookup_eval::lemma_ranks_from_values(h, 2, 2, 0);
    crate::lookup_eval::lemma_ranks_from_values(h, 1, 1, 0);
    lemma_lists_weigh(h, 0);
}

proof fn lemma_lists_weigh(h: Seq<int>, start: int)
    requires
        h.len() == 13,
        forall|r: int| 0 <= r < 13 ==> 0 <= #[trigger] h[r] <= 4,
        0 <= start <= 13,
    ensures
        4 * ranks_from(h, 4, 4, start).len() + 3 * ranks_from(h, 3, 3, start).len() + 2
            * ranks_from(h, 2, 2, start).len() + ranks_from(h, 1, 1, start).len() + histogram_total(
            h,
            start,
        ) == histogram_total(h, 13),
    decreases 13 - start,
{
    if start < 13 {
        lemma_lists_weigh(h, start + 1);
    }
}

/// With more ranks present the best straight is no lower.
pub proof fn lemma_straight_monotone(a: Seq<int>, b: Seq<int>)
    requires
        forall|r: int| 0 <= r < 13 ==> (a[r] > 0 ==> b[r] > 0),
    ensures
        straight_high_of(a) <= straight_high_of(b),
{
    lemma_best_run_monotone(a, b, 12);
    crate::lookup_eval::lemma_straight_range(a);
    crate::lookup_eval::lemma_straight_range(b);
}

proof fn lemma_best_run_monotone(a: Seq<int>, b: Seq<int>, top: int)
    requires
        top <= 12,
        forall|r: int| 0 <= r < 13 ==> (a[r] > 0 ==> b[r] > 0),
    ensures
        best_run(a, top) <= best_run(b, top),
        best_run(a, top) == 0 || 6 <= best_run(a, top) <= top + 2,
        best_run(b, top) == 0 || 6 <= best_run(b, top) <= top + 2,
    decreases top,
{
    if top >= 4 {
        lemma_best_run_monotone(a, b, top - 1);
    }
}

/// The histogram with one card of rank `r` less.
pub open spec fn less_one(h: Seq<int>, r: int) -> Seq<int> {
    h.update(r, h[r] - 1)
}

/// What taking one card of rank `r` out does to the lists and the straight
/// of a histogram.
proof fn lemma_less_one(h: Seq<int>, r: int)
    requires
        fair_histogram(h),
        0 <= r < 13,
        h[r] >= 1,
    ensures
        fair_histogram(less_one(h, r)),
        histogram_total(less_one(h, r), 13) == histogram_total(h, 13) - 1,
        straight_high_of(less_one(h, r)) <= straight_high_of(h),
        h[r] >= 2 ==> straight_high_of(less_one(h, r)) == straight_high_of(h),
        straight_high_of(h) == 0 || 5 <= straight_high_of(h) <= 14,
        straight_high_of(less_one(h, r)) == 0 || 5 <= straight_high_of(less_one(h, r)) <= 14,
{
    let g = less_one(h, r);
    crate::lookup_eval::lemma_total_bump(g, h, 13, r);
    lemma_straight_monotone(g, h);
    if h[r] >= 2 {
        lemma_straight_monotone(h, g);
    }
    crate::lookup_eval::lemma_straight_range(h);
    crate::lookup_eval::lemma_straight_range(g);
}

/// Without a single card of rank `r`, a hand without a flush is worth no
/// more than with it.
#[verifier::rlimit(80)]
#[verifier::spinoff_prover]
proof fn lemma_drop_single(h: Seq<int>, r: int)
    requires
        fair_histogram(h),
        0 <= r < 13,
        h[r] == 1,
    ensures
        non_flush_value(less_one(h, r)) <= non_flush_value(h),
{
    lemma_change(h, r);
    let g = less_one(h, r);
    lemma_first_entries(ranks_with(h, 1));
    lemma_first_entries(ranks_with(h, 2));
    lemma_first_entries(ranks_with(h, 3));
    lemma_first_entries(ranks_with(h, 4));
    lemma_first_entries(ranks_with(g, 1));
    lemma_first_entries(ranks_with(g, 2));
    lemma_first_entries(ranks_with(g, 3));
    lemma_first_entries(ranks_with(g, 4));
}

/// The first six entries of a list are rank fields, and each is above the
/// next unless both are 0.
proof fn lemma_entries(list: Seq<int>)
    requires
        descending(list),
    ensures
        forall|k: int| 0 <= k ==> 0 <= #[trigger] entry(list, k) < 16,
        forall|k: int| 0 <= k ==> (entry(list, k) > #[trigger] entry(list, k + 1) || entry(list, k) == 0),
        forall|k: int| 0 <= k < list.len() ==> #[trigger] entry(list, k) >= 2,
        forall|k: int| k >= list.len() ==> #[trigger] entry(list, k) == 0,
{
    assert forall|k: int| 0 <= k implies (entry(list, k) > #[trigger] entry(list, k + 1) || entry(
        list,
        k,
    ) == 0) by {
        if k + 1 < list.len() {
            assert(list[k] > list[k + 1]);
        }
    }
}

/// Without one card of a pair of rank `r`, a hand without a flush is worth
/// no more than with it.
#[verifier::rlimit(80)]
#[verifier::spinoff_prover]
proof fn lemma_drop_from_pair(h: Seq<int>, r: int)
    requires
        fair_histogram(h),
        0 <= r < 13,
        h[r] == 2,
    ensures
        non_flush_value(less_one(h, r)) <= non_flush_value(h),
{
    lemma_change(h, r);
    let g = less_one(h, r);
    lemma_first_entries(ranks_with(h, 1));
    lemma_first_entries(ranks_with(h, 2));
    lemma_first_entries(ranks_with(h, 3));
    lemma_first_entries(ranks_with(h, 4));
    lemma_first_entries(ranks_with(g, 1));
    lemma_first_entries(ranks_with(g, 2));
    lemma_first_entries(ranks_with(g, 3));
    lemma_first_entries(ranks_with(g, 4));
}

/// Without one card of three of rank `r`, a hand without a flush is worth
/// no more than with it.
#[verifier::rlimit(80)]
#[verifier::spinoff_prover]
proof fn lemma_drop_from_trips(h: Seq<int>, r: int)
    requires
        fair_histogram(h),
        0 <= r < 13,
        h[r] == 3,
    ensures
        non_flush_value(less_one(h, r)) <= non_flush_value(h),
{
    lemma_change(h, r);
    let g = less_one(h, r);
    lemma_first_entries(ranks_with(h, 1));
    lemma_first_entries(ranks_with(h, 2));
    lemma_first_entries(ranks_with(h, 3));
    lemma_first_entries(ranks_with(h, 4));
    lemma_first_entries(ranks_with(g, 1));
    lemma_first_entries(ranks_with(g, 2));
    lemma_first_entries(ranks_with(g, 3));
    lemma_first_entries(ranks_with(g, 4));
}

/// Without one card of four of rank `r`, a hand without a flush is worth
/// less than with it.
#[verifier::rlimit(80)]
#[verifier::spinoff_prover]
proof fn lemma_drop_from_quads(h: Seq<int>, r: int)
    requires
        fair_histogram(h),
        0 <= r < 13,
        h[r] == 4,
    ensures
        non_flush_value(less_one(h, r)) <= non_flush_value(h),
{
    lemma_change(h, r);
    let g = less_one(h, r);
    lemma_first_entries(ranks_with(h, 1));
    lemma_first_entries(ranks_with(h, 2));
    lemma_first_entries(ranks_with(h, 3));
    lemma_first_entries(ranks_with(h, 4));
    lemma_first_entries(ranks_with(g, 1));
    lemma_first_entries(ranks_with(g, 2));
    lemma_first_entries(ranks_with(g, 3));
    lemma_first_entries(ranks_with(g, 4));
}

/// With one card less, a hand without a flush is worth no more.
pub proof fn lemma_non_flush_drop(h: Seq<int>, r: int)
    requires
        fair_histogram(h),
        0 <= r < 13,
        h[r] >= 1,
    ensures
        non_flush_value(less_one(h, r)) <= non_flush_value(h),
{
    if h[r] == 1 {
        lemma_drop_single(h, r);
    } else if h[r] == 2 {
        lemma_drop_from_pair(h, r);
    } else if h[r] == 3 {
        lemma_drop_from_trips(h, r);
    } else {
        lemma_drop_from_quads(h, r);
    }
}

/// The ranks present in a suit: thirteen entries, each 0 or 1, at most
/// seven of them 1.
pub open spec fn fair_presence(p: Seq<int>) -> bool {
    &&& p.len() == 13
    &&& forall|r: int| 0 <= r < 13 ==> 0 <= #[trigger] p[r] <= 1
    &&& histogram_total(p, 13) <= 7
}

/// With one rank less, the cards of a suit are worth no more.
pub proof fn lemma_flush_drop(p: Seq<int>, r: int)
    requires
        fair_presence(p),
        0 <= r < 13,
        p[r] == 1,
    ensures
        flush_value(less_one(p, r)) <= flush_value(p),
        5 * 0x100000 <= flush_value(less_one(p, r)),
{
    let q = less_one(p, r);
    lemma_straight_monotone(q, p);
    crate::lookup_eval::lemma_straight_range(p);
    crate::lookup_eval::lemma_straight_range(q);
    lemma_ranks_change(p, q, r, 1, 7, 0);
    crate::lookup_eval::lemma_ranks_from_values(p, 1, 7, 0);
    crate::lookup_eval::lemma_ranks_from_values(q, 1, 7, 0);
    let present = ranks_present(p);
    let fewer = ranks_present(q);
    let place = ranks_from(p, 1, 7, r + 1).len() as int;
    assert(fewer == present.remove(place));
    lemma_entry_remove(present, place);
    lemma_entries(present);
    lemma_entries(fewer);
}

/// The cards of a suit are worth at least a flush, and less than anything
/// a tenth category would be worth.
pub proof fn lemma_flush_range(p: Seq<int>)
    requires
        fair_presence(p),
    ensures
        5 * 0x100000 <= flush_value(p) < 10 * 0x100000,
{
    crate::lookup_eval::lemma_straight_range(p);
    crate::lookup_eval::lemma_ranks_from_values(p, 1, 7, 0);
    lemma_entries(ranks_present(p));
}

/// Each entry of a rank list names a rank of the histogram whose count
/// lies in the range of the list.
pub proof fn lemma_list_member(h: Seq<int>, lo: int, hi: int, start: int, k: int)
    requires
        0 <= start <= 13,
        0 <= k < ranks_from(h, lo, hi, start).len(),
    ensures
        start <= ranks_from(h, lo, hi, start)[k] - 2 < 13,
        lo <= h[ranks_from(h, lo, hi, start)[k] - 2] <= hi,
    decreases 13 - start,
{
    if start < 13 {
        let higher = ranks_from(h, lo, hi, start + 1);
        if k < higher.len() {
            lemma_list_member(h, lo, hi, start + 1, k);
        }
    }
}

/// A histogram that lies above another everywhere has a total that is
/// higher by at least what it has more at any two ranks.
pub proof fn lemma_total_excess(h: Seq<int>, p: Seq<int>, a: int, b: int, n: int)
    requires
        h.len() == 13,
        p.len() == 13,
        forall|x: int| 0 <= x < 13 ==> h[x] >= p[x],
        0 <= a < 13,
        0 <= b < 13,
        a != b,
        0 <= n <= 13,
    ensures
        histogram_total(h, n) >= histogram_total(p, n) + (if a < n {
            h[a] - p[a]
        } else {
            0
        }) + (if b < n {
            h[b] - p[b]
        } else {
            0
        }),
    decreases n,
{
    if n > 0 {
        lemma_total_excess(h, p, a, b, n - 1);
    }
}

/// A hand that holds four cards of one suit, all of different ranks, and
/// seven cards at most, less one, makes neither four of a kind nor a full
/// house: it is worth less than a flush.
pub proof fn lemma_below_flush(h: Seq<int>, p: Seq<int>)
    requires
        fair_histogram(h),
        histogram_total(h, 13) <= 6,
        p.len() == 13,
        forall|x: int| 0 <= x < 13 ==> 0 <= #[trigger] p[x] <= 1 && p[x] <= h[x],
        histogram_total(p, 13) >= 4,
    ensures
        non_flush_value(h) < 5 * 0x100000,
{
    lemma_lists(h);
    let quads = ranks_with(h, 4);
    let trips = ranks_with(h, 3);
    let pairs = ranks_with(h, 2);
    let singles = ranks_with(h, 1);
    lemma_entries(quads);
    lemma_entries(trips);
    lemma_entries(pairs);
    lemma_entries(singles);
    crate::lookup_eval::lemma_straight_range(h);
    if quads.len() >= 1 {
        lemma_list_member(h, 4, 4, 0, 0);
        let q = quads[0] - 2;
        let other = if q == 0 {
            1int
        } else {
            0int
        };
        lemma_total_excess(h, p, q, other, 13);
        assert(false);
    }
    if trips.len() >= 1 && (pairs.len() >= 1 || trips.len() >= 2) {
        lemma_list_member(h, 3, 3, 0, 0);
        let t = trips[0] - 2;
        if trips.len() >= 2 {
            lemma_list_member(h, 3, 3, 0, 1);
            let u = trips[1] - 2;
            assert(trips[0] > trips[1]);
            lemma_total_excess(h, p, t, u, 13);
        } else {
            lemma_list_member(h, 2, 2, 0, 0);
            let u = pairs[0] - 2;
            lemma_total_excess(h, p, t, u, 13);
        }
        assert(false);
    }
}

proof fn lemma_presence_total(cards: Seq<u8>, s: int, n: int)
    requires
        distinct_cards(cards),
        0 <= n <= 13,
    ensures
        histogram_total(suit_presence(cards, s), n) == suit_cards(cards, s, n),
    decreases n,
{
    if n > 0 {
        lemma_presence_total(cards, s, n - 1);
        lemma_card_counts(cards, 4 * (n - 1) + s);
    }
}

/// What a hand of at most seven different cards looks like in counts: no
/// rank more than four times, the counts of the ranks adding up to the
/// number of cards, in each suit as many ranks as cards, and at most one
/// suit with five cards or more, which is then the flush suit.
pub proof fn lemma_hand_profile(cards: Seq<u8>)
    requires
        proper_cards(cards),
        cards.len() <= 7,
    ensures
        fair_histogram(rank_histogram(cards)),
        histogram_total(rank_histogram(cards), 13) == cards.len(),
        forall|s: int|
            0 <= s < 4 ==> fair_presence(#[trigger] suit_presence(cards, s)) && histogram_total(
                suit_presence(cards, s),
                13,
            ) == count_suit(cards, s),
        forall|s: int, x: int|
            0 <= s < 4 && 0 <= x < 13 ==> #[trigger] suit_presence(cards, s)[x] <= rank_histogram(
                cards,
            )[x],
        -1 <= flush_suit_from(cards, 0) < 4,
        flush_suit_from(cards, 0) >= 0 ==> count_suit(cards, flush_suit_from(cards, 0)) >= 5,
        forall|s: int|
            0 <= s < 4 && s != flush_suit_from(cards, 0) ==> #[trigger] count_suit(cards, s) < 5,
{
    lemma_counts_by_card(cards);
    crate::lookup_eval::lemma_histogram_counts_cards(cards);
    let h = rank_histogram(cards);
    assert forall|r: int| 0 <= r < 13 implies 0 <= #[trigger] h[r] <= 4 by {
        lemma_card_counts(cards, 4 * r);
        lemma_card_counts(cards, 4 * r + 1);
        lemma_card_counts(cards, 4 * r + 2);
        lemma_card_counts(cards, 4 * r + 3);
        assert(h[r] == count_rank(cards, r));
    }
    assert forall|s: int| 0 <= s < 4 implies fair_presence(#[trigger] suit_presence(cards, s))
        && histogram_total(suit_presence(cards, s), 13) == count_suit(cards, s) by {
        lemma_presence_total(cards, s, 13);
        assert(count_suit(cards, s) == suit_cards(cards, s, 13));
        lemma_suit_count_bounds(cards, s);
    }
    assert forall|s: int, x: int| 0 <= s < 4 && 0 <= x < 13 implies #[trigger] suit_presence(
        cards,
        s,
    )[x] <= h[x] by {
        lemma_card_counts(cards, 4 * x);
        lemma_card_counts(cards, 4 * x + 1);
        lemma_card_counts(cards, 4 * x + 2);
        lemma_card_counts(cards, 4 * x + 3);
        assert(h[x] == count_rank(cards, x));
    }
    lemma_suit_count_bounds(cards, 0);
    lemma_suit_count_bounds(cards, 1);
    lemma_suit_count_bounds(cards, 2);
    lemma_suit_count_bounds(cards, 3);
    reveal_with_fuel(flush_suit_from, 5);
}

/// A suit is held at most as often as there are cards.
pub proof fn lemma_suit_count_bounds(cards: Seq<u8>, s: int)
    ensures
        0 <= count_suit(cards, s) <= cards.len(),
    decreases cards.len(),
{
    if cards.len() > 0 {
        lemma_suit_count_bounds(cards.drop_last(), s);
    }
}

/// The counts of a hand with the card at place `i` taken out.
pub proof fn lemma_remove_profile(cards: Seq<u8>, i: int)
    requires
        proper_cards(cards),
        0 <= i < cards.len(),
    ensures
        proper_cards(cards.remove(i)),
        rank_histogram(cards)[rank_of(cards[i])] >= 1,
        rank_histogram(cards.remove(i)) == less_one(rank_histogram(cards), rank_of(cards[i])),
        suit_presence(cards, suit_of(cards[i]))[rank_of(cards[i])] == 1,
        forall|s: int|
            0 <= s < 4 ==> #[trigger] suit_presence(cards.remove(i), s) == if s == suit_of(cards[i]) {
                less_one(suit_presence(cards, s), rank_of(cards[i]))
            } else {
                suit_presence(cards, s)
            },
        forall|s: int|
            #[trigger] count_suit(cards.remove(i), s) == count_suit(cards, s) - if suit_of(cards[i])
                == s {
                1int
            } else {
                0int
            },
{
    let rest = cards.remove(i);
    let card = cards[i];
    let r = rank_of(card);
    let t = suit_of(card);
    lemma_remove_counts(cards, i);
    assert(card == 4 * r + t);
    lemma_card_counts(cards, card as int);
    assert(count_card(cards, card as int) == 1);
    assert(count_rank(rest, r) >= 0) by {
        lemma_rank_count_bounds(rest, r);
    }
    assert(rank_histogram(rest) =~= less_one(rank_histogram(cards), r)) by {
        assert forall|x: int| 0 <= x < 13 implies rank_histogram(rest)[x] == less_one(
            rank_histogram(cards),
            r,
        )[x] by {
            assert(count_rank(rest, x) == count_rank(cards, x) - if rank_of(cards[i]) == x {
                1int
            } else {
                0int
            });
        }
    }
    assert forall|s: int| 0 <= s < 4 implies #[trigger] suit_presence(rest, s) == if s == t {
        less_one(suit_presence(cards, s), r)
    } else {
        suit_presence(cards, s)
    } by {
        let wanted = if s == t {
            less_one(suit_presence(cards, s), r)
        } else {
            suit_presence(cards, s)
        };
        assert forall|x: int| 0 <= x < 13 implies suit_presence(rest, s)[x] == wanted[x] by {
            let c = 4 * x + s;
            assert(count_card(rest, c) == count_card(cards, c) - if cards[i] == c {
                1int
            } else {
                0int
            });
            lemma_card_counts(cards, c);
            assert(card == c <==> (x == r && s == t));
        }
        assert(suit_presence(rest, s) =~= wanted);
    }
}

proof fn lemma_rank_count_bounds(cards: Seq<u8>, r: int)
    ensures
        0 <= count_rank(cards, r) <= cards.len(),
    decreases cards.len(),
{
    if cards.len() > 0 {
        lemma_rank_count_bounds(cards.drop_last(), r);
    }
}

/// Taking a card out of six or seven never makes a hand better: the rest
/// is worth no more than the whole.
pub proof fn lemma_drop_card(cards: Seq<u8>, i: int)
    requires
        proper_cards(cards),
        6 <= cards.len() <= 7,
        0 <= i < cards.len(),
    ensures
        hand_value(cards.remove(i)) <= hand_value(cards),
{
    let rest = cards.remove(i);
    let r = rank_of(cards[i]);
    let t = suit_of(cards[i]);
    let h = rank_histogram(cards);
    lemma_remove_profile(cards, i);
    lemma_hand_profile(cards);
    lemma_hand_profile(rest);
    let suit = flush_suit_from(cards, 0);
    let suit_rest = flush_suit_from(rest, 0);
    if suit < 0 {
        assert(suit_rest < 0) by {
            if suit_rest >= 0 {
                assert(count_suit(rest, suit_rest) >= 5);
                assert(count_suit(cards, suit_rest) < 5);
            }
        }
        lemma_non_flush_drop(h, r);
    } else {
        let p = suit_presence(cards, suit);
        assert(fair_presence(p));
        lemma_flush_range(p);
        if suit_rest >= 0 {
            assert(suit_rest == suit) by {
                assert(count_suit(rest, suit_rest) >= 5);
                if suit_rest != suit {
                    assert(count_suit(cards, suit_rest) < 5);
                }
            }
            if t == suit {
                lemma_flush_drop(p, r);
            } else {
                assert(suit_presence(rest, suit) == p);
            }
        } else {
            assert(count_suit(rest, suit) < 5);
            assert(t == suit);
            let q = suit_presence(rest, suit);
            assert(fair_presence(q));
            assert(forall|x: int| 0 <= x < 13 ==> #[trigger] q[x] <= rank_histogram(rest)[x]);
            lemma_below_flush(rank_histogram(rest), q);
        }
    }
}

/// Whether rank offset `x` is one of the five ranks of the straight whose
/// high card has the value `high`: for the wheel, the ace and the ranks
/// from deuce to five.
pub open spec fn in_straight(x: int, high: int) -> bool {
    if high == 5 {
        x == 12 || 0 <= x <= 3
    } else {
        high - 6 <= x <= high - 2
    }
}

/// The ranks of the best straight are present; where the best straight is
/// the wheel, there is no ordinary one.
pub proof fn lemma_straight_window(h: Seq<int>)
    requires
        straight_high_of(h) > 0,
    ensures
        5 <= straight_high_of(h) <= 14,
        forall|x: int| 0 <= x < 13 && in_straight(x, straight_high_of(h)) ==> h[x] > 0,
        straight_high_of(h) == 5 ==> best_run(h, 12) == 0,
        straight_high_of(h) >= 6 ==> best_run(h, 12) == straight_high_of(h),
{
    lemma_best_run_window(h, 12);
}

proof fn lemma_best_run_window(h: Seq<int>, top: int)
    requires
        top <= 12,
    ensures
        best_run(h, top) == 0 || (6 <= best_run(h, top) <= top + 2 && run_ends_at(
            h,
            best_run(h, top) - 2,
        )),
    decreases top,
{
    if top >= 4 {
        lemma_best_run_window(h, top - 1);
    }
}

/// A run of five present ranks makes a straight at least as high.
pub proof fn lemma_best_run_at_least(h: Seq<int>, top: int, limit: int)
    requires
        run_ends_at(h, top),
        top <= limit <= 12,
    ensures
        best_run(h, limit) >= top + 2,
    decreases limit,
{
    if limit > top {
        lemma_best_run_at_least(h, top, limit - 1);
        lemma_best_run_window(h, limit - 1);
    }
}

/// A histogram that lies below another everywhere has no higher total.
proof fn lemma_total_below(h: Seq<int>, w: Seq<int>, n: int)
    requires
        h.len() == 13,
        w.len() == 13,
        forall|x: int| 0 <= x < 13 ==> h[x] <= w[x],
        0 <= n <= 13,
    ensures
        histogram_total(h, n) <= histogram_total(w, n),
    decreases n,
{
    if n > 0 {
        lemma_total_below(h, w, n - 1);
    }
}

/// Among six or more ranks, each held once, one lies outside the best
/// straight.
proof fn lemma_rank_outside(h: Seq<int>)
    requires
        h.len() == 13,
        forall|x: int| 0 <= x < 13 ==> 0 <= #[trigger] h[x] <= 1,
        histogram_total(h, 13) >= 6,
        straight_high_of(h) > 0,
    ensures
        exists|x: int| 0 <= x < 13 && h[x] == 1 && !in_straight(x, straight_high_of(h)),
{
    let high = straight_high_of(h);
    lemma_straight_window(h);
    if forall|x: int| 0 <= x < 13 && h[x] == 1 ==> in_straight(x, high) {
        let w = Seq::new(
            13,
            |x: int|
                if in_straight(x, high) {
                    1int
                } else {
                    0int
                },
        );
        assert forall|x: int| 0 <= x < 13 implies h[x] <= w[x] by {
            if h[x] == 1 {
                assert(in_straight(x, high));
            }
        }
        lemma_total_below(h, w, 13);
        assert(histogram_total(w, 13) == 5) by {
            reveal_with_fuel(histogram_total, 14);
        }
        assert(false);
    }
}

/// Without a rank outside its best straight, a histogram has the same
/// best straight.
proof fn lemma_straight_kept(h: Seq<int>, x: int)
    requires
        h.len() == 13,
        0 <= x < 13,
        h[x] >= 1,
        straight_high_of(h) > 0,
        !in_straight(x, straight_high_of(h)) || h[x] >= 2,
    ensures
        straight_high_of(less_one(h, x)) == straight_high_of(h),
{
    let g = less_one(h, x);
    let high = straight_high_of(h);
    lemma_straight_window(h);
    lemma_straight_monotone(g, h);
    lemma_best_run_monotone(g, h, 12);
    if high >= 6 {
        let top = high - 2;
        assert(in_straight(top, high) && in_straight(top - 1, high) && in_straight(top - 2, high)
            && in_straight(top - 3, high) && in_straight(top - 4, high));
        assert(h[top] > 0 && h[top - 1] > 0 && h[top - 2] > 0 && h[top - 3] > 0 && h[top - 4] > 0);
        assert(run_ends_at(g, top));
        lemma_best_run_at_least(g, top, 12);
    } else {
        assert(in_straight(12, high) && in_straight(0, high) && in_straight(1, high)
            && in_straight(2, high) && in_straight(3, high));
        assert(h[12] > 0 && h[0] > 0 && h[1] > 0 && h[2] > 0 && h[3] > 0);
        assert(wheel_present(g));
    }
}

/// The lowest rank of a list stands at its end: no rank of the list lies
/// below it.
proof fn lemma_lowest(h: Seq<int>, lo: int, hi: int)
    requires
        ranks_from(h, lo, hi, 0).len() >= 1,
    ensures
        ({
            let list = ranks_from(h, lo, hi, 0);
            let r = list.last() - 2;
            &&& 0 <= r < 13
            &&& lo <= h[r] <= hi
            &&& ranks_from(h, lo, hi, r + 1).len() == list.len() - 1
        }),
{
    let list = ranks_from(h, lo, hi, 0);
    let r = list.last() - 2;
    lemma_list_member(h, lo, hi, 0, list.len() - 1);
    crate::lookup_eval::lemma_ranks_from_values(h, lo, hi, 0);
    crate::lookup_eval::lemma_ranks_from_values(h, lo, hi, r + 1);
    crate::lookup_eval::lemma_ranks_from_prefix(h, lo, hi, 0, r + 1);
    let above = ranks_from(h, lo, hi, r + 1);
    // The list above `r` is the start of the whole list and ends before
    // its last entry, which is `r`; what follows it is `r` or lower.
    if above.len() >= list.len() {
        assert(list[list.len() - 1] == above[list.len() - 1]);
        assert(above[list.len() - 1] >= r + 3);
    }
    lemma_upto(h, lo, hi, r, 0);
    if above.len() < list.len() - 1 {
        assert(list[above.len() as int] <= r + 2);
        assert(list[above.len() as int] > list[list.len() - 1]);
    }
}

/// Behind the ranks above `r`, a list holds only ranks up to `r`.
proof fn lemma_upto(h: Seq<int>, lo: int, hi: int, r: int, start: int)
    requires
        0 <= start <= r + 1 <= 13,
    ensures
        forall|k: int|
            ranks_from(h, lo, hi, r + 1).len() <= k < ranks_from(h, lo, hi, start).len()
                ==> #[trigger] ranks_from(h, lo, hi, start)[k] <= r + 2,
        ranks_from(h, lo, hi, r + 1).len() <= ranks_from(h, lo, hi, start).len(),
    decreases r + 1 - start,
{
    if start < r + 1 {
        lemma_upto(h, lo, hi, r, start + 1);
    }
}

/// `after` is `before` without its entry at `place`.
pub open spec fn shrunk(before: Seq<int>, after: Seq<int>, place: int) -> bool {
    &&& 0 <= place < before.len()
    &&& after == before.remove(place)
    &&& after.len() == before.len() - 1
    &&& forall|k: int|
        0 <= k ==> #[trigger] entry(after, k) == if k < place {
            entry(before, k)
        } else {
            entry(before, k + 1)
        }
}

/// `after` is `before` with `v` put in at `place`.
pub open spec fn grown(before: Seq<int>, after: Seq<int>, place: int, v: int) -> bool {
    &&& 0 <= place <= before.len()
    &&& after == before.insert(place, v)
    &&& after.len() == before.len() + 1
    &&& forall|k: int|
        0 <= k ==> #[trigger] entry(after, k) == if k < place {
            entry(before, k)
        } else if k == place {
            v
        } else {
            entry(before, k - 1)
        }
}

/// The entries of a descending list, read with 0 past its end: rank
/// fields, at least 2 inside the list, each above the next.
pub open spec fn well_listed(list: Seq<int>) -> bool {
    &&& forall|k: int| 0 <= k ==> 0 <= #[trigger] entry(list, k) < 16
    &&& forall|k: int|
        0 <= k ==> (entry(list, k) > #[trigger] entry(list, k + 1) || entry(list, k) == 0)
    &&& forall|k: int| 0 <= k < list.len() ==> #[trigger] entry(list, k) >= 2
    &&& forall|k: int| k >= list.len() ==> #[trigger] entry(list, k) == 0
}

/// How the list of the ranks held `c` times changes when one card of rank
/// `r` goes: the rank leaves the list of its count and joins the list of
/// the count below, each at the place behind the higher ranks.
pub open spec fn list_changed(h: Seq<int>, r: int, c: int) -> bool {
    let before = ranks_with(h, c);
    let after = ranks_with(less_one(h, r), c);
    let place = ranks_from(h, c, c, r + 1).len() as int;
    &&& descending(before)
    &&& descending(after)
    &&& well_listed(before)
    &&& well_listed(after)
    &&& if h[r] == c {
        shrunk(before, after, place) && before[place] == r + 2
    } else if h[r] == c + 1 {
        grown(before, after, place, r + 2)
    } else {
        after == before
    }
}

/// Everything that follows for the lists and the straight when one card of
/// rank `r` goes.
proof fn lemma_change(h: Seq<int>, r: int)
    requires
        fair_histogram(h),
        0 <= r < 13,
        h[r] >= 1,
    ensures
        fair_histogram(less_one(h, r)),
        histogram_total(less_one(h, r), 13) == histogram_total(h, 13) - 1,
        list_changed(h, r, 4),
        list_changed(h, r, 3),
        list_changed(h, r, 2),
        list_changed(h, r, 1),
        4 * ranks_with(h, 4).len() + 3 * ranks_with(h, 3).len() + 2 * ranks_with(h, 2).len()
            + ranks_with(h, 1).len() == histogram_total(h, 13),
        straight_high_of(less_one(h, r)) <= straight_high_of(h),
        h[r] >= 2 ==> straight_high_of(less_one(h, r)) == straight_high_of(h),
        straight_high_of(h) == 0 || 5 <= straight_high_of(h) <= 14,
        straight_high_of(less_one(h, r)) == 0 || 5 <= straight_high_of(less_one(h, r)) <= 14,
{
    let g = less_one(h, r);
    lemma_less_one(h, r);
    lemma_lists(h);
    lemma_lists(g);
    lemma_list_changed(h, r, 4);
    lemma_list_changed(h, r, 3);
    lemma_list_changed(h, r, 2);
    lemma_list_changed(h, r, 1);
}

proof fn lemma_list_changed(h: Seq<int>, r: int, c: int)
    requires
        fair_histogram(h),
        fair_histogram(less_one(h, r)),
        0 <= r < 13,
        h[r] >= 1,
        1 <= c <= 4,
        descending(ranks_with(h, c)),
        descending(ranks_with(less_one(h, r), c)),
    ensures
        list_changed(h, r, c),
{
    let g = less_one(h, r);
    let before = ranks_with(h, c);
    let after = ranks_with(g, c);
    let place = ranks_from(h, c, c, r + 1).len() as int;
    lemma_ranks_change(h, g, r, c, c, 0);
    lemma_entries(before);
    lemma_entries(after);
    if h[r] == c {
        lemma_entry_remove(before, place);
    } else if h[r] == c + 1 {
        lemma_entry_insert(before, place, r + 2);
    }
}

/// The lowest rank of the list of the ranks held `c` times, as an offset.
pub open spec fn lowest_of(h: Seq<int>, c: int) -> int {
    ranks_with(h, c).last() - 2
}

proof fn lemma_lowest_of(h: Seq<int>, c: int)
    requires
        fair_histogram(h),
        1 <= c <= 4,
        ranks_with(h, c).len() >= 1,
    ensures
        0 <= lowest_of(h, c) < 13,
        h[lowest_of(h, c)] == c,
        ranks_from(h, c, c, lowest_of(h, c) + 1).len() == ranks_with(h, c).len() - 1,
        entry(ranks_with(h, c), ranks_with(h, c).len() - 1) == lowest_of(h, c) + 2,
{
    lemma_lowest(h, c, c);
}

/// From six or more cards of one suit, one can go without changing what
/// they are worth.
pub proof fn lemma_flush_spare(p: Seq<int>)
    requires
        fair_presence(p),
        histogram_total(p, 13) >= 6,
    ensures
        exists|r: int|
            0 <= r < 13 && p[r] == 1 && flush_value(#[trigger] less_one(p, r)) == flush_value(p),
{
    if straight_high_of(p) > 0 {
        lemma_rank_outside(p);
        let x = choose|x: int| 0 <= x < 13 && p[x] == 1 && !in_straight(x, straight_high_of(p));
        lemma_straight_kept(p, x);
        assert(flush_value(less_one(p, x)) == flush_value(p));
    } else {
        let present = ranks_present(p);
        lemma_present_count(p, 0);
        let r = present.last() - 2;
        lemma_lowest(p, 1, 7);
        let q = less_one(p, r);
        lemma_ranks_change(p, q, r, 1, 7, 0);
        lemma_straight_monotone(q, p);
        crate::lookup_eval::lemma_straight_range(q);
        let place = ranks_from(p, 1, 7, r + 1).len() as int;
        lemma_entry_remove(present, place);
        let fewer = ranks_present(q);
        assert(fewer == present.remove(place));
        assert(entry(fewer, 0) == entry(present, 0));
        assert(entry(fewer, 1) == entry(present, 1));
        assert(entry(fewer, 2) == entry(present, 2));
        assert(entry(fewer, 3) == entry(present, 3));
        assert(entry(fewer, 4) == entry(present, 4));
        assert(p[r] == 1);
        assert(flush_value(less_one(p, r)) == flush_value(p));
    }
}

proof fn lemma_present_count(p: Seq<int>, start: int)
    requires
        p.len() == 13,
        forall|r: int| 0 <= r < 13 ==> 0 <= #[trigger] p[r] <= 1,
        0 <= start <= 13,
    ensures
        ranks_from(p, 1, 7, start).len() + histogram_total(p, start) == histogram_total(p, 13),
    decreases 13 - start,
{
    if start < 13 {
        lemma_present_count(p, start + 1);
    }
}

/// Taking out the lowest single card leaves a hand worth the same, where
/// the hand is of a kind that does not count it: no straight, and more
/// single cards than the kind uses as kickers, or beside four of a kind a
/// higher rank that is held twice or three times.
#[verifier::rlimit(80)]
#[verifier::spinoff_prover]
proof fn lemma_spare_single(h: Seq<int>)
    requires
        fair_histogram(h),
        histogram_total(h, 13) >= 6,
        ranks_with(h, 1).len() >= 1,
        ranks_with(h, 4).len() >= 1 ==> ranks_with(h, 1).len() >= 2 || entry(ranks_with(h, 2), 0)
            > ranks_with(h, 1)[0] || entry(ranks_with(h, 3), 0) > ranks_with(h, 1)[0],
        straight_high_of(h) == 0 || ranks_with(h, 4).len() >= 1 || (ranks_with(h, 3).len() >= 1 && (
        ranks_with(h, 2).len() >= 1 || ranks_with(h, 3).len() >= 2)),
        ranks_with(h, 4).len() >= 1 || ranks_with(h, 3).len() >= 1 || ranks_with(h, 2).len() != 3
            || ranks_with(h, 1)[0] < ranks_with(h, 2)[2],
    ensures
        0 <= lowest_of(h, 1) < 13,
        h[lowest_of(h, 1)] == 1,
        non_flush_value(less_one(h, lowest_of(h, 1))) == non_flush_value(h),
{
    let r = lowest_of(h, 1);
    lemma_lowest_of(h, 1);
    lemma_change(h, r);
}

/// Taking a card out of the lowest pair leaves a hand worth the same,
/// where the pair is not counted as a pair: beside four of a kind with no
/// single card or a higher one, beside three of a kind and a higher pair
/// without single cards, or as the third pair beside no higher single card.
#[verifier::rlimit(80)]
#[verifier::spinoff_prover]
proof fn lemma_spare_pair(h: Seq<int>)
    requires
        fair_histogram(h),
        histogram_total(h, 13) >= 6,
        ranks_with(h, 2).len() >= 1,
        ({
            let quads = ranks_with(h, 4).len();
            let trips = ranks_with(h, 3).len();
            let pairs = ranks_with(h, 2);
            let singles = ranks_with(h, 1);
            ||| (quads >= 1 && trips == 0 && (singles.len() == 0 || singles[0] > pairs[0]))
            ||| (quads == 0 && trips == 1 && pairs.len() >= 2 && singles.len() == 0)
            ||| (quads == 0 && trips == 0 && pairs.len() == 3 && straight_high_of(h) == 0 && entry(
                singles,
                0,
            ) > pairs[2])
            ||| (quads == 0 && trips == 0 && pairs.len() == 3 && straight_high_of(h) == 0
                && singles.len() == 0)
        }),
    ensures
        0 <= lowest_of(h, 2) < 13,
        h[lowest_of(h, 2)] == 2,
        non_flush_value(less_one(h, lowest_of(h, 2))) == non_flush_value(h),
{
    let r = lowest_of(h, 2);
    lemma_lowest_of(h, 2);
    lemma_change(h, r);
    let g = less_one(h, r);
    lemma_first_entries(ranks_with(h, 1));
    lemma_first_entries(ranks_with(h, 2));
    lemma_first_entries(ranks_with(g, 1));
    lemma_first_entries(ranks_with(g, 2));
    lemma_list_member(h, 2, 2, 0, ranks_with(h, 2).len() - 1);
    if ranks_with(h, 1).len() >= 1 {
        lemma_list_member(h, 1, 1, 0, 0);
    }
}

/// The first entries of a list in order.
proof fn lemma_first_entries(list: Seq<int>)
    requires
        well_listed(list),
        descending(list),
    ensures
        entry(list, 0) >= entry(list, 1) >= entry(list, 2) >= entry(list, 3) >= entry(list, 4) >= 0,
        entry(list, 0) > entry(list, 1) || entry(list, 0) == 0,
        entry(list, 1) > entry(list, 2) || entry(list, 1) == 0,
        entry(list, 2) > entry(list, 3) || entry(list, 2) == 0,
        list.len() >= 1 ==> entry(list, 0) == list[0] && list[0] >= 2,
        list.len() >= 2 ==> entry(list, 1) == list[1] && list[1] >= 2,
        list.len() >= 3 ==> entry(list, 2) == list[2] && list[2] >= 2,
        list.len() == 0 ==> entry(list, 0) == 0,
        list.len() <= 1 ==> entry(list, 1) == 0,
        list.len() <= 2 ==> entry(list, 2) == 0,
{
    assert(entry(list, 0int) > entry(list, 0int + 1) || entry(list, 0int) == 0);
    assert(entry(list, 1int) > entry(list, 1int + 1) || entry(list, 1int) == 0);
    assert(entry(list, 2int) > entry(list, 2int + 1) || entry(list, 2int) == 0);
    assert(entry(list, 3int) > entry(list, 3int + 1) || entry(list, 3int) == 0);
}

/// Taking a card out of the lowest three of a kind leaves a hand worth the
/// same, where they count as a pair only: beside four of a kind, or beside
/// higher three of a kind.
#[verifier::rlimit(80)]
#[verifier::spinoff_prover]
proof fn lemma_spare_trips(h: Seq<int>)
    requires
        fair_histogram(h),
        histogram_total(h, 13) >= 6,
        ranks_with(h, 3).len() >= 1,
        ranks_with(h, 4).len() >= 1 || ranks_with(h, 3).len() >= 2,
    ensures
        0 <= lowest_of(h, 3) < 13,
        h[lowest_of(h, 3)] == 3,
        non_flush_value(less_one(h, lowest_of(h, 3))) == non_flush_value(h),
{
    let r = lowest_of(h, 3);
    lemma_lowest_of(h, 3);
    lemma_change(h, r);
}

/// From a straight that is no flush, a card can go without changing what
/// the hand is worth: one of a rank held twice or more, or one of a rank
/// outside the straight.
#[verifier::rlimit(80)]
#[verifier::spinoff_prover]
proof fn lemma_spare_of_straight(h: Seq<int>)
    requires
        fair_histogram(h),
        histogram_total(h, 13) >= 6,
        straight_high_of(h) > 0,
        ranks_with(h, 4).len() == 0,
        !(ranks_with(h, 3).len() >= 1 && (ranks_with(h, 2).len() >= 1 || ranks_with(h, 3).len()
            >= 2)),
    ensures
        exists|r: int|
            0 <= r < 13 && h[r] >= 1 && non_flush_value(#[trigger] less_one(h, r))
                == non_flush_value(h),
{
    lemma_lists(h);
    if ranks_with(h, 3).len() >= 1 {
        let r = lowest_of(h, 3);
        lemma_lowest_of(h, 3);
        lemma_change(h, r);
        assert(non_flush_value(less_one(h, r)) == non_flush_value(h));
    } else if ranks_with(h, 2).len() >= 1 {
        let r = lowest_of(h, 2);
        lemma_lowest_of(h, 2);
        lemma_change(h, r);
        assert(non_flush_value(less_one(h, r)) == non_flush_value(h));
    } else {
        assert forall|x: int| 0 <= x < 13 implies 0 <= #[trigger] h[x] <= 1 by {
            lemma_count_listed(h, x);
        }
        lemma_rank_outside(h);
        let x = choose|x: int| 0 <= x < 13 && h[x] == 1 && !in_straight(x, straight_high_of(h));
        lemma_straight_kept(h, x);
        lemma_change(h, x);
        assert(non_flush_value(less_one(h, x)) == non_flush_value(h));
    }
}

/// A rank that is held `c` times, for `c` from 1 to 4, stands in the list
/// of the ranks held `c` times, which is then not empty.
proof fn lemma_count_listed(h: Seq<int>, x: int)
    requires
        fair_histogram(h),
        0 <= x < 13,
    ensures
        h[x] == 4 ==> ranks_with(h, 4).len() >= 1,
        h[x] == 3 ==> ranks_with(h, 3).len() >= 1,
        h[x] == 2 ==> ranks_with(h, 2).len() >= 1,
        h[x] == 1 ==> ranks_with(h, 1).len() >= 1,
{
    if 1 <= h[x] <= 4 {
        lemma_listed_from(h, x, h[x], 0);
    }
}

proof fn lemma_listed_from(h: Seq<int>, x: int, c: int, start: int)
    requires
        0 <= start <= x < 13,
        h[x] == c,
    ensures
        ranks_from(h, c, c, start).len() >= 1,
    decreases x - start,
{
    if start < x {
        lemma_listed_from(h, x, c, start + 1);
    }
}

/// From six or seven cards that make no flush, one can go without
/// changing what the hand is worth.
pub proof fn lemma_non_flush_spare(h: Seq<int>)
    requires
        fair_histogram(h),
        histogram_total(h, 13) >= 6,
    ensures
        exists|r: int|
            0 <= r < 13 && h[r] >= 1 && non_flush_value(#[trigger] less_one(h, r))
                == non_flush_value(h),
{
    lemma_lists(h);
    let quads = ranks_with(h, 4);
    let trips = ranks_with(h, 3);
    let pairs = ranks_with(h, 2);
    let singles = ranks_with(h, 1);
    let full = trips.len() >= 1 && (pairs.len() >= 1 || trips.len() >= 2);
    if quads.len() >= 1 {
        lemma_entries(singles);
        lemma_entries(pairs);
        if trips.len() >= 1 {
            lemma_spare_trips(h);
            assert(non_flush_value(less_one(h, lowest_of(h, 3))) == non_flush_value(h));
        } else if pairs.len() >= 1 && (singles.len() == 0 || singles[0] > pairs[0]) {
            lemma_spare_pair(h);
            assert(non_flush_value(less_one(h, lowest_of(h, 2))) == non_flush_value(h));
        } else {
            if pairs.len() >= 1 {
                lemma_list_member(h, 1, 1, 0, 0);
                lemma_list_member(h, 2, 2, 0, 0);
            }
            lemma_spare_single(h);
            assert(non_flush_value(less_one(h, lowest_of(h, 1))) == non_flush_value(h));
        }
    } else if full {
        if singles.len() >= 1 {
            lemma_spare_single(h);
            assert(non_flush_value(less_one(h, lowest_of(h, 1))) == non_flush_value(h));
        } else if trips.len() >= 2 {
            lemma_spare_trips(h);
            assert(non_flush_value(less_one(h, lowest_of(h, 3))) == non_flush_value(h));
        } else {
            lemma_spare_pair(h);
            assert(non_flush_value(less_one(h, lowest_of(h, 2))) == non_flush_value(h));
        }
    } else if straight_high_of(h) > 0 {
        lemma_spare_of_straight(h);
    } else if trips.len() >= 1 || pairs.len() < 3 {
        lemma_spare_single(h);
        assert(non_flush_value(less_one(h, lowest_of(h, 1))) == non_flush_value(h));
    } else if singles.len() >= 1 && singles[0] < pairs[2] {
        lemma_spare_single(h);
        assert(non_flush_value(less_one(h, lowest_of(h, 1))) == non_flush_value(h));
    } else {
        lemma_entries(singles);
        lemma_entries(pairs);
        if singles.len() >= 1 {
            lemma_list_member(h, 1, 1, 0, 0);
            lemma_list_member(h, 2, 2, 0, 2);
        }
        lemma_spare_pair(h);
        assert(non_flush_value(less_one(h, lowest_of(h, 2))) == non_flush_value(h));
    }
}

proof fn lemma_rank_witness(cards: Seq<u8>, r: int)
    requires
        count_rank(cards, r) >= 1,
    ensures
        exists|i: int| 0 <= i < cards.len() && rank_of(cards[i]) == r,
    decreases cards.len(),
{
    if cards.len() > 0 {
        if rank_of(cards.last()) == r {
            assert(rank_of(cards[cards.len() - 1]) == r);
        } else {
            lemma_rank_witness(cards.drop_last(), r);
            let i = choose|i: int| 0 <= i < cards.drop_last().len() && rank_of(cards.drop_last()[i]) == r;
            assert(rank_of(cards[i]) == r);
        }
    }
}

/// Cards that are all of one suit count in full for that suit.
pub proof fn lemma_all_in_suit(cards: Seq<u8>, s: int)
    requires
        forall|i: int| 0 <= i < cards.len() ==> suit_of(cards[i]) == s,
    ensures
        count_suit(cards, s) == cards.len(),
    decreases cards.len(),
{
    if cards.len() > 0 {
        let shorter = cards.drop_last();
        assert forall|i: int| 0 <= i < shorter.len() implies suit_of(shorter[i]) == s by {
            assert(shorter[i] == cards[i]);
        }
        lemma_all_in_suit(shorter, s);
        assert(suit_of(cards[cards.len() - 1]) == s);
    }
}

/// From six or seven cards one can be taken out so that the rest is worth
/// the same as the whole.
pub proof fn lemma_spare_card(cards: Seq<u8>)
    requires
        proper_cards(cards),
        6 <= cards.len() <= 7,
    ensures
        exists|i: int|
            0 <= i < cards.len() && hand_value(#[trigger] cards.remove(i)) == hand_value(cards),
{
    let h = rank_histogram(cards);
    lemma_hand_profile(cards);
    let suit = flush_suit_from(cards, 0);
    if suit < 0 {
        lemma_non_flush_spare(h);
        let r = choose|r: int|
            0 <= r < 13 && h[r] >= 1 && non_flush_value(#[trigger] less_one(h, r))
                == non_flush_value(h);
        lemma_rank_witness(cards, r);
        let i = choose|i: int| 0 <= i < cards.len() && rank_of(cards[i]) == r;
        let rest = cards.remove(i);
        lemma_remove_profile(cards, i);
        lemma_hand_profile(rest);
        let suit_rest = flush_suit_from(rest, 0);
        if suit_rest >= 0 {
            assert(count_suit(rest, suit_rest) >= 5);
            assert(count_suit(cards, suit_rest) < 5);
        }
        assert(hand_value(cards.remove(i)) == hand_value(cards));
    } else {
        let p = suit_presence(cards, suit);
        assert(fair_presence(p));
        if exists|j: int| 0 <= j < cards.len() && suit_of(cards[j]) != suit {
            let i = choose|j: int| 0 <= j < cards.len() && suit_of(cards[j]) != suit;
            let rest = cards.remove(i);
            lemma_remove_profile(cards, i);
            lemma_hand_profile(rest);
            assert(count_suit(rest, suit) >= 5);
            assert(flush_suit_from(rest, 0) == suit);
            assert(suit_presence(rest, suit) == p);
            assert(hand_value(cards.remove(i)) == hand_value(cards));
        } else {
            lemma_all_in_suit(cards, suit);
            lemma_flush_spare(p);
            let r = choose|r: int|
                0 <= r < 13 && p[r] == 1 && flush_value(#[trigger] less_one(p, r)) == flush_value(
                    p,
                );
            let card = 4 * r + suit;
            assert(count_card(cards, card) > 0);
            lemma_card_counts(cards, card);
            let i = choose|i: int| 0 <= i < cards.len() && cards[i] == card;
            let rest = cards.remove(i);
            lemma_remove_profile(cards, i);
            lemma_hand_profile(rest);
            assert(rank_of(cards[i]) == r && suit_of(cards[i]) == suit);
            assert(count_suit(rest, suit) >= 5);
            assert(flush_suit_from(rest, 0) == suit);
            assert(suit_presence(rest, suit) == less_one(p, r));
            assert(hand_value(cards.remove(i)) == hand_value(cards));
        }
    }
}

/// Six cards are worth what the best five of them are worth: no five of
/// them are worth more than the six, and some five are worth as much.
pub proof fn lemma_best_five_of_six(cards: Seq<u8>)
    requires
        proper_cards(cards),
        cards.len() == 6,
    ensures
        forall|i: int| 0 <= i < 6 ==> hand_value(#[trigger] cards.remove(i)) <= hand_value(cards),
        exists|i: int| 0 <= i < 6 && hand_value(#[trigger] cards.remove(i)) == hand_value(cards),
{
    lemma_hand_profile(cards);
    assert forall|i: int| 0 <= i < 6 implies hand_value(#[trigger] cards.remove(i)) <= hand_value(
        cards,
    ) by {
        lemma_drop_card(cards, i);
    }
    lemma_spare_card(cards);
}

/// Seven cards are worth what the best five of them are worth: no five of
/// them are worth more than the seven, and some five are worth as much.
pub proof fn lemma_best_five_of_seven(cards: Seq<u8>)
    requires
        proper_cards(cards),
        cards.len() == 7,
    ensures
        forall|i: int, j: int|
            0 <= i < 7 && 0 <= j < 6 ==> hand_value(#[trigger] cards.remove(i).remove(j))
                <= hand_value(cards),
        exists|i: int, j: int|
            0 <= i < 7 && 0 <= j < 6 && hand_value(#[trigger] cards.remove(i).remove(j))
                == hand_value(cards),
{
    assert forall|i: int, j: int| 0 <= i < 7 && 0 <= j < 6 implies hand_value(
        #[trigger] cards.remove(i).remove(j),
    ) <= hand_value(cards) by {
        let six = cards.remove(i);
        lemma_drop_card(cards, i);
        lemma_remove_profile(cards, i);
        lemma_best_five_of_six(six);
    }
    lemma_spare_card(cards);
    let i = choose|i: int|
        0 <= i < cards.len() && hand_value(#[trigger] cards.remove(i)) == hand_value(cards);
    let six = cards.remove(i);
    lemma_remove_profile(cards, i);
    lemma_best_five_of_six(six);
    let j = choose|j: int| 0 <= j < 6 && hand_value(#[trigger] six.remove(j)) == hand_value(six);
    assert(hand_value(cards.remove(i).remove(j)) == hand_value(cards));
}

/// A choice of five cards from five, six or seven: with seven cards the
/// card at place `i` goes and then the card at place `j` of the rest, with
/// six the card at place `i`, with five none.
pub open spec fn is_pick(cards: Seq<u8>, i: int, j: int) -> bool {
    if cards.len() == 7 {
        0 <= i < 7 && 0 <= j < 6
    } else if cards.len() == 6 {
        0 <= i < 6 && j == 0
    } else {
        cards.len() == 5 && i == 0 && j == 0
    }
}

/// The five cards that a choice leaves.
pub open spec fn pick_five(cards: Seq<u8>, i: int, j: int) -> Seq<u8> {
    if cards.len() == 7 {
        cards.remove(i).remove(j)
    } else if cards.len() == 6 {
        cards.remove(i)
    } else {
        cards
    }
}

/// A hand of five, six or seven different cards is worth what its best
/// five cards are worth: no five of them are worth more, and some five are
/// worth as much.
pub proof fn lemma_best_five(cards: Seq<u8>)
    requires
        proper_cards(cards),
        5 <= cards.len() <= 7,
    ensures
        forall|i: int, j: int|
            is_pick(cards, i, j) ==> pick_five(cards, i, j).len() == 5 && proper_cards(
                pick_five(cards, i, j),
            ) && hand_value(#[trigger] pick_five(cards, i, j)) <= hand_value(cards),
        exists|i: int, j: int|
            is_pick(cards, i, j) && hand_value(#[trigger] pick_five(cards, i, j)) == hand_value(
                cards,
            ),
{
    if cards.len() == 7 {
        lemma_best_five_of_seven(cards);
        assert forall|i: int, j: int| is_pick(cards, i, j) implies pick_five(cards, i, j).len()
            == 5 && proper_cards(pick_five(cards, i, j)) && hand_value(
            #[trigger] pick_five(cards, i, j),
        ) <= hand_value(cards) by {
            lemma_remove_profile(cards, i);
            lemma_remove_profile(cards.remove(i), j);
        }
        let (i, j) = choose|i: int, j: int|
            0 <= i < 7 && 0 <= j < 6 && hand_value(#[trigger] cards.remove(i).remove(j))
                == hand_value(cards);
        assert(is_pick(cards, i, j) && hand_value(pick_five(cards, i, j)) == hand_value(cards));
    } else if cards.len() == 6 {
        lemma_best_five_of_six(cards);
        assert forall|i: int, j: int| is_pick(cards, i, j) implies pick_five(cards, i, j).len()
            == 5 && proper_cards(pick_five(cards, i, j)) && hand_value(
            #[trigger] pick_five(cards, i, j),
        ) <= hand_value(cards) by {
            lemma_remove_profile(cards, i);
        }
        let i = choose|i: int| 0 <= i < 6 && hand_value(#[trigger] cards.remove(i)) == hand_value(cards);
        assert(is_pick(cards, i, 0) && hand_value(pick_five(cards, i, 0)) == hand_value(cards));
    } else {
        assert(is_pick(cards, 0, 0) && hand_value(pick_five(cards, 0, 0)) == hand_value(cards));
    }
}

/// One hand scores above another exactly when some five of its cards are
/// worth more than any five of the other's, and the two score alike exactly
/// when the best five of each are worth the same.
pub proof fn lemma_order_is_poker_order(a: Seq<u8>, b: Seq<u8>)
    requires
        proper_cards(a),
        proper_cards(b),
        5 <= a.len() <= 7,
        5 <= b.len() <= 7,
    ensures
        hand_value(a) > hand_value(b) <==> exists|i: int, j: int|
            is_pick(a, i, j) && forall|k: int, l: int|
                is_pick(b, k, l) ==> hand_value(#[trigger] pick_five(a, i, j)) > hand_value(
                    #[trigger] pick_five(b, k, l),
                ),
        hand_value(a) == hand_value(b) <==> exists|i: int, j: int, k: int, l: int|
            is_pick(a, i, j) && is_pick(b, k, l) && hand_value(#[trigger] pick_five(a, i, j))
                == hand_value(#[trigger] pick_five(b, k, l)) && hand_value(pick_five(a, i, j))
                == hand_value(a) && hand_value(pick_five(b, k, l)) == hand_value(b),
{
    lemma_best_five(a);
    lemma_best_five(b);
    let (ai, aj) = choose|i: int, j: int|
        is_pick(a, i, j) && hand_value(#[trigger] pick_five(a, i, j)) == hand_value(a);
    let (bk, bl) = choose|k: int, l: int|
        is_pick(b, k, l) && hand_value(#[trigger] pick_five(b, k, l)) == hand_value(b);
    if hand_value(a) > hand_value(b) {
        assert forall|k: int, l: int| is_pick(b, k, l) implies hand_value(pick_five(a, ai, aj))
            > hand_value(#[trigger] pick_five(b, k, l)) by {}
    }
    if exists|i: int, j: int|
        is_pick(a, i, j) && forall|k: int, l: int|
            is_pick(b, k, l) ==> hand_value(#[trigger] pick_five(a, i, j)) > hand_value(
                #[trigger] pick_five(b, k, l),
            ) {
        let (i, j) = choose|i: int, j: int|
            is_pick(a, i, j) && forall|k: int, l: int|
                is_pick(b, k, l) ==> hand_value(#[trigger] pick_five(a, i, j)) > hand_value(
                    #[trigger] pick_five(b, k, l),
                );
        assert(hand_value(pick_five(a, i, j)) > hand_value(pick_five(b, bk, bl)));
    }
    if hand_value(a) == hand_value(b) {
        assert(hand_value(pick_five(a, ai, aj)) == hand_value(pick_five(b, bk, bl)));
    }
}

} // verus!
