//! Equity-based hand bucketing.
//!
//! Groups hands into equal-frequency equity buckets. Equity is measured
//! against a uniformly random opponent hand: exactly on a complete board,
//! by sampling runouts and opponents on a shorter one. It is kept as a
//! count of half wins out of a number of match-ups, so that two equities
//! compare exactly.

use rand::Rng;
use vstd::prelude::*;
use crate::card_encoding::{distinct_cards, lemma_live_below, live_below, remaining_deck};
use crate::hand_evaluator::hand_value;
use crate::lookup_eval::evaluate_fast;

verus! {

/// An equity as a ratio: a win counts two half wins, a tie one. The equity
/// is `half_wins / (2 * total)`, and one half where nothing was counted.
#[derive(Debug, Clone, Copy, PartialEq, Eq, Structural)]
pub struct Equity {
    pub half_wins: u64,
    pub total: u64,
}

/// Half wins of one match-up: two for a win, one for a tie.
pub open spec fn points(mine: int, theirs: int) -> nat {
    if mine > theirs {
        2
    } else if mine == theirs {
        1
    } else {
        0
    }
}

/// The seven cards of a two-card hand on a five-card board.
pub open spec fn hand_on(c0: u8, c1: u8, board: Seq<u8>) -> Seq<u8> {
    seq![c0, c1, board[0], board[1], board[2], board[3], board[4]]
}

/// Half wins of a hand worth `mine` against the opponents that hold
/// `live[i]` and one of the cards between `i` and `j`.
pub open spec fn row_points(mine: int, live: Seq<u8>, board: Seq<u8>, i: int, j: int) -> nat
    decreases j - i,
{
    if j <= i + 1 {
        0
    } else {
        row_points(mine, live, board, i, j - 1) + points(
            mine,
            hand_value(hand_on(live[i], live[j - 1], board)),
        )
    }
}

/// Half wins against all opponents whose lower card is one of the first
/// `i` live cards.
pub open spec fn pair_points(mine: int, live: Seq<u8>, board: Seq<u8>, i: int) -> nat
    decreases i,
{
    if i <= 0 {
        0
    } else {
        pair_points(mine, live, board, i - 1) + row_points(
            mine,
            live,
            board,
            i - 1,
            live.len() as int,
        )
    }
}

/// Number of pairs of `n` cards whose lower card is one of the first `i`.
pub open spec fn pair_count(n: int, i: int) -> nat
    decreases i,
{
    if i <= 0 {
        0
    } else {
        pair_count(n, i - 1) + if n > i {
            (n - i) as nat
        } else {
            0nat
        }
    }
}

/// The cards that neither the hand nor the board holds.
pub open spec fn live_cards(c0: u8, c1: u8, board: Seq<u8>) -> Seq<u8> {
    live_below(seq![c0, c1] + board, 52)
}

/// The exact equity of a hand on a five-card board against every
/// opponent hand made of two live cards.
pub open spec fn river_equity(c0: u8, c1: u8, board: Seq<u8>) -> Equity {
    let live = live_cards(c0, c1, board);
    let mine = hand_value(hand_on(c0, c1, board));
    Equity {
        half_wins: pair_points(mine, live, board, live.len() as int) as u64,
        total: pair_count(live.len() as int, live.len() as int) as u64,
    }
}

/// The first equity is the lower one. An equity without match-ups counts
/// as one half.
pub open spec fn equity_below(a: Equity, b: Equity) -> bool {
    let (aw, at) = if a.total == 0 {
        (1int, 1int)
    } else {
        (a.half_wins as int, a.total as int)
    };
    let (bw, bt) = if b.total == 0 {
        (1int, 1int)
    } else {
        (b.half_wins as int, b.total as int)
    };
    aw * bt < bw * at
}

/// Hand `k` comes before hand `i` when the hands are put in ascending
/// order of equity, equal equities staying in their given order.
pub open spec fn comes_before(equities: Seq<Equity>, k: int, i: int) -> bool {
    equity_below(equities[k], equities[i]) || (!equity_below(equities[i], equities[k]) && k < i)
}

/// How many of the first `n` hands come before hand `i`.
pub open spec fn before_count(equities: Seq<Equity>, i: int, n: int) -> nat
    decreases n,
{
    if n <= 0 {
        0
    } else {
        before_count(equities, i, n - 1) + if comes_before(equities, n - 1, i) {
            1nat
        } else {
            0nat
        }
    }
}

/// The bucket of the hand at place `rank` among `n` hands in `buckets`
/// buckets of equal size.
pub open spec fn bucket_at(rank: int, buckets: int, n: int) -> int {
    if rank * buckets / n <= buckets - 1 {
        rank * buckets / n
    } else {
        buckets - 1
    }
}

/// The bucket of each hand: its place in ascending order of equity, cut
/// into as many equal parts as there are buckets, or hands if those are
/// fewer.
pub open spec fn buckets_of(equities: Seq<Equity>, num_buckets: int) -> Seq<u16> {
    let n = equities.len() as int;
    let actual = if num_buckets <= n {
        num_buckets
    } else {
        n
    };
    Seq::new(
        equities.len(),
        |i: int| bucket_at(before_count(equities, i, n) as int, actual, n) as u16,
    )
}

/// `rand::Rng::gen_range` on the thread's generator, over a half-open
/// range of indices that is not empty: the result is some index of the
/// range. Which one is left open.
#[verifier::external_body]
fn random_index(low: usize, high: usize) -> (index: usize)
    requires
        low < high,
    ensures
        low <= index < high,
{
    rand::thread_rng().gen_range(low..high)
}

/// The half wins of one sampled deal. `drawn` holds the cards that
/// complete the board, then the opponent's two cards.
pub fn sample_points(c0: u8, c1: u8, board: &[u8], drawn: &[u8]) -> (won: u8)
    requires
        board@.len() <= 5,
        drawn@.len() == 5 - board@.len() + 2,
        c0 < 52,
        c1 < 52,
        forall|i: int| 0 <= i < board@.len() ==> board@[i] < 52,
        forall|i: int| 0 <= i < drawn@.len() ==> drawn@[i] < 52,
    ensures
        won == deal_points(c0, c1, board@, drawn@),
        won <= 2,
{
    let cards_needed: usize = 5 - board.len();
    let ghost full = board@ + drawn@.subrange(0, 5 - board@.len());
    // Build the full 5-card board.
    let mut full_board: [u8; 5] = [0u8; 5];
    let mut i: usize = 0;
    while i < 5
        invariant
            i <= 5,
            board@.len() <= 5,
            cards_needed == 5 - board@.len(),
            drawn@.len() == cards_needed + 2,
            full == board@ + drawn@.subrange(0, 5 - board@.len()),
            forall|k: int| 0 <= k < i ==> (#[trigger] full_board@[k]) == full[k],
        decreases 5 - i,
    {
        if i < board.len() {
            full_board[i] = board[i];
        } else {
            full_board[i] = drawn[i - board.len()];
        }
        i += 1;
    }
    let opp0: u8 = drawn[cards_needed];
    let opp1: u8 = drawn[cards_needed + 1];
    let mine: [u8; 7] = [
        c0,
        c1,
        full_board[0],
        full_board[1],
        full_board[2],
        full_board[3],
        full_board[4],
    ];
    let theirs: [u8; 7] = [
        opp0,
        opp1,
        full_board[0],
        full_board[1],
        full_board[2],
        full_board[3],
        full_board[4],
    ];
    assert(mine@ =~= hand_on(c0, c1, full));
    assert(theirs@ =~= hand_on(opp0, opp1, full));
    let my_score: u32 = evaluate_fast(&mine);
    let opp_score: u32 = evaluate_fast(&theirs);
    if my_score > opp_score {
        2
    } else if my_score == opp_score {
        1
    } else {
        0
    }
}

/// The dead cards of a deal: the hand, then the board.
fn dead_cards(c0: u8, c1: u8, board: &[u8]) -> (dead: Vec<u8>)
    ensures
        dead@ == seq![c0, c1] + board@,
{
    let mut dead: Vec<u8> = Vec::new();
    dead.push(c0);
    dead.push(c1);
    let mut i: usize = 0;
    while i < board.len()
        invariant
            i <= board@.len(),
            dead@ == seq![c0, c1] + board@.subrange(0, i as int),
        decreases board@.len() - i,
    {
        dead.push(board[i]);
        assert(dead@ =~= seq![c0, c1] + board@.subrange(0, i + 1));
        i += 1;
    }
    assert(board@.subrange(0, board@.len() as int) =~= board@);
    dead
}

/// Exact equity on the river (5-card board): every pair of live cards is
/// one opponent.
fn exhaustive_river_equity(c0: u8, c1: u8, board: &[u8]) -> (equity: Equity)
    requires
        board@.len() == 5,
        c0 < 52,
        c1 < 52,
        forall|i: int| 0 <= i < 5 ==> board@[i] < 52,
    ensures
        equity == river_equity(c0, c1, board@),
        equity.half_wins <= 2 * equity.total,
        equity.total <= 2704,
{
    let hand: [u8; 7] = [c0, c1, board[0], board[1], board[2], board[3], board[4]];
    assert(hand@ =~= hand_on(c0, c1, board@));
    let my_score: u32 = evaluate_fast(&hand);
    let dead: Vec<u8> = dead_cards(c0, c1, board);
    let live: Vec<u8> = remaining_deck(dead.as_slice());
    let n: usize = live.len();
    proof {
        lemma_live_below(dead@, 52);
    }
    let mut half_wins: u64 = 0;
    let mut total: u64 = 0;
    let mut i: usize = 0;
    while i < n
        invariant
            i <= n,
            n == live@.len(),
            n <= 52,
            board@.len() == 5,
            forall|k: int| 0 <= k < 5 ==> board@[k] < 52,
            forall|k: int| 0 <= k < live@.len() ==> (#[trigger] live@[k]) < 52,
            half_wins == pair_points(my_score as int, live@, board@, i as int),
            total == pair_count(n as int, i as int),
            half_wins <= 2 * total,
            total <= i * 52,
        decreases n - i,
    {
        let mut j: usize = i + 1;
        let ghost half_before = half_wins;
        let ghost total_before = total;
        while j < n
            invariant
                i < j <= n,
                n == live@.len(),
                n <= 52,
                board@.len() == 5,
                forall|k: int| 0 <= k < 5 ==> board@[k] < 52,
                forall|k: int| 0 <= k < live@.len() ==> (#[trigger] live@[k]) < 52,
                half_wins == half_before + row_points(
                    my_score as int,
                    live@,
                    board@,
                    i as int,
                    j as int,
                ),
                total == total_before + (j - i - 1),
                half_wins <= 2 * total,
                total_before <= i * 52,
            decreases n - j,
        {
            let other: [u8; 7] = [live[i], live[j], board[0], board[1], board[2], board[3], board[4]];
            assert(other@ =~= hand_on(live@[i as int], live@[j as int], board@));
            let opp_score: u32 = evaluate_fast(&other);
            total += 1;
            if my_score > opp_score {
                half_wins += 2;
            } else if my_score == opp_score {
                half_wins += 1;
            }
            j += 1;
        }
        i += 1;
    }
    Equity { half_wins, total }
}

/// A deal that can come: the cards that the board lacks and two for the
/// opponent, all different, none of them in the hand or on the board.
pub open spec fn fair_deal(drawn: Seq<u8>, c0: u8, c1: u8, board: Seq<u8>) -> bool {
    &&& drawn.len() == 5 - board.len() + 2
    &&& distinct_cards(drawn)
    &&& forall|i: int|
        0 <= i < drawn.len() ==> (#[trigger] drawn[i]) < 52 && drawn[i] != c0 && drawn[i] != c1
            && !board.contains(drawn[i])
}

/// The half wins of a deal: the hand against the opponent's two cards on
/// the board that the deal completes.
pub open spec fn deal_points(c0: u8, c1: u8, board: Seq<u8>, drawn: Seq<u8>) -> nat {
    let full = board + drawn.subrange(0, 5 - board.len());
    points(
        hand_value(hand_on(c0, c1, full)),
        hand_value(hand_on(drawn[5 - board.len()], drawn[5 - board.len() + 1], full)),
    )
}

/// The half wins of the first `n` deals together.
pub open spec fn deals_points(c0: u8, c1: u8, board: Seq<u8>, deals: Seq<Seq<u8>>, n: nat) -> nat
    decreases n,
{
    if n == 0 {
        0
    } else {
        deals_points(c0, c1, board, deals, (n - 1) as nat) + deal_points(c0, c1, board, deals[n - 1])
    }
}

/// What a sampled equity is: the half wins of as many deals as there were
/// samples, each of them a deal that can come.
pub open spec fn sampled_from(equity: Equity, c0: u8, c1: u8, board: Seq<u8>, deals: Seq<Seq<u8>>) -> bool {
    &&& deals.len() == equity.total
    &&& forall|k: int| 0 <= k < deals.len() ==> fair_deal(#[trigger] deals[k], c0, c1, board)
    &&& equity.half_wins == deals_points(c0, c1, board, deals, deals.len())
}

/// The equity is the count of some deals that can come.
pub open spec fn sampled(equity: Equity, c0: u8, c1: u8, board: Seq<u8>) -> bool {
    exists|deals: Seq<Seq<u8>>| sampled_from(equity, c0, c1, board, deals)
}

/// Draws `needed` different cards from the live ones: a shuffle that stops
/// once the first `needed` places are filled.
fn draw_cards(live: &Vec<u8>, needed: usize) -> (drawn: Vec<u8>)
    requires
        needed <= live@.len(),
        distinct_cards(live@),
    ensures
        drawn@.len() == needed,
        distinct_cards(drawn@),
        forall|i: int| 0 <= i < needed ==> live@.contains(#[trigger] drawn@[i]),
{
    let mut drawn: Vec<u8> = Vec::new();
    let mut deck: Vec<u8> = copy_of(live);
    let mut k: usize = 0;
    while k < needed
        invariant
            k <= needed <= deck@.len(),
            deck@.len() == live@.len(),
            distinct_cards(deck@),
            forall|x: int| 0 <= x < deck@.len() ==> live@.contains(#[trigger] deck@[x]),
            drawn@ == deck@.subrange(0, k as int),
        decreases needed - k,
    {
        let idx: usize = random_index(k, deck.len());
        let picked: u8 = deck[idx];
        let moved: u8 = deck[k];
        let ghost before = deck@;
        deck.set(idx, moved);
        deck.set(k, picked);
        drawn.push(picked);
        proof {
            assert forall|i: int, j: int| 0 <= i < j < deck@.len() implies deck@[i] != deck@[j] by {
                let from = |x: int|
                    if x == k {
                        idx as int
                    } else if x == idx {
                        k as int
                    } else {
                        x
                    };
                assert(deck@[i] == before[from(i)]);
                assert(deck@[j] == before[from(j)]);
                assert(from(i) != from(j));
                if from(i) < from(j) {
                    assert(before[from(i)] != before[from(j)]);
                } else {
                    assert(before[from(j)] != before[from(i)]);
                }
            }
            assert forall|x: int| 0 <= x < deck@.len() implies live@.contains(
                #[trigger] deck@[x],
            ) by {
                if x == k {
                    assert(deck@[x] == before[idx as int]);
                } else if x == idx {
                    assert(deck@[x] == before[k as int]);
                } else {
                    assert(deck@[x] == before[x]);
                }
            }
            assert(drawn@ =~= deck@.subrange(0, k + 1));
        }
        k += 1;
    }
    proof {
        assert forall|i: int, j: int| 0 <= i < j < drawn@.len() implies drawn@[i] != drawn@[j] by {
            assert(deck@[i] != deck@[j]);
        }
        assert forall|i: int| 0 <= i < needed implies live@.contains(#[trigger] drawn@[i]) by {
            assert(drawn@[i] == deck@[i]);
        }
    }
    drawn
}

/// Sampled equity for flop and turn boards: each sample draws the rest of
/// the board and an opponent hand from the live cards.
fn monte_carlo_equity(c0: u8, c1: u8, board: &[u8], num_samples: usize) -> (equity: Equity)
    requires
        board@.len() <= 5,
        c0 < 52,
        c1 < 52,
        forall|i: int| 0 <= i < board@.len() ==> board@[i] < 52,
        num_samples <= 0x7fff_ffff_ffff_ffff,
    ensures
        equity.half_wins <= 2 * equity.total,
        equity.total == if live_cards(c0, c1, board@).len() < 5 - board@.len() + 2 {
            0
        } else {
            num_samples as int
        },
        sampled(equity, c0, c1, board@),
{
    let dead: Vec<u8> = dead_cards(c0, c1, board);
    let live: Vec<u8> = remaining_deck(dead.as_slice());
    proof {
        lemma_live_below(dead@, 52);
        assert(distinct_cards(live@));
    }
    // Cards to complete the board, and two for the opponent.
    let cards_needed: usize = 5 - board.len();
    let needed: usize = cards_needed + 2;
    let mut half_wins: u64 = 0;
    let mut total: u64 = 0;
    let ghost mut deals: Seq<Seq<u8>> = Seq::empty();
    if live.len() < needed {
        assert(sampled_from(Equity { half_wins, total }, c0, c1, board@, deals));
        return Equity { half_wins, total };
    }
    let mut sample: usize = 0;
    while sample < num_samples
        invariant
            sample <= num_samples <= 0x7fff_ffff_ffff_ffff,
            total == sample,
            half_wins <= 2 * total,
            board@.len() <= 5,
            cards_needed == 5 - board@.len(),
            needed == cards_needed + 2,
            needed <= live@.len(),
            c0 < 52,
            c1 < 52,
            dead@ == seq![c0, c1] + board@,
            distinct_cards(live@),
            forall|k: int| 0 <= k < board@.len() ==> board@[k] < 52,
            forall|c: u8| c < 52 ==> (live@.contains(c) <==> !dead@.contains(c)),
            forall|k: int| 0 <= k < live@.len() ==> (#[trigger] live@[k]) < 52,
            sampled_from(Equity { half_wins, total }, c0, c1, board@, deals),
        decreases num_samples - sample,
    {
        // Partial Fisher-Yates shuffle to pick `needed` cards.
        let drawn: Vec<u8> = draw_cards(&live, needed);
        proof {
            assert forall|i: int| 0 <= i < drawn@.len() implies (#[trigger] drawn@[i]) < 52
                && drawn@[i] != c0 && drawn@[i] != c1 && !board@.contains(drawn@[i]) by {
                let card = drawn@[i];
                assert(live@.contains(card));
                let at = choose|at: int| 0 <= at < live@.len() && live@[at] == card;
                assert(live@[at] < 52);
                assert(!dead@.contains(card));
                assert(dead@[0] == c0 && dead@[1] == c1);
                if board@.contains(card) {
                    let b = choose|b: int| 0 <= b < board@.len() && board@[b] == card;
                    assert(dead@[b + 2] == card);
                }
            }
        }
        let won: u8 = sample_points(c0, c1, board, drawn.as_slice());
        total += 1;
        half_wins += won as u64;
        proof {
            let before = deals;
            deals = deals.push(drawn@);
            lemma_deals_points_same(c0, c1, board@, before, deals, sample as nat);
        }
        sample += 1;
    }
    Equity { half_wins, total }
}

proof fn lemma_deals_points_same(
    c0: u8,
    c1: u8,
    board: Seq<u8>,
    a: Seq<Seq<u8>>,
    b: Seq<Seq<u8>>,
    n: nat,
)
    requires
        n <= a.len(),
        n <= b.len(),
        forall|k: int| 0 <= k < n ==> a[k] == b[k],
    ensures
        deals_points(c0, c1, board, a, n) == deals_points(c0, c1, board, b, n),
    decreases n,
{
    if n > 0 {
        lemma_deals_points_same(c0, c1, board, a, b, (n - 1) as nat);
    }
}

/// A copy of a list of cards.
fn copy_of(cards: &Vec<u8>) -> (copy: Vec<u8>)
    ensures
        copy@ == cards@,
{
    let mut copy: Vec<u8> = Vec::new();
    let mut i: usize = 0;
    while i < cards.len()
        invariant
            i <= cards@.len(),
            copy@ == cards@.subrange(0, i as int),
        decreases cards@.len() - i,
    {
        copy.push(cards[i]);
        assert(copy@ =~= cards@.subrange(0, i + 1));
        i += 1;
    }
    assert(cards@.subrange(0, cards@.len() as int) =~= cards@);
    copy
}

/// Equity of the hand (c0, c1) against a uniformly random opponent hand on
/// the given board. On a five-card board every opponent hand is counted.
/// On a shorter board `num_samples` deals are drawn at random, each made
/// of different cards that are neither in the hand nor on the board; the
/// result counts the half wins of these deals, and which deals they are is
/// left to chance. Where too few cards are left for a deal, nothing is
/// counted.
pub fn combo_equity_vs_random(c0: u8, c1: u8, board: &[u8], num_samples: usize) -> (equity: Equity)
    requires
        board@.len() <= 5,
        c0 < 52,
        c1 < 52,
        forall|i: int| 0 <= i < board@.len() ==> board@[i] < 52,
        num_samples <= 0x7fff_ffff_ffff_ffff,
    ensures
        equity.half_wins <= 2 * equity.total,
        board@.len() == 5 ==> equity == river_equity(c0, c1, board@),
        board@.len() < 5 ==> equity.total == if live_cards(c0, c1, board@).len() < 5
            - board@.len() + 2 {
            0
        } else {
            num_samples as int
        },
        board@.len() < 5 ==> sampled(equity, c0, c1, board@),
{
    if board.len() == 5 {
        // River: every opponent hand.
        exhaustive_river_equity(c0, c1, board)
    } else {
        // Flop or turn: sampling.
        monte_carlo_equity(c0, c1, board, num_samples)
    }
}

/// Whether the first equity is the lower one.
pub fn equity_lt(a: Equity, b: Equity) -> (below: bool)
    ensures
        below == equity_below(a, b),
{
    let (aw, at): (u64, u64) = if a.total == 0 {
        (1, 1)
    } else {
        (a.half_wins, a.total)
    };
    let (bw, bt): (u64, u64) = if b.total == 0 {
        (1, 1)
    } else {
        (b.half_wins, b.total)
    };
    assert(aw * bt <= u128::MAX && bw * at <= u128::MAX) by (nonlinear_arith)
        requires
            aw <= u64::MAX,
            at <= u64::MAX,
            bw <= u64::MAX,
            bt <= u64::MAX,
    ;
    (aw as u128) * (bt as u128) < (bw as u128) * (at as u128)
}

/// Assigns each hand its bucket from the equities of all hands: the hands
/// are ranked in ascending order of equity, equal equities in their given
/// order, and the ranking is cut into `num_buckets` parts of equal size,
/// or into one part per hand if the hands are fewer.
pub fn buckets_from_equities(equities: &Vec<Equity>, num_buckets: usize) -> (result: Vec<u16>)
    requires
        equities@.len() > 0 ==> num_buckets >= 1,
        num_buckets <= 65536 || equities@.len() <= 65536,
    ensures
        result@ == buckets_of(equities@, num_buckets as int),
        forall|i: int| 0 <= i < result@.len() ==> (#[trigger] result@[i]) < num_buckets,
        forall|i: int| 0 <= i < result@.len() ==> (#[trigger] result@[i]) < equities@.len(),
{
    let n: usize = equities.len();
    let actual_buckets: usize = if num_buckets <= n {
        num_buckets
    } else {
        n
    };
    let mut result: Vec<u16> = Vec::new();
    let mut i: usize = 0;
    while i < n
        invariant
            i <= n,
            n == equities@.len(),
            n > 0 ==> num_buckets >= 1,
            num_buckets <= 65536 || n <= 65536,
            actual_buckets == if num_buckets <= n {
                num_buckets
            } else {
                n
            },
            result@.len() == i,
            forall|x: int|
                0 <= x < i ==> (#[trigger] result@[x]) == bucket_at(
                    before_count(equities@, x, n as int) as int,
                    actual_buckets as int,
                    n as int,
                ) as u16,
            forall|x: int| 0 <= x < i ==> (#[trigger] result@[x]) < actual_buckets,
        decreases n - i,
    {
        // The place of hand i in the order: the hands that come before it.
        let mut rank: usize = 0;
        let mut k: usize = 0;
        while k < n
            invariant
                k <= n,
                i < n,
                n == equities@.len(),
                rank == before_count(equities@, i as int, k as int),
                rank <= k,
            decreases n - k,
        {
            let before: bool = equity_lt(equities[k], equities[i]) || (!equity_lt(
                equities[i],
                equities[k],
            ) && k < i);
            if before {
                rank += 1;
            }
            k += 1;
        }
        assert(rank * actual_buckets <= u128::MAX) by (nonlinear_arith)
            requires
                rank <= usize::MAX,
                actual_buckets <= usize::MAX,
        ;
        let cut: u128 = (rank as u128) * (actual_buckets as u128) / (n as u128);
        let bucket: u128 = if cut <= (actual_buckets - 1) as u128 {
            cut
        } else {
            (actual_buckets - 1) as u128
        };
        result.push(bucket as u16);
        i += 1;
    }
    assert(result@ =~= buckets_of(equities@, num_buckets as int));
    result
}

/// Equities of the hands that sampling on the board can give: one for
/// each hand, each the half wins of deals that can come.
pub open spec fn sampled_equities(equities: Seq<Equity>, combos: Seq<(u8, u8)>, board: Seq<u8>) -> bool {
    &&& equities.len() == combos.len()
    &&& forall|k: int|
        0 <= k < combos.len() ==> sampled(#[trigger] equities[k], combos[k].0, combos[k].1, board)
}

/// The exact equities of hands on a five-card board.
pub open spec fn river_equities(combos: Seq<(u8, u8)>, board: Seq<u8>) -> Seq<Equity> {
    Seq::new(combos.len(), |i: int| river_equity(combos[i].0, combos[i].1, board))
}

/// Assigns hands to equity buckets using equal-frequency binning.
///
/// Returns one bucket index for each hand, below `num_buckets` and below
/// the number of hands. The hands are ranked by equity and the ranking is
/// divided into equally sized groups. On a five-card board the equities are
/// exact and so are the buckets; on a shorter board the equities are
/// sampled with `num_samples` deals for each hand, and the buckets are
/// those of the sampled equities.
pub fn assign_buckets(combos: &[(u8, u8)], board: &[u8], num_buckets: usize, num_samples: usize) -> (result:
    Vec<u16>)
    requires
        board@.len() <= 5,
        forall|i: int| 0 <= i < board@.len() ==> board@[i] < 52,
        forall|i: int| 0 <= i < combos@.len() ==> (#[trigger] combos@[i]).0 < 52 && combos@[i].1 < 52,
        combos@.len() > 0 ==> num_buckets >= 1,
        num_buckets <= 65536 || combos@.len() <= 65536,
        num_samples <= 0x7fff_ffff_ffff_ffff,
    ensures
        result@.len() == combos@.len(),
        forall|i: int| 0 <= i < result@.len() ==> (#[trigger] result@[i]) < num_buckets,
        forall|i: int| 0 <= i < result@.len() ==> (#[trigger] result@[i]) < combos@.len(),
        board@.len() == 5 ==> result@ == buckets_of(
            river_equities(combos@, board@),
            num_buckets as int,
        ),
        board@.len() < 5 ==> exists|equities: Seq<Equity>|
            sampled_equities(equities, combos@, board@) && result@ == buckets_of(
                equities,
                num_buckets as int,
            ),
{
    let n: usize = combos.len();
    if n == 0 {
        let none: Vec<u16> = Vec::new();
        assert(none@ =~= buckets_of(river_equities(combos@, board@), num_buckets as int));
        assert(sampled_equities(Seq::<Equity>::empty(), combos@, board@));
        assert(none@ =~= buckets_of(Seq::<Equity>::empty(), num_buckets as int));
        return none;
    }
    // Equity of each hand.
    let mut equities: Vec<Equity> = Vec::new();
    let mut i: usize = 0;
    while i < n
        invariant
            i <= n,
            n == combos@.len(),
            board@.len() <= 5,
            forall|k: int| 0 <= k < board@.len() ==> board@[k] < 52,
            forall|k: int|
                0 <= k < combos@.len() ==> (#[trigger] combos@[k]).0 < 52 && combos@[k].1 < 52,
            num_samples <= 0x7fff_ffff_ffff_ffff,
            equities@.len() == i,
            board@.len() == 5 ==> forall|k: int|
                0 <= k < i ==> (#[trigger] equities@[k]) == river_equity(
                    combos@[k].0,
                    combos@[k].1,
                    board@,
                ),
            board@.len() < 5 ==> forall|k: int|
                0 <= k < i ==> sampled(#[trigger] equities@[k], combos@[k].0, combos@[k].1, board@),
        decreases n - i,
    {
        let (c0, c1) = combos[i];
        let equity: Equity = combo_equity_vs_random(c0, c1, board, num_samples);
        equities.push(equity);
        i += 1;
    }
    proof {
        if board@.len() == 5 {
            assert(equities@ =~= river_equities(combos@, board@));
        } else {
            assert(sampled_equities(equities@, combos@, board@));
        }
    }
    // Place in the order of equity, then equal-frequency binning.
    buckets_from_equities(&equities, num_buckets)
}

} // verus!
