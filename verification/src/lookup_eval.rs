//! Fast hand evaluator over rank histograms and suit bitmasks.
//!
//! A hand of 5 to 7 card indices is scored without enumerating its five-card
//! subsets. The score is the packed value that `hand_evaluator` defines:
//!   bits 23-20: category (0 high card .. 9 royal flush)
//!   bits 19-0:  five 4-bit rank values (2-14), most significant first

use vstd::prelude::*;
use crate::hand_evaluator::{
    HandCategory, best_run, category_number, count_card, count_rank, count_suit, entry,
    flush_suit_from, hand_value, histogram_total, non_flush_value, pack, rank_histogram,
    rank_of, ranks_from, ranks_present, ranks_with, run_ends_at, straight_high_of,
    suit_presence, wheel_present,
};

verus! {

/// Bit `k` of a rank mask: bit 0 is the deuce, bit 12 the ace.
pub open spec fn mask_bit(mask: u16, k: u16) -> bool {
    (mask >> k) & 1 == 1
}

/// The ranks a mask holds, as a histogram of zeros and ones.
pub open spec fn mask_presence(mask: u16) -> Seq<int> {
    Seq::new(
        13,
        |r: int|
            if mask_bit(mask, r as u16) {
                1int
            } else {
                0int
            },
    )
}

/// The rank values of a byte slice as integers.
pub open spec fn rank_values(v: Seq<u8>) -> Seq<int> {
    Seq::new(v.len(), |i: int| v[i] as int)
}

proof fn lemma_run_pattern(mask: u16, k: u16)
    by (bit_vector)
    requires
        k <= 8,
    ensures
        (mask & (0x1Fu16 << k) == (0x1Fu16 << k)) <==> ((mask >> k) & 1 == 1 && (mask >> ((k
            + 1) as u16)) & 1 == 1 && (mask >> ((k + 2) as u16)) & 1 == 1 && (mask >> ((k
            + 3) as u16)) & 1 == 1 && (mask >> ((k + 4) as u16)) & 1 == 1),
{
}

proof fn lemma_wheel_pattern(mask: u16)
    by (bit_vector)
    ensures
        (mask & 0x100Fu16 == 0x100Fu16) <==> ((mask >> 12u16) & 1 == 1 && (mask >> 0u16) & 1 == 1
            && (mask >> 1u16) & 1 == 1 && (mask >> 2u16) & 1 == 1 && (mask >> 3u16) & 1 == 1),
        ((1u16 << 12u16) | 0b1111u16) == 0x100Fu16,
{
}

/// High card of the best straight among the ranks of a 13-bit mask: 6 to 14
/// for five consecutive bits, 5 for the wheel when nothing higher exists,
/// 0 when the mask holds no straight.
pub fn straight_high(mask: u16) -> (high: u8)
    ensures
        high == straight_high_of(mask_presence(mask)),
        high == 0 || 5 <= high <= 14,
{
    let ghost h = mask_presence(mask);
    let mut best: u8 = 0;
    let mut high_bit: u16 = 4;
    while high_bit <= 12
        invariant
            4 <= high_bit <= 13,
            h == mask_presence(mask),
            best == best_run(h, high_bit - 1),
            best == 0 || 6 <= best <= 14,
        decreases 13 - high_bit,
    {
        let pat: u16 = 0x1Fu16 << (high_bit - 4);
        proof {
            lemma_run_pattern(mask, (high_bit - 4) as u16);
            assert(run_ends_at(h, high_bit as int) <==> mask & pat == pat);
        }
        if mask & pat == pat {
            best = (high_bit + 2) as u8;
        }
        high_bit += 1;
    }
    let wheel: u16 = (1u16 << 12u16) | 0b1111u16;
    proof {
        lemma_wheel_pattern(mask);
        assert(wheel_present(h) <==> mask & wheel == wheel);
    }
    if mask & wheel == wheel && best == 0 {
        best = 5;
    }
    best
}

/// The straights of all 13-bit rank masks, in the order of the masks.
pub open spec fn all_straights() -> Seq<u8> {
    Seq::new(8192, |m: int| straight_high_of(mask_presence(m as u16)) as u8)
}

/// The straight of every 13-bit rank mask, computed once and then looked up.
pub struct StraightTable {
    entries: Vec<u8>,
}

impl View for StraightTable {
    type V = Seq<u8>;

    closed spec fn view(&self) -> Seq<u8> {
        self.entries@
    }
}

impl StraightTable {
    /// Every entry is the straight of its own index.
    #[verifier::type_invariant]
    pub closed spec fn well_formed(&self) -> bool {
        self.entries@ == all_straights()
    }

    /// Builds the table for all 8192 masks.
    pub fn new() -> (table: StraightTable)
        ensures
            table@ == all_straights(),
    {
        let mut entries: Vec<u8> = Vec::new();
        let mut mask: u16 = 0;
        while mask < 8192
            invariant
                mask <= 8192,
                entries@.len() == mask,
                forall|m: int|
                    0 <= m < mask ==> (#[trigger] entries@[m]) == straight_high_of(
                        mask_presence(m as u16),
                    ),
            decreases 8192 - mask,
        {
            let high: u8 = straight_high(mask);
            entries.push(high);
            mask += 1;
        }
        assert(entries@ =~= all_straights());
        StraightTable { entries }
    }

    /// The straight of a mask below 8192, read from the table.
    pub fn lookup(&self, mask: u16) -> (high: u8)
        requires
            mask < 8192,
        ensures
            high == self@[mask as int],
            high == straight_high_of(mask_presence(mask)),
            high == 0 || 5 <= high <= 14,
    {
        proof {
            use_type_invariant(self);
            lemma_straight_range(mask_presence(mask));
        }
        self.entries[mask as usize]
    }
}

/// A straight's high card is 0 or lies between 5 and 14.
pub proof fn lemma_straight_range(h: Seq<int>)
    ensures
        straight_high_of(h) == 0 || 5 <= straight_high_of(h) <= 14,
{
    lemma_best_run_range(h, 12);
}

/// The wheel is the lowest straight: it is found exactly where ace, deuce,
/// three, four and five are present and no five ranks in a row are, and it
/// ranks below every other straight.
pub proof fn lemma_wheel_is_lowest(h: Seq<int>)
    ensures
        straight_high_of(h) == 5 <==> (wheel_present(h) && best_run(h, 12) == 0),
        straight_high_of(h) > 5 ==> straight_high_of(h) == best_run(h, 12) && pack(
            4,
            seq![5int],
        ) < pack(4, seq![straight_high_of(h)]),
{
    lemma_best_run_range(h, 12);
}

proof fn lemma_best_run_range(h: Seq<int>, top: int)
    requires
        top <= 12,
    ensures
        best_run(h, top) == 0 || 6 <= best_run(h, top) <= top + 2,
    decreases top,
{
    if top >= 4 {
        lemma_best_run_range(h, top - 1);
    }
}

proof fn lemma_or_field(s: u32, r: u32, shift: u32, unit: u32)
    by (bit_vector)
    requires
        r < 16,
        s < 0x1000000,
        (shift == 16 && unit == 0x10000) || (shift == 12 && unit == 0x1000) || (shift == 8 && unit
            == 0x100) || (shift == 4 && unit == 0x10) || (shift == 0 && unit == 1),
        s % ((unit * 16) as u32) == 0,
    ensures
        s | (r << shift) == s + r * unit,
        (s | (r << shift)) % unit == 0,
        s | (r << shift) < 0x1000000,
{
}

/// The part of a packed value that the category and the first `n` rank
/// fields make up.
pub open spec fn pack_prefix(category: int, ranks: Seq<int>, n: int) -> int
    decreases n,
{
    if n <= 0 {
        category * 0x100000
    } else {
        pack_prefix(category, ranks, n - 1) + entry(ranks, n - 1) * field_unit(n - 1)
    }
}

/// Weight of rank field `i` inside a packed value.
pub open spec fn field_unit(i: int) -> int {
    if i == 0 {
        0x10000
    } else if i == 1 {
        0x1000
    } else if i == 2 {
        0x100
    } else if i == 3 {
        0x10
    } else {
        1
    }
}

proof fn lemma_pack_prefix(category: int, ranks: Seq<int>)
    ensures
        pack_prefix(category, ranks, 5) == pack(category, ranks),
{
    reveal_with_fuel(pack_prefix, 6);
}

proof fn lemma_pack_prefix_short(category: int, ranks: Seq<int>, n: int)
    requires
        ranks.len() <= n <= 5,
    ensures
        pack_prefix(category, ranks, n) == pack(category, ranks),
    decreases 5 - n,
{
    if n < 5 {
        lemma_pack_prefix_short(category, ranks, n + 1);
    } else {
        lemma_pack_prefix(category, ranks);
    }
}

/// Packs a category and up to five rank values into one score. Values past
/// the fifth are ignored.
pub fn hand_score(category: u8, v: &[u8]) -> (s: u32)
    requires
        category <= 9,
        forall|i: int| 0 <= i < v@.len() ==> v@[i] < 16,
    ensures
        s == pack(category as int, rank_values(v@)),
        s < 0x1000000,
        s / 0x100000 == category,
{
    let mut s: u32 = (category as u32) * 0x100000;
    let mut i: usize = 0;
    let mut shift: u32 = 16;
    let mut unit: u32 = 0x10000;
    let ghost ranks = rank_values(v@);
    assert(s % 0x100000 == 0) by (nonlinear_arith)
        requires
            s == category * 0x100000,
    ;
    while i < v.len() && i < 5
        invariant
            i <= 5,
            i <= v@.len(),
            ranks == rank_values(v@),
            forall|k: int| 0 <= k < v@.len() ==> v@[k] < 16,
            s == pack_prefix(category as int, ranks, i as int),
            s < 0x1000000,
            i < 5 ==> shift == 16 - 4 * i && unit == field_unit(i as int) && s % ((unit * 16) as u32)
                == 0,
        decreases 5 - i,
    {
        let r: u32 = v[i] as u32;
        proof {
            lemma_or_field(s, r, shift, unit);
            assert(entry(ranks, i as int) == r);
        }
        s = s | (r << shift);
        i += 1;
        if i < 5 {
            shift = shift - 4;
            unit = unit / 16;
        }
    }
    proof {
        if i < 5 {
            lemma_pack_prefix_short(category as int, ranks, i as int);
        } else {
            lemma_pack_prefix(category as int, ranks);
        }
        assert(crate::hand_evaluator::rank_fields(ranks)) by {
            assert forall|k: int| 0 <= k < 5 implies 0 <= #[trigger] entry(ranks, k) < 16 by {
                if k < ranks.len() {
                    assert(ranks[k] == v@[k]);
                }
            }
        }
        crate::hand_evaluator::lemma_pack_fields(category as int, ranks);
    }
    s
}

/// A list built from a higher starting offset is a prefix of the list built
/// from a lower one.
pub proof fn lemma_ranks_from_prefix(h: Seq<int>, lo: int, hi: int, low: int, high: int)
    requires
        0 <= low <= high <= 13,
    ensures
        ranks_from(h, lo, hi, high).len() <= ranks_from(h, lo, hi, low).len(),
        forall|k: int|
            0 <= k < ranks_from(h, lo, hi, high).len() ==> ranks_from(h, lo, hi, low)[k]
                == ranks_from(h, lo, hi, high)[k],
    decreases high - low,
{
    if low < high {
        lemma_ranks_from_prefix(h, lo, hi, low + 1, high);
    }
}

/// The top `n` set bits of a 13-bit mask as rank values, highest first;
/// unused places hold 0.
pub fn top_n_from_mask(mask: u16, n: usize) -> (result: [u8; 5])
    requires
        1 <= n <= 5,
    ensures
        forall|i: int|
            0 <= i < 5 ==> (#[trigger] result@[i]) == if i < n {
                entry(ranks_present(mask_presence(mask)), i)
            } else {
                0
            },
{
    let ghost h = mask_presence(mask);
    let mut result: [u8; 5] = [0u8; 5];
    let mut count: usize = 0;
    let mut next: u16 = 13;
    while next > 0 && count < n
        invariant
            next <= 13,
            count <= n <= 5,
            h == mask_presence(mask),
            count == ranks_from(h, 1, 7, next as int).len(),
            forall|k: int|
                0 <= k < count ==> (#[trigger] result@[k]) == ranks_from(h, 1, 7, next as int)[k],
            forall|k: int| count <= k < 5 ==> (#[trigger] result@[k]) == 0,
        decreases next,
    {
        let bit: u16 = next - 1;
        if (mask >> bit) & 1 == 1 {
            result[count] = (bit + 2) as u8;
            count += 1;
        }
        next = bit;
    }
    proof {
        lemma_ranks_from_prefix(h, 1, 7, 0, next as int);
    }
    result
}

/// Entries of a rank list are rank values, strictly descending.
pub proof fn lemma_ranks_from_values(h: Seq<int>, lo: int, hi: int, start: int)
    requires
        0 <= start <= 13,
    ensures
        ranks_from(h, lo, hi, start).len() <= 13 - start,
        forall|k: int|
            0 <= k < ranks_from(h, lo, hi, start).len() ==> start + 2 <= (#[trigger] ranks_from(
                h,
                lo,
                hi,
                start,
            )[k]) <= 14,
        forall|j: int, k: int|
            0 <= j < k < ranks_from(h, lo, hi, start).len() ==> ranks_from(h, lo, hi, start)[j]
                > ranks_from(h, lo, hi, start)[k],
    decreases 13 - start,
{
    if start < 13 {
        lemma_ranks_from_values(h, lo, hi, start + 1);
    }
}

/// A histogram without negative entries has a total that is not negative
/// and does not shrink as more ranks are counted.
pub proof fn lemma_total_monotone(h: Seq<int>, low: int, high: int)
    requires
        0 <= low <= high <= h.len(),
        forall|r: int| 0 <= r < h.len() ==> h[r] >= 0,
    ensures
        0 <= histogram_total(h, low) <= histogram_total(h, high),
    decreases high,
{
    if low < high {
        lemma_total_monotone(h, low, high - 1);
    } else if low > 0 {
        lemma_total_monotone(h, low - 1, low - 1);
    }
}

/// The straight of a histogram depends only on which ranks are present.
pub proof fn lemma_straight_by_presence(a: Seq<int>, b: Seq<int>)
    requires
        forall|r: int| 0 <= r < 13 ==> (a[r] > 0 <==> b[r] > 0),
    ensures
        straight_high_of(a) == straight_high_of(b),
{
    lemma_best_run_by_presence(a, b, 12);
}

proof fn lemma_best_run_by_presence(a: Seq<int>, b: Seq<int>, top: int)
    requires
        top <= 12,
        forall|r: int| 0 <= r < 13 ==> (a[r] > 0 <==> b[r] > 0),
    ensures
        best_run(a, top) == best_run(b, top),
    decreases top,
{
    if top >= 4 {
        lemma_best_run_by_presence(a, b, top - 1);
    }
}

/// The multiplicities held in a byte array, as integers.
pub open spec fn counts_of(rc: Seq<u8>) -> Seq<int> {
    Seq::new(rc.len(), |r: int| rc[r] as int)
}

proof fn lemma_set_bit(mask: u16, i: u16)
    by (bit_vector)
    requires
        i < 13,
        mask < 8192,
    ensures
        (mask | (1u16 << i)) < 8192,
        forall|k: u16|
            k < 13 ==> ((((mask | (1u16 << i)) >> k) & 1 == 1) <==> (k == i || (mask >> k) & 1
                == 1)),
{
}

proof fn lemma_no_bit()
    by (bit_vector)
    ensures
        forall|k: u16| k < 13 ==> (0u16 >> k) & 1 == 0,
{
}

proof fn lemma_card_split(c: u8)
    by (bit_vector)
    ensures
        (c >> 2) == c / 4,
        (c & 0x3) == c % 4,
{
}

/// The mask of the ranks whose multiplicity is positive.
fn presence_mask(rc: &[u8; 13]) -> (mask: u16)
    ensures
        mask < 8192,
        forall|r: int| 0 <= r < 13 ==> (mask_bit(mask, r as u16) <==> rc@[r] > 0),
{
    let mut mask: u16 = 0;
    let mut i: u16 = 0;
    proof {
        lemma_no_bit();
    }
    while i < 13
        invariant
            i <= 13,
            mask < 8192,
            forall|k: u16| k < 13 ==> (mask_bit(mask, k) <==> (k < i && rc@[k as int] > 0)),
        decreases 13 - i,
    {
        let ghost before = mask;
        if rc[i as usize] > 0 {
            proof {
                lemma_set_bit(mask, i);
            }
            mask = mask | (1u16 << i);
        }
        assert forall|k: u16| k < 13 implies (mask_bit(mask, k) <==> (k < i + 1 && rc@[k as int]
            > 0)) by {
            assert(mask_bit(before, k) <==> (k < i && rc@[k as int] > 0));
            if rc@[i as int] > 0 {
                assert((((before | (1u16 << i)) >> k) & 1 == 1) <==> (k == i || (before >> k) & 1
                    == 1));
            }
        }
        i += 1;
    }
    assert forall|r: int| 0 <= r < 13 implies (mask_bit(mask, r as u16) <==> rc@[r] > 0) by {
        let k = r as u16;
        assert(mask_bit(mask, k) <==> (k < i && rc@[k as int] > 0));
    }
    mask
}

/// The straight of a mask, from the table when there is one.
fn find_straight(table: Option<&StraightTable>, mask: u16) -> (high: u8)
    requires
        mask < 8192,
    ensures
        high == straight_high_of(mask_presence(mask)),
        high == 0 || 5 <= high <= 14,
{
    match table {
        Some(t) => t.lookup(mask),
        None => straight_high(mask),
    }
}

fn non_flush_with(rc: &[u8; 13], table: Option<&StraightTable>) -> (score: u32)
    requires
        histogram_total(counts_of(rc@), 13) <= 7,
    ensures
        score == non_flush_value(counts_of(rc@)),
        score < 0x1000000,
        score / 0x100000 <= 9,
{
    let ghost h = counts_of(rc@);
    let mut quad: [u8; 1] = [0u8; 1];
    let mut nq: usize = 0;
    let mut trip: [u8; 2] = [0u8; 2];
    let mut nt: usize = 0;
    let mut pair: [u8; 3] = [0u8; 3];
    let mut np: usize = 0;
    let mut sing: [u8; 7] = [0u8; 7];
    let mut ns: usize = 0;
    let mut next: usize = 13;
    while next > 0
        invariant
            next <= 13,
            h == counts_of(rc@),
            h.len() == 13,
            nq == ranks_from(h, 4, 4, next as int).len(),
            nt == ranks_from(h, 3, 3, next as int).len(),
            np == ranks_from(h, 2, 2, next as int).len(),
            ns == ranks_from(h, 1, 1, next as int).len(),
            forall|k: int| 0 <= k < nq ==> (#[trigger] quad@[k]) == ranks_from(h, 4, 4, next as int)[k],
            forall|k: int| 0 <= k < nt ==> (#[trigger] trip@[k]) == ranks_from(h, 3, 3, next as int)[k],
            forall|k: int| 0 <= k < np ==> (#[trigger] pair@[k]) == ranks_from(h, 2, 2, next as int)[k],
            forall|k: int| 0 <= k < ns ==> (#[trigger] sing@[k]) == ranks_from(h, 1, 1, next as int)[k],
            forall|k: int| 0 <= k < 1 ==> (#[trigger] quad@[k]) <= 14,
            forall|k: int| 0 <= k < 2 ==> (#[trigger] trip@[k]) <= 14,
            forall|k: int| 0 <= k < 3 ==> (#[trigger] pair@[k]) <= 14,
            forall|k: int| 0 <= k < 7 ==> (#[trigger] sing@[k]) <= 14,
            forall|k: int| nt <= k < 2 ==> (#[trigger] trip@[k]) == 0,
            forall|k: int| np <= k < 3 ==> (#[trigger] pair@[k]) == 0,
            forall|k: int| ns <= k < 7 ==> (#[trigger] sing@[k]) == 0,
            4 * nq + 3 * nt + 2 * np + ns + histogram_total(h, next as int) <= 7,
        decreases next,
    {
        let idx: usize = next - 1;
        let rv: u8 = (idx + 2) as u8;
        let c: u8 = rc[idx];
        proof {
            lemma_total_monotone(h, idx as int, idx as int);
            assert(h[idx as int] == c);
        }
        if c == 4 {
            quad[nq] = rv;
            nq += 1;
        } else if c == 3 {
            trip[nt] = rv;
            nt += 1;
        } else if c == 2 {
            pair[np] = rv;
            np += 1;
        } else if c == 1 {
            sing[ns] = rv;
            ns += 1;
        }
        next = idx;
    }
    let ghost quads = ranks_with(h, 4);
    let ghost trips = ranks_with(h, 3);
    let ghost pairs = ranks_with(h, 2);
    let ghost singles = ranks_with(h, 1);

    if nq >= 1 {
        // The best card beside the four, whatever else its rank makes.
        let kick: u8 = if trip[0] >= pair[0] && trip[0] >= sing[0] {
            trip[0]
        } else if pair[0] >= sing[0] {
            pair[0]
        } else {
            sing[0]
        };
        let fields: [u8; 2] = [quad[0], kick];
        assert(rank_values(fields@) =~= seq![quad[0] as int, kick as int]);
        return hand_score(7, &fields);
    }
    if nt >= 1 && (np >= 1 || nt >= 2) {
        let pr: u8 = if nt >= 2 {
            trip[1]
        } else {
            pair[0]
        };
        let fields: [u8; 2] = [trip[0], pr];
        assert(rank_values(fields@) =~= seq![trip[0] as int, pr as int]);
        return hand_score(6, &fields);
    }
    let rank_mask: u16 = presence_mask(rc);
    let sh: u8 = find_straight(table, rank_mask);
    proof {
        lemma_straight_by_presence(mask_presence(rank_mask), h);
    }
    if sh > 0 {
        let fields: [u8; 1] = [sh];
        assert(rank_values(fields@) =~= seq![sh as int]);
        return hand_score(4, &fields);
    }
    if nt >= 1 {
        let fields: [u8; 3] = [trip[0], sing[0], sing[1]];
        assert(rank_values(fields@) =~= seq![trip[0] as int, sing[0] as int, sing[1] as int]);
        return hand_score(3, &fields);
    }
    if np >= 2 {
        let kick: u8 = if np >= 3 && pair[2] > sing[0] {
            pair[2]
        } else {
            sing[0]
        };
        let fields: [u8; 3] = [pair[0], pair[1], kick];
        assert(rank_values(fields@) =~= seq![pair[0] as int, pair[1] as int, kick as int]);
        return hand_score(2, &fields);
    }
    if np == 1 {
        let fields: [u8; 4] = [pair[0], sing[0], sing[1], sing[2]];
        assert(rank_values(fields@) =~= seq![
            pair[0] as int,
            sing[0] as int,
            sing[1] as int,
            sing[2] as int,
        ]);
        return hand_score(1, &fields);
    }
    let fields: [u8; 5] = [sing[0], sing[1], sing[2], sing[3], sing[4]];
    hand_score(0, &fields)
}

/// Scores a hand without a flush from its rank multiplicities (index 0 the
/// deuce, 12 the ace), which together count at most seven cards.
pub fn evaluate_non_flush(rc: &[u8; 13]) -> (score: u32)
    requires
        histogram_total(counts_of(rc@), 13) <= 7,
    ensures
        score == non_flush_value(counts_of(rc@)),
        score < 0x1000000,
        score / 0x100000 <= 9,
{
    non_flush_with(rc, None)
}

/// A histogram with one count raised by one has a total one higher, once
/// the rank is counted.
pub proof fn lemma_total_bump(a: Seq<int>, b: Seq<int>, n: int, bumped: int)
    requires
        0 <= n <= 13,
        0 <= bumped < 13,
        forall|r: int|
            0 <= r < 13 ==> b[r] == a[r] + if r == bumped {
                1int
            } else {
                0int
            },
    ensures
        histogram_total(b, n) == histogram_total(a, n) + if bumped < n {
            1int
        } else {
            0int
        },
    decreases n,
{
    if n > 0 {
        lemma_total_bump(a, b, n - 1, bumped);
    }
}

/// The rank multiplicities of a hand add up to its number of cards.
pub proof fn lemma_histogram_counts_cards(cards: Seq<u8>)
    requires
        forall|i: int| 0 <= i < cards.len() ==> cards[i] < 52,
    ensures
        histogram_total(rank_histogram(cards), 13) == cards.len(),
    decreases cards.len(),
{
    reveal_with_fuel(histogram_total, 14);
    if cards.len() == 0 {
    } else {
        let shorter = cards.drop_last();
        lemma_histogram_counts_cards(shorter);
        lemma_total_bump(
            rank_histogram(shorter),
            rank_histogram(cards),
            13,
            rank_of(cards.last()),
        );
    }
}

/// An occurrence count lies between 0 and the number of cards.
pub proof fn lemma_count_card_bounds(cards: Seq<u8>, c: int)
    ensures
        0 <= count_card(cards, c) <= cards.len(),
    decreases cards.len(),
{
    if cards.len() > 0 {
        lemma_count_card_bounds(cards.drop_last(), c);
    }
}

/// Bit `k` of the mask of suit `s`.
pub open spec fn suit_bit(masks: Seq<u16>, s: int, k: u16) -> bool {
    mask_bit(masks[s], k)
}

fn evaluate_with(cards: &[u8], table: Option<&StraightTable>) -> (score: u32)
    requires
        5 <= cards@.len() <= 7,
        forall|i: int| 0 <= i < cards@.len() ==> cards@[i] < 52,
    ensures
        score == hand_value(cards@),
        score < 0x1000000,
        score / 0x100000 <= 9,
{
    let mut rank_counts: [u8; 13] = [0u8; 13];
    let mut suit_masks: [u16; 4] = [0u16; 4];
    let mut suit_counts: [u8; 4] = [0u8; 4];
    let mut i: usize = 0;
    proof {
        lemma_no_bit();
    }
    while i < cards.len()
        invariant
            i <= cards@.len() <= 7,
            forall|j: int| 0 <= j < cards@.len() ==> cards@[j] < 52,
            forall|r: int|
                0 <= r < 13 ==> (#[trigger] rank_counts@[r]) == count_rank(
                    cards@.subrange(0, i as int),
                    r,
                ),
            forall|r: int| 0 <= r < 13 ==> (#[trigger] rank_counts@[r]) <= i,
            forall|s: int|
                0 <= s < 4 ==> (#[trigger] suit_counts@[s]) == count_suit(
                    cards@.subrange(0, i as int),
                    s,
                ),
            forall|s: int| 0 <= s < 4 ==> (#[trigger] suit_counts@[s]) <= i,
            forall|s: int| 0 <= s < 4 ==> (#[trigger] suit_masks@[s]) < 8192,
            forall|s: int, k: u16|
                0 <= s < 4 && k < 13 ==> (#[trigger] suit_bit(suit_masks@, s, k) <==> count_card(
                    cards@.subrange(0, i as int),
                    4 * k + s,
                ) > 0),
        decreases cards@.len() - i,
    {
        let c: u8 = cards[i];
        let rank: usize = (c >> 2) as usize;
        let suit: usize = (c & 0x3) as usize;
        let ghost before = cards@.subrange(0, i as int);
        let ghost after = cards@.subrange(0, i + 1);
        let ghost old_masks = suit_masks@;
        proof {
            lemma_card_split(c);
            assert(after.drop_last() =~= before);
            assert(after.last() == c);
            lemma_set_bit(suit_masks@[suit as int], rank as u16);
        }
        rank_counts[rank] += 1;
        suit_masks[suit] = suit_masks[suit] | (1u16 << (rank as u16));
        suit_counts[suit] += 1;
        assert forall|s: int, k: u16| 0 <= s < 4 && k < 13 implies (#[trigger] suit_bit(
            suit_masks@,
            s,
            k,
        ) <==> count_card(after, 4 * k + s) > 0) by {
            assert(suit_bit(old_masks, s, k) <==> count_card(before, 4 * k + s) > 0);
            let card = 4 * k + s;
            lemma_count_card_bounds(before, card);
            assert(count_card(after, card) == count_card(before, card) + if c == card {
                1int
            } else {
                0int
            });
            assert(c == card <==> (k == rank && s == suit));
            if s == suit {
                let m = old_masks[s];
                let r = rank as u16;
                assert((((m | (1u16 << r)) >> k) & 1 == 1) <==> (k == r || (m >> k) & 1 == 1));
            }
        }
        i += 1;
    }
    assert(cards@.subrange(0, i as int) =~= cards@);

    let mut suit: usize = 0;
    while suit < 4 && suit_counts[suit] < 5
        invariant
            suit <= 4,
            forall|s: int| 0 <= s < 4 ==> (#[trigger] suit_counts@[s]) == count_suit(cards@, s),
            flush_suit_from(cards@, 0) == flush_suit_from(cards@, suit as int),
        decreases 4 - suit,
    {
        suit += 1;
    }
    if suit < 4 {
        let fmask: u16 = suit_masks[suit];
        let ghost present = suit_presence(cards@, suit as int);
        assert(mask_presence(fmask) =~= present) by {
            assert forall|r: int| 0 <= r < 13 implies mask_presence(fmask)[r] == present[r] by {
                let k = r as u16;
                assert(suit_bit(suit_masks@, suit as int, k) <==> count_card(
                    cards@,
                    4 * k + suit as int,
                ) > 0);
            }
        }
        let sf_high: u8 = find_straight(table, fmask);
        if sf_high > 0 {
            if sf_high == 14 {
                let fields: [u8; 1] = [14u8];
                assert(rank_values(fields@) =~= seq![14int]);
                return hand_score(9, &fields);
            }
            let fields: [u8; 1] = [sf_high];
            assert(rank_values(fields@) =~= seq![sf_high as int]);
            return hand_score(8, &fields);
        }
        let ranks: [u8; 5] = top_n_from_mask(fmask, 5);
        proof {
            lemma_ranks_from_values(present, 1, 7, 0);
            assert forall|k: int| 0 <= k < 5 implies (#[trigger] ranks@[k]) < 16 by {}
        }
        return hand_score(5, &ranks);
    }
    proof {
        lemma_histogram_counts_cards(cards@);
        assert(counts_of(rank_counts@) =~= rank_histogram(cards@));
    }
    non_flush_with(&rank_counts, table)
}

/// Scores a hand of 5 to 7 card indices (each below 52). A higher score is
/// a better hand, and equal scores are equal hands: the score of different
/// cards is the value of their best five.
pub fn evaluate_fast(cards: &[u8]) -> (score: u32)
    requires
        5 <= cards@.len() <= 7,
        forall|i: int| 0 <= i < cards@.len() ==> cards@[i] < 52,
    ensures
        score == hand_value(cards@),
        score < 0x1000000,
        score / 0x100000 <= 9,
{
    evaluate_with(cards, None)
}

/// Scores a hand as `evaluate_fast` does, reading straights from a table
/// built beforehand.
pub fn evaluate_with_table(table: &StraightTable, cards: &[u8]) -> (score: u32)
    requires
        5 <= cards@.len() <= 7,
        forall|i: int| 0 <= i < cards@.len() ==> cards@[i] < 52,
    ensures
        score == hand_value(cards@),
        score < 0x1000000,
        score / 0x100000 <= 9,
{
    evaluate_with(cards, Some(table))
}

/// The category that a number in a score's top field stands for; numbers
/// that name none count as high card.
pub open spec fn category_of(n: int) -> HandCategory {
    if n == 9 {
        HandCategory::RoyalFlush
    } else if n == 8 {
        HandCategory::StraightFlush
    } else if n == 7 {
        HandCategory::FourOfAKind
    } else if n == 6 {
        HandCategory::FullHouse
    } else if n == 5 {
        HandCategory::Flush
    } else if n == 4 {
        HandCategory::Straight
    } else if n == 3 {
        HandCategory::ThreeOfAKind
    } else if n == 2 {
        HandCategory::TwoPair
    } else if n == 1 {
        HandCategory::OnePair
    } else {
        HandCategory::HighCard
    }
}

/// Rank field `i` (0 the most significant) of a packed score.
pub open spec fn score_field(score: int, i: int) -> int {
    (score / field_unit(i)) % 16
}

/// The nonzero ones among the first `n` rank fields of a score, in order.
pub open spec fn nonzero_fields(score: int, n: int) -> Seq<int>
    decreases n,
{
    if n <= 0 {
        Seq::empty()
    } else if score_field(score, n - 1) > 0 {
        nonzero_fields(score, n - 1).push(score_field(score, n - 1))
    } else {
        nonzero_fields(score, n - 1)
    }
}

proof fn lemma_score_fields(score: u32)
    by (bit_vector)
    ensures
        (score >> 20u32) & 0xF == (score / 0x100000) % 16,
        (score >> 16u32) & 0xF == (score / 0x10000) % 16,
        (score >> 12u32) & 0xF == (score / 0x1000) % 16,
        (score >> 8u32) & 0xF == (score / 0x100) % 16,
        (score >> 4u32) & 0xF == (score / 0x10) % 16,
        (score >> 0u32) & 0xF == score % 16,
{
}

/// The category held in bits 20 to 23 of a score.
pub fn category_from_score(score: u32) -> (category: HandCategory)
    ensures
        category == category_of((score as int / 0x100000) % 16),
        (score as int / 0x100000) % 16 <= 9 ==> category_number(category) == (score as int
            / 0x100000) % 16,
{
    proof {
        lemma_score_fields(score);
    }
    let n: u32 = (score >> 20u32) & 0xF;
    if n == 9 {
        HandCategory::RoyalFlush
    } else if n == 8 {
        HandCategory::StraightFlush
    } else if n == 7 {
        HandCategory::FourOfAKind
    } else if n == 6 {
        HandCategory::FullHouse
    } else if n == 5 {
        HandCategory::Flush
    } else if n == 4 {
        HandCategory::Straight
    } else if n == 3 {
        HandCategory::ThreeOfAKind
    } else if n == 2 {
        HandCategory::TwoPair
    } else if n == 1 {
        HandCategory::OnePair
    } else {
        HandCategory::HighCard
    }
}

/// The nonzero rank fields of a score, most significant first.
pub fn kickers_from_score(score: u32) -> (kickers: Vec<u8>)
    ensures
        rank_values(kickers@) == nonzero_fields(score as int, 5),
{
    proof {
        lemma_score_fields(score);
    }
    let mut kickers: Vec<u8> = Vec::new();
    let mut i: usize = 0;
    let mut shift: u32 = 16;
    assert(rank_values(kickers@) =~= nonzero_fields(score as int, 0));
    while i < 5
        invariant
            i <= 5,
            i < 5 ==> shift == 16 - 4 * i,
            rank_values(kickers@) == nonzero_fields(score as int, i as int),
            (score >> 16u32) & 0xF == (score / 0x10000) % 16,
            (score >> 12u32) & 0xF == (score / 0x1000) % 16,
            (score >> 8u32) & 0xF == (score / 0x100) % 16,
            (score >> 4u32) & 0xF == (score / 0x10) % 16,
            (score >> 0u32) & 0xF == score % 16,
        decreases 5 - i,
    {
        let v: u32 = (score >> shift) & 0xF;
        assert(v == score_field(score as int, i as int));
        let ghost before = kickers@;
        if v > 0 {
            kickers.push(v as u8);
            assert(rank_values(kickers@) =~= rank_values(before).push(v as int));
        }
        i += 1;
        if i < 5 {
            shift = shift - 4;
        }
    }
    kickers
}

} // verus!
