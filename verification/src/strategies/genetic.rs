//! Whole-number features of a hand that the evolved strategy scores cards by.
//!
//! Both scan "windows" of four consecutive card numbers: the window at `p`
//! holds the cards numbered `p + 1` to `p + 4`.
use vstd::prelude::*;
use crate::card::{Card, CardSet, cards_of_bits, suit_cards};

verus! {

/// The cards numbered `p + 1` to `p + 4`.
pub open spec fn window_cards(p: int) -> Set<int> {
    Set::new(|c: int| p + 1 <= c <= p + 4)
}

/// Some card of the window at `p` is in `cards`.
pub open spec fn window_hit(cards: Set<int>, p: int) -> bool {
    cards.intersect(window_cards(p)) != Set::<int>::empty()
}

/// The windows are scanned from position 12, then from 0 up to 12.
pub open spec fn scan_pos(k: int) -> int {
    if k == 0 {
        12
    } else {
        k - 1
    }
}

/// The number of consecutive hit windows ending at step `k` of the scan.
pub open spec fn run_at(cards: Set<int>, k: int) -> nat
    decreases k + 1,
{
    if k < 0 {
        0
    } else if window_hit(cards, scan_pos(k)) {
        run_at(cards, k - 1) + 1
    } else {
        0
    }
}

/// The longest run of consecutive hit windows among the first `k + 1` steps of the scan.
pub open spec fn best_run(cards: Set<int>, k: int) -> nat
    decreases k + 1,
{
    if k < 0 {
        0
    } else if best_run(cards, k - 1) >= run_at(cards, k) {
        best_run(cards, k - 1)
    } else {
        run_at(cards, k)
    }
}

/// How many cards of `cards` the window at `p` holds.
pub open spec fn window_count(cards: Set<int>, p: int) -> int {
    cards.intersect(window_cards(p)).len() as int
}

/// How many of the windows at `0..n` hold exactly `k` cards of `cards`.
pub open spec fn windows_holding(cards: Set<int>, k: int, n: int) -> int
    decreases n,
{
    if n <= 0 {
        0
    } else {
        windows_holding(cards, k, n - 1) + if window_count(cards, n - 1) == k {
            1int
        } else {
            0int
        }
    }
}

/// How many cards of suit `su` are in `cards`.
pub open spec fn suit_count(cards: Set<int>, su: int) -> int {
    cards.intersect(suit_cards(su)).len() as int
}

/// The most cards that one of the suits `0..n` has in `cards`.
pub open spec fn most_suited(cards: Set<int>, n: int) -> int
    decreases n,
{
    if n <= 0 {
        0
    } else if most_suited(cards, n - 1) >= suit_count(cards, n - 1) {
        most_suited(cards, n - 1)
    } else {
        suit_count(cards, n - 1)
    }
}

/// The most cards of one suit, but never less than five.
pub open spec fn flush_count(cards: Set<int>) -> int {
    if most_suited(cards, 4) >= 5 {
        most_suited(cards, 4)
    } else {
        5
    }
}

/// The strength score: windows with two, three or four cards weigh 2, 4 and
/// 8, plus the square of the flush count.
pub open spec fn strength(cards: Set<int>) -> int {
    2 * windows_holding(cards, 2, 13) + 4 * windows_holding(cards, 3, 13) + 8 * windows_holding(
        cards,
        4,
        13,
    ) + flush_count(cards) * flush_count(cards)
}

proof fn lemma_windows_holding_nonneg(cards: Set<int>, k: int, n: int)
    ensures
        windows_holding(cards, k, n) >= 0,
    decreases n,
{
    if n > 0 {
        lemma_windows_holding_nonneg(cards, k, n - 1);
    }
}

/// The flush count is the most cards any of the four suits holds, and at
/// least five; the strength score is at least the square of each suit's count.
pub proof fn lemma_flush_count_largest_suit(cards: Set<int>)
    ensures
        forall|su: int| 0 <= su < 4 ==> #[trigger] suit_count(cards, su) <= flush_count(cards),
        flush_count(cards) >= 5,
        flush_count(cards) == 5 || exists|su: int| 0 <= su < 4 && flush_count(cards) == #[trigger] suit_count(cards, su),
        forall|su: int| 0 <= su < 4 ==> strength(cards) >= #[trigger] suit_count(cards, su) * suit_count(cards, su),
{
    reveal_with_fuel(most_suited, 5);
    let f = flush_count(cards);
    assert(suit_count(cards, 0) <= f && suit_count(cards, 1) <= f && suit_count(cards, 2) <= f && suit_count(cards, 3) <= f);
    if f != 5 {
        assert(f == suit_count(cards, 0) || f == suit_count(cards, 1) || f == suit_count(cards, 2) || f == suit_count(cards, 3));
    }
    lemma_windows_holding_nonneg(cards, 2, 13);
    lemma_windows_holding_nonneg(cards, 3, 13);
    lemma_windows_holding_nonneg(cards, 4, 13);
    assert forall|su: int| 0 <= su < 4 implies strength(cards) >= #[trigger] suit_count(cards, su) * suit_count(cards, su) by {
        let x = suit_count(cards, su);
        assert(0 <= x <= f);
        assert(x * x <= f * f) by (nonlinear_arith)
            requires
                0 <= x <= f,
        ;
    }
}

proof fn lemma_windows_holding_count(cards: Set<int>, k: int, n: int)
    requires
        0 <= n,
    ensures
        Set::new(|p: int| 0 <= p < n && cards.intersect(Set::new(|c: int| p + 1 <= c <= p + 4)).len() == k).finite(),
        windows_holding(cards, k, n) == Set::new(
            |p: int| 0 <= p < n && cards.intersect(Set::new(|c: int| p + 1 <= c <= p + 4)).len() == k,
        ).len(),
    decreases n,
{
    let here = Set::new(|p: int| 0 <= p < n && cards.intersect(Set::new(|c: int| p + 1 <= c <= p + 4)).len() == k);
    if n == 0 {
        assert(here =~= Set::<int>::empty());
    } else {
        lemma_windows_holding_count(cards, k, n - 1);
        let before = Set::new(|p: int| 0 <= p < n - 1 && cards.intersect(Set::new(|c: int| p + 1 <= c <= p + 4)).len() == k);
        assert(window_cards(n - 1) =~= Set::new(|c: int| (n - 1) + 1 <= c <= (n - 1) + 4));
        if window_count(cards, n - 1) == k {
            assert(here =~= before.insert(n - 1));
        } else {
            assert(here =~= before);
        }
    }
}

/// The strength score counts the windows of four consecutive card numbers
/// (starting after 0 to 12) that hold two, three or four of the cards, at
/// weights 2, 4 and 8, plus the square of the flush count.
pub proof fn lemma_strength_counts_windows(cards: Set<int>)
    ensures
        strength(cards) == 2 * Set::new(
            |p: int| 0 <= p < 13 && cards.intersect(Set::new(|c: int| p + 1 <= c <= p + 4)).len() == 2,
        ).len() + 4 * Set::new(
            |p: int| 0 <= p < 13 && cards.intersect(Set::new(|c: int| p + 1 <= c <= p + 4)).len() == 3,
        ).len() + 8 * Set::new(
            |p: int| 0 <= p < 13 && cards.intersect(Set::new(|c: int| p + 1 <= c <= p + 4)).len() == 4,
        ).len() + flush_count(cards) * flush_count(cards),
{
    lemma_windows_holding_count(cards, 2, 13);
    lemma_windows_holding_count(cards, 3, 13);
    lemma_windows_holding_count(cards, 4, 13);
}

/// Some card of `cards` is numbered `p + 1` to `p + 4`, where `p` is the
/// window scanned at step `i`: 12 first, then 0 to 12.
pub open spec fn scan_hits(cards: Set<int>, i: int) -> bool {
    exists|c: int| cards.contains(c) && (if i == 0 { 12 } else { i - 1 }) + 1 <= c <= (if i == 0 { 12 } else { i - 1 }) + 4
}

/// Every scan step from `lo` to `hi` hits.
pub open spec fn hits_between(cards: Set<int>, lo: int, hi: int) -> bool {
    forall|i: int| lo <= i <= hi ==> #[trigger] scan_hits(cards, i)
}

proof fn lemma_hit_is_scan_hit(cards: Set<int>, i: int)
    ensures
        window_hit(cards, scan_pos(i)) == scan_hits(cards, i),
{
    let p = scan_pos(i);
    let both = cards.intersect(window_cards(p));
    if scan_hits(cards, i) {
        let c = choose|c: int| cards.contains(c) && p + 1 <= c <= p + 4;
        assert(both.contains(c));
    }
    if window_hit(cards, p) {
        if !scan_hits(cards, i) {
            assert(both =~= Set::<int>::empty());
        }
    }
}

proof fn lemma_run_at_hits(cards: Set<int>, lo: int, k: int)
    requires
        0 <= lo <= k,
        forall|i: int| lo <= i <= k ==> #[trigger] scan_hits(cards, i),
    ensures
        run_at(cards, k) >= k - lo + 1,
    decreases k,
{
    lemma_hit_is_scan_hit(cards, k);
    if k > lo {
        lemma_run_at_hits(cards, lo, k - 1);
    }
}

proof fn lemma_run_at_ends_run(cards: Set<int>, k: int)
    requires
        0 <= k,
    ensures
        forall|i: int| k - run_at(cards, k) < i <= k ==> #[trigger] scan_hits(cards, i),
        run_at(cards, k) <= k + 1,
    decreases k,
{
    reveal_with_fuel(run_at, 2);
    lemma_hit_is_scan_hit(cards, k);
    if k > 0 {
        lemma_run_at_ends_run(cards, k - 1);
    }
    assert forall|i: int| k - run_at(cards, k) < i <= k implies #[trigger] scan_hits(cards, i) by {
        if i < k {
            assert(k - 1 - run_at(cards, k - 1) < i <= k - 1);
        }
    }
}

proof fn lemma_best_run_bounds(cards: Set<int>, k: int)
    requires
        0 <= k,
    ensures
        forall|j: int| 0 <= j <= k ==> #[trigger] run_at(cards, j) <= best_run(cards, k),
        best_run(cards, k) == 0 || exists|j: int| 0 <= j <= k && best_run(cards, k) == #[trigger] run_at(cards, j),
    decreases k,
{
    reveal_with_fuel(best_run, 2);
    if k > 0 {
        lemma_best_run_bounds(cards, k - 1);
    }
    if best_run(cards, k) != 0 && best_run(cards, k) == run_at(cards, k) {
        assert(0 <= k <= k && best_run(cards, k) == run_at(cards, k));
    }
}

/// The straight potential is the length of the longest run of consecutive
/// scan steps (the window after 12, then those after 0 to 12) whose windows
/// each hold a card: every such run is at most that long, and one is exactly
/// that long.
pub proof fn lemma_straight_potential_longest_run(cards: Set<int>)
    ensures
        forall|lo: int, hi: int|
            0 <= lo <= hi <= 13 && #[trigger] hits_between(cards, lo, hi) ==> best_run(cards, 13) >= hi - lo + 1,
        best_run(cards, 13) == 0 || exists|lo: int|
            0 <= lo && lo + best_run(cards, 13) - 1 <= 13 && #[trigger] hits_between(cards, lo, lo + best_run(cards, 13) - 1),
        best_run(cards, 13) <= 14,
{
    lemma_best_run_bounds(cards, 13);
    assert forall|lo: int, hi: int|
        0 <= lo <= hi <= 13 && #[trigger] hits_between(cards, lo, hi)
        implies best_run(cards, 13) >= hi - lo + 1 by {
        lemma_run_at_hits(cards, lo, hi);
        assert(run_at(cards, hi) <= best_run(cards, 13));
    }
    if best_run(cards, 13) > 0 {
        let j = choose|j: int| 0 <= j <= 13 && best_run(cards, 13) == #[trigger] run_at(cards, j);
        lemma_run_at_ends_run(cards, j);
        let lo = j - best_run(cards, 13) + 1;
        assert(hits_between(cards, lo, lo + best_run(cards, 13) - 1));
    } else {
    }
    if best_run(cards, 13) > 0 {
        let j = choose|j: int| 0 <= j <= 13 && best_run(cards, 13) == #[trigger] run_at(cards, j);
        lemma_run_at_ends_run(cards, j);
    }
}

/// The window of four card numbers starting after `p`.
fn window(p: i32) -> (w: CardSet)
    requires
        0 <= p <= 12,
    ensures
        w@ == window_cards(p as int),
{
    let k = p as u64;
    let bits = 0xFu64 << k;
    proof {
        assert(0xFu64 << k < 0x10000000000000u64) by (bit_vector)
            requires
                k <= 12,
        ;
        assert forall|c: int| cards_of_bits(bits).contains(c) == window_cards(p as int).contains(c) by {
            if 1 <= c <= 52 {
                let j = (c - 1) as u64;
                assert(((0xFu64 << k) >> j) & 1u64 == 1u64 <==> (k <= j && j < k + 4)) by (bit_vector)
                    requires
                        k <= 12,
                        j < 52,
                ;
            }
        }
        assert(cards_of_bits(bits) =~= window_cards(p as int));
    }
    CardSet::from_bits(bits)
}

/// The longest run of consecutive windows that hold a card of `hand` with
/// `card` added, scanning the window at 12 and then those at 0 to 12.
pub fn straight_potential(hand: CardSet, card: Card) -> (n: u32)
    ensures
        n == best_run(hand@.insert(card@), 13),
{
    let mut set = hand;
    set.insert(card);
    let mut best: u32 = 0;
    let mut count: u32 = 0;
    let mut k: i32 = 0;
    while k < 14
        invariant
            0 <= k <= 14,
            set@ == hand@.insert(card@),
            count == run_at(set@, k - 1),
            best == best_run(set@, k - 1),
            count <= k,
            best <= k,
        decreases 14 - k,
    {
        let p: i32 = if k == 0 {
            12
        } else {
            k - 1
        };
        let hit = !(set & window(p)).is_empty();
        if hit {
            count = count + 1;
            if count > best {
                best = count;
            }
        } else {
            count = 0;
        }
        k = k + 1;
    }
    best
}

/// The strength score of `hand`: twice the windows holding two of its cards,
/// four times those holding three, eight times those holding four, plus the
/// square of its flush count.
pub fn hand_strength(hand: CardSet) -> (v: u32)
    ensures
        v == strength(hand@),
{
    let mut twos: u32 = 0;
    let mut threes: u32 = 0;
    let mut fours: u32 = 0;
    let mut i: i32 = 0;
    while i < 13
        invariant
            0 <= i <= 13,
            twos == windows_holding(hand@, 2, i as int),
            threes == windows_holding(hand@, 3, i as int),
            fours == windows_holding(hand@, 4, i as int),
            twos <= i && threes <= i && fours <= i,
        decreases 13 - i,
    {
        let n = (hand & window(i)).len();
        if n == 2 {
            twos = twos + 1;
        } else if n == 3 {
            threes = threes + 1;
        } else if n == 4 {
            fours = fours + 1;
        }
        i = i + 1;
    }
    let mut most: usize = 0;
    let mut su: i32 = 0;
    while su < 4
        invariant
            0 <= su <= 4,
            most <= 52,
            most == most_suited(hand@, su as int),
        decreases 4 - su,
    {
        let n = (hand & CardSet::of_suit(su)).len();
        if n > most {
            most = n;
        }
        su = su + 1;
    }
    if most < 5 {
        most = 5;
    }
    let f = most as u32;
    assert(f * f <= 2704) by (nonlinear_arith)
        requires
            f <= 52,
    ;
    2 * twos + 4 * threes + 8 * fours + f * f
}

} // verus!
