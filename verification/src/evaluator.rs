//! Poker hand ranking.
//!
//! A hand's rank is `category * 4096 + index`: the category runs from 1 (high
//! card) to 9 (straight flush), and the index, from 1, orders the hands of one
//! category from weakest to strongest, as in the widely used "Two Plus Two"
//! numbering. A set of five or more cards ranks as the best five-card hand in it.
use vstd::prelude::*;
use crate::bits::bit_set;
use crate::card::{Card, CardSet, card_number, cards_of_bits, numbers_of};

verus! {

// ---------------------------------------------------------------------------
// The model: what a set of card numbers is worth.
// ---------------------------------------------------------------------------

/// The card of rank `r` and suit `su` is in `s`.
pub open spec fn holds(s: Set<int>, r: int, su: int) -> bool {
    s.contains(card_number(r, su))
}

/// How many suits of rank `r` are in `s`.
pub open spec fn rank_count(s: Set<int>, r: int) -> int {
    (if holds(s, r, 0) { 1int } else { 0int }) + (if holds(s, r, 1) { 1int } else { 0int }) + (
    if holds(s, r, 2) { 1int } else { 0int }) + (if holds(s, r, 3) { 1int } else { 0int })
}

/// The `i`-th rank (`i` in `0..5`) of the straight of value `v`: value 1 is the
/// five-high straight A-2-3-4-5, and value `v >= 2` runs from rank `v - 2` to `v + 2`.
pub open spec fn run_rank(v: int, i: int) -> int {
    if v == 1 {
        if i == 0 {
            12
        } else {
            i - 1
        }
    } else {
        v - 2 + i
    }
}

/// The five ranks of the straight of value `v` are held in suit `su`.
pub open spec fn suited_run(s: Set<int>, su: int, v: int) -> bool {
    &&& holds(s, run_rank(v, 0), su)
    &&& holds(s, run_rank(v, 1), su)
    &&& holds(s, run_rank(v, 2), su)
    &&& holds(s, run_rank(v, 3), su)
    &&& holds(s, run_rank(v, 4), su)
}

/// Some suit holds the straight of value `v`.
pub open spec fn flush_run(s: Set<int>, v: int) -> bool {
    suited_run(s, 0, v) || suited_run(s, 1, v) || suited_run(s, 2, v) || suited_run(s, 3, v)
}

/// Each rank of the straight of value `v` is held in some suit.
pub open spec fn rank_run(s: Set<int>, v: int) -> bool {
    &&& rank_count(s, run_rank(v, 0)) > 0
    &&& rank_count(s, run_rank(v, 1)) > 0
    &&& rank_count(s, run_rank(v, 2)) > 0
    &&& rank_count(s, run_rank(v, 3)) > 0
    &&& rank_count(s, run_rank(v, 4)) > 0
}

/// The highest value up to `n` of a straight flush in `s`, or 0.
pub open spec fn top_straight_flush(s: Set<int>, n: int) -> int
    decreases n,
{
    if n <= 0 {
        0
    } else if flush_run(s, n) {
        n
    } else {
        top_straight_flush(s, n - 1)
    }
}

/// The highest value up to `n` of a straight in `s`, or 0.
pub open spec fn top_straight(s: Set<int>, n: int) -> int
    decreases n,
{
    if n <= 0 {
        0
    } else if rank_run(s, n) {
        n
    } else {
        top_straight(s, n - 1)
    }
}

/// The highest ranks below `n`, at most `k` of them and in decreasing order,
/// that `s` holds at least `m` times, leaving out ranks `x1` and `x2`.
pub open spec fn top_ranks(s: Set<int>, m: int, x1: int, x2: int, n: int, k: int) -> Seq<int>
    decreases n,
{
    if n <= 0 || k <= 0 {
        Seq::empty()
    } else if rank_count(s, n - 1) >= m && n - 1 != x1 && n - 1 != x2 {
        seq![n - 1] + top_ranks(s, m, x1, x2, n - 1, k - 1)
    } else {
        top_ranks(s, m, x1, x2, n - 1, k)
    }
}

/// The highest ranks below `n` held in suit `su`, at most `k` of them, in decreasing order.
pub open spec fn top_suited(s: Set<int>, su: int, n: int, k: int) -> Seq<int>
    decreases n,
{
    if n <= 0 || k <= 0 {
        Seq::empty()
    } else if holds(s, n - 1, su) {
        seq![n - 1] + top_suited(s, su, n - 1, k - 1)
    } else {
        top_suited(s, su, n - 1, k)
    }
}

/// Entry `i` of `q`, or 0 past its end.
pub open spec fn at(q: Seq<int>, i: int) -> int {
    if 0 <= i < q.len() {
        q[i]
    } else {
        0
    }
}

/// The number of ways to choose `k` of `n` things.
pub open spec fn binomial(n: int, k: int) -> int
    decreases k, n,
{
    if k <= 0 {
        1
    } else if n <= 0 {
        0
    } else {
        binomial(n - 1, k) + binomial(n - 1, k - 1)
    }
}

/// The position of rank `x` among the twelve ranks other than `y`.
pub open spec fn skip_rank(x: int, y: int) -> int {
    if x > y {
        x - 1
    } else {
        x
    }
}

/// The index, from 1, of five distinct ranks `h` (in decreasing order, not a
/// straight) among all such choices ordered by strength: the number of
/// five-rank choices below `h`, counted from the top rank down, less the
/// straights among them, plus one.
pub open spec fn five_rank_index(h: Seq<int>) -> int {
    1 + binomial(at(h, 0), 5) + binomial(at(h, 1), 4) + binomial(at(h, 2), 3) + binomial(at(h, 3), 2)
        + binomial(at(h, 4), 1) - (if at(h, 0) >= 4 { at(h, 0) - 4 } else { 0 }) - (if at(h, 0)
        == 12 { 1int } else { 0int })
}

/// The flush index of suit `su`: that of its five highest ranks, or 0 when it has fewer than five.
pub open spec fn suit_flush_index(s: Set<int>, su: int) -> int {
    if top_suited(s, su, 13, 5).len() == 5 {
        five_rank_index(top_suited(s, su, 13, 5))
    } else {
        0
    }
}

pub open spec fn max_int(a: int, b: int) -> int {
    if a >= b {
        a
    } else {
        b
    }
}

/// The best flush index over the four suits, or 0 when no suit has five cards.
pub open spec fn flush_index(s: Set<int>) -> int {
    max_int(
        max_int(suit_flush_index(s, 0), suit_flush_index(s, 1)),
        max_int(suit_flush_index(s, 2), suit_flush_index(s, 3)),
    )
}

/// Four of a kind of rank `q` with kicker `k`.
pub open spec fn quads_value(q: int, k: int) -> int {
    8 * 4096 + 1 + q * 12 + skip_rank(k, q)
}

/// Three of rank `t` with two of rank `p`.
pub open spec fn full_house_value(t: int, p: int) -> int {
    7 * 4096 + 1 + t * 12 + skip_rank(p, t)
}

/// Three of rank `t` with kickers `k1 > k2`.
pub open spec fn trips_value(t: int, k1: int, k2: int) -> int {
    4 * 4096 + 1 + t * 66 + binomial(skip_rank(k1, t), 2) + skip_rank(k2, t)
}

/// Pairs of ranks `p1 > p2` with kicker `k`.
pub open spec fn two_pair_value(p1: int, p2: int, k: int) -> int {
    3 * 4096 + 1 + (binomial(p1, 2) + p2) * 11 + skip_rank(skip_rank(k, p1), p2)
}

/// A pair of rank `p` with kickers `k1 > k2 > k3`.
pub open spec fn pair_value(p: int, k1: int, k2: int, k3: int) -> int {
    2 * 4096 + 1 + p * 220 + binomial(skip_rank(k1, p), 3) + binomial(skip_rank(k2, p), 2)
        + skip_rank(k3, p)
}

/// The category, 1 (high card) to 9 (straight flush), of the best five-card hand in `s`.
pub open spec fn hand_category(s: Set<int>) -> int {
    let trips = top_ranks(s, 3, -1, -1, 13, 1);
    let pairs = top_ranks(s, 2, -1, -1, 13, 2);
    if top_straight_flush(s, 10) > 0 {
        9
    } else if top_ranks(s, 4, -1, -1, 13, 1).len() > 0 {
        8
    } else if trips.len() > 0 && top_ranks(s, 2, at(trips, 0), -1, 13, 1).len() > 0 {
        7
    } else if flush_index(s) > 0 {
        6
    } else if top_straight(s, 10) > 0 {
        5
    } else if trips.len() > 0 {
        4
    } else if pairs.len() == 2 {
        3
    } else if pairs.len() == 1 {
        2
    } else {
        1
    }
}

/// The rank of the best five-card poker hand in `s`.
pub open spec fn hand_value(s: Set<int>) -> int {
    let sf = top_straight_flush(s, 10);
    let quads = top_ranks(s, 4, -1, -1, 13, 1);
    let trips = top_ranks(s, 3, -1, -1, 13, 1);
    let t = at(trips, 0);
    let partner = top_ranks(s, 2, t, -1, 13, 1);
    let pairs = top_ranks(s, 2, -1, -1, 13, 2);
    let flush = flush_index(s);
    let straight = top_straight(s, 10);
    if sf > 0 {
        9 * 4096 + sf
    } else if quads.len() > 0 {
        quads_value(at(quads, 0), at(top_ranks(s, 1, at(quads, 0), -1, 13, 1), 0))
    } else if trips.len() > 0 && partner.len() > 0 {
        full_house_value(t, at(partner, 0))
    } else if flush > 0 {
        6 * 4096 + flush
    } else if straight > 0 {
        5 * 4096 + straight
    } else if trips.len() > 0 {
        let k = top_ranks(s, 1, t, -1, 13, 2);
        trips_value(t, at(k, 0), at(k, 1))
    } else if pairs.len() == 2 {
        let k = top_ranks(s, 1, at(pairs, 0), at(pairs, 1), 13, 1);
        two_pair_value(at(pairs, 0), at(pairs, 1), at(k, 0))
    } else if pairs.len() == 1 {
        let p = at(pairs, 0);
        let k = top_ranks(s, 1, p, -1, 13, 3);
        pair_value(p, at(k, 0), at(k, 1), at(k, 2))
    } else {
        1 * 4096 + five_rank_index(top_ranks(s, 1, -1, -1, 13, 5))
    }
}

// ---------------------------------------------------------------------------
// Computing the model on a card word.
// ---------------------------------------------------------------------------

/// Whether the card of rank `r` and suit `su` is among the cards of `bits`.
fn has_card(bits: u64, r: i32, su: i32) -> (b: bool)
    requires
        0 <= r < 13,
        0 <= su < 4,
    ensures
        b == holds(cards_of_bits(bits), r as int, su as int),
{
    let k = (r * 4 + su) as u64;
    (bits >> k) & 1u64 == 1u64
}

/// How many suits of rank `r` the cards of `bits` hold.
fn count_rank(bits: u64, r: i32) -> (n: u32)
    requires
        0 <= r < 13,
    ensures
        n == rank_count(cards_of_bits(bits), r as int),
        n <= 4,
{
    let mut n: u32 = 0;
    if has_card(bits, r, 0) {
        n = n + 1;
    }
    if has_card(bits, r, 1) {
        n = n + 1;
    }
    if has_card(bits, r, 2) {
        n = n + 1;
    }
    if has_card(bits, r, 3) {
        n = n + 1;
    }
    n
}

/// The count of each rank, indexed by rank.
fn rank_counts(bits: u64) -> (counts: Vec<u32>)
    ensures
        counts.len() == 13,
        forall|r: int| 0 <= r < 13 ==> counts[r] == rank_count(cards_of_bits(bits), r),
        forall|r: int| 0 <= r < 13 ==> counts[r] <= 4,
{
    let mut counts: Vec<u32> = Vec::new();
    let mut r: i32 = 0;
    while r < 13
        invariant
            0 <= r <= 13,
            counts.len() == r,
            forall|i: int| 0 <= i < r ==> counts[i] == rank_count(cards_of_bits(bits), i),
            forall|i: int| 0 <= i < r ==> counts[i] <= 4,
        decreases 13 - r,
    {
        counts.push(count_rank(bits, r));
        r = r + 1;
    }
    counts
}

fn run_rank_exec(v: i32, i: i32) -> (r: i32)
    requires
        1 <= v <= 10,
        0 <= i < 5,
    ensures
        r == run_rank(v as int, i as int),
        0 <= r < 13,
{
    if v == 1 {
        if i == 0 {
            12
        } else {
            i - 1
        }
    } else {
        v - 2 + i
    }
}

fn suited_run_exec(bits: u64, su: i32, v: i32) -> (b: bool)
    requires
        0 <= su < 4,
        1 <= v <= 10,
    ensures
        b == suited_run(cards_of_bits(bits), su as int, v as int),
{
    has_card(bits, run_rank_exec(v, 0), su) && has_card(bits, run_rank_exec(v, 1), su)
        && has_card(bits, run_rank_exec(v, 2), su) && has_card(bits, run_rank_exec(v, 3), su)
        && has_card(bits, run_rank_exec(v, 4), su)
}

fn rank_run_exec(counts: &Vec<u32>, Ghost(s): Ghost<Set<int>>, v: i32) -> (b: bool)
    requires
        counts.len() == 13,
        forall|r: int| 0 <= r < 13 ==> counts[r] == rank_count(s, r),
        1 <= v <= 10,
    ensures
        b == rank_run(s, v as int),
{
    counts[run_rank_exec(v, 0) as usize] > 0 && counts[run_rank_exec(v, 1) as usize] > 0
        && counts[run_rank_exec(v, 2) as usize] > 0 && counts[run_rank_exec(v, 3) as usize] > 0
        && counts[run_rank_exec(v, 4) as usize] > 0
}

/// The highest straight flush value, or 0.
fn straight_flush_exec(bits: u64) -> (v: i32)
    ensures
        v == top_straight_flush(cards_of_bits(bits), 10),
        0 <= v <= 10,
{
    let ghost s = cards_of_bits(bits);
    let mut v: i32 = 10;
    while v > 0
        invariant
            0 <= v <= 10,
            s == cards_of_bits(bits),
            top_straight_flush(s, 10) == top_straight_flush(s, v as int),
        decreases v,
    {
        let mut su: i32 = 0;
        while su < 4
            invariant
                0 <= su <= 4,
                1 <= v <= 10,
                s == cards_of_bits(bits),
                top_straight_flush(s, 10) == top_straight_flush(s, v as int),
                forall|j: int| 0 <= j < su ==> !suited_run(s, j, v as int),
            decreases 4 - su,
        {
            if suited_run_exec(bits, su, v) {
                return v;
            }
            su = su + 1;
        }
        assert(!flush_run(s, v as int));
        v = v - 1;
    }
    0
}

/// The highest straight value, or 0.
fn straight_exec(counts: &Vec<u32>, Ghost(s): Ghost<Set<int>>) -> (v: i32)
    requires
        counts.len() == 13,
        forall|r: int| 0 <= r < 13 ==> counts[r] == rank_count(s, r),
    ensures
        v == top_straight(s, 10),
        0 <= v <= 10,
{
    let mut v: i32 = 10;
    while v > 0
        invariant
            0 <= v <= 10,
            counts.len() == 13,
            forall|r: int| 0 <= r < 13 ==> counts[r] == rank_count(s, r),
            top_straight(s, 10) == top_straight(s, v as int),
        decreases v,
    {
        if rank_run_exec(counts, Ghost(s), v) {
            return v;
        }
        v = v - 1;
    }
    0
}

/// The ranks that `top_ranks(s, m, x1, x2, 13, k)` describes.
fn pick_ranks(counts: &Vec<u32>, Ghost(s): Ghost<Set<int>>, m: u32, x1: i32, x2: i32, k: usize) -> (picked: Vec<i32>)
    requires
        counts.len() == 13,
        forall|r: int| 0 <= r < 13 ==> counts[r] == rank_count(s, r),
        k <= 5,
    ensures
        picked@.map_values(|x: i32| x as int) == top_ranks(s, m as int, x1 as int, x2 as int, 13, k as int),
        forall|i: int| 0 <= i < picked.len() ==> 0 <= #[trigger] picked[i] < 13,
{
    let mut picked: Vec<i32> = Vec::new();
    let mut n: i32 = 13;
    while n > 0 && picked.len() < k
        invariant
            0 <= n <= 13,
            picked.len() <= k,
            counts.len() == 13,
            forall|r: int| 0 <= r < 13 ==> counts[r] == rank_count(s, r),
            top_ranks(s, m as int, x1 as int, x2 as int, 13, k as int) == picked@.map_values(
                |x: i32| x as int,
            ) + top_ranks(s, m as int, x1 as int, x2 as int, n as int, k - picked.len()),
            forall|i: int| 0 <= i < picked.len() ==> 0 <= #[trigger] picked[i] < 13,
        decreases n,
    {
        n = n - 1;
        if counts[n as usize] >= m && n != x1 && n != x2 {
            let ghost before = picked@.map_values(|x: i32| x as int);
            picked.push(n);
            assert(picked@.map_values(|x: i32| x as int) =~= before.push(n as int));
            assert(before.push(n as int) + top_ranks(s, m as int, x1 as int, x2 as int, n as int, k - picked.len())
                =~= before + (seq![n as int] + top_ranks(s, m as int, x1 as int, x2 as int, n as int, k - picked.len())));
        }
    }
    assert(top_ranks(s, m as int, x1 as int, x2 as int, n as int, k - picked.len()) =~= Seq::<int>::empty());
    assert(picked@.map_values(|x: i32| x as int) + Seq::<int>::empty() =~= picked@.map_values(|x: i32| x as int));
    picked
}

/// The ranks that `top_suited(s, su, 13, k)` describes.
fn pick_suited(bits: u64, su: i32, k: usize) -> (picked: Vec<i32>)
    requires
        0 <= su < 4,
        k <= 5,
    ensures
        picked@.map_values(|x: i32| x as int) == top_suited(cards_of_bits(bits), su as int, 13, k as int),
        forall|i: int| 0 <= i < picked.len() ==> 0 <= #[trigger] picked[i] < 13,
{
    let ghost s = cards_of_bits(bits);
    let mut picked: Vec<i32> = Vec::new();
    let mut n: i32 = 13;
    while n > 0 && picked.len() < k
        invariant
            0 <= n <= 13,
            0 <= su < 4,
            picked.len() <= k,
            s == cards_of_bits(bits),
            top_suited(s, su as int, 13, k as int) == picked@.map_values(|x: i32| x as int)
                + top_suited(s, su as int, n as int, k - picked.len()),
            forall|i: int| 0 <= i < picked.len() ==> 0 <= #[trigger] picked[i] < 13,
        decreases n,
    {
        n = n - 1;
        if has_card(bits, n, su) {
            let ghost before = picked@.map_values(|x: i32| x as int);
            picked.push(n);
            assert(picked@.map_values(|x: i32| x as int) =~= before.push(n as int));
            assert(before.push(n as int) + top_suited(s, su as int, n as int, k - picked.len())
                =~= before + (seq![n as int] + top_suited(s, su as int, n as int, k - picked.len())));
        }
    }
    assert(top_suited(s, su as int, n as int, k - picked.len()) =~= Seq::<int>::empty());
    assert(picked@.map_values(|x: i32| x as int) + Seq::<int>::empty() =~= picked@.map_values(|x: i32| x as int));
    picked
}

/// Entry `i` of `q`, or 0 past its end.
fn at_exec(q: &Vec<i32>, i: usize) -> (x: i32)
    requires
        forall|j: int| 0 <= j < q.len() ==> 0 <= #[trigger] q[j] < 13,
    ensures
        x == at(q@.map_values(|y: i32| y as int), i as int),
        0 <= x < 13,
{
    if i < q.len() {
        q[i]
    } else {
        0
    }
}

/// There are no ways to choose more things than there are.
pub proof fn lemma_binomial_below(n: int, k: int)
    requires
        0 <= n < k,
    ensures
        binomial(n, k) == 0,
    decreases n,
{
    if n > 0 {
        lemma_binomial_below(n - 1, k);
        lemma_binomial_below(n - 1, k - 1);
    }
}

/// Closed forms of `binomial(n, k)` for `k` from 1 to 5.
pub proof fn lemma_binomial_closed(n: int)
    requires
        0 <= n,
    ensures
        binomial(n, 1) == n,
        2 * binomial(n, 2) == n * (n - 1),
        6 * binomial(n, 3) == n * (n - 1) * (n - 2),
        24 * binomial(n, 4) == n * (n - 1) * (n - 2) * (n - 3),
        120 * binomial(n, 5) == n * (n - 1) * (n - 2) * (n - 3) * (n - 4),
    decreases n,
{
    if n > 0 {
        lemma_binomial_closed(n - 1);
        let m = n - 1;
        assert(binomial(n, 1) == binomial(m, 1) + binomial(m, 0));
        assert(binomial(n, 2) == binomial(m, 2) + binomial(m, 1));
        assert(binomial(n, 3) == binomial(m, 3) + binomial(m, 2));
        assert(binomial(n, 4) == binomial(m, 4) + binomial(m, 3));
        assert(binomial(n, 5) == binomial(m, 5) + binomial(m, 4));
        let a = m;
        let b = m * (m - 1);
        let c = m * (m - 1) * (m - 2);
        let d = m * (m - 1) * (m - 2) * (m - 3);
        assert(m * (m - 1) + 2 * m == n * (n - 1)) by (nonlinear_arith)
            requires
                m == n - 1,
        ;
        assert(b * (m - 2) + 3 * b == n * (n - 1) * (n - 2)) by (nonlinear_arith)
            requires
                m == n - 1,
                b == m * (m - 1),
        ;
        assert(m * (m - 1) * (m - 2) == b * (m - 2)) by (nonlinear_arith)
            requires
                b == m * (m - 1),
        ;
        assert(c * (m - 3) + 4 * c == n * (n - 1) * (n - 2) * (n - 3)) by (nonlinear_arith)
            requires
                m == n - 1,
                c == m * (m - 1) * (m - 2),
        ;
        assert(m * (m - 1) * (m - 2) * (m - 3) == c * (m - 3)) by (nonlinear_arith)
            requires
                c == m * (m - 1) * (m - 2),
        ;
        assert(d * (m - 4) + 5 * d == n * (n - 1) * (n - 2) * (n - 3) * (n - 4)) by (nonlinear_arith)
            requires
                m == n - 1,
                d == m * (m - 1) * (m - 2) * (m - 3),
        ;
        assert(m * (m - 1) * (m - 2) * (m - 3) * (m - 4) == d * (m - 4)) by (nonlinear_arith)
            requires
                d == m * (m - 1) * (m - 2) * (m - 3),
        ;
    }
}

/// `binomial(n, k)` for a rank `n` and `k` from 1 to 5.
fn binomial_exec(n: i32, k: i32) -> (c: i32)
    requires
        0 <= n <= 12,
        1 <= k <= 5,
    ensures
        c == binomial(n as int, k as int),
        0 <= c <= 792,
{
    proof {
        lemma_binomial_closed(n as int);
        if n < k {
            lemma_binomial_below(n as int, k as int);
        }
    }
    if n < k {
        return 0;
    }
    if k == 1 {
        return n;
    }
    assert(0 <= n * (n - 1) <= 132) by (nonlinear_arith)
        requires
            2 <= n <= 12,
    ;
    let p2 = n * (n - 1);
    if k == 2 {
        return p2 / 2;
    }
    assert(0 <= p2 * (n - 2) <= 1320) by (nonlinear_arith)
        requires
            3 <= n <= 12,
            0 <= p2 <= 132,
    ;
    let p3 = p2 * (n - 2);
    if k == 3 {
        return p3 / 6;
    }
    assert(0 <= p3 * (n - 3) <= 11880) by (nonlinear_arith)
        requires
            4 <= n <= 12,
            0 <= p3 <= 1320,
    ;
    let p4 = p3 * (n - 3);
    if k == 4 {
        return p4 / 24;
    }
    assert(0 <= p4 * (n - 4) <= 95040) by (nonlinear_arith)
        requires
            5 <= n <= 12,
            0 <= p4 <= 11880,
    ;
    let p5 = p4 * (n - 4);
    p5 / 120
}

fn skip_rank_exec(x: i32, y: i32) -> (r: i32)
    requires
        0 <= x < 13,
        0 <= y < 13,
    ensures
        r == skip_rank(x as int, y as int),
        0 <= r < 13,
{
    if x > y {
        x - 1
    } else {
        x
    }
}

fn five_rank_index_exec(h: &Vec<i32>) -> (idx: i32)
    requires
        forall|j: int| 0 <= j < h.len() ==> 0 <= #[trigger] h[j] < 13,
    ensures
        idx == five_rank_index(h@.map_values(|y: i32| y as int)),
        -20 <= idx <= 4000,
{
    let h0 = at_exec(h, 0);
    let h1 = at_exec(h, 1);
    let h2 = at_exec(h, 2);
    let h3 = at_exec(h, 3);
    let h4 = at_exec(h, 4);
    let straights_below = if h0 >= 4 { h0 - 4 } else { 0 };
    let wheel_below = if h0 == 12 { 1 } else { 0 };
    1 + binomial_exec(h0, 5) + binomial_exec(h1, 4) + binomial_exec(h2, 3) + binomial_exec(h3, 2)
        + binomial_exec(h4, 1) - straights_below - wheel_below
}

/// The best flush index over the four suits, or 0.
fn flush_index_exec(bits: u64) -> (idx: i32)
    ensures
        idx == flush_index(cards_of_bits(bits)),
        -20 <= idx <= 4000,
{
    let ghost s = cards_of_bits(bits);
    let mut best: i32 = 0;
    let mut su: i32 = 0;
    let ghost mut found: Seq<int> = Seq::empty();
    while su < 4
        invariant
            0 <= su <= 4,
            s == cards_of_bits(bits),
            -20 <= best <= 4000,
            best == (if su == 0 { 0 } else if su == 1 { suit_flush_index(s, 0) } else if su == 2 {
                max_int(suit_flush_index(s, 0), suit_flush_index(s, 1))
            } else if su == 3 {
                max_int(max_int(suit_flush_index(s, 0), suit_flush_index(s, 1)), suit_flush_index(s, 2))
            } else {
                flush_index(s)
            }),
        decreases 4 - su,
    {
        let top = pick_suited(bits, su, 5);
        let idx = if top.len() == 5 { five_rank_index_exec(&top) } else { 0 };
        assert(idx == suit_flush_index(s, su as int));
        if su == 0 || idx > best {
            best = idx;
        }
        su = su + 1;
    }
    best
}

/// The rank of the best five-card hand among the cards of `bits`.
fn best_hand_value(bits: u64) -> (v: i32)
    ensures
        v == hand_value(cards_of_bits(bits)),
{
    let ghost s = cards_of_bits(bits);
    let sf = straight_flush_exec(bits);
    if sf > 0 {
        return 9 * 4096 + sf;
    }
    let counts = rank_counts(bits);
    let quads = pick_ranks(&counts, Ghost(s), 4, -1, -1, 1);
    if quads.len() > 0 {
        let q = at_exec(&quads, 0);
        let kicker = pick_ranks(&counts, Ghost(s), 1, q, -1, 1);
        return 8 * 4096 + 1 + q * 12 + skip_rank_exec(at_exec(&kicker, 0), q);
    }
    let trips = pick_ranks(&counts, Ghost(s), 3, -1, -1, 1);
    let t = at_exec(&trips, 0);
    let partner = pick_ranks(&counts, Ghost(s), 2, t, -1, 1);
    if trips.len() > 0 && partner.len() > 0 {
        return 7 * 4096 + 1 + t * 12 + skip_rank_exec(at_exec(&partner, 0), t);
    }
    let flush = flush_index_exec(bits);
    if flush > 0 {
        return 6 * 4096 + flush;
    }
    let straight = straight_exec(&counts, Ghost(s));
    if straight > 0 {
        return 5 * 4096 + straight;
    }
    if trips.len() > 0 {
        let k = pick_ranks(&counts, Ghost(s), 1, t, -1, 2);
        let k1 = skip_rank_exec(at_exec(&k, 0), t);
        let k2 = skip_rank_exec(at_exec(&k, 1), t);
        return 4 * 4096 + 1 + t * 66 + binomial_exec(k1, 2) + k2;
    }
    let pairs = pick_ranks(&counts, Ghost(s), 2, -1, -1, 2);
    if pairs.len() == 2 {
        let p1 = at_exec(&pairs, 0);
        let p2 = at_exec(&pairs, 1);
        let k = pick_ranks(&counts, Ghost(s), 1, p1, p2, 1);
        let kick = skip_rank_exec(skip_rank_exec(at_exec(&k, 0), p1), p2);
        return 3 * 4096 + 1 + (binomial_exec(p1, 2) + p2) * 11 + kick;
    }
    if pairs.len() == 1 {
        let p = at_exec(&pairs, 0);
        let k = pick_ranks(&counts, Ghost(s), 1, p, -1, 3);
        let k1 = skip_rank_exec(at_exec(&k, 0), p);
        let k2 = skip_rank_exec(at_exec(&k, 1), p);
        let k3 = skip_rank_exec(at_exec(&k, 2), p);
        return 2 * 4096 + 1 + p * 220 + binomial_exec(k1, 3) + binomial_exec(k2, 2) + k3;
    }
    let high = pick_ranks(&counts, Ghost(s), 1, -1, -1, 5);
    1 * 4096 + five_rank_index_exec(&high)
}

// ---------------------------------------------------------------------------
// Ranges of the model.
// ---------------------------------------------------------------------------

/// The ranks that `top_ranks` yields lie below `n` and are not excluded.
pub proof fn lemma_top_ranks_range(s: Set<int>, m: int, x1: int, x2: int, n: int, k: int)
    ensures
        top_ranks(s, m, x1, x2, n, k).len() <= if k > 0 { k } else { 0 },
        forall|i: int|
            0 <= i < top_ranks(s, m, x1, x2, n, k).len() ==> {
                let r = #[trigger] top_ranks(s, m, x1, x2, n, k)[i];
                &&& 0 <= r < n
                &&& rank_count(s, r) >= m
                &&& r != x1
                &&& r != x2
            },
    decreases n,
{
    if n > 0 && k > 0 {
        lemma_top_ranks_range(s, m, x1, x2, n - 1, k);
        lemma_top_ranks_range(s, m, x1, x2, n - 1, k - 1);
    }
}

/// The ranks that `top_suited` yields lie below `n` and are held in the suit.
pub proof fn lemma_top_suited_range(s: Set<int>, su: int, n: int, k: int)
    ensures
        top_suited(s, su, n, k).len() <= if k > 0 { k } else { 0 },
        forall|i: int|
            0 <= i < top_suited(s, su, n, k).len() ==> {
                let r = #[trigger] top_suited(s, su, n, k)[i];
                &&& 0 <= r < n
                &&& holds(s, r, su)
            },
    decreases n,
{
    if n > 0 && k > 0 {
        lemma_top_suited_range(s, su, n - 1, k);
        lemma_top_suited_range(s, su, n - 1, k - 1);
    }
}

pub proof fn lemma_top_straight_range(s: Set<int>, n: int)
    ensures
        0 <= top_straight(s, n) <= if n > 0 { n } else { 0 },
        0 <= top_straight_flush(s, n) <= if n > 0 { n } else { 0 },
        top_straight(s, n) > 0 ==> rank_run(s, top_straight(s, n)),
        top_straight_flush(s, n) > 0 ==> flush_run(s, top_straight_flush(s, n)),
    decreases n,
{
    if n > 0 {
        lemma_top_straight_range(s, n - 1);
    }
}

/// Binomials of a rank: `binomial(n, k) <= binomial(12, k)` for `n <= 12`.
pub proof fn lemma_binomial_range(n: int)
    requires
        0 <= n <= 12,
    ensures
        0 <= binomial(n, 1) <= 12,
        0 <= binomial(n, 2) <= 66,
        0 <= binomial(n, 3) <= 220,
        0 <= binomial(n, 4) <= 495,
        0 <= binomial(n, 5) <= 792,
        n >= 4 ==> binomial(n, 5) >= n - 4 + (if n == 12 { 1int } else { 0int }),
{
    lemma_binomial_closed(n);
    assert(0 <= n * (n - 1) <= 132) by (nonlinear_arith)
        requires
            0 <= n <= 12,
    ;
    let p2 = n * (n - 1);
    assert(0 <= p2 * (n - 2) <= 1320) by (nonlinear_arith)
        requires
            0 <= n <= 12,
            p2 == n * (n - 1),
            0 <= p2 <= 132,
    ;
    let p3 = p2 * (n - 2);
    assert(n * (n - 1) * (n - 2) == p3);
    assert(0 <= p3 * (n - 3) <= 11880) by (nonlinear_arith)
        requires
            0 <= n <= 12,
            p3 == n * (n - 1) * (n - 2),
            0 <= p3 <= 1320,
    ;
    let p4 = p3 * (n - 3);
    assert(n * (n - 1) * (n - 2) * (n - 3) == p4);
    assert(0 <= p4 * (n - 4) <= 95040) by (nonlinear_arith)
        requires
            0 <= n <= 12,
            p4 == n * (n - 1) * (n - 2) * (n - 3),
            0 <= p4 <= 11880,
    ;
    let p5 = p4 * (n - 4);
    assert(n * (n - 1) * (n - 2) * (n - 3) * (n - 4) == p5);
    if n >= 5 {
        assert(p4 >= 120) by (nonlinear_arith)
            requires
                5 <= n,
                p4 == n * (n - 1) * (n - 2) * (n - 3),
        ;
        assert(p5 >= 120 * (n - 4)) by (nonlinear_arith)
            requires
                5 <= n,
                p4 >= 120,
                p5 == p4 * (n - 4),
        ;
        if n == 12 {
            assert(p5 == 95040) by (nonlinear_arith)
                requires
                    n == 12,
                    p2 == n * (n - 1),
                    p3 == p2 * (n - 2),
                    p4 == p3 * (n - 3),
                    p5 == p4 * (n - 4),
            ;
        }
    } else if n == 4 {
        assert(p5 == 0) by (nonlinear_arith)
            requires
                n == 4,
                p5 == p4 * (n - 4),
        ;
    }
}

/// The index of five ranks below 13 lies in `1..=1586`.
pub proof fn lemma_five_rank_index_range(h: Seq<int>)
    requires
        forall|i: int| 0 <= i < h.len() ==> 0 <= #[trigger] h[i] < 13,
    ensures
        1 <= five_rank_index(h) <= 1586,
{
    lemma_binomial_range(at(h, 0));
    lemma_binomial_range(at(h, 1));
    lemma_binomial_range(at(h, 2));
    lemma_binomial_range(at(h, 3));
    lemma_binomial_range(at(h, 4));
}

/// A hand rank: a category from 1 to 9 and a nonzero index below 4096.
pub open spec fn valid_hand_value(v: int) -> bool {
    4096 < v < 10 * 4096 && v % 4096 != 0
}

proof fn lemma_at_top_ranks(s: Set<int>, m: int, x1: int, x2: int, k: int, i: int)
    ensures
        0 <= at(top_ranks(s, m, x1, x2, 13, k), i) < 13,
{
    lemma_top_ranks_range(s, m, x1, x2, 13, k);
}

proof fn lemma_flush_index_range(s: Set<int>)
    ensures
        flush_index(s) <= 1586,
{
    lemma_top_suited_range(s, 0, 13, 5);
    lemma_top_suited_range(s, 1, 13, 5);
    lemma_top_suited_range(s, 2, 13, 5);
    lemma_top_suited_range(s, 3, 13, 5);
    lemma_five_rank_index_range(top_suited(s, 0, 13, 5));
    lemma_five_rank_index_range(top_suited(s, 1, 13, 5));
    lemma_five_rank_index_range(top_suited(s, 2, 13, 5));
    lemma_five_rank_index_range(top_suited(s, 3, 13, 5));
}

proof fn lemma_category_ranges(t: int, a: int, b: int, c: int)
    requires
        0 <= t < 13,
        0 <= a < 13,
        0 <= b < 13,
        0 <= c < 13,
    ensures
        8 * 4096 < quads_value(t, a) < 9 * 4096,
        7 * 4096 < full_house_value(t, a) < 8 * 4096,
        4 * 4096 < trips_value(t, a, b) < 5 * 4096,
        3 * 4096 < two_pair_value(t, a, b) < 4 * 4096,
        2 * 4096 < pair_value(t, a, b, c) < 3 * 4096,
{
    lemma_binomial_range(t);
    lemma_binomial_range(skip_rank(a, t));
    lemma_binomial_range(skip_rank(b, t));
}

/// Every set of cards has a well-formed rank, whose category is the hand's.
pub proof fn lemma_hand_value_valid(s: Set<int>)
    ensures
        valid_hand_value(hand_value(s)),
        hand_value(s) / 4096 == hand_category(s),
{
    lemma_hand_value_in_category(s);
}

/// The rank lies strictly inside its category's block of 4096.
pub proof fn lemma_hand_value_in_category(s: Set<int>)
    ensures
        hand_category(s) * 4096 < hand_value(s) < (hand_category(s) + 1) * 4096,
        1 <= hand_category(s) <= 9,
{
    let quads = top_ranks(s, 4, -1, -1, 13, 1);
    let trips = top_ranks(s, 3, -1, -1, 13, 1);
    let t = at(trips, 0);
    let pairs = top_ranks(s, 2, -1, -1, 13, 2);
    let q = at(quads, 0);
    let p1 = at(pairs, 0);
    let p2 = at(pairs, 1);
    lemma_top_straight_range(s, 10);
    lemma_flush_index_range(s);
    lemma_at_top_ranks(s, 4, -1, -1, 1, 0);
    lemma_at_top_ranks(s, 3, -1, -1, 1, 0);
    lemma_at_top_ranks(s, 2, -1, -1, 2, 0);
    lemma_at_top_ranks(s, 2, -1, -1, 2, 1);
    lemma_at_top_ranks(s, 2, t, -1, 1, 0);
    lemma_at_top_ranks(s, 1, q, -1, 1, 0);
    lemma_at_top_ranks(s, 1, t, -1, 2, 0);
    lemma_at_top_ranks(s, 1, t, -1, 2, 1);
    lemma_at_top_ranks(s, 1, p1, p2, 1, 0);
    lemma_at_top_ranks(s, 1, p1, -1, 3, 0);
    lemma_at_top_ranks(s, 1, p1, -1, 3, 1);
    lemma_at_top_ranks(s, 1, p1, -1, 3, 2);
    lemma_top_ranks_range(s, 1, -1, -1, 13, 5);
    lemma_five_rank_index_range(top_ranks(s, 1, -1, -1, 13, 5));
    let partner = at(top_ranks(s, 2, t, -1, 13, 1), 0);
    let kq = at(top_ranks(s, 1, q, -1, 13, 1), 0);
    let kt = top_ranks(s, 1, t, -1, 13, 2);
    let kk = at(top_ranks(s, 1, p1, p2, 13, 1), 0);
    let kp = top_ranks(s, 1, p1, -1, 13, 3);
    lemma_category_ranges(q, kq, 0, 0);
    lemma_category_ranges(t, partner, 0, 0);
    lemma_category_ranges(t, at(kt, 0), at(kt, 1), 0);
    lemma_category_ranges(p1, p2, kk, 0);
    lemma_category_ranges(p1, at(kp, 0), at(kp, 1), at(kp, 2));
}

// ---------------------------------------------------------------------------
// Hand ranks.
// ---------------------------------------------------------------------------

/// The category of a poker hand, from weakest to strongest.
#[derive(Debug, Clone, Copy, PartialEq, Eq, Structural, PartialOrd, Ord, Hash)]
pub enum HandType {
    HighCard,
    OnePair,
    TwoPair,
    ThreeOfAKind,
    Straight,
    Flush,
    FullHouse,
    FourOfAKind,
    StraightFlush,
}

impl HandType {
    /// The category's number, 1 (high card) to 9 (straight flush).
    pub open spec fn code(self) -> int {
        match self {
            HandType::HighCard => 1,
            HandType::OnePair => 2,
            HandType::TwoPair => 3,
            HandType::ThreeOfAKind => 4,
            HandType::Straight => 5,
            HandType::Flush => 6,
            HandType::FullHouse => 7,
            HandType::FourOfAKind => 8,
            HandType::StraightFlush => 9,
        }
    }

    /// The category numbered `value`.
    pub fn from_code(value: i32) -> (t: HandType)
        requires
            1 <= value <= 9,
        ensures
            t.code() == value,
    {
        match value {
            1 => HandType::HighCard,
            2 => HandType::OnePair,
            3 => HandType::TwoPair,
            4 => HandType::ThreeOfAKind,
            5 => HandType::Straight,
            6 => HandType::Flush,
            7 => HandType::FullHouse,
            8 => HandType::FourOfAKind,
            _ => HandType::StraightFlush,
        }
    }

    /// The category's name, such as `Full House`.
    pub fn name(&self) -> (text: &'static str)
        ensures
            *self == HandType::HighCard ==> text@ == "High Card"@,
            *self == HandType::OnePair ==> text@ == "One Pair"@,
            *self == HandType::TwoPair ==> text@ == "Two Pair"@,
            *self == HandType::ThreeOfAKind ==> text@ == "Three of a Kind"@,
            *self == HandType::Straight ==> text@ == "Straight"@,
            *self == HandType::Flush ==> text@ == "Flush"@,
            *self == HandType::FullHouse ==> text@ == "Full House"@,
            *self == HandType::FourOfAKind ==> text@ == "Four of a Kind"@,
            *self == HandType::StraightFlush ==> text@ == "Straight Flush"@,
    {
        match self {
            HandType::HighCard => "High Card",
            HandType::OnePair => "One Pair",
            HandType::TwoPair => "Two Pair",
            HandType::ThreeOfAKind => "Three of a Kind",
            HandType::Straight => "Straight",
            HandType::Flush => "Flush",
            HandType::FullHouse => "Full House",
            HandType::FourOfAKind => "Four of a Kind",
            HandType::StraightFlush => "Straight Flush",
        }
    }
}

/// The rank of a poker hand; a greater rank is a stronger hand.
#[derive(Clone, Copy, PartialEq, Eq, Structural, PartialOrd, Ord, Hash, Debug)]
pub struct HandRank(i32);

impl HandRank {
    #[verifier::type_invariant]
    spec fn inv(self) -> bool {
        valid_hand_value(self.0 as int)
    }

    pub closed spec fn rank_value(self) -> int {
        self.0 as int
    }

    fn from_value(v: i32) -> (r: HandRank)
        requires
            valid_hand_value(v as int),
        ensures
            r@ == v,
    {
        HandRank(v)
    }

    /// The rank as a number: `category * 4096 + index`.
    pub fn value(&self) -> (v: i32)
        ensures
            v == self@,
            valid_hand_value(v as int),
    {
        proof {
            use_type_invariant(self);
        }
        self.0
    }

    pub fn hand_type(&self) -> (t: HandType)
        ensures
            t.code() == self@ / 4096,
    {
        proof {
            use_type_invariant(self);
        }
        let v = self.0;
        assert(v >> 12i32 == v / 4096) by (bit_vector)
            requires
                0 <= v,
        ;
        HandType::from_code(v >> 12)
    }
}

/// The hexadecimal digit of `d` (`0..16`), upper case.
pub open spec fn hex_digit(d: int) -> char {
    if d < 10 {
        ('0' as int + d) as char
    } else {
        ('A' as int + d - 10) as char
    }
}

fn hex_text(d: i32) -> (t: &'static str)
    requires
        0 <= d < 16,
    ensures
        t@ == seq![hex_digit(d as int)],
{
    proof {
        reveal_strlit("0");
        reveal_strlit("1");
        reveal_strlit("2");
        reveal_strlit("3");
        reveal_strlit("4");
        reveal_strlit("5");
        reveal_strlit("6");
        reveal_strlit("7");
        reveal_strlit("8");
        reveal_strlit("9");
        reveal_strlit("A");
        reveal_strlit("B");
        reveal_strlit("C");
        reveal_strlit("D");
        reveal_strlit("E");
        reveal_strlit("F");
    }
    match d {
        0 => "0",
        1 => "1",
        2 => "2",
        3 => "3",
        4 => "4",
        5 => "5",
        6 => "6",
        7 => "7",
        8 => "8",
        9 => "9",
        10 => "A",
        11 => "B",
        12 => "C",
        13 => "D",
        14 => "E",
        _ => "F",
    }
}

impl HandRank {
    /// The rank in hexadecimal, such as `0x1A2B`: the first digit is the category.
    pub fn to_string(&self) -> (text: String)
        ensures
            text@ == seq![
                '0',
                'x',
                hex_digit(self@ / 4096),
                hex_digit(self@ / 256 % 16),
                hex_digit(self@ / 16 % 16),
                hex_digit(self@ % 16),
            ],
    {
        proof {
            use_type_invariant(self);
            reveal_strlit("0x");
        }
        let v = self.0;
        let mut text = String::new();
        text.append("0x");
        text.append(hex_text(v / 4096));
        text.append(hex_text(v / 256 % 16));
        text.append(hex_text(v / 16 % 16));
        text.append(hex_text(v % 16));
        text
    }
}

/// The identifier of the category numbered `code`, such as `FullHouse`.
pub open spec fn type_ident(code: int) -> Seq<char> {
    if code == 1 {
        "HighCard"@
    } else if code == 2 {
        "OnePair"@
    } else if code == 3 {
        "TwoPair"@
    } else if code == 4 {
        "ThreeOfAKind"@
    } else if code == 5 {
        "Straight"@
    } else if code == 6 {
        "Flush"@
    } else if code == 7 {
        "FullHouse"@
    } else if code == 8 {
        "FourOfAKind"@
    } else {
        "StraightFlush"@
    }
}

impl HandType {
    /// The category's identifier, such as `FullHouse`.
    pub fn ident(&self) -> (text: &'static str)
        ensures
            text@ == type_ident(self.code()),
    {
        match self {
            HandType::HighCard => "HighCard",
            HandType::OnePair => "OnePair",
            HandType::TwoPair => "TwoPair",
            HandType::ThreeOfAKind => "ThreeOfAKind",
            HandType::Straight => "Straight",
            HandType::Flush => "Flush",
            HandType::FullHouse => "FullHouse",
            HandType::FourOfAKind => "FourOfAKind",
            HandType::StraightFlush => "StraightFlush",
        }
    }
}

impl HandRank {
    /// The category's identifier and the rank in hexadecimal, such as `FullHouse (0x7001)`.
    pub fn describe(&self) -> (text: String)
        ensures
            text@ == type_ident(self@ / 4096) + " ("@ + seq![
                '0',
                'x',
                hex_digit(self@ / 4096),
                hex_digit(self@ / 256 % 16),
                hex_digit(self@ / 16 % 16),
                hex_digit(self@ % 16),
            ] + ")"@,
    {
        let t = self.hand_type();
        let mut text = String::new();
        text.append(t.ident());
        text.append(" (");
        let hex = self.to_string();
        text.append(hex.as_str());
        text.append(")");
        text
    }
}

impl View for HandRank {
    type V = int;

    open spec fn view(&self) -> int {
        self.rank_value()
    }
}

// ---------------------------------------------------------------------------
// Evaluation.
// ---------------------------------------------------------------------------

/// The set of the first cards of `ids`, seven at most, that an evaluation reads.
pub open spec fn dealt_cards(ids: Seq<i32>) -> Set<int> {
    Set::new(|c: int| exists|j: int| 0 <= j < ids.len() && j < 7 && ids[j] == c)
}

/// The first cards of `ids`, seven at most, are card numbers and distinct.
pub open spec fn valid_deal(ids: Seq<i32>) -> bool {
    &&& forall|j: int| 0 <= j < ids.len() && j < 7 ==> 1 <= #[trigger] ids[j] <= 52
    &&& forall|i: int, j: int|
        0 <= i < j < ids.len() && j < 7 ==> #[trigger] ids[i] != #[trigger] ids[j]
}

/// The cards ranked from a sequence of card numbers are exactly its first
/// cards, seven of them when it is that long: each of those is in, nothing
/// else is, and there are as many as there are first cards.
pub proof fn lemma_dealt_cards_first_seven(ids: Seq<i32>)
    requires
        valid_deal(ids),
    ensures
        forall|j: int| 0 <= j < ids.len() && j < 7 ==> dealt_cards(ids).contains(#[trigger] ids[j] as int),
        forall|c: int| dealt_cards(ids).contains(c) ==> exists|j: int| 0 <= j < ids.len() && j < 7 && ids[j] == c,
        dealt_cards(ids).finite(),
        dealt_cards(ids).len() == if ids.len() < 7 { ids.len() as int } else { 7 },
{
    let n: int = if ids.len() < 7 { ids.len() as int } else { 7 };
    let first = ids.take(n).map_values(|x: i32| x as int);
    assert forall|j: int| 0 <= j < ids.len() && j < 7 implies dealt_cards(ids).contains(#[trigger] ids[j] as int) by {
        assert(0 <= j < ids.len() && j < 7 && ids[j] == ids[j] as int);
    }
    assert forall|i: int, k: int| 0 <= i < k < first.len() implies first[i] != first[k] by {
        assert(ids[i] != ids[k]);
    }
    assert(first.no_duplicates());
    first.unique_seq_to_set();
    assert forall|c: int| dealt_cards(ids).contains(c) <==> first.to_set().contains(c) by {
        if dealt_cards(ids).contains(c) {
            let j = choose|j: int| 0 <= j < ids.len() && j < 7 && ids[j] == c;
            assert(first[j] == c);
        }
        if first.to_set().contains(c) {
            let j = choose|j: int| 0 <= j < first.len() && first[j] == c;
            assert(ids[j] == c);
        }
    }
    assert(dealt_cards(ids) =~= first.to_set());
}

fn rank_of_word(bits: u64) -> (r: HandRank)
    ensures
        r@ == hand_value(cards_of_bits(bits)),
{
    let v = best_hand_value(bits);
    proof {
        lemma_hand_value_valid(cards_of_bits(bits));
    }
    HandRank::from_value(v)
}

/// The rank of the best hand among five to seven cards.
pub fn evaluate(cards: CardSet) -> (rank: HandRank)
    requires
        5 <= cards@.len() <= 7,
    ensures
        rank@ == hand_value(cards@),
{
    rank_of_word(cards.to_bits())
}

/// The set of the first cards of `ids`, seven at most.
fn deal_set(ids: &[i32]) -> (set: CardSet)
    requires
        valid_deal(ids@),
    ensures
        set@ == dealt_cards(ids@),
{
    let mut set = CardSet::empty();
    let mut i: usize = 0;
    while i < ids.len() && i < 7
        invariant
            i <= ids.len(),
            i <= 7,
            valid_deal(ids@),
            set@ == Set::new(|c: int| exists|j: int| 0 <= j < i && ids@[j] == c),
        decreases ids.len() - i,
    {
        let card = Card::from_index(ids[i]);
        set.insert(card);
        proof {
            assert forall|c: int| #[trigger] set@.contains(c) == (exists|j: int| 0 <= j < i + 1 && ids@[j] == c) by {
                if c == ids@[i as int] {
                    assert(0 <= i < i + 1 && ids@[i as int] == c);
                }
                if exists|j: int| 0 <= j < i + 1 && ids@[j] == c {
                    let j = choose|j: int| 0 <= j < i + 1 && ids@[j] == c;
                    if j < i {
                        assert(old_set_has(ids@, i as int, c));
                    }
                }
            }
            assert(set@ =~= Set::new(|c: int| exists|j: int| 0 <= j < i + 1 && ids@[j] == c));
        }
        i = i + 1;
    }
    assert(set@ =~= dealt_cards(ids@));
    set
}

spec fn old_set_has(ids: Seq<i32>, i: int, c: int) -> bool {
    exists|j: int| 0 <= j < i && ids[j] == c
}

/// The rank of the best hand among the first cards of `ids`, seven at most;
/// `None` when there are fewer than five.
pub fn try_evaluate(ids: &[i32]) -> (rank: Option<HandRank>)
    requires
        ids@.len() >= 5 ==> valid_deal(ids@),
    ensures
        ids@.len() < 5 <==> rank.is_none(),
        rank.is_some() ==> rank.unwrap()@ == hand_value(dealt_cards(ids@)),
{
    if ids.len() < 5 {
        return None;
    }
    let set = deal_set(ids);
    Some(rank_of_word(set.to_bits()))
}

/// The rank of the best hand among the first cards of `ids`, seven at most.
pub fn evaluate_iter(ids: &[i32]) -> (rank: HandRank)
    requires
        5 <= ids@.len(),
        valid_deal(ids@),
    ensures
        rank@ == hand_value(dealt_cards(ids@)),
{
    let set = deal_set(ids);
    rank_of_word(set.to_bits())
}

/// The rank of the best hand among five or more cards.
pub fn evaluate_many(cards: CardSet) -> (rank: HandRank)
    requires
        5 <= cards@.len(),
    ensures
        rank@ == hand_value(cards@),
{
    if cards.len() <= 7 {
        return evaluate(cards);
    }
    rank_of_word(cards.to_bits())
}

} // verus!
