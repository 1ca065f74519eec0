//! Laws of hand ranking: adding cards never lowers the rank of the best hand,
//! and a hand of five or more cards ranks as the best five cards in it.
use vstd::prelude::*;
use crate::card::{full_deck, card_number, card_rank, card_suit};
use crate::evaluator::{rank_count, holds, top_ranks, lemma_top_ranks_range, top_suited, lemma_top_suited_range, top_straight, top_straight_flush, flush_run, rank_run, suited_run, run_rank, binomial, five_rank_index, at, hand_category, hand_value, flush_index, suit_flush_index, lemma_hand_value_in_category, lemma_five_rank_index_range, lemma_binomial_closed, skip_rank};

verus! {

/// Every rank of `s` is held at least as often in `t`.
pub open spec fn counts_le(s: Set<int>, t: Set<int>) -> bool {
    forall|r: int| 0 <= r < 13 ==> #[trigger] rank_count(s, r) <= rank_count(t, r)
}

proof fn lemma_counts_le(s: Set<int>, t: Set<int>)
    requires
        s.subset_of(t),
    ensures
        counts_le(s, t),
        forall|r: int, su: int| #[trigger] holds(s, r, su) ==> holds(t, r, su),
{
}

/// Asking for fewer ranks lists a prefix of the same ranks.
proof fn lemma_top_ranks_prefix(s: Set<int>, m: int, x1: int, x2: int, n: int, k: int)
    requires
        k >= 1,
    ensures
        top_ranks(s, m, x1, x2, n, k - 1).len() <= top_ranks(s, m, x1, x2, n, k).len(),
        top_ranks(s, m, x1, x2, n, k).len() <= top_ranks(s, m, x1, x2, n, k - 1).len() + 1,
        forall|i: int|
            0 <= i < top_ranks(s, m, x1, x2, n, k - 1).len() ==> #[trigger] top_ranks(
                s,
                m,
                x1,
                x2,
                n,
                k - 1,
            )[i] == top_ranks(s, m, x1, x2, n, k)[i],
    decreases n,
{
    if n > 0 && k > 1 {
        lemma_top_ranks_prefix(s, m, x1, x2, n - 1, k);
        lemma_top_ranks_prefix(s, m, x1, x2, n - 1, k - 1);
    } else if n > 0 {
        lemma_top_ranks_prefix(s, m, x1, x2, n - 1, k);
    }
}

/// The listed ranks decrease strictly.
proof fn lemma_top_ranks_decreasing(s: Set<int>, m: int, x1: int, x2: int, n: int, k: int)
    ensures
        forall|i: int, j: int|
            0 <= i < j < top_ranks(s, m, x1, x2, n, k).len() ==> top_ranks(s, m, x1, x2, n, k)[i]
                > top_ranks(s, m, x1, x2, n, k)[j],
    decreases n,
{
    lemma_top_ranks_range(s, m, x1, x2, n, k);
    if n > 0 && k > 0 {
        lemma_top_ranks_decreasing(s, m, x1, x2, n - 1, k);
        lemma_top_ranks_decreasing(s, m, x1, x2, n - 1, k - 1);
        lemma_top_ranks_range(s, m, x1, x2, n - 1, k - 1);
        if rank_count(s, n - 1) >= m && n - 1 != x1 && n - 1 != x2 {
            let rest = top_ranks(s, m, x1, x2, n - 1, k - 1);
            let all = top_ranks(s, m, x1, x2, n, k);
            assert(all == seq![n - 1] + rest);
            assert forall|i: int, j: int| 0 <= i < j < all.len() implies all[i] > all[j] by {
                assert(all[j] == rest[j - 1]);
                if i > 0 {
                    assert(all[i] == rest[i - 1]);
                }
            }
        } else {
            assert(top_ranks(s, m, x1, x2, n, k) == top_ranks(s, m, x1, x2, n - 1, k));
        }
    }
}

/// A qualifying rank below `n` means a nonempty listing that starts at or above it.
proof fn lemma_top_ranks_exists(s: Set<int>, m: int, x1: int, x2: int, n: int, k: int, r: int)
    requires
        k >= 1,
        0 <= r < n,
        rank_count(s, r) >= m,
        r != x1,
        r != x2,
    ensures
        top_ranks(s, m, x1, x2, n, k).len() >= 1,
        top_ranks(s, m, x1, x2, n, k)[0] >= r,
    decreases n,
{
    if n - 1 != r && !(rank_count(s, n - 1) >= m && n - 1 != x1 && n - 1 != x2) {
        lemma_top_ranks_exists(s, m, x1, x2, n - 1, k, r);
    }
}

/// With more of every rank, the listing is at least as long and each entry at least as high.
proof fn lemma_top_ranks_dominance(s: Set<int>, t: Set<int>, m: int, x1: int, x2: int, n: int, k: int)
    requires
        counts_le(s, t),
        n <= 13,
    ensures
        top_ranks(s, m, x1, x2, n, k).len() <= top_ranks(t, m, x1, x2, n, k).len(),
        forall|i: int|
            0 <= i < top_ranks(s, m, x1, x2, n, k).len() ==> #[trigger] top_ranks(s, m, x1, x2, n, k)[i]
                <= top_ranks(t, m, x1, x2, n, k)[i],
    decreases n,
{
    if n > 0 && k > 0 {
        let qs = rank_count(s, n - 1) >= m && n - 1 != x1 && n - 1 != x2;
        let qt = rank_count(t, n - 1) >= m && n - 1 != x1 && n - 1 != x2;
        assert(rank_count(s, n - 1) <= rank_count(t, n - 1));
        if qs {
            lemma_top_ranks_dominance(s, t, m, x1, x2, n - 1, k - 1);
        } else if qt {
            lemma_top_ranks_dominance(s, t, m, x1, x2, n - 1, k - 1);
            lemma_top_ranks_prefix(s, m, x1, x2, n - 1, k);
            lemma_top_ranks_decreasing(s, m, x1, x2, n - 1, k);
            lemma_top_ranks_range(s, m, x1, x2, n - 1, k);
            let a = top_ranks(s, m, x1, x2, n - 1, k);
            let b = top_ranks(t, m, x1, x2, n, k);
            assert forall|i: int| 0 <= i < a.len() implies #[trigger] a[i] <= b[i] by {
                if i > 0 {
                    assert(a[i] < a[i - 1]);
                    assert(top_ranks(s, m, x1, x2, n - 1, k - 1)[i - 1] == a[i - 1]);
                }
            }
        } else {
            lemma_top_ranks_dominance(s, t, m, x1, x2, n - 1, k);
        }
    }
}

proof fn lemma_top_suited_prefix(s: Set<int>, su: int, n: int, k: int)
    requires
        k >= 1,
    ensures
        top_suited(s, su, n, k - 1).len() <= top_suited(s, su, n, k).len(),
        top_suited(s, su, n, k).len() <= top_suited(s, su, n, k - 1).len() + 1,
        forall|i: int|
            0 <= i < top_suited(s, su, n, k - 1).len() ==> #[trigger] top_suited(s, su, n, k - 1)[i]
                == top_suited(s, su, n, k)[i],
    decreases n,
{
    if n > 0 && k > 1 {
        lemma_top_suited_prefix(s, su, n - 1, k);
        lemma_top_suited_prefix(s, su, n - 1, k - 1);
    } else if n > 0 {
        lemma_top_suited_prefix(s, su, n - 1, k);
    }
}

proof fn lemma_top_suited_decreasing(s: Set<int>, su: int, n: int, k: int)
    ensures
        forall|i: int, j: int|
            0 <= i < j < top_suited(s, su, n, k).len() ==> top_suited(s, su, n, k)[i] > top_suited(
                s,
                su,
                n,
                k,
            )[j],
    decreases n,
{
    lemma_top_suited_range(s, su, n, k);
    if n > 0 && k > 0 {
        lemma_top_suited_decreasing(s, su, n - 1, k);
        lemma_top_suited_decreasing(s, su, n - 1, k - 1);
        lemma_top_suited_range(s, su, n - 1, k - 1);
        if holds(s, n - 1, su) {
            let rest = top_suited(s, su, n - 1, k - 1);
            let all = top_suited(s, su, n, k);
            assert(all == seq![n - 1] + rest);
            assert forall|i: int, j: int| 0 <= i < j < all.len() implies all[i] > all[j] by {
                assert(all[j] == rest[j - 1]);
                if i > 0 {
                    assert(all[i] == rest[i - 1]);
                }
            }
        } else {
            assert(top_suited(s, su, n, k) == top_suited(s, su, n - 1, k));
        }
    }
}

proof fn lemma_top_suited_dominance(s: Set<int>, t: Set<int>, su: int, n: int, k: int)
    requires
        s.subset_of(t),
    ensures
        top_suited(s, su, n, k).len() <= top_suited(t, su, n, k).len(),
        forall|i: int|
            0 <= i < top_suited(s, su, n, k).len() ==> #[trigger] top_suited(s, su, n, k)[i]
                <= top_suited(t, su, n, k)[i],
    decreases n,
{
    if n > 0 && k > 0 {
        let qs = holds(s, n - 1, su);
        let qt = holds(t, n - 1, su);
        if qs {
            lemma_top_suited_dominance(s, t, su, n - 1, k - 1);
        } else if qt {
            lemma_top_suited_dominance(s, t, su, n - 1, k - 1);
            lemma_top_suited_prefix(s, su, n - 1, k);
            lemma_top_suited_decreasing(s, su, n - 1, k);
            lemma_top_suited_range(s, su, n - 1, k);
            let a = top_suited(s, su, n - 1, k);
            let b = top_suited(t, su, n, k);
            assert forall|i: int| 0 <= i < a.len() implies #[trigger] a[i] <= b[i] by {
                if i > 0 {
                    assert(a[i] < a[i - 1]);
                    assert(top_suited(s, su, n - 1, k - 1)[i - 1] == a[i - 1]);
                }
            }
        } else {
            lemma_top_suited_dominance(s, t, su, n - 1, k);
        }
    }
}

/// More cards keep every straight and straight flush.
proof fn lemma_straights_monotone(s: Set<int>, t: Set<int>, n: int)
    requires
        s.subset_of(t),
    ensures
        top_straight(s, n) <= top_straight(t, n),
        top_straight_flush(s, n) <= top_straight_flush(t, n),
    decreases n,
{
    if n > 0 {
        lemma_straights_monotone(s, t, n - 1);
        crate::evaluator::lemma_top_straight_range(t, n - 1);
        crate::evaluator::lemma_top_straight_range(s, n - 1);
        if rank_run(s, n) {
            assert(rank_run(t, n));
        }
        if flush_run(s, n) {
            assert(flush_run(t, n));
        }
    }
}

proof fn lemma_binomial_nonneg(n: int, k: int)
    ensures
        binomial(n, k) >= 0,
        0 <= k <= n ==> binomial(n, k) >= 1,
    decreases k, n,
{
    if k > 0 && n > 0 {
        lemma_binomial_nonneg(n - 1, k);
        lemma_binomial_nonneg(n - 1, k - 1);
    }
}

/// `binomial(n, k)` grows with `n`, by at least one per step once `n >= k - 1`.
proof fn lemma_binomial_monotone(a: int, b: int, k: int)
    requires
        0 <= a <= b,
    ensures
        binomial(a, k) <= binomial(b, k),
        k >= 1 && a >= k - 1 ==> binomial(b, k) - binomial(a, k) >= b - a,
    decreases b - a,
{
    if a < b {
        lemma_binomial_monotone(a, b - 1, k);
        lemma_binomial_nonneg(b - 1, k - 1);
        if k >= 1 {
            assert(binomial(b, k) == binomial(b - 1, k) + binomial(b - 1, k - 1));
        }
    }
}

/// The five ranks `h` form a straight: consecutive, or ace to five.
pub open spec fn is_run(h: Seq<int>) -> bool {
    h[4] == h[0] - 4 || (h[0] == 12 && h[1] == 3)
}

/// `h` lists five distinct ranks in decreasing order.
pub open spec fn five_decreasing(h: Seq<int>) -> bool {
    &&& h.len() == 5
    &&& 0 <= h[4]
    &&& h[0] < 13
    &&& forall|i: int| 0 <= i < 4 ==> #[trigger] h[i] > h[i + 1]
}

/// Among five distinct ranks that are not a straight, higher ranks position
/// by position give an index at least as high.
pub proof fn lemma_five_rank_index_monotone(h: Seq<int>, g: Seq<int>)
    requires
        five_decreasing(h),
        five_decreasing(g),
        !is_run(h),
        !is_run(g),
        forall|i: int| 0 <= i < 5 ==> #[trigger] h[i] <= g[i],
    ensures
        five_rank_index(h) <= five_rank_index(g),
{
    assert(h[0] > h[1] && h[1] > h[2] && h[2] > h[3] && h[3] > h[4]);
    assert(g[0] > g[1] && g[1] > g[2] && g[2] > g[3] && g[3] > g[4]);
    assert(at(h, 0) == h[0] && at(h, 1) == h[1] && at(h, 2) == h[2] && at(h, 3) == h[3] && at(h, 4) == h[4]);
    assert(at(g, 0) == g[0] && at(g, 1) == g[1] && at(g, 2) == g[2] && at(g, 3) == g[3] && at(g, 4) == g[4]);
    if h[0] == g[0] {
        lemma_binomial_monotone(h[1], g[1], 4);
        lemma_binomial_monotone(h[2], g[2], 3);
        lemma_binomial_monotone(h[3], g[3], 2);
        lemma_binomial_monotone(h[4], g[4], 1);
    } else {
        let m = h[0];
        // the index of h is at most that of the straight topped by m, less one
        lemma_binomial_monotone(h[1], m - 1, 4);
        lemma_binomial_monotone(h[2], m - 2, 3);
        lemma_binomial_monotone(h[3], m - 3, 2);
        lemma_binomial_monotone(h[4], m - 4, 1);
        assert(binomial(m + 1, 5) == binomial(m, 5) + binomial(m, 4));
        assert(binomial(m, 4) == binomial(m - 1, 4) + binomial(m - 1, 3));
        assert(binomial(m - 1, 3) == binomial(m - 2, 3) + binomial(m - 2, 2));
        assert(binomial(m - 2, 2) == binomial(m - 3, 2) + binomial(m - 3, 1));
        assert(binomial(m - 3, 1) == binomial(m - 4, 1) + binomial(m - 4, 0));
        lemma_binomial_closed_one(h[4]);
        lemma_binomial_closed_one(m - 4);
        // the index of g is at least that of its lowest hand with top g[0]
        lemma_binomial_nonneg(g[1], 4);
        lemma_binomial_nonneg(g[2], 3);
        lemma_binomial_nonneg(g[3], 2);
        lemma_binomial_nonneg(g[4], 1);
        lemma_binomial_monotone(m + 1, g[0], 5);
        if g[0] == 12 {
            assert(g[1] >= 4);
            lemma_binomial_monotone(4, g[1], 4);
            assert(binomial(4, 4) == 1) by {
                lemma_binomial_nonneg(4, 4);
                lemma_binomial_below_le(4);
            }
        }
    }
}

proof fn lemma_binomial_closed_one(n: int)
    requires
        n >= 0,
    ensures
        binomial(n, 1) == n,
    decreases n,
{
    if n > 0 {
        lemma_binomial_closed_one(n - 1);
        assert(binomial(n - 1, 0) == 1);
        assert(binomial(n, 1) == binomial(n - 1, 1) + binomial(n - 1, 0));
    }
}

proof fn lemma_binomial_below_le(n: int)
    requires
        0 <= n,
    ensures
        binomial(n, n) == 1,
    decreases n,
{
    if n > 0 {
        lemma_binomial_below_le(n - 1);
        lemma_binomial_zero_above(n - 1, n);
    }
}

proof fn lemma_binomial_zero_above(n: int, k: int)
    requires
        0 <= n < k,
    ensures
        binomial(n, k) == 0,
    decreases n,
{
    if n > 0 {
        lemma_binomial_zero_above(n - 1, k);
        lemma_binomial_zero_above(n - 1, k - 1);
    }
}

/// How many ranks below `n`, other than `x1` and `x2`, `s` holds at least `m` times.
pub open spec fn qual_count(s: Set<int>, m: int, x1: int, x2: int, n: int) -> int
    decreases n,
{
    if n <= 0 {
        0
    } else {
        qual_count(s, m, x1, x2, n - 1) + if rank_count(s, n - 1) >= m && n - 1 != x1 && n - 1
            != x2 {
            1int
        } else {
            0int
        }
    }
}

/// The listing has all qualifying ranks, up to `k` of them.
proof fn lemma_top_ranks_len(s: Set<int>, m: int, x1: int, x2: int, n: int, k: int)
    requires
        k >= 0,
    ensures
        top_ranks(s, m, x1, x2, n, k).len() == if qual_count(s, m, x1, x2, n) < k {
            qual_count(s, m, x1, x2, n)
        } else {
            k
        },
        qual_count(s, m, x1, x2, n) >= 0,
    decreases n,
{
    if n > 0 {
        lemma_top_ranks_len(s, m, x1, x2, n - 1, k);
        if k > 0 {
            lemma_top_ranks_len(s, m, x1, x2, n - 1, k - 1);
        }
    }
}

/// The number of cards of `s` below rank `n`, counted rank by rank.
pub open spec fn rank_total(s: Set<int>, n: int) -> int
    decreases n,
{
    if n <= 0 {
        0
    } else {
        rank_total(s, n - 1) + rank_count(s, n - 1)
    }
}

/// The cards of rank `r` among suits below `j`.
spec fn rank_suits(s: Set<int>, r: int, j: int) -> Set<int> {
    Set::new(|c: int| s.contains(c) && 1 <= c <= 52 && card_rank(c) == r && card_suit(c) < j)
}

spec fn suit_indicator(s: Set<int>, r: int, j: int) -> int
    decreases j,
{
    if j <= 0 {
        0
    } else {
        suit_indicator(s, r, j - 1) + if holds(s, r, j - 1) {
            1int
        } else {
            0int
        }
    }
}

proof fn lemma_rank_suits(s: Set<int>, r: int, j: int)
    requires
        0 <= r < 13,
        0 <= j <= 4,
    ensures
        rank_suits(s, r, j).finite(),
        rank_suits(s, r, j).len() == suit_indicator(s, r, j),
    decreases j,
{
    if j == 0 {
        assert(rank_suits(s, r, j) =~= Set::<int>::empty());
    } else {
        lemma_rank_suits(s, r, j - 1);
        let c = card_number(r, j - 1);
        assert(card_rank(c) == r && card_suit(c) == j - 1);
        if holds(s, r, j - 1) {
            assert(rank_suits(s, r, j) =~= rank_suits(s, r, j - 1).insert(c));
        } else {
            assert(rank_suits(s, r, j) =~= rank_suits(s, r, j - 1));
        }
    }
}

proof fn lemma_rank_total(s: Set<int>, n: int)
    requires
        s.subset_of(full_deck()),
        0 <= n <= 13,
    ensures
        Set::new(|c: int| s.contains(c) && card_rank(c) < n).finite(),
        Set::new(|c: int| s.contains(c) && card_rank(c) < n).len() == rank_total(s, n),
    decreases n,
{
    let below = Set::new(|c: int| s.contains(c) && card_rank(c) < n);
    if n == 0 {
        assert(below =~= Set::<int>::empty());
    } else {
        lemma_rank_total(s, n - 1);
        let lower = Set::new(|c: int| s.contains(c) && card_rank(c) < n - 1);
        lemma_rank_suits(s, n - 1, 4);
        let top = rank_suits(s, n - 1, 4);
        assert(below =~= lower.union(top));
        assert(lower.disjoint(top));
        vstd::set_lib::lemma_set_disjoint_lens(lower, top);
        assert(suit_indicator(s, n - 1, 4) == rank_count(s, n - 1)) by {
            reveal_with_fuel(suit_indicator, 5);
        }
    }
}

/// A hand of cards has as many cards as its rank counts add up to.
pub proof fn lemma_len_rank_total(s: Set<int>)
    requires
        s.subset_of(full_deck()),
    ensures
        s.finite(),
        s.len() == rank_total(s, 13),
{
    lemma_rank_total(s, 13);
    assert(Set::new(|c: int| s.contains(c) && card_rank(c) < 13) =~= s);
}

/// When no rank is held twice, the held ranks are as many as the cards.
proof fn lemma_single_ranks(s: Set<int>, n: int)
    requires
        0 <= n <= 13,
        forall|r: int| 0 <= r < 13 ==> #[trigger] rank_count(s, r) <= 1,
    ensures
        qual_count(s, 1, -1, -1, n) == rank_total(s, n),
    decreases n,
{
    if n > 0 {
        lemma_single_ranks(s, n - 1);
    }
}

proof fn lemma_top_straight_exists(s: Set<int>, v: int, n: int)
    requires
        1 <= v <= n,
    ensures
        rank_run(s, v) ==> top_straight(s, n) >= v,
        flush_run(s, v) ==> top_straight_flush(s, n) >= v,
    decreases n,
{
    if n > v {
        lemma_top_straight_exists(s, v, n - 1);
        crate::evaluator::lemma_top_straight_range(s, n - 1);
    }
}

/// A full listing of five ranks, strictly decreasing within `0..13`.
proof fn lemma_top_ranks_five(s: Set<int>, m: int, x1: int, x2: int)
    requires
        top_ranks(s, m, x1, x2, 13, 5).len() == 5,
    ensures
        five_decreasing(top_ranks(s, m, x1, x2, 13, 5)),
{
    lemma_top_ranks_range(s, m, x1, x2, 13, 5);
    lemma_top_ranks_decreasing(s, m, x1, x2, 13, 5);
    let h = top_ranks(s, m, x1, x2, 13, 5);
    assert(0 <= h[4] && h[0] < 13);
    assert forall|i: int| 0 <= i < 4 implies #[trigger] h[i] > h[i + 1] by {
        assert(h[i] > h[i + 1]);
    }
}

proof fn lemma_top_suited_five(s: Set<int>, su: int)
    requires
        top_suited(s, su, 13, 5).len() == 5,
    ensures
        five_decreasing(top_suited(s, su, 13, 5)),
{
    lemma_top_suited_range(s, su, 13, 5);
    lemma_top_suited_decreasing(s, su, 13, 5);
    let h = top_suited(s, su, 13, 5);
    assert(0 <= h[4] && h[0] < 13);
    assert forall|i: int| 0 <= i < 4 implies #[trigger] h[i] > h[i + 1] by {
        assert(h[i] > h[i + 1]);
    }
}

/// Five decreasing ranks spanning four steps are consecutive.
proof fn lemma_run_value(h: Seq<int>) -> (v: int)
    requires
        five_decreasing(h),
        is_run(h),
    ensures
        1 <= v <= 10,
        forall|i: int| 0 <= i < 5 ==> exists|j: int| 0 <= j < 5 && h[j] == #[trigger] run_rank(v, i),
{
    assert(h[0] > h[1] && h[1] > h[2] && h[2] > h[3] && h[3] > h[4]);
    if h[4] == h[0] - 4 {
        let v = h[0] - 2;
        assert(h[1] == h[0] - 1 && h[2] == h[0] - 2 && h[3] == h[0] - 3);
        assert forall|i: int| 0 <= i < 5 implies exists|j: int| 0 <= j < 5 && h[j] == #[trigger] run_rank(v, i) by {
            assert(h[4 - i] == run_rank(v, i));
        }
        v
    } else {
        assert(h[1] == 3 && h[2] == 2 && h[3] == 1 && h[4] == 0);
        assert forall|i: int| 0 <= i < 5 implies exists|j: int| 0 <= j < 5 && h[j] == #[trigger] run_rank(1, i) by {
            if i == 0 {
                assert(h[0] == run_rank(1, i));
            } else {
                assert(h[5 - i] == run_rank(1, i));
            }
        }
        1
    }
}

/// When the five highest held ranks form a straight, the hand has a straight.
proof fn lemma_run_list_rank(s: Set<int>)
    requires
        top_ranks(s, 1, -1, -1, 13, 5).len() == 5,
        is_run(top_ranks(s, 1, -1, -1, 13, 5)),
    ensures
        top_straight(s, 10) > 0,
{
    lemma_top_ranks_five(s, 1, -1, -1);
    lemma_top_ranks_range(s, 1, -1, -1, 13, 5);
    let h = top_ranks(s, 1, -1, -1, 13, 5);
    let v = lemma_run_value(h);
    assert forall|i: int| 0 <= i < 5 implies rank_count(s, #[trigger] run_rank(v, i)) > 0 by {
        let j = choose|j: int| 0 <= j < 5 && h[j] == run_rank(v, i);
        assert(rank_count(s, h[j]) >= 1);
    }
    assert(rank_run(s, v)) by {
        assert(rank_count(s, run_rank(v, 0)) > 0);
        assert(rank_count(s, run_rank(v, 1)) > 0);
        assert(rank_count(s, run_rank(v, 2)) > 0);
        assert(rank_count(s, run_rank(v, 3)) > 0);
        assert(rank_count(s, run_rank(v, 4)) > 0);
    }
    lemma_top_straight_exists(s, v, 10);
}

/// When the five highest ranks of a suit form a straight, the hand has a straight flush.
proof fn lemma_run_list_suit(s: Set<int>, su: int)
    requires
        0 <= su < 4,
        top_suited(s, su, 13, 5).len() == 5,
        is_run(top_suited(s, su, 13, 5)),
    ensures
        top_straight_flush(s, 10) > 0,
{
    lemma_top_suited_five(s, su);
    lemma_top_suited_range(s, su, 13, 5);
    let h = top_suited(s, su, 13, 5);
    let v = lemma_run_value(h);
    assert forall|i: int| 0 <= i < 5 implies holds(s, #[trigger] run_rank(v, i), su) by {
        let j = choose|j: int| 0 <= j < 5 && h[j] == run_rank(v, i);
        assert(holds(s, h[j], su));
    }
    assert(suited_run(s, su, v)) by {
        assert(holds(s, run_rank(v, 0), su));
        assert(holds(s, run_rank(v, 1), su));
        assert(holds(s, run_rank(v, 2), su));
        assert(holds(s, run_rank(v, 3), su));
        assert(holds(s, run_rank(v, 4), su));
    }
    assert(flush_run(s, v));
    lemma_top_straight_exists(s, v, 10);
}

/// A suit with five cards in `s` has five in `t`, and a positive flush index there.
proof fn lemma_suit_flush_kept(s: Set<int>, t: Set<int>, su: int)
    requires
        s.subset_of(t),
        suit_flush_index(s, su) > 0,
    ensures
        suit_flush_index(t, su) > 0,
        top_suited(t, su, 13, 5).len() == 5,
{
    lemma_top_suited_dominance(s, t, su, 13, 5);
    lemma_top_suited_range(t, su, 13, 5);
    lemma_five_rank_index_range(top_suited(t, su, 13, 5));
}

proof fn lemma_flush_index_nonneg(s: Set<int>, su: int)
    ensures
        suit_flush_index(s, su) >= 0,
{
    lemma_top_suited_range(s, su, 13, 5);
    lemma_five_rank_index_range(top_suited(s, su, 13, 5));
}

/// Adding cards never lowers the category of the best hand.
pub proof fn lemma_category_monotone(s: Set<int>, t: Set<int>)
    requires
        s.subset_of(t),
    ensures
        hand_category(s) <= hand_category(t),
{
    lemma_counts_le(s, t);
    lemma_straights_monotone(s, t, 10);
    lemma_top_ranks_dominance(s, t, 4, -1, -1, 13, 1);
    lemma_top_ranks_dominance(s, t, 3, -1, -1, 13, 1);
    lemma_top_ranks_dominance(s, t, 2, -1, -1, 13, 2);
    let trips_s = top_ranks(s, 3, -1, -1, 13, 1);
    let trips_t = top_ranks(t, 3, -1, -1, 13, 1);
    let ts = at(trips_s, 0);
    let tt = at(trips_t, 0);
    let partner_s = top_ranks(s, 2, ts, -1, 13, 1);
    if trips_s.len() > 0 && partner_s.len() > 0 {
        lemma_top_ranks_range(s, 3, -1, -1, 13, 1);
        lemma_top_ranks_range(s, 2, ts, -1, 13, 1);
        lemma_top_ranks_range(t, 3, -1, -1, 13, 1);
        let ps = partner_s[0];
        if tt != ts {
            lemma_top_ranks_exists(t, 2, tt, -1, 13, 1, ts);
        } else {
            lemma_top_ranks_exists(t, 2, tt, -1, 13, 1, ps);
        }
    }
    if flush_index(s) > 0 {
        lemma_flush_index_nonneg(s, 0);
        lemma_flush_index_nonneg(s, 1);
        lemma_flush_index_nonneg(s, 2);
        lemma_flush_index_nonneg(s, 3);
        lemma_flush_index_nonneg(t, 0);
        lemma_flush_index_nonneg(t, 1);
        lemma_flush_index_nonneg(t, 2);
        lemma_flush_index_nonneg(t, 3);
        if suit_flush_index(s, 0) > 0 {
            lemma_suit_flush_kept(s, t, 0);
        } else if suit_flush_index(s, 1) > 0 {
            lemma_suit_flush_kept(s, t, 1);
        } else if suit_flush_index(s, 2) > 0 {
            lemma_suit_flush_kept(s, t, 2);
        } else {
            lemma_suit_flush_kept(s, t, 3);
        }
    }
    lemma_top_ranks_range(s, 2, -1, -1, 13, 2);
    lemma_top_ranks_range(t, 2, -1, -1, 13, 2);
}

/// Entry by entry, the listing of `t` is at least that of `s`, counting a missing entry as 0.
proof fn lemma_at_dominance(s: Set<int>, t: Set<int>, m: int, x1: int, x2: int, k: int, i: int)
    requires
        counts_le(s, t),
    ensures
        at(top_ranks(s, m, x1, x2, 13, k), i) <= at(top_ranks(t, m, x1, x2, 13, k), i),
        0 <= at(top_ranks(s, m, x1, x2, 13, k), i) < 13,
        0 <= at(top_ranks(t, m, x1, x2, 13, k), i) < 13,
{
    lemma_top_ranks_dominance(s, t, m, x1, x2, 13, k);
    lemma_top_ranks_range(s, m, x1, x2, 13, k);
    lemma_top_ranks_range(t, m, x1, x2, 13, k);
}

/// An entry of a listing that leaves out `x` is not `x`, or is a missing entry.
proof fn lemma_at_excluded(s: Set<int>, m: int, x1: int, x2: int, k: int, i: int)
    ensures
        at(top_ranks(s, m, x1, x2, 13, k), i) != x1 || at(top_ranks(s, m, x1, x2, 13, k), i) == 0,
        at(top_ranks(s, m, x1, x2, 13, k), i) != x2 || at(top_ranks(s, m, x1, x2, 13, k), i) == 0,
        0 <= i < top_ranks(s, m, x1, x2, 13, k).len() ==> rank_count(s, at(top_ranks(s, m, x1, x2, 13, k), i)) >= m,
{
    lemma_top_ranks_range(s, m, x1, x2, 13, k);
}

/// Past the end of a listing, entries read as 0; inside, they decrease.
proof fn lemma_at_order(s: Set<int>, m: int, x1: int, x2: int, k: int, i: int)
    requires
        0 <= i,
    ensures
        i + 1 < top_ranks(s, m, x1, x2, 13, k).len() ==> at(top_ranks(s, m, x1, x2, 13, k), i) > at(top_ranks(s, m, x1, x2, 13, k), i + 1),
        i + 1 >= top_ranks(s, m, x1, x2, 13, k).len() ==> at(top_ranks(s, m, x1, x2, 13, k), i + 1) == 0,
{
    lemma_top_ranks_decreasing(s, m, x1, x2, 13, k);
}

proof fn lemma_binomial_facts()
    ensures
        binomial(11, 2) == 55,
        binomial(10, 2) == 45,
        binomial(11, 3) == 165,
{
    lemma_binomial_closed(11);
    lemma_binomial_closed(10);
}

proof fn lemma_quads_monotone(s: Set<int>, t: Set<int>)
    requires
        s.subset_of(t),
        hand_category(s) == 8,
        hand_category(t) == 8,
    ensures
        hand_value(s) <= hand_value(t),
{
    lemma_counts_le(s, t);
    lemma_at_dominance(s, t, 4, -1, -1, 1, 0);
    let qs = at(top_ranks(s, 4, -1, -1, 13, 1), 0);
    let qt = at(top_ranks(t, 4, -1, -1, 13, 1), 0);
    lemma_at_dominance(s, t, 1, qs, -1, 1, 0);
    lemma_at_dominance(t, t, 1, qt, -1, 1, 0);
    lemma_at_excluded(s, 1, qs, -1, 1, 0);
}

proof fn lemma_full_house_monotone(s: Set<int>, t: Set<int>)
    requires
        s.subset_of(t),
        hand_category(s) == 7,
        hand_category(t) == 7,
    ensures
        hand_value(s) <= hand_value(t),
{
    lemma_counts_le(s, t);
    lemma_at_dominance(s, t, 3, -1, -1, 1, 0);
    let ts = at(top_ranks(s, 3, -1, -1, 13, 1), 0);
    let tt = at(top_ranks(t, 3, -1, -1, 13, 1), 0);
    lemma_at_dominance(s, t, 2, ts, -1, 1, 0);
    lemma_at_dominance(t, t, 2, tt, -1, 1, 0);
    lemma_at_excluded(s, 2, ts, -1, 1, 0);
}

proof fn lemma_trips_monotone(s: Set<int>, t: Set<int>)
    requires
        s.subset_of(t),
        hand_category(s) == 4,
        hand_category(t) == 4,
    ensures
        hand_value(s) <= hand_value(t),
{
    lemma_counts_le(s, t);
    lemma_binomial_facts();
    lemma_at_dominance(s, t, 3, -1, -1, 1, 0);
    let ts = at(top_ranks(s, 3, -1, -1, 13, 1), 0);
    let tt = at(top_ranks(t, 3, -1, -1, 13, 1), 0);
    lemma_at_dominance(s, t, 1, ts, -1, 2, 0);
    lemma_at_dominance(s, t, 1, ts, -1, 2, 1);
    lemma_at_dominance(t, t, 1, tt, -1, 2, 0);
    lemma_at_dominance(t, t, 1, tt, -1, 2, 1);
    let k = top_ranks(s, 1, ts, -1, 13, 2);
    let kt = top_ranks(t, 1, tt, -1, 13, 2);
    lemma_at_excluded(s, 1, ts, -1, 2, 0);
    lemma_at_excluded(s, 1, ts, -1, 2, 1);
    lemma_at_order(s, 1, ts, -1, 2, 0);
    let a = skip_rank(at(k, 0), ts);
    let b = skip_rank(at(k, 1), ts);
    assert(a <= 11);
    assert(b <= 10 || (b == 0));
    if b > 0 {
        assert(a > b);
    }
    lemma_binomial_monotone(a, 11, 2);
    lemma_binomial_nonneg(skip_rank(at(kt, 0), tt), 2);
    if ts == tt {
        lemma_binomial_monotone(a, skip_rank(at(kt, 0), tt), 2);
    } else {
        assert(ts < tt);
    }
}

proof fn lemma_two_pair_monotone(s: Set<int>, t: Set<int>)
    requires
        s.subset_of(t),
        hand_category(s) == 3,
        hand_category(t) == 3,
    ensures
        hand_value(s) <= hand_value(t),
{
    lemma_counts_le(s, t);
    lemma_at_dominance(s, t, 2, -1, -1, 2, 0);
    lemma_at_dominance(s, t, 2, -1, -1, 2, 1);
    lemma_at_order(s, 2, -1, -1, 2, 0);
    lemma_at_order(t, 2, -1, -1, 2, 0);
    let p1 = at(top_ranks(s, 2, -1, -1, 13, 2), 0);
    let p2 = at(top_ranks(s, 2, -1, -1, 13, 2), 1);
    let q1 = at(top_ranks(t, 2, -1, -1, 13, 2), 0);
    let q2 = at(top_ranks(t, 2, -1, -1, 13, 2), 1);
    assert(p1 > p2 && q1 > q2);
    lemma_at_dominance(s, t, 1, p1, p2, 1, 0);
    lemma_at_dominance(t, t, 1, q1, q2, 1, 0);
    lemma_at_excluded(s, 1, p1, p2, 1, 0);
    lemma_at_excluded(t, 1, q1, q2, 1, 0);
    let ks = at(top_ranks(s, 1, p1, p2, 13, 1), 0);
    let kt = at(top_ranks(t, 1, q1, q2, 13, 1), 0);
    assert(skip_rank(skip_rank(ks, p1), p2) <= 10);
    assert(skip_rank(skip_rank(kt, q1), q2) >= 0);
    lemma_binomial_monotone(p1, q1, 2);
    if p1 < q1 {
        lemma_binomial_monotone(p1 + 1, q1, 2);
        assert(binomial(p1 + 1, 2) == binomial(p1, 2) + binomial(p1, 1));
        lemma_binomial_closed_one(p1);
    }
}

proof fn lemma_pair_monotone(s: Set<int>, t: Set<int>)
    requires
        s.subset_of(t),
        hand_category(s) == 2,
        hand_category(t) == 2,
    ensures
        hand_value(s) <= hand_value(t),
{
    lemma_counts_le(s, t);
    lemma_binomial_facts();
    lemma_at_dominance(s, t, 2, -1, -1, 2, 0);
    let ps = at(top_ranks(s, 2, -1, -1, 13, 2), 0);
    let pt = at(top_ranks(t, 2, -1, -1, 13, 2), 0);
    let k = top_ranks(s, 1, ps, -1, 13, 3);
    let kt = top_ranks(t, 1, pt, -1, 13, 3);
    lemma_at_dominance(s, t, 1, ps, -1, 3, 0);
    lemma_at_dominance(s, t, 1, ps, -1, 3, 1);
    lemma_at_dominance(s, t, 1, ps, -1, 3, 2);
    lemma_at_dominance(t, t, 1, pt, -1, 3, 0);
    lemma_at_dominance(t, t, 1, pt, -1, 3, 1);
    lemma_at_dominance(t, t, 1, pt, -1, 3, 2);
    lemma_at_excluded(s, 1, ps, -1, 3, 0);
    lemma_at_excluded(s, 1, ps, -1, 3, 1);
    lemma_at_excluded(s, 1, ps, -1, 3, 2);
    lemma_at_order(s, 1, ps, -1, 3, 0);
    lemma_at_order(s, 1, ps, -1, 3, 1);
    let a = skip_rank(at(k, 0), ps);
    let b = skip_rank(at(k, 1), ps);
    let c = skip_rank(at(k, 2), ps);
    assert(a <= 11);
    if b > 0 {
        assert(a > b);
    }
    if c > 0 {
        assert(b > c);
    }
    lemma_binomial_monotone(a, 11, 3);
    lemma_binomial_monotone(if b <= 10 { b } else { 10 }, 10, 2);
    lemma_binomial_nonneg(skip_rank(at(kt, 0), pt), 3);
    lemma_binomial_nonneg(skip_rank(at(kt, 1), pt), 2);
    if ps == pt {
        lemma_binomial_monotone(a, skip_rank(at(kt, 0), pt), 3);
        lemma_binomial_monotone(b, skip_rank(at(kt, 1), pt), 2);
    } else {
        assert(ps < pt);
    }
}

proof fn lemma_flush_monotone(s: Set<int>, t: Set<int>)
    requires
        s.subset_of(t),
        hand_category(s) == 6,
        hand_category(t) == 6,
    ensures
        hand_value(s) <= hand_value(t),
{
    crate::evaluator::lemma_top_straight_range(s, 10);
    crate::evaluator::lemma_top_straight_range(t, 10);
    lemma_suit_flush_monotone(s, t, 0);
    lemma_suit_flush_monotone(s, t, 1);
    lemma_suit_flush_monotone(s, t, 2);
    lemma_suit_flush_monotone(s, t, 3);
}

proof fn lemma_suit_flush_monotone(s: Set<int>, t: Set<int>, su: int)
    requires
        s.subset_of(t),
        0 <= su < 4,
        top_straight_flush(s, 10) == 0,
        top_straight_flush(t, 10) == 0,
    ensures
        suit_flush_index(s, su) <= suit_flush_index(t, su),
{
    lemma_flush_index_nonneg(t, su);
    if suit_flush_index(s, su) > 0 {
        lemma_suit_flush_kept(s, t, su);
        lemma_top_suited_five(s, su);
        lemma_top_suited_five(t, su);
        lemma_top_suited_dominance(s, t, su, 13, 5);
        if is_run(top_suited(s, su, 13, 5)) {
            lemma_run_list_suit(s, su);
        }
        if is_run(top_suited(t, su, 13, 5)) {
            lemma_run_list_suit(t, su);
        }
        let h = top_suited(s, su, 13, 5);
        let g = top_suited(t, su, 13, 5);
        assert forall|i: int| 0 <= i < 5 implies #[trigger] h[i] <= g[i] by {
            assert(top_suited(s, su, 13, 5)[i] <= top_suited(t, su, 13, 5)[i]);
        }
        lemma_five_rank_index_monotone(h, g);
    }
}

/// With no rank held twice and at least five cards, the five highest ranks are all there.
proof fn lemma_high_card_full(s: Set<int>)
    requires
        s.subset_of(full_deck()),
        s.len() >= 5,
        top_ranks(s, 2, -1, -1, 13, 2).len() == 0,
    ensures
        top_ranks(s, 1, -1, -1, 13, 5).len() == 5,
{
    assert forall|r: int| 0 <= r < 13 implies #[trigger] rank_count(s, r) <= 1 by {
        if rank_count(s, r) >= 2 {
            lemma_top_ranks_exists(s, 2, -1, -1, 13, 2, r);
        }
    }
    lemma_single_ranks(s, 13);
    lemma_len_rank_total(s);
    lemma_top_ranks_len(s, 1, -1, -1, 13, 5);
}

proof fn lemma_high_card_monotone(s: Set<int>, t: Set<int>)
    requires
        s.subset_of(t),
        t.subset_of(full_deck()),
        s.len() >= 5,
        hand_category(s) == 1,
        hand_category(t) == 1,
    ensures
        hand_value(s) <= hand_value(t),
{
    lemma_counts_le(s, t);
    lemma_len_rank_total(t);
    vstd::set_lib::lemma_len_subset(s, t);
    assert(s.subset_of(full_deck()));
    lemma_top_ranks_range(s, 2, -1, -1, 13, 2);
    lemma_top_ranks_range(t, 2, -1, -1, 13, 2);
    lemma_high_card_full(s);
    lemma_high_card_full(t);
    lemma_top_ranks_five(s, 1, -1, -1);
    lemma_top_ranks_five(t, 1, -1, -1);
    lemma_top_ranks_dominance(s, t, 1, -1, -1, 13, 5);
    if is_run(top_ranks(s, 1, -1, -1, 13, 5)) {
        lemma_run_list_rank(s);
    }
    if is_run(top_ranks(t, 1, -1, -1, 13, 5)) {
        lemma_run_list_rank(t);
    }
    let h = top_ranks(s, 1, -1, -1, 13, 5);
    let g = top_ranks(t, 1, -1, -1, 13, 5);
    assert forall|i: int| 0 <= i < 5 implies #[trigger] h[i] <= g[i] by {
        assert(top_ranks(s, 1, -1, -1, 13, 5)[i] <= top_ranks(t, 1, -1, -1, 13, 5)[i]);
    }
    lemma_five_rank_index_monotone(h, g);
}

/// Adding cards to a hand of five or more never lowers the rank of its best
/// five-card hand.
pub proof fn lemma_hand_value_monotone(s: Set<int>, t: Set<int>)
    requires
        s.subset_of(t),
        t.subset_of(full_deck()),
        s.len() >= 5,
    ensures
        hand_value(s) <= hand_value(t),
{
    lemma_category_monotone(s, t);
    lemma_hand_value_in_category(s);
    lemma_hand_value_in_category(t);
    let c = hand_category(s);
    if c == hand_category(t) {
        if c == 9 {
            lemma_straights_monotone(s, t, 10);
        } else if c == 8 {
            lemma_quads_monotone(s, t);
        } else if c == 7 {
            lemma_full_house_monotone(s, t);
        } else if c == 6 {
            lemma_flush_monotone(s, t);
        } else if c == 5 {
            lemma_straights_monotone(s, t, 10);
        } else if c == 4 {
            lemma_trips_monotone(s, t);
        } else if c == 3 {
            lemma_two_pair_monotone(s, t);
        } else if c == 2 {
            lemma_pair_monotone(s, t);
        } else {
            lemma_high_card_monotone(s, t);
        }
    }
}

// ---------------------------------------------------------------------------
// The best five cards: some five cards of a hand rank as the whole hand.
// ---------------------------------------------------------------------------

/// Rank `r` qualifies for `top_ranks(s, m, x1, x2, ..)`.
pub open spec fn qualifies(s: Set<int>, m: int, x1: int, x2: int, r: int) -> bool {
    rank_count(s, r) >= m && r != x1 && r != x2
}

/// A qualifying rank at or above the last listed one (or any, when the list is short) is listed.
proof fn lemma_top_ranks_complete(s: Set<int>, m: int, x1: int, x2: int, n: int, k: int, r: int)
    requires
        0 <= r < n,
        qualifies(s, m, x1, x2, r),
        top_ranks(s, m, x1, x2, n, k).len() < k || (top_ranks(s, m, x1, x2, n, k).len() >= 1
            && r >= top_ranks(s, m, x1, x2, n, k)[top_ranks(s, m, x1, x2, n, k).len() - 1]),
    ensures
        exists|i: int|
            0 <= i < top_ranks(s, m, x1, x2, n, k).len() && top_ranks(s, m, x1, x2, n, k)[i] == r,
    decreases n,
{
    let list = top_ranks(s, m, x1, x2, n, k);
    if n - 1 == r {
        assert(list[0] == r);
    } else if qualifies(s, m, x1, x2, n - 1) {
        let rest = top_ranks(s, m, x1, x2, n - 1, k - 1);
        assert(list == seq![n - 1] + rest);
        lemma_top_ranks_range(s, m, x1, x2, n, k);
        if rest.len() == 0 {
            assert(list.len() == 1);
            assert(list[0] == n - 1);
        } else {
            assert(list[list.len() - 1] == rest[rest.len() - 1]);
        }
        lemma_top_ranks_complete(s, m, x1, x2, n - 1, k - 1, r);
        let i = choose|i: int| 0 <= i < rest.len() && rest[i] == r;
        assert(list[i + 1] == r);
    } else {
        lemma_top_ranks_complete(s, m, x1, x2, n - 1, k, r);
    }
}

/// Two hands that qualify the same ranks from `lo` up, the second with none
/// below `lo`, list the same ranks when the first lists `k` ranks from `lo` up.
proof fn lemma_top_ranks_agree(s: Set<int>, t: Set<int>, m: int, x1: int, x2: int, n: int, k: int, lo: int)
    requires
        forall|r: int| lo <= r < n ==> #[trigger] qualifies(s, m, x1, x2, r) == qualifies(t, m, x1, x2, r),
        forall|r: int| 0 <= r < lo ==> !#[trigger] qualifies(t, m, x1, x2, r),
        top_ranks(s, m, x1, x2, n, k).len() == k,
        forall|i: int| 0 <= i < k ==> #[trigger] top_ranks(s, m, x1, x2, n, k)[i] >= lo,
    ensures
        top_ranks(t, m, x1, x2, n, k) == top_ranks(s, m, x1, x2, n, k),
    decreases n,
{
    lemma_top_ranks_range(s, m, x1, x2, n, k);
    if n > 0 && k > 0 {
        if n - 1 >= lo {
            assert(qualifies(s, m, x1, x2, n - 1) == qualifies(t, m, x1, x2, n - 1));
            if qualifies(s, m, x1, x2, n - 1) {
                let rest = top_ranks(s, m, x1, x2, n - 1, k - 1);
                assert(top_ranks(s, m, x1, x2, n, k) == seq![n - 1] + rest);
                assert forall|i: int| 0 <= i < k - 1 implies #[trigger] rest[i] >= lo by {
                    assert(rest[i] == top_ranks(s, m, x1, x2, n, k)[i + 1]);
                }
                lemma_top_ranks_agree(s, t, m, x1, x2, n - 1, k - 1, lo);
            } else {
                lemma_top_ranks_agree(s, t, m, x1, x2, n - 1, k, lo);
            }
        } else {
            assert(top_ranks(s, m, x1, x2, n, k)[0] >= lo);
        }
    }
}

/// The same for one suit.
proof fn lemma_top_suited_complete(s: Set<int>, su: int, n: int, k: int, r: int)
    requires
        0 <= r < n,
        holds(s, r, su),
        top_suited(s, su, n, k).len() < k || (top_suited(s, su, n, k).len() >= 1 && r
            >= top_suited(s, su, n, k)[top_suited(s, su, n, k).len() - 1]),
    ensures
        exists|i: int| 0 <= i < top_suited(s, su, n, k).len() && top_suited(s, su, n, k)[i] == r,
    decreases n,
{
    let list = top_suited(s, su, n, k);
    if n - 1 == r {
        assert(list[0] == r);
    } else if holds(s, n - 1, su) {
        let rest = top_suited(s, su, n - 1, k - 1);
        assert(list == seq![n - 1] + rest);
        lemma_top_suited_range(s, su, n, k);
        if rest.len() == 0 {
            assert(list.len() == 1);
            assert(list[0] == n - 1);
        } else {
            assert(list[list.len() - 1] == rest[rest.len() - 1]);
        }
        lemma_top_suited_complete(s, su, n - 1, k - 1, r);
        let i = choose|i: int| 0 <= i < rest.len() && rest[i] == r;
        assert(list[i + 1] == r);
    } else {
        lemma_top_suited_complete(s, su, n - 1, k, r);
    }
}

proof fn lemma_top_suited_agree(s: Set<int>, t: Set<int>, su: int, n: int, k: int, lo: int)
    requires
        forall|r: int| lo <= r < n ==> #[trigger] holds(s, r, su) == holds(t, r, su),
        forall|r: int| 0 <= r < lo ==> !#[trigger] holds(t, r, su),
        top_suited(s, su, n, k).len() == k,
        forall|i: int| 0 <= i < k ==> #[trigger] top_suited(s, su, n, k)[i] >= lo,
    ensures
        top_suited(t, su, n, k) == top_suited(s, su, n, k),
    decreases n,
{
    lemma_top_suited_range(s, su, n, k);
    if n > 0 && k > 0 {
        if n - 1 >= lo {
            assert(holds(s, n - 1, su) == holds(t, n - 1, su));
            if holds(s, n - 1, su) {
                let rest = top_suited(s, su, n - 1, k - 1);
                assert(top_suited(s, su, n, k) == seq![n - 1] + rest);
                assert forall|i: int| 0 <= i < k - 1 implies #[trigger] rest[i] >= lo by {
                    assert(rest[i] == top_suited(s, su, n, k)[i + 1]);
                }
                lemma_top_suited_agree(s, t, su, n - 1, k - 1, lo);
            } else {
                lemma_top_suited_agree(s, t, su, n - 1, k, lo);
            }
        } else {
            assert(top_suited(s, su, n, k)[0] >= lo);
        }
    }
}

/// The cards of ranks `x1` and `x2`, below `n`.
spec fn excluded_total(s: Set<int>, x1: int, x2: int, n: int) -> int {
    (if 0 <= x1 < n { rank_count(s, x1) } else { 0 }) + (if 0 <= x2 < n && x2 != x1 {
        rank_count(s, x2)
    } else {
        0
    })
}

/// With at most `cap` cards of each other rank, the cards below `n` are at
/// most those of `x1` and `x2` and `cap` for each other rank held.
proof fn lemma_total_bound(s: Set<int>, x1: int, x2: int, n: int, cap: int)
    requires
        0 <= n <= 13,
        0 <= cap,
        forall|r: int| 0 <= r < n && r != x1 && r != x2 ==> #[trigger] rank_count(s, r) <= cap,
    ensures
        rank_total(s, n) <= excluded_total(s, x1, x2, n) + cap * qual_count(s, 1, x1, x2, n),
    decreases n,
{
    if n > 0 {
        lemma_total_bound(s, x1, x2, n - 1, cap);
        let q0 = qual_count(s, 1, x1, x2, n - 1);
        let q1 = qual_count(s, 1, x1, x2, n);
        assert(cap * q1 == cap * q0 + cap * (q1 - q0)) by (nonlinear_arith);
        assert(rank_count(s, n - 1) >= 0);
        let r = n - 1;
        if r == x1 || r == x2 {
            assert(q1 == q0);
            assert(excluded_total(s, x1, x2, n) == excluded_total(s, x1, x2, n - 1) + rank_count(s, r));
        } else {
            assert(excluded_total(s, x1, x2, n) == excluded_total(s, x1, x2, n - 1));
            if rank_count(s, r) >= 1 {
                assert(q1 - q0 == 1);
                assert(cap * (q1 - q0) == cap) by (nonlinear_arith)
                    requires
                        q1 - q0 == 1,
                ;
            } else {
                assert(cap * (q1 - q0) >= 0) by (nonlinear_arith)
                    requires
                        q1 - q0 >= 0,
                        cap >= 0,
                ;
            }
        }
    }
}

/// Two different suits hold rank `r` when it is held at least twice.
proof fn lemma_two_suits(s: Set<int>, r: int) -> (pair: (int, int))
    requires
        rank_count(s, r) >= 2,
    ensures
        0 <= pair.0 < pair.1 < 4,
        holds(s, r, pair.0),
        holds(s, r, pair.1),
{
    if holds(s, r, 0) {
        if holds(s, r, 1) {
            (0, 1)
        } else if holds(s, r, 2) {
            (0, 2)
        } else {
            (0, 3)
        }
    } else if holds(s, r, 1) {
        if holds(s, r, 2) {
            (1, 2)
        } else {
            (1, 3)
        }
    } else {
        (2, 3)
    }
}

/// A suit that holds rank `r`, when it is held.
proof fn lemma_one_suit(s: Set<int>, r: int) -> (su: int)
    requires
        rank_count(s, r) >= 1,
    ensures
        0 <= su < 4,
        holds(s, r, su),
{
    if holds(s, r, 0) {
        0
    } else if holds(s, r, 1) {
        1
    } else if holds(s, r, 2) {
        2
    } else {
        3
    }
}

/// Five distinct numbers make a set of five.
proof fn lemma_five_set(a: int, b: int, c: int, d: int, e: int)
    requires
        a != b && a != c && a != d && a != e && b != c && b != d && b != e && c != d && c != e && d != e,
    ensures
        set![a, b, c, d, e].finite(),
        set![a, b, c, d, e].len() == 5,
{
    let s0 = Set::<int>::empty();
    let s1 = s0.insert(a);
    let s2 = s1.insert(b);
    let s3 = s2.insert(c);
    let s4 = s3.insert(d);
    assert(!s1.contains(b));
    assert(!s2.contains(c));
    assert(!s3.contains(d));
    assert(!s4.contains(e));
    assert(set![a, b, c, d, e] == s4.insert(e));
}

/// When `t` qualifies exactly the ranks that `s` lists (a full list), `t` lists them too.
proof fn lemma_list_matches(s: Set<int>, t: Set<int>, m: int, x1: int, x2: int, k: int)
    requires
        k >= 1,
        top_ranks(s, m, x1, x2, 13, k).len() == k,
        forall|r: int| 0 <= r < 13 ==> #[trigger] qualifies(t, m, x1, x2, r) == top_ranks(s, m, x1, x2, 13, k).contains(r),
    ensures
        top_ranks(t, m, x1, x2, 13, k) == top_ranks(s, m, x1, x2, 13, k),
{
    let list = top_ranks(s, m, x1, x2, 13, k);
    let lo = list[k - 1];
    lemma_top_ranks_range(s, m, x1, x2, 13, k);
    lemma_top_ranks_decreasing(s, m, x1, x2, 13, k);
    assert forall|i: int| 0 <= i < k implies #[trigger] list[i] >= lo by {
        if i < k - 1 {
            assert(list[i] > list[k - 1]);
        }
    }
    assert forall|r: int| lo <= r < 13 implies #[trigger] qualifies(s, m, x1, x2, r) == qualifies(t, m, x1, x2, r) by {
        if qualifies(s, m, x1, x2, r) {
            lemma_top_ranks_complete(s, m, x1, x2, 13, k, r);
        }
        if list.contains(r) {
            let i = choose|i: int| 0 <= i < list.len() && list[i] == r;
            assert(qualifies(s, m, x1, x2, list[i]));
        }
    }
    assert forall|r: int| 0 <= r < lo implies !#[trigger] qualifies(t, m, x1, x2, r) by {
        if list.contains(r) {
            let i = choose|i: int| 0 <= i < list.len() && list[i] == r;
            assert(list[i] >= lo);
        }
    }
    lemma_top_ranks_agree(s, t, m, x1, x2, 13, k, lo);
}

proof fn lemma_suited_matches(s: Set<int>, t: Set<int>, su: int)
    requires
        top_suited(s, su, 13, 5).len() == 5,
        forall|r: int| 0 <= r < 13 ==> #[trigger] holds(t, r, su) == top_suited(s, su, 13, 5).contains(r),
    ensures
        top_suited(t, su, 13, 5) == top_suited(s, su, 13, 5),
{
    let list = top_suited(s, su, 13, 5);
    let lo = list[4];
    lemma_top_suited_range(s, su, 13, 5);
    lemma_top_suited_decreasing(s, su, 13, 5);
    assert forall|i: int| 0 <= i < 5 implies #[trigger] list[i] >= lo by {
        if i < 4 {
            assert(list[i] > list[4]);
        }
    }
    assert forall|r: int| lo <= r < 13 implies #[trigger] holds(s, r, su) == holds(t, r, su) by {
        if holds(s, r, su) {
            lemma_top_suited_complete(s, su, 13, 5, r);
        }
        if list.contains(r) {
            let i = choose|i: int| 0 <= i < list.len() && list[i] == r;
            assert(holds(s, list[i], su));
        }
    }
    assert forall|r: int| 0 <= r < lo implies !#[trigger] holds(t, r, su) by {
        if list.contains(r) {
            let i = choose|i: int| 0 <= i < list.len() && list[i] == r;
            assert(list[i] >= lo);
        }
    }
    lemma_top_suited_agree(s, t, su, 13, 5, lo);
}

/// The five cards `(r_i, s_i)`, as a set of card numbers.
pub open spec fn five_cards(c: Seq<(int, int)>) -> Set<int> {
    set![
        card_number(c[0].0, c[0].1),
        card_number(c[1].0, c[1].1),
        card_number(c[2].0, c[2].1),
        card_number(c[3].0, c[3].1),
        card_number(c[4].0, c[4].1),
    ]
}

/// How many of the five cards `c` have rank `r`.
pub open spec fn rank_uses(c: Seq<(int, int)>, r: int) -> int {
    (if c[0].0 == r { 1int } else { 0int }) + (if c[1].0 == r { 1int } else { 0int }) + (if c[2].0
        == r { 1int } else { 0int }) + (if c[3].0 == r { 1int } else { 0int }) + (if c[4].0 == r {
        1int
    } else {
        0int
    })
}

/// Five distinct cards held in `s` make five cards of `s`, and hold each rank
/// as often as the list names it.
proof fn lemma_five_from(s: Set<int>, c: Seq<(int, int)>)
    requires
        c.len() == 5,
        forall|i: int| 0 <= i < 5 ==> 0 <= #[trigger] c[i].0 < 13 && 0 <= c[i].1 < 4,
        forall|i: int, j: int| 0 <= i < j < 5 ==> #[trigger] c[i] != #[trigger] c[j],
        forall|i: int| 0 <= i < 5 ==> holds(s, #[trigger] c[i].0, c[i].1),
    ensures
        five_cards(c).finite(),
        five_cards(c).len() == 5,
        five_cards(c).subset_of(s),
        forall|r: int, su: int|
            0 <= r < 13 && 0 <= su < 4 ==> (#[trigger] holds(five_cards(c), r, su) <==> (c[0] == (r, su)
                || c[1] == (r, su) || c[2] == (r, su) || c[3] == (r, su) || c[4] == (r, su))),
        forall|r: int| 0 <= r < 13 ==> #[trigger] rank_count(five_cards(c), r) == rank_uses(c, r),
{
    let n = Seq::new(5, |i: int| card_number(c[i].0, c[i].1));
    assert forall|i: int, j: int| 0 <= i < j < 5 implies n[i] != n[j] by {
        assert(c[i] != c[j]);
    }
    lemma_five_set(n[0], n[1], n[2], n[3], n[4]);
    assert(holds(s, c[0].0, c[0].1) && holds(s, c[1].0, c[1].1) && holds(s, c[2].0, c[2].1));
    assert(holds(s, c[3].0, c[3].1) && holds(s, c[4].0, c[4].1));
    let t = five_cards(c);
    assert forall|r: int, su: int| 0 <= r < 13 && 0 <= su < 4 implies (#[trigger] holds(t, r, su) <==> (
    c[0] == (r, su) || c[1] == (r, su) || c[2] == (r, su) || c[3] == (r, su) || c[4] == (r, su))) by {
        let x = card_number(r, su);
        assert forall|i: int| 0 <= i < 5 && n[i] == x implies c[i] == (r, su) by {
            assert(0 <= c[i].0 < 13 && 0 <= c[i].1 < 4);
        }
        assert(x == n[0] ==> c[0] == (r, su));
        assert(x == n[1] ==> c[1] == (r, su));
        assert(x == n[2] ==> c[2] == (r, su));
        assert(x == n[3] ==> c[3] == (r, su));
        assert(x == n[4] ==> c[4] == (r, su));
    }
    assert forall|r: int| 0 <= r < 13 implies #[trigger] rank_count(t, r) == rank_uses(c, r) by {
        assert(holds(t, r, 0) <==> (c[0] == (r, 0int) || c[1] == (r, 0int) || c[2] == (r, 0int) || c[3] == (r, 0int) || c[4] == (r, 0int)));
        assert(holds(t, r, 1) <==> (c[0] == (r, 1int) || c[1] == (r, 1int) || c[2] == (r, 1int) || c[3] == (r, 1int) || c[4] == (r, 1int)));
        assert(holds(t, r, 2) <==> (c[0] == (r, 2int) || c[1] == (r, 2int) || c[2] == (r, 2int) || c[3] == (r, 2int) || c[4] == (r, 2int)));
        assert(holds(t, r, 3) <==> (c[0] == (r, 3int) || c[1] == (r, 3int) || c[2] == (r, 3int) || c[3] == (r, 3int) || c[4] == (r, 3int)));
        assert(0 <= c[0].1 < 4 && 0 <= c[1].1 < 4 && 0 <= c[2].1 < 4 && 0 <= c[3].1 < 4 && 0 <= c[4].1 < 4);
        assert(c[0] != c[1] && c[0] != c[2] && c[0] != c[3] && c[0] != c[4] && c[1] != c[2]);
        assert(c[1] != c[3] && c[1] != c[4] && c[2] != c[3] && c[2] != c[4] && c[3] != c[4]);
    }
}

/// A listing contains exactly its entries.
proof fn lemma_listed(q: Seq<int>, r: int)
    ensures
        q.contains(r) <==> exists|i: int| 0 <= i < q.len() && q[i] == r,
{
}

/// Four of a kind: the four cards and the best kicker.
proof fn lemma_best_quads(s: Set<int>) -> (t: Set<int>)
    requires
        s.subset_of(full_deck()),
        s.len() >= 5,
        hand_category(s) == 8,
    ensures
        t.subset_of(s),
        t.len() == 5,
        hand_value(t) == hand_value(s),
{
    let quads = top_ranks(s, 4, -1, -1, 13, 1);
    lemma_top_ranks_range(s, 4, -1, -1, 13, 1);
    let q = quads[0];
    lemma_len_rank_total(s);
    lemma_total_bound(s, q, -1, 13, 4);
    lemma_top_ranks_len(s, 1, q, -1, 13, 1);
    lemma_top_ranks_range(s, 1, q, -1, 13, 1);
    let kl = top_ranks(s, 1, q, -1, 13, 1);
    let k = kl[0];
    let sk = lemma_one_suit(s, k);
    let c = seq![(q, 0int), (q, 1int), (q, 2int), (q, 3int), (k, sk)];
    lemma_five_from(s, c);
    let t = five_cards(c);
    assert forall|r: int| 0 <= r < 13 implies #[trigger] qualifies(t, 4, -1, -1, r) == quads.contains(r) by {
        lemma_listed(quads, r);
        assert(rank_count(t, r) == rank_uses(c, r));
    }
    lemma_list_matches(s, t, 4, -1, -1, 1);
    assert forall|r: int| 0 <= r < 13 implies #[trigger] qualifies(t, 1, q, -1, r) == kl.contains(r) by {
        lemma_listed(kl, r);
        assert(rank_count(t, r) == rank_uses(c, r));
    }
    lemma_list_matches(s, t, 1, q, -1, 1);
    lemma_category_monotone(t, s);
    t
}

/// Three different suits hold rank `r` when it is held at least three times.
proof fn lemma_three_suits(s: Set<int>, r: int) -> (suits: (int, int, int))
    requires
        rank_count(s, r) >= 3,
    ensures
        0 <= suits.0 < suits.1 < suits.2 < 4,
        holds(s, r, suits.0),
        holds(s, r, suits.1),
        holds(s, r, suits.2),
{
    if !holds(s, r, 0) {
        (1, 2, 3)
    } else if !holds(s, r, 1) {
        (0, 2, 3)
    } else if !holds(s, r, 2) {
        (0, 1, 3)
    } else {
        (0, 1, 2)
    }
}

/// Hands that qualify the same ranks list the same ranks.
proof fn lemma_top_ranks_same(s: Set<int>, t: Set<int>, m: int, x1: int, x2: int, n: int, k: int)
    requires
        forall|r: int| 0 <= r < n ==> #[trigger] qualifies(s, m, x1, x2, r) == qualifies(t, m, x1, x2, r),
    ensures
        top_ranks(t, m, x1, x2, n, k) == top_ranks(s, m, x1, x2, n, k),
    decreases n,
{
    if n > 0 && k > 0 {
        assert(qualifies(s, m, x1, x2, n - 1) == qualifies(t, m, x1, x2, n - 1));
        lemma_top_ranks_same(s, t, m, x1, x2, n - 1, k);
        lemma_top_ranks_same(s, t, m, x1, x2, n - 1, k - 1);
    }
}

/// Three of a kind and a pair.
proof fn lemma_best_full_house(s: Set<int>) -> (t: Set<int>)
    requires
        s.subset_of(full_deck()),
        s.len() >= 5,
        hand_category(s) == 7,
    ensures
        t.subset_of(s),
        t.len() == 5,
        hand_value(t) == hand_value(s),
{
    let trips = top_ranks(s, 3, -1, -1, 13, 1);
    lemma_top_ranks_range(s, 3, -1, -1, 13, 1);
    let t0 = trips[0];
    let partner = top_ranks(s, 2, t0, -1, 13, 1);
    lemma_top_ranks_range(s, 2, t0, -1, 13, 1);
    let p = partner[0];
    let (a, b, e) = lemma_three_suits(s, t0);
    let (d, f) = lemma_two_suits(s, p);
    let c = seq![(t0, a), (t0, b), (t0, e), (p, d), (p, f)];
    lemma_five_from(s, c);
    let t = five_cards(c);
    assert forall|r: int| 0 <= r < 13 implies #[trigger] qualifies(t, 3, -1, -1, r) == trips.contains(r) by {
        lemma_listed(trips, r);
        assert(rank_count(t, r) == rank_uses(c, r));
    }
    lemma_list_matches(s, t, 3, -1, -1, 1);
    assert forall|r: int| 0 <= r < 13 implies #[trigger] qualifies(t, 2, t0, -1, r) == partner.contains(r) by {
        lemma_listed(partner, r);
        assert(rank_count(t, r) == rank_uses(c, r));
    }
    lemma_list_matches(s, t, 2, t0, -1, 1);
    lemma_category_monotone(t, s);
    t
}

/// Three of a kind and the two best kickers.
proof fn lemma_best_trips(s: Set<int>) -> (t: Set<int>)
    requires
        s.subset_of(full_deck()),
        s.len() >= 5,
        hand_category(s) == 4,
    ensures
        t.subset_of(s),
        t.len() == 5,
        hand_value(t) == hand_value(s),
{
    let trips = top_ranks(s, 3, -1, -1, 13, 1);
    lemma_top_ranks_range(s, 3, -1, -1, 13, 1);
    let t0 = trips[0];
    if rank_count(s, t0) >= 4 {
        lemma_top_ranks_exists(s, 4, -1, -1, 13, 1, t0);
    }
    assert forall|r: int| 0 <= r < 13 && r != t0 && r != -1 implies #[trigger] rank_count(s, r) <= 1 by {
        if rank_count(s, r) >= 2 {
            lemma_top_ranks_exists(s, 2, t0, -1, 13, 1, r);
        }
    }
    lemma_len_rank_total(s);
    lemma_total_bound(s, t0, -1, 13, 1);
    lemma_top_ranks_len(s, 1, t0, -1, 13, 2);
    lemma_top_ranks_range(s, 1, t0, -1, 13, 2);
    lemma_top_ranks_decreasing(s, 1, t0, -1, 13, 2);
    let kl = top_ranks(s, 1, t0, -1, 13, 2);
    let (k1, k2) = (kl[0], kl[1]);
    let (a, b, e) = lemma_three_suits(s, t0);
    let s1 = lemma_one_suit(s, k1);
    let s2 = lemma_one_suit(s, k2);
    let c = seq![(t0, a), (t0, b), (t0, e), (k1, s1), (k2, s2)];
    lemma_five_from(s, c);
    let t = five_cards(c);
    assert forall|r: int| 0 <= r < 13 implies #[trigger] qualifies(t, 3, -1, -1, r) == trips.contains(r) by {
        lemma_listed(trips, r);
        assert(rank_count(t, r) == rank_uses(c, r));
    }
    lemma_list_matches(s, t, 3, -1, -1, 1);
    assert forall|r: int| 0 <= r < 13 implies #[trigger] qualifies(t, 1, t0, -1, r) == kl.contains(r) by {
        lemma_listed(kl, r);
        assert(rank_count(t, r) == rank_uses(c, r));
    }
    lemma_list_matches(s, t, 1, t0, -1, 2);
    lemma_category_monotone(t, s);
    t
}

/// Two pairs and the best kicker.
proof fn lemma_best_two_pair(s: Set<int>) -> (t: Set<int>)
    requires
        s.subset_of(full_deck()),
        s.len() >= 5,
        hand_category(s) == 3,
    ensures
        t.subset_of(s),
        t.len() == 5,
        hand_value(t) == hand_value(s),
{
    let pairs = top_ranks(s, 2, -1, -1, 13, 2);
    lemma_top_ranks_range(s, 2, -1, -1, 13, 2);
    lemma_top_ranks_decreasing(s, 2, -1, -1, 13, 2);
    let (p1, p2) = (pairs[0], pairs[1]);
    assert forall|r: int| 0 <= r < 13 && r != p1 && r != p2 implies #[trigger] rank_count(s, r) <= 2 by {
        if rank_count(s, r) >= 3 {
            lemma_top_ranks_exists(s, 3, -1, -1, 13, 1, r);
        }
    }
    if rank_count(s, p1) >= 3 {
        lemma_top_ranks_exists(s, 3, -1, -1, 13, 1, p1);
    }
    if rank_count(s, p2) >= 3 {
        lemma_top_ranks_exists(s, 3, -1, -1, 13, 1, p2);
    }
    lemma_len_rank_total(s);
    lemma_total_bound(s, p1, p2, 13, 2);
    lemma_top_ranks_len(s, 1, p1, p2, 13, 1);
    lemma_top_ranks_range(s, 1, p1, p2, 13, 1);
    let kl = top_ranks(s, 1, p1, p2, 13, 1);
    let k = kl[0];
    let (a, b) = lemma_two_suits(s, p1);
    let (d, e) = lemma_two_suits(s, p2);
    let sk = lemma_one_suit(s, k);
    let c = seq![(p1, a), (p1, b), (p2, d), (p2, e), (k, sk)];
    lemma_five_from(s, c);
    let t = five_cards(c);
    assert forall|r: int| 0 <= r < 13 implies #[trigger] qualifies(t, 2, -1, -1, r) == pairs.contains(r) by {
        lemma_listed(pairs, r);
        assert(rank_count(t, r) == rank_uses(c, r));
    }
    lemma_list_matches(s, t, 2, -1, -1, 2);
    assert forall|r: int| 0 <= r < 13 implies #[trigger] qualifies(t, 1, p1, p2, r) == kl.contains(r) by {
        lemma_listed(kl, r);
        assert(rank_count(t, r) == rank_uses(c, r));
    }
    lemma_list_matches(s, t, 1, p1, p2, 1);
    lemma_category_monotone(t, s);
    t
}

/// One pair and the three best kickers.
proof fn lemma_best_pair(s: Set<int>) -> (t: Set<int>)
    requires
        s.subset_of(full_deck()),
        s.len() >= 5,
        hand_category(s) == 2,
    ensures
        t.subset_of(s),
        t.len() == 5,
        hand_value(t) == hand_value(s),
{
    let pairs = top_ranks(s, 2, -1, -1, 13, 2);
    lemma_top_ranks_range(s, 2, -1, -1, 13, 2);
    let p = pairs[0];
    assert forall|r: int| 0 <= r < 13 && r != p && r != -1 implies #[trigger] rank_count(s, r) <= 1 by {
        if rank_count(s, r) >= 2 {
            lemma_top_ranks_complete(s, 2, -1, -1, 13, 2, r);
        }
    }
    if rank_count(s, p) >= 3 {
        lemma_top_ranks_exists(s, 3, -1, -1, 13, 1, p);
    }
    lemma_len_rank_total(s);
    lemma_total_bound(s, p, -1, 13, 1);
    lemma_top_ranks_len(s, 1, p, -1, 13, 3);
    lemma_top_ranks_range(s, 1, p, -1, 13, 3);
    lemma_top_ranks_decreasing(s, 1, p, -1, 13, 3);
    let kl = top_ranks(s, 1, p, -1, 13, 3);
    let (k1, k2, k3) = (kl[0], kl[1], kl[2]);
    let (a, b) = lemma_two_suits(s, p);
    let s1 = lemma_one_suit(s, k1);
    let s2 = lemma_one_suit(s, k2);
    let s3 = lemma_one_suit(s, k3);
    let c = seq![(p, a), (p, b), (k1, s1), (k2, s2), (k3, s3)];
    lemma_five_from(s, c);
    let t = five_cards(c);
    assert forall|r: int| 0 <= r < 13 implies #[trigger] qualifies(s, 2, -1, -1, r) == qualifies(t, 2, -1, -1, r) by {
        assert(rank_count(t, r) == rank_uses(c, r));
    }
    lemma_top_ranks_same(s, t, 2, -1, -1, 13, 2);
    assert forall|r: int| 0 <= r < 13 implies #[trigger] qualifies(t, 1, p, -1, r) == kl.contains(r) by {
        lemma_listed(kl, r);
        assert(rank_count(t, r) == rank_uses(c, r));
    }
    lemma_list_matches(s, t, 1, p, -1, 3);
    lemma_category_monotone(t, s);
    t
}

/// No pair: the five highest ranks.
proof fn lemma_best_high_card(s: Set<int>) -> (t: Set<int>)
    requires
        s.subset_of(full_deck()),
        s.len() >= 5,
        hand_category(s) == 1,
    ensures
        t.subset_of(s),
        t.len() == 5,
        hand_value(t) == hand_value(s),
{
    lemma_top_ranks_range(s, 2, -1, -1, 13, 2);
    lemma_high_card_full(s);
    let h = top_ranks(s, 1, -1, -1, 13, 5);
    lemma_top_ranks_range(s, 1, -1, -1, 13, 5);
    lemma_top_ranks_decreasing(s, 1, -1, -1, 13, 5);
    let s0 = lemma_one_suit(s, h[0]);
    let s1 = lemma_one_suit(s, h[1]);
    let s2 = lemma_one_suit(s, h[2]);
    let s3 = lemma_one_suit(s, h[3]);
    let s4 = lemma_one_suit(s, h[4]);
    let c = seq![(h[0], s0), (h[1], s1), (h[2], s2), (h[3], s3), (h[4], s4)];
    lemma_five_from(s, c);
    let t = five_cards(c);
    assert forall|r: int| 0 <= r < 13 implies #[trigger] qualifies(t, 1, -1, -1, r) == h.contains(r) by {
        lemma_listed(h, r);
        assert(rank_count(t, r) == rank_uses(c, r));
    }
    lemma_list_matches(s, t, 1, -1, -1, 5);
    lemma_category_monotone(t, s);
    t
}

/// The five ranks of a straight are distinct and lie within `0..13`.
proof fn lemma_run_ranks(v: int)
    requires
        1 <= v <= 10,
    ensures
        forall|i: int| 0 <= i < 5 ==> 0 <= #[trigger] run_rank(v, i) < 13,
        forall|i: int, j: int| 0 <= i < j < 5 ==> #[trigger] run_rank(v, i) != #[trigger] run_rank(v, j),
{
}

/// A straight flush: its five cards.
proof fn lemma_best_straight_flush(s: Set<int>) -> (t: Set<int>)
    requires
        s.subset_of(full_deck()),
        s.len() >= 5,
        hand_category(s) == 9,
    ensures
        t.subset_of(s),
        t.len() == 5,
        hand_value(t) == hand_value(s),
{
    crate::evaluator::lemma_top_straight_range(s, 10);
    let v = top_straight_flush(s, 10);
    let su = if suited_run(s, 0, v) { 0int } else if suited_run(s, 1, v) { 1int } else if suited_run(s, 2, v) { 2int } else { 3int };
    lemma_run_ranks(v);
    let c = seq![(run_rank(v, 0), su), (run_rank(v, 1), su), (run_rank(v, 2), su), (run_rank(v, 3), su), (run_rank(v, 4), su)];
    assert(c[0].0 != c[1].0 && c[0].0 != c[2].0 && c[0].0 != c[3].0 && c[0].0 != c[4].0);
    assert(c[1].0 != c[2].0 && c[1].0 != c[3].0 && c[1].0 != c[4].0 && c[2].0 != c[3].0 && c[2].0 != c[4].0 && c[3].0 != c[4].0);
    lemma_five_from(s, c);
    let t = five_cards(c);
    assert(suited_run(t, su, v));
    lemma_top_straight_exists(t, v, 10);
    crate::evaluator::lemma_top_straight_range(t, 10);
    lemma_hand_value_monotone(t, s);
    t
}

/// A straight: one card of each of its ranks.
proof fn lemma_best_straight(s: Set<int>) -> (t: Set<int>)
    requires
        s.subset_of(full_deck()),
        s.len() >= 5,
        hand_category(s) == 5,
    ensures
        t.subset_of(s),
        t.len() == 5,
        hand_value(t) == hand_value(s),
{
    crate::evaluator::lemma_top_straight_range(s, 10);
    let v = top_straight(s, 10);
    lemma_run_ranks(v);
    let s0 = lemma_one_suit(s, run_rank(v, 0));
    let s1 = lemma_one_suit(s, run_rank(v, 1));
    let s2 = lemma_one_suit(s, run_rank(v, 2));
    let s3 = lemma_one_suit(s, run_rank(v, 3));
    let s4 = lemma_one_suit(s, run_rank(v, 4));
    let c = seq![(run_rank(v, 0), s0), (run_rank(v, 1), s1), (run_rank(v, 2), s2), (run_rank(v, 3), s3), (run_rank(v, 4), s4)];
    assert(c[0].0 != c[1].0 && c[0].0 != c[2].0 && c[0].0 != c[3].0 && c[0].0 != c[4].0);
    assert(c[1].0 != c[2].0 && c[1].0 != c[3].0 && c[1].0 != c[4].0 && c[2].0 != c[3].0 && c[2].0 != c[4].0 && c[3].0 != c[4].0);
    lemma_five_from(s, c);
    let t = five_cards(c);
    assert(rank_count(t, run_rank(v, 0)) == rank_uses(c, run_rank(v, 0)));
    assert(rank_count(t, run_rank(v, 1)) == rank_uses(c, run_rank(v, 1)));
    assert(rank_count(t, run_rank(v, 2)) == rank_uses(c, run_rank(v, 2)));
    assert(rank_count(t, run_rank(v, 3)) == rank_uses(c, run_rank(v, 3)));
    assert(rank_count(t, run_rank(v, 4)) == rank_uses(c, run_rank(v, 4)));
    assert(rank_run(t, v));
    lemma_top_straight_exists(t, v, 10);
    crate::evaluator::lemma_top_straight_range(t, 10);
    lemma_category_monotone(t, s);
    lemma_hand_value_monotone(t, s);
    t
}

/// A flush: the five highest cards of the suit with the best flush.
proof fn lemma_best_flush(s: Set<int>) -> (t: Set<int>)
    requires
        s.subset_of(full_deck()),
        s.len() >= 5,
        hand_category(s) == 6,
    ensures
        t.subset_of(s),
        t.len() == 5,
        hand_value(t) == hand_value(s),
{
    let f = flush_index(s);
    let su = if suit_flush_index(s, 0) == f { 0int } else if suit_flush_index(s, 1) == f { 1int } else if suit_flush_index(s, 2) == f { 2int } else { 3int };
    assert(suit_flush_index(s, su) == f);
    let h = top_suited(s, su, 13, 5);
    lemma_top_suited_range(s, su, 13, 5);
    lemma_top_suited_decreasing(s, su, 13, 5);
    let c = seq![(h[0], su), (h[1], su), (h[2], su), (h[3], su), (h[4], su)];
    lemma_five_from(s, c);
    let t = five_cards(c);
    assert forall|r: int| 0 <= r < 13 implies #[trigger] holds(t, r, su) == h.contains(r) by {
        lemma_listed(h, r);
    }
    lemma_suited_matches(s, t, su);
    lemma_flush_index_nonneg(t, 0);
    lemma_flush_index_nonneg(t, 1);
    lemma_flush_index_nonneg(t, 2);
    lemma_flush_index_nonneg(t, 3);
    lemma_category_monotone(t, s);
    lemma_hand_value_monotone(t, s);
    t
}

/// Some five cards of a hand rank as the whole hand.
proof fn lemma_best_five_cards(s: Set<int>) -> (t: Set<int>)
    requires
        s.subset_of(full_deck()),
        s.len() >= 5,
    ensures
        t.subset_of(s),
        t.len() == 5,
        hand_value(t) == hand_value(s),
{
    lemma_hand_value_in_category(s);
    let c = hand_category(s);
    if c == 9 {
        lemma_best_straight_flush(s)
    } else if c == 8 {
        lemma_best_quads(s)
    } else if c == 7 {
        lemma_best_full_house(s)
    } else if c == 6 {
        lemma_best_flush(s)
    } else if c == 5 {
        lemma_best_straight(s)
    } else if c == 4 {
        lemma_best_trips(s)
    } else if c == 3 {
        lemma_best_two_pair(s)
    } else if c == 2 {
        lemma_best_pair(s)
    } else {
        lemma_best_high_card(s)
    }
}

/// A hand of five or more cards ranks as its best five-card hand: no five of
/// its cards rank higher, and some five rank the same.
pub proof fn lemma_best_five(s: Set<int>)
    requires
        s.subset_of(full_deck()),
        s.len() >= 5,
    ensures
        forall|u: Set<int>| u.subset_of(s) && u.len() == 5 ==> hand_value(u) <= hand_value(s),
        exists|t: Set<int>| t.subset_of(s) && t.len() == 5 && hand_value(t) == hand_value(s),
{
    assert forall|u: Set<int>| u.subset_of(s) && u.len() == 5 implies hand_value(u) <= hand_value(s) by {
        lemma_hand_value_monotone(u, s);
    }
    let t = lemma_best_five_cards(s);
    assert(t.subset_of(s) && t.len() == 5 && hand_value(t) == hand_value(s));
}

} // verus!
