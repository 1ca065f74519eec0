//! A hand-written strategy: aim for high cards, tens and fives, pairs with
//! the board, and a flush when the first cards share a suit.
use vstd::prelude::*;
use crate::bits::bit_set;
use crate::card::{Card, CardSet, card_rank, card_suit, full_deck, rank_cards, suit_cards};
use crate::game::Strategy;

verus! {

/// The ranks of the cards in `cards`.
pub open spec fn ranks_held(cards: Seq<Card>) -> Set<int> {
    Set::new(|r: int| exists|j: int| 0 <= j < cards.len() && cards[j].rank.idx() == r)
}

/// The ranks whose bits are set in `mask`.
pub open spec fn mask_ranks(mask: u64) -> Set<int> {
    Set::new(|r: int| 0 <= r < 13 && bit_set(mask, r))
}

/// The cards whose rank is in `board`, or whose suit is `suit` (none when
/// `suit` is -1), or, when `ten_or_five`, that are a ten or a five.
pub open spec fn chosen_cards(board: Set<int>, suit: int, ten_or_five: bool) -> Set<int> {
    Set::new(
        |c: int|
            1 <= c <= 52 && (board.contains(card_rank(c)) || card_suit(c) == suit || (ten_or_five
                && (card_rank(c) == 8 || card_rank(c) == 3))),
    )
}

/// `s`, with whole ranks added from rank `n - 1` downwards until it holds at least `min` cards.
pub open spec fn topped_up(s: Set<int>, min: int, n: int) -> Set<int>
    decreases n,
{
    if n <= 0 || s.len() >= min {
        s
    } else {
        topped_up(s.union(rank_cards(n - 1)), min, n - 1)
    }
}

/// The ranks the two sides hold.
pub open spec fn board_ranks(hand: Seq<Card>, dealers_hand: Seq<Card>) -> Set<int> {
    ranks_held(hand).union(ranks_held(dealers_hand))
}

/// The first cards of the hand all share one suit (`n` of them).
pub open spec fn suited_start(hand: Seq<Card>, n: int) -> bool {
    forall|j: int| 0 <= j < n ==> #[trigger] hand[j].suit == hand[0].suit
}

/// Whether the strategy plays for a flush after this decision.
pub open spec fn hayden_forces(forced: bool, hand: Seq<Card>, dealers_hand: Seq<Card>) -> bool {
    if hand.len() == 2 {
        forced || (suited_start(hand, 2) && dealers_hand.len() <= 1)
    } else if hand.len() == 3 {
        forced || (suited_start(hand, 3) && dealers_hand.len() <= 5)
    } else {
        forced
    }
}

/// The cards the strategy takes.
pub open spec fn hayden_choice(forced: bool, hand: Seq<Card>, dealers_hand: Seq<Card>) -> Set<int> {
    let board = board_ranks(hand, dealers_hand);
    let s0 = hand[0].suit.idx();
    if hand.len() == 0 {
        chosen_cards(set![10int, 11int, 12int], -1, true)
    } else if hand.len() == 1 {
        topped_up(chosen_cards(board, s0, true), 19, 13)
    } else if hand.len() == 2 {
        if suited_start(hand, 2) && dealers_hand.len() <= 1 {
            suit_cards(s0)
        } else {
            topped_up(
                chosen_cards(board, if suited_start(hand, 2) { s0 } else { -1 }, true),
                19,
                13,
            )
        }
    } else if hand.len() == 3 {
        if forced || (suited_start(hand, 3) && dealers_hand.len() <= 5) {
            suit_cards(s0)
        } else if suited_start(hand, 3) {
            chosen_cards(board, s0, false)
        } else {
            topped_up(chosen_cards(board, -1, true), 19, 13)
        }
    } else if forced {
        suit_cards(s0)
    } else {
        full_deck()
    }
}

/// The ranks of the cards of both sides, as a mask.
fn board_mask(hand: &[Card], dealers_hand: &[Card]) -> (mask: u64)
    ensures
        mask_ranks(mask) == board_ranks(hand@, dealers_hand@),
        mask < 0x2000,
{
    let mut mask: u64 = 0;
    let mut i: usize = 0;
    proof {
        assert forall|r: int| !bit_set(0u64, r) by {
            crate::bits::lemma_bit_zero(r);
        }
    }
    while i < hand.len()
        invariant
            i <= hand.len(),
            mask < 0x2000,
            forall|r: int| 0 <= r < 13 ==> bit_set(mask, r) == ranks_held(hand@.take(i as int)).contains(r),
            forall|r: int| 13 <= r ==> !bit_set(mask, r),
        decreases hand.len() - i,
    {
        let r = hand[i].rank.index();
        mask = add_rank(mask, r);
        proof {
            assert forall|x: int| 0 <= x < 13 implies bit_set(mask, x) == ranks_held(hand@.take(i + 1)).contains(x) by {
                if ranks_held(hand@.take(i + 1)).contains(x) {
                    let j = choose|j: int| 0 <= j < hand@.take(i + 1).len() && #[trigger] hand@.take(i + 1)[j].rank.idx() == x;
                    if j < i {
                        assert(hand@.take(i as int)[j] == hand@.take(i + 1)[j]);
                    }
                }
                if ranks_held(hand@.take(i as int)).contains(x) {
                    let j = choose|j: int| 0 <= j < hand@.take(i as int).len() && #[trigger] hand@.take(i as int)[j].rank.idx() == x;
                    assert(hand@.take(i as int)[j] == hand@.take(i + 1)[j]);
                }
                if x == r {
                    assert(hand@.take(i + 1)[i as int] == hand@[i as int]);
                }
            }
        }
        i = i + 1;
    }
    let mut j: usize = 0;
    assert(hand@.take(hand.len() as int) =~= hand@);
    while j < dealers_hand.len()
        invariant
            j <= dealers_hand.len(),
            mask < 0x2000,
            forall|r: int| 0 <= r < 13 ==> bit_set(mask, r) == (ranks_held(hand@).contains(r) || ranks_held(dealers_hand@.take(j as int)).contains(r)),
            forall|r: int| 13 <= r ==> !bit_set(mask, r),
        decreases dealers_hand.len() - j,
    {
        let r = dealers_hand[j].rank.index();
        mask = add_rank(mask, r);
        proof {
            assert forall|x: int| 0 <= x < 13 implies bit_set(mask, x) == (ranks_held(hand@).contains(x) || ranks_held(dealers_hand@.take(j + 1)).contains(x)) by {
                if ranks_held(dealers_hand@.take(j + 1)).contains(x) {
                    let k = choose|k: int| 0 <= k < dealers_hand@.take(j + 1).len() && #[trigger] dealers_hand@.take(j + 1)[k].rank.idx() == x;
                    if k < j {
                        assert(dealers_hand@.take(j as int)[k] == dealers_hand@.take(j + 1)[k]);
                    }
                }
                if ranks_held(dealers_hand@.take(j as int)).contains(x) {
                    let k = choose|k: int| 0 <= k < dealers_hand@.take(j as int).len() && #[trigger] dealers_hand@.take(j as int)[k].rank.idx() == x;
                    assert(dealers_hand@.take(j as int)[k] == dealers_hand@.take(j + 1)[k]);
                }
                if x == r {
                    assert(dealers_hand@.take(j + 1)[j as int] == dealers_hand@[j as int]);
                }
            }
        }
        j = j + 1;
    }
    assert(dealers_hand@.take(dealers_hand.len() as int) =~= dealers_hand@);
    assert(mask_ranks(mask) =~= board_ranks(hand@, dealers_hand@));
    mask
}

/// `mask` with the bit of rank `r` set.
fn add_rank(mask: u64, r: i32) -> (m: u64)
    requires
        mask < 0x2000,
        0 <= r < 13,
        forall|x: int| 13 <= x ==> !bit_set(mask, x),
    ensures
        m < 0x2000,
        forall|x: int| 0 <= x < 64 ==> bit_set(m, x) == (bit_set(mask, x) || x == r),
        forall|x: int| 13 <= x ==> !bit_set(m, x),
{
    let k = r as u64;
    let m = mask | (1u64 << k);
    proof {
        assert(mask | (1u64 << k) < 0x2000) by (bit_vector)
            requires
                mask < 0x2000,
                k < 13,
        ;
        assert forall|x: int| 0 <= x < 64 implies bit_set(m, x) == (bit_set(mask, x) || x == r) by {
            crate::bits::lemma_bit_or(mask, 1u64 << k, x);
            crate::bits::lemma_bit_single(k, x);
        }
        assert forall|x: int| 13 <= x implies !bit_set(m, x) by {
            if x < 64 {
                crate::bits::lemma_bit_or(mask, 1u64 << k, x);
                crate::bits::lemma_bit_single(k, x);
            }
        }
    }
    m
}

/// The cards chosen by rank mask, suit and the ten-or-five rule.
fn choose_cards(mask: u64, suit: i32, ten_or_five: bool) -> (set: CardSet)
    requires
        -1 <= suit < 4,
    ensures
        set@ == chosen_cards(mask_ranks(mask), suit as int, ten_or_five),
{
    let mut set = CardSet::empty();
    let mut c: i32 = 1;
    while c <= 52
        invariant
            1 <= c <= 53,
            -1 <= suit < 4,
            set@ == chosen_cards(mask_ranks(mask), suit as int, ten_or_five).intersect(
                Set::new(|x: int| x < c),
            ),
        decreases 53 - c,
    {
        let card = Card::from_index(c);
        let r = card.rank().index();
        let su = card.suit().index();
        let k = r as u64;
        let on_board = (mask >> k) & 1u64 == 1u64;
        if on_board || su == suit || (ten_or_five && (r == 8 || r == 3)) {
            set.insert(card);
        }
        assert(set@ =~= chosen_cards(mask_ranks(mask), suit as int, ten_or_five).intersect(
            Set::new(|x: int| x < c + 1),
        ));
        c = c + 1;
    }
    assert(set@ =~= chosen_cards(mask_ranks(mask), suit as int, ten_or_five));
    set
}

/// Adds whole ranks, from the aces down, until `set` holds at least `min_size` cards.
pub fn top_up_set(set: CardSet, min_size: usize) -> (topped: CardSet)
    ensures
        topped@ == topped_up(set@, min_size as int, 13),
{
    let ghost given = set@;
    let mut set = set;
    let mut i: i32 = 13;
    while i > 0 && set.len() < min_size
        invariant
            0 <= i <= 13,
            topped_up(given, min_size as int, 13) == topped_up(set@, min_size as int, i as int),
        decreases i,
    {
        set = set.union(&CardSet::of_rank(i - 1));
        i = i - 1;
    }
    set
}

proof fn lemma_topped_up_steps(s: Set<int>, min: int, n: int)
    requires
        s.subset_of(full_deck()),
        n <= 13,
    ensures
        s.subset_of(topped_up(s, min, n)),
        topped_up(s, min, n).subset_of(full_deck()),
        topped_up(s, min, n).len() >= min || forall|r: int| 0 <= r < n ==> #[trigger] rank_cards(r).subset_of(topped_up(s, min, n)),
    decreases n,
{
    if n > 0 && s.len() < min {
        let next = s.union(rank_cards(n - 1));
        lemma_topped_up_steps(next, min, n - 1);
    }
}

/// Topping up keeps the cards it was given, stays within the deck, and
/// reaches the size asked for (the deck has 52 cards).
pub proof fn lemma_top_up_reaches(s: Set<int>, min: int)
    requires
        s.subset_of(full_deck()),
        min <= 52,
    ensures
        s.subset_of(topped_up(s, min, 13)),
        topped_up(s, min, 13).subset_of(full_deck()),
        topped_up(s, min, 13).len() >= min,
{
    let t = topped_up(s, min, 13);
    lemma_topped_up_steps(s, min, 13);
    vstd::set_lib::lemma_int_range(1, 53);
    assert(full_deck() =~= vstd::set_lib::set_int_range(1, 53));
    if t.len() < min {
        assert forall|c: int| full_deck().contains(c) implies t.contains(c) by {
            assert(rank_cards(card_rank(c)).contains(c));
            assert(rank_cards(card_rank(c)).subset_of(t));
        }
        assert(t =~= full_deck());
    }
}

/// The set holds, with each card, every card of its rank.
pub open spec fn whole_ranks(s: Set<int>) -> bool {
    forall|c: int, d: int|
        #![trigger s.contains(c), s.contains(d)]
        s.contains(c) && 1 <= d <= 52 && card_rank(d) == card_rank(c) ==> s.contains(d)
}

/// Topping up a set made of whole ranks keeps it made of whole ranks.
proof fn lemma_topped_up_whole_ranks(s: Set<int>, min: int, n: int)
    requires
        whole_ranks(s),
    ensures
        whole_ranks(topped_up(s, min, n)),
    decreases n,
{
    if n > 0 && s.len() < min {
        let next = s.union(rank_cards(n - 1));
        assert forall|c: int, d: int|
            #![trigger next.contains(c), next.contains(d)]
            next.contains(c) && 1 <= d <= 52 && card_rank(d) == card_rank(c) implies next.contains(d) by {
            if s.contains(c) {
                assert(s.contains(c) && s.contains(d) || !s.contains(d));
            }
        }
        lemma_topped_up_whole_ranks(next, min, n - 1);
    }
}

/// With two cards of different suits, the strategy asks for whole ranks only:
/// every card of each rank on the board, every ten and every five, and, to
/// reach nineteen cards, whole ranks from the aces down; never a card for its
/// suit alone.
pub proof fn lemma_unsuited_pair_wants_whole_ranks(forced: bool, hand: Seq<Card>, dealers_hand: Seq<Card>)
    requires
        hand.len() == 2,
        hand[0].suit != hand[1].suit,
    ensures
        forall|c: int, d: int|
            #![trigger hayden_choice(forced, hand, dealers_hand).contains(c), hayden_choice(forced, hand, dealers_hand).contains(d)]
            hayden_choice(forced, hand, dealers_hand).contains(c) && 1 <= d <= 52 && card_rank(d) == card_rank(c)
                ==> hayden_choice(forced, hand, dealers_hand).contains(d),
        forall|c: int|
            1 <= c <= 52 && (card_rank(c) == 8 || card_rank(c) == 3 || card_rank(c) == hand[0].rank.idx() || card_rank(c)
                == hand[1].rank.idx() || exists|j: int| 0 <= j < dealers_hand.len() && dealers_hand[j].rank.idx() == card_rank(c))
                ==> #[trigger] hayden_choice(forced, hand, dealers_hand).contains(c),
        hayden_choice(forced, hand, dealers_hand).subset_of(full_deck()),
{
    assert(!suited_start(hand, 2)) by {
        assert(hand[1].suit != hand[0].suit);
    }
    let board = board_ranks(hand, dealers_hand);
    let base = chosen_cards(board, -1, true);
    assert(hayden_choice(forced, hand, dealers_hand) == topped_up(base, 19, 13));
    lemma_topped_up_steps(base, 19, 13);
    assert forall|c: int, d: int|
        #![trigger base.contains(c), base.contains(d)]
        base.contains(c) && 1 <= d <= 52 && card_rank(d) == card_rank(c) implies base.contains(d) by {
    }
    lemma_topped_up_whole_ranks(base, 19, 13);
    let t = topped_up(base, 19, 13);
    assert forall|c: int, d: int|
        #![trigger t.contains(c), t.contains(d)]
        t.contains(c) && 1 <= d <= 52 && card_rank(d) == card_rank(c) implies t.contains(d) by {
        assert(whole_ranks(t));
    }
    assert forall|c: int|
        1 <= c <= 52 && (card_rank(c) == 8 || card_rank(c) == 3 || card_rank(c) == hand[0].rank.idx() || card_rank(c)
            == hand[1].rank.idx() || exists|j: int| 0 <= j < dealers_hand.len() && dealers_hand[j].rank.idx() == card_rank(c))
        implies #[trigger] hayden_choice(forced, hand, dealers_hand).contains(c) by {
        if card_rank(c) == hand[0].rank.idx() {
            assert(ranks_held(hand).contains(card_rank(c)));
        }
        if card_rank(c) == hand[1].rank.idx() {
            assert(ranks_held(hand).contains(card_rank(c)));
        }
        if exists|j: int| 0 <= j < dealers_hand.len() && dealers_hand[j].rank.idx() == card_rank(c) {
            assert(ranks_held(dealers_hand).contains(card_rank(c)));
        }
        assert(base.contains(c));
    }
}

/// What the strategy asks for at each point of the game, in terms of the
/// cards: first the fives, tens, queens, kings and aces; with one card, at
/// least nineteen cards, among them every card of that card's suit, of each
/// board rank, and every ten and five; once a flush is chosen, exactly the
/// thirteen cards of the first card's suit; with four cards and no flush
/// chosen, every card. A flush once chosen stays chosen.
pub proof fn lemma_hayden_requests(forced: bool, hand: Seq<Card>, dealers_hand: Seq<Card>)
    ensures
        hand.len() == 0 ==> hayden_choice(forced, hand, dealers_hand) == Set::new(
            |c: int| 1 <= c <= 52 && ((c - 1) / 4 == 3 || (c - 1) / 4 == 8 || (c - 1) / 4 >= 10),
        ),
        hand.len() == 1 ==> hayden_choice(forced, hand, dealers_hand).len() >= 19,
        hand.len() == 1 ==> hayden_choice(forced, hand, dealers_hand).subset_of(full_deck()),
        hand.len() == 1 ==> forall|c: int|
            1 <= c <= 52 && ((c - 1) % 4 == hand[0].suit.idx() || (c - 1) / 4 == 3 || (c - 1) / 4 == 8
                || (c - 1) / 4 == hand[0].rank.idx() || exists|j: int|
                0 <= j < dealers_hand.len() && dealers_hand[j].rank.idx() == (c - 1) / 4)
                ==> #[trigger] hayden_choice(forced, hand, dealers_hand).contains(c),
        hand.len() == 2 && hand[0].suit == hand[1].suit && dealers_hand.len() <= 1 ==> hayden_choice(
            forced,
            hand,
            dealers_hand,
        ) == Set::new(|c: int| 1 <= c <= 52 && (c - 1) % 4 == hand[0].suit.idx()) && hayden_forces(
            forced,
            hand,
            dealers_hand,
        ),
        hand.len() == 3 && hand[0].suit == hand[1].suit && hand[1].suit == hand[2].suit && dealers_hand.len() <= 5
            ==> hayden_choice(forced, hand, dealers_hand) == Set::new(
            |c: int| 1 <= c <= 52 && (c - 1) % 4 == hand[0].suit.idx(),
        ) && hayden_forces(forced, hand, dealers_hand),
        3 <= hand.len() <= 4 && forced ==> hayden_choice(forced, hand, dealers_hand) == Set::new(
            |c: int| 1 <= c <= 52 && (c - 1) % 4 == hand[0].suit.idx(),
        ),
        hand.len() == 4 && !forced ==> hayden_choice(forced, hand, dealers_hand) == Set::new(|c: int| 1 <= c <= 52),
        forced ==> hayden_forces(forced, hand, dealers_hand),
{
    if hand.len() == 0 {
        assert(hayden_choice(forced, hand, dealers_hand) =~= Set::new(
            |c: int| 1 <= c <= 52 && ((c - 1) / 4 == 3 || (c - 1) / 4 == 8 || (c - 1) / 4 >= 10),
        ));
    }
    if hand.len() == 1 {
        let board = board_ranks(hand, dealers_hand);
        let base = chosen_cards(board, hand[0].suit.idx(), true);
        lemma_top_up_reaches(base, 19);
        lemma_topped_up_steps(base, 19, 13);
        assert forall|c: int|
            1 <= c <= 52 && ((c - 1) % 4 == hand[0].suit.idx() || (c - 1) / 4 == 3 || (c - 1) / 4 == 8
                || (c - 1) / 4 == hand[0].rank.idx() || exists|j: int|
                0 <= j < dealers_hand.len() && dealers_hand[j].rank.idx() == (c - 1) / 4)
            implies #[trigger] hayden_choice(forced, hand, dealers_hand).contains(c) by {
            if (c - 1) / 4 == hand[0].rank.idx() {
                assert(ranks_held(hand).contains(card_rank(c)));
            }
            if exists|j: int| 0 <= j < dealers_hand.len() && dealers_hand[j].rank.idx() == (c - 1) / 4 {
                assert(ranks_held(dealers_hand).contains(card_rank(c)));
            }
            assert(base.contains(c));
        }
    }
    if hand.len() == 2 && hand[0].suit == hand[1].suit && dealers_hand.len() <= 1 {
        assert(suited_start(hand, 2));
        assert(hayden_choice(forced, hand, dealers_hand) =~= Set::new(|c: int| 1 <= c <= 52 && (c - 1) % 4 == hand[0].suit.idx()));
    }
    if hand.len() == 3 && hand[0].suit == hand[1].suit && hand[1].suit == hand[2].suit && dealers_hand.len() <= 5 {
        assert(suited_start(hand, 3));
        assert(hayden_choice(forced, hand, dealers_hand) =~= Set::new(|c: int| 1 <= c <= 52 && (c - 1) % 4 == hand[0].suit.idx()));
    }
    if 3 <= hand.len() <= 4 && forced {
        assert(hayden_choice(forced, hand, dealers_hand) =~= Set::new(|c: int| 1 <= c <= 52 && (c - 1) % 4 == hand[0].suit.idx()));
    }
    if hand.len() == 4 && !forced {
        assert(hayden_choice(forced, hand, dealers_hand) =~= Set::new(|c: int| 1 <= c <= 52));
    }
}

/// The opening ranks beyond tens and fives: queens, kings and aces.
fn opening_mask() -> (mask: u64)
    ensures
        mask_ranks(mask) == set![10int, 11int, 12int],
{
    let mask: u64 = 0x1C00;
    proof {
        assert forall|r: int| mask_ranks(mask).contains(r) == set![10int, 11int, 12int].contains(r) by {
            if 0 <= r < 13 {
                let k = r as u64;
                assert(((0x1C00u64 >> k) & 1u64 == 1u64) == (k == 10 || k == 11 || k == 12)) by (bit_vector)
                    requires
                        k < 13,
                ;
            }
        }
        assert(mask_ranks(mask) =~= set![10int, 11int, 12int]);
    }
    mask
}

/// Plays for high cards and for the board's ranks, and for a flush when the
/// first cards come in one suit.
pub struct HaydenSimple {
    force_flush: bool,
}

impl HaydenSimple {
    /// The strategy has committed to a flush.
    pub closed spec fn flush_forced(self) -> bool {
        self.force_flush
    }

    pub fn new() -> (s: HaydenSimple)
        ensures
            !s.flush_forced(),
    {
        HaydenSimple { force_flush: false }
    }

    /// Whether the strategy has committed to a flush.
    pub fn forcing_flush(&self) -> (b: bool)
        ensures
            b == self.flush_forced(),
    {
        self.force_flush
    }
}

impl Default for HaydenSimple {
    fn default() -> (s: HaydenSimple)
        ensures
            !s.flush_forced(),
    {
        HaydenSimple::new()
    }
}

impl Strategy for HaydenSimple {
    open spec fn chooses(&self, hand: Seq<Card>, dealers_hand: Seq<Card>, wanted: Set<int>, after: Self) -> bool {
        &&& wanted == hayden_choice(self.flush_forced(), hand, dealers_hand)
        &&& after.flush_forced() == hayden_forces(self.flush_forced(), hand, dealers_hand)
    }

    fn decide(&mut self, hand: &[Card], dealers_hand: &[Card]) -> (wanted: CardSet)
        ensures
            wanted@ == hayden_choice(old(self).flush_forced(), hand@, dealers_hand@),
            final(self).flush_forced() == hayden_forces(old(self).flush_forced(), hand@, dealers_hand@),
    {
        if hand.len() == 0 {
            return choose_cards(opening_mask(), -1, true);
        }
        let s0 = hand[0].suit();
        if hand.len() == 1 {
            let board = board_mask(hand, dealers_hand);
            return top_up_set(choose_cards(board, s0.index(), true), 19);
        }
        if hand.len() == 2 {
            let same = hand[0].suit() == hand[1].suit();
            assert(same == suited_start(hand@, 2));
            if same && dealers_hand.len() <= 1 {
                self.force_flush = true;
                return CardSet::of_suit(s0.index());
            }
            let board = board_mask(hand, dealers_hand);
            let suit = if same { s0.index() } else { -1 };
            return top_up_set(choose_cards(board, suit, true), 19);
        }
        if hand.len() == 3 {
            let same = hand[0].suit() == hand[1].suit() && hand[1].suit() == hand[2].suit();
            assert(same == suited_start(hand@, 3));
            if self.force_flush || (same && dealers_hand.len() <= 5) {
                self.force_flush = true;
                return CardSet::of_suit(s0.index());
            }
            let board = board_mask(hand, dealers_hand);
            if same {
                return choose_cards(board, s0.index(), false);
            }
            return top_up_set(choose_cards(board, -1, true), 19);
        }
        if self.force_flush {
            return CardSet::of_suit(s0.index());
        }
        {
            let all = CardSet::complement(&CardSet::empty());
            assert(all@ =~= full_deck());
            all
        }
    }
}

} // verus!
