//! Always play for a flush in the suit of the lowest card held.
use vstd::prelude::*;
use crate::card::{Card, CardSet, card_suit, full_deck, numbers_of, sorted_numbers, suit_cards};
use crate::game::Strategy;

verus! {

/// The cards the naive flush strategy takes: any card at first, then the
/// cards of the suit of the lowest card held.
pub open spec fn flush_naive_choice(hand: Seq<Card>) -> Set<int> {
    if hand.len() == 0 {
        full_deck()
    } else {
        suit_cards(card_suit(sorted_numbers(numbers_of(hand), 52)[0]))
    }
}

/// The lowest numbers come first, and a set with a card up to `n` has one listed.
proof fn lemma_sorted_numbers_nonempty(s: Set<int>, n: int, c: int)
    requires
        1 <= c <= n,
        s.contains(c),
    ensures
        sorted_numbers(s, n).len() > 0,
        1 <= sorted_numbers(s, n)[0] <= n,
        s.contains(sorted_numbers(s, n)[0]),
    decreases n,
{
    let p = sorted_numbers(s, n - 1);
    if exists|d: int| 1 <= d <= n - 1 && s.contains(d) {
        let d = choose|d: int| 1 <= d <= n - 1 && s.contains(d);
        lemma_sorted_numbers_nonempty(s, n - 1, d);
        if s.contains(n) {
            assert(p.push(n)[0] == p[0]);
        }
    } else {
        assert(c == n);
        lemma_sorted_numbers_empty(s, n - 1);
        assert(p.push(n)[0] == n);
    }
}

proof fn lemma_sorted_numbers_empty(s: Set<int>, n: int)
    requires
        forall|d: int| 1 <= d <= n ==> !s.contains(d),
    ensures
        sorted_numbers(s, n).len() == 0,
    decreases n,
{
    if n > 0 {
        lemma_sorted_numbers_empty(s, n - 1);
    }
}

#[derive(Clone, Copy)]
pub struct FlushNaive;

impl Default for FlushNaive {
    fn default() -> (s: FlushNaive) {
        FlushNaive
    }
}

impl Strategy for FlushNaive {
    open spec fn chooses(&self, hand: Seq<Card>, dealers_hand: Seq<Card>, wanted: Set<int>, after: Self) -> bool {
        wanted == flush_naive_choice(hand)
    }

    fn decide(&mut self, hand: &[Card], dealers_hand: &[Card]) -> (wanted: CardSet)
        ensures
            wanted@ == flush_naive_choice(hand@),
    {
        let held = CardSet::from_cards(hand);
        if held.is_empty() {
            proof {
                if hand@.len() > 0 {
                    assert(numbers_of(hand@).contains(hand@[0]@));
                }
            }
            return {
            let all = CardSet::complement(&CardSet::empty());
            assert(all@ =~= full_deck());
            all
        };
        }
        let cards = held.to_cards();
        proof {
            if hand@.len() == 0 {
                assert(numbers_of(hand@) =~= Set::<int>::empty());
            }
            Card::lemma_number(hand@[0]);
            assert(numbers_of(hand@).contains(hand@[0]@));
            lemma_sorted_numbers_nonempty(numbers_of(hand@), 52, hand@[0]@);
            assert(cards@.map_values(|c: Card| c@)[0] == cards@[0]@);
        }
        let suit = cards[0].suit();
        CardSet::of_suit(suit.index())
    }
}

} // verus!
