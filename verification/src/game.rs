//! The game: the player names the cards it wants; each card dealt goes to the
//! player when named, else to the dealer. With five cards, the player wins
//! when its hand beats the best hand among the dealer's cards (eight or more).
use vstd::prelude::*;
use rand::seq::SliceRandom;
use crate::card::{Card, CardSet, numbers_of, lemma_numbers_of_len_distinct};
use crate::evaluator::{evaluate, evaluate_many, hand_value};

verus! {

/// A way of playing: which cards to take next, given the cards each side holds.
pub trait Strategy: Sized {
    /// The strategy, in this state, may answer `wanted` to the cards `hand`
    /// and `dealers_hand`, and be in the state `after` once it has. A strategy
    /// that does not say so may answer anything.
    closed spec fn chooses(&self, hand: Seq<Card>, dealers_hand: Seq<Card>, wanted: Set<int>, after: Self) -> bool {
        true
    }

    fn decide(&mut self, hand: &[Card], dealers_hand: &[Card]) -> (wanted: CardSet)
        requires
            hand@.len() < 5,
        ensures
            old(self).chooses(hand@, dealers_hand@, wanted@, *final(self)),
    ;
}

/// `hand` and `dealers_hand` split the first cards of `deck`: the player holds
/// at most five, the whole deck is dealt when the player has fewer, and the
/// dealer holds at least eight when the player has five.
pub open spec fn deal_ok(deck: Seq<Card>, hand: Seq<Card>, dealers_hand: Seq<Card>) -> bool {
    &&& hand.len() <= 5
    &&& hand.len() + dealers_hand.len() <= deck.len()
    &&& hand.to_multiset().add(dealers_hand.to_multiset()) == deck.take(
        (hand.len() + dealers_hand.len()) as int,
    ).to_multiset()
    &&& hand.len() < 5 ==> hand.len() + dealers_hand.len() == deck.len()
    &&& hand.len() == 5 ==> dealers_hand.len() >= 8
}

/// The player has five cards and they beat the dealer's best hand.
pub open spec fn player_beats(hand: Seq<Card>, dealers_hand: Seq<Card>) -> bool {
    hand.len() == 5 && hand_value(numbers_of(hand)) > hand_value(numbers_of(dealers_hand))
}

/// Two sequences whose multisets add up to that of a sequence without duplicates have none.
proof fn lemma_split_no_duplicates(a: Seq<Card>, b: Seq<Card>, whole: Seq<Card>)
    requires
        whole.no_duplicates(),
        a.to_multiset().add(b.to_multiset()) == whole.to_multiset(),
    ensures
        a.no_duplicates(),
        b.no_duplicates(),
{
    broadcast use vstd::multiset::group_multiset_axioms;

    whole.lemma_multiset_has_no_duplicates();
    assert forall|x: Card| a.to_multiset().contains(x) implies a.to_multiset().count(x) == 1 by {
        assert(whole.to_multiset().contains(x));
    }
    assert forall|x: Card| b.to_multiset().contains(x) implies b.to_multiset().count(x) == 1 by {
        assert(whole.to_multiset().contains(x));
    }
    a.lemma_multiset_has_no_duplicates_conv();
    b.lemma_multiset_has_no_duplicates_conv();
}

/// Two sequences whose multisets add up to that of a sequence without duplicates
/// have no card twice between them.
proof fn lemma_joined_no_duplicates(a: Seq<Card>, b: Seq<Card>, whole: Seq<Card>)
    requires
        whole.no_duplicates(),
        a.to_multiset().add(b.to_multiset()) == whole.to_multiset(),
    ensures
        (a + b).no_duplicates(),
{
    broadcast use vstd::multiset::group_multiset_axioms;

    vstd::seq_lib::lemma_multiset_commutative(a, b);
    whole.lemma_multiset_has_no_duplicates();
    assert forall|x: Card| (a + b).to_multiset().contains(x) implies (a + b).to_multiset().count(x) == 1 by {
        assert(whole.to_multiset().contains(x));
    }
    (a + b).lemma_multiset_has_no_duplicates_conv();
}

/// The position of the first card of `deck`, from position `i` on, whose
/// number is in `wanted`, or the deck's length when there is none.
pub open spec fn first_wanted(deck: Seq<Card>, i: int, wanted: Set<int>) -> int
    decreases deck.len() - i,
{
    if i >= deck.len() {
        deck.len() as int
    } else if wanted.contains(deck[i]@) {
        i
    } else {
        first_wanted(deck, i + 1, wanted)
    }
}

proof fn lemma_first_wanted_range(deck: Seq<Card>, i: int, wanted: Set<int>)
    requires
        0 <= i <= deck.len(),
    ensures
        i <= first_wanted(deck, i, wanted) <= deck.len(),
        first_wanted(deck, i, wanted) < deck.len() ==> wanted.contains(deck[first_wanted(deck, i, wanted)]@),
    decreases deck.len() - i,
{
    if i < deck.len() && !wanted.contains(deck[i]@) {
        lemma_first_wanted_range(deck, i + 1, wanted);
    }
}

/// One round of the deal from position `next`: the cards before the first
/// wanted one go to the dealer and that one to the player; with no wanted card
/// left, the rest of the deck goes to the dealer. Returns the next position.
pub fn deal_round(
    deck: &[Card],
    next: usize,
    hand: &mut Vec<Card>,
    dealers_hand: &mut Vec<Card>,
    wanted: CardSet,
) -> (after: usize)
    requires
        next <= deck@.len(),
    ensures
        first_wanted(deck@, next as int, wanted@) < deck@.len() ==> {
            &&& after == first_wanted(deck@, next as int, wanted@) + 1
            &&& final(hand)@ == old(hand)@.push(deck@[first_wanted(deck@, next as int, wanted@)])
            &&& final(dealers_hand)@ == old(dealers_hand)@ + deck@.subrange(next as int, after - 1)
        },
        first_wanted(deck@, next as int, wanted@) >= deck@.len() ==> {
            &&& after == deck@.len()
            &&& final(hand)@ == old(hand)@
            &&& final(dealers_hand)@ == old(dealers_hand)@ + deck@.subrange(next as int, after as int)
        },
        old(hand)@.to_multiset().add(old(dealers_hand)@.to_multiset()) == deck@.take(next as int).to_multiset()
            ==> final(hand)@.to_multiset().add(final(dealers_hand)@.to_multiset()) == deck@.take(after as int).to_multiset(),
{
    broadcast use vstd::seq_lib::group_to_multiset_ensures, vstd::multiset::group_multiset_axioms;

    let ghost h0 = hand@;
    let ghost d0 = dealers_hand@;
    let ghost balanced = h0.to_multiset().add(d0.to_multiset()) == deck@.take(next as int).to_multiset();
    let mut i = next;
    while i < deck.len()
        invariant
            next <= i <= deck@.len(),
            h0 == old(hand)@,
            d0 == old(dealers_hand)@,
            balanced == (h0.to_multiset().add(d0.to_multiset()) == deck@.take(next as int).to_multiset()),
            hand@ == h0,
            dealers_hand@ == d0 + deck@.subrange(next as int, i as int),
            first_wanted(deck@, next as int, wanted@) == first_wanted(deck@, i as int, wanted@),
            balanced ==> hand@.to_multiset().add(dealers_hand@.to_multiset()) == deck@.take(i as int).to_multiset(),
        decreases deck@.len() - i,
    {
        let card = deck[i];
        let ghost before = dealers_hand@;
        assert(deck@.take(i + 1) =~= deck@.take(i as int).push(card));
        proof { vstd::seq_lib::to_multiset_build(deck@.take(i as int), card); }
        if wanted.contains(&card) {
            hand.push(card);
            proof {
                assert(first_wanted(deck@, i as int, wanted@) == i);
                assert(hand@ == h0.push(card));
                vstd::seq_lib::to_multiset_build(h0, card);
                assert(h0.to_multiset().insert(card).add(before.to_multiset()) =~= h0.to_multiset().add(before.to_multiset()).insert(card));
                if balanced {
                    assert(hand@.to_multiset().add(dealers_hand@.to_multiset()) =~= deck@.take(i + 1).to_multiset());
                }
            }
            return i + 1;
        }
        dealers_hand.push(card);
        proof {
            assert(dealers_hand@ =~= d0 + deck@.subrange(next as int, i + 1));
            vstd::seq_lib::to_multiset_build(before, card);
            assert(h0.to_multiset().add(before.to_multiset().insert(card)) =~= h0.to_multiset().add(before.to_multiset()).insert(card));
        }
        i = i + 1;
    }
    i
}

/// One round of the deal from the state `(hand, dealers_hand, next)` when the
/// player asks for `wanted`: the cards from `next` up to the first wanted one
/// go to the dealer and that one to the player; with no wanted card left, the
/// rest of the deck goes to the dealer.
pub open spec fn round_of(deck: Seq<Card>, state: (Seq<Card>, Seq<Card>, int), wanted: Set<int>) -> (Seq<Card>, Seq<Card>, int) {
    let f = first_wanted(deck, state.2, wanted);
    if f < deck.len() {
        (state.0.push(deck[f]), state.1 + deck.subrange(state.2, f), f + 1)
    } else {
        (state.0, state.1 + deck.subrange(state.2, deck.len() as int), deck.len() as int)
    }
}

/// The state after one round for each of the player's answers, in order,
/// starting with empty hands at the top of the deck.
pub open spec fn rounds(deck: Seq<Card>, answers: Seq<Set<int>>) -> (Seq<Card>, Seq<Card>, int)
    decreases answers.len(),
{
    if answers.len() == 0 {
        (Seq::empty(), Seq::empty(), 0)
    } else {
        round_of(deck, rounds(deck, answers.drop_last()), answers.last())
    }
}

/// The answers end the rounds: there are five of them, or the last round gave
/// the player no card (the deck ran out first).
pub open spec fn rounds_done(deck: Seq<Card>, answers: Seq<Set<int>>) -> bool {
    answers.len() == 5 || rounds(deck, answers).0.len() < answers.len()
}

/// A game on `deck` in which the strategy, in the states `states`, gave the
/// answers `answers`: at most five, ending the rounds; before each answer the
/// player had taken a card in every earlier round; and the `k`-th answer is one
/// the strategy in state `k` chooses for the hands after `k` rounds, leaving it
/// in state `k + 1`.
pub open spec fn played<T: Strategy>(deck: Seq<Card>, answers: Seq<Set<int>>, states: Seq<T>) -> bool {
    &&& answers.len() <= 5
    &&& states.len() == answers.len() + 1
    &&& rounds_done(deck, answers)
    &&& forall|k: int|
        #![trigger answers[k]]
        0 <= k < answers.len() ==> rounds(deck, answers.take(k)).0.len() == k && states[k].chooses(
            rounds(deck, answers.take(k)).0,
            rounds(deck, answers.take(k)).1,
            answers[k],
            states[k + 1],
        )
}

/// After any rounds on a deck without repeated cards, the two hands together
/// hold exactly the cards dealt so far, so they share no card and repeat none:
/// the hands shown to the strategy are always disjoint.
pub proof fn lemma_rounds_split(deck: Seq<Card>, answers: Seq<Set<int>>)
    requires
        deck.no_duplicates(),
    ensures
        0 <= rounds(deck, answers).2 <= deck.len(),
        (rounds(deck, answers).0 + rounds(deck, answers).1).to_multiset() == deck.take(rounds(deck, answers).2).to_multiset(),
        (rounds(deck, answers).0 + rounds(deck, answers).1).no_duplicates(),
    decreases answers.len(),
{
    broadcast use vstd::seq_lib::group_to_multiset_ensures, vstd::multiset::group_multiset_axioms;

    let r = rounds(deck, answers);
    if answers.len() == 0 {
        assert(r.0 + r.1 =~= Seq::<Card>::empty());
        assert(deck.take(0) =~= Seq::<Card>::empty());
    } else {
        let prev = rounds(deck, answers.drop_last());
        lemma_rounds_split(deck, answers.drop_last());
        let w = answers.last();
        lemma_first_wanted_range(deck, prev.2, w);
        let f = first_wanted(deck, prev.2, w);
        let gap = deck.subrange(prev.2, f);
        vstd::seq_lib::lemma_multiset_commutative(prev.0, prev.1);
        vstd::seq_lib::lemma_multiset_commutative(prev.1, gap);
        vstd::seq_lib::lemma_multiset_commutative(deck.take(prev.2), gap);
        assert(deck.take(f) =~= deck.take(prev.2) + gap);
        if f < deck.len() {
            let c = deck[f];
            assert(r.0 == prev.0.push(c));
            assert(r.1 == prev.1 + gap);
            vstd::seq_lib::lemma_multiset_commutative(r.0, r.1);
            vstd::seq_lib::to_multiset_build(prev.0, c);
            vstd::seq_lib::to_multiset_build(deck.take(f), c);
            assert(deck.take(f + 1) =~= deck.take(f).push(c));
            assert(r.0.to_multiset().add(r.1.to_multiset()) =~= deck.take(f + 1).to_multiset());
        } else {
            assert(r.0 == prev.0);
            assert(r.1 == prev.1 + gap);
            vstd::seq_lib::lemma_multiset_commutative(r.0, r.1);
            assert(r.0.to_multiset().add(r.1.to_multiset()) =~= deck.take(f).to_multiset());
        }
        assert(deck.take(r.2).no_duplicates());
        lemma_joined_no_duplicates(r.0, r.1, deck.take(r.2));
    }
}

/// The final hands for the player's answers: after the rounds, a player with
/// five cards sees the dealer dealt the next cards of the deck up to eight.
pub open spec fn dealt(deck: Seq<Card>, answers: Seq<Set<int>>) -> (Seq<Card>, Seq<Card>) {
    let (hand, dealers_hand, next) = rounds(deck, answers);
    if hand.len() == 5 && dealers_hand.len() < 8 {
        (hand, dealers_hand + deck.subrange(next, next + 8 - dealers_hand.len()))
    } else {
        (hand, dealers_hand)
    }
}

/// Deals `deck` in order: before each of the player's cards, the strategy
/// names the cards it wants, and the cards dealt up to the first named one go
/// to the dealer, that one to the player (see `deal_round`). Once the player
/// has five cards, the dealer is dealt up to eight. The hands are those that
/// `dealt` gives for the answers the strategy chose, round by round.
pub fn deal<T: Strategy>(strategy: &mut T, deck: &[Card]) -> (hands: (Vec<Card>, Vec<Card>))
    requires
        deck@.len() >= 13,
        deck@.no_duplicates(),
    ensures
        deal_ok(deck@, hands.0@, hands.1@),
        exists|answers: Seq<Set<int>>, states: Seq<T>|
            #[trigger] played(deck@, answers, states) && states[0] == *old(strategy) && states.last()
                == *final(strategy) && dealt(deck@, answers) == (hands.0@, hands.1@),
{
    broadcast use vstd::seq_lib::group_to_multiset_ensures, vstd::multiset::group_multiset_axioms;

    let mut hand: Vec<Card> = Vec::new();
    let mut dealers_hand: Vec<Card> = Vec::new();
    let mut next: usize = 0;
    let mut round: usize = 0;
    let ghost s0 = *strategy;
    let ghost mut answers: Seq<Set<int>> = Seq::empty();
    let ghost mut states: Seq<T> = seq![*strategy];
    assert(deck@.take(0) =~= Seq::<Card>::empty());
    assert(hand@.to_multiset() =~= vstd::multiset::Multiset::<Card>::empty());
    assert(dealers_hand@.to_multiset() =~= vstd::multiset::Multiset::<Card>::empty());
    assert(deck@.take(0).to_multiset() =~= vstd::multiset::Multiset::<Card>::empty());
    assert(rounds(deck@, answers) == (hand@, dealers_hand@, 0int));
    while round < 5
        invariant
            hand.len() == round,
            round <= 5,
            next == hand.len() + dealers_hand.len(),
            next <= deck.len(),
            deck@.len() >= 13,
            deck@.no_duplicates(),
            hand@.to_multiset().add(dealers_hand@.to_multiset()) == deck@.take(next as int).to_multiset(),
            answers.len() == round,
            rounds(deck@, answers) == (hand@, dealers_hand@, next as int),
            s0 == *old(strategy),
            states.len() == answers.len() + 1,
            states[0] == s0,
            states.last() == *strategy,
            forall|k: int|
                #![trigger answers[k]]
                0 <= k < answers.len() ==> rounds(deck@, answers.take(k)).0.len() == k && states[k].chooses(
                    rounds(deck@, answers.take(k)).0,
                    rounds(deck@, answers.take(k)).1,
                    answers[k],
                    states[k + 1],
                ),
        decreases 5 - round,
    {
        let ghost prev = *strategy;
        let ghost shown = (hand@, dealers_hand@, next as int);
        let wanted = strategy.decide(hand.as_slice(), dealers_hand.as_slice());
        proof {
            lemma_first_wanted_range(deck@, next as int, wanted@);
        }
        let after = deal_round(deck, next, &mut hand, &mut dealers_hand, wanted);
        proof {
            let grown = answers.push(wanted@);
            let more = states.push(*strategy);
            assert(grown.drop_last() =~= answers);
            assert(rounds(deck@, grown) == round_of(deck@, shown, wanted@));
            assert(grown.take(round as int) =~= answers);
            assert forall|k: int| #![trigger grown[k]] 0 <= k < grown.len() implies rounds(deck@, grown.take(k)).0.len() == k && more[k].chooses(
                rounds(deck@, grown.take(k)).0,
                rounds(deck@, grown.take(k)).1,
                grown[k],
                more[k + 1],
            ) by {
                if k < round {
                    assert(grown.take(k) =~= answers.take(k));
                    assert(grown[k] == answers[k]);
                    assert(more[k] == states[k] && more[k + 1] == states[k + 1]);
                } else {
                    assert(more[k] == prev && more[k + 1] == *strategy);
                }
            }
            answers = grown;
            states = more;
        }
        if hand.len() == round {
            assert(after == deck.len());
            assert(deck@.take(after as int) =~= deck@);
            assert(dealt(deck@, answers) == (hand@, dealers_hand@));
            assert(played(deck@, answers, states));
            return (hand, dealers_hand);
        }
        next = after;
        round = round + 1;
    }
    assert(played(deck@, answers, states));
    let ghost start = next as int;
    let ghost d0 = dealers_hand@;
    while dealers_hand.len() < 8
        invariant
            hand.len() == 5,
            next == hand.len() + dealers_hand.len(),
            next <= deck.len(),
            deck@.len() >= 13,
            start <= next,
            d0.len() + (next - start) == dealers_hand.len(),
            d0.len() >= 8 ==> next == start,
            d0.len() < 8 ==> dealers_hand.len() <= 8,
            played(deck@, answers, states),
            s0 == *old(strategy),
            states[0] == s0,
            states.last() == *strategy,
            rounds(deck@, answers) == (hand@, d0, start),
            dealers_hand@ == d0 + deck@.subrange(start, next as int),
            hand@.to_multiset().add(dealers_hand@.to_multiset()) == deck@.take(next as int).to_multiset(),
        decreases 8 - dealers_hand.len(),
    {
        let card = deck[next];
        let ghost dd = dealers_hand@;
        assert(deck@.take(next + 1) =~= deck@.take(next as int).push(card));
        assert(deck@.take(next + 1).to_multiset() == deck@.take(next as int).push(card).to_multiset());
        proof { vstd::seq_lib::to_multiset_build(deck@.take(next as int), card); }
        dealers_hand.push(card);
        assert(dealers_hand@ == dd.push(card));
        assert(dealers_hand@ =~= d0 + deck@.subrange(start, next + 1));
        proof { vstd::seq_lib::to_multiset_build(dd, card); }
        assert(hand@.to_multiset().add(dd.to_multiset().insert(card)) =~= hand@.to_multiset().add(dd.to_multiset()).insert(card));
        next = next + 1;
        assert(hand@.to_multiset().add(dealers_hand@.to_multiset()) =~= deck@.take(next as int).to_multiset());
    }
    assert(d0.len() >= 8 ==> deck@.subrange(start, next as int) =~= Seq::<Card>::empty());
    assert(dealers_hand@ =~= d0 + deck@.subrange(start, next as int));
    assert(dealt(deck@, answers) == (hand@, dealers_hand@));
    (hand, dealers_hand)
}

/// Whether the player's five cards beat the best hand among the dealer's cards.
pub fn player_wins(hand: &[Card], dealers_hand: &[Card]) -> (won: bool)
    requires
        hand@.no_duplicates(),
        dealers_hand@.no_duplicates(),
        hand@.len() == 5 ==> dealers_hand@.len() >= 5,
    ensures
        won == player_beats(hand@, dealers_hand@),
{
    if hand.len() != 5 {
        return false;
    }
    proof {
        lemma_numbers_of_len_distinct(hand@);
        lemma_numbers_of_len_distinct(dealers_hand@);
    }
    let mine = evaluate(CardSet::from_cards(hand));
    let theirs = evaluate_many(CardSet::from_cards(dealers_hand));
    mine.value() > theirs.value()
}

/// Plays one game on `deck`, a deck without repeated cards: deals it with
/// `deal` and tells whether the player's five cards win.
pub fn play_deck<T: Strategy>(strategy: &mut T, deck: &[Card]) -> (won: bool)
    requires
        deck@.len() >= 13,
        deck@.no_duplicates(),
    ensures
        exists|answers: Seq<Set<int>>, states: Seq<T>|
            #[trigger] played(deck@, answers, states) && states[0] == *old(strategy) && states.last()
                == *final(strategy) && won == player_beats(dealt(deck@, answers).0, dealt(deck@, answers).1),
{
    let (hand, dealers_hand) = deal(strategy, deck);
    proof {
        let (answers, states) = choose|answers: Seq<Set<int>>, states: Seq<T>|
            #[trigger] played(deck@, answers, states) && states[0] == *old(strategy) && states.last()
                == *final(strategy) && dealt(deck@, answers) == (hand@, dealers_hand@);
        assert(dealt(deck@, answers).0 == hand@ && dealt(deck@, answers).1 == dealers_hand@);
        let n = (hand@.len() + dealers_hand@.len()) as int;
        assert(deck@.take(n).no_duplicates());
        assert((hand@ + dealers_hand@).to_multiset() == hand@.to_multiset().add(dealers_hand@.to_multiset())) by {
            vstd::seq_lib::lemma_multiset_commutative(hand@, dealers_hand@);
        }
        lemma_split_no_duplicates(hand@, dealers_hand@, deck@.take(n));
    }
    player_wins(hand.as_slice(), dealers_hand.as_slice())
}

/// The 52 cards in order of number.
pub fn new_deck() -> (deck: Vec<Card>)
    ensures
        deck@.len() == 52,
        deck@.no_duplicates(),
        forall|i: int| 0 <= i < 52 ==> #[trigger] deck@[i]@ == i + 1,
{
    let mut deck: Vec<Card> = Vec::new();
    let mut c: i32 = 1;
    while c <= 52
        invariant
            1 <= c <= 53,
            deck@.len() == c - 1,
            forall|i: int| 0 <= i < deck@.len() ==> #[trigger] deck@[i]@ == i + 1,
        decreases 53 - c,
    {
        deck.push(Card::from_index(c));
        c = c + 1;
    }
    assert forall|i: int, j: int| 0 <= i < 52 && 0 <= j < 52 && i != j implies deck@[i] != deck@[j] by {
        assert(deck@[i]@ != deck@[j]@);
    }
    deck
}

/// `SliceRandom::shuffle` with the thread's generator: reorders the cards.
#[verifier::external_body]
fn shuffle_cards(cards: &mut Vec<Card>)
    ensures
        final(cards)@.to_multiset() == old(cards)@.to_multiset(),
{
    cards.shuffle(&mut rand::rng());
}

/// The 52 cards in a random order.
pub fn shuffled_deck() -> (deck: Vec<Card>)
    ensures
        deck@.len() == 52,
        deck@.no_duplicates(),
{
    broadcast use vstd::seq_lib::group_to_multiset_ensures;

    let mut deck = new_deck();
    let ghost ordered = deck@;
    shuffle_cards(&mut deck);
    proof {
        ordered.lemma_multiset_has_no_duplicates();
        assert(deck@.len() == deck@.to_multiset().len());
        assert(ordered.len() == ordered.to_multiset().len());
        deck@.lemma_multiset_has_no_duplicates_conv();
    }
    deck
}

/// Plays one game on a freshly shuffled deck.
pub fn play<T: Strategy>(strategy: T) -> (won: bool)
    ensures
        exists|deck: Seq<Card>, answers: Seq<Set<int>>, states: Seq<T>|
            deck.len() == 52 && deck.no_duplicates() && #[trigger] played(deck, answers, states)
                && states[0] == strategy && won == player_beats(dealt(deck, answers).0, dealt(deck, answers).1),
{
    let mut strategy = strategy;
    let deck = shuffled_deck();
    play_deck(&mut strategy, deck.as_slice())
}

} // verus!
