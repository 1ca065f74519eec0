use poker_sim::card::{Card, CardSet, Rank, Suit};
use poker_sim::game::{deal, deal_round, new_deck, play, play_deck, player_wins, shuffled_deck, Strategy};
use poker_sim::strategies::flush_naive::FlushNaive;
use poker_sim::strategies::hayden_simple::{top_up_set, HaydenSimple};
use poker_sim::strategies::hypergeometric::{generate_candidate_subsets, sample_hands};

fn c(r: Rank, s: Suit) -> Card {
    Card::new(r, s)
}

fn ranks_of(set: &CardSet) -> Vec<Rank> {
    let mut v: Vec<Rank> = set.to_cards().iter().map(|c| c.rank()).collect();
    v.dedup();
    v
}

#[test]
fn hayden_opens_with_high_cards_tens_and_fives() {
    let mut s = HaydenSimple::default();
    let wanted = s.decide(&[], &[]);
    assert_eq!(wanted.len(), 20);
    assert_eq!(ranks_of(&wanted), vec![Rank::Five, Rank::Ten, Rank::Queen, Rank::King, Rank::Ace]);
    assert!(!s.forcing_flush());
}

#[test]
fn hayden_one_card_tops_up_to_nineteen() {
    let mut s = HaydenSimple::new();
    // board ranks: two (hand) and seven (dealer); suit spades
    let wanted = s.decide(&[c(Rank::Two, Suit::Spades)], &[c(Rank::Seven, Suit::Hearts)]);
    // twos, sevens, tens and fives (16), and the nine other spades
    assert_eq!(wanted.len(), 25);
    assert!(wanted.contains(&c(Rank::Nine, Suit::Spades)));
    assert!(wanted.contains(&c(Rank::Seven, Suit::Clubs)));
    assert!(!wanted.contains(&c(Rank::Nine, Suit::Hearts)));
}

#[test]
fn hayden_commits_to_a_flush() {
    let mut s = HaydenSimple::new();
    let hand = [c(Rank::Two, Suit::Hearts), c(Rank::Nine, Suit::Hearts)];
    let wanted = s.decide(&hand, &[c(Rank::Four, Suit::Clubs)]);
    assert!(s.forcing_flush());
    assert!(wanted.same_cards(&CardSet::of_suit(1)));
    let hand = [c(Rank::Two, Suit::Hearts), c(Rank::Nine, Suit::Hearts), c(Rank::King, Suit::Hearts)];
    let wanted = s.decide(&hand, &[c(Rank::Four, Suit::Clubs), c(Rank::Four, Suit::Spades)]);
    assert!(wanted.same_cards(&CardSet::of_suit(1)));
    let hand = [c(Rank::Two, Suit::Hearts), c(Rank::Nine, Suit::Hearts), c(Rank::King, Suit::Hearts), c(Rank::Ace, Suit::Hearts)];
    let wanted = s.decide(&hand, &[]);
    assert!(wanted.same_cards(&CardSet::of_suit(1)));
}

#[test]
fn hayden_takes_anything_for_the_last_card() {
    let mut s = HaydenSimple::new();
    let hand = [c(Rank::Two, Suit::Hearts), c(Rank::Nine, Suit::Spades), c(Rank::King, Suit::Hearts), c(Rank::Ace, Suit::Clubs)];
    assert_eq!(s.decide(&hand, &[]).len(), 52);
}

#[test]
fn hayden_three_suited_late_keeps_board_and_suit() {
    let mut s = HaydenSimple::new();
    let hand = [c(Rank::Two, Suit::Hearts), c(Rank::Nine, Suit::Hearts), c(Rank::King, Suit::Hearts)];
    let dealer: Vec<Card> = [Rank::Three, Rank::Three, Rank::Three, Rank::Four, Rank::Four, Rank::Four]
        .iter()
        .zip([Suit::Spades, Suit::Clubs, Suit::Diamonds, Suit::Spades, Suit::Clubs, Suit::Diamonds])
        .map(|(&r, s)| c(r, s))
        .collect();
    let wanted = s.decide(&hand, &dealer);
    assert!(!s.forcing_flush());
    // ranks 2, 3, 4, 9, K (20 cards) and the other hearts (8 more)
    assert_eq!(wanted.len(), 28);
}

#[test]
fn top_up_adds_whole_ranks_from_the_aces() {
    let start = CardSet::of_suit(0);
    let topped = top_up_set(start, 19);
    // 13 spades, then aces (+3) then kings (+3) reach 19
    assert_eq!(topped.len(), 19);
    assert!(topped.contains(&c(Rank::King, Suit::Hearts)));
    assert!(!topped.contains(&c(Rank::Queen, Suit::Hearts)));
    assert_eq!(top_up_set(start, 5).len(), 13);
}

#[test]
fn top_up_reaches_the_size_asked_for() {
    let empty = CardSet::default();
    assert_eq!(top_up_set(empty, 19).len(), 20);
    assert_eq!(top_up_set(empty, 52).len(), 52);
    assert_eq!(top_up_set(empty, 0).len(), 0);
    let one = CardSet::from_cards(&[c(Rank::Two, Suit::Clubs)]);
    let topped = top_up_set(one, 9);
    assert!(topped.contains(&c(Rank::Two, Suit::Clubs)));
    assert_eq!(topped.len(), 9);
}

#[test]
fn flush_naive_follows_the_lowest_card() {
    let mut s = FlushNaive::default();
    assert_eq!(s.decide(&[], &[]).len(), 52);
    let wanted = s.decide(&[c(Rank::Ace, Suit::Spades), c(Rank::Three, Suit::Diamonds)], &[]);
    assert!(wanted.same_cards(&CardSet::of_suit(2)));
}

#[test]
fn sampling_fills_both_hands_in_deck_order() {
    let deck: Vec<Card> = (1..=20).map(Card::from_index).collect();
    let subset = CardSet::from_cards(&[Card::from_index(3), Card::from_index(6), Card::from_index(15)]);
    let (player, dealer) = sample_hands(CardSet::default(), CardSet::default(), &deck, subset, 2);
    assert_eq!(player.len(), 3);
    assert_eq!(dealer.len(), 8);
    assert!(player.contains(&Card::from_index(15)));
    // the dealer gets the first eight cards not asked for
    assert_eq!(dealer.to_cards().iter().map(|c| c.index()).collect::<Vec<_>>(), vec![1, 2, 4, 5, 7, 8, 9, 10]);
}

#[test]
fn sampling_stops_once_both_hands_are_full() {
    let deck: Vec<Card> = (1..=30).map(Card::from_index).collect();
    let all = CardSet::from_cards(&deck);
    let mut player = CardSet::default();
    for i in 1..=4 {
        player.insert(Card::from_index(40 + i));
    }
    let (p, d) = sample_hands(player, CardSet::default(), &deck, all, 9);
    assert_eq!(p.len(), 5);
    assert!(p.contains(&Card::from_index(1)));
    assert_eq!(d.len(), 9);
}

#[test]
fn candidates_are_distinct_and_include_the_families() {
    let player = CardSet::from_cards(&[c(Rank::Ace, Suit::Hearts), c(Rank::King, Suit::Hearts)]);
    let dealer = CardSet::from_cards(&[c(Rank::Two, Suit::Clubs)]);
    let deck = !(player | dealer);
    let subsets = generate_candidate_subsets(player, dealer, deck);
    for i in 0..subsets.len() {
        for j in 0..i {
            assert!(!subsets[i].same_cards(&subsets[j]));
        }
    }
    let hearts = deck & CardSet::of_suit(1);
    assert!(subsets.iter().any(|s| s.same_cards(&hearts)));
    let mut aces_kings = CardSet::of_rank(12);
    aces_kings |= CardSet::of_rank(11);
    assert!(subsets.iter().any(|s| s.same_cards(&(deck & aces_kings))));
    assert!(subsets.iter().any(|s| s.same_cards(&(hearts | (deck & aces_kings)))));
}

#[test]
fn candidates_hold_only_deck_cards() {
    let player = CardSet::from_cards(&[c(Rank::Nine, Suit::Clubs)]);
    let dealer = CardSet::from_cards(&[c(Rank::Ten, Suit::Clubs), c(Rank::Ace, Suit::Spades)]);
    let deck = !(player | dealer);
    let subsets = generate_candidate_subsets(player, dealer, deck);
    assert!(!subsets.is_empty());
    for s in &subsets {
        assert!((*s & deck).same_cards(s));
        assert!(!s.contains(&c(Rank::Ten, Suit::Clubs)));
    }
}

struct TakeAll;

impl Strategy for TakeAll {
    fn decide(&mut self, _hand: &[Card], _dealers_hand: &[Card]) -> CardSet {
        !CardSet::default()
    }
}

struct TakeNothing;

impl Strategy for TakeNothing {
    fn decide(&mut self, _hand: &[Card], _dealers_hand: &[Card]) -> CardSet {
        CardSet::default()
    }
}

#[test]
fn dealing_in_order() {
    let deck = new_deck();
    let (hand, dealer) = deal(&mut TakeAll, &deck);
    assert_eq!(hand.iter().map(|c| c.index()).collect::<Vec<_>>(), vec![1, 2, 3, 4, 5]);
    assert_eq!(dealer.iter().map(|c| c.index()).collect::<Vec<_>>(), vec![6, 7, 8, 9, 10, 11, 12, 13]);
    let (hand, dealer) = deal(&mut TakeNothing, &deck);
    assert!(hand.is_empty());
    assert_eq!(dealer.len(), 52);
    assert!(!play_deck(&mut TakeNothing, &deck));
}

#[test]
fn a_round_deals_up_to_the_first_wanted_card() {
    let deck = new_deck();
    let mut hand = vec![Card::from_index(1)];
    let mut dealer = vec![];
    let wanted = CardSet::from_cards(&[Card::from_index(5), Card::from_index(9)]);
    let after = deal_round(&deck, 1, &mut hand, &mut dealer, wanted);
    assert_eq!(after, 5);
    assert_eq!(hand.iter().map(|c| c.index()).collect::<Vec<_>>(), vec![1, 5]);
    assert_eq!(dealer.iter().map(|c| c.index()).collect::<Vec<_>>(), vec![2, 3, 4]);
    let gone = CardSet::from_cards(&[Card::from_index(3)]);
    let after = deal_round(&deck, 48, &mut hand, &mut dealer, gone);
    assert_eq!(after, 52);
    assert_eq!(hand.len(), 2);
    assert_eq!(dealer.iter().map(|c| c.index()).collect::<Vec<_>>(), vec![2, 3, 4, 49, 50, 51, 52]);
}

#[test]
fn the_player_wins_with_the_better_hand() {
    // four twos and the three of spades, against 3h 3d 3c 4s 4h 4d 4c 5s: four fours win
    let deck = new_deck();
    assert!(!play_deck(&mut TakeAll, &deck));
    let hand: Vec<Card> = (1..=5).map(Card::from_index).collect();
    let dealer: Vec<Card> = (6..=13).map(Card::from_index).collect();
    assert!(!player_wins(&hand, &dealer));
    assert!(player_wins(&dealer[3..8], &hand));
    assert!(!player_wins(&hand[..4], &dealer));
}

#[test]
fn shuffled_decks_are_permutations() {
    let deck = shuffled_deck();
    assert_eq!(deck.len(), 52);
    assert_eq!(CardSet::from_cards(&deck).len(), 52);
    let ordered = new_deck();
    // 52! orders: two shuffles in a row, or a shuffle left in order, are not to be expected
    let again = shuffled_deck();
    assert!(deck != ordered || again != ordered);
    let _ = play(HaydenSimple::new());
}
