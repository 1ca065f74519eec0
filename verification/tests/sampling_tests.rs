use poker_sim::card::{Card, CardSet, Rank, Suit};
use poker_sim::evaluator::evaluate;
use poker_sim::strategies::genetic::{hand_strength, straight_potential};
use poker_sim::strategies::hypergeometric::{binomial_table, bucket_wins, dealer_weight_table, high_cards, sample_hands};

fn c(r: Rank, s: Suit) -> Card {
    Card::new(r, s)
}

fn numbered(ids: &[i32]) -> CardSet {
    let cards: Vec<Card> = ids.iter().map(|&i| Card::from_index(i)).collect();
    CardSet::from_cards(&cards)
}

#[test]
fn binomial_table_matches_pascal() {
    let t = binomial_table();
    assert_eq!(t.len(), 53);
    assert_eq!(t[0][0], 1);
    assert_eq!(t[5][2], 10);
    assert_eq!(t[3][5], 0);
    assert_eq!(t[52][5], 2598960);
    assert_eq!(t[52][26], 495918532948104);
    assert_eq!(t[52][52], 1);
    for n in 1..53 {
        for k in 1..53 {
            assert_eq!(t[n][k], t[n - 1][k] + t[n - 1][k - 1]);
        }
    }
}

#[test]
fn bucket_wins_counts_won_deals() {
    let player = CardSet::from_cards(&[
        c(Rank::Ace, Suit::Spades),
        c(Rank::King, Suit::Spades),
        c(Rank::Queen, Suit::Spades),
        c(Rank::Jack, Suit::Spades),
    ]);
    let dealer = CardSet::default();
    let subset = CardSet::from_cards(&[c(Rank::Ten, Suit::Spades), c(Rank::Five, Suit::Diamonds)]);
    // The player draws the ten of spades for a royal flush; the dealer holds a pair of twos.
    let winning = vec![
        c(Rank::Ten, Suit::Spades),
        c(Rank::Two, Suit::Clubs),
        c(Rank::Three, Suit::Clubs),
        c(Rank::Four, Suit::Clubs),
        c(Rank::Five, Suit::Clubs),
        c(Rank::Seven, Suit::Diamonds),
        c(Rank::Eight, Suit::Diamonds),
        c(Rank::Nine, Suit::Hearts),
        c(Rank::Two, Suit::Diamonds),
    ];
    // The dealer takes a full house before the player's five of diamonds.
    let losing = vec![
        c(Rank::Two, Suit::Hearts),
        c(Rank::Two, Suit::Diamonds),
        c(Rank::Two, Suit::Clubs),
        c(Rank::Three, Suit::Hearts),
        c(Rank::Three, Suit::Diamonds),
        c(Rank::Three, Suit::Clubs),
        c(Rank::Nine, Suit::Diamonds),
        c(Rank::Nine, Suit::Clubs),
        c(Rank::Five, Suit::Diamonds),
    ];
    let decks = vec![winning.clone(), losing, winning];
    assert_eq!(bucket_wins(player, dealer, &decks, subset, 0, 1), 1);
    assert_eq!(bucket_wins(player, dealer, &decks, subset, 0, 2), 1);
    assert_eq!(bucket_wins(player, dealer, &decks, subset, 0, 5), 2);
    assert_eq!(bucket_wins(player, dealer, &decks, subset, 0, 0), 0);
}

#[test]
fn bucket_wins_needs_five_player_cards() {
    let player = CardSet::from_cards(&[c(Rank::Ace, Suit::Spades)]);
    let subset = CardSet::from_cards(&[c(Rank::King, Suit::Spades)]);
    let deck = vec![
        c(Rank::King, Suit::Spades),
        c(Rank::Two, Suit::Clubs),
        c(Rank::Three, Suit::Clubs),
        c(Rank::Four, Suit::Clubs),
        c(Rank::Five, Suit::Clubs),
        c(Rank::Seven, Suit::Diamonds),
    ];
    assert_eq!(bucket_wins(player, CardSet::default(), &[deck], subset, 0, 1), 0);
}

#[test]
fn straight_potential_scans_windows() {
    assert_eq!(straight_potential(CardSet::default(), Card::from_index(1)), 1);
    assert_eq!(straight_potential(numbered(&[1, 2, 3, 4, 5, 6, 7, 8]), Card::from_index(9)), 9);
    // The scan starts at the window of cards 13 to 16 and goes on with that of 1 to 4.
    assert_eq!(straight_potential(numbered(&[16]), Card::from_index(1)), 2);
    // Card 10 lies in the four windows that start after 6, 7, 8 and 9.
    assert_eq!(straight_potential(numbered(&[10]), Card::from_index(10)), 4);
    // Card 30 lies in no scanned window.
    assert_eq!(straight_potential(CardSet::default(), Card::from_index(30)), 0);
}

#[test]
fn hand_strength_weighs_windows_and_flush() {
    assert_eq!(hand_strength(CardSet::default()), 25);
    assert_eq!(hand_strength(numbered(&[1, 2, 3, 4])), 39);
    let spades: Vec<i32> = (0..13).map(|r| r * 4 + 1).collect();
    assert_eq!(hand_strength(numbered(&spades)), 169);
    assert_eq!(hand_strength(CardSet::from_bits((1u64 << 52) - 1)), 13 * 8 + 169);
}

#[test]
fn hand_rank_prints_in_hex() {
    let royal = evaluate(CardSet::from_cards(&[
        c(Rank::Ace, Suit::Hearts),
        c(Rank::King, Suit::Hearts),
        c(Rank::Queen, Suit::Hearts),
        c(Rank::Jack, Suit::Hearts),
        c(Rank::Ten, Suit::Hearts),
    ]));
    assert_eq!(royal.to_string(), "0x900A");
    let worst = evaluate(CardSet::from_cards(&[
        c(Rank::Seven, Suit::Hearts),
        c(Rank::Five, Suit::Clubs),
        c(Rank::Four, Suit::Hearts),
        c(Rank::Three, Suit::Hearts),
        c(Rank::Two, Suit::Hearts),
    ]));
    assert_eq!(worst.to_string(), "0x1001");
}

#[test]
fn dealer_weights_count_positions_of_the_wanted_cards() {
    let t = dealer_weight_table();
    assert_eq!(t.len(), 53);
    assert_eq!(t[5][2][1], vec![(0, 4), (1, 3), (2, 2), (3, 1)]);
    assert_eq!(t[4][2][2], vec![(0, 1), (1, 2), (2, 3)]);
    assert!(t[3][4][1].is_empty());
    assert!(t[5][0][0].is_empty());
    assert!(t[5][2][3].is_empty());
    let binom = binomial_table();
    for n in 1..53 {
        for k in 1..=n {
            for r in 1..=k.min(5) {
                let total: u128 = t[n][k][r].iter().map(|&(_, w)| w).sum();
                assert_eq!(total, binom[n][k] as u128);
                assert_eq!(t[n][k][r].len(), n - k + 1);
            }
        }
    }
}

#[test]
fn sampling_a_full_deck_completes_both_hands() {
    let player = CardSet::from_cards(&[c(Rank::Ace, Suit::Spades)]);
    let dealer = CardSet::from_cards(&[c(Rank::Two, Suit::Clubs)]);
    let rest: Vec<Card> = (1..=52)
        .map(Card::from_index)
        .filter(|card| !player.contains(card) && !dealer.contains(card))
        .collect();
    let spades = CardSet::of_suit(0);
    let (mine, theirs) = sample_hands(player, dealer, &rest, spades, 0);
    assert_eq!(mine.len(), 5);
    assert_eq!(theirs.len(), 8);
    assert!(mine.contains(&c(Rank::Five, Suit::Spades)));
    let (mine, theirs) = sample_hands(player, dealer, &rest, spades, 20);
    assert_eq!(mine.len(), 5);
    assert_eq!(theirs.len(), 20);
}

#[test]
fn hand_rank_describes_its_category() {
    let quads = evaluate(CardSet::from_cards(&[
        c(Rank::Two, Suit::Spades),
        c(Rank::Two, Suit::Hearts),
        c(Rank::Two, Suit::Diamonds),
        c(Rank::Two, Suit::Clubs),
        c(Rank::Three, Suit::Spades),
    ]));
    assert_eq!(quads.describe(), "FourOfAKind (0x8001)");
    assert_eq!(quads.hand_type().ident(), "FourOfAKind");
    assert_eq!(quads.hand_type().name(), "Four of a Kind");
}

#[test]
fn high_cards_are_tens_and_up() {
    let h = high_cards();
    assert_eq!(h.len(), 20);
    assert_eq!(h.to_bits(), 0xFFFFF00000000);
    assert!(h.contains(&c(Rank::Ten, Suit::Clubs)));
    assert!(!h.contains(&c(Rank::Nine, Suit::Spades)));
}
