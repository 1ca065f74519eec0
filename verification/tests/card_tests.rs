use poker_sim::card::{Card, CardParseError, CardSet, Rank, Suit};

#[test]
fn card_numbers_rank_and_suit() {
    let c = Card::new(Rank::Ace, Suit::Clubs);
    assert_eq!(c.index(), 52);
    assert_eq!(Card::new(Rank::Two, Suit::Spades).index(), 1);
    assert_eq!(Card::from_index(7).rank(), Rank::Three);
    assert_eq!(Card::from_index(7).suit(), Suit::Diamonds);
    assert_eq!(Rank::from_index(9), Rank::Jack);
    assert_eq!(Suit::from_index(1), Suit::Hearts);
}

#[test]
fn parse_and_print() {
    let c = Card::parse("Th").unwrap();
    assert_eq!(c, Card::new(Rank::Ten, Suit::Hearts));
    assert_eq!(c.to_string(), "Th");
    for n in 1..=52 {
        let card = Card::from_index(n);
        assert_eq!(Card::parse(&card.to_string()), Ok(card));
    }
}

#[test]
fn parse_errors() {
    assert_eq!(Card::parse("A"), Err(CardParseError::InvalidLength));
    assert_eq!(Card::parse("10s"), Err(CardParseError::InvalidLength));
    assert_eq!(Card::parse("Xs"), Err(CardParseError::InvalidRank));
    assert_eq!(Card::parse("\u{e9}"), Err(CardParseError::InvalidRank));
    assert_eq!(Card::parse("Ax"), Err(CardParseError::InvalidSuit));
    assert_eq!(CardParseError::InvalidSuit.message(), "Invalid suit");
    assert_eq!(CardParseError::InvalidRank.message(), "Invalid rank");
    assert_eq!(CardParseError::InvalidLength.message(), "Invalid card length");
}

#[test]
fn set_operations() {
    let a = CardSet::from_cards(&[Card::from_index(1), Card::from_index(2), Card::from_index(52)]);
    let b = CardSet::from_cards(&[Card::from_index(2), Card::from_index(3)]);
    assert_eq!(a.len(), 3);
    assert!(a.contains(&Card::from_index(52)));
    assert!(!a.contains(&Card::from_index(3)));
    assert_eq!(a.union(&b).len(), 4);
    assert_eq!(a.intersection(&b).to_cards(), vec![Card::from_index(2)]);
    assert_eq!((a | b).len(), 4);
    assert_eq!((a & b).len(), 1);
    let mut c = a;
    c |= b;
    assert_eq!(c.len(), 4);
    c &= b;
    assert_eq!(c.len(), 2);
    assert!(CardSet::default().is_empty());
    assert!(!a.is_empty());
}

#[test]
fn complement_is_an_involution() {
    let a = CardSet::from_cards(&[Card::from_index(5), Card::from_index(40)]);
    let not_a = !a;
    assert_eq!(not_a.len(), 50);
    assert!(!not_a.contains(&Card::from_index(5)));
    assert!((!not_a).same_cards(&a));
    assert_eq!((!CardSet::default()).len(), 52);
    assert!((a & not_a).is_empty());
    assert_eq!((a | not_a).len(), 52);
}

#[test]
fn listing_and_collecting_round_trip() {
    let a = CardSet::from_cards(&[Card::from_index(30), Card::from_index(4), Card::from_index(17), Card::from_index(4)]);
    let listed = a.to_cards();
    assert_eq!(listed.iter().map(|c| c.index()).collect::<Vec<_>>(), vec![4, 17, 30]);
    assert_eq!(listed.len(), a.len());
    assert!(CardSet::from_cards(&listed).same_cards(&a));
}

#[test]
fn insert_is_idempotent() {
    let mut s = CardSet::default();
    s.insert(Card::from_index(9));
    s.insert(Card::from_index(9));
    assert_eq!(s.len(), 1);
    assert_eq!(s.to_bits(), 1 << 8);
}

#[test]
fn rank_and_suit_sets() {
    let hearts = CardSet::of_suit(1);
    assert_eq!(hearts.len(), 13);
    assert!(hearts.to_cards().iter().all(|c| c.suit() == Suit::Hearts));
    let kings = CardSet::of_rank(11);
    assert_eq!(kings.len(), 4);
    assert!(kings.to_cards().iter().all(|c| c.rank() == Rank::King));
}
