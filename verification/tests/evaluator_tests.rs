use poker_sim::card::{Card, CardSet, Rank, Suit};
use poker_sim::card::Rank::{Ace, Eight, Five, Four, Jack, King, Nine, Queen, Seven, Six, Ten, Three, Two};
use poker_sim::card::Suit::{Clubs, Diamonds, Hearts, Spades};
use poker_sim::evaluator::{evaluate, evaluate_iter, evaluate_many, try_evaluate, HandType};

#[test]
fn test_hand_rank() {
    let hand_rank = evaluate(CardSet::from_cards(&[
        Card::new(Rank::Two, Suit::Spades),
        Card::new(Rank::Two, Suit::Hearts),
        Card::new(Rank::Two, Suit::Diamonds),
        Card::new(Rank::Two, Suit::Clubs),
        Card::new(Rank::Three, Suit::Spades),
    ]));
    assert!(hand_rank.hand_type() == HandType::FourOfAKind);

    let hand_rank = evaluate(CardSet::from_cards(&[
        Card::new(Rank::Ace, Suit::Spades),
        Card::new(Rank::Ten, Suit::Spades),
        Card::new(Rank::Two, Suit::Spades),
        Card::new(Rank::Three, Suit::Spades),
        Card::new(Rank::King, Suit::Hearts),
        Card::new(Rank::Four, Suit::Spades),
        Card::new(Rank::Five, Suit::Spades),
    ]));
    assert!(hand_rank.value() == 0x9001);
}

#[test]
fn test_evaluate_many() {
    let hand_rank = evaluate_many(CardSet::from_cards(&[
        Card::new(Rank::Two, Suit::Spades),
        Card::new(Rank::Two, Suit::Hearts),
        Card::new(Rank::Two, Suit::Diamonds),
        Card::new(Rank::Two, Suit::Clubs),
        Card::new(Rank::Three, Suit::Spades),
        Card::new(Rank::Four, Suit::Spades),
        Card::new(Rank::King, Suit::Spades),
        Card::new(Rank::Queen, Suit::Spades),
        Card::new(Rank::Ace, Suit::Spades),
        Card::new(Rank::Ten, Suit::Spades),
        Card::new(Rank::Jack, Suit::Spades),
    ]));
    assert!(hand_rank.hand_type() == HandType::StraightFlush);

    let hand_rank = evaluate_many(CardSet::from_cards(&[
        Card::new(Rank::King, Suit::Spades),
        Card::new(Rank::King, Suit::Hearts),
        Card::new(Rank::King, Suit::Diamonds),
        Card::new(Rank::King, Suit::Clubs),
        Card::new(Rank::Ten, Suit::Spades),
        Card::new(Rank::Jack, Suit::Hearts),
        Card::new(Rank::Jack, Suit::Clubs),
        Card::new(Rank::Four, Suit::Hearts),
        Card::new(Rank::Jack, Suit::Spades),
    ]));
    assert!(
        hand_rank
            == evaluate(CardSet::from_cards(&[
                Card::new(Rank::King, Suit::Spades),
                Card::new(Rank::King, Suit::Hearts),
                Card::new(Rank::King, Suit::Diamonds),
                Card::new(Rank::King, Suit::Clubs),
                Card::new(Rank::Jack, Suit::Spades),
            ]))
    );

    let hand_rank = evaluate_many(CardSet::from_cards(&[
        Card::new(Rank::King, Suit::Spades),
        Card::new(Rank::King, Suit::Hearts),
        Card::new(Rank::King, Suit::Diamonds),
        Card::new(Rank::Ten, Suit::Spades),
        Card::new(Rank::Jack, Suit::Hearts),
        Card::new(Rank::Four, Suit::Hearts),
    ]));
    assert!(
        hand_rank
            == evaluate(CardSet::from_cards(&[
                Card::new(Rank::King, Suit::Spades),
                Card::new(Rank::King, Suit::Hearts),
                Card::new(Rank::King, Suit::Diamonds),
                Card::new(Rank::Ten, Suit::Clubs),
                Card::new(Rank::Jack, Suit::Spades),
            ]))
    );

    let hand_rank = evaluate_many(CardSet::from_cards(&[
        Card::new(Rank::Five, Suit::Spades),
        Card::new(Rank::Five, Suit::Hearts),
        Card::new(Rank::Five, Suit::Diamonds),
        Card::new(Rank::Ten, Suit::Spades),
        Card::new(Rank::Two, Suit::Hearts),
        Card::new(Rank::Three, Suit::Hearts),
    ]));
    assert!(
        hand_rank
            == evaluate(CardSet::from_cards(&[
                Card::new(Rank::Five, Suit::Spades),
                Card::new(Rank::Five, Suit::Hearts),
                Card::new(Rank::Five, Suit::Diamonds),
                Card::new(Rank::Ten, Suit::Clubs),
                Card::new(Rank::Three, Suit::Spades),
            ]))
    );

    let hand_rank = evaluate_many(CardSet::from_cards(&[
        Card::new(Rank::Two, Suit::Spades),
        Card::new(Rank::Two, Suit::Hearts),
        Card::new(Rank::Two, Suit::Diamonds),
        Card::new(Rank::Two, Suit::Clubs),
        Card::new(Rank::Ten, Suit::Spades),
        Card::new(Rank::Jack, Suit::Hearts),
        Card::new(Rank::Jack, Suit::Clubs),
        Card::new(Rank::Four, Suit::Hearts),
        Card::new(Rank::Jack, Suit::Spades),
    ]));
    assert!(
        hand_rank
            == evaluate(CardSet::from_cards(&[
                Card::new(Rank::Two, Suit::Spades),
                Card::new(Rank::Two, Suit::Hearts),
                Card::new(Rank::Two, Suit::Diamonds),
                Card::new(Rank::Two, Suit::Clubs),
                Card::new(Rank::Jack, Suit::Spades),
            ]))
    );

    let hand_rank = evaluate_many(CardSet::from_cards(&[
        Card::new(Rank::Two, Suit::Spades),
        Card::new(Rank::Seven, Suit::Spades),
        Card::new(Rank::Ace, Suit::Diamonds),
        Card::new(Rank::Six, Suit::Clubs),
        Card::new(Rank::King, Suit::Clubs),
        Card::new(Rank::Five, Suit::Hearts),
        Card::new(Rank::Two, Suit::Hearts),
        Card::new(Rank::Ten, Suit::Spades),
        Card::new(Rank::Four, Suit::Hearts),
    ]));
    assert!(
        hand_rank
            == evaluate(CardSet::from_cards(&[
                Card::new(Rank::Two, Suit::Spades),
                Card::new(Rank::Two, Suit::Hearts),
                Card::new(Rank::Ace, Suit::Diamonds),
                Card::new(Rank::King, Suit::Clubs),
                Card::new(Rank::Ten, Suit::Spades),
            ]))
    );

    let hand_rank = evaluate_many(CardSet::from_cards(&[
        Card::new(Rank::Two, Suit::Spades),
        Card::new(Rank::Seven, Suit::Spades),
        Card::new(Rank::Ace, Suit::Diamonds),
        Card::new(Rank::Six, Suit::Clubs),
        Card::new(Rank::King, Suit::Clubs),
        Card::new(Rank::Five, Suit::Clubs),
        Card::new(Rank::Two, Suit::Hearts),
        Card::new(Rank::Ten, Suit::Spades),
        Card::new(Rank::Five, Suit::Hearts),
    ]));
    assert!(
        hand_rank
            == evaluate(CardSet::from_cards(&[
                Card::new(Rank::Two, Suit::Spades),
                Card::new(Rank::Two, Suit::Hearts),
                Card::new(Rank::Ace, Suit::Diamonds),
                Card::new(Rank::Five, Suit::Clubs),
                Card::new(Rank::Five, Suit::Spades),
            ]))
    );

    let hand_rank = evaluate_many(CardSet::from_cards(&[
        Card::new(Rank::Two, Suit::Spades),
        Card::new(Rank::Seven, Suit::Spades),
        Card::new(Rank::Six, Suit::Spades),
        Card::new(Rank::King, Suit::Spades),
        Card::new(Rank::Three, Suit::Spades),
        Card::new(Rank::Ten, Suit::Spades),
        Card::new(Rank::Ace, Suit::Spades),
        // --
        Card::new(Rank::Three, Suit::Diamonds),
        Card::new(Rank::Seven, Suit::Diamonds),
        Card::new(Rank::Four, Suit::Diamonds),
        Card::new(Rank::Six, Suit::Diamonds),
        Card::new(Rank::King, Suit::Diamonds),
    ]));
    assert!(
        hand_rank
            == evaluate(CardSet::from_cards(&[
                Card::new(Rank::Seven, Suit::Spades),
                Card::new(Rank::Six, Suit::Spades),
                Card::new(Rank::King, Suit::Spades),
                Card::new(Rank::Ten, Suit::Spades),
                Card::new(Rank::Ace, Suit::Spades),
            ]))
    );

    let hand_rank = evaluate_many(CardSet::from_cards(&[
        Card::new(Rank::Two, Suit::Spades),
        Card::new(Rank::Two, Suit::Hearts),
        Card::new(Rank::Two, Suit::Diamonds),
        Card::new(Rank::Five, Suit::Clubs),
        Card::new(Rank::Ten, Suit::Spades),
        Card::new(Rank::Jack, Suit::Hearts),
        Card::new(Rank::Jack, Suit::Clubs),
        Card::new(Rank::Four, Suit::Hearts),
        Card::new(Rank::Jack, Suit::Spades),
    ]));
    assert!(
        hand_rank
            == evaluate(CardSet::from_cards(&[
                Card::new(Rank::Two, Suit::Spades),
                Card::new(Rank::Two, Suit::Hearts),
                Card::new(Rank::Jack, Suit::Diamonds),
                Card::new(Rank::Jack, Suit::Clubs),
                Card::new(Rank::Jack, Suit::Spades),
            ]))
    );

    let hand_rank = evaluate_many(CardSet::from_cards(&[
        Card::new(Rank::Two, Suit::Spades),
        Card::new(Rank::Ace, Suit::Hearts),
        Card::new(Rank::Two, Suit::Diamonds),
        Card::new(Rank::Five, Suit::Clubs),
        Card::new(Rank::Ten, Suit::Spades),
        Card::new(Rank::Jack, Suit::Hearts),
        Card::new(Rank::Jack, Suit::Clubs),
        Card::new(Rank::Four, Suit::Hearts),
        Card::new(Rank::Three, Suit::Spades),
    ]));
    assert!(
        hand_rank
            == evaluate(CardSet::from_cards(&[
                Card::new(Rank::Ace, Suit::Spades),
                Card::new(Rank::Two, Suit::Hearts),
                Card::new(Rank::Three, Suit::Diamonds),
                Card::new(Rank::Four, Suit::Clubs),
                Card::new(Rank::Five, Suit::Spades),
            ]))
    );

    let hand_rank = evaluate_many(CardSet::from_cards(&[
        Card::new(Rank::Two, Suit::Spades),
        Card::new(Rank::Ace, Suit::Hearts),
        Card::new(Rank::Two, Suit::Diamonds),
        Card::new(Rank::Five, Suit::Clubs),
        Card::new(Rank::Ten, Suit::Spades),
        Card::new(Rank::Jack, Suit::Hearts),
        Card::new(Rank::Jack, Suit::Clubs),
        Card::new(Rank::Four, Suit::Hearts),
        Card::new(Rank::Three, Suit::Spades),
        Card::new(Rank::Six, Suit::Diamonds),
        Card::new(Rank::Seven, Suit::Spades),
        Card::new(Rank::Eight, Suit::Clubs),
    ]));
    assert!(
        hand_rank
            == evaluate(CardSet::from_cards(&[
                Card::new(Rank::Six, Suit::Spades),
                Card::new(Rank::Eight, Suit::Hearts),
                Card::new(Rank::Seven, Suit::Diamonds),
                Card::new(Rank::Four, Suit::Clubs),
                Card::new(Rank::Five, Suit::Spades),
            ]))
    );
}

fn cards(list: &[(Rank, Suit)]) -> CardSet {
    let v: Vec<Card> = list.iter().map(|&(r, s)| Card::new(r, s)).collect();
    CardSet::from_cards(&v)
}


#[test]
fn category_extremes_follow_two_plus_two_numbering() {
    // weakest and strongest hand of each category
    assert_eq!(evaluate(cards(&[(Seven, Spades), (Five, Hearts), (Four, Spades), (Three, Spades), (Two, Clubs)])).value(), 0x1001);
    assert_eq!(evaluate(cards(&[(Ace, Spades), (King, Hearts), (Queen, Spades), (Jack, Spades), (Nine, Clubs)])).value(), 0x1000 + 1277);
    assert_eq!(evaluate(cards(&[(Two, Spades), (Two, Hearts), (Five, Spades), (Four, Spades), (Three, Clubs)])).value(), 0x2001);
    assert_eq!(evaluate(cards(&[(Ace, Spades), (Ace, Hearts), (King, Spades), (Queen, Spades), (Jack, Clubs)])).value(), 0x2000 + 2860);
    assert_eq!(evaluate(cards(&[(Three, Spades), (Three, Hearts), (Two, Spades), (Two, Diamonds), (Four, Clubs)])).value(), 0x3001);
    assert_eq!(evaluate(cards(&[(Ace, Spades), (Ace, Hearts), (King, Spades), (King, Diamonds), (Queen, Clubs)])).value(), 0x3000 + 858);
    assert_eq!(evaluate(cards(&[(Two, Spades), (Two, Hearts), (Two, Diamonds), (Four, Spades), (Three, Clubs)])).value(), 0x4001);
    assert_eq!(evaluate(cards(&[(Ace, Spades), (Ace, Hearts), (Ace, Diamonds), (King, Spades), (Queen, Clubs)])).value(), 0x4000 + 858);
    assert_eq!(evaluate(cards(&[(Ace, Spades), (Two, Hearts), (Three, Diamonds), (Four, Spades), (Five, Clubs)])).value(), 0x5001);
    assert_eq!(evaluate(cards(&[(Ace, Spades), (King, Hearts), (Queen, Diamonds), (Jack, Spades), (Ten, Clubs)])).value(), 0x500A);
    assert_eq!(evaluate(cards(&[(Seven, Hearts), (Five, Hearts), (Four, Hearts), (Three, Hearts), (Two, Hearts)])).value(), 0x6001);
    assert_eq!(evaluate(cards(&[(Ace, Hearts), (King, Hearts), (Queen, Hearts), (Jack, Hearts), (Nine, Hearts)])).value(), 0x6000 + 1277);
    assert_eq!(evaluate(cards(&[(Two, Spades), (Two, Hearts), (Two, Diamonds), (Three, Spades), (Three, Clubs)])).value(), 0x7001);
    assert_eq!(evaluate(cards(&[(Ace, Spades), (Ace, Hearts), (Ace, Diamonds), (King, Spades), (King, Clubs)])).value(), 0x7000 + 156);
    assert_eq!(evaluate(cards(&[(Two, Spades), (Two, Hearts), (Two, Diamonds), (Two, Clubs), (Three, Clubs)])).value(), 0x8001);
    assert_eq!(evaluate(cards(&[(Ace, Spades), (Ace, Hearts), (Ace, Diamonds), (Ace, Clubs), (King, Clubs)])).value(), 0x8000 + 156);
    assert_eq!(evaluate(cards(&[(Ace, Clubs), (Two, Clubs), (Three, Clubs), (Four, Clubs), (Five, Clubs)])).value(), 0x9001);
    assert_eq!(evaluate(cards(&[(Ace, Clubs), (King, Clubs), (Queen, Clubs), (Jack, Clubs), (Ten, Clubs)])).value(), 0x900A);
}

#[test]
fn hand_types_and_names() {
    let r = evaluate(cards(&[(Ace, Spades), (Ace, Hearts), (Ace, Diamonds), (King, Spades), (King, Clubs)]));
    assert_eq!(r.hand_type(), HandType::FullHouse);
    assert_eq!(r.hand_type().name(), "Full House");
    assert_eq!(HandType::from_code(1).name(), "High Card");
    assert_eq!(HandType::from_code(9), HandType::StraightFlush);
}

#[test]
fn more_cards_never_rank_lower() {
    let five = cards(&[(Nine, Spades), (Nine, Hearts), (Four, Diamonds), (Seven, Spades), (King, Clubs)]);
    let more = five
        .union(&cards(&[(Four, Hearts), (Two, Clubs), (Jack, Diamonds)]));
    assert!(evaluate_many(more).value() >= evaluate(five).value());
    assert_eq!(evaluate_many(more).hand_type(), HandType::TwoPair);
}

#[test]
fn evaluate_many_agrees_with_evaluate_up_to_seven() {
    let seven = cards(&[(Nine, Spades), (Ten, Spades), (Jack, Spades), (Queen, Spades), (Two, Hearts), (Two, Clubs), (Four, Diamonds)]);
    assert_eq!(evaluate_many(seven), evaluate(seven));
}

#[test]
fn sequences_of_numbers_evaluate_their_first_seven() {
    // 2s 2h 2d 2c 3s: quads
    assert_eq!(evaluate_iter(&[1, 2, 3, 4, 5]).hand_type(), HandType::FourOfAKind);
    // the eighth card (an ace of spades) is not read
    let seven = evaluate_iter(&[1, 2, 3, 4, 5, 9, 13]);
    let eight = evaluate_iter(&[1, 2, 3, 4, 5, 9, 13, 49]);
    assert_eq!(seven, eight);
    assert_eq!(try_evaluate(&[1, 2, 3, 4]), None);
    assert_eq!(try_evaluate(&[1, 2, 3, 4, 5]), Some(evaluate_iter(&[1, 2, 3, 4, 5])));
}

#[test]
fn straight_flush_beats_quads_among_many_cards() {
    let many = cards(&[
        (Six, Diamonds), (Seven, Diamonds), (Eight, Diamonds), (Nine, Diamonds), (Ten, Diamonds),
        (Ace, Spades), (Ace, Hearts), (Ace, Clubs), (Ace, Diamonds),
    ]);
    assert_eq!(evaluate_many(many).value(), 0x9000 + 6);
}

#[test]
fn many_cards_rank_as_their_best_five() {
    let all = cards(&[
        (Ace, Hearts),
        (Ace, Clubs),
        (King, Hearts),
        (King, Spades),
        (Nine, Hearts),
        (Four, Hearts),
        (Two, Hearts),
        (Two, Diamonds),
        (Seven, Clubs),
    ]);
    let flush = cards(&[(Ace, Hearts), (King, Hearts), (Nine, Hearts), (Four, Hearts), (Two, Hearts)]);
    let best = evaluate_many(all);
    assert_eq!(best.value(), evaluate(flush).value());
    assert!(best.hand_type() == HandType::Flush);
    let mut best_of_five = 0;
    let listed = all.to_cards();
    let n = listed.len();
    for a in 0..n {
        for b in a + 1..n {
            for c in b + 1..n {
                for d in c + 1..n {
                    for e in d + 1..n {
                        let five = CardSet::from_cards(&[listed[a], listed[b], listed[c], listed[d], listed[e]]);
                        let v = evaluate(five).value();
                        if v > best_of_five {
                            best_of_five = v;
                        }
                    }
                }
            }
        }
    }
    assert_eq!(best_of_five, best.value());
}

/// The standard comparison key of five cards: the category, then the ranks
/// that decide within it (a straight by its top card, the wheel by its five;
/// otherwise groups by size, then by rank).
fn standard_key(cards: &[Card]) -> (u32, Vec<i32>) {
    let mut counts = [0u32; 13];
    for card in cards {
        counts[card.rank().index() as usize] += 1;
    }
    let flush = cards.iter().all(|c| c.suit() == cards[0].suit());
    let mut distinct: Vec<i32> = (0..13).rev().filter(|&r| counts[r as usize] > 0).collect();
    let straight_top = if distinct.len() == 5 && distinct[0] - distinct[4] == 4 {
        Some(distinct[0])
    } else if distinct == vec![12, 3, 2, 1, 0] {
        Some(3)
    } else {
        None
    };
    distinct.sort_by(|a, b| counts[*b as usize].cmp(&counts[*a as usize]).then(b.cmp(a)));
    let shape: Vec<u32> = distinct.iter().map(|&r| counts[r as usize]).collect();
    let category = match (straight_top, flush, shape.as_slice()) {
        (Some(_), true, _) => 9,
        (_, _, [4, 1]) => 8,
        (_, _, [3, 2]) => 7,
        (_, true, _) => 6,
        (Some(_), false, _) => 5,
        (_, _, [3, 1, 1]) => 4,
        (_, _, [2, 2, 1]) => 3,
        (_, _, [2, 1, 1, 1]) => 2,
        _ => 1,
    };
    match (category, straight_top) {
        (9, Some(top)) | (5, Some(top)) => (category, vec![top]),
        _ => (category, distinct),
    }
}

#[test]
fn evaluate_orders_hands_as_the_standard_rules_do() {
    let mut hands: Vec<Vec<Card>> = Vec::new();
    let mut seed: u64 = 0x2545F4914F6CDD1D;
    while hands.len() < 40000 {
        let mut ids: Vec<i32> = Vec::new();
        while ids.len() < 5 {
            seed = seed.wrapping_mul(6364136223846793005).wrapping_add(1442695040888963407);
            let id = ((seed >> 33) % 52) as i32 + 1;
            if !ids.contains(&id) {
                ids.push(id);
            }
        }
        hands.push(ids.into_iter().map(Card::from_index).collect());
    }
    // Every straight flush, and flushes of one suit from a spread of rank choices.
    for su in 0..4 {
        for low in 0..9 {
            hands.push((low..low + 5).map(|r| Card::from_index(r * 4 + su + 1)).collect());
        }
        hands.push([12, 0, 1, 2, 3].iter().map(|r| Card::from_index(r * 4 + su + 1)).collect());
        for a in 4..13 {
            for b in 0..a {
                let ranks = [a, (a + b) % 13, (b + 5) % 13, (a + 7) % 13, (b + 11) % 13];
                let mut seen = ranks.to_vec();
                seen.sort();
                seen.dedup();
                if seen.len() == 5 {
                    hands.push(seen.iter().map(|r| Card::from_index(r * 4 + su + 1)).collect());
                }
            }
        }
    }
    let mut keyed: Vec<((u32, Vec<i32>), i32)> = hands
        .iter()
        .map(|h| (standard_key(h), evaluate(CardSet::from_cards(h)).value()))
        .collect();
    keyed.sort();
    for pair in keyed.windows(2) {
        let (ka, va) = &pair[0];
        let (kb, vb) = &pair[1];
        if ka == kb {
            assert_eq!(va, vb);
        } else {
            assert!(va < vb, "{:?} {} vs {:?} {}", ka, va, kb, vb);
        }
        assert_eq!(va >> 12, ka.0 as i32);
    }
}
