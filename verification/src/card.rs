//! Cards, suits, ranks, and sets of cards held in one 52-bit word.
//!
//! A card is numbered `1..=52`: `2s 2h 2d 2c 3s ... As Ah Ad Ac`, that is
//! `rank * 4 + suit + 1`. In a `CardSet`, card `c` is bit `c - 1`.
use vstd::prelude::*;
use vstd::string::*;
use crate::bits::{bit_set, count_bits, count_ones};

verus! {

/// The rank of card number `c`, `0` (two) to `12` (ace).
pub open spec fn card_rank(c: int) -> int {
    (c - 1) / 4
}

/// The suit of card number `c`, `0` (spades) to `3` (clubs).
pub open spec fn card_suit(c: int) -> int {
    (c - 1) % 4
}

/// The number of the card of rank `r` and suit `s`.
pub open spec fn card_number(r: int, s: int) -> int {
    r * 4 + s + 1
}

/// All 52 card numbers.
pub open spec fn full_deck() -> Set<int> {
    Set::new(|c: int| 1 <= c <= 52)
}

#[derive(Debug, Clone, Copy, PartialEq, Eq, Structural, PartialOrd, Ord, Hash)]
pub enum Suit {
    Spades,
    Hearts,
    Diamonds,
    Clubs,
}

impl Suit {
    pub open spec fn idx(self) -> int {
        match self {
            Suit::Spades => 0,
            Suit::Hearts => 1,
            Suit::Diamonds => 2,
            Suit::Clubs => 3,
        }
    }

    pub fn index(&self) -> (i: i32)
        ensures
            i == self.idx(),
            0 <= i < 4,
    {
        match self {
            Suit::Spades => 0,
            Suit::Hearts => 1,
            Suit::Diamonds => 2,
            Suit::Clubs => 3,
        }
    }

    /// The suit numbered `value`.
    pub fn from_index(value: i32) -> (s: Suit)
        requires
            0 <= value < 4,
        ensures
            s.idx() == value,
    {
        match value {
            0 => Suit::Spades,
            1 => Suit::Hearts,
            2 => Suit::Diamonds,
            _ => Suit::Clubs,
        }
    }
}

#[derive(Debug, Clone, Copy, PartialEq, Eq, Structural, PartialOrd, Ord, Hash)]
pub enum Rank {
    Two,
    Three,
    Four,
    Five,
    Six,
    Seven,
    Eight,
    Nine,
    Ten,
    Jack,
    Queen,
    King,
    Ace,
}

impl Rank {
    pub open spec fn idx(self) -> int {
        match self {
            Rank::Two => 0,
            Rank::Three => 1,
            Rank::Four => 2,
            Rank::Five => 3,
            Rank::Six => 4,
            Rank::Seven => 5,
            Rank::Eight => 6,
            Rank::Nine => 7,
            Rank::Ten => 8,
            Rank::Jack => 9,
            Rank::Queen => 10,
            Rank::King => 11,
            Rank::Ace => 12,
        }
    }

    pub fn index(&self) -> (i: i32)
        ensures
            i == self.idx(),
            0 <= i < 13,
    {
        match self {
            Rank::Two => 0,
            Rank::Three => 1,
            Rank::Four => 2,
            Rank::Five => 3,
            Rank::Six => 4,
            Rank::Seven => 5,
            Rank::Eight => 6,
            Rank::Nine => 7,
            Rank::Ten => 8,
            Rank::Jack => 9,
            Rank::Queen => 10,
            Rank::King => 11,
            Rank::Ace => 12,
        }
    }

    /// The rank numbered `value`.
    pub fn from_index(value: i32) -> (r: Rank)
        requires
            0 <= value < 13,
        ensures
            r.idx() == value,
    {
        match value {
            0 => Rank::Two,
            1 => Rank::Three,
            2 => Rank::Four,
            3 => Rank::Five,
            4 => Rank::Six,
            5 => Rank::Seven,
            6 => Rank::Eight,
            7 => Rank::Nine,
            8 => Rank::Ten,
            9 => Rank::Jack,
            10 => Rank::Queen,
            11 => Rank::King,
            _ => Rank::Ace,
        }
    }
}

/// The symbol of rank `r`: `2`..`9`, `T`, `J`, `Q`, `K`, `A`.
pub open spec fn rank_symbol(r: int) -> char {
    if r == 0 {
        '2'
    } else if r == 1 {
        '3'
    } else if r == 2 {
        '4'
    } else if r == 3 {
        '5'
    } else if r == 4 {
        '6'
    } else if r == 5 {
        '7'
    } else if r == 6 {
        '8'
    } else if r == 7 {
        '9'
    } else if r == 8 {
        'T'
    } else if r == 9 {
        'J'
    } else if r == 10 {
        'Q'
    } else if r == 11 {
        'K'
    } else {
        'A'
    }
}

/// The symbol of suit `s`: `s`, `h`, `d`, `c`.
pub open spec fn suit_symbol(s: int) -> char {
    if s == 0 {
        's'
    } else if s == 1 {
        'h'
    } else if s == 2 {
        'd'
    } else {
        'c'
    }
}

/// The rank whose symbol is the byte `b`, or `-1`.
pub open spec fn rank_of_symbol(b: u8) -> int {
    if b == 50 {
        0
    } else if b == 51 {
        1
    } else if b == 52 {
        2
    } else if b == 53 {
        3
    } else if b == 54 {
        4
    } else if b == 55 {
        5
    } else if b == 56 {
        6
    } else if b == 57 {
        7
    } else if b == 84 {
        8
    } else if b == 74 {
        9
    } else if b == 81 {
        10
    } else if b == 75 {
        11
    } else if b == 65 {
        12
    } else {
        -1
    }
}

/// The suit whose symbol is the byte `b`, or `-1`.
pub open spec fn suit_of_symbol(b: u8) -> int {
    if b == 115 {
        0
    } else if b == 104 {
        1
    } else if b == 100 {
        2
    } else if b == 99 {
        3
    } else {
        -1
    }
}

/// Why a text is not a card.
#[derive(Debug, Clone, Copy, PartialEq, Eq, Structural)]
pub enum CardParseError {
    InvalidLength,
    InvalidRank,
    InvalidSuit,
}

impl CardParseError {
    pub fn message(&self) -> (m: &'static str)
        ensures
            *self == CardParseError::InvalidLength ==> m@ == "Invalid card length"@,
            *self == CardParseError::InvalidRank ==> m@ == "Invalid rank"@,
            *self == CardParseError::InvalidSuit ==> m@ == "Invalid suit"@,
    {
        match self {
            CardParseError::InvalidLength => "Invalid card length",
            CardParseError::InvalidRank => "Invalid rank",
            CardParseError::InvalidSuit => "Invalid suit",
        }
    }
}

/// A playing card.
#[derive(Clone, Copy, PartialEq, Eq, Structural, PartialOrd, Ord, Hash, Debug)]
pub struct Card {
    pub rank: Rank,
    pub suit: Suit,
}

impl View for Card {
    type V = int;

    /// The card's number, `1..=52`.
    open spec fn view(&self) -> int {
        card_number(self.rank.idx(), self.suit.idx())
    }
}

/// The numbers of the cards in `cards`.
pub open spec fn numbers_of(cards: Seq<Card>) -> Set<int> {
    Set::new(|c: int| exists|j: int| 0 <= j < cards.len() && cards[j]@ == c)
}

/// Appending a card adds its number.
pub proof fn lemma_numbers_of_push(cards: Seq<Card>, c: Card)
    ensures
        numbers_of(cards.push(c)) == numbers_of(cards).insert(c@),
{
    let t = cards.push(c);
    assert forall|x: int| #[trigger] numbers_of(t).contains(x) implies numbers_of(cards).insert(
        c@,
    ).contains(x) by {
        let j = choose|j: int| #![trigger t[j]] 0 <= j < t.len() && t[j]@ == x;
        if j < cards.len() {
            assert(t[j] == cards[j]);
        }
    }
    assert forall|x: int| #[trigger] numbers_of(cards).insert(c@).contains(x) implies numbers_of(
        t,
    ).contains(x) by {
        if x == c@ {
            assert(t[cards.len() as int] == c);
        } else {
            let j = choose|j: int| #![trigger cards[j]] 0 <= j < cards.len() && cards[j]@ == x;
            assert(t[j] == cards[j]);
        }
    }
    assert(numbers_of(t) =~= numbers_of(cards).insert(c@));
}

impl Card {
    pub fn new(rank: Rank, suit: Suit) -> (c: Card)
        ensures
            c@ == card_number(rank.idx(), suit.idx()),
            c.rank == rank,
            c.suit == suit,
    {
        Card { rank, suit }
    }

    pub fn suit(&self) -> (s: Suit)
        ensures
            s.idx() == card_suit(self@),
            s == self.suit,
    {
        proof {
            Card::lemma_number(*self);
        }
        self.suit
    }

    pub fn rank(&self) -> (r: Rank)
        ensures
            r.idx() == card_rank(self@),
            r == self.rank,
    {
        proof {
            Card::lemma_number(*self);
        }
        self.rank
    }

    /// The card numbered `value`.
    pub fn from_index(value: i32) -> (c: Card)
        requires
            1 <= value <= 52,
        ensures
            c@ == value,
    {
        let r = Rank::from_index((value - 1) / 4);
        let s = Suit::from_index((value - 1) % 4);
        Card { rank: r, suit: s }
    }

    /// The card's number, `1..=52`.
    pub fn index(&self) -> (i: i32)
        ensures
            i == self@,
            1 <= i <= 52,
    {
        self.rank.index() * 4 + self.suit.index() + 1
    }

    /// A card number lies in `1..=52` and encodes the card's rank and suit.
    pub proof fn lemma_number(c: Card)
        ensures
            1 <= c@ <= 52,
            card_rank(c@) == c.rank.idx(),
            card_suit(c@) == c.suit.idx(),
    {
    }

    /// Two cards with the same number are the same card.
    pub proof fn lemma_number_injective(a: Card, b: Card)
        requires
            a@ == b@,
        ensures
            a == b,
    {
        Card::lemma_number(a);
        Card::lemma_number(b);
    }

    /// Reads a card written as its rank symbol then its suit symbol, such as `As`.
    pub fn parse(text: &str) -> (res: Result<Card, CardParseError>)
        ensures
            text.spec_bytes().len() != 2 ==> res == Err::<Card, CardParseError>(
                CardParseError::InvalidLength,
            ),
            text.spec_bytes().len() == 2 && rank_of_symbol(text.spec_bytes()[0]) < 0 ==> res
                == Err::<Card, CardParseError>(CardParseError::InvalidRank),
            text.spec_bytes().len() == 2 && rank_of_symbol(text.spec_bytes()[0]) >= 0
                && suit_of_symbol(text.spec_bytes()[1]) < 0 ==> res == Err::<Card, CardParseError>(
                CardParseError::InvalidSuit,
            ),
            text.spec_bytes().len() == 2 && rank_of_symbol(text.spec_bytes()[0]) >= 0
                && suit_of_symbol(text.spec_bytes()[1]) >= 0 ==> res.is_ok() && res.unwrap()@
                == card_number(
                rank_of_symbol(text.spec_bytes()[0]),
                suit_of_symbol(text.spec_bytes()[1]),
            ),
    {
        let bytes = text.as_bytes();
        if bytes.len() != 2 {
            return Err(CardParseError::InvalidLength);
        }
        let r = rank_from_symbol(bytes[0]);
        if r < 0 {
            return Err(CardParseError::InvalidRank);
        }
        let s = suit_from_symbol(bytes[1]);
        if s < 0 {
            return Err(CardParseError::InvalidSuit);
        }
        Ok(Card::new(Rank::from_index(r), Suit::from_index(s)))
    }

    /// The card written as its rank symbol then its suit symbol, such as `As`.
    pub fn to_string(&self) -> (text: String)
        ensures
            text@ == seq![rank_symbol(self.rank.idx()), suit_symbol(self.suit.idx())],
    {
        let mut text = String::new();
        text.append(rank_text(self.rank));
        text.append(suit_text(self.suit));
        text
    }
}

fn rank_from_symbol(b: u8) -> (r: i32)
    ensures
        r == rank_of_symbol(b),
{
    if b == 50 {
        0
    } else if b == 51 {
        1
    } else if b == 52 {
        2
    } else if b == 53 {
        3
    } else if b == 54 {
        4
    } else if b == 55 {
        5
    } else if b == 56 {
        6
    } else if b == 57 {
        7
    } else if b == 84 {
        8
    } else if b == 74 {
        9
    } else if b == 81 {
        10
    } else if b == 75 {
        11
    } else if b == 65 {
        12
    } else {
        -1
    }
}

fn suit_from_symbol(b: u8) -> (s: i32)
    ensures
        s == suit_of_symbol(b),
{
    if b == 115 {
        0
    } else if b == 104 {
        1
    } else if b == 100 {
        2
    } else if b == 99 {
        3
    } else {
        -1
    }
}

fn rank_text(r: Rank) -> (t: &'static str)
    ensures
        t@ == seq![rank_symbol(r.idx())],
{
    match r {
        Rank::Two => {
            proof {
                reveal_strlit("2");
            }
            "2"
        },
        Rank::Three => {
            proof {
                reveal_strlit("3");
            }
            "3"
        },
        Rank::Four => {
            proof {
                reveal_strlit("4");
            }
            "4"
        },
        Rank::Five => {
            proof {
                reveal_strlit("5");
            }
            "5"
        },
        Rank::Six => {
            proof {
                reveal_strlit("6");
            }
            "6"
        },
        Rank::Seven => {
            proof {
                reveal_strlit("7");
            }
            "7"
        },
        Rank::Eight => {
            proof {
                reveal_strlit("8");
            }
            "8"
        },
        Rank::Nine => {
            proof {
                reveal_strlit("9");
            }
            "9"
        },
        Rank::Ten => {
            proof {
                reveal_strlit("T");
            }
            "T"
        },
        Rank::Jack => {
            proof {
                reveal_strlit("J");
            }
            "J"
        },
        Rank::Queen => {
            proof {
                reveal_strlit("Q");
            }
            "Q"
        },
        Rank::King => {
            proof {
                reveal_strlit("K");
            }
            "K"
        },
        Rank::Ace => {
            proof {
                reveal_strlit("A");
            }
            "A"
        },
    }
}

fn suit_text(s: Suit) -> (t: &'static str)
    ensures
        t@ == seq![suit_symbol(s.idx())],
{
    match s {
        Suit::Spades => {
            proof {
                reveal_strlit("s");
            }
            "s"
        },
        Suit::Hearts => {
            proof {
                reveal_strlit("h");
            }
            "h"
        },
        Suit::Diamonds => {
            proof {
                reveal_strlit("d");
            }
            "d"
        },
        Suit::Clubs => {
            proof {
                reveal_strlit("c");
            }
            "c"
        },
    }
}

/// The card numbers whose bits are set in `x`.
pub open spec fn cards_of_bits(x: u64) -> Set<int> {
    Set::new(|c: int| 1 <= c <= 52 && bit_set(x, c - 1))
}

/// The cards of `s` with numbers up to `n`, in increasing order.
pub open spec fn sorted_numbers(s: Set<int>, n: int) -> Seq<int>
    decreases n,
{
    if n <= 0 {
        Seq::empty()
    } else if s.contains(n) {
        sorted_numbers(s, n - 1).push(n)
    } else {
        sorted_numbers(s, n - 1)
    }
}

/// The word whose 52 low bits are all set.
pub const DECK_MASK: u64 = 0xFFFFFFFFFFFFFu64;

/// A set of cards: card `c` is held when bit `c - 1` is set.
#[derive(Clone, Copy, PartialEq, Eq, Structural, Hash, Debug)]
pub struct CardSet(u64);

impl CardSet {
    #[verifier::type_invariant]
    spec fn inv(self) -> bool {
        self.0 < 0x10000000000000u64
    }

    /// The word that holds the set.
    pub closed spec fn bits(self) -> u64 {
        self.0
    }
}

impl View for CardSet {
    type V = Set<int>;

    open spec fn view(&self) -> Set<int> {
        cards_of_bits(self.bits())
    }
}

proof fn lemma_cards_below(x: u64, n: int)
    requires
        0 <= n <= 52,
    ensures
        Set::new(|c: int| 1 <= c <= n && bit_set(x, c - 1)).finite(),
        Set::new(|c: int| 1 <= c <= n && bit_set(x, c - 1)).len() == count_bits(x, n as nat),
    decreases n,
{
    let s = Set::new(|c: int| 1 <= c <= n && bit_set(x, c - 1));
    if n == 0 {
        assert(s =~= Set::empty());
    } else {
        lemma_cards_below(x, n - 1);
        let t = Set::new(|c: int| 1 <= c <= n - 1 && bit_set(x, c - 1));
        if bit_set(x, n - 1) {
            assert(s =~= t.insert(n));
        } else {
            assert(s =~= t);
        }
    }
}

/// The cards of a word are finite, and as many as its low 52 one bits.
pub proof fn lemma_cards_of_bits_len(x: u64)
    ensures
        cards_of_bits(x).finite(),
        cards_of_bits(x).len() == count_bits(x, 52),
{
    lemma_cards_below(x, 52);
    assert(cards_of_bits(x) =~= Set::new(|c: int| 1 <= c <= 52 && bit_set(x, c - 1)));
}

proof fn lemma_or_below(a: u64, b: u64)
    requires
        a < 0x10000000000000u64,
        b < 0x10000000000000u64,
    ensures
        a | b < 0x10000000000000u64,
        a & b < 0x10000000000000u64,
{
    assert(a | b < 0x10000000000000u64) by (bit_vector)
        requires
            a < 0x10000000000000u64,
            b < 0x10000000000000u64,
    ;
    assert(a & b < 0x10000000000000u64) by (bit_vector)
        requires
            a < 0x10000000000000u64,
    ;
}

impl CardSet {
    /// The set with exactly the cards whose bits are set in `bits`.
    pub fn from_bits(bits: u64) -> (s: CardSet)
        requires
            bits < 0x10000000000000u64,
        ensures
            s@ == cards_of_bits(bits),
            s.bits() == bits,
    {
        CardSet(bits)
    }

    /// The word that holds the set.
    pub fn to_bits(&self) -> (bits: u64)
        ensures
            bits == self.bits(),
            bits < 0x10000000000000u64,
    {
        proof {
            use_type_invariant(self);
        }
        self.0
    }

    /// The set is finite and its word is below `2^52`.
    pub fn check_finite(&self)
        ensures
            self@.finite(),
            self@ <= full_deck(),
            self.bits() < 0x10000000000000u64,
    {
        proof {
            use_type_invariant(self);
            lemma_cards_of_bits_len(self.0);
        }
    }

    pub fn empty() -> (s: CardSet)
        ensures
            s@ == Set::<int>::empty(),
    {
        proof {
            assert forall|c: int| !cards_of_bits(0u64).contains(c) by {
                crate::bits::lemma_bit_zero(c - 1);
            }
            assert(cards_of_bits(0u64) =~= Set::<int>::empty());
        }
        CardSet(0)
    }

    pub fn insert(&mut self, card: Card)
        ensures
            final(self)@ == old(self)@.insert(card@),
    {
        proof {
            use_type_invariant(&*self);
            Card::lemma_number(card);
        }
        let k = (card.index() - 1) as u64;
        let old_bits = self.0;
        let new_bits = old_bits | (1u64 << k);
        proof {
            assert(old_bits | (1u64 << k) < 0x10000000000000u64) by (bit_vector)
                requires
                    old_bits < 0x10000000000000u64,
                    k < 52,
            ;
            assert forall|c: int|
                cards_of_bits(new_bits).contains(c) == old(self)@.insert(card@).contains(c) by {
                if 1 <= c <= 52 {
                    crate::bits::lemma_bit_or(old_bits, 1u64 << k, c - 1);
                    crate::bits::lemma_bit_single(k, c - 1);
                }
            }
            assert(cards_of_bits(new_bits) =~= old(self)@.insert(card@));
        }
        self.0 = new_bits;
    }

    pub fn contains(&self, card: &Card) -> (b: bool)
        ensures
            b == self@.contains(card@),
    {
        proof {
            Card::lemma_number(*card);
        }
        let k = (card.index() - 1) as u64;
        let bits = self.0;
        proof {
            assert(((bits & (1u64 << k)) != 0u64) == ((bits >> k) & 1u64 == 1u64)) by (bit_vector)
                requires
                    k < 64,
            ;
        }
        (bits & (1u64 << k)) != 0
    }

    pub fn from_cards(cards: &[Card]) -> (s: CardSet)
        ensures
            s@ == numbers_of(cards@),
    {
        let mut set = CardSet::empty();
        let mut i: usize = 0;
        while i < cards.len()
            invariant
                i <= cards.len(),
                set@ == numbers_of(cards@.take(i as int)),
            decreases cards.len() - i,
        {
            set.insert(cards[i]);
            proof {
                assert(cards@.take(i + 1) =~= cards@.take(i as int).push(cards@[i as int]));
                lemma_numbers_of_push(cards@.take(i as int), cards@[i as int]);
            }
            i = i + 1;
        }
        assert(cards@.take(cards.len() as int) =~= cards@);
        set
    }

    /// The cards of the set in increasing order of number.
    pub fn to_cards(&self) -> (cards: Vec<Card>)
        ensures
            cards@.map_values(|c: Card| c@) == sorted_numbers(self@, 52),
    {
        let mut cards: Vec<Card> = Vec::new();
        let mut i: i32 = 0;
        let bits = self.0;
        while i < 52
            invariant
                0 <= i <= 52,
                bits == self.bits(),
                cards@.map_values(|c: Card| c@) == sorted_numbers(self@, i as int),
            decreases 52 - i,
        {
            let k = i as u64;
            proof {
                assert(((bits & (1u64 << k)) != 0u64) == ((bits >> k) & 1u64 == 1u64))
                    by (bit_vector)
                    requires
                        k < 64,
                ;
            }
            if (bits & (1u64 << k)) != 0 {
                let c = Card::from_index(i + 1);
                cards.push(c);
                assert(cards@.map_values(|c: Card| c@) =~= sorted_numbers(self@, i + 1));
            } else {
                assert(cards@.map_values(|c: Card| c@) =~= sorted_numbers(self@, i + 1));
            }
            i = i + 1;
        }
        cards
    }

    pub fn len(&self) -> (n: usize)
        ensures
            n == self@.len(),
            self@.finite(),
            n <= 52,
    {
        proof {
            use_type_invariant(self);
            lemma_cards_of_bits_len(self.0);
            crate::bits::lemma_count_bits_le(self.0, 52);
            crate::bits::lemma_count_bits_high(self.0, 64);
        }
        count_ones(self.0) as usize
    }

    pub fn is_empty(&self) -> (b: bool)
        ensures
            b == (self@ == Set::<int>::empty()),
    {
        proof {
            use_type_invariant(self);
            if self.0 != 0 {
                if self@ =~= Set::<int>::empty() {
                    assert forall|i: int| 0 <= i < 64 implies bit_set(self.0, i) == bit_set(
                        0u64,
                        i,
                    ) by {
                        crate::bits::lemma_bit_zero(i);
                        if i >= 52 {
                            crate::bits::lemma_bit_high(self.0, i);
                        } else {
                            assert(!self@.contains(i + 1));
                        }
                    }
                    crate::bits::lemma_bits_ext(self.0, 0u64);
                }
            } else {
                assert forall|c: int| !self@.contains(c) by {
                    crate::bits::lemma_bit_zero(c - 1);
                }
                assert(self@ =~= Set::<int>::empty());
            }
        }
        self.0 == 0
    }

    pub fn union(&self, other: &CardSet) -> (s: CardSet)
        ensures
            s@ == self@.union(other@),
            s.bits() == self.bits() | other.bits(),
    {
        proof {
            use_type_invariant(self);
            use_type_invariant(other);
            lemma_or_below(self.0, other.0);
            assert forall|c: int|
                cards_of_bits(self.0 | other.0).contains(c) == self@.union(other@).contains(c) by {
                if 1 <= c <= 52 {
                    crate::bits::lemma_bit_or(self.0, other.0, c - 1);
                }
            }
            assert(cards_of_bits(self.0 | other.0) =~= self@.union(other@));
        }
        CardSet(self.0 | other.0)
    }

    pub fn intersection(&self, other: &CardSet) -> (s: CardSet)
        ensures
            s@ == self@.intersect(other@),
            s.bits() == self.bits() & other.bits(),
    {
        proof {
            use_type_invariant(self);
            use_type_invariant(other);
            lemma_or_below(self.0, other.0);
            assert forall|c: int|
                cards_of_bits(self.0 & other.0).contains(c) == self@.intersect(other@).contains(
                    c,
                ) by {
                if 1 <= c <= 52 {
                    crate::bits::lemma_bit_and(self.0, other.0, c - 1);
                }
            }
            assert(cards_of_bits(self.0 & other.0) =~= self@.intersect(other@));
        }
        CardSet(self.0 & other.0)
    }

    /// The cards of the deck that are not in the set.
    pub fn complement(&self) -> (s: CardSet)
        ensures
            s@ == full_deck().difference(self@),
            s.bits() == !self.bits() & DECK_MASK,
    {
        let bits = self.0;
        let new_bits = !bits & DECK_MASK;
        proof {
            assert(!bits & 0xFFFFFFFFFFFFFu64 < 0x10000000000000u64) by (bit_vector);
            assert forall|c: int|
                cards_of_bits(new_bits).contains(c) == full_deck().difference(self@).contains(c) by {
                if 1 <= c <= 52 {
                    crate::bits::lemma_bit_and(!bits, DECK_MASK, c - 1);
                    crate::bits::lemma_bit_not(bits, c - 1);
                    let k = (c - 1) as u64;
                    assert((0xFFFFFFFFFFFFFu64 >> k) & 1u64 == 1u64) by (bit_vector)
                        requires
                            k < 52,
                    ;
                }
            }
            assert(cards_of_bits(new_bits) =~= full_deck().difference(self@));
        }
        CardSet(new_bits)
    }
}

impl Default for CardSet {
    fn default() -> (s: CardSet)
        ensures
            s@ == Set::<int>::empty(),
    {
        CardSet::empty()
    }
}

impl vstd::std_specs::ops::NotSpecImpl for CardSet {
    open spec fn obeys_not_spec() -> bool {
        true
    }

    open spec fn not_req(self) -> bool {
        true
    }

    closed spec fn not_spec(self) -> CardSet {
        CardSet(!self.0 & DECK_MASK)
    }
}

impl vstd::std_specs::ops::BitOrSpecImpl for CardSet {
    open spec fn obeys_bitor_spec() -> bool {
        true
    }

    open spec fn bitor_req(self, rhs: CardSet) -> bool {
        true
    }

    closed spec fn bitor_spec(self, rhs: CardSet) -> CardSet {
        CardSet(self.0 | rhs.0)
    }
}

impl vstd::std_specs::ops::BitAndSpecImpl for CardSet {
    open spec fn obeys_bitand_spec() -> bool {
        true
    }

    open spec fn bitand_req(self, rhs: CardSet) -> bool {
        true
    }

    closed spec fn bitand_spec(self, rhs: CardSet) -> CardSet {
        CardSet(self.0 & rhs.0)
    }
}

impl core::ops::Not for CardSet {
    type Output = CardSet;

    fn not(self) -> (s: CardSet)
        ensures
            s@ == full_deck().difference(self@),
    {
        self.complement()
    }
}

impl core::ops::BitOr for CardSet {
    type Output = CardSet;

    fn bitor(self, rhs: CardSet) -> (s: CardSet)
        ensures
            s@ == self@.union(rhs@),
    {
        self.union(&rhs)
    }
}

impl core::ops::BitAnd for CardSet {
    type Output = CardSet;

    fn bitand(self, rhs: CardSet) -> (s: CardSet)
        ensures
            s@ == self@.intersect(rhs@),
    {
        self.intersection(&rhs)
    }
}

impl core::ops::BitOrAssign for CardSet {
    fn bitor_assign(&mut self, rhs: CardSet)
        ensures
            final(self)@ == old(self)@.union(rhs@),
    {
        *self = self.union(&rhs);
    }
}

impl core::ops::BitAndAssign for CardSet {
    fn bitand_assign(&mut self, rhs: CardSet)
        ensures
            final(self)@ == old(self)@.intersect(rhs@),
    {
        *self = self.intersection(&rhs);
    }
}

/// The four cards of rank `r`.
pub open spec fn rank_cards(r: int) -> Set<int> {
    Set::new(|c: int| 1 <= c <= 52 && card_rank(c) == r)
}

/// The thirteen cards of suit `su`.
pub open spec fn suit_cards(su: int) -> Set<int> {
    Set::new(|c: int| 1 <= c <= 52 && card_suit(c) == su)
}

impl CardSet {
    /// The same cards as `other`.
    pub fn same_cards(&self, other: &CardSet) -> (b: bool)
        ensures
            b == (self@ == other@),
    {
        proof {
            use_type_invariant(self);
            use_type_invariant(other);
            if self@ == other@ {
                assert forall|i: int| 0 <= i < 64 implies bit_set(self.0, i) == bit_set(other.0, i) by {
                    if i >= 52 {
                        crate::bits::lemma_bit_high(self.0, i);
                        crate::bits::lemma_bit_high(other.0, i);
                    } else {
                        assert(self@.contains(i + 1) == other@.contains(i + 1));
                    }
                }
                crate::bits::lemma_bits_ext(self.0, other.0);
            }
        }
        self.0 == other.0
    }

    /// The four cards of rank `r`.
    pub fn of_rank(r: i32) -> (s: CardSet)
        requires
            0 <= r < 13,
        ensures
            s@ == rank_cards(r as int),
    {
        let k = (r * 4) as u64;
        let bits = 0xFu64 << k;
        proof {
            assert(0xFu64 << k < 0x10000000000000u64) by (bit_vector)
                requires
                    k <= 48,
            ;
            assert forall|c: int| cards_of_bits(bits).contains(c) == rank_cards(r as int).contains(c) by {
                if 1 <= c <= 52 {
                    let j = (c - 1) as u64;
                    assert(((0xFu64 << k) >> j) & 1u64 == 1u64 <==> (k <= j && j < k + 4)) by (bit_vector)
                        requires
                            k <= 48,
                            j < 52,
                    ;
                }
            }
            assert(cards_of_bits(bits) =~= rank_cards(r as int));
        }
        CardSet(bits)
    }

    /// The thirteen cards of suit `su`.
    pub fn of_suit(su: i32) -> (s: CardSet)
        requires
            0 <= su < 4,
        ensures
            s@ == suit_cards(su as int),
    {
        let k = su as u64;
        let bits = 0x1111111111111u64 << k;
        proof {
            assert(0x1111111111111u64 << k < 0x10000000000000u64) by (bit_vector)
                requires
                    k < 4,
            ;
            assert forall|c: int| cards_of_bits(bits).contains(c) == suit_cards(su as int).contains(c) by {
                if 1 <= c <= 52 {
                    let j = (c - 1) as u64;
                    assert(((0x1111111111111u64 << k) >> j) & 1u64 == 1u64 <==> j % 4 == k) by (bit_vector)
                        requires
                            k < 4,
                            j < 52,
                    ;
                }
            }
            assert(cards_of_bits(bits) =~= suit_cards(su as int));
        }
        CardSet(bits)
    }
}

// ---------------------------------------------------------------------------
// Laws of cards and card sets.
// ---------------------------------------------------------------------------

/// The listing of a set up to `n` holds exactly its cards up to `n`, each
/// once, in increasing order.
pub proof fn lemma_sorted_numbers(s: Set<int>, n: int)
    requires
        0 <= n,
    ensures
        forall|i: int, j: int|
            0 <= i < j < sorted_numbers(s, n).len() ==> sorted_numbers(s, n)[i] < sorted_numbers(
                s,
                n,
            )[j],
        forall|i: int|
            0 <= i < sorted_numbers(s, n).len() ==> 1 <= #[trigger] sorted_numbers(s, n)[i] <= n
                && s.contains(sorted_numbers(s, n)[i]),
        forall|c: int|
            1 <= c <= n && s.contains(c) ==> exists|i: int|
                0 <= i < sorted_numbers(s, n).len() && #[trigger] sorted_numbers(s, n)[i] == c,
    decreases n,
{
    if n > 0 {
        lemma_sorted_numbers(s, n - 1);
        let p = sorted_numbers(s, n - 1);
        if s.contains(n) {
            let q = p.push(n);
            assert(sorted_numbers(s, n) == q);
            assert forall|c: int| 1 <= c <= n && s.contains(c) implies exists|i: int|
                0 <= i < q.len() && #[trigger] q[i] == c by {
                if c == n {
                    assert(q[p.len() as int] == n);
                } else {
                    let i = choose|i: int| 0 <= i < p.len() && #[trigger] p[i] == c;
                    assert(q[i] == c);
                }
            }
        } else {
            assert(sorted_numbers(s, n) == p);
            assert forall|c: int| 1 <= c <= n && s.contains(c) implies exists|i: int|
                0 <= i < p.len() && #[trigger] p[i] == c by {
                assert(c != n);
            }
        }
    }
}

/// Listing a set's cards and collecting them again gives the set back, and
/// the listing has as many cards as the set.
pub proof fn lemma_to_cards_from_cards(s: CardSet, cards: Seq<Card>)
    requires
        cards.map_values(|c: Card| c@) == sorted_numbers(s@, 52),
    ensures
        numbers_of(cards) == s@,
        cards.len() == s@.len(),
        cards.no_duplicates(),
{
    let q = sorted_numbers(s@, 52);
    lemma_sorted_numbers(s@, 52);
    lemma_cards_of_bits_len(s.bits());
    assert forall|c: int| numbers_of(cards).contains(c) == s@.contains(c) by {
        if numbers_of(cards).contains(c) {
            let j = choose|j: int| 0 <= j < cards.len() && cards[j]@ == c;
            assert(q[j] == cards[j]@);
        }
        if s@.contains(c) {
            let i = choose|i: int| 0 <= i < q.len() && #[trigger] q[i] == c;
            assert(cards[i]@ == q[i]);
        }
    }
    assert(numbers_of(cards) =~= s@);
    assert forall|i: int, j: int| 0 <= i < cards.len() && 0 <= j < cards.len() && i != j implies cards[i] != cards[j] by {
        assert(q[i] == cards[i]@ && q[j] == cards[j]@);
    }
    // the listing is as long as the set: count the set by the listing
    lemma_numbers_of_len_distinct(cards);
}

/// Cards without repeats have as many numbers as cards.
pub proof fn lemma_numbers_of_len_distinct(cards: Seq<Card>)
    requires
        cards.no_duplicates(),
    ensures
        numbers_of(cards).finite(),
        numbers_of(cards).len() == cards.len(),
    decreases cards.len(),
{
    if cards.len() == 0 {
        assert(numbers_of(cards) =~= Set::<int>::empty());
    } else {
        let front = cards.drop_last();
        let c = cards.last();
        assert(front.push(c) =~= cards);
        assert(front.no_duplicates());
        lemma_numbers_of_len_distinct(front);
        lemma_numbers_of_push(front, c);
        if numbers_of(front).contains(c@) {
            let j = choose|j: int| 0 <= j < front.len() && front[j]@ == c@;
            Card::lemma_number_injective(front[j], c);
            assert(cards[j] == cards[cards.len() - 1]);
        }
    }
}

/// The complement of the complement is the set; a set and its complement
/// share no card and together make the deck.
pub proof fn lemma_complement(s: CardSet)
    ensures
        full_deck().difference(full_deck().difference(s@)) == s@,
        s@.intersect(full_deck().difference(s@)) == Set::<int>::empty(),
        s@.union(full_deck().difference(s@)) == full_deck(),
{
    assert(full_deck().difference(full_deck().difference(s@)) =~= s@);
    assert(s@.intersect(full_deck().difference(s@)) =~= Set::<int>::empty());
    assert(s@.union(full_deck().difference(s@)) =~= full_deck());
}

/// The rank symbols, from two to ace, are `23456789TJQKA`, and the suit
/// symbols, from spades to clubs, are `shdc`; reading a symbol gives back its
/// rank or suit.
pub proof fn lemma_symbols_in_order()
    ensures
        forall|r: int| 0 <= r < 13 ==> #[trigger] rank_symbol(r) == "23456789TJQKA"@[r],
        forall|r: int| 0 <= r < 13 ==> rank_of_symbol(#[trigger] "23456789TJQKA"@[r] as u8) == r,
        forall|su: int| 0 <= su < 4 ==> #[trigger] suit_symbol(su) == "shdc"@[su],
        forall|su: int| 0 <= su < 4 ==> suit_of_symbol(#[trigger] "shdc"@[su] as u8) == su,
{
    reveal_strlit("23456789TJQKA");
    reveal_strlit("shdc");
}

/// Printing a card and reading the text back gives the card's rank and suit:
/// its two symbols are two bytes, which `parse` maps back.
pub proof fn lemma_parse_printed(c: Card, text: &str)
    requires
        text@ == seq![rank_symbol(c.rank.idx()), suit_symbol(c.suit.idx())],
    ensures
        text.spec_bytes().len() == 2,
        rank_of_symbol(text.spec_bytes()[0]) == c.rank.idx(),
        suit_of_symbol(text.spec_bytes()[1]) == c.suit.idx(),
{
    broadcast use vstd::string::is_ascii_spec_bytes;

    assert(is_ascii(text));
    assert(text.spec_bytes() =~= Seq::new(text@.len(), |i| text@.index(i) as u8));
}

} // verus!
