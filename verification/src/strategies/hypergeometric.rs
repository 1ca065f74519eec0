//! The parts of the sampling strategy that deal and choose cards: dealing a
//! shuffled deck to both sides, and the candidate sets of cards to ask for.
use vstd::prelude::*;
use crate::card::{Card, CardSet, card_rank, suit_cards, rank_cards};
use crate::evaluator::{binomial, evaluate, evaluate_many, hand_value, lemma_binomial_below};

verus! {

/// Deals `deck` from position `i`: a card goes to the player when it is in
/// `subset` and the player has fewer than five cards, else to the dealer while
/// the dealer has fewer than `target`; dealing stops once the player has five
/// cards and the dealer is full.
pub open spec fn sample_from(
    player: Set<int>,
    dealer: Set<int>,
    deck: Seq<Card>,
    subset: Set<int>,
    target: int,
    i: int,
) -> (Set<int>, Set<int>)
    decreases deck.len() - i,
{
    if i >= deck.len() || i < 0 {
        (player, dealer)
    } else {
        let c = deck[i]@;
        if subset.contains(c) && player.len() < 5 {
            sample_from(player.insert(c), dealer, deck, subset, target, i + 1)
        } else if dealer.len() < target {
            sample_from(player, dealer.insert(c), deck, subset, target, i + 1)
        } else if player.len() == 5 {
            (player, dealer)
        } else {
            sample_from(player, dealer, deck, subset, target, i + 1)
        }
    }
}

/// Completes both hands from a shuffled deck; the dealer gets at least eight cards' room.
pub fn sample_hands(
    player: CardSet,
    dealer: CardSet,
    deck_cards: &[Card],
    subset: CardSet,
    dealer_cards: usize,
) -> (hands: (CardSet, CardSet))
    ensures
        (hands.0@, hands.1@) == sample_from(
            player@,
            dealer@,
            deck_cards@,
            subset@,
            if dealer_cards >= 8 { dealer_cards as int } else { 8 },
            0,
        ),
{
    let target = if dealer_cards >= 8 { dealer_cards } else { 8 };
    let ghost goal = sample_from(player@, dealer@, deck_cards@, subset@, target as int, 0);
    let mut mine = player;
    let mut theirs = dealer;
    let mut i: usize = 0;
    while i < deck_cards.len()
        invariant
            i <= deck_cards.len(),
            goal == sample_from(mine@, theirs@, deck_cards@, subset@, target as int, i as int),
            goal == sample_from(player@, dealer@, deck_cards@, subset@, target as int, 0),
            target == if dealer_cards >= 8 { dealer_cards } else { 8 },
        decreases deck_cards.len() - i,
    {
        let card = deck_cards[i];
        let mine_len = mine.len();
        let theirs_len = theirs.len();
        if subset.contains(&card) && mine_len < 5 {
            mine.insert(card);
        } else if theirs_len < target {
            theirs.insert(card);
        } else if mine_len == 5 {
            assert(deck_cards@[i as int] == card);
            return (mine, theirs);
        }
        i = i + 1;
    }
    (mine, theirs)
}

/// How many cards of `deck` from position `i` on are in `subset`.
pub open spec fn offered(deck: Seq<Card>, subset: Set<int>, i: int) -> int
    decreases deck.len() - i,
{
    if i >= deck.len() {
        0
    } else {
        offered(deck, subset, i + 1) + if subset.contains(deck[i]@) {
            1int
        } else {
            0int
        }
    }
}

proof fn lemma_offered_nonneg(deck: Seq<Card>, subset: Set<int>, i: int)
    ensures
        offered(deck, subset, i) >= 0,
    decreases deck.len() - i,
{
    if i < deck.len() {
        lemma_offered_nonneg(deck, subset, i + 1);
    }
}

/// Dealing a deck that repeats no card and holds none of either hand, and
/// that offers the player enough wanted cards, gives the player five cards and
/// the dealer all the cards it has room for, up to the deck's end.
pub proof fn lemma_sample_completes(
    player: Set<int>,
    dealer: Set<int>,
    deck: Seq<Card>,
    subset: Set<int>,
    target: int,
    i: int,
)
    requires
        0 <= i <= deck.len(),
        player.finite(),
        dealer.finite(),
        player.len() <= 5,
        forall|j: int, k: int| i <= j < k < deck.len() ==> #[trigger] deck[j]@ != #[trigger] deck[k]@,
        forall|j: int| i <= j < deck.len() ==> !player.contains(#[trigger] deck[j]@) && !dealer.contains(deck[j]@),
        player.len() + offered(deck, subset, i) >= 5,
    ensures
        sample_from(player, dealer, deck, subset, target, i).0.len() == 5,
        sample_from(player, dealer, deck, subset, target, i).1.finite(),
        dealer.subset_of(sample_from(player, dealer, deck, subset, target, i).1),
        sample_from(player, dealer, deck, subset, target, i).1.len() >= dealer.len(),
        sample_from(player, dealer, deck, subset, target, i).1.len() >= target
            || sample_from(player, dealer, deck, subset, target, i).1.len() >= dealer.len() + (deck.len() - i) - (5 - player.len()),
    decreases deck.len() - i,
{
    let result = sample_from(player, dealer, deck, subset, target, i);
    if i < deck.len() {
        let c = deck[i]@;
        assert forall|j: int| i + 1 <= j < deck.len() implies #[trigger] deck[j]@ != c by {
            assert(deck[i]@ != deck[j]@);
        }
        if subset.contains(c) && player.len() < 5 {
            lemma_sample_completes(player.insert(c), dealer, deck, subset, target, i + 1);
        } else if dealer.len() < target {
            lemma_offered_nonneg(deck, subset, i + 1);
            lemma_sample_completes(player, dealer.insert(c), deck, subset, target, i + 1);
            vstd::set_lib::lemma_len_subset(dealer.insert(c), result.1);
        } else if player.len() == 5 {
        } else {
            lemma_sample_completes(player, dealer, deck, subset, target, i + 1);
        }
        vstd::set_lib::lemma_len_subset(dealer, result.1);
    }
}

/// The cards whose rank lies in `lo..hi`.
pub open spec fn rank_band(lo: int, hi: int) -> Set<int> {
    Set::new(|c: int| 1 <= c <= 52 && lo <= card_rank(c) < hi)
}

/// The cards of rank ten and up: the cards asked for before the first one is dealt.
pub fn high_cards() -> (s: CardSet)
    ensures
        s@ == rank_band(8, 13),
{
    let mut s = CardSet::empty();
    let mut r: i32 = 8;
    assert(s@ =~= rank_band(8, 8));
    while r < 13
        invariant
            8 <= r <= 13,
            s@ == rank_band(8, r as int),
        decreases 13 - r,
    {
        s = s.union(&CardSet::of_rank(r));
        assert(s@ =~= rank_band(8, r + 1));
        r = r + 1;
    }
    s
}

/// The cards of the five ranks from `start`.
pub open spec fn rank_window(start: int) -> Set<int> {
    rank_band(start, start + 5)
}

/// The cards of ranks two to five, and the aces.
pub open spec fn wheel_cards() -> Set<int> {
    Set::new(|c: int| 1 <= c <= 52 && (card_rank(c) <= 3 || card_rank(c) == 12))
}

/// Every card of a rank that some card of `held` has.
pub open spec fn ranks_of_cards(held: Set<int>) -> Set<int> {
    Set::new(|c: int| 1 <= c <= 52 && exists|p: int| #[trigger] held.contains(p) && card_rank(p) == card_rank(c))
}

/// `x` is one of the flush candidates of suit `su`: the player's cards all
/// have that suit, and `x` is the deck's cards of the suit, or those of rank
/// `cut` (6 to 10) and up, or a straight window or the wheel of the suit that
/// holds all the player's cards.
pub open spec fn flush_entry(player: Set<int>, deck: Set<int>, su: int, x: Set<int>) -> bool {
    let suited = deck.intersect(suit_cards(su));
    &&& player.subset_of(suit_cards(su))
    &&& {
        ||| x == suited
        ||| exists|cut: int| 6 <= cut < 11 && x == #[trigger] suited.intersect(rank_band(cut, 13))
        ||| exists|start: int|
            #![trigger rank_window(start)]
            0 <= start < 9 && player.subset_of(suited.intersect(rank_window(start))) && x
                == suited.intersect(rank_window(start))
        ||| player.subset_of(suited.intersect(wheel_cards())) && x == suited.intersect(
            wheel_cards(),
        )
    }
}

pub open spec fn flush_family(player: Set<int>, deck: Set<int>) -> Set<Set<int>> {
    Set::new(|x: Set<int>| exists|su: int| 0 <= su < 4 && flush_entry(player, deck, su, x))
}

/// The deck's cards of each five-rank window that holds all the player's cards.
pub open spec fn straight_family(player: Set<int>, deck: Set<int>) -> Set<Set<int>> {
    Set::new(
        |x: Set<int>|
            exists|start: int|
                #![trigger rank_window(start)]
                0 <= start < 9 && player.subset_of(deck.intersect(rank_window(start)))
                    && x == deck.intersect(rank_window(start)),
    )
}

/// The deck's cards of the player's ranks (when the player has cards) and the deck's tens and up.
pub open spec fn rank_family(player: Set<int>, deck: Set<int>) -> Set<Set<int>> {
    Set::new(
        |x: Set<int>|
            (ranks_of_cards(player) != Set::<int>::empty() && x == deck.intersect(
                ranks_of_cards(player),
            )) || x == deck.intersect(rank_band(8, 13)),
    )
}

/// The unions of a set of `a` with a set of `b`.
pub open spec fn unions_of(a: Set<Set<int>>, b: Set<Set<int>>) -> Set<Set<int>> {
    Set::new(|x: Set<int>| exists|y: Set<int>, z: Set<int>| a.contains(y) && b.contains(z) && x == y.union(z))
}

/// The candidate sets of cards to ask for: each flush, straight and rank
/// candidate, and the union of any two from different families.
pub open spec fn candidate_subsets(player: Set<int>, deck: Set<int>) -> Set<Set<int>> {
    let f = flush_family(player, deck);
    let s = straight_family(player, deck);
    let r = rank_family(player, deck);
    f.union(s).union(r).union(unions_of(f, s)).union(unions_of(f, r)).union(unions_of(s, r))
}

proof fn lemma_family_within(fam: Set<Set<int>>, deck: Set<int>, other: Set<Set<int>>)
    requires
        forall|x: Set<int>| #[trigger] fam.contains(x) ==> x.subset_of(deck),
        forall|x: Set<int>| #[trigger] other.contains(x) ==> x.subset_of(deck),
    ensures
        forall|x: Set<int>| #[trigger] unions_of(fam, other).contains(x) ==> x.subset_of(deck),
{
    assert forall|x: Set<int>| #[trigger] unions_of(fam, other).contains(x) implies x.subset_of(deck) by {
        let (y, z) = choose|y: Set<int>, z: Set<int>| fam.contains(y) && other.contains(z) && x == y.union(z);
        assert(y.subset_of(deck) && z.subset_of(deck));
    }
}

/// Every candidate holds only cards of the deck.
pub proof fn lemma_candidates_within_deck(player: Set<int>, deck: Set<int>)
    ensures
        forall|x: Set<int>| #[trigger] candidate_subsets(player, deck).contains(x) ==> x.subset_of(deck),
{
    let f = flush_family(player, deck);
    let st = straight_family(player, deck);
    let r = rank_family(player, deck);
    assert forall|x: Set<int>| #[trigger] f.contains(x) implies x.subset_of(deck) by {
        let su = choose|su: int| 0 <= su < 4 && flush_entry(player, deck, su, x);
        if exists|cut: int| 6 <= cut < 11 && x == #[trigger] deck.intersect(suit_cards(su)).intersect(rank_band(cut, 13)) {
            let cut = choose|cut: int| 6 <= cut < 11 && x == #[trigger] deck.intersect(suit_cards(su)).intersect(rank_band(cut, 13));
            assert(x.subset_of(deck));
        }
        if exists|start: int| #![trigger rank_window(start)] 0 <= start < 9 && x == deck.intersect(suit_cards(su)).intersect(rank_window(start)) {
            let start = choose|start: int| #![trigger rank_window(start)] 0 <= start < 9 && x == deck.intersect(suit_cards(su)).intersect(rank_window(start));
            assert(x.subset_of(deck));
        }
    }
    assert forall|x: Set<int>| #[trigger] st.contains(x) implies x.subset_of(deck) by {
        let start = choose|start: int| #![trigger rank_window(start)] 0 <= start < 9 && player.subset_of(deck.intersect(rank_window(start))) && x == deck.intersect(rank_window(start));
    }
    assert forall|x: Set<int>| #[trigger] r.contains(x) implies x.subset_of(deck) by {
    }
    lemma_family_within(f, deck, st);
    lemma_family_within(f, deck, r);
    lemma_family_within(st, deck, r);
}

/// Every straight window that holds all the player's cards is a candidate:
/// for each `start` from 0 (twos to sixes) to 8 (tens to aces), the deck's
/// cards of ranks `start` to `start + 4` are among the candidates whenever the
/// player's cards all lie among them.
pub proof fn lemma_straight_windows_offered(player: Set<int>, deck: Set<int>, start: int)
    requires
        0 <= start < 9,
        player.subset_of(deck.intersect(Set::new(|c: int| 1 <= c <= 52 && start <= card_rank(c) < start + 5))),
    ensures
        candidate_subsets(player, deck).contains(deck.intersect(Set::new(|c: int| 1 <= c <= 52 && start <= card_rank(c) < start + 5))),
{
    assert(rank_window(start) =~= Set::new(|c: int| 1 <= c <= 52 && start <= card_rank(c) < start + 5));
    assert(straight_family(player, deck).contains(deck.intersect(rank_window(start))));
}

/// The card sets the candidates are built from hold what their names say:
/// a suit's thirteen cards, the cards of a band of ranks, the straight windows
/// of five ranks, the wheel's ranks (two to five, and aces).
pub proof fn lemma_candidate_blocks(c: int, su: int, lo: int, hi: int, start: int)
    ensures
        suit_cards(su).contains(c) <==> (1 <= c <= 52 && (c - 1) % 4 == su),
        rank_band(lo, hi).contains(c) <==> (1 <= c <= 52 && lo <= (c - 1) / 4 < hi),
        rank_window(start).contains(c) <==> (1 <= c <= 52 && start <= (c - 1) / 4 < start + 5),
        wheel_cards().contains(c) <==> (1 <= c <= 52 && ((c - 1) / 4 <= 3 || (c - 1) / 4 == 12)),
{
}

/// The candidates include: the deck's tens and up; the deck's cards of the
/// player's ranks; for a suit that holds all the player's cards, the deck's
/// cards of that suit, of that suit from rank `cut` (6 to 10) up, of that suit
/// in each straight window or the wheel that holds the player's cards; and
/// the unions of a straight window, a suit or the tens and up with one another.
pub proof fn lemma_candidates_offered(player: Set<int>, deck: Set<int>)
    ensures
        candidate_subsets(player, deck).contains(deck.intersect(rank_band(8, 13))),
        (exists|p: int| player.contains(p) && 1 <= p <= 52) ==> candidate_subsets(player, deck).contains(
            deck.intersect(ranks_of_cards(player)),
        ),
        forall|su: int|
            0 <= su < 4 && player.subset_of(suit_cards(su)) ==> #[trigger] candidate_subsets(player, deck).contains(
                deck.intersect(suit_cards(su)),
            ),
        forall|su: int, cut: int|
            0 <= su < 4 && 6 <= cut < 11 && player.subset_of(suit_cards(su)) ==> candidate_subsets(player, deck).contains(
                #[trigger] deck.intersect(suit_cards(su)).intersect(rank_band(cut, 13)),
            ),
        forall|su: int, start: int|
            0 <= su < 4 && 0 <= start < 9 && player.subset_of(deck.intersect(suit_cards(su)).intersect(rank_window(start)))
                ==> candidate_subsets(player, deck).contains(#[trigger] deck.intersect(suit_cards(su)).intersect(rank_window(start))),
        forall|su: int|
            0 <= su < 4 && player.subset_of(deck.intersect(suit_cards(su)).intersect(wheel_cards()))
                ==> candidate_subsets(player, deck).contains(#[trigger] deck.intersect(suit_cards(su)).intersect(wheel_cards())),
        forall|start: int|
            0 <= start < 9 && player.subset_of(deck.intersect(rank_window(start))) ==> candidate_subsets(player, deck).contains(
                #[trigger] deck.intersect(rank_window(start)).union(deck.intersect(rank_band(8, 13))),
            ),
        forall|su: int|
            0 <= su < 4 && player.subset_of(suit_cards(su)) ==> candidate_subsets(player, deck).contains(
                #[trigger] deck.intersect(suit_cards(su)).union(deck.intersect(rank_band(8, 13))),
            ),
        forall|su: int, start: int|
            0 <= su < 4 && 0 <= start < 9 && player.subset_of(suit_cards(su)) && player.subset_of(deck.intersect(rank_window(start)))
                ==> candidate_subsets(player, deck).contains(#[trigger] deck.intersect(suit_cards(su)).union(deck.intersect(rank_window(start)))),
{
    let f = flush_family(player, deck);
    let st = straight_family(player, deck);
    let r = rank_family(player, deck);
    let high = deck.intersect(rank_band(8, 13));
    assert(r.contains(high));
    assert forall|p: int| player.contains(p) && 1 <= p <= 52 implies r.contains(deck.intersect(ranks_of_cards(player))) by {
        assert(ranks_of_cards(player).contains(p));
        assert(ranks_of_cards(player) != Set::<int>::empty());
    }
    assert forall|su: int| 0 <= su < 4 && player.subset_of(suit_cards(su)) implies #[trigger] candidate_subsets(player, deck).contains(
        deck.intersect(suit_cards(su)),
    ) by {
        assert(flush_entry(player, deck, su, deck.intersect(suit_cards(su))));
        assert(f.contains(deck.intersect(suit_cards(su))));
    }
    assert forall|su: int, cut: int|
        0 <= su < 4 && 6 <= cut < 11 && player.subset_of(suit_cards(su)) implies candidate_subsets(player, deck).contains(
            #[trigger] deck.intersect(suit_cards(su)).intersect(rank_band(cut, 13)),
        ) by {
        assert(flush_entry(player, deck, su, deck.intersect(suit_cards(su)).intersect(rank_band(cut, 13))));
        assert(f.contains(deck.intersect(suit_cards(su)).intersect(rank_band(cut, 13))));
    }
    assert forall|su: int, start: int|
        0 <= su < 4 && 0 <= start < 9 && player.subset_of(deck.intersect(suit_cards(su)).intersect(rank_window(start)))
        implies candidate_subsets(player, deck).contains(#[trigger] deck.intersect(suit_cards(su)).intersect(rank_window(start))) by {
        assert(player.subset_of(suit_cards(su)));
        assert(flush_entry(player, deck, su, deck.intersect(suit_cards(su)).intersect(rank_window(start))));
        assert(f.contains(deck.intersect(suit_cards(su)).intersect(rank_window(start))));
    }
    assert forall|su: int|
        0 <= su < 4 && player.subset_of(deck.intersect(suit_cards(su)).intersect(wheel_cards()))
        implies candidate_subsets(player, deck).contains(#[trigger] deck.intersect(suit_cards(su)).intersect(wheel_cards())) by {
        assert(player.subset_of(suit_cards(su)));
        assert(flush_entry(player, deck, su, deck.intersect(suit_cards(su)).intersect(wheel_cards())));
        assert(f.contains(deck.intersect(suit_cards(su)).intersect(wheel_cards())));
    }
    assert forall|start: int|
        0 <= start < 9 && player.subset_of(deck.intersect(rank_window(start))) implies candidate_subsets(player, deck).contains(
            #[trigger] deck.intersect(rank_window(start)).union(deck.intersect(rank_band(8, 13))),
        ) by {
        let w = deck.intersect(rank_window(start));
        assert(st.contains(w));
        assert(unions_of(st, r).contains(w.union(high)));
    }
    assert forall|su: int|
        0 <= su < 4 && player.subset_of(suit_cards(su)) implies candidate_subsets(player, deck).contains(
            #[trigger] deck.intersect(suit_cards(su)).union(deck.intersect(rank_band(8, 13))),
        ) by {
        let x = deck.intersect(suit_cards(su));
        assert(flush_entry(player, deck, su, x));
        assert(f.contains(x));
        assert(unions_of(f, r).contains(x.union(high)));
    }
    assert forall|su: int, start: int|
        0 <= su < 4 && 0 <= start < 9 && player.subset_of(suit_cards(su)) && player.subset_of(deck.intersect(rank_window(start)))
        implies candidate_subsets(player, deck).contains(#[trigger] deck.intersect(suit_cards(su)).union(deck.intersect(rank_window(start)))) by {
        let x = deck.intersect(suit_cards(su));
        let w = deck.intersect(rank_window(start));
        assert(flush_entry(player, deck, su, x));
        assert(f.contains(x));
        assert(st.contains(w));
        assert(unions_of(f, st).contains(x.union(w)));
    }
}

/// The card sets listed in `v`.
pub open spec fn views(v: Seq<CardSet>) -> Set<Set<int>> {
    Set::new(|x: Set<int>| exists|i: int| 0 <= i < v.len() && v[i]@ == x)
}

/// No two sets listed in `v` hold the same cards.
pub open spec fn distinct_views(v: Seq<CardSet>) -> bool {
    forall|i: int, j: int| 0 <= i < j < v.len() ==> v[i]@ != v[j]@
}

proof fn lemma_views_push(v: Seq<CardSet>, y: CardSet)
    ensures
        views(v.push(y)) == views(v).insert(y@),
{
    let w = v.push(y);
    assert forall|x: Set<int>| #[trigger] views(w).contains(x) implies views(v).insert(y@).contains(x) by {
        let i = choose|i: int| 0 <= i < w.len() && w[i]@ == x;
        if i < v.len() {
            assert(w[i] == v[i]);
        }
    }
    assert forall|x: Set<int>| #[trigger] views(v).insert(y@).contains(x) implies views(w).contains(x) by {
        if x == y@ {
            assert(w[v.len() as int] == y);
        } else {
            let i = choose|i: int| 0 <= i < v.len() && v[i]@ == x;
            assert(w[i] == v[i]);
        }
    }
    assert(views(w) =~= views(v).insert(y@));
}

/// All the cards of `player` are in `mask`.
fn covers(player: &CardSet, mask: &CardSet) -> (b: bool)
    ensures
        b == player@.subset_of(mask@),
{
    let common = player.intersection(mask);
    let n = common.len();
    let m = player.len();
    proof {
        let a = player@;
        if !a.subset_of(mask@) {
            let x = choose|x: int| a.contains(x) && !mask@.contains(x);
            vstd::set_lib::lemma_len_subset(a.intersect(mask@), a.remove(x));
        } else {
            assert(a.intersect(mask@) =~= a);
        }
    }
    n == m
}

/// The cards whose rank lies in `lo..hi`.
fn rank_band_set(lo: i32, hi: i32) -> (s: CardSet)
    requires
        0 <= lo <= hi <= 13,
    ensures
        s@ == rank_band(lo as int, hi as int),
{
    let mut s = CardSet::empty();
    let mut r = lo;
    while r < hi
        invariant
            lo <= r <= hi <= 13,
            0 <= lo,
            s@ == rank_band(lo as int, r as int),
        decreases hi - r,
    {
        s = s.union(&CardSet::of_rank(r));
        assert(s@ =~= rank_band(lo as int, r + 1));
        r = r + 1;
    }
    s
}

fn push_subset(out: &mut Vec<CardSet>, s: CardSet)
    ensures
        views(final(out)@) == views(old(out)@).insert(s@),
{
    proof {
        lemma_views_push(old(out)@, s);
    }
    out.push(s);
}

/// Appends the flush candidates of suit `su`.
fn push_suit_subsets(out: &mut Vec<CardSet>, player: &CardSet, deck: &CardSet, su: i32)
    requires
        0 <= su < 4,
    ensures
        views(final(out)@) == views(old(out)@).union(
            Set::new(|x: Set<int>| flush_entry(player@, deck@, su as int, x)),
        ),
{
    let ghost target = Set::new(|x: Set<int>| flush_entry(player@, deck@, su as int, x));
    let suit_mask = CardSet::of_suit(su);
    if !covers(player, &suit_mask) {
        assert(target =~= Set::<Set<int>>::empty());
        assert(views(out@).union(target) =~= views(out@));
        return;
    }
    let ghost before = views(out@);
    let suited = deck.intersection(&suit_mask);
    push_subset(out, suited);
    let mut cutoff: i32 = 6;
    while cutoff < 11
        invariant
            6 <= cutoff <= 11,
            suited@ == deck@.intersect(suit_cards(su as int)),
            views(out@) == before.insert(suited@).union(
                Set::new(|x: Set<int>| exists|cut: int| #![trigger rank_band(cut, 13)] 6 <= cut < cutoff && x == suited@.intersect(rank_band(cut, 13))),
            ),
        decreases 11 - cutoff,
    {
        let high = suited.intersection(&rank_band_set(cutoff, 13));
        push_subset(out, high);
        assert(views(out@) =~= before.insert(suited@).union(
            Set::new(|x: Set<int>| exists|cut: int| #![trigger rank_band(cut, 13)] 6 <= cut < cutoff + 1 && x == suited@.intersect(rank_band(cut, 13))),
        ));
        cutoff = cutoff + 1;
    }
    let ghost with_high = views(out@);
    let mut start: i32 = 0;
    while start < 9
        invariant
            0 <= start <= 9,
            suited@ == deck@.intersect(suit_cards(su as int)),
            views(out@) == with_high.union(
                Set::new(|x: Set<int>| exists|st: int| #![trigger rank_window(st)] 0 <= st < start
                    && player@.subset_of(suited@.intersect(rank_window(st)))
                    && x == suited@.intersect(rank_window(st))),
            ),
        decreases 9 - start,
    {
        let window = suited.intersection(&rank_band_set(start, start + 5));
        assert(window@ == suited@.intersect(rank_window(start as int)));
        if covers(player, &window) {
            push_subset(out, window);
        }
        assert(views(out@) =~= with_high.union(
            Set::new(|x: Set<int>| exists|st: int| #![trigger rank_window(st)] 0 <= st < start + 1
                && player@.subset_of(suited@.intersect(rank_window(st)))
                && x == suited@.intersect(rank_window(st))),
        ));
        start = start + 1;
    }
    let ghost with_windows = views(out@);
    let wheel = suited.intersection(&rank_band_set(0, 4).union(&CardSet::of_rank(12)));
    assert(wheel@ =~= suited@.intersect(wheel_cards()));
    if covers(player, &wheel) {
        push_subset(out, wheel);
    }
    assert(views(out@) =~= before.union(target));
}

/// The flush candidates of all four suits.
fn flush_subsets(player: &CardSet, deck: &CardSet) -> (out: Vec<CardSet>)
    ensures
        views(out@) == flush_family(player@, deck@),
{
    let mut out: Vec<CardSet> = Vec::new();
    let mut su: i32 = 0;
    assert(views(out@) =~= Set::<Set<int>>::empty());
    while su < 4
        invariant
            0 <= su <= 4,
            views(out@) == Set::new(|x: Set<int>| exists|j: int| 0 <= j < su && flush_entry(player@, deck@, j, x)),
        decreases 4 - su,
    {
        push_suit_subsets(&mut out, player, deck, su);
        assert(views(out@) =~= Set::new(|x: Set<int>| exists|j: int| 0 <= j < su + 1 && flush_entry(player@, deck@, j, x)));
        su = su + 1;
    }
    assert(views(out@) =~= flush_family(player@, deck@));
    out
}

/// The straight candidates.
fn straight_subsets(player: &CardSet, deck: &CardSet) -> (out: Vec<CardSet>)
    ensures
        views(out@) == straight_family(player@, deck@),
{
    let mut out: Vec<CardSet> = Vec::new();
    let mut start: i32 = 0;
    assert(views(out@) =~= Set::<Set<int>>::empty());
    while start < 9
        invariant
            0 <= start <= 9,
            views(out@) == Set::new(|x: Set<int>| exists|st: int| #![trigger rank_window(st)] 0 <= st < start
                && player@.subset_of(deck@.intersect(rank_window(st)))
                && x == deck@.intersect(rank_window(st))),
        decreases 9 - start,
    {
        let window = deck.intersection(&rank_band_set(start, start + 5));
        assert(window@ == deck@.intersect(rank_window(start as int)));
        if covers(player, &window) {
            push_subset(&mut out, window);
        }
        assert(views(out@) =~= Set::new(|x: Set<int>| exists|st: int| #![trigger rank_window(st)] 0 <= st < start + 1
                && player@.subset_of(deck@.intersect(rank_window(st)))
                && x == deck@.intersect(rank_window(st))));
        start = start + 1;
    }
    assert(views(out@) =~= straight_family(player@, deck@));
    out
}

/// Every card of a rank that the player holds.
fn player_rank_cards(player: &CardSet) -> (s: CardSet)
    ensures
        s@ == ranks_of_cards(player@),
{
    let mut s = CardSet::empty();
    let mut r: i32 = 0;
    while r < 13
        invariant
            0 <= r <= 13,
            s@ == ranks_of_cards(player@).intersect(rank_band(0, r as int)),
        decreases 13 - r,
    {
        let of_rank = CardSet::of_rank(r);
        let held = player.intersection(&of_rank);
        let any = !held.is_empty();
        proof {
            if any {
                if !(exists|p: int| held@.contains(p)) {
                    assert(held@ =~= Set::<int>::empty());
                }
            } else {
                assert forall|p: int| player@.contains(p) implies card_rank(p) != r by {
                    if card_rank(p) == r {
                        assert(held@.contains(p));
                    }
                }
            }
        }
        if any {
            s = s.union(&of_rank);
        }
        assert(s@ =~= ranks_of_cards(player@).intersect(rank_band(0, r + 1)));
        r = r + 1;
    }
    assert(s@ =~= ranks_of_cards(player@));
    s
}

/// The rank candidates.
fn rank_subsets(player: &CardSet, deck: &CardSet) -> (out: Vec<CardSet>)
    ensures
        views(out@) == rank_family(player@, deck@),
{
    let mut out: Vec<CardSet> = Vec::new();
    let player_ranks = player_rank_cards(player);
    assert(views(out@) =~= Set::<Set<int>>::empty());
    if player_ranks.len() > 0 {
        push_subset(&mut out, deck.intersection(&player_ranks));
    }
    push_subset(&mut out, deck.intersection(&rank_band_set(8, 13)));
    proof {
        if player_ranks@ != Set::<int>::empty() {
            if !(exists|c: int| player_ranks@.contains(c)) {
                assert(player_ranks@ =~= Set::<int>::empty());
            }
            let c = choose|c: int| player_ranks@.contains(c);
            vstd::set_lib::lemma_len_subset(Set::<int>::empty().insert(c), player_ranks@);
            assert(player_ranks@.len() > 0);
        } else {
            assert(player_ranks@.len() == 0);
        }
    }
    assert(views(out@) =~= rank_family(player@, deck@));
    out
}

/// Appends `s` unless a listed set already holds the same cards.
fn insert_subset(out: &mut Vec<CardSet>, s: CardSet)
    requires
        distinct_views(old(out)@),
    ensures
        distinct_views(final(out)@),
        views(final(out)@) == views(old(out)@).insert(s@),
{
    let mut i: usize = 0;
    while i < out.len()
        invariant
            i <= out.len(),
            out@ == old(out)@,
            distinct_views(out@),
            forall|j: int| 0 <= j < i ==> out@[j]@ != s@,
        decreases out.len() - i,
    {
        if out[i].same_cards(&s) {
            assert(views(out@).contains(s@));
            assert(views(out@) =~= views(out@).insert(s@));
            return;
        }
        i = i + 1;
    }
    proof {
        lemma_views_push(out@, s);
    }
    out.push(s);
}

/// Appends the sets of `items` that are not yet listed.
fn insert_all(out: &mut Vec<CardSet>, items: &Vec<CardSet>)
    requires
        distinct_views(old(out)@),
    ensures
        distinct_views(final(out)@),
        views(final(out)@) == views(old(out)@).union(views(items@)),
{
    let ghost before = views(out@);
    let mut i: usize = 0;
    while i < items.len()
        invariant
            i <= items.len(),
            distinct_views(out@),
            views(out@) == before.union(views(items@.take(i as int))),
        decreases items.len() - i,
    {
        insert_subset(out, items[i]);
        proof {
            assert(items@.take(i + 1) =~= items@.take(i as int).push(items@[i as int]));
            lemma_views_push(items@.take(i as int), items@[i as int]);
        }
        assert(views(out@) =~= before.union(views(items@.take(i + 1))));
        i = i + 1;
    }
    assert(items@.take(items.len() as int) =~= items@);
}

/// The unions of `a[i]` with the sets `b[0..j]`.
spec fn row_unions(a: Seq<CardSet>, i: int, b: Seq<CardSet>, j: int) -> Set<Set<int>> {
    Set::new(|x: Set<int>| exists|k: int| 0 <= k < j && x == a[i]@.union(b[k]@))
}

/// The unions of the sets `a[0..i]` with the sets of `b`.
spec fn block_unions(a: Seq<CardSet>, i: int, b: Seq<CardSet>) -> Set<Set<int>> {
    Set::new(|x: Set<int>| exists|k: int, l: int| 0 <= k < i && 0 <= l < b.len() && x == a[k]@.union(b[l]@))
}

/// Appends the union of each set of `a` with each set of `b`, when not yet listed.
fn insert_unions(out: &mut Vec<CardSet>, a: &Vec<CardSet>, b: &Vec<CardSet>)
    requires
        distinct_views(old(out)@),
    ensures
        distinct_views(final(out)@),
        views(final(out)@) == views(old(out)@).union(unions_of(views(a@), views(b@))),
{
    let ghost before = views(out@);
    let mut i: usize = 0;
    assert(block_unions(a@, 0, b@) =~= Set::<Set<int>>::empty());
    while i < a.len()
        invariant
            i <= a.len(),
            distinct_views(out@),
            views(out@) == before.union(block_unions(a@, i as int, b@)),
        decreases a.len() - i,
    {
        let ghost row_start = views(out@);
        let mut j: usize = 0;
        assert(row_unions(a@, i as int, b@, 0) =~= Set::<Set<int>>::empty());
        while j < b.len()
            invariant
                i < a.len(),
                j <= b.len(),
                distinct_views(out@),
                views(out@) == row_start.union(row_unions(a@, i as int, b@, j as int)),
            decreases b.len() - j,
        {
            insert_subset(out, a[i].union(&b[j]));
            assert(row_unions(a@, i as int, b@, j + 1) =~= row_unions(a@, i as int, b@, j as int).insert(a@[i as int]@.union(b@[j as int]@)));
            assert(views(out@) =~= row_start.union(row_unions(a@, i as int, b@, j + 1)));
            j = j + 1;
        }
        assert forall|x: Set<int>| block_unions(a@, i + 1, b@).contains(x) == (block_unions(a@, i as int, b@).contains(x) || row_unions(a@, i as int, b@, b.len() as int).contains(x)) by {
            if block_unions(a@, i + 1, b@).contains(x) {
                let (k, l) = choose|k: int, l: int| 0 <= k < i + 1 && 0 <= l < b@.len() && x == a@[k]@.union(b@[l]@);
                if k == i {
                    assert(row_unions(a@, i as int, b@, b.len() as int).contains(x));
                } else {
                    assert(block_unions(a@, i as int, b@).contains(x));
                }
            }
            if row_unions(a@, i as int, b@, b.len() as int).contains(x) {
                let l = choose|l: int| 0 <= l < b.len() && x == a@[i as int]@.union(b@[l]@);
                assert(block_unions(a@, i + 1, b@).contains(x));
            }
            if block_unions(a@, i as int, b@).contains(x) {
                let (k, l) = choose|k: int, l: int| 0 <= k < i && 0 <= l < b@.len() && x == a@[k]@.union(b@[l]@);
                assert(block_unions(a@, i + 1, b@).contains(x));
            }
        }
        assert(views(out@) =~= before.union(block_unions(a@, i + 1, b@)));
        i = i + 1;
    }
    assert forall|x: Set<int>| block_unions(a@, a.len() as int, b@).contains(x) == unions_of(views(a@), views(b@)).contains(x) by {
        if block_unions(a@, a.len() as int, b@).contains(x) {
            let (k, l) = choose|k: int, l: int| 0 <= k < a.len() && 0 <= l < b@.len() && x == a@[k]@.union(b@[l]@);
            assert(views(a@).contains(a@[k]@));
            assert(views(b@).contains(b@[l]@));
        }
        if unions_of(views(a@), views(b@)).contains(x) {
            let (y, z) = choose|y: Set<int>, z: Set<int>| views(a@).contains(y) && views(b@).contains(z) && x == y.union(z);
            let k = choose|k: int| 0 <= k < a@.len() && a@[k]@ == y;
            let l = choose|l: int| 0 <= l < b@.len() && b@[l]@ == z;
            assert(x == a@[k]@.union(b@[l]@));
        }
    }
    assert(views(out@) =~= before.union(unions_of(views(a@), views(b@))));
}

/// The distinct candidate sets of cards the player could ask for, in no particular order.
pub fn generate_candidate_subsets(player: CardSet, _dealer: CardSet, deck: CardSet) -> (subsets: Vec<CardSet>)
    ensures
        distinct_views(subsets@),
        views(subsets@) == candidate_subsets(player@, deck@),
{
    let flush = flush_subsets(&player, &deck);
    let straights = straight_subsets(&player, &deck);
    let ranks = rank_subsets(&player, &deck);
    let mut subsets: Vec<CardSet> = Vec::new();
    assert(views(subsets@) =~= Set::<Set<int>>::empty());
    insert_all(&mut subsets, &flush);
    insert_all(&mut subsets, &straights);
    insert_all(&mut subsets, &ranks);
    insert_unions(&mut subsets, &flush, &straights);
    insert_unions(&mut subsets, &flush, &ranks);
    insert_unions(&mut subsets, &straights, &ranks);
    assert(views(subsets@) =~= candidate_subsets(player@, deck@));
    subsets
}

/// `2^n`.
pub open spec fn pow_two(n: int) -> int
    decreases n,
{
    if n <= 0 {
        1
    } else {
        2 * pow_two(n - 1)
    }
}

/// Choosing from `n` things gives at most `2^n` ways.
proof fn lemma_binomial_bound(n: int, k: int)
    requires
        0 <= n,
    ensures
        0 <= binomial(n, k) <= pow_two(n),
        1 <= pow_two(n),
    decreases n,
{
    if n > 0 {
        lemma_binomial_bound(n - 1, k);
        lemma_binomial_bound(n - 1, k - 1);
    }
}

proof fn lemma_pow_two_le(n: int)
    requires
        0 <= n <= 52,
    ensures
        1 <= pow_two(n) <= pow_two(52),
        pow_two(52) == 0x10000000000000,
    decreases 52 - n,
{
    reveal_with_fuel(pow_two, 53);
    if n < 52 {
        lemma_pow_two_le(n + 1);
    }
}

/// The table of `binomial(n, k)` for `n` and `k` in `0..=52`, built row by row
/// from the sums of Pascal's triangle.
pub fn binomial_table() -> (table: Vec<Vec<u64>>)
    ensures
        table@.len() == 53,
        forall|n: int| 0 <= n < 53 ==> #[trigger] table@[n]@.len() == 53,
        forall|n: int, k: int| 0 <= n < 53 && 0 <= k < 53 ==> #[trigger] table@[n]@[k] == binomial(n, k),
{
    let mut table: Vec<Vec<u64>> = Vec::new();
    let mut first: Vec<u64> = Vec::new();
    let mut k: usize = 0;
    while k < 53
        invariant
            k <= 53,
            first@.len() == k,
            forall|j: int| 0 <= j < k ==> #[trigger] first@[j] == binomial(0, j),
        decreases 53 - k,
    {
        first.push(if k == 0 { 1 } else { 0 });
        k = k + 1;
    }
    table.push(first);
    let mut n: usize = 1;
    while n < 53
        invariant
            1 <= n <= 53,
            table@.len() == n,
            forall|m: int| 0 <= m < n ==> #[trigger] table@[m]@.len() == 53,
            forall|m: int, j: int| 0 <= m < n && 0 <= j < 53 ==> #[trigger] table@[m]@[j] == binomial(m, j),
        decreases 53 - n,
    {
        let mut row: Vec<u64> = Vec::new();
        let mut k: usize = 0;
        while k < 53
            invariant
                1 <= n < 53,
                k <= 53,
                table@.len() == n,
                forall|m: int| 0 <= m < n ==> #[trigger] table@[m]@.len() == 53,
                forall|m: int, j: int| 0 <= m < n && 0 <= j < 53 ==> #[trigger] table@[m]@[j] == binomial(m, j),
                row@.len() == k,
                forall|j: int| 0 <= j < k ==> #[trigger] row@[j] == binomial(n as int, j),
            decreases 53 - k,
        {
            if k == 0 {
                row.push(1);
            } else {
                let a = table[n - 1][k - 1];
                let b = table[n - 1][k];
                proof {
                    lemma_binomial_bound(n as int, k as int);
                    lemma_pow_two_le(n as int);
                    assert(binomial(n as int, k as int) == b + a);
                }
                row.push(a + b);
            }
            k = k + 1;
        }
        table.push(row);
        n = n + 1;
    }
    table
}

/// The number of orders of a deck of `total` cards, `wanted` of them wanted,
/// counted by arrangements of the wanted positions, in which the `r`-th wanted
/// card is the `n`-th card dealt: `n - 1` earlier places hold `r - 1` wanted
/// cards and the `total - n` later places hold the other `wanted - r`.
#[verifier::opaque]
pub open spec fn dealer_weight(total: int, wanted: int, r: int, n: int) -> int {
    binomial(n - 1, r - 1) * binomial(total - n, wanted - r)
}

/// The weights of the first `j` numbers of dealer cards, `0..j`.
pub open spec fn dealer_total(total: int, wanted: int, r: int, j: int) -> int
    decreases j,
{
    if j <= 0 {
        0
    } else {
        dealer_total(total, wanted, r, j - 1) + dealer_weight(total, wanted, r, r + j - 1)
    }
}

/// The weights of the positions `1..=m` of the `r`-th wanted card.
spec fn position_total(total: int, wanted: int, r: int, m: int) -> int
    decreases m,
{
    if m <= 0 {
        0
    } else {
        position_total(total, wanted, r, m - 1) + dealer_weight(total, wanted, r, m)
    }
}

/// Summing the ways over all positions splits by Pascal's rule on the later places.
proof fn lemma_position_split(total: int, wanted: int, r: int, m: int)
    requires
        1 <= r < wanted,
        0 <= m < total,
    ensures
        position_total(total, wanted, r, m) == position_total(total - 1, wanted, r, m)
            + position_total(total - 1, wanted - 1, r, m),
    decreases m,
{
    reveal(dealer_weight);
    if m > 0 {
        lemma_position_split(total, wanted, r, m - 1);
        let a = binomial(m - 1, r - 1);
        let b = binomial(total - 1 - m, wanted - r);
        let c = binomial(total - 1 - m, wanted - 1 - r);
        assert(binomial(total - m, wanted - r) == b + c);
        assert(a * (b + c) == a * b + a * c) by (nonlinear_arith);
    }
}

/// Summing the ways to place the first `r - 1` wanted cards before each
/// position gives the ways to choose `r` places.
proof fn lemma_position_hockey(total: int, r: int, m: int)
    requires
        1 <= r,
        0 <= m,
    ensures
        position_total(total, r, r, m) == binomial(m, r),
    decreases m,
{
    reveal(dealer_weight);
    if m > 0 {
        lemma_position_hockey(total, r, m - 1);
        assert(dealer_weight(total, r, r, m) == binomial(m - 1, r - 1));
    }
}

/// All positions together count every way to place the wanted cards.
proof fn lemma_position_total(total: int, wanted: int, r: int)
    requires
        1 <= r <= wanted,
        0 <= total,
    ensures
        position_total(total, wanted, r, total) == binomial(total, wanted),
    decreases total,
{
    reveal(dealer_weight);
    if wanted == r {
        lemma_position_hockey(total, r, total);
    } else if total > 0 {
        lemma_position_split(total, wanted, r, total - 1);
        lemma_position_total(total - 1, wanted, r);
        lemma_position_total(total - 1, wanted - 1, r);
        lemma_binomial_below(0, wanted - r);
    }
}

/// Positions before `r` and after `total - wanted + r` have no ways.
proof fn lemma_position_range(total: int, wanted: int, r: int, m: int)
    requires
        1 <= r <= wanted <= total,
        r - 1 <= m <= total,
    ensures
        position_total(total, wanted, r, m) == dealer_total(total, wanted, r, (if m <= total - wanted + r { m } else { total - wanted + r }) - r + 1),
    decreases m,
{
    reveal(dealer_weight);
    if m == r - 1 {
        assert forall|n: int| 1 <= n <= m implies #[trigger] dealer_weight(total, wanted, r, n) == 0 by {
            lemma_binomial_below(n - 1, r - 1);
        }
        lemma_position_zero(total, wanted, r, m);
    } else {
        lemma_position_range(total, wanted, r, m - 1);
        if m > total - wanted + r {
            lemma_binomial_below(total - m, wanted - r);
        }
    }
}

proof fn lemma_position_zero(total: int, wanted: int, r: int, m: int)
    requires
        forall|n: int| 1 <= n <= m ==> #[trigger] dealer_weight(total, wanted, r, n) == 0,
    ensures
        position_total(total, wanted, r, m) == 0,
    decreases m,
{
    if m > 0 {
        lemma_position_zero(total, wanted, r, m - 1);
    }
}

/// The weights of all numbers of dealer cards add up to the number of ways to
/// choose the places of the wanted cards: as chances, they add up to one.
pub proof fn lemma_dealer_weights_total(total: int, wanted: int, r: int)
    requires
        1 <= r <= wanted <= total,
    ensures
        dealer_total(total, wanted, r, total - wanted + 1) == binomial(total, wanted),
{
    lemma_position_total(total, wanted, r);
    lemma_position_range(total, wanted, r, total);
}

/// The table holds `binomial(n, k)` for `n` and `k` in `0..=52`.
pub open spec fn is_binomial_table(table: Seq<Vec<u64>>) -> bool {
    &&& table.len() == 53
    &&& forall|n: int| 0 <= n < 53 ==> #[trigger] table[n]@.len() == 53
    &&& forall|n: int, k: int| 0 <= n < 53 && 0 <= k < 53 ==> #[trigger] table[n]@[k] == binomial(n, k)
}

/// For each number of dealer cards `j` dealt before the `r`-th wanted card,
/// from 0 to `total - wanted`, the pair `(j, dealer_weight(total, wanted, r, r + j))`.
fn dealer_weights(binom: &Vec<Vec<u64>>, total: usize, wanted: usize, r: usize) -> (w: Vec<(usize, u128)>)
    requires
        is_binomial_table(binom@),
        1 <= r <= wanted <= total <= 52,
    ensures
        w@.len() == total - wanted + 1,
        forall|j: int| 0 <= j < w@.len() ==> (#[trigger] w@[j]).0 == j && w@[j].1 == dealer_weight(total as int, wanted as int, r as int, r + j),
{
    let mut w: Vec<(usize, u128)> = Vec::new();
    let mut n: usize = r;
    let max_n = total - (wanted - r);
    while n <= max_n
        invariant
            is_binomial_table(binom@),
            1 <= r <= wanted <= total <= 52,
            max_n == total - (wanted - r),
            r <= n <= max_n + 1,
            w@.len() == n - r,
            forall|j: int| 0 <= j < w@.len() ==> (#[trigger] w@[j]).0 == j && w@[j].1 == dealer_weight(total as int, wanted as int, r as int, r + j),
        decreases max_n + 1 - n,
    {
        let a = binom[n - 1][r - 1];
        let b = binom[total - n][wanted - r];
        proof {
            lemma_binomial_bound(n - 1, r - 1);
            lemma_binomial_bound(total - n, wanted - r);
            lemma_pow_two_le(n - 1);
            lemma_pow_two_le(total - n);
            assert(a as int * b as int <= 0x10000000000000 * 0x10000000000000) by (nonlinear_arith)
                requires
                    a <= 0x10000000000000,
                    b <= 0x10000000000000,
            ;
        }
        proof {
            reveal(dealer_weight);
        }
        w.push((n - r, a as u128 * b as u128));
        n = n + 1;
    }
    w
}

/// For every deck size `total` and number `wanted` of wanted cards in it, and
/// each `r` from 1 to 5 up to `wanted`, the weights of each number of dealer
/// cards dealt before the `r`-th wanted card; empty elsewhere.
pub fn dealer_weight_table() -> (table: Vec<Vec<Vec<Vec<(usize, u128)>>>>)
    ensures
        table@.len() == 53,
        forall|t: int| 0 <= t < 53 ==> #[trigger] table@[t]@.len() == 53,
        forall|t: int, k: int| 0 <= t < 53 && 0 <= k < 53 ==> #[trigger] table@[t]@[k]@.len() == 6,
        forall|t: int, k: int, r: int|
            0 <= t < 53 && 0 <= k < 53 && 0 <= r < 6 && !(1 <= r <= k <= t) ==> #[trigger] table@[t]@[k]@[r]@.len() == 0,
        forall|t: int, k: int, r: int|
            0 <= t < 53 && 1 <= r <= k <= t && r < 6 ==> #[trigger] table@[t]@[k]@[r]@.len() == t - k + 1,
        forall|t: int, k: int, r: int, j: int|
            0 <= t < 53 && 1 <= r <= k <= t && r < 6 && 0 <= j <= t - k ==> #[trigger] table@[t]@[k]@[r]@[j] == (j as usize, dealer_weight(t, k, r, r + j) as u128),
{
    let binom = binomial_table();
    let mut table: Vec<Vec<Vec<Vec<(usize, u128)>>>> = Vec::new();
    let mut t: usize = 0;
    while t < 53
        invariant
            is_binomial_table(binom@),
            t <= 53,
            table@.len() == t,
            forall|t: int| 0 <= t < table@.len() ==> #[trigger] table@[t]@.len() == 53,
            forall|t: int, k: int| 0 <= t < table@.len() && 0 <= k < 53 ==> #[trigger] table@[t]@[k]@.len() == 6,
            forall|t: int, k: int, r: int|
                0 <= t < table@.len() && 0 <= k < 53 && 0 <= r < 6 && !(1 <= r <= k <= t) ==> #[trigger] table@[t]@[k]@[r]@.len() == 0,
            forall|t: int, k: int, r: int|
                0 <= t < table@.len() && 1 <= r <= k <= t && r < 6 ==> #[trigger] table@[t]@[k]@[r]@.len() == t - k + 1,
            forall|t: int, k: int, r: int, j: int|
                0 <= t < table@.len() && 1 <= r <= k <= t && r < 6 && 0 <= j <= t - k ==> #[trigger] table@[t]@[k]@[r]@[j] == (j as usize, dealer_weight(t, k, r, r + j) as u128),
        decreases 53 - t,
    {
        let mut by_wanted: Vec<Vec<Vec<(usize, u128)>>> = Vec::new();
        let mut k: usize = 0;
        while k < 53
            invariant
                is_binomial_table(binom@),
                t < 53,
                k <= 53,
                by_wanted@.len() == k,
                forall|k: int| 0 <= k < by_wanted@.len() ==> #[trigger] by_wanted@[k]@.len() == 6,
                forall|k: int, r: int|
                    0 <= k < by_wanted@.len() && 0 <= r < 6 && !(1 <= r <= k <= t) ==> #[trigger] by_wanted@[k]@[r]@.len() == 0,
                forall|k: int, r: int|
                    0 <= k < by_wanted@.len() && 1 <= r <= k <= t && r < 6 ==> #[trigger] by_wanted@[k]@[r]@.len() == t - k + 1,
                forall|k: int, r: int, j: int|
                    0 <= k < by_wanted@.len() && 1 <= r <= k <= t && r < 6 && 0 <= j <= t - k ==> #[trigger] by_wanted@[k]@[r]@[j] == (j as usize, dealer_weight(t as int, k, r, r + j) as u128),
            decreases 53 - k,
        {
            let mut by_r: Vec<Vec<(usize, u128)>> = Vec::new();
            let mut r: usize = 0;
            while r < 6
                invariant
                    is_binomial_table(binom@),
                    t < 53,
                    k < 53,
                    r <= 6,
                    by_r@.len() == r,
                    forall|r: int| 0 <= r < by_r@.len() && !(1 <= r <= k <= t) ==> #[trigger] by_r@[r]@.len() == 0,
                    forall|r: int| 0 <= r < by_r@.len() && 1 <= r <= k <= t ==> #[trigger] by_r@[r]@.len() == t - k + 1,
                    forall|r: int, j: int|
                        0 <= r < by_r@.len() && 1 <= r <= k <= t && 0 <= j <= t - k ==> #[trigger] by_r@[r]@[j] == (j as usize, dealer_weight(t as int, k as int, r, r + j) as u128),
                decreases 6 - r,
            {
                if 1 <= r && r <= k && k <= t {
                    let w = dealer_weights(&binom, t, k, r);
                    by_r.push(w);
                } else {
                    by_r.push(Vec::new());
                }
                r = r + 1;
            }
            by_wanted.push(by_r);
            k = k + 1;
        }
        table.push(by_wanted);
        t = t + 1;
    }
    table
}

/// One sampled deal: the player's cards and the dealer's.
pub open spec fn sampled(player: Set<int>, dealer: Set<int>, deck: Seq<Card>, subset: Set<int>, dealer_cards: int) -> (Set<int>, Set<int>) {
    sample_from(player, dealer, deck, subset, if dealer_cards >= 8 { dealer_cards } else { 8 }, 0)
}

/// Sampling a deck of undealt cards that offers enough wanted cards gives the
/// player five cards and the dealer at least eight, or every card left over
/// when the deck is too short for that.
pub proof fn lemma_sampled_hands_full(player: Set<int>, dealer: Set<int>, deck: Seq<Card>, subset: Set<int>, dealer_cards: int)
    requires
        player.finite(),
        dealer.finite(),
        player.len() <= 5,
        forall|j: int, k: int| 0 <= j < k < deck.len() ==> #[trigger] deck[j]@ != #[trigger] deck[k]@,
        forall|j: int| 0 <= j < deck.len() ==> !player.contains(#[trigger] deck[j]@) && !dealer.contains(deck[j]@),
        player.len() + offered(deck, subset, 0) >= 5,
    ensures
        sampled(player, dealer, deck, subset, dealer_cards).0.len() == 5,
        sampled(player, dealer, deck, subset, dealer_cards).1.len() >= 8
            || sampled(player, dealer, deck, subset, dealer_cards).1.len() >= dealer.len() + deck.len() - (5 - player.len()),
        sampled(player, dealer, deck, subset, dealer_cards).1.len() >= dealer_cards
            || sampled(player, dealer, deck, subset, dealer_cards).1.len() >= dealer.len() + deck.len() - (5 - player.len()),
{
    let target = if dealer_cards >= 8 { dealer_cards } else { 8 };
    lemma_sample_completes(player, dealer, deck, subset, target, 0);
}

/// The player ends the deal with five cards, the dealer with five or more, and
/// the player's hand ranks above the dealer's best.
pub open spec fn sample_won(player: Set<int>, dealer: Set<int>, deck: Seq<Card>, subset: Set<int>, dealer_cards: int) -> bool {
    let (mine, theirs) = sampled(player, dealer, deck, subset, dealer_cards);
    mine.len() == 5 && theirs.len() >= 5 && hand_value(mine) > hand_value(theirs)
}

/// How many of the first `n` decks deal a win.
pub open spec fn sample_wins(player: Set<int>, dealer: Set<int>, decks: Seq<Vec<Card>>, subset: Set<int>, dealer_cards: int, n: int) -> int
    decreases n,
{
    if n <= 0 {
        0
    } else {
        sample_wins(player, dealer, decks, subset, dealer_cards, n - 1) + if sample_won(
            player,
            dealer,
            decks[n - 1]@,
            subset,
            dealer_cards,
        ) {
            1int
        } else {
            0int
        }
    }
}

/// Deals each of the first `samples` shuffled decks with `sample_hands` and
/// counts the deals the player wins. A deal that leaves the player short of
/// five cards or the dealer short of five counts as no win; decks of the
/// undealt cards that offer enough wanted cards never do (`lemma_sample_completes`).
pub fn bucket_wins(
    player: CardSet,
    dealer: CardSet,
    decks: &[Vec<Card>],
    subset: CardSet,
    dealer_cards: usize,
    samples: usize,
) -> (wins: usize)
    ensures
        wins == sample_wins(player@, dealer@, decks@, subset@, dealer_cards as int, if samples <= decks@.len() { samples as int } else { decks@.len() as int }),
{
    let n = if samples <= decks.len() { samples } else { decks.len() };
    let mut wins: usize = 0;
    let mut i: usize = 0;
    while i < n
        invariant
            i <= n,
            n <= decks@.len(),
            n == if samples <= decks@.len() { samples as int } else { decks@.len() as int },
            wins <= i,
            wins == sample_wins(player@, dealer@, decks@, subset@, dealer_cards as int, i as int),
        decreases n - i,
    {
        let (mine, theirs) = sample_hands(player, dealer, decks[i].as_slice(), subset, dealer_cards);
        if mine.len() == 5 && theirs.len() >= 5 {
            let p = evaluate(mine);
            let d = evaluate_many(theirs);
            if p.value() > d.value() {
                wins = wins + 1;
            }
        }
        i = i + 1;
    }
    wins
}

} // verus!
