# poker_sim

A draw game against a dealer, with a poker hand evaluator, verified with Verus.

The player names, before each of its five cards, the set of cards it wants;
each card dealt goes to the player when named and to the dealer otherwise.
Once the player has five cards the dealer is dealt up to eight, and the player
wins when its hand beats the best five-card hand among the dealer's cards.

## Layout

- `src/card.rs`: cards numbered 1 to 52, their text form, and `CardSet`, a
  set of cards in one 52-bit word, with its set operations.
- `src/evaluator.rs`: the rank of the best five-card hand among five or more
  cards, numbered as in the "Two Plus Two" tables (`category * 4096 + index`),
  given as a mathematical model (`hand_value`) and computed from the card
  word.
- `src/hand_order.rs`: laws of the ranking. Adding cards never lowers a hand's
  rank, and a hand ranks as its best five cards.
- `src/game.rs`: the deal, the winner, and one game on a shuffled deck.
- `src/strategies/`: the hand-written strategies, the dealing and the
  candidate card sets of the sampling strategy, and the whole-number features
  that the evolved strategy scores cards by.
- `src/bits.rs`: facts about bits of a `u64` word.
- `app/`: the program that plays games on several threads, and the two
  strategies whose choices rest on floating-point scores.
