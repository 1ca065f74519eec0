//! A five-card poker evaluator over bit-encoded card sets, and the deal logic
//! of a draw game played against a dealer.
pub mod bits;
pub mod card;
pub mod evaluator;
pub mod game;
pub mod strategies;
pub mod hand_order;
