//! Strategies for choosing which cards to take.
pub mod hayden_simple;
pub mod flush_naive;
pub mod hypergeometric;
pub mod genetic;
