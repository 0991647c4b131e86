//! A poker hand evaluator: a card model with rank-only ordering, a
//! classifier that places a 5-to-7 card hand into one of the ten standard
//! strength categories, and a selector that extracts the best five cards
//! in tie-breaking order.

pub mod card;
pub mod counts;
pub mod calc;
pub mod laws;
pub mod game;

pub use card::{Card, Name, Suit};
pub use calc::{Rank, calc_rank, calc_best_hand};
pub use game::{Game, Phase};
