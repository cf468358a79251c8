//! A solver for Rummikub-style tile boards.
//!
//! The crate models a board as a counted multiset of tile kinds (at most two
//! copies of each of the 53 kinds), renders and parses boards in a small
//! textual grammar, and enumerates every way to partition the board's number
//! tiles into valid melds (runs and groups), reporting unplaced jokers.

pub mod tiles;
pub mod text;
pub mod solve;
