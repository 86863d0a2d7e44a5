//! Fair rotating 2-vs-2 matchup scheduling.
//!
//! Given a number of players and a number of courts, the library builds a
//! sequence of rounds of 2-vs-2 matches that avoids repeated teammate and
//! opponent pairings and balances the time each player spends sitting out.

pub mod cost;
pub mod enumerate;
pub mod history;
pub mod render;
pub mod rng;
pub mod round;
pub mod sampler;
pub mod schedule;
pub mod selector;
