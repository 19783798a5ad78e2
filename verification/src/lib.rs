//! Swiss-draw tournament bookkeeping: teams, games, rounds, and the
//! integer side of the rating and pairing computations.

pub mod game;
pub mod team;
pub mod draw;
pub mod strength;
pub mod matchups;
pub mod laws;
mod ids;

