//! Rules engine for a 7x7 game of Go between a player and an automated
//! opponent that replies at once.
//!
//! - `board`: the 49 cells packed into one integer
//! - `group`: groups of stones and their liberties
//! - `rules`: which moves are allowed, and what a move captures
//! - `capture`: the captures of a move, said all at once
//! - `life`: every group on the board has a liberty, and moves keep it so
//! - `opponent`: how the automated opponent picks its move
//! - `game`: one player's game, from creation to its score
//! - `leaderboard`: the ranking of the players by points
//! - `errors`, `types`: why a call is refused, and plain data

pub mod board;
pub mod capture;
pub mod errors;
pub mod game;
pub mod group;
pub mod leaderboard;
pub mod life;
pub mod opponent;
pub mod rules;
pub mod types;
