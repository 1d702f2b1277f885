//! Rules engine for the sliding-tile game 2048: an N x N grid of tiles that
//! compress toward one edge on directional input, merging equal neighbours,
//! with a random tile spawned after every move that changed the board.

pub mod game;
pub mod grid;
pub mod laws;
pub mod line;

pub use game::Game;
pub use game::Move;
