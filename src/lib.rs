//! A connect-four game played on a square grid whose pieces are pushed in
//! from the four edges, and a game-tree search that plays it.
pub mod board;
mod clock;
pub mod counting;
pub mod game;
pub mod grid;
pub mod player;
mod rng;
pub mod search;
