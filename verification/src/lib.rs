//! The alpha-lines game engine.
//!
//! Two players place marks on a checkerboard of 80 playable squares. A diagonal run of
//! marks scores its length once it is two long and connected to the border.
pub mod art;
pub mod balance;
pub mod board;
pub mod exchange;
pub mod game;
pub mod incremental;
pub mod klent;
pub mod laws;
pub mod legal;
pub mod levels;
pub mod mcts;
pub mod moves;
pub mod order;
pub mod profile;
pub mod reach;
pub mod repair;
pub mod rng;
pub mod sampling;
pub mod score;
pub mod score_batch;
pub mod scratch;
pub mod stub;
pub mod sums;
pub mod tally;
pub mod text;
pub mod walk;
pub mod window;
pub mod zobrist;

pub use crate::game::{Game, Scratch, HEIGHT, HW, ROW, SQUARES, WIDTH};
pub use crate::incremental::IncrementalGame;
