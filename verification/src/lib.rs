//! Rule engine for a 2048-style sliding-tile puzzle: an N x N grid of tile
//! ranks that is shifted in one of four directions, merging equal adjacent
//! tiles, with random tile spawning and game-over detection.

pub mod action;
pub mod domain;
pub mod laws;
pub mod line;
mod rng;

pub use action::{Direction, TileAction, TileActionKind};
pub use domain::Board;
