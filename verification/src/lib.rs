//! Core of a rectangle-packing puzzle: an 8x8 grid, a fixed catalog of eleven
//! rectangular pieces, a backtracking solver and a level generator.
//!
//! The data and the code that runs:
//! - [`types`]: colours, pieces, placements, solutions, game states;
//! - [`board`]: the grid and its operations;
//! - [`piece`]: the catalog;
//! - [`solver`]: the search, and [`solver::tilings`], the list of tilings
//!   that it finds, in order;
//! - [`chance`]: the random draws;
//! - [`generator`]: the level generator;
//! - [`commands`]: the operations offered to a front end.
//!
//! What is proved of the search, for pools of catalog pieces:
//! - [`tiling`]: it is sound, each tiling it finds is an exact cover;
//! - [`complete`]: it is complete, it finds the grid of every exact cover;
//! - [`distinct`]: it finds no grid twice;
//! - [`area`]: the cells covered are as many as the pieces cover;
//! - [`cover`]: the whole catalog covers the empty grid;
//! - [`level`]: what a generated level is.

use vstd::prelude::*;

pub mod area;
pub mod board;
pub mod chance;
pub mod commands;
pub mod complete;
pub mod cover;
pub mod distinct;
pub mod generator;
pub mod level;
pub mod piece;
pub mod solver;
pub mod tiling;
pub mod types;

pub use board::Board;
pub use generator::Generator;
pub use solver::Solver;
pub use types::{Color, Difficulty, GameState, Piece, Placement, Solution, SolveResult};

verus! {

/// Side length of the square grid.
pub const BOARD_SIZE: usize = 8;

/// Number of cells of the grid.
pub const TOTAL_CELLS: usize = 64;

/// Number of pieces that are placed on the grid as obstacles before play.
pub const OBSTACLE_COUNT: usize = 3;

/// Number of pieces in the catalog.
pub const TOTAL_PIECES: usize = 11;

} // verus!
