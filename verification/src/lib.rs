//! Planning of cuts against a wildfire that spreads over a fixed grid.
//!
//! A fire starts in one cell of a grid of trees, houses and empty cells and
//! spreads from cell to cell, turn by turn. Before the first turn a planner
//! decides which cells to cut, and in which order, so that as much value as
//! possible is left when the fire has burnt out.
//!
//! The code that runs:
//!
//! - [`cell`]: what a grid position can be, and the constants of a simulation;
//! - [`board`]: the simulation engine;
//! - [`agent`]: the planner, which finds the sections of the grid, makes plans
//!   of them, replays each plan on the board and keeps the best;
//! - [`order`]: stable ordering by keys.
//!
//! What it does, as mathematics:
//!
//! - [`model`]: a board, and what a turn, a cut and a reset make of it;
//! - [`replay`]: a whole simulation with a plan;
//! - [`reach`]: the turn at which the fire reaches each cell;
//! - [`sections`]: the sections of a grid;
//! - [`plans`]: the plans made of sections, and the best of them.
//!
//! What holds of it:
//!
//! - [`laws`]: the laws of the simulation;
//! - [`dynamics`], [`turn`], [`shelter`]: the proofs behind the engine and the
//!   laws;
//! - [`sums`], [`lists`]: sums and lists.

pub mod agent;
pub mod board;
pub mod cell;
pub mod dynamics;
pub mod laws;
pub mod lists;
pub mod model;
pub mod order;
pub mod plans;
pub mod reach;
pub mod replay;
pub mod sections;
pub mod shelter;
pub mod sums;
pub mod turn;
