//! Conway's Game of Life on a fixed square board, with a sparse set of live
//! cells that drives each generation and a bounded history for rewinding.

use vstd::prelude::*;

pub mod board;
pub mod game;

verus! {

/// The side of the board that a map is loaded onto.
pub const MAP_SIZE: usize = 200;

} // verus!
