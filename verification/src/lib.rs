//! An A* solver for the 3x3 sliding-tile puzzle, verified with Verus.

pub mod a_star;
pub mod board;
mod exploration;
pub mod frontier;
pub mod path;
pub mod session;
