//! A solver for the flood-it puzzle.
//!
//! A grid of colored cells is won by repeatedly recoloring the connected
//! region that contains the top-left cell until every cell has one color.
//! The crate holds the grid, the flood-fill primitive and a depth-first
//! branch-and-bound search for a short winning sequence of colors.

pub mod board;
pub mod count;
pub mod finite;
pub mod frontier;
pub mod grid;
pub mod key;
pub mod matrix;
pub mod play;
pub mod reading;
pub mod region;
pub mod search;
pub mod text;
pub mod visited;

pub use board::Board;
pub use grid::Grid;
pub use search::solve;
pub use text::{write_solution, MalformedGridError};
pub use visited::VisitedSet;
