//! A* shortest-path search on a fixed-size, 4-connected grid of cells.

pub mod cell;
pub mod grid;
pub mod frontier;
pub mod search;
pub mod path;
