//! Shortest paths on a grid of cells, found with the A* search.
//!
//! A grid is built from a text map, from a table of walls or at random
//! (`grid`), searched (`search`) and drawn (`render`). The search moves over
//! the eight neighbours of a cell; a step along a row or a column costs one,
//! a diagonal step the square root of two, and the estimate of what remains
//! is the straight-line distance to the destination.
//!
//! Costs are whole numbers of millionths of one straight step, rounded up
//! (`cost`), so that every comparison the search makes is exact. With them
//! the search is proved to end, to find a path exactly when one exists, and
//! to find a cheapest one (`search`, `laws`).

pub mod cost;
pub mod node;
pub mod walk;
pub mod priority;
pub mod frontier;
pub mod random;
pub mod grid;
pub mod tally;
pub mod search;
pub mod text;
pub mod render;
pub mod laws;
