//! A verified simulation engine for Conway's Game of Life on a finite
//! rectangular grid: grid state, neighbor adjacency, the per-cell rule
//! table, generation advance, and random reseeding, together with the
//! renderable units an external renderer consumes.

pub mod game;
pub mod grid;
