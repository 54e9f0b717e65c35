//! An incremental implementation of Conway's Game of Life on a toroidal grid.
//!
//! The engine keeps two flat cell buffers (double buffering), a dirty set of
//! cell indices that might change on the next step, and renders by emitting
//! drawing commands only for dirty cells.

pub mod rules;
pub mod grid;
pub mod step;
pub mod seed;
pub mod render;
