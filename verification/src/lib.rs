//! A toroidal-grid Conway's Game of Life simulator with color inheritance.
//!
//! The grid is a flat row-major vector of cells on a torus: every coordinate
//! wraps modulo the width (x) and the height (y). Each generation is computed
//! from a read-only snapshot of the previous one, optionally split into
//! horizontal bands that are filled in parallel. Alive cells carry an RGB
//! color; a newborn cell inherits the channel-wise average of its parents'
//! colors, jittered slightly and re-saturated to a fixed vividness.

pub mod cell;
pub mod color;
pub mod grid;
pub mod laws;
mod rng;

pub use cell::Cell;
pub use color::Rgb;
pub use grid::GameOfLife;
