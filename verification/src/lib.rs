//! Content-aware image narrowing by seam carving.
//!
//! The crate removes vertical seams — connected top-to-bottom paths of
//! pixels, one per row — of least energy from a pixel grid, one column per
//! iteration, until a requested number of columns is gone.  Energy of a
//! pixel is the sum of squared per-channel differences to its in-bounds
//! von Neumann neighbors; the minimum-cost seam is found by dynamic
//! programming over cumulative costs with back-pointers.

pub mod grid;
pub mod energy;
pub mod table;
pub mod extract;
pub mod removal;
pub mod carve;
