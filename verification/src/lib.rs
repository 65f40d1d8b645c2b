//! Minesweeper board simulation: tile grids with random mine placement,
//! neighbor-mine counts, covered/flagged bookkeeping, and the reveal rules
//! (including the cascading flood fill of empty regions), all verified.

pub mod board;
pub mod components;
pub mod render;
pub mod rng;
pub mod tile;
pub mod tile_map;
