//! Wave function collapse on a rectangular grid.
//!
//! A sample is cut into tiles ([`generate_tiles`]) and read for the weight
//! of each symbol and for the rules of adjacency ([`generate_rules`]). An
//! output [`Grid`] is then solved cell by cell: the open cell of least
//! entropy is chosen, what its neighbours leave possible in it is found by
//! the rules, and one of these symbols is drawn by weight. When nothing is
//! left possible the grid starts again from its seeds ([`Grid::collapse`]).
//!
//! Weights are kept as exact fractions and the draw as a fraction of
//! `2^24`, so that every comparison is one of integers. The entropy of a
//! cell is a logarithm; the caller computes it and hands the solver a
//! rank for each cell.

pub mod analyze;
pub mod grid;
pub mod propagate;
pub mod random;
pub mod rules;
pub mod seat;
pub mod select;
pub mod solve;
pub mod tiles;
pub mod weights;

pub use analyze::generate_rules;
pub use grid::{Grid, GridState, GridView};
pub use propagate::intersect;
pub use rules::{rules_fit, Direction, Rule};
pub use seat::{Cell, Seat};
pub use select::{table_ok, UNRANKED};
pub use solve::{seeds_ok, Ended, Seed};
pub use tiles::{generate_tiles, tiles_fit, Bitmap, Tile, TileGenError};
pub use weights::{sample, sort_by_weight, Draw, Weights};
