//! Exact-cover packing of polyomino tiles into a rectangular field, by
//! depth-first search with candidate recomputation and a two-variable
//! minimum-remaining-values heuristic.

pub mod field;
pub mod moves;
pub mod search;
pub mod solution;
pub mod tile;

pub use field::{MAX_SIDE, Packing, SquareAllocation, TilePlacement, TilePlacementOnField};
pub use solution::{render, solve};
pub use tile::{RotSym, Tile};
