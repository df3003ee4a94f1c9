//! Exhaustive enumeration of suitably connected n x n mosaics over a
//! 10-symbol tile alphabet.
//!
//! Each tile symbol carries a fixed connectivity signature (whether it has a
//! strand toward its upper, right, lower and left side).  A mosaic is an
//! n x n grid of symbols in which every interior edge is matched (one tile
//! reaches toward its neighbour exactly when the neighbour reaches back) and
//! no strand points off the boundary.  The library enumerates every such
//! grid, exactly once, in ascending lexicographic order, and renders each
//! as one line of decimal digits.  `MosaicEnumerator` hands the records
//! out one at a time as the backtracking search discovers them, so the
//! solution set is never held in memory; `mosaics` and `mosaic_stream`
//! collect the same enumeration whole, for small sizes and for stating
//! its laws.

pub mod candidates;
pub mod encode;
pub mod grid;
pub mod laws;
pub mod machine;
pub mod search;
pub mod tiles;

pub use candidates::candidates_for;
pub use encode::{mosaic_stream, try_mosaic_stream};
pub use machine::MosaicEnumerator;
pub use search::mosaics;
