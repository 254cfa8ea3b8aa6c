//! Spatial aggregation and density clustering.
//!
//! The crate bins planar coordinates into a fixed-size grid of cell
//! counters, post-processes the counters with an outlier-suppression
//! pass, and groups the occupied cells into density-based clusters.
//! Rendering the result is left to callers.

use vstd::prelude::*;

pub mod clustering;
pub mod draw;
pub mod grid;
pub mod outlier;
pub mod spatial_heatmap;

verus! {

/// Fixed-point coordinate scale: coordinates are stored in millionths
/// of one coordinate-system unit, so that cell binning is exact.
pub const COORD_SCALE: i64 = 1_000_000;

/// A planar coordinate in the configured coordinate system.
///
/// `x` and `y` hold millionths of a unit ([`COORD_SCALE`] per unit):
/// the point at `(1.5, -2)` in coordinate-system units is
/// `Point { x: 1_500_000, y: -2_000_000 }`.
#[derive(Clone, Copy, PartialEq, Eq, Structural, Debug)]
pub struct Point {
    pub x: i64,
    pub y: i64,
}

impl Point {
    /// Builds a point from fixed-point coordinates (millionths of a unit).
    pub fn new(x: i64, y: i64) -> (p: Point)
        ensures
            p.x == x,
            p.y == y,
    {
        Point { x, y }
    }
}

/// Everything that can go wrong in the pipeline. Each variant is
/// reported to the caller; nothing is swallowed or retried.
#[derive(Clone, Copy, PartialEq, Eq, Structural, Debug)]
pub enum ErrorKind {
    /// Non-positive cell size or degenerate grid dimensions at construction.
    InvalidConfig,
    /// A point's mapped cell falls outside the allocated grid.
    OutOfBounds,
    /// The maximum cell count was requested on a grid with zero cells.
    EmptyGrid,
    /// An outlier-suppression variant without defined semantics was selected.
    UnsupportedStrategy,
    /// A negative radius or a zero minimum neighbourhood size was
    /// passed to clustering.
    InvalidParameter,
}

} // verus!
