//! Topology extraction for 2D occupancy grids.
//!
//! The pipeline turns a binary occupancy grid (derived from a raster image)
//! into a vectorized topology graph: the free space is thinned to a
//! one-pixel-wide skeleton (Zhang-Suen), feature pixels (endpoints and
//! intersections) become nodes, the paths between them are traced into edges
//! carrying dense pixel polylines, and the polylines are finally simplified
//! (Ramer-Douglas-Peucker) and re-expressed as chains of waypoint nodes.
//!
//! Supporting modules provide the ID-indexed graph container, integer vector
//! arithmetic, a binary frame codec, and genetic-algorithm building blocks.

pub mod arr2;
pub mod bool_grid;
pub mod extractor;
pub mod genetic;
pub mod graph;
pub mod grid_map;
pub mod parcel;
pub mod seq_util;
pub mod simplifier;
pub mod thinning;
pub mod topology;
pub mod vector2i;
pub mod vector3i;
pub mod vectorizer;

use vstd::prelude::*;

verus! {

} // verus!
