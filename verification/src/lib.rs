//! Building a clean topological graph out of raw map-network data, and
//! simplifying keyed linear networks by collapsing degree-2 chains and
//! two-segment loops.
//!
//! All geometry is held as fixed-point planar coordinates (see [`coords`]),
//! so every rule of the engine is stated and checked over plain integers.

pub mod coords;
pub mod grid;
pub mod join_lines;
pub mod osm2graph;
pub mod tags;

pub use crate::coords::Coord;
pub use crate::grid::Grid;
pub use crate::join_lines::{collapse_degree_2, collapse_loops, KeyedLineString};
pub use crate::tags::Tags;
