use vstd::prelude::*;

verus! {

/// A planar coordinate in a fixed-point frame. The conventional unit is one
/// centimeter, which makes exact equality of two coordinates the
/// one-centimeter identity rule used by the network simplifier. Callers
/// working in floating-point meters quantize by truncating `value * 100`
/// before handing points to this crate.
#[derive(Clone, Copy, Debug, PartialEq, Eq, Structural, Hash, PartialOrd, Ord)]
pub struct Coord {
    pub x: i64,
    pub y: i64,
}

} // verus!
