//! Payload families for the spatial tree.

use vstd::prelude::*;

verus! {

/// A family of payload types carried by a tree: one type for point nodes
/// and one for region nodes.
pub trait TreeData {
    type PointData;

    type RegionData;
}

} // verus!
