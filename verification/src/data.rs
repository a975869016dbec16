//! Per-point simulation records and the payloads the force kernels store
//! in their temporary spatial trees.

use vstd::prelude::*;
use crate::bound::{coord_view, coord_in_limits};
use crate::fixed::COORD_LIMIT;
use crate::tree_data::TreeData;

verus! {

broadcast use vstd::std_specs::vec::group_vec_axioms, vstd::seq::group_seq_axioms;

/// One simulated point: its stable index in the simulation's vector, a
/// user payload, a position, a velocity, a strength, a radius, and an
/// optional pinned position.
pub struct PointData<D> {
    pub data: D,
    pub index: usize,
    pub coord: Vec<i64>,
    pub velocity: Vec<i64>,
    pub strength: i64,
    pub radius: i64,
    pub fixed_position: Option<Vec<i64>>,
}

impl<D> PointData<D> {
    /// Well-formedness in a simulation of dimension `dim` with `n` points:
    /// vectors of the right length, coordinates inside the coordinate
    /// cube, and the stable index in range.
    pub open spec fn wf(self, dim: int, n: int) -> bool {
        &&& self.coord@.len() == dim
        &&& self.velocity@.len() == dim
        &&& coord_in_limits(coord_view(self.coord@))
        &&& 0 <= self.index < n
        &&& match self.fixed_position {
            Some(p) => p@.len() == dim && coord_in_limits(coord_view(p@)),
            None => true,
        }
    }

    /// A fresh record at `coord`: zero velocity, zero strength and radius,
    /// not pinned.
    pub fn from_data(data: D, coord: Vec<i64>, index: usize) -> (r: PointData<D>)
        ensures
            r.data == data,
            r.coord == coord,
            r.index == index,
            r.velocity@.len() == coord@.len(),
            forall|j: int| 0 <= j < r.velocity@.len() ==> r.velocity@[j] == 0i64,
            r.strength == 0i64,
            r.radius == 0i64,
            r.fixed_position is None,
    {
        let mut velocity: Vec<i64> = Vec::new();
        let mut j: usize = 0;
        let n = coord.len();
        while j < n
            invariant
                velocity@.len() == j <= n,
                forall|i: int| 0 <= i < j ==> velocity@[i] == 0i64,
            decreases n - j,
        {
            velocity.push(0);
            j = j + 1;
        }
        PointData { data, index, coord, velocity, strength: 0, radius: 0, fixed_position: None }
    }

    /// The position.
    pub fn coord(&self) -> (r: &Vec<i64>)
        ensures
            r == &self.coord,
    {
        &self.coord
    }
}

/// A fresh copy of a coordinate vector.
#[verifier::loop_isolation(false)]
pub fn copy_vec_i64(v: &Vec<i64>) -> (r: Vec<i64>)
    ensures
        r@ == v@,
{
    let mut out: Vec<i64> = Vec::new();
    let mut j: usize = 0;
    while j < v.len()
        invariant
            out@.len() == j <= v@.len(),
            forall|i: int| 0 <= i < j ==> out@[i] == v@[i],
        decreases v@.len() - j,
    {
        out.push(v[j]);
        j = j + 1;
    }
    proof {
        assert(out@ =~= v@);
    }
    out
}

/// The mathematical view of a simulation record.
pub ghost struct PointRec<D> {
    pub data: D,
    pub index: int,
    pub coord: Seq<int>,
    pub velocity: Seq<int>,
    pub strength: int,
    pub radius: int,
    pub fixed_position: Option<Seq<int>>,
}

impl<D> View for PointData<D> {
    type V = PointRec<D>;

    open spec fn view(&self) -> PointRec<D> {
        PointRec {
            data: self.data,
            index: self.index as int,
            coord: coord_view(self.coord@),
            velocity: coord_view(self.velocity@),
            strength: self.strength as int,
            radius: self.radius as int,
            fixed_position: match self.fixed_position {
                Some(p) => Some(coord_view(p@)),
                None => None,
            },
        }
    }
}

/// The views of a vector of records.
pub open spec fn views<D>(s: Seq<PointData<D>>) -> Seq<PointRec<D>> {
    s.map_values(|p: PointData<D>| p@)
}

/// One spring: the link's own index and the stable indices of its two
/// endpoint records.
pub struct LinkData {
    pub index: usize,
    pub source: usize,
    pub target: usize,
}

impl LinkData {
    pub fn new(index: usize, source: usize, target: usize) -> (r: LinkData)
        ensures
            r.index == index,
            r.source == source,
            r.target == target,
    {
        LinkData { index, source, target }
    }

    /// One `LinkData` per `(source, target)` pair, numbered in order.
    pub fn from_pairs(pairs: &Vec<(usize, usize)>) -> (r: Vec<LinkData>)
        ensures
            r@.len() == pairs@.len(),
            forall|k: int|
                0 <= k < r@.len() ==> {
                    &&& (#[trigger] r@[k]).index == k
                    &&& r@[k].source == pairs@[k].0
                    &&& r@[k].target == pairs@[k].1
                },
    {
        let mut out: Vec<LinkData> = Vec::new();
        let mut k: usize = 0;
        while k < pairs.len()
            invariant
                out@.len() == k <= pairs@.len(),
                forall|i: int|
                    0 <= i < k ==> {
                        &&& (#[trigger] out@[i]).index == i
                        &&& out@[i].source == pairs@[i].0
                        &&& out@[i].target == pairs@[i].1
                    },
            decreases pairs@.len() - k,
        {
            let p = pairs[k];
            out.push(LinkData { index: k, source: p.0, target: p.1 });
            k = k + 1;
        }
        out
    }

    /// Stable index of the link's source record.
    pub fn source(&self) -> (r: usize)
        ensures
            r == self.source,
    {
        self.source
    }

    /// Stable index of the link's target record.
    pub fn target(&self) -> (r: usize)
        ensures
            r == self.target,
    {
        self.target
    }
}

/// What a force kernel stores at a point node of its temporary tree: the
/// record's stable index and the values the kernel reads back during its
/// traversals.
pub struct PointForceData {
    pub index: usize,
    pub strength: i64,
    pub radius: i64,
}

impl PointForceData {
    /// Snapshot the identity of a simulation record for a tree point.
    pub fn from_point_data<D>(point_data: &PointData<D>) -> (r: PointForceData)
        ensures
            r.index == point_data.index,
            r.strength == point_data.strength,
            r.radius == point_data.radius,
    {
        PointForceData {
            index: point_data.index,
            strength: point_data.strength,
            radius: point_data.radius,
        }
    }
}

/// What a force kernel stores at a region node: the aggregates of the
/// subtree below it, absent until an accumulation pass fills them.
pub struct RegionForceData {
    /// Strength-weighted mean position of the subtree.
    pub coord: Option<Vec<i64>>,
    /// Signed sum of the subtree's strengths.
    pub strength: Option<i64>,
    /// Largest radius in the subtree.
    pub radius: Option<i64>,
}

impl Default for RegionForceData {
    fn default() -> (r: Self)
        ensures
            r.coord is None,
            r.strength is None,
            r.radius is None,
    {
        RegionForceData { coord: None, strength: None, radius: None }
    }
}

/// The payload family force kernels use for their temporary trees.
pub struct ForceData {}

impl TreeData for ForceData {
    type PointData = PointForceData;

    type RegionData = RegionForceData;
}

} // verus!
