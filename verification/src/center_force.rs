//! The centering force: shifts every point so that the centroid of all
//! positions moves toward a target.  This is the one kernel that writes
//! positions directly rather than velocities.

use vstd::prelude::*;
use crate::bound::{coord_view, coord_in_limits};
use crate::data::PointData;
use crate::fixed::{
    sat64, trunc_div, spec_fp_mul, spec_clamp_coord, fp_mul, fp_sub, clamp_coord,
    div_trunc_sat,
};

verus! {

broadcast use vstd::std_specs::vec::group_vec_axioms, vstd::seq::group_seq_axioms;

/// Centering force: target position and strength.
pub struct CenterForce {
    pub target_position: Vec<i64>,
    pub strength: i64,
}

/// Sum of coordinate `j` over the first `n` points.
pub open spec fn coord_sum<D>(pts: Seq<PointData<D>>, j: int, n: int) -> int
    decreases n,
{
    if n <= 0 {
        0
    } else {
        coord_sum(pts, j, n - 1) + pts[n - 1].coord@[j]
    }
}

impl CenterForce {
    /// The kernel fits a simulation of dimension `dim`: one target
    /// component per axis, all within the coordinate cube.
    pub open spec fn wf(self, dim: int) -> bool {
        &&& self.target_position@.len() == dim
        &&& coord_in_limits(coord_view(self.target_position@))
    }

    /// The shift applied on axis `j`: the centroid's offset from the
    /// target, scaled by the strength.
    pub open spec fn spec_shift<D>(self, pts: Seq<PointData<D>>, j: int) -> int {
        spec_fp_mul(
            sat64(trunc_div(coord_sum(pts, j, pts.len() as int), pts.len() as int)
                - self.target_position@[j]),
            self.strength as int,
        )
    }

    /// The new coordinate of point `i` on axis `j`, clamped into the
    /// coordinate cube.
    pub open spec fn spec_new_coord<D>(self, pts: Seq<PointData<D>>, i: int, j: int) -> int {
        spec_clamp_coord(sat64(pts[i].coord@[j] - self.spec_shift(pts, j)))
    }

    pub fn new(target_position: Vec<i64>, strength: i64) -> (r: CenterForce)
        ensures
            r.target_position == target_position,
            r.strength == strength,
    {
        CenterForce { target_position, strength }
    }

    pub fn set_strength(&mut self, strength: i64)
        ensures
            final(self).strength == strength,
            final(self).target_position == old(self).target_position,
    {
        self.strength = strength;
    }

    pub fn set_target_position(&mut self, target_position: Vec<i64>)
        ensures
            final(self).target_position == target_position,
            final(self).strength == old(self).strength,
    {
        self.target_position = target_position;
    }

    /// One pass: shift every coordinate by the centroid's scaled offset
    /// from the target.  Leaves an empty point set unchanged; velocities,
    /// payloads and all other fields are untouched.
    #[verifier::loop_isolation(false)]
    pub fn force<D>(&self, points: &mut Vec<PointData<D>>, _alpha: i64, Ghost(dim): Ghost<int>)
        requires
            self.wf(dim),
            forall|i: int|
                0 <= i < old(points)@.len() ==> (#[trigger] old(points)@[i]).wf(
                    dim,
                    old(points)@.len() as int,
                ),
        ensures
            final(points)@.len() == old(points)@.len(),
            forall|i: int|
                0 <= i < final(points)@.len() ==> {
                    &&& (#[trigger] final(points)@[i]).index == old(points)@[i].index
                    &&& final(points)@[i].data == old(points)@[i].data
                    &&& final(points)@[i].velocity == old(points)@[i].velocity
                    &&& final(points)@[i].strength == old(points)@[i].strength
                    &&& final(points)@[i].radius == old(points)@[i].radius
                    &&& final(points)@[i].fixed_position == old(points)@[i].fixed_position
                    &&& final(points)@[i].coord@.len() == dim
                    &&& forall|j: int|
                        0 <= j < dim ==> final(points)@[i].coord@[j] == self.spec_new_coord(
                            old(points)@,
                            i,
                            j,
                        )
                },
            forall|i: int|
                0 <= i < final(points)@.len() ==> (#[trigger] final(points)@[i]).wf(
                    dim,
                    final(points)@.len() as int,
                ),
    {
        let n = points.len();
        if n == 0 {
            return ;
        }
        let ghost pts0 = points@;
        // the scaled centroid offset, one component per axis
        let mut shift: Vec<i64> = Vec::new();
        let mut j: usize = 0;
        while j < self.target_position.len()
            invariant
                shift@.len() == j <= dim,
                forall|jj: int| 0 <= jj < j ==> shift@[jj] == self.spec_shift(pts0, jj),
            decreases dim - j,
        {
            let mut sum: i128 = 0;
            let mut i: usize = 0;
            while i < n
                invariant
                    0 <= i <= n,
                    sum == coord_sum(pts0, j as int, i as int),
                    -(i as int) * (crate::fixed::COORD_LIMIT as int) <= sum <= (i as int) * (
                    crate::fixed::COORD_LIMIT as int),
                decreases n - i,
            {
                proof {
                    assert(coord_view(pts0[i as int].coord@)[j as int] == pts0[i as int].coord@[j as int] as int);
                }
                sum = sum + (points[i].coord[j] as i128);
                i = i + 1;
            }
            proof {
                crate::fixed::lemma_trunc_div_bound(
                    sum as int,
                    n as int,
                    crate::fixed::COORD_LIMIT as int,
                );
            }
            let mean: i64 = div_trunc_sat(sum, n as i128);
            let d = fp_sub(mean, self.target_position[j]);
            shift.push(fp_mul(d, self.strength));
            j = j + 1;
        }
        // apply the shift to every point
        let mut i: usize = 0;
        while i < n
            invariant
                0 <= i <= n,
                points@.len() == n,
                shift@.len() == dim,
                forall|jj: int| 0 <= jj < dim ==> shift@[jj] == self.spec_shift(pts0, jj),
                forall|ii: int| i <= ii < n ==> points@[ii] == pts0[ii],
                forall|ii: int|
                    0 <= ii < i ==> {
                        &&& (#[trigger] points@[ii]).index == pts0[ii].index
                        &&& points@[ii].data == pts0[ii].data
                        &&& points@[ii].velocity == pts0[ii].velocity
                        &&& points@[ii].strength == pts0[ii].strength
                        &&& points@[ii].radius == pts0[ii].radius
                        &&& points@[ii].fixed_position == pts0[ii].fixed_position
                        &&& points@[ii].coord@.len() == dim
                        &&& (forall|jj: int|
                            0 <= jj < dim ==> points@[ii].coord@[jj] == self.spec_new_coord(
                                pts0,
                                ii,
                                jj,
                            ))
                        &&& coord_in_limits(coord_view(points@[ii].coord@))
                    },
            decreases n - i,
        {
            let mut nc: Vec<i64> = Vec::new();
            let mut j: usize = 0;
            while j < shift.len()
                invariant
                    0 <= j <= dim,
                    nc@.len() == j,
                    forall|jj: int|
                        0 <= jj < j ==> nc@[jj] == self.spec_new_coord(pts0, i as int, jj)
                            && -crate::fixed::COORD_LIMIT <= #[trigger] nc@[jj]
                            <= crate::fixed::COORD_LIMIT,
                decreases dim - j,
            {
                let c = points[i].coord[j];
                nc.push(clamp_coord(fp_sub(c, shift[j])));
                j = j + 1;
            }
            points[i].coord = nc;
            proof {
                assert forall|jj: int| 0 <= jj < dim implies -crate::fixed::COORD_LIMIT <= (
                #[trigger] coord_view(points@[i as int].coord@)[jj])
                    <= crate::fixed::COORD_LIMIT by {
                    assert(coord_view(points@[i as int].coord@)[jj] == points@[i as int].coord@[jj] as int);
                }
            }
            i = i + 1;
        }
        proof {
            assert forall|i: int| 0 <= i < points@.len() implies (#[trigger] points@[i]).wf(
                dim,
                points@.len() as int,
            ) by {
                assert(pts0[i].wf(dim, n as int));
            }
        }
    }
}

} // verus!
