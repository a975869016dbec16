//! The positioning force: pulls each point toward a per-point, per-axis
//! target, where one is set.

use vstd::prelude::*;
use crate::data::PointData;
use crate::fixed::{spec_fp_mul, sat64, spec_sat_add, fp_mul, fp_sub, fp_add};

verus! {

broadcast use vstd::std_specs::vec::group_vec_axioms, vstd::seq::group_seq_axioms;

/// Positioning force: optional target and strength per point and axis.
pub struct PositionForce {
    pub target_position: Vec<Vec<Option<i64>>>,
    pub strengths: Vec<Vec<Option<i64>>>,
}

impl PositionForce {
    /// One optional target and strength per point and axis.
    pub open spec fn wf(self, dim: int, n: int) -> bool {
        &&& self.target_position@.len() == n
        &&& self.strengths@.len() == n
        &&& forall|i: int|
            0 <= i < n ==> (#[trigger] self.target_position@[i])@.len() == dim && (
            #[trigger] self.strengths@[i])@.len() == dim
    }

    /// The new velocity of point `i` on axis `j`: pulled toward the target
    /// by the strength and alpha where both are set, unchanged otherwise.
    pub open spec fn spec_new_velocity<D>(
        self,
        pts: Seq<PointData<D>>,
        alpha: int,
        i: int,
        j: int,
    ) -> int {
        match (self.target_position@[i]@[j], self.strengths@[i]@[j]) {
            (Some(t), Some(s)) => spec_sat_add(
                pts[i].velocity@[j] as int,
                spec_fp_mul(
                    spec_fp_mul(sat64(t - pts[i].coord@[j]), s as int),
                    alpha,
                ),
            ),
            _ => pts[i].velocity@[j] as int,
        }
    }

    pub fn new(target_position: Vec<Vec<Option<i64>>>, strengths: Vec<Vec<Option<i64>>>) -> (r:
        PositionForce)
        ensures
            r.target_position == target_position,
            r.strengths == strengths,
    {
        PositionForce { target_position, strengths }
    }

    /// One pass: on each axis where a target and a strength are set, add
    /// `(target - coord) * strength * alpha` to that velocity component.
    /// Everything but velocities is untouched.
    #[verifier::loop_isolation(false)]
    pub fn force<D>(&self, points: &mut Vec<PointData<D>>, alpha: i64, Ghost(dim): Ghost<int>)
        requires
            self.wf(dim, old(points)@.len() as int),
            forall|i: int|
                0 <= i < old(points)@.len() ==> (#[trigger] old(points)@[i]).wf(
                    dim,
                    old(points)@.len() as int,
                ),
        ensures
            final(points)@.len() == old(points)@.len(),
            forall|i: int|
                0 <= i < final(points)@.len() ==> {
                    &&& (#[trigger] final(points)@[i]).index == old(points)@[i].index
                    &&& final(points)@[i].data == old(points)@[i].data
                    &&& final(points)@[i].coord == old(points)@[i].coord
                    &&& final(points)@[i].strength == old(points)@[i].strength
                    &&& final(points)@[i].radius == old(points)@[i].radius
                    &&& final(points)@[i].fixed_position == old(points)@[i].fixed_position
                    &&& final(points)@[i].velocity@.len() == dim
                    &&& (forall|j: int|
                        0 <= j < dim ==> final(points)@[i].velocity@[j] == self.spec_new_velocity(
                            old(points)@,
                            alpha as int,
                            i,
                            j,
                        ))
                },
            forall|i: int|
                0 <= i < final(points)@.len() ==> (#[trigger] final(points)@[i]).wf(
                    dim,
                    final(points)@.len() as int,
                ),
    {
        let n = points.len();
        let ghost pts0 = points@;
        let mut i: usize = 0;
        while i < n
            invariant
                0 <= i <= n,
                points@.len() == n,
                forall|ii: int| i <= ii < n ==> points@[ii] == pts0[ii],
                forall|ii: int|
                    0 <= ii < i ==> {
                        &&& (#[trigger] points@[ii]).index == pts0[ii].index
                        &&& points@[ii].data == pts0[ii].data
                        &&& points@[ii].coord == pts0[ii].coord
                        &&& points@[ii].strength == pts0[ii].strength
                        &&& points@[ii].radius == pts0[ii].radius
                        &&& points@[ii].fixed_position == pts0[ii].fixed_position
                        &&& points@[ii].velocity@.len() == dim
                        &&& (forall|jj: int|
                            0 <= jj < dim ==> points@[ii].velocity@[jj] == self.spec_new_velocity(
                                pts0,
                                alpha as int,
                                ii,
                                jj,
                            ))
                    },
            decreases n - i,
        {
            let targets = &self.target_position[i];
            let strengths = &self.strengths[i];
            let mut nv: Vec<i64> = Vec::new();
            let mut j: usize = 0;
            while j < targets.len()
                invariant
                    0 <= j <= dim,
                    nv@.len() == j,
                    forall|jj: int|
                        0 <= jj < j ==> nv@[jj] == self.spec_new_velocity(
                            pts0,
                            alpha as int,
                            i as int,
                            jj,
                        ),
                decreases dim - j,
            {
                let v = points[i].velocity[j];
                match (targets[j], strengths[j]) {
                    (Some(t), Some(s)) => {
                        let d = fp_mul(fp_mul(fp_sub(t, points[i].coord[j]), s), alpha);
                        nv.push(fp_add(v, d));
                    },
                    _ => {
                        nv.push(v);
                    },
                }
                j = j + 1;
            }
            points[i].velocity = nv;
            i = i + 1;
        }
        proof {
            assert forall|i: int| 0 <= i < points@.len() implies (#[trigger] points@[i]).wf(
                dim,
                points@.len() as int,
            ) by {
                assert(pts0[i].wf(dim, n as int));
            }
        }
    }
}

} // verus!
