//! The radial force: pulls each point toward a circle of a per-point
//! radius around a shared center.

use vstd::prelude::*;
use crate::bound::{coord_view, coord_in_limits, dist2};
use crate::data::PointData;
use crate::fixed::{
    spec_fp_mul, spec_fp_div, sat64, spec_sat_add, spec_isqrt, fp_mul, fp_div, fp_sub, fp_add,
    fp_sqrt, COORD_LIMIT,
};

verus! {

broadcast use vstd::std_specs::vec::group_vec_axioms, vstd::seq::group_seq_axioms;

/// Radial force: per-point radius and strength, shared center.
pub struct RadialForce {
    pub radiuses: Vec<i64>,
    pub center: Vec<i64>,
    pub strengths: Vec<i64>,
}

impl RadialForce {
    /// One radius and strength per point; a center within the coordinate
    /// cube on every axis.
    pub open spec fn wf(self, dim: int, n: int) -> bool {
        &&& self.radiuses@.len() == n
        &&& self.strengths@.len() == n
        &&& self.center@.len() == dim
        &&& coord_in_limits(coord_view(self.center@))
    }

    /// The distance of point `i` from the center, nudged one unit away
    /// from zero so the scale below is always defined.
    pub open spec fn spec_rho<D>(self, pts: Seq<PointData<D>>, i: int) -> int {
        spec_sat_add(
            sat64(spec_isqrt(dist2(coord_view(pts[i].coord@), coord_view(self.center@)))),
            1,
        )
    }

    /// The velocity scale of point `i`:
    /// `(radius - rho) * strength * alpha / rho`.
    pub open spec fn spec_scale<D>(self, pts: Seq<PointData<D>>, alpha: int, i: int) -> int {
        spec_fp_div(
            spec_fp_mul(
                spec_fp_mul(sat64(self.radiuses@[i] - self.spec_rho(pts, i)), self.strengths@[i] as int),
                alpha,
            ),
            self.spec_rho(pts, i),
        )
    }

    /// The new velocity of point `i` on axis `j`.
    pub open spec fn spec_new_velocity<D>(
        self,
        pts: Seq<PointData<D>>,
        alpha: int,
        i: int,
        j: int,
    ) -> int {
        spec_sat_add(
            pts[i].velocity@[j] as int,
            spec_fp_mul(
                sat64(pts[i].coord@[j] - self.center@[j]),
                self.spec_scale(pts, alpha, i),
            ),
        )
    }

    pub fn new(radiuses: Vec<i64>, center: Vec<i64>, strengths: Vec<i64>) -> (r: RadialForce)
        ensures
            r.radiuses == radiuses,
            r.center == center,
            r.strengths == strengths,
    {
        RadialForce { radiuses, center, strengths }
    }

    /// One pass: push each point along its offset from the center, scaled
    /// by how far it sits from its target circle.  Everything but
    /// velocities is untouched.
    #[verifier::loop_isolation(false)]
    pub fn force<D>(&self, points: &mut Vec<PointData<D>>, alpha: i64, Ghost(dim): Ghost<int>)
        requires
            self.wf(dim, old(points)@.len() as int),
            dim <= crate::fixed::MAX_DIM,
            forall|i: int|
                0 <= i < old(points)@.len() ==> (#[trigger] old(points)@[i]).wf(
                    dim,
                    old(points)@.len() as int,
                ),
        ensures
            final(points)@.len() == old(points)@.len(),
            forall|i: int|
                0 <= i < final(points)@.len() ==> {
                    &&& (#[trigger] final(points)@[i]).index == old(points)@[i].index
                    &&& final(points)@[i].data == old(points)@[i].data
                    &&& final(points)@[i].coord == old(points)@[i].coord
                    &&& final(points)@[i].strength == old(points)@[i].strength
                    &&& final(points)@[i].radius == old(points)@[i].radius
                    &&& final(points)@[i].fixed_position == old(points)@[i].fixed_position
                    &&& final(points)@[i].velocity@.len() == dim
                    &&& (forall|j: int|
                        0 <= j < dim ==> final(points)@[i].velocity@[j] == self.spec_new_velocity(
                            old(points)@,
                            alpha as int,
                            i,
                            j,
                        ))
                },
            forall|i: int|
                0 <= i < final(points)@.len() ==> (#[trigger] final(points)@[i]).wf(
                    dim,
                    final(points)@.len() as int,
                ),
    {
        let n = points.len();
        let ghost pts0 = points@;
        let mut i: usize = 0;
        while i < n
            invariant
                0 <= i <= n,
                points@.len() == n,
                forall|ii: int| i <= ii < n ==> points@[ii] == pts0[ii],
                forall|ii: int|
                    0 <= ii < i ==> {
                        &&& (#[trigger] points@[ii]).index == pts0[ii].index
                        &&& points@[ii].data == pts0[ii].data
                        &&& points@[ii].coord == pts0[ii].coord
                        &&& points@[ii].strength == pts0[ii].strength
                        &&& points@[ii].radius == pts0[ii].radius
                        &&& points@[ii].fixed_position == pts0[ii].fixed_position
                        &&& points@[ii].velocity@.len() == dim
                        &&& (forall|jj: int|
                            0 <= jj < dim ==> points@[ii].velocity@[jj] == self.spec_new_velocity(
                                pts0,
                                alpha as int,
                                ii,
                                jj,
                            ))
                    },
            decreases n - i,
        {
            // squared distance to the center
            let mut l: i128 = 0;
            let mut j: usize = 0;
            while j < self.center.len()
                invariant
                    0 <= j <= dim,
                    0 <= i < n,
                    points@[i as int] == pts0[i as int],
                    l == crate::bound::dist2_upto(
                        coord_view(pts0[i as int].coord@),
                        coord_view(self.center@),
                        j as int,
                    ),
                    0 <= l <= (j as int) * 4 * (COORD_LIMIT as int) * (COORD_LIMIT as int),
                decreases dim - j,
            {
                proof {
                    assert(coord_view(pts0[i as int].coord@)[j as int] == pts0[i as int].coord@[j as int] as int);
                    assert(coord_view(self.center@)[j as int] == self.center@[j as int] as int);
                }
                let d: i128 = (points[i].coord[j] as i128) - (self.center[j] as i128);
                proof {
                    assert(d * d <= 4 * (COORD_LIMIT as int) * (COORD_LIMIT as int))
                        by (nonlinear_arith)
                        requires
                            -2 * (COORD_LIMIT as int) <= d <= 2 * (COORD_LIMIT as int),
                    ;
                    assert(d * d >= 0) by (nonlinear_arith);
                }
                l = l + d * d;
                j = j + 1;
            }
            let rho = fp_add(fp_sqrt(l), 1);
            proof {
                assert(rho as int == self.spec_rho(pts0, i as int));
                assert(rho >= 1);
            }
            let k = fp_div(fp_mul(fp_mul(fp_sub(self.radiuses[i], rho), self.strengths[i]), alpha), rho);
            let mut nv: Vec<i64> = Vec::new();
            let mut j: usize = 0;
            while j < self.center.len()
                invariant
                    0 <= j <= dim,
                    0 <= i < n,
                    points@[i as int] == pts0[i as int],
                    nv@.len() == j,
                    k as int == self.spec_scale(pts0, alpha as int, i as int),
                    forall|jj: int|
                        0 <= jj < j ==> nv@[jj] == self.spec_new_velocity(
                            pts0,
                            alpha as int,
                            i as int,
                            jj,
                        ),
                decreases dim - j,
            {
                let delta = fp_sub(points[i].coord[j], self.center[j]);
                nv.push(fp_add(points[i].velocity[j], fp_mul(delta, k)));
                j = j + 1;
            }
            points[i].velocity = nv;
            i = i + 1;
        }
        proof {
            assert forall|i: int| 0 <= i < points@.len() implies (#[trigger] points@[i]).wf(
                dim,
                points@.len() as int,
            ) by {
                assert(pts0[i].wf(dim, n as int));
            }
        }
    }
}

} // verus!
