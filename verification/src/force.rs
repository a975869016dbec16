//! The force kernels as one dispatchable family, and what one kernel
//! invocation does to the record vector.

use vstd::prelude::*;
use crate::bound::coord_view;
use crate::center_force::CenterForce;
use crate::collide_force::CollideForce;
use crate::data::{PointData, views};
use crate::fixed::{MAX_DIM, spec_fp_div};
use crate::force_utils::{jiggle_chunks_ok, jiggle_chunk_lists_ok};
use crate::link_force::{LinkForce, link_iters, spec_degree};
use crate::nbody_force::NBodyForce;
use crate::position_force::PositionForce;
use crate::radial_force::RadialForce;

verus! {

broadcast use vstd::std_specs::vec::group_vec_axioms, vstd::seq::group_seq_axioms;

/// One force kernel of the simulation.
pub enum ForceKernel {
    NBody(NBodyForce),
    Collide(CollideForce),
    Link(LinkForce),
    Center(CenterForce),
    Position(PositionForce),
    Radial(RadialForce),
}

/// Fields no kernel invocation changes: identity, payload, pin, strength,
/// radius, and the vector lengths.
pub open spec fn frame_ok<D>(p0: Seq<PointData<D>>, p1: Seq<PointData<D>>, dim: int) -> bool {
    &&& p1.len() == p0.len()
    &&& forall|i: int|
        0 <= i < p0.len() ==> {
            &&& (#[trigger] p1[i]).index == p0[i].index
            &&& p1[i].data == p0[i].data
            &&& p1[i].strength == p0[i].strength
            &&& p1[i].radius == p0[i].radius
            &&& p1[i].fixed_position == p0[i].fixed_position
            &&& p1[i].wf(dim, p1.len() as int)
        }
}

impl ForceKernel {
    /// The kernel's configuration fits a simulation of dimension `dim`
    /// with `n` records.
    pub open spec fn wf(self, dim: int, n: int) -> bool {
        match self {
            ForceKernel::NBody(f) => f.wf(dim, n),
            ForceKernel::Collide(f) => f.wf(dim, n),
            ForceKernel::Link(f) => f.wf(dim, n),
            ForceKernel::Center(f) => f.wf(dim),
            ForceKernel::Position(f) => f.wf(dim, n),
            ForceKernel::Radial(f) => f.wf(dim, n),
        }
    }

    /// What the kernel's configuration must satisfy before it is bound.
    pub open spec fn init_req(self, dim: int, n: int) -> bool {
        match self {
            ForceKernel::NBody(f) => f.theta >= 1 && f.distance_min >= 0 && f.distance_max >= 0
                && n < 0x1_0000_0000,
            ForceKernel::Collide(f) => f.wf(dim, n),
            ForceKernel::Link(f) => {
                &&& f.strengths@.len() == f.links@.len()
                &&& f.distances@.len() == f.links@.len()
                &&& f.links@.len() < 0x1000_0000
                &&& n < 0x1000_0000
                &&& forall|k: int|
                    0 <= k < f.links@.len() ==> {
                        &&& (#[trigger] f.links@[k]).0 < n
                        &&& f.links@[k].1 < n
                        &&& f.links@[k].0 != f.links@[k].1
                    }
            },
            ForceKernel::Center(f) => f.wf(dim),
            ForceKernel::Position(f) => f.wf(dim, n),
            ForceKernel::Radial(f) => f.wf(dim, n),
        }
    }

    /// What binding leaves behind: the kernel's own configuration is
    /// unchanged, and the derived per-record state is filled exactly —
    /// one strength per record for the n-body kernel (override table where
    /// it reaches, default elsewhere), the degrees and bias shares for the
    /// link kernel; the other kernels derive nothing.
    pub open spec fn inited_from(self, orig: ForceKernel, n: int) -> bool {
        match (self, orig) {
            (ForceKernel::NBody(f), ForceKernel::NBody(g)) => {
                &&& f.distance_min == g.distance_min
                &&& f.distance_max == g.distance_max
                &&& f.theta == g.theta
                &&& f.default_strength == g.default_strength
                &&& f.strength_overrides == g.strength_overrides
                &&& f.strengths@.len() == n
                &&& forall|i: int|
                    0 <= i < n ==> (#[trigger] f.strengths@[i]) == g.spec_strength(i)
            },
            (ForceKernel::Link(f), ForceKernel::Link(g)) => {
                &&& f.links == g.links
                &&& f.strengths == g.strengths
                &&& f.distances == g.distances
                &&& f.iterations == g.iterations
                &&& f.wf_init(n)
                &&& forall|v: int|
                    0 <= v < n ==> (#[trigger] f.count@[v]) as int == spec_degree(
                        g.links@,
                        v,
                        g.links@.len() as int,
                    )
                &&& forall|k: int|
                    0 <= k < g.links@.len() ==> (#[trigger] f.bias@[k]) as int == spec_fp_div(
                        f.count@[g.links@[k].0 as int] as int,
                        (f.count@[g.links@[k].0 as int] as int)
                            + (f.count@[g.links@[k].1 as int] as int),
                    )
            },
            (ForceKernel::Collide(f), ForceKernel::Collide(g)) => f == g,
            (ForceKernel::Center(f), ForceKernel::Center(g)) => f == g,
            (ForceKernel::Position(f), ForceKernel::Position(g)) => f == g,
            (ForceKernel::Radial(f), ForceKernel::Radial(g)) => f == g,
            _ => false,
        }
    }

    /// Bind the kernel to the records: fill whatever per-record state it
    /// derives (n-body strengths, link degrees and biases).
    pub fn init<D>(&mut self, points: &Vec<PointData<D>>, Ghost(dim): Ghost<int>)
        requires
            old(self).init_req(dim, points@.len() as int),
        ensures
            final(self).wf(dim, points@.len() as int),
            final(self).inited_from(*old(self), points@.len() as int),
    {
        match self {
            ForceKernel::NBody(f) => {
                f.init(points);
            },
            ForceKernel::Link(f) => {
                f.init(points.len());
            },
            ForceKernel::Collide(_) => {},
            ForceKernel::Center(_) => {},
            ForceKernel::Position(_) => {},
            ForceKernel::Radial(_) => {},
        }
    }

    /// What one invocation of the kernel does to the records.
    pub open spec fn rel<D>(
        self,
        p0: Seq<PointData<D>>,
        p1: Seq<PointData<D>>,
        alpha: int,
        dim: int,
    ) -> bool {
        &&& frame_ok(p0, p1, dim)
        &&& match self {
            ForceKernel::NBody(f) => {
                &&& forall|i: int| 0 <= i < p0.len() ==> (#[trigger] p1[i]).coord == p0[i].coord
                &&& (p0.len() == 0 ==> p1 == p0)
                &&& (p0.len() > 0 ==> exists|
                    root: crate::node::Node<crate::data::ForceData>,
                    jigs: Seq<Seq<Seq<int>>>,
                |
                    f.pass_ok(root, views(p0), views(p1), alpha, jigs, dim))
            },
            ForceKernel::Collide(f) => {
                &&& forall|i: int| 0 <= i < p0.len() ==> (#[trigger] p1[i]).coord == p0[i].coord
                &&& (p0.len() == 0 ==> p1 == p0)
                &&& (p0.len() > 0 ==> f.iters_rel(views(p0), views(p1), dim, f.iterations as int))
            },
            ForceKernel::Link(f) => {
                &&& forall|i: int| 0 <= i < p0.len() ==> (#[trigger] p1[i]).coord == p0[i].coord
                &&& exists|jigs: Seq<Seq<Seq<int>>>|
                    jigs.len() == f.iterations && jiggle_chunk_lists_ok(jigs, dim) && views(p1)
                        == #[trigger] link_iters(
                        views(p0),
                        f.links_data@,
                        f.strengths@,
                        f.distances@,
                        f.bias@,
                        alpha,
                        jigs,
                        dim,
                    )
            },
            ForceKernel::Center(f) => {
                &&& forall|i: int|
                    0 <= i < p0.len() ==> (#[trigger] p1[i]).velocity == p0[i].velocity
                &&& forall|i: int, j: int|
                    0 <= i < p0.len() && 0 <= j < dim ==> (#[trigger] p1[i].coord@[j])
                        == f.spec_new_coord(p0, i, j)
            },
            ForceKernel::Position(f) => {
                &&& forall|i: int| 0 <= i < p0.len() ==> (#[trigger] p1[i]).coord == p0[i].coord
                &&& forall|i: int, j: int|
                    0 <= i < p0.len() && 0 <= j < dim ==> (#[trigger] p1[i].velocity@[j])
                        == f.spec_new_velocity(p0, alpha, i, j)
            },
            ForceKernel::Radial(f) => {
                &&& forall|i: int| 0 <= i < p0.len() ==> (#[trigger] p1[i]).coord == p0[i].coord
                &&& forall|i: int, j: int|
                    0 <= i < p0.len() && 0 <= j < dim ==> (#[trigger] p1[i].velocity@[j])
                        == f.spec_new_velocity(p0, alpha, i, j)
            },
        }
    }

    /// Run the kernel once over the records.
    pub fn force<D>(&self, points: &mut Vec<PointData<D>>, alpha: i64, Ghost(dim): Ghost<int>)
        requires
            self.wf(dim, old(points)@.len() as int),
            1 <= dim <= MAX_DIM,
            forall|i: int|
                0 <= i < old(points)@.len() ==> (#[trigger] old(points)@[i]).wf(
                    dim,
                    old(points)@.len() as int,
                ),
            forall|i: int|
                0 <= i < old(points)@.len() ==> (#[trigger] old(points)@[i]).index == i,
        ensures
            self.rel(old(points)@, final(points)@, alpha as int, dim),
    {
        let ghost p0 = points@;
        match self {
            ForceKernel::NBody(f) => {
                let jigs = f.force(points, alpha, Ghost(dim));
                proof {
                    if p0.len() > 0 {
                        let root = choose|root: crate::node::Node<crate::data::ForceData>|
                            f.pass_ok(root, views(p0), views(points@), alpha as int, jigs@, dim);
                        assert(f.pass_ok(root, views(p0), views(points@), alpha as int, jigs@, dim));
                    }
                }
            },
            ForceKernel::Collide(f) => {
                f.force(points, alpha, Ghost(dim));
            },
            ForceKernel::Link(f) => {
                let jigs = f.force(points, alpha, Ghost(dim));
                proof {
                    assert(views(points@) == link_iters(
                        views(p0),
                        f.links_data@,
                        f.strengths@,
                        f.distances@,
                        f.bias@,
                        alpha as int,
                        jigs@,
                        dim,
                    ));
                }
            },
            ForceKernel::Center(f) => {
                f.force(points, alpha, Ghost(dim));
            },
            ForceKernel::Position(f) => {
                f.force(points, alpha, Ghost(dim));
            },
            ForceKernel::Radial(f) => {
                f.force(points, alpha, Ghost(dim));
            },
        }
    }
}

} // verus!
