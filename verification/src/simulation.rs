//! The simulation harness: owns the point records and an ordered list of
//! named force kernels; each tick decays alpha, runs every kernel in
//! order, and integrates velocities into positions, pinning pinned points.

use vstd::prelude::*;
use crate::bound::{coord_view, coord_in_limits};
use crate::data::{PointData, PointRec, views, copy_vec_i64};
use crate::fixed::{
    SCALE, COORD_LIMIT, MAX_DIM, sat64, spec_sat_add, spec_fp_mul, spec_isqrt, spec_clamp_coord,
    trunc_div, fp_mul, fp_sub, fp_add, clamp_coord, isqrt,
};
use crate::force::{ForceKernel, frame_ok};

verus! {

broadcast use vstd::std_specs::vec::group_vec_axioms, vstd::seq::group_seq_axioms;

/// Default annealing coefficient: one.
pub const DEFAULT_ALPHA: i64 = 1_000_000_000;

/// Default floor under which a caller usually stops ticking: one
/// thousandth.
pub const DEFAULT_ALPHA_MIN: i64 = 1_000_000;

/// Default per-tick decay rate `1 - 0.001^(1/300)`.
pub const DEFAULT_ALPHA_DECAY: i64 = 22_762_779;

/// Default annealing target: zero.
pub const DEFAULT_ALPHA_TARGET: i64 = 0;

/// Default per-tick velocity damping: six tenths.
pub const DEFAULT_VELOCITY_DECAY: i64 = 600_000_000;

/// Cosine of the golden-ratio roll angle `pi (3 - sqrt 5)`.
pub const ROLL_COS: i64 = -737_368_878;

/// Sine of the golden-ratio roll angle.
pub const ROLL_SIN: i64 = 675_490_294;

/// Cosine of the yaw angle `20 pi / (9 + sqrt 221)`.
pub const YAW_COS: i64 = -873_277_488;

/// Sine of the yaw angle.
pub const YAW_SIN: i64 = 487_223_182;

/// Cosine and sine of `k` times the roll angle, by the fixed-point
/// rotation recurrence.
pub open spec fn spec_roll(k: int) -> (int, int)
    decreases k,
{
    if k <= 0 {
        (SCALE as int, 0)
    } else {
        let p = spec_roll(k - 1);
        (
            sat64(spec_fp_mul(p.0, ROLL_COS as int) - spec_fp_mul(p.1, ROLL_SIN as int)),
            spec_sat_add(
                spec_fp_mul(p.1, ROLL_COS as int),
                spec_fp_mul(p.0, ROLL_SIN as int),
            ),
        )
    }
}

/// Cosine and sine of `k` times the yaw angle.
pub open spec fn spec_yaw(k: int) -> (int, int)
    decreases k,
{
    if k <= 0 {
        (SCALE as int, 0)
    } else {
        let p = spec_yaw(k - 1);
        (
            sat64(spec_fp_mul(p.0, YAW_COS as int) - spec_fp_mul(p.1, YAW_SIN as int)),
            spec_sat_add(spec_fp_mul(p.1, YAW_COS as int), spec_fp_mul(p.0, YAW_SIN as int)),
        )
    }
}

/// The integer cube root: the unique `r >= 0` with `r^3 <= x < (r+1)^3`.
pub closed spec fn spec_icbrt(x: int) -> int
    recommends
        x >= 0,
{
    choose|r: int| r >= 0 && #[trigger] (r * r * r) <= x && x < (r + 1) * (r + 1) * (r + 1)
}

/// Any `r >= 0` with `r^3 <= x < (r+1)^3` equals `spec_icbrt(x)`.
pub proof fn lemma_icbrt_unique(x: int, r: int)
    requires
        r >= 0,
        r * r * r <= x,
        x < (r + 1) * (r + 1) * (r + 1),
    ensures
        spec_icbrt(x) == r,
{
    assert(exists|q: int|
        q >= 0 && #[trigger] (q * q * q) <= x && x < (q + 1) * (q + 1) * (q + 1)) by {
        assert(r >= 0 && r * r * r <= x && x < (r + 1) * (r + 1) * (r + 1));
    }
    let q = spec_icbrt(x);
    if q < r {
        assert((q + 1) * (q + 1) * (q + 1) <= r * r * r) by (nonlinear_arith)
            requires
                0 <= q < r,
        ;
    }
    if r < q {
        assert((r + 1) * (r + 1) * (r + 1) <= q * q * q) by (nonlinear_arith)
            requires
                0 <= r < q,
        ;
    }
}

/// Integer cube root of a `u128` no larger than `2^126`.
#[verifier::loop_isolation(false)]
pub fn icbrt(x: u128) -> (r: u64)
    requires
        x < 0x4000_0000_0000_0000_0000_0000_0000_0000u128,
    ensures
        (r as int) * (r as int) * (r as int) <= x as int,
        (x as int) < (r as int + 1) * (r as int + 1) * (r as int + 1),
{
    let mut lo: u128 = 0;
    let mut hi: u128 = 0x3FF_FFFF_FFFF;
    proof {
        assert((0x3FF_FFFF_FFFFu128 + 1) * (0x3FF_FFFF_FFFFu128 + 1) * (0x3FF_FFFF_FFFFu128 + 1)
            >= 0x4000_0000_0000_0000_0000_0000_0000_0000u128) by (nonlinear_arith);
    }
    while lo < hi
        invariant
            lo <= hi <= 0x3FF_FFFF_FFFF,
            (lo as int) * (lo as int) * (lo as int) <= x as int,
            (x as int) < (hi as int + 1) * (hi as int + 1) * (hi as int + 1),
        decreases hi - lo,
    {
        let mid: u128 = lo + (hi - lo + 1) / 2;
        proof {
            assert(mid * mid <= 0x3FF_FFFF_FFFFu128 * 0x3FF_FFFF_FFFFu128) by (nonlinear_arith)
                requires
                    mid <= 0x3FF_FFFF_FFFFu128,
            ;
            assert(mid * mid * mid <= 0x3FF_FFFF_FFFFu128 * 0x3FF_FFFF_FFFFu128
                * 0x3FF_FFFF_FFFFu128) by (nonlinear_arith)
                requires
                    mid <= 0x3FF_FFFF_FFFFu128,
            ;
        }
        if mid * mid * mid <= x {
            lo = mid;
        } else {
            hi = mid - 1;
        }
    }
    lo as u64
}

/// The spiral radius of record `idx`: ten times `idx` (one dimension),
/// `sqrt(idx + 1/2)` (two), or `cbrt(idx + 1/2)` (three), clamped into the
/// coordinate cube.
pub open spec fn spec_radius(idx: int, dim: int) -> int {
    if dim == 1 {
        spec_clamp_coord(sat64(10 * idx * SCALE))
    } else if dim == 2 {
        spec_clamp_coord(sat64(10 * spec_isqrt((idx * SCALE + SCALE / 2) * SCALE)))
    } else {
        spec_clamp_coord(sat64(10 * spec_icbrt((idx * SCALE + SCALE / 2) * SCALE * SCALE)))
    }
}

/// The initial position of record `idx`: on the expanding spiral.
pub open spec fn init_coord(idx: int, dim: int) -> Seq<int> {
    let r = spec_radius(idx, dim);
    let roll = spec_roll(idx);
    let yaw = spec_yaw(idx);
    if dim == 1 {
        seq![r]
    } else if dim == 2 {
        seq![
            spec_clamp_coord(spec_fp_mul(r, roll.0)),
            spec_clamp_coord(spec_fp_mul(r, roll.1)),
        ]
    } else {
        seq![
            spec_clamp_coord(spec_fp_mul(spec_fp_mul(r, roll.1), yaw.0)),
            spec_clamp_coord(spec_fp_mul(r, roll.0)),
            spec_clamp_coord(spec_fp_mul(spec_fp_mul(r, roll.1), yaw.1)),
        ]
    }
}

/// One record integrated: a pinned record lands on its pin with zero
/// velocity; a free one keeps `velocity * velocity_decay` and moves by it,
/// clamped into the coordinate cube.
pub open spec fn integrate_rec<D>(p: PointRec<D>, vd: int, dim: int) -> PointRec<D> {
    match p.fixed_position {
        Some(q) => PointRec { coord: q, velocity: Seq::new(dim as nat, |j: int| 0), ..p },
        None => {
            let nv = Seq::new(dim as nat, |j: int| spec_fp_mul(p.velocity[j], vd));
            PointRec {
                velocity: nv,
                coord: Seq::new(
                    dim as nat,
                    |j: int| spec_clamp_coord(sat64(p.coord[j] + nv[j])),
                ),
                ..p
            }
        },
    }
}

pub open spec fn integrate_all<D>(pts: Seq<PointRec<D>>, vd: int, dim: int) -> Seq<PointRec<D>> {
    pts.map_values(|p: PointRec<D>| integrate_rec(p, vd, dim))
}

/// The first `k` kernels run in order: there is a chain of intermediate
/// record states, each related to the next by one kernel's relation.
pub open spec fn forces_chain<D>(
    forces: Seq<(String, ForceKernel)>,
    p0: Seq<PointData<D>>,
    p1: Seq<PointData<D>>,
    alpha: int,
    dim: int,
) -> bool
    decreases forces.len(),
{
    if forces.len() == 0 {
        p1 == p0
    } else {
        exists|mid: Seq<PointData<D>>|
            forces_chain(forces.drop_last(), p0, mid, alpha, dim) && #[trigger] forces.last().1.rel(
                mid,
                p1,
                alpha,
                dim,
            )
    }
}


/// The fixed-point spiral radius of record `idx`.
#[verifier::loop_isolation(false)]
fn spiral_radius(idx: usize, dim: usize) -> (r: i64)
    requires
        1 <= dim <= 3,
        idx < 0x1_0000_0000,
    ensures
        r as int == spec_radius(idx as int, dim as int),
        -crate::fixed::COORD_LIMIT <= r <= crate::fixed::COORD_LIMIT,
{
    proof {
        assert(0 <= 10 * (idx as int) * (SCALE as int)
            < 0x4000_0000_0000_0000_0000_0000_0000_0000) by (nonlinear_arith)
            requires
                0 <= (idx as int) < 0x1_0000_0000,
                SCALE as int == 1_000_000_000,
        ;
        assert(0 <= ((idx as int) * (SCALE as int) + (SCALE as int) / 2) * (SCALE as int)
            < 0x4000_0000_0000_0000_0000_0000_0000_0000) by (nonlinear_arith)
            requires
                0 <= (idx as int) < 0x1_0000_0000,
                SCALE as int == 1_000_000_000,
        ;
    }
    if dim == 1 {
        let p: i128 = 10 * (idx as i128) * (SCALE as i128);
        clamp_coord(
            if p > i64::MAX as i128 {
                i64::MAX
            } else {
                p as i64
            },
        )
    } else if dim == 2 {
        let u: u128 = ((idx as u128) * (SCALE as u128) + (SCALE as u128) / 2) * (SCALE as u128);
        let r0 = isqrt(u);
        proof {
            crate::fixed::lemma_isqrt_unique(u as int, r0 as int);
        }
        let p: i128 = 10 * (r0 as i128);
        clamp_coord(
            if p > i64::MAX as i128 {
                i64::MAX
            } else {
                p as i64
            },
        )
    } else {
        proof {
            assert(((idx as int) * (SCALE as int) + (SCALE as int) / 2) * (SCALE as int) * (
            SCALE as int) < 0x4000_0000_0000_0000_0000_0000_0000_0000) by (nonlinear_arith)
                requires
                    0 <= (idx as int) < 0x1_0000_0000,
                    SCALE as int == 1_000_000_000,
            ;
        }
        let u: u128 = ((idx as u128) * (SCALE as u128) + (SCALE as u128) / 2) * (SCALE as u128)
            * (SCALE as u128);
        let r0 = icbrt(u);
        proof {
            lemma_icbrt_unique(u as int, r0 as int);
        }
        let p: i128 = 10 * (r0 as i128);
        clamp_coord(
            if p > i64::MAX as i128 {
                i64::MAX
            } else {
                p as i64
            },
        )
    }
}

/// The spiral position of record `idx`, from its radius and the current
/// rotation values.
fn spiral_coord(idx: usize, dim: usize, roll_c: i64, roll_s: i64, yaw_c: i64, yaw_s: i64) -> (c:
    Vec<i64>)
    requires
        1 <= dim <= 3,
        idx < 0x1_0000_0000,
        roll_c as int == spec_roll(idx as int).0,
        roll_s as int == spec_roll(idx as int).1,
        yaw_c as int == spec_yaw(idx as int).0,
        yaw_s as int == spec_yaw(idx as int).1,
    ensures
        coord_view(c@) == init_coord(idx as int, dim as int),
        c@.len() == dim,
        coord_in_limits(coord_view(c@)),
{
    let r = spiral_radius(idx, dim);
    let mut coord: Vec<i64> = Vec::new();
    if dim == 1 {
        coord.push(r);
    } else if dim == 2 {
        coord.push(clamp_coord(fp_mul(r, roll_c)));
        coord.push(clamp_coord(fp_mul(r, roll_s)));
    } else {
        coord.push(clamp_coord(fp_mul(fp_mul(r, roll_s), yaw_c)));
        coord.push(clamp_coord(fp_mul(r, roll_c)));
        coord.push(clamp_coord(fp_mul(fp_mul(r, roll_s), yaw_s)));
    }
    proof {
        assert(coord_view(coord@) =~= init_coord(idx as int, dim as int));
        assert forall|j: int| 0 <= j < dim implies -crate::fixed::COORD_LIMIT as int <= (
        #[trigger] coord_view(coord@)[j]) <= crate::fixed::COORD_LIMIT as int by {
            assert(coord_view(coord@)[j] == coord@[j] as int);
        }
    }
    coord
}

/// The simulation: the records, the named kernels in registration order,
/// the dimension, and the annealing parameters.
pub struct Simulation<D> {
    pub force_point_data: Vec<PointData<D>>,
    pub forces: Vec<(String, ForceKernel)>,
    pub dim: usize,
    pub alpha: i64,
    pub alpha_min: i64,
    pub alpha_decay: i64,
    pub alpha_target: i64,
    pub velocity_decay: i64,
}

impl<D> Default for Simulation<D> {
    /// An empty two-dimensional simulation with the default parameters.
    fn default() -> (r: Simulation<D>)
        ensures
            r.wf(),
            r.force_point_data@.len() == 0,
            r.forces@.len() == 0,
            r.dim == 2usize,
            r.alpha == DEFAULT_ALPHA,
            r.alpha_min == DEFAULT_ALPHA_MIN,
            r.alpha_decay == DEFAULT_ALPHA_DECAY,
            r.alpha_target == DEFAULT_ALPHA_TARGET,
            r.velocity_decay == DEFAULT_VELOCITY_DECAY,
    {
        Simulation {
            force_point_data: Vec::new(),
            forces: Vec::new(),
            dim: 2,
            alpha: DEFAULT_ALPHA,
            alpha_min: DEFAULT_ALPHA_MIN,
            alpha_decay: DEFAULT_ALPHA_DECAY,
            alpha_target: DEFAULT_ALPHA_TARGET,
            velocity_decay: DEFAULT_VELOCITY_DECAY,
        }
    }
}

impl<D> Simulation<D> {
    /// Records indexed by their stable position, all of the simulation's
    /// dimension, and every kernel's configuration fitting them.
    pub open spec fn wf(self) -> bool {
        &&& 1 <= self.dim <= MAX_DIM
        &&& forall|i: int|
            0 <= i < self.force_point_data@.len() ==> (
            #[trigger] self.force_point_data@[i]).wf(
                self.dim as int,
                self.force_point_data@.len() as int,
            )
        &&& forall|i: int|
            0 <= i < self.force_point_data@.len() ==> (
            #[trigger] self.force_point_data@[i]).index == i
        &&& forall|k: int|
            0 <= k < self.forces@.len() ==> (#[trigger] self.forces@[k].1).wf(
                self.dim as int,
                self.force_point_data@.len() as int,
            )
    }

    /// One record per payload, placed on the expanding spiral, at rest.
    #[verifier::loop_isolation(false)]
    fn init_point_data(data: Vec<D>, dim: usize) -> (r: Vec<PointData<D>>)
        requires
            1 <= dim <= 3,
            data@.len() < 0x1_0000_0000,
        ensures
            r@.len() == data@.len(),
            forall|i: int|
                0 <= i < r@.len() ==> {
                    &&& (#[trigger] r@[i]).data == data@[i]
                    &&& r@[i].index == i
                    &&& coord_view(r@[i].coord@) == init_coord(i, dim as int)
                    &&& r@[i].velocity@.len() == dim
                    &&& (forall|j: int| 0 <= j < dim ==> r@[i].velocity@[j] == 0i64)
                    &&& r@[i].strength == 0i64
                    &&& r@[i].radius == 0i64
                    &&& r@[i].fixed_position is None
                    &&& r@[i].wf(dim as int, r@.len() as int)
                },
    {
        let ghost data0 = data@;
        let n = data.len();
        // reverse so that popping yields the payloads in order
        let mut rev: Vec<D> = Vec::new();
        let mut data = data;
        while data.len() > 0
            invariant
                rev@.len() + data@.len() == n,
                data@ == data0.take(data@.len() as int),
                forall|i: int| 0 <= i < rev@.len() ==> rev@[i] == data0[n - 1 - i],
            decreases data@.len(),
        {
            proof {
                assert(data@[data@.len() - 1] == data0[data@.len() - 1]);
                assert(data@.take(data@.len() - 1) =~= data0.take(data@.len() - 1));
            }
            let d = data.pop().unwrap();
            rev.push(d);
        }
        let mut out: Vec<PointData<D>> = Vec::new();
        let mut idx: usize = 0;
        let mut roll_c: i64 = SCALE;
        let mut roll_s: i64 = 0;
        let mut yaw_c: i64 = SCALE;
        let mut yaw_s: i64 = 0;
        while idx < n
            invariant
                0 <= idx <= n,
                rev@.len() == n - idx,
                forall|i: int| 0 <= i < rev@.len() ==> rev@[i] == data0[n - 1 - i],
                out@.len() == idx,
                roll_c as int == spec_roll(idx as int).0,
                roll_s as int == spec_roll(idx as int).1,
                yaw_c as int == spec_yaw(idx as int).0,
                yaw_s as int == spec_yaw(idx as int).1,
                forall|i: int|
                    0 <= i < idx ==> {
                        &&& (#[trigger] out@[i]).data == data0[i]
                        &&& out@[i].index == i
                        &&& coord_view(out@[i].coord@) == init_coord(i, dim as int)
                        &&& out@[i].velocity@.len() == dim
                        &&& (forall|j: int| 0 <= j < dim ==> out@[i].velocity@[j] == 0i64)
                        &&& out@[i].strength == 0i64
                        &&& out@[i].radius == 0i64
                        &&& out@[i].fixed_position is None
                        &&& out@[i].wf(dim as int, n as int)
                    },
            decreases n - idx,
        {
            let datum = rev.pop().unwrap();
            proof {
                assert(rev@.len() == n - idx - 1);
            }
            let coord = spiral_coord(idx, dim, roll_c, roll_s, yaw_c, yaw_s);
            out.push(PointData::from_data(datum, coord, idx));
            // advance the rotations
            let nc = fp_sub(fp_mul(roll_c, ROLL_COS), fp_mul(roll_s, ROLL_SIN));
            let ns = fp_add(fp_mul(roll_s, ROLL_COS), fp_mul(roll_c, ROLL_SIN));
            roll_c = nc;
            roll_s = ns;
            let nyc = fp_sub(fp_mul(yaw_c, YAW_COS), fp_mul(yaw_s, YAW_SIN));
            let nys = fp_add(fp_mul(yaw_s, YAW_COS), fp_mul(yaw_c, YAW_SIN));
            yaw_c = nyc;
            yaw_s = nys;
            idx = idx + 1;
        }
        out
    }

    /// A simulation over freshly placed records, one per payload, with the
    /// default parameters and no kernels.
    pub fn from_data(data: Vec<D>, dim: usize) -> (r: Simulation<D>)
        requires
            1 <= dim <= 3,
            data@.len() < 0x1_0000_0000,
        ensures
            r.wf(),
            r.dim == dim,
            r.forces@.len() == 0,
            r.alpha == DEFAULT_ALPHA,
            r.alpha_min == DEFAULT_ALPHA_MIN,
            r.alpha_decay == DEFAULT_ALPHA_DECAY,
            r.alpha_target == DEFAULT_ALPHA_TARGET,
            r.velocity_decay == DEFAULT_VELOCITY_DECAY,
            r.force_point_data@.len() == data@.len(),
            forall|i: int|
                0 <= i < data@.len() ==> {
                    &&& (#[trigger] r.force_point_data@[i]).data == data@[i]
                    &&& r.force_point_data@[i].index == i
                    &&& coord_view(r.force_point_data@[i].coord@) == init_coord(i, dim as int)
                    &&& (forall|j: int|
                        0 <= j < dim ==> r.force_point_data@[i].velocity@[j] == 0i64)
                    &&& r.force_point_data@[i].strength == 0i64
                    &&& r.force_point_data@[i].radius == 0i64
                    &&& r.force_point_data@[i].fixed_position is None
                },
    {
        let force_point_data = Self::init_point_data(data, dim);
        Simulation {
            force_point_data,
            forces: Vec::new(),
            dim,
            alpha: DEFAULT_ALPHA,
            alpha_min: DEFAULT_ALPHA_MIN,
            alpha_decay: DEFAULT_ALPHA_DECAY,
            alpha_target: DEFAULT_ALPHA_TARGET,
            velocity_decay: DEFAULT_VELOCITY_DECAY,
        }
    }

    /// Replace the records with freshly placed ones, one per payload.
    pub fn set_data(&mut self, data: Vec<D>)
        requires
            1 <= old(self).dim <= 3,
            old(self).forces@.len() == 0,
            data@.len() < 0x1_0000_0000,
        ensures
            final(self).wf(),
            final(self).dim == old(self).dim,
            final(self).forces == old(self).forces,
            final(self).alpha == old(self).alpha,
            final(self).force_point_data@.len() == data@.len(),
            forall|i: int|
                0 <= i < data@.len() ==> {
                    &&& (#[trigger] final(self).force_point_data@[i]).data == data@[i]
                    &&& final(self).force_point_data@[i].index == i
                    &&& coord_view(final(self).force_point_data@[i].coord@) == init_coord(
                        i,
                        old(self).dim as int,
                    )
                    &&& (forall|j: int|
                        0 <= j < old(self).dim ==> final(self).force_point_data@[i].velocity@[j]
                            == 0i64)
                    &&& final(self).force_point_data@[i].strength == 0i64
                    &&& final(self).force_point_data@[i].radius == 0i64
                    &&& final(self).force_point_data@[i].fixed_position is None
                },
    {
        self.force_point_data = Self::init_point_data(data, self.dim);
    }

    /// Bind a kernel to the records and register it under `name`; a kernel
    /// already registered under that name is replaced.
    #[verifier::loop_isolation(false)]
    pub fn add_force(&mut self, name: String, force: ForceKernel)
        requires
            old(self).wf(),
            force.init_req(old(self).dim as int, old(self).force_point_data@.len() as int),
        ensures
            final(self).wf(),
            final(self).force_point_data == old(self).force_point_data,
            final(self).dim == old(self).dim,
            final(self).alpha == old(self).alpha,
            final(self).forces@.len() >= 1,
            exists|nk: ForceKernel|
                {
                    &&& #[trigger] nk.inited_from(
                        force,
                        old(self).force_point_data@.len() as int,
                    )
                    &&& (if forall|k: int|
                        0 <= k < old(self).forces@.len() ==> (
                        #[trigger] old(self).forces@[k]).0@ != name@ {
                        final(self).forces@ == old(self).forces@.push((name, nk))
                    } else {
                        exists|k: int|
                            {
                                &&& 0 <= k < old(self).forces@.len()
                                &&& (#[trigger] old(self).forces@[k]).0@ == name@
                                &&& (forall|m: int|
                                    0 <= m < k ==> old(self).forces@[m].0@ != name@)
                                &&& final(self).forces@ == old(self).forces@.update(
                                    k,
                                    (name, nk),
                                )
                            }
                    })
                },
    {
        let ghost orig = force;
        let mut force = force;
        force.init(&self.force_point_data, Ghost(self.dim as int));
        let ghost nk = force;
        let n = self.forces.len();
        let mut k: usize = 0;
        while k < n
            invariant
                0 <= k <= n,
                n == self.forces@.len(),
                self.wf(),
                *self == *old(self),
                force == nk,
                nk.inited_from(orig, self.force_point_data@.len() as int),
                force.wf(self.dim as int, self.force_point_data@.len() as int),
                forall|m: int| 0 <= m < k ==> (#[trigger] self.forces@[m]).0@ != name@,
            decreases n - k,
        {
            if self.forces[k].0 == name {
                let ghost pre = self.forces@;
                self.forces[k] = (name, force);
                proof {
                    assert forall|m: int| 0 <= m < self.forces@.len() implies (
                    #[trigger] self.forces@[m].1).wf(
                        self.dim as int,
                        self.force_point_data@.len() as int,
                    ) by {
                        if m != k as int {
                            assert(self.forces@[m] == pre[m]);
                        }
                    }
                    assert(self.forces@ == pre.update(k as int, (name, nk)));
                    assert(exists|kk: int|
                        {
                            &&& 0 <= kk < pre.len()
                            &&& (#[trigger] pre[kk]).0@ == name@
                            &&& (forall|m: int| 0 <= m < kk ==> pre[m].0@ != name@)
                            &&& self.forces@ == pre.update(kk, (name, nk))
                        }) by {
                        assert(0 <= k < pre.len() && pre[k as int].0@ == name@ && (forall|m: int|
                            0 <= m < k ==> pre[m].0@ != name@) && self.forces@ == pre.update(
                            k as int,
                            (name, nk),
                        ));
                    }
                }
                return ;
            }
            k = k + 1;
        }
        let ghost pre = self.forces@;
        self.forces.push((name, force));
        proof {
            assert forall|m: int| 0 <= m < self.forces@.len() implies (
            #[trigger] self.forces@[m].1).wf(
                self.dim as int,
                self.force_point_data@.len() as int,
            ) by {
                if m < pre.len() {
                    assert(self.forces@[m] == pre[m]);
                }
            }
        }
    }

    /// Remove and return the kernel registered under `name`, if any.
    #[verifier::loop_isolation(false)]
    pub fn remove_force(&mut self, name: &String) -> (r: Option<ForceKernel>)
        requires
            old(self).wf(),
        ensures
            final(self).wf(),
            final(self).force_point_data == old(self).force_point_data,
            final(self).dim == old(self).dim,
            final(self).alpha == old(self).alpha,
            r is Some <==> exists|k: int|
                0 <= k < old(self).forces@.len() && (#[trigger] old(self).forces@[k]).0@ == name@,
            r is Some ==> exists|k: int|
                0 <= k < old(self).forces@.len() && old(self).forces@[k].0@ == name@ && (forall|
                    m: int,
                |
                    0 <= m < k ==> old(self).forces@[m].0@ != name@) && r == Some(
                    old(self).forces@[k].1,
                ) && final(self).forces@ == #[trigger] old(self).forces@.remove(k),
            r is None ==> final(self).forces == old(self).forces,
    {
        let n = self.forces.len();
        let mut k: usize = 0;
        while k < n
            invariant
                0 <= k <= n,
                n == self.forces@.len(),
                *self == *old(self),
                forall|m: int| 0 <= m < k ==> (#[trigger] self.forces@[m]).0@ != name@,
            decreases n - k,
        {
            if self.forces[k].0 == *name {
                let ghost pre = self.forces@;
                let (_, f) = self.forces.remove(k);
                proof {
                    assert forall|m: int| 0 <= m < self.forces@.len() implies (
                    #[trigger] self.forces@[m].1).wf(
                        self.dim as int,
                        self.force_point_data@.len() as int,
                    ) by {
                        if m < k as int {
                            assert(self.forces@[m] == pre[m]);
                        } else {
                            assert(self.forces@[m] == pre[m + 1]);
                        }
                    }
                }
                return Some(f);
            }
            k = k + 1;
        }
        None
    }

    /// One tick: decay alpha toward the target, run every kernel in order
    /// at the new alpha, then integrate: a pinned record lands on its pin
    /// with zero velocity, a free one keeps its damped velocity and moves
    /// by it.
    ///
    /// With no kernels registered and all records at rest and unpinned,
    /// every position is unchanged.
    #[verifier::loop_isolation(false)]
    pub fn tick(&mut self)
        requires
            old(self).wf(),
        ensures
            final(self).wf(),
            final(self).dim == old(self).dim,
            final(self).forces == old(self).forces,
            final(self).alpha_min == old(self).alpha_min,
            final(self).alpha_decay == old(self).alpha_decay,
            final(self).alpha_target == old(self).alpha_target,
            final(self).velocity_decay == old(self).velocity_decay,
            final(self).alpha as int == spec_sat_add(
                old(self).alpha as int,
                spec_fp_mul(
                    sat64(old(self).alpha_target - old(self).alpha),
                    old(self).alpha_decay as int,
                ),
            ),
            final(self).force_point_data@.len() == old(self).force_point_data@.len(),
            exists|mid: Seq<PointData<D>>|
                #[trigger] forces_chain(
                    old(self).forces@,
                    old(self).force_point_data@,
                    mid,
                    final(self).alpha as int,
                    old(self).dim as int,
                ) && views(final(self).force_point_data@) == integrate_all(
                    views(mid),
                    old(self).velocity_decay as int,
                    old(self).dim as int,
                ),
            forall|i: int|
                0 <= i < final(self).force_point_data@.len() ==> {
                    &&& (#[trigger] final(self).force_point_data@[i]).index == old(self).force_point_data@[i].index
                    &&& final(self).force_point_data@[i].data == old(self).force_point_data@[i].data
                    &&& final(self).force_point_data@[i].fixed_position == old(self).force_point_data@[i].fixed_position
                },
            forall|i: int|
                0 <= i < final(self).force_point_data@.len() && old(self).force_point_data@[i].fixed_position is Some ==> {
                    &&& coord_view((#[trigger] final(self).force_point_data@[i]).coord@)
                        == coord_view(old(self).force_point_data@[i].fixed_position->0@)
                    &&& (forall|j: int|
                        0 <= j < old(self).dim ==> final(self).force_point_data@[i].velocity@[j]
                            == 0i64)
                },
            (old(self).forces@.len() == 0 && (forall|i: int, j: int|
                0 <= i < old(self).force_point_data@.len() && 0 <= j < old(self).dim ==> old(self).force_point_data@[i].velocity@[j] == 0i64) && (forall|i: int|
                0 <= i < old(self).force_point_data@.len() ==> (#[trigger] old(self).force_point_data@[i]).fixed_position is None)) ==> forall|i: int|
                0 <= i < final(self).force_point_data@.len() ==> coord_view(
                    (#[trigger] final(self).force_point_data@[i]).coord@,
                ) == coord_view(old(self).force_point_data@[i].coord@),
    {
        let ghost dim = self.dim as int;
        let ghost p0 = self.force_point_data@;
        let n = self.force_point_data.len();
        // decay alpha
        self.alpha = fp_add(self.alpha, fp_mul(fp_sub(self.alpha_target, self.alpha), self.alpha_decay));
        let alpha = self.alpha;
        // run the kernels in order
        let nf = self.forces.len();
        let mut k: usize = 0;
        while k < nf
            invariant
                0 <= k <= nf,
                nf == self.forces@.len(),
                self.forces == old(self).forces,
                self.dim == old(self).dim,
                self.alpha == alpha,
                self.alpha_min == old(self).alpha_min,
                self.alpha_decay == old(self).alpha_decay,
                self.alpha_target == old(self).alpha_target,
                self.velocity_decay == old(self).velocity_decay,
                self.force_point_data@.len() == n,
                frame_ok(p0, self.force_point_data@, dim),
                forall|i: int|
                    0 <= i < n ==> (#[trigger] self.force_point_data@[i]).index == i,
                forces_chain(
                    self.forces@.take(k as int),
                    p0,
                    self.force_point_data@,
                    alpha as int,
                    dim,
                ),
            decreases nf - k,
        {
            let ghost pre = self.force_point_data@;
            let kernel = &self.forces[k].1;
            kernel.force(&mut self.force_point_data, alpha, Ghost(dim));
            proof {
                assert(self.forces@.take(k as int + 1).drop_last() =~= self.forces@.take(
                    k as int,
                ));
                assert(self.forces@.take(k as int + 1).last() == self.forces@[k as int]);
                assert(forces_chain(
                    self.forces@.take(k as int + 1),
                    p0,
                    self.force_point_data@,
                    alpha as int,
                    dim,
                )) by {
                    assert(forces_chain(self.forces@.take(k as int), p0, pre, alpha as int, dim));
                    assert(self.forces@[k as int].1.rel(
                        pre,
                        self.force_point_data@,
                        alpha as int,
                        dim,
                    ));
                }
            }
            k = k + 1;
        }
        proof {
            assert(self.forces@.take(nf as int) =~= self.forces@);
        }
        let ghost mid = self.force_point_data@;
        // integrate
        let vd = self.velocity_decay;
        let mut i: usize = 0;
        while i < n
            invariant
                0 <= i <= n,
                self.dim == old(self).dim,
                self.forces == old(self).forces,
                self.alpha == alpha,
                self.alpha_min == old(self).alpha_min,
                self.alpha_decay == old(self).alpha_decay,
                self.alpha_target == old(self).alpha_target,
                self.velocity_decay == old(self).velocity_decay,
                vd == old(self).velocity_decay,
                self.force_point_data@.len() == n,
                forall|m: int| i <= m < n ==> self.force_point_data@[m] == mid[m],
                frame_ok(mid, self.force_point_data@, dim),
                forall|m: int|
                    0 <= m < i ==> #[trigger] views(self.force_point_data@)[m] == integrate_rec(
                        mid[m]@,
                        vd as int,
                        dim,
                    ),
            decreases n - i,
        {
            let ghost pre_rec = self.force_point_data@[i as int];
            let ghost pre_points = self.force_point_data@;
            let points = &mut self.force_point_data;
            let pinned: bool = points[i].fixed_position.is_some();
            if pinned {
                let mut pin: Vec<i64> = Vec::new();
                match &points[i].fixed_position {
                    Some(p) => {
                        pin = copy_vec_i64(p);
                    },
                    None => unreached(),
                }
                let dimx = pin.len();
                let mut zv: Vec<i64> = Vec::new();
                let mut j: usize = 0;
                while j < dimx
                    invariant
                        zv@.len() == j <= dimx,
                        forall|jj: int| 0 <= jj < j ==> zv@[jj] == 0i64,
                    decreases dimx - j,
                {
                    zv.push(0);
                    j = j + 1;
                }
                points[i].coord = pin;
                points[i].velocity = zv;
                proof {
                    assert(views(self.force_point_data@)[i as int] == self.force_point_data@[
                        i as int]@);
                    let lhs = self.force_point_data@[i as int]@;
                    let rhs = integrate_rec(mid[i as int]@, vd as int, dim);
                    assert(mid[i as int].wf(dim, n as int));
                    assert(lhs.coord =~= rhs.coord);
                    assert(lhs.velocity =~= rhs.velocity) by {
                        assert forall|jj: int| 0 <= jj < dim implies lhs.velocity[jj] == 0 by {
                            assert(coord_view(self.force_point_data@[i as int].velocity@)[jj]
                                == self.force_point_data@[i as int].velocity@[jj] as int);
                        }
                    }
                    assert(lhs == rhs);
                    assert(lhs.coord.len() == dim && coord_in_limits(lhs.coord));
                    assert(self.force_point_data@[i as int].wf(dim, n as int));
                    assert forall|m: int| 0 <= m <= i as int implies #[trigger] views(
                        self.force_point_data@,
                    )[m] == integrate_rec(mid[m]@, vd as int, dim) by {
                        assert(views(self.force_point_data@)[m] == self.force_point_data@[m]@);
                        if m < i as int {
                            assert(self.force_point_data@[m] == pre_points[m]);
                            assert(views(pre_points)[m] == pre_points[m]@);
                        }
                    }
                }
            } else {
                let dimx = points[i].velocity.len();
                let mut nv: Vec<i64> = Vec::new();
                let mut ncd: Vec<i64> = Vec::new();
                let mut j: usize = 0;
                while j < dimx
                    invariant
                        0 <= j <= dimx,
                        points@.len() == n,
                        points@[i as int] == pre_rec,
                        dimx == pre_rec.velocity@.len(),
                        pre_rec.coord@.len() == dimx,
                        nv@.len() == j,
                        ncd@.len() == j,
                        forall|jj: int|
                            0 <= jj < j ==> (#[trigger] nv@[jj]) as int == spec_fp_mul(
                                pre_rec.velocity@[jj] as int,
                                vd as int,
                            ),
                        forall|jj: int|
                            0 <= jj < j ==> (#[trigger] ncd@[jj]) as int == spec_clamp_coord(
                                sat64(
                                    pre_rec.coord@[jj] + spec_fp_mul(
                                        pre_rec.velocity@[jj] as int,
                                        vd as int,
                                    ),
                                ),
                            ),
                    decreases dimx - j,
                {
                    let v = fp_mul(points[i].velocity[j], vd);
                    nv.push(v);
                    ncd.push(clamp_coord(fp_add(points[i].coord[j], v)));
                    j = j + 1;
                }
                points[i].velocity = nv;
                points[i].coord = ncd;
                proof {
                    assert(views(self.force_point_data@)[i as int] == self.force_point_data@[
                        i as int]@);
                    let lhs = self.force_point_data@[i as int]@;
                    let rhs = integrate_rec(mid[i as int]@, vd as int, dim);
                    assert(mid[i as int].wf(dim, n as int));
                    assert(lhs.velocity =~= rhs.velocity) by {
                        assert forall|jj: int| 0 <= jj < dim implies lhs.velocity[jj]
                            == rhs.velocity[jj] by {
                            assert(coord_view(nv@)[jj] == nv@[jj] as int);
                            assert(mid[i as int]@.velocity[jj] == pre_rec.velocity@[jj] as int);
                        }
                    }
                    assert(lhs.coord =~= rhs.coord) by {
                        assert forall|jj: int| 0 <= jj < dim implies lhs.coord[jj]
                            == rhs.coord[jj] by {
                            assert(coord_view(ncd@)[jj] == ncd@[jj] as int);
                            assert(mid[i as int]@.coord[jj] == pre_rec.coord@[jj] as int);
                        }
                    }
                    assert(lhs == rhs);
                    assert(lhs.coord.len() == dim && coord_in_limits(lhs.coord)) by {
                        assert forall|jj: int| 0 <= jj < dim implies -COORD_LIMIT as int <= (
                        #[trigger] lhs.coord[jj]) <= COORD_LIMIT as int by {
                            assert(coord_view(ncd@)[jj] == ncd@[jj] as int);
                        }
                    }
                    assert(self.force_point_data@[i as int].wf(dim, n as int));
                    assert forall|m: int| 0 <= m <= i as int implies #[trigger] views(
                        self.force_point_data@,
                    )[m] == integrate_rec(mid[m]@, vd as int, dim) by {
                        assert(views(self.force_point_data@)[m] == self.force_point_data@[m]@);
                        if m < i as int {
                            assert(self.force_point_data@[m] == pre_points[m]);
                            assert(views(pre_points)[m] == pre_points[m]@);
                        }
                    }
                }
            }
            i = i + 1;
        }
        proof {
            assert(views(self.force_point_data@) =~= integrate_all(views(mid), vd as int, dim));
            assert(forces_chain(old(self).forces@, p0, mid, alpha as int, dim));
            // the pinned and no-kernel clauses
            assert forall|i: int|
                0 <= i < n && p0[i].fixed_position is Some implies {
                &&& coord_view((#[trigger] self.force_point_data@[i]).coord@) == coord_view(
                    p0[i].fixed_position->0@,
                )
                &&& (forall|j: int|
                    0 <= j < dim ==> self.force_point_data@[i].velocity@[j] == 0i64)
            } by {
                assert(views(self.force_point_data@)[i] == integrate_rec(mid[i]@, vd as int, dim));
                assert(mid[i].fixed_position == p0[i].fixed_position);
                assert forall|j: int|
                    0 <= j < dim implies self.force_point_data@[i].velocity@[j] == 0i64 by {
                    assert(coord_view(self.force_point_data@[i].velocity@)[j] == 0);
                }
            }
            if old(self).forces@.len() == 0 && (forall|m: int, j: int|
                0 <= m < n && 0 <= j < dim ==> p0[m].velocity@[j] == 0i64) && (forall|m: int|
                0 <= m < n ==> (#[trigger] p0[m]).fixed_position is None) {
                assert(mid == p0);
                assert forall|i: int| 0 <= i < n implies coord_view(
                    (#[trigger] self.force_point_data@[i]).coord@,
                ) == coord_view(p0[i].coord@) by {
                    assert(views(self.force_point_data@)[i] == integrate_rec(
                        mid[i]@,
                        vd as int,
                        dim,
                    ));
                    assert(p0[i].fixed_position is None);
                    assert forall|j: int| 0 <= j < dim implies coord_view(
                        self.force_point_data@[i].coord@,
                    )[j] == p0[i].coord@[j] as int by {
                        assert(p0[i].velocity@[j] == 0i64);
                        assert(p0[i]@.velocity[j] == 0);
                        assert(spec_fp_mul(0, vd as int) == 0) by {
                            assert(trunc_div(0, SCALE as int) == 0) by {
                                vstd::arithmetic::div_mod::lemma_div_of0(SCALE as int);
                            }
                        }
                        assert(p0[i].wf(dim, n as int));
                        assert(coord_view(p0[i].coord@)[j] == p0[i].coord@[j] as int);
                    }
                    assert(coord_view(self.force_point_data@[i].coord@) =~= coord_view(
                        p0[i].coord@,
                    ));
                }
            }
        }
    }
}

/// With the default parameters, alpha strictly decreases toward its target
/// of zero on every tick, and never undershoots it, as long as it is at
/// least 44 billionths.
pub proof fn lemma_alpha_monotone(alpha: int)
    requires
        44 <= alpha <= i64::MAX,
    ensures
        spec_sat_add(
            alpha,
            spec_fp_mul(sat64(DEFAULT_ALPHA_TARGET - alpha), DEFAULT_ALPHA_DECAY as int),
        ) < alpha,
        spec_sat_add(
            alpha,
            spec_fp_mul(sat64(DEFAULT_ALPHA_TARGET - alpha), DEFAULT_ALPHA_DECAY as int),
        ) >= 0,
{
    let d = DEFAULT_ALPHA_DECAY as int;
    let s = SCALE as int;
    assert(sat64(0 - alpha) == -alpha);
    assert(alpha * d >= 44 * d) by (nonlinear_arith)
        requires
            alpha >= 44,
            d > 0,
    ;
    assert(alpha * d <= alpha * s) by (nonlinear_arith)
        requires
            alpha >= 0,
            0 < d <= s,
    ;
    let q = (alpha * d) / s;
    assert(q >= 1) by {
        vstd::arithmetic::div_mod::lemma_div_is_ordered(s, alpha * d, s);
        vstd::arithmetic::div_mod::lemma_div_by_self(s);
    }
    assert(q <= alpha) by {
        vstd::arithmetic::div_mod::lemma_div_is_ordered(alpha * d, alpha * s, s);
        vstd::arithmetic::div_mod::lemma_div_multiples_vanish(alpha, s);
    }
    assert(trunc_div(-(alpha * d), s) == -q);
    assert(spec_fp_mul(-alpha, d) == sat64(-q)) by {
        assert((-alpha) * d == -(alpha * d)) by (nonlinear_arith);
    }
}

} // verus!
