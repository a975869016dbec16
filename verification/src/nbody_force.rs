//! The n-body force: a Barnes-Hut approximation.  Each pass builds a
//! spatial tree over the points, accumulates per-region aggregates (the
//! strength-weighted mean position and the signed strength sum), then
//! pushes every point by the far-field of regions whose angular size is
//! small enough and by the near-field of individual points.

use vstd::prelude::*;
use vstd::multiset::Multiset;
use crate::bound::{coord_view, coord_in_limits, dist2};
use crate::data::{
    PointData, PointRec, ForceData, PointForceData, RegionForceData, views,
};
use crate::fixed::{
    SCALE, COORD_LIMIT, MAX_DIM, sat64, sat128, spec_sat_add, spec_fp_mul, spec_fp_div,
    spec_fp_div_l2, spec_isqrt, spec_clamp_coord, trunc_div, fp_mul, fp_div, fp_sub, fp_add,
    fp_div_l2, clamp_coord, sat_add_i128, div_trunc_sat, isqrt,
};
use crate::force_utils::{jiggle, JIGGLE_MAX, jiggle_chunks_ok};
use crate::node::Node;
use crate::tree::GenericTree;

verus! {

broadcast use vstd::std_specs::vec::group_vec_axioms, vstd::seq::group_seq_axioms, vstd::multiset::group_multiset_axioms;

/// The Barnes-Hut n-body force.
pub struct NBodyForce {
    pub distance_min: i64,
    pub distance_max: i64,
    pub theta: i64,
    pub default_strength: i64,
    pub strength_overrides: Option<Vec<i64>>,
    pub strengths: Vec<i64>,
}

/// The aggregate of a subtree: the strength-weighted mean position and
/// the signed strength sum, absent when the total weight is zero.
///
/// A point contributes its coordinate at the strength its index has in
/// `strengths`; a region folds its children's aggregates: weights and
/// weighted positions add (saturating in `i128`), the mean is clamped
/// into the coordinate cube.
pub open spec fn agg(node: Node<ForceData>, strengths: Seq<i64>, dim: int) -> Option<
    (Seq<int>, int),
>
    decreases node, 0int, 0int,
{
    match node {
        Node::Point { coord, data } => Some(
            (coord_view(coord@), strengths[data.index as int] as int),
        ),
        Node::Region { children, .. } => {
            let f = agg_fold(children@, strengths, dim, children@.len() as int);
            if f.0 == 0 {
                None
            } else {
                Some(
                    (
                        Seq::new(
                            dim as nat,
                            |j: int| spec_clamp_coord(sat64(trunc_div(f.2[j], f.0))),
                        ),
                        sat64(f.1),
                    ),
                )
            }
        },
    }
}

/// Folded aggregates of the first `k` children: total weight, signed
/// strength sum, and per-axis weighted coordinate sums.
pub open spec fn agg_fold(
    children: Seq<Node<ForceData>>,
    strengths: Seq<i64>,
    dim: int,
    k: int,
) -> (int, int, Seq<int>)
    decreases children, 1int, k,
{
    if k <= 0 || k > children.len() {
        (0, 0, Seq::new(dim as nat, |j: int| 0))
    } else {
        let prev = agg_fold(children, strengths, dim, k - 1);
        match agg(children[k - 1], strengths, dim) {
            None => prev,
            Some((c, s)) => {
                let a = if s >= 0 {
                    s
                } else {
                    -s
                };
                (
                    sat128(prev.0 + a),
                    sat128(prev.1 + s),
                    Seq::new(dim as nat, |j: int| sat128(prev.2[j] + a * c[j])),
                )
            },
        }
    }
}

/// Every region of the subtree carries exactly its aggregate.
pub open spec fn aggs_ok(node: Node<ForceData>, strengths: Seq<i64>, dim: int) -> bool
    decreases node, 0int, 0int,
{
    node is Region ==> {
        &&& (match (node->Region_data, agg(node, strengths, dim)) {
            (Some(rd), Some((c, s))) => {
                &&& rd.strength == Some(sat64(s) as i64)
                &&& (rd.coord matches Some(cv) && coord_view(cv@) == c)
            },
            (Some(rd), None) => rd.coord is None && rd.strength is None,
            _ => false,
        })
        &&& aggs_ok_children(node->Region_children@, strengths, dim, node->Region_children@.len() as int)
    }
}

pub open spec fn aggs_ok_children(
    children: Seq<Node<ForceData>>,
    strengths: Seq<i64>,
    dim: int,
    k: int,
) -> bool
    decreases children, 1int, k,
{
    if k <= 0 || k > children.len() {
        true
    } else {
        aggs_ok_children(children, strengths, dim, k - 1) && aggs_ok(
            children[k - 1],
            strengths,
            dim,
        )
    }
}

/// The fixed context of one point's Barnes-Hut traversal: its position
/// and stable index, the annealing coefficient, the strength table, and
/// the kernel parameters.
pub ghost struct ApplyCtx {
    pub coord: Seq<int>,
    pub idx: int,
    pub alpha: int,
    pub strengths: Seq<i64>,
    pub theta: int,
    pub dmin: int,
    pub dmax: int,
    pub dim: int,
}

/// The squared distance `l0`, adjusted axis by axis: where the node's
/// aggregate position coincides with the point, a squared random jiggle is
/// added; whenever the total falls below `dmin^2` it is raised to the
/// geometric mean of itself and `dmin^2`.
pub open spec fn adjust_l(
    l0: int,
    c: Seq<int>,
    p: Seq<int>,
    dmin: int,
    jig: Seq<int>,
    n: int,
) -> int
    decreases n,
{
    if n <= 0 {
        l0
    } else {
        let l1 = adjust_l(l0, c, p, dmin, jig, n - 1);
        let l2 = if c[n - 1] == p[n - 1] {
            l1 + jig[n - 1] * jig[n - 1]
        } else {
            l1
        };
        if l2 < dmin * dmin {
            dmin * spec_isqrt(l2)
        } else {
            l2
        }
    }
}

/// The velocity after one impulse: each component moves by the offset to
/// the aggregate, scaled by `k`.
pub open spec fn impulse_vel(v: Seq<int>, c: Seq<int>, p: Seq<int>, k: int) -> Seq<int> {
    Seq::new(v.len(), |j: int| spec_sat_add(v[j], spec_fp_mul(sat64(c[j] - p[j]), k)))
}

/// The aggregate a traversal reads at a node: a point's own position and
/// strength, or the stored region aggregate.
pub open spec fn node_agg(node: Node<ForceData>, strengths: Seq<i64>) -> Option<(Seq<int>, int)> {
    match node {
        Node::Point { coord, data } => Some(
            (coord_view(coord@), strengths[data.index as int] as int),
        ),
        Node::Region { data, .. } => match data {
            Some(rd) => match (rd.coord, rd.strength) {
                (Some(cv), Some(sv)) => Some((coord_view(cv@), sv as int)),
                _ => None,
            },
            None => None,
        },
    }
}

/// One Barnes-Hut visit: starting from velocity `v` with the jiggle
/// supply `jigs` consumed up to `jpos`, returns the new velocity and the
/// new supply position.
///
/// A region whose angular size is below theta acts as one pseudo-body at
/// its aggregate (consuming one jiggle chunk if it is close enough to
/// apply); otherwise its children are visited in order.  A distinct point
/// within `dmax` applies its own impulse.
pub open spec fn apply_node(
    node: Node<ForceData>,
    ctx: ApplyCtx,
    v: Seq<int>,
    jigs: Seq<Seq<int>>,
    jpos: int,
) -> (Seq<int>, int)
    decreases node, 0int, 0int,
{
    if node is Region && node->Region_children@.len() == 0 {
        (v, jpos)
    } else {
        match node_agg(node, ctx.strengths) {
            None => (v, jpos),
            Some((c, s)) => {
                let w = if node is Region {
                    node->Region_bounds@[0].max - node->Region_bounds@[0].min
                } else {
                    0
                };
                let l = dist2(c, ctx.coord);
                let wt = spec_fp_div(w, ctx.theta);
                if wt * wt < l {
                    if l < ctx.dmax * ctx.dmax {
                        let ladj = adjust_l(l, c, ctx.coord, ctx.dmin, jigs[jpos], ctx.dim);
                        if ladj > 0 {
                            (
                                impulse_vel(
                                    v,
                                    c,
                                    ctx.coord,
                                    spec_fp_div_l2(spec_fp_mul(s, ctx.alpha), ladj),
                                ),
                                jpos + 1,
                            )
                        } else {
                            (v, jpos + 1)
                        }
                    } else {
                        (v, jpos)
                    }
                } else if node is Region {
                    apply_children(
                        node->Region_children@,
                        ctx,
                        v,
                        jigs,
                        jpos,
                        node->Region_children@.len() as int,
                    )
                } else if l >= ctx.dmax * ctx.dmax {
                    (v, jpos)
                } else if ctx.idx != node->Point_data.index as int {
                    let ladj = adjust_l(l, c, ctx.coord, ctx.dmin, jigs[jpos], ctx.dim);
                    if ladj > 0 {
                        (
                            impulse_vel(
                                v,
                                c,
                                ctx.coord,
                                spec_fp_div_l2(spec_fp_mul(s, ctx.alpha), ladj),
                            ),
                            jpos + 1,
                        )
                    } else {
                        (v, jpos + 1)
                    }
                } else {
                    (v, jpos)
                }
            },
        }
    }
}

/// The first `k` children visited in order, threading velocity and the
/// jiggle supply position.
pub open spec fn apply_children(
    children: Seq<Node<ForceData>>,
    ctx: ApplyCtx,
    v: Seq<int>,
    jigs: Seq<Seq<int>>,
    jpos: int,
    k: int,
) -> (Seq<int>, int)
    decreases children, 1int, k,
{
    if k <= 0 || k > children.len() {
        (v, jpos)
    } else {
        let prev = apply_children(children, ctx, v, jigs, jpos, k - 1);
        apply_node(children[k - 1], ctx, prev.0, jigs, prev.1)
    }
}

/// A visit never rewinds the jiggle supply.
pub proof fn lemma_apply_mono(
    node: Node<ForceData>,
    ctx: ApplyCtx,
    v: Seq<int>,
    jigs: Seq<Seq<int>>,
    jpos: int,
)
    ensures
        apply_node(node, ctx, v, jigs, jpos).1 >= jpos,
    decreases node, 0int, 0int,
{
    if !(node is Region && node->Region_children@.len() == 0) {
        match node_agg(node, ctx.strengths) {
            None => {},
            Some((c, s)) => {
                let w = if node is Region {
                    node->Region_bounds@[0].max - node->Region_bounds@[0].min
                } else {
                    0
                };
                let l = dist2(c, ctx.coord);
                let wt = spec_fp_div(w, ctx.theta);
                if wt * wt < l {
                } else if node is Region {
                    lemma_apply_children_mono(
                        node->Region_children@,
                        ctx,
                        v,
                        jigs,
                        jpos,
                        node->Region_children@.len() as int,
                    );
                }
            },
        }
    }
}

pub proof fn lemma_apply_children_mono(
    children: Seq<Node<ForceData>>,
    ctx: ApplyCtx,
    v: Seq<int>,
    jigs: Seq<Seq<int>>,
    jpos: int,
    k: int,
)
    ensures
        apply_children(children, ctx, v, jigs, jpos, k).1 >= jpos,
    decreases children, 1int, k,
{
    if !(k <= 0 || k > children.len()) {
        lemma_apply_children_mono(children, ctx, v, jigs, jpos, k - 1);
        let prev = apply_children(children, ctx, v, jigs, jpos, k - 1);
        lemma_apply_mono(children[k - 1], ctx, prev.0, jigs, prev.1);
    }
}

/// A visit reads the jiggle supply only between its starting and final
/// positions, so extending or rewriting the supply elsewhere changes
/// nothing.
pub proof fn lemma_apply_frame(
    node: Node<ForceData>,
    ctx: ApplyCtx,
    v: Seq<int>,
    j1: Seq<Seq<int>>,
    j2: Seq<Seq<int>>,
    jpos: int,
)
    requires
        forall|i: int| jpos <= i < apply_node(node, ctx, v, j1, jpos).1 ==> j2[i] == j1[i],
    ensures
        apply_node(node, ctx, v, j2, jpos) == apply_node(node, ctx, v, j1, jpos),
    decreases node, 0int, 0int,
{
    if !(node is Region && node->Region_children@.len() == 0) {
        match node_agg(node, ctx.strengths) {
            None => {},
            Some((c, s)) => {
                let w = if node is Region {
                    node->Region_bounds@[0].max - node->Region_bounds@[0].min
                } else {
                    0
                };
                let l = dist2(c, ctx.coord);
                let wt = spec_fp_div(w, ctx.theta);
                if wt * wt < l {
                } else if node is Region {
                    lemma_apply_children_frame(
                        node->Region_children@,
                        ctx,
                        v,
                        j1,
                        j2,
                        jpos,
                        node->Region_children@.len() as int,
                    );
                }
            },
        }
    }
}

pub proof fn lemma_apply_children_frame(
    children: Seq<Node<ForceData>>,
    ctx: ApplyCtx,
    v: Seq<int>,
    j1: Seq<Seq<int>>,
    j2: Seq<Seq<int>>,
    jpos: int,
    k: int,
)
    requires
        forall|i: int|
            jpos <= i < apply_children(children, ctx, v, j1, jpos, k).1 ==> j2[i] == j1[i],
    ensures
        apply_children(children, ctx, v, j2, jpos, k) == apply_children(
            children,
            ctx,
            v,
            j1,
            jpos,
            k,
        ),
    decreases children, 1int, k,
{
    if !(k <= 0 || k > children.len()) {
        let prev = apply_children(children, ctx, v, j1, jpos, k - 1);
        lemma_apply_children_mono(children, ctx, v, j1, jpos, k - 1);
        lemma_apply_mono(children[k - 1], ctx, prev.0, j1, prev.1);
        lemma_apply_children_frame(children, ctx, v, j1, j2, jpos, k - 1);
        lemma_apply_frame(children[k - 1], ctx, prev.0, j1, j2, prev.1);
    }
}

impl NBodyForce {
    /// All point payloads of a force tree index into the strength table.
    pub open spec fn pts_indices_ok(
        pts: Multiset<(Seq<int>, PointForceData)>,
        n: int,
    ) -> bool {
        forall|e: (Seq<int>, PointForceData)|
            pts.count(e) > 0 ==> 0 <= (#[trigger] e.1).index < n
    }

    /// Aggregate a subtree: set every region's payload to the
    /// strength-weighted mean position and strength sum of what lies
    /// below it.  The shape, boxes and points of the tree are unchanged.
    #[verifier::loop_isolation(false)]
    fn accumulate(
        node: Node<ForceData>,
        strengths: &Vec<i64>,
        Ghost(dim): Ghost<int>,
        Ghost(cap): Ghost<int>,
        Ghost(md): Ghost<int>,
    ) -> (r: Node<ForceData>)
        requires
            node.wf(dim, cap, md),
            Self::pts_indices_ok(node.pts(), strengths@.len() as int),
        ensures
            r.wf(dim, cap, md),
            r.pts() == node.pts(),
            r is Region <==> node is Region,
            r is Region ==> r->Region_bounds == node->Region_bounds,
            r is Point ==> r == node,
            aggs_ok(r, strengths@, dim),
            agg(r, strengths@, dim) == agg(node, strengths@, dim),
        decreases node,
    {
        match node {
            Node::Point { coord, data } => {
                proof {
                    let n0 = Node::<ForceData>::Point { coord, data };
                    assert(n0.pts() =~= Multiset::empty().insert(n0.entry()));
                }
                Node::Point { coord, data }
            },
            Node::Region { bounds, mut children, data } => {
                let ghost orig_children = children@;
                let ghost self0 = Node::<ForceData>::Region { bounds, children, data };
                let nc = children.len();
                let mut weight: i128 = 0;
                let mut ssum: i128 = 0;
                let mut csums: Vec<i128> = Vec::new();
                let mut j: usize = 0;
                while j < bounds.len()
                    invariant
                        csums@.len() == j <= dim,
                        forall|jj: int| 0 <= jj < j ==> (#[trigger] csums@[jj]) == 0i128,
                    decreases dim - j,
                {
                    csums.push(0);
                    j = j + 1;
                }
                proof {
                    assert forall|jj: int| 0 <= jj < dim implies agg_fold(
                        orig_children,
                        strengths@,
                        dim,
                        0,
                    ).2[jj] == 0 by {}
                }
                let mut k: usize = 0;
                while k < nc
                    invariant
                        0 <= k <= nc,
                        nc == children@.len() == orig_children.len(),
                        children@.len() == orig_children.len(),
                        bounds@.len() == dim,
                        csums@.len() == dim,
                        forall|i: int| k <= i < nc ==> children@[i] == orig_children[i],
                        forall|i: int|
                            0 <= i < k ==> {
                                &&& (#[trigger] children@[i]).wf(dim, cap, md)
                                &&& children@[i].pts() == orig_children[i].pts()
                                &&& (children@[i] is Region <==> orig_children[i] is Region)
                                &&& (children@[i] is Region ==> children@[i]->Region_bounds
                                    == orig_children[i]->Region_bounds)
                                &&& (children@[i] is Point ==> children@[i] == orig_children[i])
                                &&& aggs_ok(children@[i], strengths@, dim)
                                &&& agg(children@[i], strengths@, dim) == agg(
                                    orig_children[i],
                                    strengths@,
                                    dim,
                                )
                            },
                        Node::<ForceData>::pts_of(children@) == Node::<ForceData>::pts_of(
                            orig_children,
                        ),
                        weight as int == agg_fold(orig_children, strengths@, dim, k as int).0,
                        ssum as int == agg_fold(orig_children, strengths@, dim, k as int).1,
                        forall|jj: int|
                            0 <= jj < dim ==> (#[trigger] csums@[jj]) as int == agg_fold(
                                orig_children,
                                strengths@,
                                dim,
                                k as int,
                            ).2[jj],
                        weight >= 0,
                    decreases nc - k,
                {
                    let ghost pre_children = children@;
                    let child = children.remove(k);
                    proof {
                        assert(self0.wf(dim, cap, md));
                        assert(child.wf(dim, cap, md));
                        Node::<ForceData>::lemma_pts_of_contains_all(
                            orig_children,
                            k as int,
                            self0,
                        );
                    }
                    let child = Self::accumulate(child, strengths, Ghost(dim), Ghost(cap), Ghost(md));
                    let ghost ca = agg(child, strengths@, dim);
                    // read the child's aggregate
                    let mut child_agg: Option<(Vec<i64>, i64)> = None;
                    match &child {
                        Node::Point { coord, data } => {
                            proof {
                                assert(child.pts() =~= Multiset::empty().insert(child.entry()));
                                assert(child.pts().count(child.entry()) > 0);
                                assert(orig_children[k as int].pts().count(child.entry()) > 0);
                                assert(self0.pts().count(child.entry()) > 0);
                                assert(0 <= (child.entry().1).index < strengths@.len());
                            }
                            let mut cc: Vec<i64> = Vec::new();
                            let mut j: usize = 0;
                            while j < coord.len()
                                invariant
                                    cc@.len() == j <= coord@.len(),
                                    forall|jj: int| 0 <= jj < j ==> cc@[jj] == coord@[jj],
                                decreases coord@.len() - j,
                            {
                                cc.push(coord[j]);
                                j = j + 1;
                            }
                            proof {
                                assert(cc@ =~= coord@);
                                assert(child.wf(dim, cap, md));
                                assert(coord@.len() == dim);
                                assert(ca matches Some(q) && q.0 == coord_view(cc@) && q.1
                                    == strengths@[data.index as int] as int);
                                assert forall|jj: int| 0 <= jj < dim implies -COORD_LIMIT <= (
                                #[trigger] cc@[jj]) <= COORD_LIMIT by {
                                    assert(child.wf(dim, cap, md));
                                    assert(coord_view(coord@)[jj] == coord@[jj] as int);
                                }
                                assert(cc@.len() == dim);
                            }
                            child_agg = Some((cc, strengths[data.index]));
                        },
                        Node::Region { data, .. } => {
                            match data {
                                Some(rd) => {
                                    match (&rd.coord, &rd.strength) {
                                        (Some(cv), Some(sv)) => {
                                            let mut cc: Vec<i64> = Vec::new();
                                            let mut j: usize = 0;
                                            while j < cv.len()
                                                invariant
                                                    cc@.len() == j <= cv@.len(),
                                                    forall|jj: int|
                                                        0 <= jj < j ==> cc@[jj] == cv@[jj],
                                                decreases cv@.len() - j,
                                            {
                                                cc.push(cv[j]);
                                                j = j + 1;
                                            }
                                            proof {
                                                assert(cc@ =~= cv@);
                                                assert(aggs_ok(child, strengths@, dim));
                                                assert(ca is Some);
                                                assert(ca->Some_0.0 == coord_view(cc@));
                                                assert(cc@.len() == dim) by {
                                                    assert(ca->Some_0.0.len() == dim);
                                                    assert(coord_view(cc@).len() == cc@.len());
                                                }
                                                assert(ca matches Some(q) && q.0 == coord_view(
                                                    cc@,
                                                ) && q.1 == *sv as int) by {
                                                    let q = ca->Some_0;
                                                    assert(sat64(q.1) == q.1);
                                                }
                                                assert forall|jj: int|
                                                    0 <= jj < dim implies -COORD_LIMIT <= (
                                                #[trigger] cc@[jj]) <= COORD_LIMIT by {
                                                    assert(ca->Some_0.0[jj] == coord_view(
                                                        cc@,
                                                    )[jj]);
                                                    assert(coord_view(cc@)[jj] == cc@[jj] as int);
                                                }
                                            }
                                            child_agg = Some((cc, *sv));
                                        },
                                        _ => {
                                            child_agg = None;
                                        },
                                    }
                                },
                                None => {
                                    child_agg = None;
                                },
                            }
                        },
                    }
                    match child_agg {
                        Some((c, s)) => {
                            proof {
                                assert(ca matches Some(p) && p.1 == s as int && p.0 == coord_view(
                                    c@,
                                ) && c@.len() == dim && forall|jj: int|
                                    0 <= jj < dim ==> -COORD_LIMIT <= (#[trigger] c@[jj])
                                        <= COORD_LIMIT);
                                assert forall|jj: int| 0 <= jj < dim implies ca->Some_0.0[jj] == (
                                c@[jj] as int) by {
                                    assert(coord_view(c@)[jj] == c@[jj] as int);
                                }
                            }
                            let a: i128 = if s >= 0 {
                                s as i128
                            } else {
                                -(s as i128)
                            };
                            weight = sat_add_i128(weight, a);
                            ssum = sat_add_i128(ssum, s as i128);
                            let mut j: usize = 0;
                            while j < c.len()
                                invariant
                                    0 <= j <= dim,
                                    c@.len() == dim,
                                    csums@.len() == dim,
                                    0 <= a <= 0x8000_0000_0000_0000i128,
                                    ca matches Some(p) && p.1 == s as int && p.0 == coord_view(c@),
                                    a as int == (if s as int >= 0 { s as int } else { -(s as int) }),
                                    forall|jj: int|
                                        0 <= jj < dim ==> -COORD_LIMIT <= (#[trigger] c@[jj])
                                            <= COORD_LIMIT,
                                    forall|jj: int|
                                        j <= jj < dim ==> (#[trigger] csums@[jj]) as int
                                            == agg_fold(
                                            orig_children,
                                            strengths@,
                                            dim,
                                            k as int,
                                        ).2[jj],
                                    forall|jj: int|
                                        0 <= jj < j ==> (#[trigger] csums@[jj]) as int == sat128(
                                            agg_fold(orig_children, strengths@, dim, k as int).2[jj]
                                                + a * (c@[jj] as int),
                                        ),
                                decreases dim - j,
                            {
                                proof {
                                    assert(a * (c@[j as int] as int) <= 0x8000_0000_0000_0000i128
                                        * (COORD_LIMIT as int)) by (nonlinear_arith)
                                        requires
                                            0 <= a <= 0x8000_0000_0000_0000i128,
                                            -(COORD_LIMIT as int) <= c@[j as int] as int
                                                <= COORD_LIMIT as int,
                                    ;
                                    assert(a * (c@[j as int] as int) >= -(
                                    0x8000_0000_0000_0000i128 * (COORD_LIMIT as int)))
                                        by (nonlinear_arith)
                                        requires
                                            0 <= a <= 0x8000_0000_0000_0000i128,
                                            -(COORD_LIMIT as int) <= c@[j as int] as int
                                                <= COORD_LIMIT as int,
                                    ;
                                }
                                let prod: i128 = a * (c[j] as i128);
                                let cur = csums[j];
                                csums[j] = sat_add_i128(cur, prod);
                                j = j + 1;
                            }
                            proof {
                                assert forall|jj: int| 0 <= jj < dim implies (
                                #[trigger] csums@[jj]) as int == agg_fold(
                                    orig_children,
                                    strengths@,
                                    dim,
                                    k as int + 1,
                                ).2[jj] by {
                                    assert(agg(orig_children[k as int], strengths@, dim) == ca);
                                }
                                assert(weight as int == agg_fold(
                                    orig_children,
                                    strengths@,
                                    dim,
                                    k as int + 1,
                                ).0);
                                assert(ssum as int == agg_fold(
                                    orig_children,
                                    strengths@,
                                    dim,
                                    k as int + 1,
                                ).1);
                            }
                        },
                        None => {
                            proof {
                                assert(agg(orig_children[k as int], strengths@, dim) == ca);
                                assert(ca is None);
                                assert forall|jj: int| 0 <= jj < dim implies (
                                #[trigger] csums@[jj]) as int == agg_fold(
                                    orig_children,
                                    strengths@,
                                    dim,
                                    k as int + 1,
                                ).2[jj] by {}
                            }
                        },
                    }
                    children.insert(k, child);
                    proof {
                        assert(children@ =~= pre_children.update(k as int, children@[k as int]));
                        Node::<ForceData>::lemma_pts_of_update(
                            pre_children,
                            k as int,
                            children@[k as int],
                        );
                        assert forall|e: (Seq<int>, PointForceData)| #[trigger] Node::<
                            ForceData,
                        >::pts_of(children@).count(e) == Node::<ForceData>::pts_of(
                            pre_children,
                        ).count(e) by {
                            assert(Node::<ForceData>::pts_of(children@).add(
                                pre_children[k as int].pts(),
                            ).count(e) == Node::<ForceData>::pts_of(pre_children).add(
                                children@[k as int].pts(),
                            ).count(e));
                            assert(children@[k as int].pts().count(e) == pre_children[
                                k as int].pts().count(e));
                        }
                        assert(Node::<ForceData>::pts_of(children@) =~= Node::<
                            ForceData,
                        >::pts_of(pre_children));
                    }
                    k = k + 1;
                }
                // the aggregate of this region
                let new_data: Option<RegionForceData> = if weight == 0 {
                    Some(RegionForceData { coord: None, strength: None, radius: None })
                } else {
                    let mut mean: Vec<i64> = Vec::new();
                    let mut j: usize = 0;
                    while j < csums.len()
                        invariant
                            0 <= j <= dim,
                            csums@.len() == dim,
                            weight > 0,
                            weight as int == agg_fold(orig_children, strengths@, dim, nc as int).0,
                            forall|jj: int|
                                0 <= jj < dim ==> (#[trigger] csums@[jj]) as int == agg_fold(
                                    orig_children,
                                    strengths@,
                                    dim,
                                    nc as int,
                                ).2[jj],
                            mean@.len() == j,
                            forall|jj: int|
                                0 <= jj < j ==> (#[trigger] mean@[jj]) as int == spec_clamp_coord(
                                    sat64(
                                        trunc_div(
                                            agg_fold(
                                                orig_children,
                                                strengths@,
                                                dim,
                                                nc as int,
                                            ).2[jj],
                                            weight as int,
                                        ),
                                    ),
                                ),
                        decreases dim - j,
                    {
                        mean.push(clamp_coord(div_trunc_sat(csums[j], weight)));
                        j = j + 1;
                    }
                    let s64: i64 = if ssum > i64::MAX as i128 {
                        i64::MAX
                    } else if ssum < i64::MIN as i128 {
                        i64::MIN
                    } else {
                        ssum as i64
                    };
                    Some(RegionForceData { coord: Some(mean), strength: Some(s64), radius: None })
                };
                let r = Node::Region { bounds, children, data: new_data };
                proof {
                    assert(r.wf(dim, cap, md)) by {
                        assert(self0.wf(dim, cap, md));
                        assert(r.pts() =~= self0.pts());
                        if !self0.spec_is_leaf() {
                            assert(!r.spec_is_leaf());
                        } else {
                            assert(r.spec_is_leaf());
                        }
                    }
                    assert(aggs_ok_children(
                        r->Region_children@,
                        strengths@,
                        dim,
                        r->Region_children@.len() as int,
                    )) by {
                        lemma_aggs_ok_children_from_all(r->Region_children@, strengths@, dim);
                    }
                    assert(agg_fold(r->Region_children@, strengths@, dim, nc as int) == agg_fold(
                        orig_children,
                        strengths@,
                        dim,
                        nc as int,
                    )) by {
                        lemma_agg_fold_congruence(
                            r->Region_children@,
                            orig_children,
                            strengths@,
                            dim,
                            nc as int,
                        );
                    }
                    let f = agg_fold(orig_children, strengths@, dim, nc as int);
                    assert(agg(r, strengths@, dim) == agg(self0, strengths@, dim)) by {
                        if f.0 != 0 {
                            assert(agg(r, strengths@, dim)->Some_0.0 =~= agg(
                                self0,
                                strengths@,
                                dim,
                            )->Some_0.0);
                        }
                    }
                    if weight == 0 {
                        assert(agg(r, strengths@, dim) is None);
                    } else {
                        let ga = agg(r, strengths@, dim);
                        assert(f.0 == weight as int && f.0 != 0);
                        assert(ga is Some);
                        let rd = r->Region_data->Some_0;
                        let cv = rd.coord->Some_0;
                        assert(coord_view(cv@) =~= ga->Some_0.0) by {
                            assert forall|jj: int| 0 <= jj < dim implies coord_view(cv@)[jj]
                                == ga->Some_0.0[jj] by {
                                assert(coord_view(cv@)[jj] == cv@[jj] as int);
                            }
                        }
                        assert(ga->Some_0.1 == sat64(f.1));
                        assert(sat64(ga->Some_0.1) == ga->Some_0.1);
                        assert(rd.strength == Some(sat64(ga->Some_0.1) as i64));
                    }
                    assert(aggs_ok(r, strengths@, dim));
                }
                r
            },
        }
    }
}

/// The tree entry a force pass makes for one record: its position and a
/// payload holding its stable index, strength and radius.
pub open spec fn snap_entry<D>(p: PointRec<D>) -> (Seq<int>, PointForceData) {
    (
        p.coord,
        PointForceData { index: p.index as usize, strength: p.strength as i64, radius: p.radius as i64 },
    )
}

/// The points a force pass hands to its tree.
pub open spec fn snap_pts<D>(pts: Seq<PointRec<D>>) -> Multiset<(Seq<int>, PointForceData)> {
    Seq::new(pts.len(), |m: int| snap_entry(pts[m])).to_multiset()
}

/// The points of a sequence of point nodes are exactly their entries.
pub proof fn lemma_pts_of_point_entries(s: Seq<Node<ForceData>>)
    requires
        forall|m: int| 0 <= m < s.len() ==> (#[trigger] s[m]) is Point,
    ensures
        Node::<ForceData>::pts_of(s) =~= s.map_values(|n: Node<ForceData>| n.entry()).to_multiset(),
    decreases s.len(),
{
    broadcast use vstd::seq_lib::group_seq_properties;

    let mapped = s.map_values(|n: Node<ForceData>| n.entry());
    if s.len() == 0 {
        assert(mapped.len() == 0);
        assert(mapped.to_multiset() =~= Multiset::empty());
    } else {
        lemma_pts_of_point_entries(s.drop_first());
        assert(s[0].pts() =~= Multiset::empty().insert(s[0].entry()));
        assert(mapped.drop_first() =~= s.drop_first().map_values(
            |n: Node<ForceData>| n.entry(),
        ));
        mapped.to_multiset_ensures();
        assert(mapped =~= mapped.drop_first().insert(0, s[0].entry()));
        assert(mapped.to_multiset() =~= mapped.drop_first().to_multiset().insert(s[0].entry()));
    }
}

impl NBodyForce {
    /// One Barnes-Hut traversal for record `i`: every node whose far-field
    /// applies, and every distinct near point, adds its impulse to the
    /// record's velocity.  Returns the jiggle chunks drawn so far, extended
    /// by those this traversal consumed.
    #[verifier::loop_isolation(false)]
    fn apply_rec<D>(
        node: &Node<ForceData>,
        points: &mut Vec<PointData<D>>,
        i: usize,
        alpha: i64,
        strengths: &Vec<i64>,
        theta: i64,
        dmin: i64,
        dmax: i64,
        Ghost(ctx): Ghost<ApplyCtx>,
        Ghost(cap): Ghost<int>,
        Ghost(md): Ghost<int>,
        Ghost(jpre): Ghost<Seq<Seq<int>>>,
    ) -> (jall: Ghost<Seq<Seq<int>>>)
        requires
            node.wf(ctx.dim, cap, md),
            Self::pts_indices_ok(node.pts(), strengths@.len() as int),
            aggs_ok(*node, strengths@, ctx.dim),
            (i as int) < old(points)@.len(),
            old(points)@[i as int].coord@.len() == ctx.dim,
            old(points)@[i as int].velocity@.len() == ctx.dim,
            coord_in_limits(coord_view(old(points)@[i as int].coord@)),
            1 <= ctx.dim <= MAX_DIM,
            ctx.coord == coord_view(old(points)@[i as int].coord@),
            ctx.idx == i as int,
            ctx.alpha == alpha as int,
            ctx.strengths == strengths@,
            ctx.theta == theta as int,
            theta >= 1,
            ctx.dmin == dmin as int,
            dmin >= 0,
            ctx.dmax == dmax as int,
        ensures
            final(points)@.len() == old(points)@.len(),
            forall|m: int|
                0 <= m < final(points)@.len() && m != i as int ==> final(points)@[m] == old(
                    points,
                )@[m],
            final(points)@[i as int].coord == old(points)@[i as int].coord,
            final(points)@[i as int].index == old(points)@[i as int].index,
            final(points)@[i as int].data == old(points)@[i as int].data,
            final(points)@[i as int].strength == old(points)@[i as int].strength,
            final(points)@[i as int].radius == old(points)@[i as int].radius,
            final(points)@[i as int].fixed_position == old(points)@[i as int].fixed_position,
            final(points)@[i as int].velocity@.len() == ctx.dim,
            jall@.len() >= jpre.len(),
            forall|q: int| 0 <= q < jpre.len() ==> jall@[q] == jpre[q],
            forall|q: int|
                jpre.len() <= q < jall@.len() ==> (#[trigger] jall@[q]).len() == ctx.dim
                    && forall|j: int|
                    0 <= j < ctx.dim ==> -JIGGLE_MAX as int <= #[trigger] jall@[q][j]
                        <= JIGGLE_MAX as int,
            (coord_view(final(points)@[i as int].velocity@), jall@.len() as int) == apply_node(
                *node,
                ctx,
                coord_view(old(points)@[i as int].velocity@),
                jall@,
                jpre.len() as int,
            ),
        decreases *node,
    {
        let ghost v0 = coord_view(points@[i as int].velocity@);
        if node.is_region() && !node.has_children() {
            return Ghost(jpre);
        }
        // the aggregate this node acts as
        let mut agg_c: Vec<i64> = Vec::new();
        let mut agg_s: i64 = 0;
        let mut got_agg: bool = false;
        let mut w: i64 = 0;
        match node {
            Node::Point { coord, data } => {
                proof {
                    assert(node.pts() =~= Multiset::empty().insert(node.entry()));
                    assert(node.pts().count(node.entry()) > 0);
                    assert(0 <= (node.entry().1).index < strengths@.len());
                    assert(node.wf(ctx.dim, cap, md));
                }
                agg_c = crate::data::copy_vec_i64(coord);
                agg_s = strengths[data.index];
                got_agg = true;
            },
            Node::Region { bounds, data, .. } => {
                w = bounds[0].width();
                match data {
                    Some(rd) => {
                        match (&rd.coord, &rd.strength) {
                            (Some(cv), Some(sv)) => {
                                agg_c = crate::data::copy_vec_i64(cv);
                                agg_s = *sv;
                                got_agg = true;
                            },
                            _ => {
                                got_agg = false;
                            },
                        }
                    },
                    None => {
                        got_agg = false;
                    },
                }
            },
        }
        proof {
            assert(match node_agg(*node, strengths@) {
                Some((c, s)) => got_agg && c == coord_view(agg_c@) && s == agg_s as int && c.len()
                    == ctx.dim && coord_in_limits(c),
                None => got_agg == false,
            }) by {
                if *node is Point {
                    assert(node.wf(ctx.dim, cap, md));
                } else {
                    let rdo = node->Region_data;
                    if rdo is Some {
                        let rd = rdo->Some_0;
                        if rd.coord is Some && rd.strength is Some {
                            let cv = rd.coord->Some_0;
                            assert(aggs_ok(*node, strengths@, ctx.dim));
                            assert(agg(*node, strengths@, ctx.dim) is Some);
                            let q = agg(*node, strengths@, ctx.dim)->Some_0;
                            assert(q.0 == coord_view(cv@));
                            assert(q.0.len() == ctx.dim);
                            assert forall|jj: int|
                                0 <= jj < ctx.dim implies -COORD_LIMIT as int <= (
                            #[trigger] coord_view(cv@)[jj]) <= COORD_LIMIT as int by {
                                assert(coord_view(cv@)[jj] == cv@[jj] as int);
                            }
                        }
                    }
                }
            }
        }
        if !got_agg {
            return Ghost(jpre);
        }
        let ghost c_spec = coord_view(agg_c@);
        // squared distance from the point to the aggregate
        let mut l: i128 = 0;
        let mut j: usize = 0;
        let dimx = agg_c.len();
        while j < dimx
            invariant
                0 <= j <= dimx,
                dimx as int == ctx.dim,
                agg_c@.len() == ctx.dim,
                points@ == old(points)@,
                coord_in_limits(c_spec),
                c_spec == coord_view(agg_c@),
                l == crate::bound::dist2_upto(c_spec, ctx.coord, j as int),
                0 <= l <= (j as int) * 4 * (COORD_LIMIT as int) * (COORD_LIMIT as int),
            decreases dimx - j,
        {
            proof {
                assert(c_spec[j as int] == agg_c@[j as int] as int);
                assert(ctx.coord[j as int] == points@[i as int].coord@[j as int] as int);
            }
            let d: i128 = (agg_c[j] as i128) - (points[i].coord[j] as i128);
            proof {
                assert(d * d <= 4 * (COORD_LIMIT as int) * (COORD_LIMIT as int))
                    by (nonlinear_arith)
                    requires
                        -2 * (COORD_LIMIT as int) <= d <= 2 * (COORD_LIMIT as int),
                ;
                assert(d * d >= 0) by (nonlinear_arith);
            }
            l = l + d * d;
            j = j + 1;
        }
        proof {
            assert(l == dist2(c_spec, ctx.coord));
        }
        let wt = fp_div(w, theta);
        proof {
            crate::fixed::lemma_i64_product_bounds(wt as int, wt as int);
            crate::fixed::lemma_i64_product_bounds(dmax as int, dmax as int);
        }
        let wt2: i128 = (wt as i128) * (wt as i128);
        let dmax2: i128 = (dmax as i128) * (dmax as i128);
        if wt2 < l {
            if l < dmax2 {
                let (ladj, chunk) = Self::adjust_exec(
                    l,
                    &agg_c,
                    points,
                    i,
                    dmin,
                    Ghost(ctx),
                );
                if ladj > 0 {
                    let kk = fp_div_l2(fp_mul(agg_s, alpha), ladj);
                    Self::impulse_exec(&agg_c, points, i, kk, Ghost(ctx));
                }
                return Ghost(jpre.push(chunk@));
            } else {
                return Ghost(jpre);
            }
        } else if node.is_region() {
            match node {
                Node::Point { .. } => unreached(),
                Node::Region { children, .. } => {
                    let ghost ch = children@;
                    let mut jcur: Ghost<Seq<Seq<int>>> = Ghost(jpre);
                    let mut k: usize = 0;
                    while k < children.len()
                        invariant
                            0 <= k <= ch.len(),
                            children@ == ch,
                            points@.len() == old(points)@.len(),
                            forall|m: int|
                                0 <= m < points@.len() && m != i as int ==> points@[m] == old(
                                    points,
                                )@[m],
                            points@[i as int].coord == old(points)@[i as int].coord,
                            points@[i as int].index == old(points)@[i as int].index,
                            points@[i as int].data == old(points)@[i as int].data,
                            points@[i as int].strength == old(points)@[i as int].strength,
                            points@[i as int].radius == old(points)@[i as int].radius,
                            points@[i as int].fixed_position == old(points)@[i as int].fixed_position,
                            points@[i as int].velocity@.len() == ctx.dim,
                            jcur@.len() >= jpre.len(),
                            forall|q: int| 0 <= q < jpre.len() ==> jcur@[q] == jpre[q],
                            forall|q: int|
                                jpre.len() <= q < jcur@.len() ==> (#[trigger] jcur@[q]).len()
                                    == ctx.dim && forall|j: int|
                                    0 <= j < ctx.dim ==> -JIGGLE_MAX as int <= #[trigger] jcur@[q][j]
                                        <= JIGGLE_MAX as int,
                            (coord_view(points@[i as int].velocity@), jcur@.len() as int)
                                == apply_children(ch, ctx, v0, jcur@, jpre.len() as int, k as int),
                        decreases ch.len() - k,
                    {
                        let ghost pre_j = jcur@;
                        let ghost pre_v = coord_view(points@[i as int].velocity@);
                        let child = &children[k];
                        proof {
                            assert(ch[k as int].wf(ctx.dim, cap, md));
                            lemma_aggs_ok_children_index(ch, strengths@, ctx.dim, ch.len() as int, k as int);
                            assert forall|e: (Seq<int>, PointForceData)| #[trigger] ch[
                                k as int].pts().count(e) > 0 implies 0 <= e.1.index
                                < strengths@.len() by {
                                Node::<ForceData>::lemma_pts_of_contains(ch, k as int, e);
                            }
                        }
                        let jnext = Self::apply_rec(
                            child,
                            points,
                            i,
                            alpha,
                            strengths,
                            theta,
                            dmin,
                            dmax,
                            Ghost(ctx),
                            Ghost(cap),
                            Ghost(md),
                            Ghost(pre_j),
                        );
                        proof {
                            lemma_apply_children_frame(
                                ch,
                                ctx,
                                v0,
                                pre_j,
                                jnext@,
                                jpre.len() as int,
                                k as int,
                            );
                        }
                        jcur = Ghost(jnext@);
                        k = k + 1;
                    }
                    proof {
                        assert((coord_view(points@[i as int].velocity@), jcur@.len() as int)
                            == apply_node(*node, ctx, v0, jcur@, jpre.len() as int));
                    }
                    return Ghost(jcur@);
                },
            }
        } else {
            // a point: inside dmax, not beyond the angular test
            match node {
                Node::Region { .. } => unreached(),
                Node::Point { data, .. } => {
                    if l >= dmax2 {
                        return Ghost(jpre);
                    }
                    if i != data.index {
                        let (ladj, chunk) = Self::adjust_exec(
                            l,
                            &agg_c,
                            points,
                            i,
                            dmin,
                            Ghost(ctx),
                        );
                        if ladj > 0 {
                            let kk = fp_div_l2(fp_mul(agg_s, alpha), ladj);
                            Self::impulse_exec(&agg_c, points, i, kk, Ghost(ctx));
                        }
                        return Ghost(jpre.push(chunk@));
                    } else {
                        return Ghost(jpre);
                    }
                },
            }
        }
    }

    /// Draw one jiggle chunk and adjust a squared distance: add a squared
    /// jiggle on every coincident axis, and raise anything below `dmin^2`
    /// to the geometric mean with it.
    #[verifier::loop_isolation(false)]
    fn adjust_exec<D>(
        l0: i128,
        agg_c: &Vec<i64>,
        points: &Vec<PointData<D>>,
        i: usize,
        dmin: i64,
        Ghost(ctx): Ghost<ApplyCtx>,
    ) -> (res: (i128, Ghost<Seq<int>>))
        requires
            (i as int) < points@.len(),
            agg_c@.len() == ctx.dim,
            points@[i as int].coord@.len() == ctx.dim,
            ctx.coord == coord_view(points@[i as int].coord@),
            ctx.dmin == dmin as int,
            dmin >= 0,
            1 <= ctx.dim <= MAX_DIM,
            0 <= l0 <= 0x4000_0000_0000_0000_0000_0000_0000_0000i128,
        ensures
            res.1@.len() == ctx.dim,
            forall|j: int|
                0 <= j < ctx.dim ==> -JIGGLE_MAX as int <= #[trigger] res.1@[j] <= JIGGLE_MAX as int,
            res.0 as int == adjust_l(
                l0 as int,
                coord_view(agg_c@),
                ctx.coord,
                dmin as int,
                res.1@,
                ctx.dim,
            ),
            res.0 >= 0,
    {
        let ghost c_spec = coord_view(agg_c@);
        let mut l = l0;
        let ghost mut chunk: Seq<int> = Seq::empty();
        let mut j: usize = 0;
        proof {
            crate::fixed::lemma_i64_product_bounds(dmin as int, dmin as int);
        }
        let dmin2: i128 = (dmin as i128) * (dmin as i128);
        while j < agg_c.len()
            invariant
                0 <= j <= ctx.dim,
                agg_c@.len() == ctx.dim,
                chunk.len() == j,
                dmin2 == (dmin as int) * (dmin as int),
                forall|jj: int|
                    0 <= jj < j ==> -JIGGLE_MAX as int <= #[trigger] chunk[jj]
                        <= JIGGLE_MAX as int,
                l as int == adjust_l(l0 as int, c_spec, ctx.coord, dmin as int, chunk, j as int),
                0 <= l <= 0x4000_0000_0000_0000_0000_0000_0000_0000i128 + (j as i128) * 250000,
            decreases ctx.dim - j,
        {
            let ghost chunk_pre = chunk;
            proof {
                assert(c_spec[j as int] == agg_c@[j as int] as int);
                assert(ctx.coord[j as int] == points@[i as int].coord@[j as int] as int);
            }
            if agg_c[j] == points[i].coord[j] {
                let jg = jiggle();
                proof {
                    chunk = chunk.push(jg as int);
                    assert((jg as int) * (jg as int) <= 250000) by (nonlinear_arith)
                        requires
                            -500 <= jg as int <= 500,
                    ;
                    assert((jg as int) * (jg as int) >= 0) by (nonlinear_arith);
                }
                l = l + (jg as i128) * (jg as i128);
            } else {
                proof {
                    chunk = chunk.push(0int);
                }
            }
            if l < dmin2 {
                let r = isqrt(l as u128);
                proof {
                    crate::fixed::lemma_isqrt_unique(l as int, r as int);
                    assert((r as int) < dmin as int) by (nonlinear_arith)
                        requires
                            (r as int) * (r as int) <= l as int,
                            (l as int) < (dmin as int) * (dmin as int),
                            r as int >= 0,
                            dmin as int >= 0,
                    ;
                    assert((dmin as int) * (r as int) < (dmin as int) * (dmin as int))
                        by (nonlinear_arith)
                        requires
                            0 <= (r as int) < (dmin as int),
                    ;
                    assert((dmin as int) * (r as int) >= 0) by (nonlinear_arith)
                        requires
                            r as int >= 0,
                            dmin as int >= 0,
                    ;
                    assert((dmin as int) * (dmin as int)
                        <= 0x4000_0000_0000_0000_0000_0000_0000_0000) by (nonlinear_arith)
                        requires
                            0 <= dmin as int <= 0x8000_0000_0000_0000,
                    ;
                }
                l = (dmin as i128) * (r as i128);
            }
            proof {
                assert(adjust_l(l0 as int, c_spec, ctx.coord, dmin as int, chunk, j as int)
                    == adjust_l(
                    l0 as int,
                    c_spec,
                    ctx.coord,
                    dmin as int,
                    chunk_pre,
                    j as int,
                )) by {
                    lemma_adjust_frame(
                        l0 as int,
                        c_spec,
                        ctx.coord,
                        dmin as int,
                        chunk_pre,
                        chunk,
                        j as int,
                    );
                }
            }
            j = j + 1;
        }
        (l, Ghost(chunk))
    }

    /// Add one impulse toward the aggregate to record `i`'s velocity.
    #[verifier::loop_isolation(false)]
    fn impulse_exec<D>(
        agg_c: &Vec<i64>,
        points: &mut Vec<PointData<D>>,
        i: usize,
        kk: i64,
        Ghost(ctx): Ghost<ApplyCtx>,
    )
        requires
            (i as int) < old(points)@.len(),
            agg_c@.len() == ctx.dim,
            old(points)@[i as int].coord@.len() == ctx.dim,
            old(points)@[i as int].velocity@.len() == ctx.dim,
            ctx.coord == coord_view(old(points)@[i as int].coord@),
        ensures
            final(points)@.len() == old(points)@.len(),
            forall|m: int|
                0 <= m < final(points)@.len() && m != i as int ==> final(points)@[m] == old(
                    points,
                )@[m],
            final(points)@[i as int].coord == old(points)@[i as int].coord,
            final(points)@[i as int].index == old(points)@[i as int].index,
            final(points)@[i as int].data == old(points)@[i as int].data,
            final(points)@[i as int].strength == old(points)@[i as int].strength,
            final(points)@[i as int].radius == old(points)@[i as int].radius,
            final(points)@[i as int].fixed_position == old(points)@[i as int].fixed_position,
            final(points)@[i as int].velocity@.len() == old(points)@[i as int].velocity@.len(),
            coord_view(final(points)@[i as int].velocity@) == impulse_vel(
                coord_view(old(points)@[i as int].velocity@),
                coord_view(agg_c@),
                ctx.coord,
                kk as int,
            ),
    {
        let ghost v0 = coord_view(points@[i as int].velocity@);
        let mut nv: Vec<i64> = Vec::new();
        let mut j: usize = 0;
        let dimx = agg_c.len();
        while j < dimx
            invariant
                0 <= j <= dimx,
                dimx as int == ctx.dim,
                points@ == old(points)@,
                nv@.len() == j,
                forall|jj: int|
                    0 <= jj < j ==> (#[trigger] nv@[jj]) as int == spec_sat_add(
                        v0[jj],
                        spec_fp_mul(sat64(coord_view(agg_c@)[jj] - ctx.coord[jj]), kk as int),
                    ),
            decreases dimx - j,
        {
            proof {
                assert(coord_view(agg_c@)[j as int] == agg_c@[j as int] as int);
                assert(ctx.coord[j as int] == points@[i as int].coord@[j as int] as int);
                assert(v0[j as int] == points@[i as int].velocity@[j as int] as int);
            }
            nv.push(fp_add(points[i].velocity[j], fp_mul(fp_sub(agg_c[j], points[i].coord[j]), kk)));
            j = j + 1;
        }
        points[i].velocity = nv;
        proof {
            assert(coord_view(points@[i as int].velocity@) =~= impulse_vel(
                v0,
                coord_view(agg_c@),
                ctx.coord,
                kk as int,
            ));
        }
    }
}

impl Default for NBodyForce {
    /// No minimum distance, no maximum, theta 0.9, strength -30.
    fn default() -> (r: Self)
        ensures
            r.distance_min == 0i64,
            r.distance_max == i64::MAX,
            r.theta as int == 9 * SCALE / 10,
            r.default_strength as int == -30 * SCALE,
            r.strength_overrides is None,
            r.strengths@.len() == 0,
    {
        NBodyForce {
            distance_min: 0,
            distance_max: i64::MAX,
            theta: 900_000_000,
            default_strength: -30_000_000_000,
            strength_overrides: None,
            strengths: Vec::new(),
        }
    }
}

impl NBodyForce {
    /// The kernel fits `n` records: one strength per record and sensible
    /// parameters.
    pub open spec fn wf(self, dim: int, n: int) -> bool {
        &&& self.strengths@.len() == n
        &&& self.theta >= 1
        &&& self.distance_min >= 0
        &&& self.distance_max >= 0
        &&& n < 0x1_0000_0000
    }

    pub fn new(distance_min: i64, distance_max: i64, theta: i64, default_strength: i64) -> (r:
        NBodyForce)
        ensures
            r.distance_min == distance_min,
            r.distance_max == distance_max,
            r.theta == theta,
            r.default_strength == default_strength,
            r.strength_overrides is None,
            r.strengths@.len() == 0,
    {
        NBodyForce {
            distance_min,
            distance_max,
            theta,
            default_strength,
            strength_overrides: None,
            strengths: Vec::new(),
        }
    }

    /// Replace the per-record strengths; the table is used as far as it
    /// reaches, the default beyond.
    pub fn set_strengths(&mut self, strengths: Vec<i64>)
        ensures
            final(self).strength_overrides == Some(strengths),
            final(self).distance_min == old(self).distance_min,
            final(self).distance_max == old(self).distance_max,
            final(self).theta == old(self).theta,
            final(self).default_strength == old(self).default_strength,
            final(self).strengths == old(self).strengths,
    {
        self.strength_overrides = Some(strengths);
    }

    /// The strength record `i` gets at bind time.
    pub open spec fn spec_strength(self, i: int) -> i64 {
        match self.strength_overrides {
            Some(o) => if i < o@.len() {
                o@[i]
            } else {
                self.default_strength
            },
            None => self.default_strength,
        }
    }

    /// Bind the kernel to the records: fill one strength per record, from
    /// the override table where it reaches and the default elsewhere.
    #[verifier::loop_isolation(false)]
    pub fn init<D>(&mut self, points: &Vec<PointData<D>>)
        ensures
            final(self).strengths@.len() == points@.len(),
            forall|i: int|
                0 <= i < points@.len() ==> (#[trigger] final(self).strengths@[i]) == old(
                    self,
                ).spec_strength(i),
            final(self).distance_min == old(self).distance_min,
            final(self).distance_max == old(self).distance_max,
            final(self).theta == old(self).theta,
            final(self).default_strength == old(self).default_strength,
            final(self).strength_overrides == old(self).strength_overrides,
    {
        let n = points.len();
        let mut strengths: Vec<i64> = Vec::new();
        let mut i: usize = 0;
        while i < n
            invariant
                strengths@.len() == i <= n,
                forall|q: int| 0 <= q < i ==> (#[trigger] strengths@[q]) == self.spec_strength(q),
                self == old(self),
            decreases n - i,
        {
            let s = match &self.strength_overrides {
                Some(o) => {
                    if i < o.len() {
                        o[i]
                    } else {
                        self.default_strength
                    }
                },
                None => self.default_strength,
            };
            strengths.push(s);
            i = i + 1;
        }
        self.strengths = strengths;
    }

    /// What one n-body pass did: the tree `root` holds exactly the old
    /// records' snapshot entries and carries its aggregates, and every
    /// record's new velocity is its Barnes-Hut traversal of that tree.
    pub open spec fn pass_ok<D>(
        self,
        root: Node<ForceData>,
        pts0: Seq<PointRec<D>>,
        pts1: Seq<PointRec<D>>,
        alpha: int,
        jigs: Seq<Seq<Seq<int>>>,
        dim: int,
    ) -> bool {
        &&& root.wf(dim, vstd::arithmetic::power2::pow2(dim as nat) - 1, 1)
        &&& root.pts() == snap_pts(pts0)
        &&& aggs_ok(root, self.strengths@, dim)
        &&& jigs.len() == pts0.len()
        &&& (forall|i: int| 0 <= i < jigs.len() ==> jiggle_chunks_ok(#[trigger] jigs[i], dim))
        &&& pts1.len() == pts0.len()
        &&& forall|i: int|
            0 <= i < pts0.len() ==> (#[trigger] pts1[i].velocity, jigs[i].len() as int)
                == apply_node(
                root,
                ApplyCtx {
                    coord: pts0[i].coord,
                    idx: i,
                    alpha,
                    strengths: self.strengths@,
                    theta: self.theta as int,
                    dmin: self.distance_min as int,
                    dmax: self.distance_max as int,
                    dim,
                },
                pts0[i].velocity,
                jigs[i],
                0,
            )
    }

    /// One n-body pass: build a tree over the records, accumulate its
    /// aggregates, and run every record's Barnes-Hut traversal.  Only
    /// velocities change; the tree and the drawn jiggles are reported by
    /// the pass predicate.
    #[verifier::loop_isolation(false)]
    pub fn force<D>(&self, points: &mut Vec<PointData<D>>, alpha: i64, Ghost(dim): Ghost<int>) -> (jigs: Ghost<
        Seq<Seq<Seq<int>>>,
    >)
        requires
            self.wf(dim, old(points)@.len() as int),
            1 <= dim <= MAX_DIM,
            forall|i: int|
                0 <= i < old(points)@.len() ==> (#[trigger] old(points)@[i]).wf(
                    dim,
                    old(points)@.len() as int,
                ),
            forall|i: int|
                0 <= i < old(points)@.len() ==> (#[trigger] old(points)@[i]).index == i,
        ensures
            final(points)@.len() == old(points)@.len(),
            forall|i: int|
                0 <= i < final(points)@.len() ==> {
                    &&& (#[trigger] final(points)@[i]).index == old(points)@[i].index
                    &&& final(points)@[i].data == old(points)@[i].data
                    &&& final(points)@[i].coord == old(points)@[i].coord
                    &&& final(points)@[i].strength == old(points)@[i].strength
                    &&& final(points)@[i].radius == old(points)@[i].radius
                    &&& final(points)@[i].fixed_position == old(points)@[i].fixed_position
                    &&& final(points)@[i].wf(dim, final(points)@.len() as int)
                },
            old(points)@.len() == 0 ==> final(points)@ == old(points)@,
            old(points)@.len() > 0 ==> exists|root: Node<ForceData>|
                self.pass_ok(
                    root,
                    views(old(points)@),
                    views(final(points)@),
                    alpha as int,
                    jigs@,
                    dim,
                ),
    {
        let n = points.len();
        if n == 0 {
            return Ghost(Seq::empty());
        }
        let ghost pts0 = points@;
        // snapshot the records as tree nodes
        let mut nodes: Vec<Node<ForceData>> = Vec::new();
        let mut m: usize = 0;
        while m < n
            invariant
                0 <= m <= n,
                points@ == pts0,
                n == pts0.len(),
                nodes@.len() == m,
                forall|q: int|
                    0 <= q < m ==> {
                        &&& (#[trigger] nodes@[q]) is Point
                        &&& nodes@[q]->Point_coord@ == pts0[q].coord@
                        &&& nodes@[q].entry() == snap_entry(pts0[q]@)
                    },
            decreases n - m,
        {
            let coord = crate::data::copy_vec_i64(&points[m].coord);
            let payload = PointForceData::from_point_data(&points[m]);
            nodes.push(Node::new_point(coord, payload));
            m = m + 1;
        }
        proof {
            lemma_pts_of_point_entries(nodes@);
            assert(nodes@.map_values(|nd: Node<ForceData>| nd.entry()) =~= Seq::new(
                views(pts0).len(),
                |q: int| snap_entry(views(pts0)[q]),
            ));
            assert(Node::<ForceData>::pts_of(nodes@) == snap_pts(views(pts0)));
        }
        let dimx = points[0].coord.len();
        proof {
            assert(pts0[0].wf(dim, n as int));
            vstd::arithmetic::power2::lemma2_to64();
            vstd::arithmetic::power2::lemma_pow2_strictly_increases(0, dim as nat);
            if dim < 8 {
                vstd::arithmetic::power2::lemma_pow2_strictly_increases(dim as nat, 8);
            }
        }
        let cap = (crate::two_power(dimx) - 1) as u32;
        let tree = GenericTree::<ForceData>::from_nodes(nodes, 1, cap);
        let root0 = tree.root;
        proof {
            assert forall|e: (Seq<int>, PointForceData)| root0.pts().count(e) > 0 implies 0 <= (
            #[trigger] e.1).index < self.strengths@.len() by {
                assert(snap_pts(views(pts0)).count(e) > 0);
                let entries = Seq::new(views(pts0).len(), |q: int| snap_entry(views(pts0)[q]));
                entries.to_multiset_ensures();
                assert(entries.contains(e));
                let q = choose|q: int| 0 <= q < entries.len() && entries[q] == e;
                assert(pts0[q].wf(dim, n as int));
            }
        }
        let root = Self::accumulate(root0, &self.strengths, Ghost(dim), Ghost(cap as int), Ghost(1));
        // every record's traversal
        let ghost mut jigs_all: Seq<Seq<Seq<int>>> = Seq::empty();
        let mut i: usize = 0;
        while i < n
            invariant
                0 <= i <= n,
                points@.len() == n,
                n == pts0.len(),
                jigs_all.len() == i,
                forall|q: int| 0 <= q < i ==> jiggle_chunks_ok(#[trigger] jigs_all[q], dim),
                root.wf(dim, cap as int, 1),
                aggs_ok(root, self.strengths@, dim),
                Self::pts_indices_ok(root.pts(), self.strengths@.len() as int),
                forall|q: int| i <= q < n ==> points@[q] == pts0[q],
                forall|q: int|
                    0 <= q < i ==> {
                        &&& (#[trigger] points@[q]).index == pts0[q].index
                        &&& points@[q].data == pts0[q].data
                        &&& points@[q].coord == pts0[q].coord
                        &&& points@[q].strength == pts0[q].strength
                        &&& points@[q].radius == pts0[q].radius
                        &&& points@[q].fixed_position == pts0[q].fixed_position
                        &&& points@[q].velocity@.len() == dim
                        &&& (coord_view(points@[q].velocity@), jigs_all[q].len() as int)
                            == apply_node(
                            root,
                            ApplyCtx {
                                coord: pts0[q]@.coord,
                                idx: q,
                                alpha: alpha as int,
                                strengths: self.strengths@,
                                theta: self.theta as int,
                                dmin: self.distance_min as int,
                                dmax: self.distance_max as int,
                                dim,
                            },
                            pts0[q]@.velocity,
                            jigs_all[q],
                            0,
                        )
                    },
            decreases n - i,
        {
            let ghost ctx = ApplyCtx {
                coord: coord_view(points@[i as int].coord@),
                idx: i as int,
                alpha: alpha as int,
                strengths: self.strengths@,
                theta: self.theta as int,
                dmin: self.distance_min as int,
                dmax: self.distance_max as int,
                dim,
            };
            proof {
                assert(pts0[i as int].wf(dim, n as int));
            }
            let jlist = Self::apply_rec(
                &root,
                points,
                i,
                alpha,
                &self.strengths,
                self.theta,
                self.distance_min,
                self.distance_max,
                Ghost(ctx),
                Ghost(cap as int),
                Ghost(1),
                Ghost(Seq::empty()),
            );
            proof {
                jigs_all = jigs_all.push(jlist@);
            }
            i = i + 1;
        }
        proof {
            assert forall|q: int| 0 <= q < n implies (#[trigger] points@[q]).wf(
                dim,
                n as int,
            ) by {
                assert(pts0[q].wf(dim, n as int));
            }
            assert(self.pass_ok(
                root,
                views(pts0),
                views(points@),
                alpha as int,
                jigs_all,
                dim,
            )) by {
                assert(views(pts0).len() == n);
                assert(views(points@).len() == n);
                assert forall|q: int| 0 <= q < n implies (
                #[trigger] views(points@)[q].velocity, jigs_all[q].len() as int) == apply_node(
                    root,
                    ApplyCtx {
                        coord: views(pts0)[q].coord,
                        idx: q,
                        alpha: alpha as int,
                        strengths: self.strengths@,
                        theta: self.theta as int,
                        dmin: self.distance_min as int,
                        dmax: self.distance_max as int,
                        dim,
                    },
                    views(pts0)[q].velocity,
                    jigs_all[q],
                    0,
                ) by {
                    assert(views(points@)[q].velocity == coord_view(points@[q].velocity@));
                    assert(views(pts0)[q] == pts0[q]@);
                }
            }
        }
        Ghost(jigs_all)
    }
}

/// The adjustment reads only the first `n` jiggles of its chunk.
pub proof fn lemma_adjust_frame(
    l0: int,
    c: Seq<int>,
    p: Seq<int>,
    dmin: int,
    j1: Seq<int>,
    j2: Seq<int>,
    n: int,
)
    requires
        forall|i: int| 0 <= i < n ==> j1[i] == j2[i],
    ensures
        adjust_l(l0, c, p, dmin, j1, n) == adjust_l(l0, c, p, dmin, j2, n),
    decreases n,
{
    if n > 0 {
        lemma_adjust_frame(l0, c, p, dmin, j1, j2, n - 1);
    }
}

/// Children that each carry their aggregates satisfy the folded check.
pub proof fn lemma_aggs_ok_children_from_all(
    children: Seq<Node<ForceData>>,
    strengths: Seq<i64>,
    dim: int,
)
    requires
        forall|i: int| 0 <= i < children.len() ==> aggs_ok(#[trigger] children[i], strengths, dim),
    ensures
        aggs_ok_children(children, strengths, dim, children.len() as int),
{
    lemma_aggs_ok_children_upto(children, strengths, dim, children.len() as int);
}

pub proof fn lemma_aggs_ok_children_upto(
    children: Seq<Node<ForceData>>,
    strengths: Seq<i64>,
    dim: int,
    k: int,
)
    requires
        k <= children.len(),
        forall|i: int| 0 <= i < children.len() ==> aggs_ok(#[trigger] children[i], strengths, dim),
    ensures
        aggs_ok_children(children, strengths, dim, k),
    decreases k,
{
    if k > 0 {
        lemma_aggs_ok_children_upto(children, strengths, dim, k - 1);
    }
}

/// A folded aggregate check gives each child's.
pub proof fn lemma_aggs_ok_children_index(
    children: Seq<Node<ForceData>>,
    strengths: Seq<i64>,
    dim: int,
    n: int,
    k: int,
)
    requires
        aggs_ok_children(children, strengths, dim, n),
        0 <= k < n <= children.len(),
    ensures
        aggs_ok(children[k], strengths, dim),
    decreases n,
{
    if k < n - 1 {
        lemma_aggs_ok_children_index(children, strengths, dim, n - 1, k);
    }
}

/// Two child sequences with equal aggregates fold to the same totals.
pub proof fn lemma_agg_fold_congruence(
    c1: Seq<Node<ForceData>>,
    c2: Seq<Node<ForceData>>,
    strengths: Seq<i64>,
    dim: int,
    k: int,
)
    requires
        c1.len() == c2.len(),
        k <= c1.len(),
        forall|i: int|
            0 <= i < c1.len() ==> agg(#[trigger] c1[i], strengths, dim) == agg(
                c2[i],
                strengths,
                dim,
            ),
    ensures
        agg_fold(c1, strengths, dim, k) == agg_fold(c2, strengths, dim, k),
    decreases k,
{
    if k > 0 {
        lemma_agg_fold_congruence(c1, c2, strengths, dim, k - 1);
        assert(agg_fold(c1, strengths, dim, k).2 =~= agg_fold(c2, strengths, dim, k).2);
    }
}

impl<D: crate::tree_data::TreeData> Node<D> {
    /// Every point of child `k` is a point of the whole region.
    pub proof fn lemma_pts_of_contains_all(
        children: Seq<Node<D>>,
        k: int,
        parent: Node<D>,
    )
        requires
            0 <= k < children.len(),
            parent is Region,
            parent->Region_children@ == children,
        ensures
            forall|e: (Seq<int>, D::PointData)|
                (#[trigger] children[k].pts().count(e)) > 0 ==> parent.pts().count(e) > 0,
    {
        assert forall|e: (Seq<int>, D::PointData)|
            (#[trigger] children[k].pts().count(e)) > 0 implies parent.pts().count(e) > 0 by {
            Node::<D>::lemma_pts_of_contains(children, k, e);
        }
    }
}

} // verus!
