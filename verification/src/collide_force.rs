//! The collision force: radius-based overlap resolution.  Each pass
//! builds a spatial tree over the points, accumulates each region's
//! largest radius, and then, for every record, visits the tree pruning
//! regions that cannot overlap the record's next position; each
//! overlapping pair of records receives equal-and-opposite corrections,
//! split by their squared radii.

use vstd::prelude::*;
use vstd::multiset::Multiset;
use crate::bound::{Bound, coord_view};
use crate::data::{PointData, PointRec, ForceData, PointForceData, RegionForceData, views};
use crate::fixed::{
    SCALE, COORD_LIMIT, MAX_DIM, sat64, spec_sat_add, spec_fp_mul, spec_fp_div, spec_isqrt,
    spec_clamp_coord, trunc_div, fp_mul, fp_div, fp_sub, fp_add, clamp_coord, div_trunc_sat, };
use crate::force_utils::{jiggle, JIGGLE_MAX, jiggle_chunks_ok};
use crate::node::Node;
use crate::nbody_force::{snap_entry, snap_pts, lemma_pts_of_point_entries};
use crate::tree::GenericTree;

verus! {

broadcast use vstd::std_specs::vec::group_vec_axioms, vstd::seq::group_seq_axioms, vstd::multiset::group_multiset_axioms;

/// Largest magnitude a collision radius may have; keeps the squared-radius
/// ratios representable.
pub const RADIUS_LIMIT: i64 = 0x2000_0000_0000;

/// The collision force: one radius per record, a correction strength, and
/// a number of passes per tick.
pub struct CollideForce {
    pub radius: Vec<i64>,
    pub strength: i64,
    pub iterations: usize,
}

/// The largest radius in a subtree: a point's own radius, the maximum
/// over a region's children, zero for an empty region.
pub open spec fn rad_agg(node: Node<ForceData>, radii: Seq<i64>) -> int
    decreases node, 0int, 0int,
{
    match node {
        Node::Point { data, .. } => radii[data.index as int] as int,
        Node::Region { children, .. } => rad_fold(children@, radii, children@.len() as int),
    }
}

pub open spec fn rad_fold(children: Seq<Node<ForceData>>, radii: Seq<i64>, k: int) -> int
    decreases children, 1int, k,
{
    if k <= 0 || k > children.len() {
        0
    } else {
        let prev = rad_fold(children, radii, k - 1);
        let c = rad_agg(children[k - 1], radii);
        if c > prev {
            c
        } else {
            prev
        }
    }
}

/// Every region of the subtree stores its largest radius.
pub open spec fn rads_ok(node: Node<ForceData>, radii: Seq<i64>) -> bool
    decreases node, 0int, 0int,
{
    node is Region ==> {
        &&& (node->Region_data matches Some(rd) && rd.radius == Some(
            sat64(rad_agg(node, radii)) as i64,
        ))
        &&& rads_ok_children(node->Region_children@, radii, node->Region_children@.len() as int)
    }
}

pub open spec fn rads_ok_children(children: Seq<Node<ForceData>>, radii: Seq<i64>, k: int) -> bool
    decreases children, 1int, k,
{
    if k <= 0 || k > children.len() {
        true
    } else {
        rads_ok_children(children, radii, k - 1) && rads_ok(children[k - 1], radii)
    }
}

pub proof fn lemma_rads_ok_children_index(
    children: Seq<Node<ForceData>>,
    radii: Seq<i64>,
    n: int,
    k: int,
)
    requires
        rads_ok_children(children, radii, n),
        0 <= k < n <= children.len(),
    ensures
        rads_ok(children[k], radii),
    decreases n,
{
    if k < n - 1 {
        lemma_rads_ok_children_index(children, radii, n - 1, k);
    }
}

/// The collision traversal's fixed context for one record: its index, the
/// radius table, the correction strength, and the dimension.
pub ghost struct CollideCtx {
    pub idx: int,
    pub radii: Seq<i64>,
    pub strength: int,
    pub dim: int,
}

/// The next position of record `m` on axis `j`: position plus velocity.
pub open spec fn next_pos<D>(pts: Seq<PointRec<D>>, m: int, j: int) -> int {
    spec_sat_add(pts[m].coord[j], pts[m].velocity[j])
}

/// The offset of record `i`'s next position from record `q`'s on axis
/// `j`, clamped into the coordinate cube, replaced by a jiggle when zero.
pub open spec fn spec_cp<D>(pts: Seq<PointRec<D>>, i: int, q: int, jig: Seq<int>, j: int) -> int {
    let raw = spec_clamp_coord(sat64(next_pos(pts, i, j) - next_pos(pts, q, j)));
    if raw == 0 {
        jig[j]
    } else {
        raw
    }
}

/// Squared length of the raw offset over the first `n` axes.
pub open spec fn cp_raw_l2<D>(pts: Seq<PointRec<D>>, i: int, q: int, n: int) -> int
    decreases n,
{
    if n <= 0 {
        0
    } else {
        let r = spec_clamp_coord(sat64(next_pos(pts, i, n - 1) - next_pos(pts, q, n - 1)));
        cp_raw_l2(pts, i, q, n - 1) + r * r
    }
}

/// Squared length of the jiggled offset over the first `n` axes.
pub open spec fn cp_l2<D>(pts: Seq<PointRec<D>>, i: int, q: int, jig: Seq<int>, n: int) -> int
    decreases n,
{
    if n <= 0 {
        0
    } else {
        cp_l2(pts, i, q, jig, n - 1) + spec_cp(pts, i, q, jig, n - 1) * spec_cp(
            pts,
            i,
            q,
            jig,
            n - 1,
        )
    }
}

/// The share of a correction carried by record `i` against `q`:
/// `rq^2 / (ri^2 + rq^2)` in fixed point.
pub open spec fn spec_ratio(ri: int, rq: int) -> int
    recommends
        ri * ri + rq * rq > 0,
{
    sat64(trunc_div(rq * rq * SCALE as int, ri * ri + rq * rq))
}

/// One overlapping pair resolved: record `i` moves along the jiggled
/// offset by its share, record `q` opposite by the rest.  Pairs that are
/// exactly coincident even after jiggling, or whose radii are both zero,
/// are left alone.
pub open spec fn collide_pair<D>(
    pts: Seq<PointRec<D>>,
    ctx: CollideCtx,
    q: int,
    jig: Seq<int>,
) -> Seq<PointRec<D>> {
    let i = ctx.idx;
    let ri = ctx.radii[i] as int;
    let rq = ctx.radii[q] as int;
    let r = sat64(ri + rq);
    let l = sat64(spec_isqrt(cp_l2(pts, i, q, jig, ctx.dim)));
    if l == 0 || ri * ri + rq * rq == 0 {
        pts
    } else {
        let lscale = spec_fp_mul(spec_fp_div(sat64(r - l), l), ctx.strength);
        let ratio = spec_ratio(ri, rq);
        let vi = Seq::new(
            pts[i].velocity.len(),
            |j: int|
                spec_sat_add(
                    pts[i].velocity[j],
                    spec_fp_mul(spec_fp_mul(spec_cp(pts, i, q, jig, j), lscale), ratio),
                ),
        );
        let vq = Seq::new(
            pts[q].velocity.len(),
            |j: int|
                sat64(
                    pts[q].velocity[j] - spec_fp_mul(
                        spec_fp_mul(spec_cp(pts, i, q, jig, j), lscale),
                        sat64(SCALE - ratio),
                    ),
                ),
        );
        pts.update(i, PointRec { velocity: vi, ..pts[i] }).update(
            q,
            PointRec { velocity: vq, ..pts[q] },
        )
    }
}

/// Whether a region's box, expanded by `r`, misses the next position of
/// record `i` on some axis.
pub open spec fn separated<D>(
    pts: Seq<PointRec<D>>,
    i: int,
    bounds: Seq<Bound>,
    r: int,
    dim: int,
) -> bool {
    exists|j: int|
        0 <= j < dim && ((#[trigger] bounds[j]).min > next_pos(pts, i, j) + r || bounds[j].max
            < next_pos(pts, i, j) - r)
}

/// One collision visit for record `i`: prune regions that cannot overlap,
/// resolve each higher-indexed point within radius reach.
pub open spec fn collide_visit<D>(
    node: Node<ForceData>,
    ctx: CollideCtx,
    pts: Seq<PointRec<D>>,
    jigs: Seq<Seq<int>>,
    jpos: int,
) -> (Seq<PointRec<D>>, int)
    decreases node, 0int, 0int,
{
    match node {
        Node::Point { data, .. } => {
            let q = data.index as int;
            if q > ctx.idx {
                let raw = cp_raw_l2(pts, ctx.idx, q, ctx.dim);
                let r = sat64(ctx.radii[ctx.idx] as int + ctx.radii[q] as int);
                if raw < r * r {
                    (collide_pair(pts, ctx, q, jigs[jpos]), jpos + 1)
                } else {
                    (pts, jpos)
                }
            } else {
                (pts, jpos)
            }
        },
        Node::Region { bounds, children, data } => {
            if children@.len() == 0 {
                (pts, jpos)
            } else {
                let rmax = match data {
                    Some(rd) => match rd.radius {
                        Some(rm) => rm as int,
                        None => 0,
                    },
                    None => 0,
                };
                let r = sat64(ctx.radii[ctx.idx] as int + rmax);
                if separated(pts, ctx.idx, bounds@, r, ctx.dim) {
                    (pts, jpos)
                } else {
                    collide_children(children@, ctx, pts, jigs, jpos, children@.len() as int)
                }
            }
        },
    }
}

pub open spec fn collide_children<D>(
    children: Seq<Node<ForceData>>,
    ctx: CollideCtx,
    pts: Seq<PointRec<D>>,
    jigs: Seq<Seq<int>>,
    jpos: int,
    k: int,
) -> (Seq<PointRec<D>>, int)
    decreases children, 1int, k,
{
    if k <= 0 || k > children.len() {
        (pts, jpos)
    } else {
        let prev = collide_children(children, ctx, pts, jigs, jpos, k - 1);
        collide_visit(children[k - 1], ctx, prev.0, jigs, prev.1)
    }
}

impl CollideForce {
    /// One radius per record, all within the radius limit, a strength, a
    /// pass count.
    pub open spec fn wf(self, dim: int, n: int) -> bool {
        &&& self.radius@.len() == n
        &&& forall|m: int|
            0 <= m < n ==> -RADIUS_LIMIT <= #[trigger] self.radius@[m] <= RADIUS_LIMIT
        &&& n < 0x1_0000_0000
    }

    pub fn new(radius: Vec<i64>, strength: i64, iterations: usize) -> (r: CollideForce)
        ensures
            r.radius == radius,
            r.strength == strength,
            r.iterations == iterations,
    {
        CollideForce { radius, strength, iterations }
    }

    /// Store in every region the largest radius below it.  The shape,
    /// boxes and points of the tree are unchanged.
    #[verifier::loop_isolation(false)]
    fn prepare(
        node: Node<ForceData>,
        radii: &Vec<i64>,
        Ghost(dim): Ghost<int>,
        Ghost(cap): Ghost<int>,
        Ghost(md): Ghost<int>,
    ) -> (r: Node<ForceData>)
        requires
            node.wf(dim, cap, md),
            crate::nbody_force::NBodyForce::pts_indices_ok(node.pts(), radii@.len() as int),
            forall|m: int|
                0 <= m < radii@.len() ==> -RADIUS_LIMIT <= #[trigger] radii@[m] <= RADIUS_LIMIT,
        ensures
            r.wf(dim, cap, md),
            r.pts() == node.pts(),
            r is Region <==> node is Region,
            r is Region ==> r->Region_bounds == node->Region_bounds,
            r is Point ==> r == node,
            rads_ok(r, radii@),
            rad_agg(r, radii@) == rad_agg(node, radii@),
            -RADIUS_LIMIT <= rad_agg(r, radii@) <= RADIUS_LIMIT || rad_agg(r, radii@) == 0,
        decreases node,
    {
        match node {
            Node::Point { coord, data } => {
                proof {
                    let n0 = Node::<ForceData>::Point { coord, data };
                    assert(n0.pts() =~= Multiset::empty().insert(n0.entry()));
                    assert(n0.pts().count(n0.entry()) > 0);
                    assert(0 <= (n0.entry().1).index < radii@.len());
                    assert(-RADIUS_LIMIT <= radii@[data.index as int] <= RADIUS_LIMIT);
                }
                Node::Point { coord, data }
            },
            Node::Region { bounds, mut children, data } => {
                let ghost orig_children = children@;
                let ghost self0 = Node::<ForceData>::Region { bounds, children, data };
                let nc = children.len();
                let mut rmax: i64 = 0;
                let mut k: usize = 0;
                while k < nc
                    invariant
                        0 <= k <= nc,
                        nc == children@.len() == orig_children.len(),
                        children@.len() == orig_children.len(),
                        bounds@.len() == dim,
                        forall|i: int| k <= i < nc ==> children@[i] == orig_children[i],
                        forall|i: int|
                            0 <= i < k ==> {
                                &&& (#[trigger] children@[i]).wf(dim, cap, md)
                                &&& children@[i].pts() == orig_children[i].pts()
                                &&& (children@[i] is Region <==> orig_children[i] is Region)
                                &&& (children@[i] is Region ==> children@[i]->Region_bounds
                                    == orig_children[i]->Region_bounds)
                                &&& (children@[i] is Point ==> children@[i] == orig_children[i])
                                &&& rads_ok(children@[i], radii@)
                                &&& rad_agg(children@[i], radii@) == rad_agg(
                                    orig_children[i],
                                    radii@,
                                )
                            },
                        Node::<ForceData>::pts_of(children@) == Node::<ForceData>::pts_of(
                            orig_children,
                        ),
                        rmax as int == rad_fold(orig_children, radii@, k as int),
                        -RADIUS_LIMIT <= rmax <= RADIUS_LIMIT || rmax == 0,
                    decreases nc - k,
                {
                    let ghost pre_children = children@;
                    let child = children.remove(k);
                    proof {
                        assert(self0.wf(dim, cap, md));
                        assert(child.wf(dim, cap, md));
                        Node::<ForceData>::lemma_pts_of_contains_all(orig_children, k as int, self0);
                    }
                    let child = Self::prepare(child, radii, Ghost(dim), Ghost(cap), Ghost(md));
                    let cr: i64 = match &child {
                        Node::Point { data, .. } => {
                            proof {
                                assert(child.pts() =~= Multiset::empty().insert(child.entry()));
                                assert(child.pts().count(child.entry()) > 0);
                                assert(orig_children[k as int].pts().count(child.entry()) > 0);
                                assert(self0.pts().count(child.entry()) > 0);
                                assert(0 <= (child.entry().1).index < radii@.len());
                            }
                            radii[data.index]
                        },
                        Node::Region { data, .. } => {
                            proof {
                                assert(rads_ok(child, radii@));
                            }
                            match data {
                                Some(rd) => {
                                    match &rd.radius {
                                        Some(rm) => *rm,
                                        None => unreached(),
                                    }
                                },
                                None => unreached(),
                            }
                        },
                    };
                    if cr > rmax {
                        rmax = cr;
                    }
                    children.insert(k, child);
                    proof {
                        assert(children@ =~= pre_children.update(k as int, children@[k as int]));
                        Node::<ForceData>::lemma_pts_of_update(
                            pre_children,
                            k as int,
                            children@[k as int],
                        );
                        assert forall|e: (Seq<int>, PointForceData)| #[trigger] Node::<
                            ForceData,
                        >::pts_of(children@).count(e) == Node::<ForceData>::pts_of(
                            pre_children,
                        ).count(e) by {
                            assert(Node::<ForceData>::pts_of(children@).add(
                                pre_children[k as int].pts(),
                            ).count(e) == Node::<ForceData>::pts_of(pre_children).add(
                                children@[k as int].pts(),
                            ).count(e));
                            assert(children@[k as int].pts().count(e) == pre_children[
                                k as int].pts().count(e));
                        }
                        assert(Node::<ForceData>::pts_of(children@) =~= Node::<
                            ForceData,
                        >::pts_of(pre_children));
                    }
                    k = k + 1;
                }
                let r = Node::Region {
                    bounds,
                    children,
                    data: Some(RegionForceData { coord: None, strength: None, radius: Some(rmax) }),
                };
                proof {
                    assert(r.wf(dim, cap, md)) by {
                        assert(self0.wf(dim, cap, md));
                        assert(r.pts() =~= self0.pts());
                        if !self0.spec_is_leaf() {
                            assert(!r.spec_is_leaf());
                        } else {
                            assert(r.spec_is_leaf());
                        }
                    }
                    assert(rad_fold(r->Region_children@, radii@, nc as int) == rad_fold(
                        orig_children,
                        radii@,
                        nc as int,
                    )) by {
                        lemma_rad_fold_congruence(
                            r->Region_children@,
                            orig_children,
                            radii@,
                            nc as int,
                        );
                    }
                    assert(rads_ok_children(
                        r->Region_children@,
                        radii@,
                        r->Region_children@.len() as int,
                    )) by {
                        lemma_rads_ok_children_upto(
                            r->Region_children@,
                            radii@,
                            r->Region_children@.len() as int,
                        );
                    }
                    assert(sat64(rad_agg(r, radii@)) == rad_agg(r, radii@));
                    assert(rads_ok(r, radii@));
                }
                r
            },
        }
    }
}

pub proof fn lemma_rad_fold_congruence(
    c1: Seq<Node<ForceData>>,
    c2: Seq<Node<ForceData>>,
    radii: Seq<i64>,
    k: int,
)
    requires
        c1.len() == c2.len(),
        k <= c1.len(),
        forall|i: int|
            0 <= i < c1.len() ==> rad_agg(#[trigger] c1[i], radii) == rad_agg(c2[i], radii),
    ensures
        rad_fold(c1, radii, k) == rad_fold(c2, radii, k),
    decreases k,
{
    if k > 0 {
        lemma_rad_fold_congruence(c1, c2, radii, k - 1);
    }
}

pub proof fn lemma_rads_ok_children_upto(children: Seq<Node<ForceData>>, radii: Seq<i64>, k: int)
    requires
        k <= children.len(),
        forall|i: int| 0 <= i < children.len() ==> rads_ok(#[trigger] children[i], radii),
    ensures
        rads_ok_children(children, radii, k),
    decreases k,
{
    if k > 0 {
        lemma_rads_ok_children_upto(children, radii, k - 1);
    }
}

/// A visit never rewinds the jiggle supply.
pub proof fn lemma_collide_mono<D>(
    node: Node<ForceData>,
    ctx: CollideCtx,
    pts: Seq<PointRec<D>>,
    jigs: Seq<Seq<int>>,
    jpos: int,
)
    ensures
        collide_visit(node, ctx, pts, jigs, jpos).1 >= jpos,
    decreases node, 0int, 0int,
{
    match node {
        Node::Point { .. } => {},
        Node::Region { children, .. } => {
            if children@.len() != 0 {
                lemma_collide_children_mono(
                    children@,
                    ctx,
                    pts,
                    jigs,
                    jpos,
                    children@.len() as int,
                );
            }
        },
    }
}

pub proof fn lemma_collide_children_mono<D>(
    children: Seq<Node<ForceData>>,
    ctx: CollideCtx,
    pts: Seq<PointRec<D>>,
    jigs: Seq<Seq<int>>,
    jpos: int,
    k: int,
)
    ensures
        collide_children(children, ctx, pts, jigs, jpos, k).1 >= jpos,
    decreases children, 1int, k,
{
    if !(k <= 0 || k > children.len()) {
        lemma_collide_children_mono(children, ctx, pts, jigs, jpos, k - 1);
        let prev = collide_children(children, ctx, pts, jigs, jpos, k - 1);
        lemma_collide_mono(children[k - 1], ctx, prev.0, jigs, prev.1);
    }
}

/// A visit reads the jiggle supply only between its starting and final
/// positions.
pub proof fn lemma_collide_frame<D>(
    node: Node<ForceData>,
    ctx: CollideCtx,
    pts: Seq<PointRec<D>>,
    j1: Seq<Seq<int>>,
    j2: Seq<Seq<int>>,
    jpos: int,
)
    requires
        forall|i: int| jpos <= i < collide_visit(node, ctx, pts, j1, jpos).1 ==> j2[i] == j1[i],
    ensures
        collide_visit(node, ctx, pts, j2, jpos) == collide_visit(node, ctx, pts, j1, jpos),
    decreases node, 0int, 0int,
{
    match node {
        Node::Point { .. } => {},
        Node::Region { bounds, children, data } => {
            if children@.len() != 0 {
                let rmax = match data {
                    Some(rd) => match rd.radius {
                        Some(rm) => rm as int,
                        None => 0,
                    },
                    None => 0,
                };
                let r = sat64(ctx.radii[ctx.idx] as int + rmax);
                if !separated(pts, ctx.idx, bounds@, r, ctx.dim) {
                    lemma_collide_children_frame(
                        children@,
                        ctx,
                        pts,
                        j1,
                        j2,
                        jpos,
                        children@.len() as int,
                    );
                }
            }
        },
    }
}

pub proof fn lemma_collide_children_frame<D>(
    children: Seq<Node<ForceData>>,
    ctx: CollideCtx,
    pts: Seq<PointRec<D>>,
    j1: Seq<Seq<int>>,
    j2: Seq<Seq<int>>,
    jpos: int,
    k: int,
)
    requires
        forall|i: int|
            jpos <= i < collide_children(children, ctx, pts, j1, jpos, k).1 ==> j2[i] == j1[i],
    ensures
        collide_children(children, ctx, pts, j2, jpos, k) == collide_children(
            children,
            ctx,
            pts,
            j1,
            jpos,
            k,
        ),
    decreases children, 1int, k,
{
    if !(k <= 0 || k > children.len()) {
        let prev = collide_children(children, ctx, pts, j1, jpos, k - 1);
        lemma_collide_children_mono(children, ctx, pts, j1, jpos, k - 1);
        lemma_collide_mono(children[k - 1], ctx, prev.0, j1, prev.1);
        lemma_collide_children_frame(children, ctx, pts, j1, j2, jpos, k - 1);
        lemma_collide_frame(children[k - 1], ctx, prev.0, j1, j2, prev.1);
    }
}

/// The records after the visits of records `0 .. i`, in order.
pub open spec fn collide_all<D>(
    root: Node<ForceData>,
    radii: Seq<i64>,
    strength: int,
    dim: int,
    pts: Seq<PointRec<D>>,
    jigs2: Seq<Seq<Seq<int>>>,
    i: int,
) -> Seq<PointRec<D>>
    decreases i,
{
    if i <= 0 {
        pts
    } else {
        let prev = collide_all(root, radii, strength, dim, pts, jigs2, i - 1);
        collide_visit(
            root,
            CollideCtx { idx: i - 1, radii, strength, dim },
            prev,
            jigs2[i - 1],
            0,
        ).0
    }
}

/// The visit chain reads one chunk list per record.
pub proof fn lemma_collide_all_frame<D>(
    root: Node<ForceData>,
    radii: Seq<i64>,
    strength: int,
    dim: int,
    pts: Seq<PointRec<D>>,
    g1: Seq<Seq<Seq<int>>>,
    g2: Seq<Seq<Seq<int>>>,
    i: int,
)
    requires
        forall|q: int| 0 <= q < i ==> g1[q] == g2[q],
    ensures
        collide_all(root, radii, strength, dim, pts, g1, i) == collide_all(
            root,
            radii,
            strength,
            dim,
            pts,
            g2,
            i,
        ),
    decreases i,
{
    if i > 0 {
        lemma_collide_all_frame(root, radii, strength, dim, pts, g1, g2, i - 1);
    }
}

impl CollideForce {
    /// What one collision pass did: the tree holds the old records'
    /// snapshot entries with its largest radii stored, and the new records
    /// are the old ones after every record's pruned visit, in index order.
    pub open spec fn pass_ok<D>(
        self,
        root: Node<ForceData>,
        pts0: Seq<PointRec<D>>,
        pts1: Seq<PointRec<D>>,
        jigs2: Seq<Seq<Seq<int>>>,
        dim: int,
    ) -> bool {
        &&& root.wf(dim, vstd::arithmetic::power2::pow2(dim as nat) - 1, 1)
        &&& root.pts() == snap_pts(pts0)
        &&& rads_ok(root, self.radius@)
        &&& jigs2.len() == pts0.len()
        &&& (forall|i: int| 0 <= i < jigs2.len() ==> jiggle_chunks_ok(#[trigger] jigs2[i], dim))
        &&& pts1 == collide_all(
            root,
            self.radius@,
            self.strength as int,
            dim,
            pts0,
            jigs2,
            pts0.len() as int,
        )
    }

    /// What `iterations` collision passes did, chained.
    pub open spec fn iters_rel<D>(
        self,
        pts0: Seq<PointRec<D>>,
        pts1: Seq<PointRec<D>>,
        dim: int,
        its: int,
    ) -> bool
        decreases its,
    {
        if its <= 0 {
            pts1 == pts0
        } else {
            exists|mid: Seq<PointRec<D>>, root: Node<ForceData>, jigs2: Seq<Seq<Seq<int>>>|
                self.iters_rel(pts0, mid, dim, its - 1) && #[trigger] self.pass_ok(
                    root,
                    mid,
                    pts1,
                    jigs2,
                    dim,
                )
        }
    }

    /// One visit of the tree for record `i`; only velocities of records
    /// with an index at least `i` change.
    #[verifier::loop_isolation(false)]
    fn visit_rec<D>(
        node: &Node<ForceData>,
        points: &mut Vec<PointData<D>>,
        i: usize,
        radius: &Vec<i64>,
        strength: i64,
        Ghost(ctx): Ghost<CollideCtx>,
        Ghost(cap): Ghost<int>,
        Ghost(md): Ghost<int>,
        Ghost(jpre): Ghost<Seq<Seq<int>>>,
    ) -> (jall: Ghost<Seq<Seq<int>>>)
        requires
            node.wf(ctx.dim, cap, md),
            crate::nbody_force::NBodyForce::pts_indices_ok(node.pts(), old(points)@.len() as int),
            (i as int) < old(points)@.len(),
            radius@.len() == old(points)@.len(),
            forall|m: int|
                0 <= m < radius@.len() ==> -RADIUS_LIMIT <= #[trigger] radius@[m] <= RADIUS_LIMIT,
            forall|m: int|
                0 <= m < old(points)@.len() ==> (#[trigger] old(points)@[m]).wf(
                    ctx.dim,
                    old(points)@.len() as int,
                ),
            1 <= ctx.dim <= MAX_DIM,
            ctx.idx == i as int,
            ctx.radii == radius@,
            ctx.strength == strength as int,
        ensures
            final(points)@.len() == old(points)@.len(),
            forall|m: int|
                0 <= m < final(points)@.len() ==> {
                    &&& (#[trigger] final(points)@[m]).index == old(points)@[m].index
                    &&& final(points)@[m].data == old(points)@[m].data
                    &&& final(points)@[m].coord == old(points)@[m].coord
                    &&& final(points)@[m].strength == old(points)@[m].strength
                    &&& final(points)@[m].radius == old(points)@[m].radius
                    &&& final(points)@[m].fixed_position == old(points)@[m].fixed_position
                    &&& final(points)@[m].wf(ctx.dim, final(points)@.len() as int)
                },
            jall@.len() >= jpre.len(),
            forall|q: int| 0 <= q < jpre.len() ==> jall@[q] == jpre[q],
            forall|q: int|
                jpre.len() <= q < jall@.len() ==> (#[trigger] jall@[q]).len() == ctx.dim && (forall|
                    j: int,
                |
                    0 <= j < ctx.dim ==> -JIGGLE_MAX as int <= #[trigger] jall@[q][j]
                        <= JIGGLE_MAX as int),
            (views(final(points)@), jall@.len() as int) == collide_visit(
                *node,
                ctx,
                views(old(points)@),
                jall@,
                jpre.len() as int,
            ),
        decreases *node,
    {
        let ghost pts_in = views(points@);
        let n = points.len();
        match node {
            Node::Point { data, .. } => {
                proof {
                    assert(node.pts() =~= Multiset::empty().insert(node.entry()));
                    assert(node.pts().count(node.entry()) > 0);
                    assert(0 <= (node.entry().1).index < n as int);
                }
                let q = data.index;
                if q > i {
                    proof {
                        assert(points@[i as int].wf(ctx.dim, n as int));
                        assert(points@[q as int].wf(ctx.dim, n as int));
                    }
                    // the raw offset of the two next positions
                    let mut p: Vec<i64> = Vec::new();
                    let mut lraw: i128 = 0;
                    let mut j: usize = 0;
                    let dimx = points[i].coord.len();
                    while j < dimx
                        invariant
                            0 <= j <= dimx,
                            dimx as int == ctx.dim,
                            points@ == old(points)@,
                            q != i,
                            (q as int) < n as int,
                            n as int == points@.len(),
                            p@.len() == j,
                            forall|jj: int|
                                0 <= jj < j ==> (#[trigger] p@[jj]) as int == spec_clamp_coord(
                                    sat64(
                                        next_pos(pts_in, i as int, jj) - next_pos(
                                            pts_in,
                                            q as int,
                                            jj,
                                        ),
                                    ),
                                ) && -COORD_LIMIT <= p@[jj] <= COORD_LIMIT,
                            lraw == cp_raw_l2(pts_in, i as int, q as int, j as int),
                            0 <= lraw <= (j as int) * (COORD_LIMIT as int) * (COORD_LIMIT as int),
                        decreases dimx - j,
                    {
                        proof {
                            assert(pts_in[i as int].coord[j as int] == points@[i as int].coord@[j as int] as int);
                            assert(pts_in[i as int].velocity[j as int] == points@[i as int].velocity@[j as int] as int);
                            assert(pts_in[q as int].coord[j as int] == points@[q as int].coord@[j as int] as int);
                            assert(pts_in[q as int].velocity[j as int] == points@[q as int].velocity@[j as int] as int);
                        }
                        let a = fp_add(points[i].coord[j], points[i].velocity[j]);
                        let b = fp_add(points[q].coord[j], points[q].velocity[j]);
                        let raw = clamp_coord(fp_sub(a, b));
                        let d: i128 = raw as i128;
                        proof {
                            assert(d * d <= (COORD_LIMIT as int) * (COORD_LIMIT as int))
                                by (nonlinear_arith)
                                requires
                                    -(COORD_LIMIT as int) <= d <= (COORD_LIMIT as int),
                            ;
                            assert(d * d >= 0) by (nonlinear_arith);
                        }
                        p.push(raw);
                        lraw = lraw + d * d;
                        j = j + 1;
                    }
                    let r = fp_add(radius[i], radius[q]);
                    proof {
                        crate::fixed::lemma_i64_product_bounds(r as int, r as int);
                    }
                    let r2: i128 = (r as i128) * (r as i128);
                    if lraw < r2 {
                        // jiggle the zero components
                        let ghost mut jig: Seq<int> = Seq::empty();
                        let mut l2 = lraw;
                        let mut j: usize = 0;
                        while j < dimx
                            invariant
                                0 <= j <= dimx,
                                dimx as int == ctx.dim,
                                points@ == old(points)@,
                                q != i,
                                (q as int) < n as int,
                                n as int == points@.len(),
                                p@.len() == dimx,
                                jig.len() == j,
                                forall|jj: int|
                                    0 <= jj < j ==> -JIGGLE_MAX as int <= #[trigger] jig[jj]
                                        <= JIGGLE_MAX as int,
                                forall|jj: int|
                                    0 <= jj < j ==> (#[trigger] p@[jj]) as int == spec_cp(
                                        pts_in,
                                        i as int,
                                        q as int,
                                        jig,
                                        jj,
                                    ),
                                forall|jj: int|
                                    j <= jj < dimx ==> (#[trigger] p@[jj]) as int
                                        == spec_clamp_coord(
                                        sat64(
                                            next_pos(pts_in, i as int, jj) - next_pos(
                                                pts_in,
                                                q as int,
                                                jj,
                                            ),
                                        ),
                                    ) && -COORD_LIMIT <= p@[jj] <= COORD_LIMIT,
                                l2 == cp_l2(pts_in, i as int, q as int, jig, j as int)
                                    + cp_raw_l2(pts_in, i as int, q as int, ctx.dim) - cp_raw_l2(
                                    pts_in,
                                    i as int,
                                    q as int,
                                    j as int,
                                ),
                                0 <= l2 <= (ctx.dim) * (COORD_LIMIT as int) * (COORD_LIMIT as int)
                                    + (j as int) * 250000,
                            decreases dimx - j,
                        {
                            let ghost jig_pre = jig;
                            if p[j] == 0 {
                                let jg = jiggle();
                                proof {
                                    jig = jig.push(jg as int);
                                    assert((jg as int) * (jg as int) <= 250000) by (nonlinear_arith)
                                        requires
                                            -500 <= jg as int <= 500,
                                    ;
                                    assert((jg as int) * (jg as int) >= 0) by (nonlinear_arith);
                                    assert((p@[j as int] as int) * (p@[j as int] as int) == 0);
                                }
                                p[j] = jg;
                                l2 = l2 + (jg as i128) * (jg as i128);
                            } else {
                                proof {
                                    jig = jig.push(0int);
                                }
                            }
                            proof {
                                lemma_cp_l2_frame(
                                    pts_in,
                                    i as int,
                                    q as int,
                                    jig_pre,
                                    jig,
                                    j as int,
                                );
                            }
                            j = j + 1;
                        }
                        proof {
                            assert(l2 == cp_l2(pts_in, i as int, q as int, jig, ctx.dim));
                        }
                        let l = crate::fixed::fp_sqrt(l2);
                        proof {
                            crate::fixed::lemma_i64_product_bounds(
                                radius@[i as int] as int,
                                radius@[i as int] as int,
                            );
                        }
                        proof {
                            crate::fixed::lemma_i64_product_bounds(
                                radius@[q as int] as int,
                                radius@[q as int] as int,
                            );
                            assert(0 <= (radius@[i as int] as int) * (radius@[i as int] as int)
                                <= (RADIUS_LIMIT as int) * (RADIUS_LIMIT as int))
                                by (nonlinear_arith)
                                requires
                                    -(RADIUS_LIMIT as int) <= radius@[i as int] as int <= (
                                    RADIUS_LIMIT as int),
                            ;
                            assert(0 <= (radius@[q as int] as int) * (radius@[q as int] as int)
                                <= (RADIUS_LIMIT as int) * (RADIUS_LIMIT as int))
                                by (nonlinear_arith)
                                requires
                                    -(RADIUS_LIMIT as int) <= radius@[q as int] as int <= (
                                    RADIUS_LIMIT as int),
                            ;
                        }
                        let ri2: i128 = (radius[i] as i128) * (radius[i] as i128);
                        let rq2: i128 = (radius[q] as i128) * (radius[q] as i128);
                        if l != 0 && (ri2 + rq2) != 0 {
                            let lscale = fp_mul(fp_div(fp_sub(r, l), l), strength);
                            let ratio = div_trunc_sat(rq2 * (SCALE as i128), ri2 + rq2);
                            let ratio2 = fp_sub(SCALE, ratio);
                            let mut vi: Vec<i64> = Vec::new();
                            let mut vq: Vec<i64> = Vec::new();
                            let mut j: usize = 0;
                            while j < dimx
                                invariant
                                    0 <= j <= dimx,
                                    dimx as int == ctx.dim,
                                    points@ == old(points)@,
                                    q != i,
                                    (q as int) < n as int,
                                    n as int == points@.len(),
                                    points@[i as int].velocity@.len() == ctx.dim,
                                    points@[q as int].velocity@.len() == ctx.dim,
                                    p@.len() == dimx,
                                    forall|jj: int|
                                        0 <= jj < dimx ==> (#[trigger] p@[jj]) as int == spec_cp(
                                            pts_in,
                                            i as int,
                                            q as int,
                                            jig,
                                            jj,
                                        ),
                                    vi@.len() == j,
                                    vq@.len() == j,
                                    lscale as int == spec_fp_mul(
                                        spec_fp_div(
                                            sat64(
                                                (r as int) - sat64(
                                                    spec_isqrt(
                                                        cp_l2(
                                                            pts_in,
                                                            i as int,
                                                            q as int,
                                                            jig,
                                                            ctx.dim,
                                                        ),
                                                    ),
                                                ),
                                            ),
                                            sat64(
                                                spec_isqrt(
                                                    cp_l2(pts_in, i as int, q as int, jig, ctx.dim),
                                                ),
                                            ),
                                        ),
                                        ctx.strength,
                                    ),
                                    r as int == sat64(
                                        ctx.radii[i as int] as int + ctx.radii[q as int] as int,
                                    ),
                                    ratio as int == spec_ratio(
                                        ctx.radii[i as int] as int,
                                        ctx.radii[q as int] as int,
                                    ),
                                    ratio2 as int == sat64(SCALE - ratio as int),
                                    sat64(
                                        spec_isqrt(cp_l2(pts_in, i as int, q as int, jig, ctx.dim)),
                                    ) != 0,
                                    (ctx.radii[i as int] as int) * (ctx.radii[i as int] as int) + (
                                    ctx.radii[q as int] as int) * (ctx.radii[q as int] as int) != 0,
                                    forall|jj: int|
                                        0 <= jj < j ==> (#[trigger] vi@[jj]) as int == spec_sat_add(
                                            pts_in[i as int].velocity[jj],
                                            spec_fp_mul(
                                                spec_fp_mul(
                                                    spec_cp(pts_in, i as int, q as int, jig, jj),
                                                    lscale as int,
                                                ),
                                                ratio as int,
                                            ),
                                        ),
                                    forall|jj: int|
                                        0 <= jj < j ==> (#[trigger] vq@[jj]) as int == sat64(
                                            pts_in[q as int].velocity[jj] - spec_fp_mul(
                                                spec_fp_mul(
                                                    spec_cp(pts_in, i as int, q as int, jig, jj),
                                                    lscale as int,
                                                ),
                                                sat64(SCALE - ratio as int),
                                            ),
                                        ),
                                decreases dimx - j,
                            {
                                proof {
                                    assert(pts_in[i as int].velocity[j as int] == points@[i as int].velocity@[j as int] as int);
                                    assert(pts_in[q as int].velocity[j as int] == points@[q as int].velocity@[j as int] as int);
                                }
                                let pj = fp_mul(p[j], lscale);
                                vi.push(fp_add(points[i].velocity[j], fp_mul(pj, ratio)));
                                vq.push(fp_sub(points[q].velocity[j], fp_mul(pj, ratio2)));
                                j = j + 1;
                            }
                            points[i].velocity = vi;
                            points[q].velocity = vq;
                            proof {
                                let res = collide_pair(pts_in, ctx, q as int, jig);
                                assert forall|m: int| 0 <= m < n as int implies #[trigger] views(
                                    points@,
                                )[m] == res[m] by {
                                    if m == i as int {
                                        assert(coord_view(points@[m].velocity@)
                                            =~= res[m].velocity);
                                    } else if m == q as int {
                                        assert(coord_view(points@[m].velocity@)
                                            =~= res[m].velocity);
                                    } else {
                                        assert(views(points@)[m] == pts_in[m]);
                                        assert(res[m] == pts_in[m]);
                                    }
                                }
                                assert(views(points@) =~= res);
                            }
                        } else {
                            proof {
                                assert(views(points@) =~= collide_pair(
                                    pts_in,
                                    ctx,
                                    q as int,
                                    jig,
                                ));
                            }
                        }
                        proof {
                            assert forall|m: int| 0 <= m < points@.len() implies (
                            #[trigger] points@[m]).wf(ctx.dim, points@.len() as int) by {
                                assert(old(points)@[m].wf(ctx.dim, points@.len() as int));
                            }
                        }
                        return Ghost(jpre.push(jig));
                    } else {
                        return Ghost(jpre);
                    }
                } else {
                    return Ghost(jpre);
                }
            },
            Node::Region { bounds, children, data } => {
                if children.len() == 0 {
                    return Ghost(jpre);
                }
                let rmax: i64 = match data {
                    Some(rd) => match &rd.radius {
                        Some(rm) => *rm,
                        None => 0,
                    },
                    None => 0,
                };
                let r = fp_add(radius[i], rmax);
                proof {
                    assert(points@[i as int].wf(ctx.dim, n as int));
                }
                // does the expanded box miss the record's next position?
                let mut sep: bool = false;
                let mut j: usize = 0;
                let dimx = points[i].coord.len();
                proof {
                    assert(bounds@.len() == ctx.dim);
                }
                while j < dimx
                    invariant
                        0 <= j <= dimx,
                        dimx as int == ctx.dim,
                        points@ == old(points)@,
                        bounds@.len() == ctx.dim,
                        (i as int) < n as int,
                        n as int == points@.len(),
                        r as int == sat64(ctx.radii[i as int] as int + rmax as int),
                        sep ==> separated(pts_in, i as int, bounds@, r as int, ctx.dim),
                        !sep ==> forall|jj: int|
                            0 <= jj < j ==> !((#[trigger] bounds@[jj]).min > next_pos(
                                pts_in,
                                i as int,
                                jj,
                            ) + r as int || bounds@[jj].max < next_pos(pts_in, i as int, jj)
                                - r as int),
                    decreases dimx - j,
                {
                    proof {
                        assert(pts_in[i as int].coord[j as int] == points@[i as int].coord@[j as int] as int);
                        assert(pts_in[i as int].velocity[j as int] == points@[i as int].velocity@[j as int] as int);
                    }
                    let np = fp_add(points[i].coord[j], points[i].velocity[j]);
                    if (bounds[j].min as i128) > (np as i128) + (r as i128) || (
                    bounds[j].max as i128) < (np as i128) - (r as i128) {
                        proof {
                            assert(separated(pts_in, i as int, bounds@, r as int, ctx.dim)) by {
                                assert(bounds@[j as int].min > next_pos(pts_in, i as int, j as int)
                                    + r as int || bounds@[j as int].max < next_pos(
                                    pts_in,
                                    i as int,
                                    j as int,
                                ) - r as int);
                            }
                        }
                        sep = true;
                    }
                    j = j + 1;
                }
                if sep {
                    return Ghost(jpre);
                }
                proof {
                    assert(!separated(pts_in, i as int, bounds@, r as int, ctx.dim));
                }
                // visit the children in order
                let ghost ch = children@;
                let mut jcur: Ghost<Seq<Seq<int>>> = Ghost(jpre);
                let mut k: usize = 0;
                while k < children.len()
                    invariant
                        0 <= k <= ch.len(),
                        children@ == ch,
                        points@.len() == old(points)@.len(),
                        n as int == points@.len(),
                        forall|m: int|
                            0 <= m < points@.len() ==> {
                                &&& (#[trigger] points@[m]).index == old(points)@[m].index
                                &&& points@[m].data == old(points)@[m].data
                                &&& points@[m].coord == old(points)@[m].coord
                                &&& points@[m].strength == old(points)@[m].strength
                                &&& points@[m].radius == old(points)@[m].radius
                                &&& points@[m].fixed_position == old(points)@[m].fixed_position
                                &&& points@[m].wf(ctx.dim, points@.len() as int)
                            },
                        jcur@.len() >= jpre.len(),
                        forall|q: int| 0 <= q < jpre.len() ==> jcur@[q] == jpre[q],
                        forall|q: int|
                            jpre.len() <= q < jcur@.len() ==> (#[trigger] jcur@[q]).len()
                                == ctx.dim && (forall|j: int|
                                0 <= j < ctx.dim ==> -JIGGLE_MAX as int <= #[trigger] jcur@[q][j]
                                    <= JIGGLE_MAX as int),
                        (views(points@), jcur@.len() as int) == collide_children(
                            ch,
                            ctx,
                            pts_in,
                            jcur@,
                            jpre.len() as int,
                            k as int,
                        ),
                    decreases ch.len() - k,
                {
                    let ghost pre_j = jcur@;
                    let ghost pre_pts = views(points@);
                    let child = &children[k];
                    proof {
                        assert(ch[k as int].wf(ctx.dim, cap, md));
                        assert forall|e: (Seq<int>, PointForceData)| #[trigger] ch[
                            k as int].pts().count(e) > 0 implies 0 <= e.1.index < n as int by {
                            Node::<ForceData>::lemma_pts_of_contains(ch, k as int, e);
                        }
                    }
                    let jnext = Self::visit_rec(
                        child,
                        points,
                        i,
                        radius,
                        strength,
                        Ghost(ctx),
                        Ghost(cap),
                        Ghost(md),
                        Ghost(pre_j),
                    );
                    proof {
                        lemma_collide_children_frame(
                            ch,
                            ctx,
                            pts_in,
                            pre_j,
                            jnext@,
                            jpre.len() as int,
                            k as int,
                        );
                    }
                    jcur = Ghost(jnext@);
                    k = k + 1;
                }
                proof {
                    assert((views(points@), jcur@.len() as int) == collide_visit(
                        *node,
                        ctx,
                        pts_in,
                        jcur@,
                        jpre.len() as int,
                    ));
                }
                return Ghost(jcur@);
            },
        }
    }
}

impl CollideForce {
    /// `iterations` collision passes: each builds a tree over the records,
    /// stores each region's largest radius, and resolves overlapping pairs
    /// record by record.  Only velocities change.
    #[verifier::loop_isolation(false)]
    pub fn force<D>(&self, points: &mut Vec<PointData<D>>, _alpha: i64, Ghost(dim): Ghost<int>)
        requires
            self.wf(dim, old(points)@.len() as int),
            1 <= dim <= MAX_DIM,
            forall|i: int|
                0 <= i < old(points)@.len() ==> (#[trigger] old(points)@[i]).wf(
                    dim,
                    old(points)@.len() as int,
                ),
            forall|i: int|
                0 <= i < old(points)@.len() ==> (#[trigger] old(points)@[i]).index == i,
        ensures
            final(points)@.len() == old(points)@.len(),
            forall|i: int|
                0 <= i < final(points)@.len() ==> {
                    &&& (#[trigger] final(points)@[i]).index == old(points)@[i].index
                    &&& final(points)@[i].data == old(points)@[i].data
                    &&& final(points)@[i].coord == old(points)@[i].coord
                    &&& final(points)@[i].strength == old(points)@[i].strength
                    &&& final(points)@[i].radius == old(points)@[i].radius
                    &&& final(points)@[i].fixed_position == old(points)@[i].fixed_position
                    &&& final(points)@[i].wf(dim, final(points)@.len() as int)
                },
            old(points)@.len() == 0 ==> final(points)@ == old(points)@,
            old(points)@.len() > 0 ==> self.iters_rel(
                views(old(points)@),
                views(final(points)@),
                dim,
                self.iterations as int,
            ),
    {
        let n = points.len();
        if n == 0 {
            return ;
        }
        let ghost pts0 = points@;
        let mut it: usize = 0;
        while it < self.iterations
            invariant
                0 <= it <= self.iterations,
                points@.len() == n,
                n == pts0.len(),
                forall|i: int|
                    0 <= i < n ==> {
                        &&& (#[trigger] points@[i]).index == pts0[i].index
                        &&& points@[i].data == pts0[i].data
                        &&& points@[i].coord == pts0[i].coord
                        &&& points@[i].strength == pts0[i].strength
                        &&& points@[i].radius == pts0[i].radius
                        &&& points@[i].fixed_position == pts0[i].fixed_position
                        &&& points@[i].wf(dim, n as int)
                    },
                self.iters_rel(views(pts0), views(points@), dim, it as int),
            decreases self.iterations - it,
        {
            let ghost mid = views(points@);
            // snapshot the records as tree nodes
            let mut nodes: Vec<Node<ForceData>> = Vec::new();
            let mut m: usize = 0;
            let ghost iter_pts = points@;
            while m < n
                invariant
                    0 <= m <= n,
                    points@ == iter_pts,
                    n == iter_pts.len(),
                    nodes@.len() == m,
                    forall|q: int|
                        0 <= q < m ==> {
                            &&& (#[trigger] nodes@[q]) is Point
                            &&& nodes@[q]->Point_coord@ == iter_pts[q].coord@
                            &&& nodes@[q].entry() == snap_entry(iter_pts[q]@)
                        },
                decreases n - m,
            {
                let coord = crate::data::copy_vec_i64(&points[m].coord);
                let payload = PointForceData::from_point_data(&points[m]);
                nodes.push(Node::new_point(coord, payload));
                m = m + 1;
            }
            proof {
                lemma_pts_of_point_entries(nodes@);
                assert(nodes@.map_values(|nd: Node<ForceData>| nd.entry()) =~= Seq::new(
                    views(iter_pts).len(),
                    |q: int| snap_entry(views(iter_pts)[q]),
                ));
                assert(Node::<ForceData>::pts_of(nodes@) == snap_pts(views(iter_pts)));
                assert(iter_pts[0].wf(dim, n as int));
                vstd::arithmetic::power2::lemma2_to64();
                vstd::arithmetic::power2::lemma_pow2_strictly_increases(0, dim as nat);
                if dim < 8 {
                    vstd::arithmetic::power2::lemma_pow2_strictly_increases(dim as nat, 8);
                }
            }
            let dimx = points[0].coord.len();
            let cap = (crate::two_power(dimx) - 1) as u32;
            let tree = GenericTree::<ForceData>::from_nodes(nodes, 1, cap);
            let root0 = tree.root;
            proof {
                assert forall|e: (Seq<int>, PointForceData)| root0.pts().count(e) > 0 implies 0
                    <= (#[trigger] e.1).index < n as int by {
                    assert(snap_pts(views(iter_pts)).count(e) > 0);
                    let entries = Seq::new(
                        views(iter_pts).len(),
                        |q: int| snap_entry(views(iter_pts)[q]),
                    );
                    entries.to_multiset_ensures();
                    assert(entries.contains(e));
                    let q = choose|q: int| 0 <= q < entries.len() && entries[q] == e;
                    assert(iter_pts[q].wf(dim, n as int));
                }
            }
            let root = Self::prepare(root0, &self.radius, Ghost(dim), Ghost(cap as int), Ghost(1));
            // resolve pairs, record by record
            let ghost mut jigs2: Seq<Seq<Seq<int>>> = Seq::empty();
            let mut i: usize = 0;
            while i < n
                invariant
                    0 <= i <= n,
                    points@.len() == n,
                    n == iter_pts.len(),
                    jigs2.len() == i,
                    forall|q: int| 0 <= q < i ==> jiggle_chunks_ok(#[trigger] jigs2[q], dim),
                    root.wf(dim, cap as int, 1),
                    rads_ok(root, self.radius@),
                    crate::nbody_force::NBodyForce::pts_indices_ok(root.pts(), n as int),
                    self.radius@.len() == n,
                    forall|q: int|
                        0 <= q < n ==> {
                            &&& (#[trigger] points@[q]).index == iter_pts[q].index
                            &&& points@[q].data == iter_pts[q].data
                            &&& points@[q].coord == iter_pts[q].coord
                            &&& points@[q].strength == iter_pts[q].strength
                            &&& points@[q].radius == iter_pts[q].radius
                            &&& points@[q].fixed_position == iter_pts[q].fixed_position
                            &&& points@[q].wf(dim, n as int)
                        },
                    views(points@) == collide_all(
                        root,
                        self.radius@,
                        self.strength as int,
                        dim,
                        views(iter_pts),
                        jigs2,
                        i as int,
                    ),
                decreases n - i,
            {
                let ghost ctx = CollideCtx {
                    idx: i as int,
                    radii: self.radius@,
                    strength: self.strength as int,
                    dim,
                };
                let ghost pre_views = views(points@);
                let jlist = Self::visit_rec(
                    &root,
                    points,
                    i,
                    &self.radius,
                    self.strength,
                    Ghost(ctx),
                    Ghost(cap as int),
                    Ghost(1),
                    Ghost(Seq::empty()),
                );
                proof {
                    let jigs2_old = jigs2;
                    jigs2 = jigs2.push(jlist@);
                    lemma_collide_all_frame(
                        root,
                        self.radius@,
                        self.strength as int,
                        dim,
                        views(iter_pts),
                        jigs2_old,
                        jigs2,
                        i as int,
                    );
                    assert(jigs2[i as int] == jlist@);
                    assert(views(points@) == collide_all(
                        root,
                        self.radius@,
                        self.strength as int,
                        dim,
                        views(iter_pts),
                        jigs2,
                        i as int + 1,
                    ));
                }
                i = i + 1;
            }
            proof {
                assert(self.pass_ok(root, mid, views(points@), jigs2, dim));
                assert(self.iters_rel(views(pts0), views(points@), dim, it as int + 1));
            }
            it = it + 1;
        }
    }
}

/// The jiggled squared length reads only the first `n` jiggles.
pub proof fn lemma_cp_l2_frame<D>(
    pts: Seq<PointRec<D>>,
    i: int,
    q: int,
    j1: Seq<int>,
    j2: Seq<int>,
    n: int,
)
    requires
        forall|m: int| 0 <= m < n ==> j1[m] == j2[m],
    ensures
        cp_l2(pts, i, q, j1, n) == cp_l2(pts, i, q, j2, n),
    decreases n,
{
    if n > 0 {
        lemma_cp_l2_frame(pts, i, q, j1, j2, n - 1);
    }
}

} // verus!
