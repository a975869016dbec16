//! The link force: springs over an edge list.  Each pass moves every
//! linked pair toward its rest distance, splitting the correction between
//! the two endpoints by their degrees.

use vstd::prelude::*;
use crate::data::{PointData, PointRec, LinkData, views};
use crate::fixed::{
    SCALE, COORD_LIMIT, sat64, spec_sat_add, spec_fp_mul, spec_fp_div, spec_isqrt,
    spec_clamp_coord, fp_mul, fp_div, fp_sub, fp_add, fp_sqrt, clamp_coord,
};
use crate::force_utils::{jiggle, JIGGLE_MAX, about_zero, jiggle_chunks_ok};

verus! {

broadcast use vstd::std_specs::vec::group_vec_axioms, vstd::seq::group_seq_axioms;

/// Spring force over `(source, target)` pairs with per-link strength and
/// rest distance.  `count` and `bias` are derived at bind time: the degree
/// of every record, and the share of each correction carried by the link's
/// target.
pub struct LinkForce {
    pub links: Vec<(usize, usize)>,
    pub strengths: Vec<i64>,
    pub distances: Vec<i64>,
    pub iterations: usize,
    pub count: Vec<usize>,
    pub bias: Vec<i64>,
    pub links_data: Vec<LinkData>,
}

/// Degree of record `v` among the first `n` links.
pub open spec fn spec_degree(links: Seq<(usize, usize)>, v: int, n: int) -> int
    decreases n,
{
    if n <= 0 {
        0
    } else {
        spec_degree(links, v, n - 1) + (if links[n - 1].0 == v {
            1int
        } else {
            0int
        }) + (if links[n - 1].1 == v {
            1int
        } else {
            0int
        })
    }
}

/// The jiggled spring vector component `j` of a link from `s` to `t`:
/// the offset of the target's next position from the source's, clamped
/// into the coordinate cube, replaced by the random `jig[j]` when zero.
pub open spec fn spec_p<D>(pts: Seq<PointRec<D>>, s: int, t: int, jig: Seq<int>, j: int) -> int {
    let raw = spec_clamp_coord(
        sat64(sat64(sat64(pts[t].coord[j] + pts[t].velocity[j]) - pts[s].coord[j]) - pts[s].velocity[j]),
    );
    if raw == 0 {
        jig[j]
    } else {
        raw
    }
}

/// Squared length of the spring vector over the first `n` axes.
pub open spec fn spec_p_l2<D>(
    pts: Seq<PointRec<D>>,
    s: int,
    t: int,
    jig: Seq<int>,
    n: int,
) -> int
    decreases n,
{
    if n <= 0 {
        0
    } else {
        spec_p_l2(pts, s, t, jig, n - 1) + spec_p(pts, s, t, jig, n - 1) * spec_p(
            pts,
            s,
            t,
            jig,
            n - 1,
        )
    }
}

/// One link relaxed: both endpoint velocities move the pair toward the
/// rest distance, the correction split by `bias`.  A spring of length
/// zero even after jiggling is left alone.
pub open spec fn link_apply_one<D>(
    pts: Seq<PointRec<D>>,
    s: int,
    t: int,
    strength: int,
    distance: int,
    bias: int,
    alpha: int,
    jig: Seq<int>,
    dim: int,
) -> Seq<PointRec<D>> {
    let l2 = spec_p_l2(pts, s, t, jig, dim);
    let l = sat64(spec_isqrt(l2));
    if l == 0 {
        pts
    } else {
        let scale = spec_fp_mul(spec_fp_mul(spec_fp_div(sat64(l - distance), l), alpha), strength);
        let tv = Seq::new(
            pts[t].velocity.len(),
            |j: int|
                sat64(
                    pts[t].velocity[j] - spec_fp_mul(
                        spec_fp_mul(spec_p(pts, s, t, jig, j), scale),
                        bias,
                    ),
                ),
        );
        let sv = Seq::new(
            pts[s].velocity.len(),
            |j: int|
                spec_sat_add(
                    pts[s].velocity[j],
                    spec_fp_mul(
                        spec_fp_mul(spec_p(pts, s, t, jig, j), scale),
                        sat64(SCALE - bias),
                    ),
                ),
        );
        pts.update(t, PointRec { velocity: tv, ..pts[t] }).update(
            s,
            PointRec { velocity: sv, ..pts[s] },
        )
    }
}

/// The first `k` links of one pass applied in order.
pub open spec fn link_pass_upto<D>(
    pts: Seq<PointRec<D>>,
    links: Seq<LinkData>,
    strengths: Seq<i64>,
    distances: Seq<i64>,
    bias: Seq<i64>,
    alpha: int,
    chunk: Seq<Seq<int>>,
    k: int,
    dim: int,
) -> Seq<PointRec<D>>
    decreases k,
{
    if k <= 0 {
        pts
    } else {
        let prev = link_pass_upto(pts, links, strengths, distances, bias, alpha, chunk, k - 1, dim);
        link_apply_one(
            prev,
            links[k - 1].source as int,
            links[k - 1].target as int,
            strengths[k - 1] as int,
            distances[k - 1] as int,
            bias[k - 1] as int,
            alpha,
            chunk[k - 1],
            dim,
        )
    }
}

/// All passes applied, one jiggle chunk per pass.
pub open spec fn link_iters<D>(
    pts: Seq<PointRec<D>>,
    links: Seq<LinkData>,
    strengths: Seq<i64>,
    distances: Seq<i64>,
    bias: Seq<i64>,
    alpha: int,
    chunks: Seq<Seq<Seq<int>>>,
    dim: int,
) -> Seq<PointRec<D>>
    decreases chunks.len(),
{
    if chunks.len() == 0 {
        pts
    } else {
        let prev = link_iters(
            pts,
            links,
            strengths,
            distances,
            bias,
            alpha,
            chunks.drop_last(),
            dim,
        );
        link_pass_upto(
            prev,
            links,
            strengths,
            distances,
            bias,
            alpha,
            chunks.last(),
            links.len() as int,
            dim,
        )
    }
}

/// A pass prefix reads only the first `k` entries of its jiggle chunk.
pub proof fn lemma_link_pass_frame<D>(
    pts: Seq<PointRec<D>>,
    links: Seq<LinkData>,
    strengths: Seq<i64>,
    distances: Seq<i64>,
    bias: Seq<i64>,
    alpha: int,
    c1: Seq<Seq<int>>,
    c2: Seq<Seq<int>>,
    k: int,
    dim: int,
)
    requires
        forall|i: int| 0 <= i < k ==> c1[i] == c2[i],
    ensures
        link_pass_upto(pts, links, strengths, distances, bias, alpha, c1, k, dim)
            == link_pass_upto(pts, links, strengths, distances, bias, alpha, c2, k, dim),
    decreases k,
{
    if k > 0 {
        lemma_link_pass_frame(pts, links, strengths, distances, bias, alpha, c1, c2, k - 1, dim);
    }
}

impl LinkForce {
    /// Links joined to valid, distinct endpoints, one strength and rest
    /// distance per link, and the derived state bound to the current
    /// records.
    pub open spec fn wf(self, dim: int, n: int) -> bool {
        &&& self.strengths@.len() == self.links@.len()
        &&& self.distances@.len() == self.links@.len()
        &&& self.links@.len() < 0x1000_0000
        &&& n < 0x1000_0000
        &&& forall|k: int|
            0 <= k < self.links@.len() ==> {
                &&& (#[trigger] self.links@[k]).0 < n
                &&& self.links@[k].1 < n
                &&& self.links@[k].0 != self.links@[k].1
            }
        &&& self.links_data@.len() == self.links@.len()
        &&& forall|k: int|
            0 <= k < self.links_data@.len() ==> {
                &&& (#[trigger] self.links_data@[k]).index == k
                &&& self.links_data@[k].source == self.links@[k].0
                &&& self.links_data@[k].target == self.links@[k].1
            }
        &&& self.bias@.len() == self.links@.len()
        &&& self.count@.len() == n
    }

    pub fn new(
        links: Vec<(usize, usize)>,
        strengths: Vec<i64>,
        distances: Vec<i64>,
        iterations: usize,
    ) -> (r: LinkForce)
        ensures
            r.links == links,
            r.strengths == strengths,
            r.distances == distances,
            r.iterations == iterations,
            r.links_data@.len() == 0,
            r.count@.len() == 0,
            r.bias@.len() == 0,
    {
        LinkForce {
            links,
            strengths,
            distances,
            iterations,
            count: Vec::new(),
            bias: Vec::new(),
            links_data: Vec::new(),
        }
    }

    /// Bind the kernel to `n` records: count every record's degree and
    /// give each link the share `count[source]/(count[source]+count[target])`.
    #[verifier::loop_isolation(false)]
    pub fn init(&mut self, n: usize)
        requires
            old(self).strengths@.len() == old(self).links@.len(),
            old(self).distances@.len() == old(self).links@.len(),
            old(self).links@.len() < 0x1000_0000,
            n < 0x1000_0000,
            forall|k: int|
                0 <= k < old(self).links@.len() ==> {
                    &&& (#[trigger] old(self).links@[k]).0 < n
                    &&& old(self).links@[k].1 < n
                    &&& old(self).links@[k].0 != old(self).links@[k].1
                },
        ensures
            final(self).links == old(self).links,
            final(self).strengths == old(self).strengths,
            final(self).distances == old(self).distances,
            final(self).iterations == old(self).iterations,
            final(self).wf_init(n as int),
            forall|v: int|
                0 <= v < n ==> (#[trigger] final(self).count@[v]) as int == spec_degree(
                    old(self).links@,
                    v,
                    old(self).links@.len() as int,
                ),
            forall|k: int|
                0 <= k < old(self).links@.len() ==> (#[trigger] final(self).bias@[k]) as int
                    == spec_fp_div(
                    final(self).count@[old(self).links@[k].0 as int] as int,
                    (final(self).count@[old(self).links@[k].0 as int] as int)
                        + (final(self).count@[old(self).links@[k].1 as int] as int),
                ),
    {
        let ghost links0 = self.links@;
        let nl = self.links.len();
        self.links_data = LinkData::from_pairs(&self.links);
        // degrees
        let mut count: Vec<usize> = Vec::new();
        let mut v: usize = 0;
        while v < n
            invariant
                count@.len() == v <= n,
                forall|i: int| 0 <= i < v ==> (#[trigger] count@[i]) == 0usize,
            decreases n - v,
        {
            count.push(0);
            v = v + 1;
        }
        let mut k: usize = 0;
        while k < nl
            invariant
                0 <= k <= nl,
                self.links@ == links0,
                nl == links0.len(),
                count@.len() == n,
                forall|i: int|
                    0 <= i < n ==> (#[trigger] count@[i]) as int == spec_degree(
                        links0,
                        i,
                        k as int,
                    ),
            decreases nl - k,
        {
            let (s, t) = self.links[k];
            proof {
                assert(spec_degree(links0, s as int, k as int) <= 2 * (k as int)) by {
                    lemma_degree_bound(links0, s as int, k as int);
                }
                assert(spec_degree(links0, t as int, k as int) <= 2 * (k as int)) by {
                    lemma_degree_bound(links0, t as int, k as int);
                }
            }
            let cs = count[s];
            count[s] = cs + 1;
            let ct = count[t];
            count[t] = ct + 1;
            proof {
                assert forall|i: int| 0 <= i < n implies (#[trigger] count@[i]) as int
                    == spec_degree(links0, i, k as int + 1) by {}
            }
            k = k + 1;
        }
        self.count = count;
        // bias
        let mut bias: Vec<i64> = Vec::new();
        let mut k: usize = 0;
        while k < nl
            invariant
                0 <= k <= nl,
                self.links@ == links0,
                self.count@.len() == n,
                nl == links0.len(),
                bias@.len() == k <= nl,
                forall|i: int|
                    0 <= i < n ==> (#[trigger] self.count@[i]) as int == spec_degree(
                        links0,
                        i,
                        nl as int,
                    ),
                forall|i: int|
                    0 <= i < k ==> (#[trigger] bias@[i]) as int == spec_fp_div(
                        self.count@[links0[i].0 as int] as int,
                        self.count@[links0[i].0 as int] as int + self.count@[links0[i].1 as int] as int,
                    ),
            decreases nl - k,
        {
            let (s, t) = self.links[k];
            let cs = self.count[s];
            let ct = self.count[t];
            proof {
                lemma_degree_incident(links0, s as int, k as int, nl as int, true);
                lemma_degree_bound(links0, s as int, nl as int);
                lemma_degree_bound(links0, t as int, nl as int);
                assert(spec_degree(links0, t as int, nl as int) >= 0) by {
                    lemma_degree_nonneg(links0, t as int, nl as int);
                }
            }
            bias.push(fp_div(cs as i64, (cs + ct) as i64));
            k = k + 1;
        }
        self.bias = bias;
    }

    /// Derived state consistent with the links and `n` records.
    pub open spec fn wf_init(self, n: int) -> bool {
        &&& self.links_data@.len() == self.links@.len()
        &&& forall|k: int|
            0 <= k < self.links_data@.len() ==> {
                &&& (#[trigger] self.links_data@[k]).index == k
                &&& self.links_data@[k].source == self.links@[k].0
                &&& self.links_data@[k].target == self.links@[k].1
            }
        &&& self.bias@.len() == self.links@.len()
        &&& self.count@.len() == n
    }

    /// Relax every link, `iterations` times over; `jigs` reports the
    /// random displacements drawn for coincident endpoints, one chunk per
    /// pass.  Only velocities change.
    #[verifier::loop_isolation(false)]
    pub fn force<D>(&self, points: &mut Vec<PointData<D>>, alpha: i64, Ghost(dim): Ghost<int>) -> (jigs: Ghost<
        Seq<Seq<Seq<int>>>,
    >)
        requires
            self.wf(dim, old(points)@.len() as int),
            dim <= crate::fixed::MAX_DIM,
            forall|i: int|
                0 <= i < old(points)@.len() ==> (#[trigger] old(points)@[i]).wf(
                    dim,
                    old(points)@.len() as int,
                ),
        ensures
            final(points)@.len() == old(points)@.len(),
            jigs@.len() == self.iterations,
            forall|u: int| 0 <= u < jigs@.len() ==> jiggle_chunks_ok(#[trigger] jigs@[u], dim),
            views(final(points)@) == link_iters(
                views(old(points)@),
                self.links_data@,
                self.strengths@,
                self.distances@,
                self.bias@,
                alpha as int,
                jigs@,
                dim,
            ),
            forall|i: int|
                0 <= i < final(points)@.len() ==> {
                    &&& (#[trigger] final(points)@[i]).index == old(points)@[i].index
                    &&& final(points)@[i].data == old(points)@[i].data
                    &&& final(points)@[i].coord == old(points)@[i].coord
                    &&& final(points)@[i].strength == old(points)@[i].strength
                    &&& final(points)@[i].radius == old(points)@[i].radius
                    &&& final(points)@[i].fixed_position == old(points)@[i].fixed_position
                    &&& final(points)@[i].wf(dim, final(points)@.len() as int)
                },
    {
        let n = points.len();
        let ghost pts0 = points@;
        let ghost views0 = views(points@);
        let ghost mut chunks: Seq<Seq<Seq<int>>> = Seq::empty();
        let mut it: usize = 0;
        while it < self.iterations
            invariant
                points@.len() == n,
                chunks.len() == it <= self.iterations,
                forall|u: int| 0 <= u < chunks.len() ==> jiggle_chunks_ok(#[trigger] chunks[u], dim),
                views(points@) == link_iters(
                    views0,
                    self.links_data@,
                    self.strengths@,
                    self.distances@,
                    self.bias@,
                    alpha as int,
                    chunks,
                    dim,
                ),
                forall|i: int|
                    0 <= i < n ==> {
                        &&& (#[trigger] points@[i]).index == pts0[i].index
                        &&& points@[i].data == pts0[i].data
                        &&& points@[i].coord == pts0[i].coord
                        &&& points@[i].strength == pts0[i].strength
                        &&& points@[i].radius == pts0[i].radius
                        &&& points@[i].fixed_position == pts0[i].fixed_position
                        &&& points@[i].wf(dim, n as int)
                    },
            decreases self.iterations - it,
        {
            let ghost iter_start = views(points@);
            let ghost mut chunk: Seq<Seq<int>> = Seq::empty();
            let nl = self.links_data.len();
            let mut k: usize = 0;
            while k < nl
                invariant
                    points@.len() == n,
                    chunk.len() == k <= nl,
                    jiggle_chunks_ok(chunk, dim),
                    nl == self.links_data@.len(),
                    views(points@) == link_pass_upto(
                        iter_start,
                        self.links_data@,
                        self.strengths@,
                        self.distances@,
                        self.bias@,
                        alpha as int,
                        chunk,
                        k as int,
                        dim,
                    ),
                    forall|i: int|
                        0 <= i < n ==> {
                            &&& (#[trigger] points@[i]).index == pts0[i].index
                            &&& points@[i].data == pts0[i].data
                            &&& points@[i].coord == pts0[i].coord
                            &&& points@[i].strength == pts0[i].strength
                            &&& points@[i].radius == pts0[i].radius
                            &&& points@[i].fixed_position == pts0[i].fixed_position
                            &&& points@[i].wf(dim, n as int)
                        },
            decreases nl - k,
            {
                let ghost pre = views(points@);
                let s = self.links_data[k].source;
                let t = self.links_data[k].target;
                // the spring vector, jiggled where zero
                let dimx = points[t].velocity.len();
                let mut p: Vec<i64> = Vec::new();
                let ghost mut jig: Seq<int> = Seq::empty();
                let mut j: usize = 0;
                while j < dimx
                    invariant
                        points@.len() == n,
                        views(points@) == pre,
                        0 <= (s as int) < n,
                        0 <= (t as int) < n,
                        s != t,
                        dimx as int == dim,
                        points@[t as int].coord@.len() == dim,
                        points@[t as int].velocity@.len() == dim,
                        points@[s as int].coord@.len() == dim,
                        points@[s as int].velocity@.len() == dim,
                        p@.len() == j <= dimx,
                        jig.len() == j,
                        forall|jj: int|
                            0 <= jj < j ==> (#[trigger] p@[jj]) as int == spec_p(
                                pre,
                                s as int,
                                t as int,
                                jig,
                                jj,
                            ),
                        forall|jj: int|
                            0 <= jj < j ==> -COORD_LIMIT <= (#[trigger] p@[jj]) <= COORD_LIMIT,
                        forall|jj: int|
                            0 <= jj < j ==> -JIGGLE_MAX as int <= (#[trigger] jig[jj])
                                <= JIGGLE_MAX as int,
                    decreases dimx - j,
                {
                    let raw = clamp_coord(
                        fp_sub(
                            fp_sub(
                                fp_add(points[t].coord[j], points[t].velocity[j]),
                                points[s].coord[j],
                            ),
                            points[s].velocity[j],
                        ),
                    );
                    proof {
                        assert(pre[t as int].coord[j as int] == points@[t as int].coord@[j as int] as int);
                        assert(pre[t as int].velocity[j as int] == points@[t as int].velocity@[j as int] as int);
                        assert(pre[s as int].coord[j as int] == points@[s as int].coord@[j as int] as int);
                        assert(pre[s as int].velocity[j as int] == points@[s as int].velocity@[j as int] as int);
                    }
                    if about_zero(raw) {
                        let jg = jiggle();
                        p.push(jg);
                        proof {
                            jig = jig.push(jg as int);
                        }
                    } else {
                        p.push(raw);
                        proof {
                            jig = jig.push(0int);
                        }
                    }
                    j = j + 1;
                }
                // spring length
                let mut l2: i128 = 0;
                let mut j: usize = 0;
                while j < dimx
                    invariant
                        p@.len() == dimx,
                        forall|jj: int|
                            0 <= jj < dimx ==> (#[trigger] p@[jj]) as int == spec_p(
                                pre,
                                s as int,
                                t as int,
                                jig,
                                jj,
                            ),
                        forall|jj: int|
                            0 <= jj < dimx ==> -COORD_LIMIT <= (#[trigger] p@[jj]) <= COORD_LIMIT,
                        0 <= j <= dimx,
                        l2 == spec_p_l2(pre, s as int, t as int, jig, j as int),
                        0 <= l2 <= (j as int) * (COORD_LIMIT as int) * (COORD_LIMIT as int),
                        dimx as int == dim <= crate::fixed::MAX_DIM,
                    decreases dimx - j,
                {
                    let d: i128 = p[j] as i128;
                    proof {
                        assert(d * d <= (COORD_LIMIT as int) * (COORD_LIMIT as int))
                            by (nonlinear_arith)
                            requires
                                -(COORD_LIMIT as int) <= d <= (COORD_LIMIT as int),
                        ;
                        assert(d * d >= 0) by (nonlinear_arith);
                    }
                    l2 = l2 + d * d;
                    j = j + 1;
                }
                let l = fp_sqrt(l2);
                if l != 0 {
                    let scale = fp_mul(
                        fp_mul(fp_div(fp_sub(l, self.distances[k]), l), alpha),
                        self.strengths[k],
                    );
                    let b = self.bias[k];
                    let b2 = fp_sub(SCALE, b);
                    let mut tvv: Vec<i64> = Vec::new();
                    let mut svv: Vec<i64> = Vec::new();
                    let mut j: usize = 0;
                    while j < dimx
                        invariant
                            points@.len() == n,
                            views(points@) == pre,
                            0 <= (s as int) < n,
                            0 <= (t as int) < n,
                            s != t,
                            dimx as int == dim,
                            points@[t as int].velocity@.len() == dim,
                            points@[s as int].velocity@.len() == dim,
                            p@.len() == dimx,
                            forall|jj: int|
                                0 <= jj < dimx ==> (#[trigger] p@[jj]) as int == spec_p(
                                    pre,
                                    s as int,
                                    t as int,
                                    jig,
                                    jj,
                                ),
                            tvv@.len() == j <= dimx,
                            svv@.len() == j,
                            scale as int == spec_fp_mul(
                                spec_fp_mul(
                                    spec_fp_div(
                                        sat64(
                                            sat64(
                                                spec_isqrt(
                                                    spec_p_l2(pre, s as int, t as int, jig, dim),
                                                ),
                                            ) - self.distances@[k as int],
                                        ),
                                        sat64(
                                            spec_isqrt(spec_p_l2(pre, s as int, t as int, jig, dim)),
                                        ),
                                    ),
                                    alpha as int,
                                ),
                                self.strengths@[k as int] as int,
                            ),
                            sat64(spec_isqrt(spec_p_l2(pre, s as int, t as int, jig, dim))) != 0,
                            b == self.bias@[k as int],
                            b2 as int == sat64(SCALE - b),
                            forall|jj: int|
                                0 <= jj < j ==> (#[trigger] tvv@[jj]) as int == sat64(
                                    pre[t as int].velocity[jj] - spec_fp_mul(
                                        spec_fp_mul(spec_p(pre, s as int, t as int, jig, jj), scale as int),
                                        b as int,
                                    ),
                                ),
                            forall|jj: int|
                                0 <= jj < j ==> (#[trigger] svv@[jj]) as int == spec_sat_add(
                                    pre[s as int].velocity[jj],
                                    spec_fp_mul(
                                        spec_fp_mul(spec_p(pre, s as int, t as int, jig, jj), scale as int),
                                        sat64(SCALE - b),
                                    ),
                                ),
                        decreases dimx - j,
                    {
                        let pj = fp_mul(p[j], scale);
                        tvv.push(fp_sub(points[t].velocity[j], fp_mul(pj, b)));
                        svv.push(fp_add(points[s].velocity[j], fp_mul(pj, b2)));
                        proof {
                            assert(pre[t as int].velocity[j as int] == points@[t as int].velocity@[j as int] as int);
                            assert(pre[s as int].velocity[j as int] == points@[s as int].velocity@[j as int] as int);
                        }
                        j = j + 1;
                    }
                    points[t].velocity = tvv;
                    points[s].velocity = svv;
                    proof {
                        let res = link_apply_one(
                            pre,
                            s as int,
                            t as int,
                            self.strengths@[k as int] as int,
                            self.distances@[k as int] as int,
                            b as int,
                            alpha as int,
                            jig,
                            dim,
                        );
                        assert forall|i: int| 0 <= i < n implies #[trigger] views(points@)[i]
                            == res[i] by {
                            if i == t as int {
                                assert(crate::bound::coord_view(points@[i].velocity@)
                                    =~= res[i].velocity);
                            } else if i == s as int {
                                assert(crate::bound::coord_view(points@[i].velocity@)
                                    =~= res[i].velocity);
                            } else {
                                assert(views(points@)[i] == pre[i]);
                                assert(res[i] == pre[i]);
                            }
                        }
                        assert(views(points@) =~= res);
                    }
                } else {
                    proof {
                        assert(views(points@) =~~= link_apply_one(
                            pre,
                            s as int,
                            t as int,
                            self.strengths@[k as int] as int,
                            self.distances@[k as int] as int,
                            self.bias@[k as int] as int,
                            alpha as int,
                            jig,
                            dim,
                        ));
                    }
                }
                proof {
                    lemma_link_pass_frame(
                        iter_start,
                        self.links_data@,
                        self.strengths@,
                        self.distances@,
                        self.bias@,
                        alpha as int,
                        chunk,
                        chunk.push(jig),
                        k as int,
                        dim,
                    );
                    chunk = chunk.push(jig);
                }
                k = k + 1;
            }
            proof {
                assert(chunks.push(chunk).drop_last() =~= chunks);
                assert(chunks.push(chunk).last() == chunk);
                chunks = chunks.push(chunk);
            }
            it = it + 1;
        }
        Ghost(chunks)
    }

}

/// A degree over `n` links is between zero and `2 n`.
pub proof fn lemma_degree_bound(links: Seq<(usize, usize)>, v: int, n: int)
    requires
        n >= 0,
    ensures
        0 <= spec_degree(links, v, n) <= 2 * n,
    decreases n,
{
    if n > 0 {
        lemma_degree_bound(links, v, n - 1);
    }
}

pub proof fn lemma_degree_nonneg(links: Seq<(usize, usize)>, v: int, n: int)
    requires
        n >= 0,
    ensures
        spec_degree(links, v, n) >= 0,
{
    lemma_degree_bound(links, v, n);
}

/// An endpoint of link `k` has positive degree over all `n >= k + 1` links.
pub proof fn lemma_degree_incident(
    links: Seq<(usize, usize)>,
    v: int,
    k: int,
    n: int,
    is_source: bool,
)
    requires
        0 <= k < n,
        if is_source {
            links[k].0 == v
        } else {
            links[k].1 == v
        },
    ensures
        spec_degree(links, v, n) >= 1,
    decreases n,
{
    lemma_degree_bound(links, v, k);
    if k == n - 1 {
        lemma_degree_bound(links, v, n - 1);
    } else {
        lemma_degree_incident(links, v, k, n - 1, is_source);
    }
}

} // verus!
