//! The generic spatial tree: a 2^N-way subdivision of an axis-aligned box.
//!
//! The tree owns a root region and supports incremental insertion, bulk
//! construction, and nearest-neighbor search.  Distances are compared as
//! squared Euclidean distances, which orders them exactly as the real
//! distances would.

use vstd::prelude::*;
use vstd::multiset::Multiset;
use vstd::arithmetic::power2::pow2;
use crate::bound::{Bound, contains_closed, coord_view, coord_in_limits, dist2, dist2_upto};
use crate::fixed::{COORD_LIMIT, MAX_DIM};
use crate::node::{
    Node, bounds_wf, max_width, in_slot, slot_of, sub_bounds, lemma_in_slot_sub_bounds,
    lemma_sub_bounds_wf, lemma_sub_bounds_shrink, max_width_vec,
};
use crate::tree_data::TreeData;

verus! {

broadcast use vstd::std_specs::vec::group_vec_axioms, vstd::seq::group_seq_axioms, vstd::multiset::group_multiset_axioms;

/// A recoverable failure of a tree operation.
#[derive(Clone, Copy, Debug, PartialEq, Eq, Structural)]
pub enum TreeError {
    /// The point lies outside the root box.
    OutOfBounds,
}

/// Squared distances of in-limit coordinates stay below `2^125`.
pub proof fn lemma_dist2_bound(a: Seq<int>, b: Seq<int>, n: int)
    requires
        coord_in_limits(a),
        coord_in_limits(b),
        0 <= n <= a.len(),
        n <= b.len(),
    ensures
        0 <= dist2_upto(a, b, n) <= n * 4 * (COORD_LIMIT as int) * (COORD_LIMIT as int),
    decreases n,
{
    if n > 0 {
        lemma_dist2_bound(a, b, n - 1);
        let d = a[n - 1] - b[n - 1];
        assert(d * d <= 4 * (COORD_LIMIT as int) * (COORD_LIMIT as int)) by (nonlinear_arith)
            requires
                -2 * (COORD_LIMIT as int) <= d <= 2 * (COORD_LIMIT as int),
        ;
        assert(d * d >= 0) by (nonlinear_arith);
    }
}

impl<D: TreeData> Node<D> {
    /// The (coordinate, payload) entry of a point node.
    pub open spec fn entry(self) -> (Seq<int>, D::PointData)
        recommends
            self is Point,
    {
        (coord_view(self->Point_coord@), self->Point_data)
    }

    /// No point under a node is closer to a query than the node itself:
    /// the squared box distance is a lower bound.
    pub proof fn lemma_pts_dist_ge_box(
        self,
        dim: int,
        cap: int,
        min_dist: int,
        q: Seq<int>,
        e: (Seq<int>, D::PointData),
    )
        requires
            self.wf(dim, cap, min_dist),
            self.pts().count(e) > 0,
            q.len() == dim,
        ensures
            dist2(q, e.0) >= self.spec_dist2(q),
    {
        self.lemma_pts_entry_wf(dim, cap, min_dist, e);
        match self {
            Node::Point { coord, data } => {
                assert(e == (coord_view(coord@), data));
            },
            Node::Region { bounds, .. } => {
                self.lemma_pts_in_bounds(dim, cap, min_dist, e);
                crate::bound::lemma_box_dist2_le_dist2(bounds@, q, e.0, dim);
            },
        }
    }

    /// Well-formedness gives the limits needed by distance evaluation.
    pub proof fn lemma_wf_limits(self, dim: int, cap: int, min_dist: int)
        requires
            self.wf(dim, cap, min_dist),
        ensures
            self.limits_ok(),
            self.dim() == dim,
    {
    }

    /// What the structural self-check verifies at every region: a leaf
    /// holds only points inside its box; a non-leaf holds only regions.
    pub open spec fn check_spec(self) -> bool
        decreases self, 0int, 0int,
    {
        match self {
            Node::Point { .. } => true,
            Node::Region { bounds, children, .. } => {
                &&& (forall|k: int|
                    0 <= k < children@.len() ==> {
                        if self.spec_is_leaf() {
                            &&& (#[trigger] children@[k]) is Point
                            &&& contains_closed(bounds@, coord_view(children@[k]->Point_coord@))
                        } else {
                            children@[k] is Region
                        }
                    })
                &&& (forall|k: int|
                    0 <= k < children@.len() ==> (#[trigger] children@[k]).check_spec())
            },
        }
    }

    /// Walk the subtree and verify the structural invariants at run time:
    /// succeeds exactly when every leaf holds only contained points and
    /// every non-leaf holds only regions.
    #[verifier::loop_isolation(false)]
    pub fn check(&self) -> (r: Result<(), ()>)
        ensures
            r is Ok <==> self.check_spec(),
        decreases *self,
    {
        match self {
            Node::Point { .. } => Ok(()),
            Node::Region { bounds, children, .. } => {
                let leaf = self.is_leaf_region();
                let mut k: usize = 0;
                while k < children.len()
                    invariant
                        0 <= k <= children@.len(),
                        forall|m: int|
                            0 <= m < k ==> {
                                if self.spec_is_leaf() {
                                    &&& (#[trigger] children@[m]) is Point
                                    &&& contains_closed(
                                        bounds@,
                                        coord_view(children@[m]->Point_coord@),
                                    )
                                } else {
                                    children@[m] is Region
                                }
                            },
                        forall|m: int|
                            0 <= m < k ==> (#[trigger] children@[m]).check_spec(),
                    decreases children@.len() - k,
                {
                    let child = &children[k];
                    if leaf {
                        match child {
                            Node::Point { coord, .. } => {
                                if coord.len() != bounds.len() {
                                    return Err(());
                                }
                                if !self.contains(coord) {
                                    return Err(());
                                }
                            },
                            Node::Region { .. } => {
                                return Err(());
                            },
                        }
                    } else {
                        if !child.is_region() {
                            return Err(());
                        }
                    }
                    if child.check().is_err() {
                        return Err(());
                    }
                    k = k + 1;
                }
                Ok(())
            },
        }
    }

    /// Best-first search for the point closest to `point`, keeping the
    /// incumbent `(best_d2, best)` and pruning regions whose box is no
    /// closer than the incumbent.
    #[verifier::loop_isolation(false)]
    fn search_closest<'a>(
        &'a self,
        point: &Vec<i64>,
        best_d2: i128,
        best: Option<&'a Node<D>>,
        Ghost(dim): Ghost<int>,
        Ghost(cap): Ghost<int>,
        Ghost(md): Ghost<int>,
    ) -> (res: (i128, Option<&'a Node<D>>))
        requires
            self.wf(dim, cap, md),
            dim <= MAX_DIM,
            point@.len() == dim,
            coord_in_limits(coord_view(point@)),
            best_d2 >= 0,
            match best {
                Some(b) => *b is Point && best_d2 == dist2(coord_view(point@), b.entry().0),
                None => true,
            },
        ensures
            0 <= res.0 <= best_d2,
            (res.0 == best_d2 && res.1 == best) || (match res.1 {
                Some(n) => {
                    &&& *n is Point
                    &&& self.pts().count(n.entry()) > 0
                    &&& res.0 == dist2(coord_view(point@), n.entry().0)
                    &&& res.0 < best_d2
                },
                None => false,
            }),
            forall|e: (Seq<int>, D::PointData)|
                self.pts().count(e) > 0 ==> res.0 <= dist2(coord_view(point@), #[trigger] e.0),
        decreases *self,
    {
        let ghost q = coord_view(point@);
        proof {
            self.lemma_wf_limits(dim, cap, md);
        }
        match self {
            Node::Point { coord, data } => {
                let d = self.distance2(point);
                proof {
                    assert(self.pts() =~= Multiset::empty().insert(self.entry()));
                }
                if d < best_d2 {
                    (d, Some(self))
                } else {
                    (best_d2, best)
                }
            },
            Node::Region { bounds, children, .. } => {
                let mut cur_d = best_d2;
                let mut cur = best;
                let mut i: usize = 0;
                while i < children.len()
                    invariant
                        0 <= i <= children@.len(),
                        0 <= cur_d <= best_d2,
                        match cur {
                            Some(b) => *b is Point && cur_d == dist2(q, b.entry().0),
                            None => true,
                        },
                        (cur_d == best_d2 && cur == best) || (match cur {
                            Some(n) => {
                                &&& *n is Point
                                &&& self.pts().count(n.entry()) > 0
                                &&& cur_d == dist2(q, n.entry().0)
                                &&& cur_d < best_d2
                            },
                            None => false,
                        }),
                        forall|e: (Seq<int>, D::PointData)|
                            Self::pts_of(children@.take(i as int)).count(e) > 0 ==> cur_d <= dist2(
                                q,
                                #[trigger] e.0,
                            ),
                    decreases children@.len() - i,
                {
                    let child = &children[i];
                    proof {
                        assert(children@[i as int].wf(dim, cap, md));
                        children@[i as int].lemma_wf_limits(dim, cap, md);
                    }
                    let cd = child.distance2(point);
                    let ghost prev_d = cur_d;
                    let ghost prev = cur;
                    if cd < cur_d {
                        let (nd, nb) = child.search_closest(
                            point,
                            cur_d,
                            cur,
                            Ghost(dim),
                            Ghost(cap),
                            Ghost(md),
                        );
                        cur_d = nd;
                        cur = nb;
                        proof {
                            if !(cur_d == prev_d && cur == prev) {
                                let n = cur.unwrap();
                                crate::node::Node::<D>::lemma_pts_of_contains(
                                    children@,
                                    i as int,
                                    n.entry(),
                                );
                            }
                        }
                    } else {
                        proof {
                            assert forall|e: (Seq<int>, D::PointData)|
                                children@[i as int].pts().count(e) > 0 implies cur_d <= dist2(
                                q,
                                #[trigger] e.0,
                            ) by {
                                children@[i as int].lemma_pts_dist_ge_box(dim, cap, md, q, e);
                            }
                        }
                    }
                    proof {
                        assert(children@.take(i as int + 1) =~= children@.take(i as int).push(
                            children@[i as int],
                        ));
                        crate::node::Node::<D>::lemma_pts_of_push(
                            children@.take(i as int),
                            children@[i as int],
                        );
                        assert forall|e: (Seq<int>, D::PointData)|
                            Self::pts_of(children@.take(i as int + 1)).count(e) > 0 implies cur_d
                            <= dist2(q, #[trigger] e.0) by {
                            assert(Self::pts_of(children@.take(i as int)).count(e) > 0
                                || children@[i as int].pts().count(e) > 0);
                        }
                    }
                    i = i + 1;
                }
                proof {
                    assert(children@.take(children@.len() as int) =~= children@);
                }
                (cur_d, cur)
            },
        }
    }
}

impl<D: TreeData> Node<D> {
    /// What a bulk-built subtree looks like: a well-formed region over the
    /// given box holding exactly the given points.
    pub open spec fn built_ok(
        bounds: Seq<Bound>,
        ms: Multiset<(Seq<int>, D::PointData)>,
        cap: int,
        md: int,
        r: Node<D>,
    ) -> bool {
        &&& r is Region
        &&& r->Region_bounds@ == bounds
        &&& r.wf(bounds.len() as int, cap, md)
        &&& r.pts() == ms
    }

    /// A sequence of point nodes holds as many points as nodes.
    pub proof fn lemma_pts_of_points_len(s: Seq<Node<D>>)
        requires
            forall|m: int| 0 <= m < s.len() ==> (#[trigger] s[m]) is Point,
        ensures
            Self::pts_of(s).len() == s.len(),
        decreases s.len(),
    {
        if s.len() > 0 {
            Self::lemma_pts_of_points_len(s.drop_first());
            assert(s[0].pts() =~= Multiset::empty().insert(s[0].entry()));
        }
    }

    /// Build a subtree over `bounds` holding exactly `nodes`: a leaf when
    /// they fit (or the box is too narrow to split), otherwise a region of
    /// `2^dim` subtrees, each built from the points of its slot.
    #[verifier::loop_isolation(false)]
    fn build_region(bounds: Vec<Bound>, nodes: Vec<Node<D>>, max_num: u32, min_dist: i64) -> (r:
        Node<D>)
        requires
            bounds_wf(bounds@),
            1 <= bounds@.len() <= MAX_DIM,
            forall|m: int|
                0 <= m < nodes@.len() ==> {
                    &&& (#[trigger] nodes@[m]) is Point
                    &&& nodes@[m].wf(bounds@.len() as int, max_num as int, min_dist as int)
                    &&& contains_closed(bounds@, coord_view(nodes@[m]->Point_coord@))
                },
            1 <= max_num,
            min_dist >= 1,
        ensures
            Node::<D>::built_ok(
                bounds@,
                Node::<D>::pts_of(nodes@),
                max_num as int,
                min_dist as int,
                r,
            ),
        decreases max_width(bounds@),
    {
        let ghost dim = bounds@.len() as int;
        let ghost cap = max_num as int;
        let ghost md = min_dist as int;
        let ghost total = Node::<D>::pts_of(nodes@);
        proof {
            crate::node::lemma_max_width_le(bounds@, bounds@.len() as int, 2 * COORD_LIMIT as int);
        }
        let fits = nodes.len() <= max_num as usize;
        let w = max_width_vec(&bounds);
        if fits || w <= min_dist {
            let r = Node::Region { bounds, children: nodes, data: None };
            proof {
                assert(r.wf(dim, cap, md));
            }
            r
        } else {
            let nb = crate::two_power(bounds.len());
            proof {
                vstd::arithmetic::power2::lemma_pow2_pos(dim as nat);
            }
            let mut rest = nodes;
            let mut children: Vec<Node<D>> = Vec::new();
            proof {
                assert(Node::<D>::pts_of(children@) =~= Multiset::empty());
                assert forall|m: int| 0 <= m < rest@.len() implies slot_of(
                    bounds@,
                    coord_view((#[trigger] rest@[m])->Point_coord@),
                ) >= 0 by {
                    crate::node::lemma_slot_upto_range(
                        bounds@,
                        coord_view(rest@[m]->Point_coord@),
                        bounds@.len() as int,
                    );
                }
            }
            let mut k: usize = 0;
            while k < nb
                invariant
                    0 <= k <= nb,
                    nb == pow2(dim as nat),
                    children@.len() == k,
                    forall|i: int|
                        0 <= i < k ==> {
                            &&& (#[trigger] children@[i]) is Region
                            &&& children@[i]->Region_bounds@ == sub_bounds(bounds@, i)
                            &&& children@[i].wf(dim, cap, md)
                        },
                    forall|i: int, e: (Seq<int>, D::PointData)|
                        0 <= i < k && (#[trigger] children@[i].pts().count(e)) > 0 ==> in_slot(
                            bounds@,
                            i,
                            e.0,
                        ),
                    Node::<D>::pts_of(children@).add(Node::<D>::pts_of(rest@)) =~= total,
                    forall|m: int|
                        0 <= m < rest@.len() ==> {
                            &&& (#[trigger] rest@[m]) is Point
                            &&& rest@[m].wf(dim, cap, md)
                            &&& contains_closed(bounds@, coord_view(rest@[m]->Point_coord@))
                            &&& slot_of(bounds@, coord_view(rest@[m]->Point_coord@)) >= k
                        },
                decreases nb - k,
            {
                let mut mine: Vec<Node<D>> = Vec::new();
                let mut others: Vec<Node<D>> = Vec::new();
                let ghost rest0 = Node::<D>::pts_of(rest@);
                proof {
                    assert(Node::<D>::pts_of(mine@) =~= Multiset::empty());
                    assert(Node::<D>::pts_of(others@) =~= Multiset::empty());
                }
                while rest.len() > 0
                    invariant
                        forall|m: int|
                            0 <= m < rest@.len() ==> {
                                &&& (#[trigger] rest@[m]) is Point
                                &&& rest@[m].wf(dim, cap, md)
                                &&& contains_closed(bounds@, coord_view(rest@[m]->Point_coord@))
                                &&& slot_of(bounds@, coord_view(rest@[m]->Point_coord@)) >= k
                            },
                        forall|m: int|
                            0 <= m < mine@.len() ==> {
                                &&& (#[trigger] mine@[m]) is Point
                                &&& mine@[m].wf(dim, cap, md)
                                &&& in_slot(bounds@, k as int, coord_view(mine@[m]->Point_coord@))
                            },
                        forall|m: int|
                            0 <= m < others@.len() ==> {
                                &&& (#[trigger] others@[m]) is Point
                                &&& others@[m].wf(dim, cap, md)
                                &&& contains_closed(bounds@, coord_view(others@[m]->Point_coord@))
                                &&& slot_of(bounds@, coord_view(others@[m]->Point_coord@)) >= k + 1
                            },
                        Node::<D>::pts_of(rest@).add(Node::<D>::pts_of(mine@)).add(
                            Node::<D>::pts_of(others@),
                        ) =~= rest0,
                    decreases rest@.len(),
                {
                    proof {
                        Node::<D>::lemma_pts_of_drop_last(rest@);
                    }
                    let p = rest.pop().unwrap();
                    let idx = Node::<D>::get_child_region_index(p.coord(), &bounds);
                    if idx == k {
                        proof {
                            Node::<D>::lemma_pts_of_push(mine@, p);
                        }
                        mine.push(p);
                    } else {
                        proof {
                            Node::<D>::lemma_pts_of_push(others@, p);
                        }
                        others.push(p);
                    }
                }
                rest = others;
                proof {
                    lemma_sub_bounds_wf(bounds@, k as int);
                    lemma_sub_bounds_shrink(bounds@, k as int);
                    assert forall|m: int| 0 <= m < mine@.len() implies {
                        &&& (#[trigger] mine@[m]) is Point
                        &&& mine@[m].wf(dim, cap, md)
                        &&& contains_closed(
                            sub_bounds(bounds@, k as int),
                            coord_view(mine@[m]->Point_coord@),
                        )
                    } by {
                        lemma_in_slot_sub_bounds(bounds@, coord_view(mine@[m]->Point_coord@));
                    }
                }
                let sb = crate::node::sub_bounds_vec(&bounds, k);
                let ghost mine_seq = mine@;
                let child = Node::<D>::build_region(sb, mine, max_num, min_dist);
                proof {
                    Node::<D>::lemma_pts_of_push(children@, child);
                    assert forall|e: (Seq<int>, D::PointData)| #[trigger] child.pts().count(e)
                        > 0 implies in_slot(bounds@, k as int, e.0) by {
                        let m = Node::<D>::lemma_pts_of_source(mine_seq, e);
                        assert(mine_seq[m].pts() =~= Multiset::empty().insert(mine_seq[m].entry()));
                        assert(e == mine_seq[m].entry());
                    }
                }
                children.push(child);
                k = k + 1;
            }
            proof {
                if rest@.len() > 0 {
                    lemma_in_slot_sub_bounds(bounds@, coord_view(rest@[0]->Point_coord@));
                }
                assert(rest@.len() == 0);
                assert(Node::<D>::pts_of(rest@) =~= Multiset::empty());
            }
            let r = Node::Region { bounds, children, data: None };
            proof {
                assert(!r.spec_is_leaf());
                assert(r.wf(dim, cap, md));
                assert(r.pts() =~= total);
            }
            r
        }
    }
}

impl<D: TreeData> Node<D> {
    /// The leaf invariant at one region: a leaf holds only point children,
    /// all inside its box, and no more than `cap` unless its box is already
    /// narrower than `md` on every axis; a non-leaf holds exactly `2^dim`
    /// region children whose boxes are the half-split sub-boxes, and every
    /// coordinate inside the box belongs to exactly one child slot.
    pub open spec fn leaf_invariant_at(self, dim: int, cap: int, md: int) -> bool
        recommends
            self is Region,
    {
        let bounds = self->Region_bounds@;
        let children = self->Region_children@;
        if self.spec_is_leaf() {
            &&& forall|k: int| 0 <= k < children.len() ==> (#[trigger] children[k]) is Point
            &&& forall|k: int|
                0 <= k < children.len() ==> contains_closed(
                    bounds,
                    coord_view((#[trigger] children[k])->Point_coord@),
                )
            &&& (children.len() <= cap || max_width(bounds) <= md)
        } else {
            &&& children.len() == pow2(dim as nat)
            &&& forall|k: int| 0 <= k < children.len() ==> (#[trigger] children[k]) is Region
            &&& forall|k: int|
                0 <= k < children.len() ==> (#[trigger] children[k])->Region_bounds@ == sub_bounds(
                    bounds,
                    k,
                )
            &&& forall|k: int, j: int|
                0 <= k < children.len() && 0 <= j < dim ==> bounds[j].min <= (
                #[trigger] sub_bounds(bounds, k)[j]).min && sub_bounds(bounds, k)[j].max
                    <= bounds[j].max
            &&& forall|c: Seq<int>|
                c.len() == dim && #[trigger] contains_closed(bounds, c) ==> {
                    &&& 0 <= slot_of(bounds, c) < children.len()
                    &&& in_slot(bounds, slot_of(bounds, c), c)
                    &&& contains_closed(sub_bounds(bounds, slot_of(bounds, c)), c)
                    &&& forall|k: int| in_slot(bounds, k, c) ==> k == slot_of(bounds, c)
                }
        }
    }

    /// The containment closure at one region: every point stored under it
    /// lies inside its box — so every ancestor of a point contains it.
    pub open spec fn containment_at(self, dim: int, cap: int, md: int) -> bool
        recommends
            self is Region,
    {
        forall|e: (Seq<int>, D::PointData)|
            self.pts().count(e) > 0 ==> contains_closed(self->Region_bounds@, #[trigger] e.0)
    }

    /// The child-indexing property at one non-leaf region: every point
    /// stored under child `k` has slot index `k` in this region's box.
    pub open spec fn child_indexing_at(self, dim: int, cap: int, md: int) -> bool
        recommends
            self is Region,
    {
        !self.spec_is_leaf() ==> forall|k: int, e: (Seq<int>, D::PointData)|
            0 <= k < self->Region_children@.len() && (
            #[trigger] self->Region_children@[k].pts().count(e)) > 0 ==> slot_of(
                self->Region_bounds@,
                e.0,
            ) == k && in_slot(self->Region_bounds@, k, e.0)
    }

    /// All three properties, at every region of the subtree.
    pub open spec fn tree_invariants(self, dim: int, cap: int, md: int) -> bool
        decreases self, 0int,
    {
        self is Region ==> {
            &&& self.leaf_invariant_at(dim, cap, md)
            &&& self.containment_at(dim, cap, md)
            &&& self.child_indexing_at(dim, cap, md)
            &&& forall|k: int|
                0 <= k < self->Region_children@.len() ==> (
                #[trigger] self->Region_children@[k]).tree_invariants(dim, cap, md)
        }
    }

    /// A well-formed node satisfies, at every region below it, the leaf
    /// invariant, the containment closure, and the child-indexing property.
    pub proof fn lemma_tree_invariants(self, dim: int, cap: int, md: int)
        requires
            self.wf(dim, cap, md),
        ensures
            self.tree_invariants(dim, cap, md),
        decreases self,
    {
        if self is Region {
            let bounds = self->Region_bounds@;
            let children = self->Region_children@;
            assert forall|k: int| 0 <= k < children.len() implies (
            #[trigger] children[k]).tree_invariants(dim, cap, md) by {
                children[k].lemma_tree_invariants(dim, cap, md);
            }
            assert forall|e: (Seq<int>, D::PointData)| self.pts().count(e) > 0 implies
                contains_closed(bounds, #[trigger] e.0) by {
                self.lemma_pts_in_bounds(dim, cap, md, e);
            }
            if !self.spec_is_leaf() {
                assert forall|k: int, j: int|
                    0 <= k < children.len() && 0 <= j < dim implies bounds[j].min <= (
                #[trigger] sub_bounds(bounds, k)[j]).min && sub_bounds(bounds, k)[j].max
                    <= bounds[j].max by {
                    crate::node::lemma_mid_in_range(bounds[j]);
                }
                assert forall|c: Seq<int>|
                    c.len() == dim && #[trigger] contains_closed(bounds, c) implies {
                    &&& 0 <= slot_of(bounds, c) < children.len()
                    &&& in_slot(bounds, slot_of(bounds, c), c)
                    &&& contains_closed(sub_bounds(bounds, slot_of(bounds, c)), c)
                    &&& forall|k: int| in_slot(bounds, k, c) ==> k == slot_of(bounds, c)
                } by {
                    lemma_in_slot_sub_bounds(bounds, c);
                }
            }
        }
    }
}

/// What `find_closest` reports for a point set: `d` is the squared
/// distance from `q` of some stored point, and no stored point is closer.
pub open spec fn is_closest_dist<D: TreeData>(
    pts: Multiset<(Seq<int>, D::PointData)>,
    q: Seq<int>,
    d: int,
) -> bool {
    &&& exists|e: (Seq<int>, D::PointData)| pts.count(e) > 0 && dist2(q, #[trigger] e.0) == d
    &&& forall|e: (Seq<int>, D::PointData)| pts.count(e) > 0 ==> dist2(q, #[trigger] e.0) >= d
}

/// Bulk versus incremental construction: two trees holding the same
/// points — as `from_nodes` and a sequence of `add` calls yield from one
/// input, by their contracts — give `find_closest` results at the same
/// distance from every query, though not necessarily the same point when
/// several are equally close.
pub proof fn lemma_bulk_vs_incremental<D: TreeData>(
    t1: GenericTree<D>,
    t2: GenericTree<D>,
    q: Seq<int>,
    d1: int,
    d2: int,
)
    requires
        t1.pts() == t2.pts(),
        is_closest_dist::<D>(t1.pts(), q, d1),
        is_closest_dist::<D>(t2.pts(), q, d2),
    ensures
        d1 == d2,
{
    let e1 = choose|e: (Seq<int>, D::PointData)|
        t1.pts().count(e) > 0 && dist2(q, #[trigger] e.0) == d1;
    let e2 = choose|e: (Seq<int>, D::PointData)|
        t2.pts().count(e) > 0 && dist2(q, #[trigger] e.0) == d2;
    assert(dist2(q, e1.0) >= d2);
    assert(dist2(q, e2.0) >= d1);
}

/// Nearest soundness: a query placed exactly on a stored point is
/// answered at squared distance zero — `find_closest` at a stored
/// coordinate returns that point or a coincident one.
pub proof fn lemma_nearest_soundness<D: TreeData>(
    t: GenericTree<D>,
    e: (Seq<int>, D::PointData),
    d: int,
)
    requires
        t.pts().count(e) > 0,
        is_closest_dist::<D>(t.pts(), e.0, d),
    ensures
        d == 0,
{
    crate::bound::lemma_dist2_self(e.0, e.0.len() as int);
    assert(dist2(e.0, e.0) == 0);
    let w = choose|w: (Seq<int>, D::PointData)|
        t.pts().count(w) > 0 && dist2(e.0, #[trigger] w.0) == d;
    crate::bound::lemma_dist2_nonneg(e.0, w.0, e.0.len() as int);
}

/// The spatial tree handle: a root region, the number of stored points,
/// the minimum box width below which a leaf stops splitting, and the leaf
/// capacity.
#[verifier::reject_recursive_types(D)]
pub struct GenericTree<D: TreeData> {
    /// The root region.
    pub root: Node<D>,
    /// Number of points stored.
    pub num: u32,
    /// Largest box width at or below which a leaf stops splitting.
    pub min_dist: i64,
    /// Largest number of points a splittable leaf region may hold.
    pub leaf_max_children: u32,
}

impl<D: TreeData> GenericTree<D> {
    /// Dimension of the space.
    pub open spec fn dim(self) -> int {
        self.root.dim()
    }

    /// The multiset of (coordinate, payload) points stored.
    pub open spec fn pts(self) -> Multiset<(Seq<int>, D::PointData)> {
        self.root.pts()
    }

    /// The root box.
    pub open spec fn spec_bounds(self) -> Seq<Bound> {
        self.root->Region_bounds@
    }

    /// Well-formedness: a valid configuration and a well-formed root whose
    /// point count matches `num`.
    pub open spec fn wf(self) -> bool {
        &&& self.root is Region
        &&& self.root.wf(self.dim(), self.leaf_max_children as int, self.min_dist as int)
        &&& 1 <= self.dim() <= MAX_DIM
        &&& 1 <= self.leaf_max_children
        &&& (self.leaf_max_children as int) < pow2(self.dim() as nat)
        &&& self.min_dist >= 1
        &&& self.num == self.pts().len()
    }

    /// An empty tree over the box `bounds`.
    ///
    /// The configuration must be valid: at least one axis and at most
    /// [`MAX_DIM`], ordered bounds within the coordinate limit, a leaf
    /// capacity of at least one point but fewer than the `2^dim` child
    /// slots, and a positive minimum split width.
    pub fn new(bounds: Vec<Bound>, min_dist: i64, leaf_max_children: u32) -> (r: Self)
        requires
            1 <= bounds@.len() <= MAX_DIM,
            bounds_wf(bounds@),
            1 <= leaf_max_children,
            (leaf_max_children as int) < pow2(bounds@.len()),
            min_dist >= 1,
        ensures
            r.wf(),
            r.dim() == bounds@.len(),
            r.spec_bounds() == bounds@,
            r.pts() =~= Multiset::<(Seq<int>, D::PointData)>::empty(),
            r.num == 0,
            r.root is Region,
            r.root->Region_children@.len() == 0,
            r.min_dist == min_dist,
            r.leaf_max_children == leaf_max_children,
    {
        let root = Node::new_region(bounds);
        proof {
            root.lemma_empty_region_wf(
                bounds@.len() as int,
                leaf_max_children as int,
                min_dist as int,
            );
        }
        GenericTree { root, num: 0, min_dist, leaf_max_children }
    }

    /// Insert a prepared point node.  Fails with `OutOfBounds`, changing
    /// nothing, exactly when the coordinate is outside the root box; on
    /// success the point is added and `num` grows by one.
    pub fn add_node(&mut self, node: Node<D>) -> (r: Result<(), TreeError>)
        requires
            old(self).wf(),
            node is Point,
            node->Point_coord@.len() == old(self).dim(),
            coord_in_limits(coord_view(node->Point_coord@)),
            old(self).num < u32::MAX,
        ensures
            final(self).wf(),
            final(self).dim() == old(self).dim(),
            final(self).spec_bounds() == old(self).spec_bounds(),
            r is Ok <==> contains_closed(old(self).spec_bounds(), coord_view(node->Point_coord@)),
            r is Ok ==> final(self).pts() =~= old(self).pts().insert(node.entry())
                && final(self).num == old(self).num + 1,
            r is Err ==> *final(self) == *old(self),
    {
        let ghost pt = node;
        if !self.root.contains(node.coord()) {
            return Err(TreeError::OutOfBounds);
        }
        self.root.insert_point(node, self.leaf_max_children, self.min_dist);
        self.num = self.num + 1;
        proof {
            assert(pt.pts() =~= Multiset::empty().insert(pt.entry()));
            assert(self.pts() =~= old(self).pts().insert(pt.entry()));
        }
        Ok(())
    }

    /// Insert a point with its payload.  Fails with `OutOfBounds`, changing
    /// nothing, exactly when the coordinate is outside the root box.
    pub fn add(&mut self, point: Vec<i64>, data: D::PointData) -> (r: Result<(), TreeError>)
        requires
            old(self).wf(),
            point@.len() == old(self).dim(),
            coord_in_limits(coord_view(point@)),
            old(self).num < u32::MAX,
        ensures
            final(self).wf(),
            final(self).dim() == old(self).dim(),
            final(self).spec_bounds() == old(self).spec_bounds(),
            r is Ok <==> contains_closed(old(self).spec_bounds(), coord_view(point@)),
            r is Ok ==> final(self).pts() =~= old(self).pts().insert((coord_view(point@), data))
                && final(self).num == old(self).num + 1,
            r is Err ==> *final(self) == *old(self),
    {
        self.add_node(Node::new_point(point, data))
    }

    /// The tight root box of a set of point nodes: on each axis, from the
    /// smallest to the largest coordinate that occurs.
    #[verifier::loop_isolation(false)]
    fn bounds_of_nodes(nodes: &Vec<Node<D>>) -> (r: Vec<Bound>)
        requires
            nodes@.len() >= 1,
            forall|m: int| 0 <= m < nodes@.len() ==> (#[trigger] nodes@[m]) is Point,
            forall|m: int|
                0 <= m < nodes@.len() ==> (#[trigger] nodes@[m])->Point_coord@.len() == nodes@[0]->Point_coord@.len(),
            forall|m: int|
                0 <= m < nodes@.len() ==> coord_in_limits(
                    coord_view((#[trigger] nodes@[m])->Point_coord@),
                ),
        ensures
            r@.len() == nodes@[0]->Point_coord@.len(),
            bounds_wf(r@),
            forall|m: int|
                0 <= m < nodes@.len() ==> contains_closed(
                    r@,
                    coord_view((#[trigger] nodes@[m])->Point_coord@),
                ),
            forall|j: int|
                0 <= j < r@.len() ==> exists|m: int|
                    0 <= m < nodes@.len() && (#[trigger] r@[j]).min == nodes@[m]->Point_coord@[j],
            forall|j: int|
                0 <= j < r@.len() ==> exists|m: int|
                    0 <= m < nodes@.len() && (#[trigger] r@[j]).max == nodes@[m]->Point_coord@[j],
    {
        let dim = nodes[0].coord().len();
        let mut bounds: Vec<Bound> = Vec::new();
        let mut j: usize = 0;
        while j < dim
            invariant
                0 <= j <= dim,
                bounds@.len() == j,
                forall|i: int| 0 <= i < j ==> (#[trigger] bounds@[i]).wf(),
                forall|i: int, m: int|
                    0 <= i < j && 0 <= m < nodes@.len() ==> (#[trigger] bounds@[i]).min <= (
                    #[trigger] nodes@[m])->Point_coord@[i] && nodes@[m]->Point_coord@[i]
                        <= bounds@[i].max,
                forall|i: int|
                    0 <= i < j ==> exists|m: int|
                        0 <= m < nodes@.len() && (#[trigger] bounds@[i]).min == nodes@[m]->Point_coord@[i],
                forall|i: int|
                    0 <= i < j ==> exists|m: int|
                        0 <= m < nodes@.len() && (#[trigger] bounds@[i]).max == nodes@[m]->Point_coord@[i],
            decreases dim - j,
        {
            let mut lo: i64 = nodes[0].coord()[j];
            let mut hi: i64 = lo;
            let mut m: usize = 1;
            proof {
                assert(coord_view(nodes@[0]->Point_coord@)[j as int] == nodes@[0]->Point_coord@[j as int] as int);
            }
            while m < nodes.len()
                invariant
                    1 <= m <= nodes@.len(),
                    0 <= j < dim,
                    -COORD_LIMIT <= lo <= hi <= COORD_LIMIT,
                    forall|i: int|
                        0 <= i < m ==> lo <= (#[trigger] nodes@[i])->Point_coord@[j as int] && nodes@[i]->Point_coord@[j as int] <= hi,
                    exists|i: int|
                        0 <= i < m && lo == (#[trigger] nodes@[i])->Point_coord@[j as int],
                    exists|i: int|
                        0 <= i < m && hi == (#[trigger] nodes@[i])->Point_coord@[j as int],
                decreases nodes@.len() - m,
            {
                let c = nodes[m].coord()[j];
                proof {
                    assert(coord_view(nodes@[m as int]->Point_coord@)[j as int] == nodes@[m as int]->Point_coord@[j as int] as int);
                }
                if c < lo {
                    lo = c;
                }
                if c > hi {
                    hi = c;
                }
                m = m + 1;
            }
            bounds.push(Bound { min: lo, max: hi });
            j = j + 1;
        }
        proof {
            assert forall|m: int| 0 <= m < nodes@.len() implies contains_closed(
                bounds@,
                coord_view((#[trigger] nodes@[m])->Point_coord@),
            ) by {
                assert forall|i: int| 0 <= i < bounds@.len() implies (#[trigger] bounds@[i]).min
                    <= coord_view(nodes@[m]->Point_coord@)[i] <= bounds@[i].max by {
                    assert(coord_view(nodes@[m]->Point_coord@)[i] == nodes@[m]->Point_coord@[i] as int);
                }
            }
        }
        bounds
    }

    /// Build a tree holding exactly the given point nodes, over the tight
    /// box of their coordinates.
    pub fn from_nodes(nodes: Vec<Node<D>>, min_dist: i64, leaf_max_children: u32) -> (r: Self)
        requires
            1 <= nodes@.len() <= u32::MAX,
            forall|m: int| 0 <= m < nodes@.len() ==> (#[trigger] nodes@[m]) is Point,
            forall|m: int|
                0 <= m < nodes@.len() ==> (#[trigger] nodes@[m])->Point_coord@.len() == nodes@[0]->Point_coord@.len(),
            forall|m: int|
                0 <= m < nodes@.len() ==> coord_in_limits(
                    coord_view((#[trigger] nodes@[m])->Point_coord@),
                ),
            1 <= nodes@[0]->Point_coord@.len() <= MAX_DIM,
            1 <= leaf_max_children,
            (leaf_max_children as int) < pow2(nodes@[0]->Point_coord@.len()),
            min_dist >= 1,
        ensures
            r.wf(),
            r.dim() == nodes@[0]->Point_coord@.len(),
            r.pts() == Node::<D>::pts_of(nodes@),
            r.num == nodes@.len(),
            r.min_dist == min_dist,
            r.leaf_max_children == leaf_max_children,
            forall|m: int|
                0 <= m < nodes@.len() ==> contains_closed(
                    r.spec_bounds(),
                    coord_view((#[trigger] nodes@[m])->Point_coord@),
                ),
            forall|j: int|
                0 <= j < r.dim() ==> exists|m: int|
                    0 <= m < nodes@.len() && (#[trigger] r.spec_bounds()[j]).min == nodes@[m]->Point_coord@[j],
            forall|j: int|
                0 <= j < r.dim() ==> exists|m: int|
                    0 <= m < nodes@.len() && (#[trigger] r.spec_bounds()[j]).max == nodes@[m]->Point_coord@[j],
    {
        let bounds = Self::bounds_of_nodes(&nodes);
        let num = nodes.len() as u32;
        proof {
            Node::<D>::lemma_pts_of_points_len(nodes@);
        }
        let root = Node::<D>::build_region(bounds, nodes, leaf_max_children, min_dist);
        GenericTree { root, num, min_dist, leaf_max_children }
    }

    /// Build two subtrees, possibly in parallel.
    ///
    /// Relies on rayon::join: it runs the two closures, the second possibly
    /// on another worker thread, and returns both results; each closure
    /// here only calls the verified sequential builder.
    #[verifier::external_body]
    fn par_build_pair(
        b1: Vec<Bound>,
        n1: Vec<Node<D>>,
        b2: Vec<Bound>,
        n2: Vec<Node<D>>,
        max_num: u32,
        min_dist: i64,
    ) -> (r: (Node<D>, Node<D>)) where D::PointData: Send, D::RegionData: Send
        requires
            bounds_wf(b1@),
            1 <= b1@.len() <= MAX_DIM,
            forall|m: int|
                0 <= m < n1@.len() ==> {
                    &&& (#[trigger] n1@[m]) is Point
                    &&& n1@[m].wf(b1@.len() as int, max_num as int, min_dist as int)
                    &&& contains_closed(b1@, coord_view(n1@[m]->Point_coord@))
                },
            bounds_wf(b2@),
            b2@.len() == b1@.len(),
            forall|m: int|
                0 <= m < n2@.len() ==> {
                    &&& (#[trigger] n2@[m]) is Point
                    &&& n2@[m].wf(b2@.len() as int, max_num as int, min_dist as int)
                    &&& contains_closed(b2@, coord_view(n2@[m]->Point_coord@))
                },
            1 <= max_num,
            min_dist >= 1,
        ensures
            Node::<D>::built_ok(b1@, Node::<D>::pts_of(n1@), max_num as int, min_dist as int, r.0),
            Node::<D>::built_ok(b2@, Node::<D>::pts_of(n2@), max_num as int, min_dist as int, r.1),
    {
        rayon::join(
            move || Node::<D>::build_region(b1, n1, max_num, min_dist),
            move || Node::<D>::build_region(b2, n2, max_num, min_dist),
        )
    }

    /// Build a tree holding exactly the given point nodes, handing the
    /// `2^dim` top-level subtrees to worker threads in pairs; deeper levels
    /// run serially.  The result satisfies the same contract as
    /// [`GenericTree::from_nodes`].
    #[verifier::loop_isolation(false)]
    pub fn new_in_par(nodes: Vec<Node<D>>, min_dist: i64, leaf_max_children: u32) -> (r:
        Self) where D::PointData: Send, D::RegionData: Send
        requires
            1 <= nodes@.len() <= u32::MAX,
            forall|m: int| 0 <= m < nodes@.len() ==> (#[trigger] nodes@[m]) is Point,
            forall|m: int|
                0 <= m < nodes@.len() ==> (#[trigger] nodes@[m])->Point_coord@.len() == nodes@[0]->Point_coord@.len(),
            forall|m: int|
                0 <= m < nodes@.len() ==> coord_in_limits(
                    coord_view((#[trigger] nodes@[m])->Point_coord@),
                ),
            1 <= nodes@[0]->Point_coord@.len() <= MAX_DIM,
            1 <= leaf_max_children,
            (leaf_max_children as int) < pow2(nodes@[0]->Point_coord@.len()),
            min_dist >= 1,
        ensures
            r.wf(),
            r.dim() == nodes@[0]->Point_coord@.len(),
            r.pts() == Node::<D>::pts_of(nodes@),
            r.num == nodes@.len(),
            r.min_dist == min_dist,
            r.leaf_max_children == leaf_max_children,
            forall|m: int|
                0 <= m < nodes@.len() ==> contains_closed(
                    r.spec_bounds(),
                    coord_view((#[trigger] nodes@[m])->Point_coord@),
                ),
            forall|j: int|
                0 <= j < r.dim() ==> exists|m: int|
                    0 <= m < nodes@.len() && (#[trigger] r.spec_bounds()[j]).min == nodes@[m]->Point_coord@[j],
            forall|j: int|
                0 <= j < r.dim() ==> exists|m: int|
                    0 <= m < nodes@.len() && (#[trigger] r.spec_bounds()[j]).max == nodes@[m]->Point_coord@[j],
    {
        let ghost dim = nodes@[0]->Point_coord@.len() as int;
        let ghost cap = leaf_max_children as int;
        let ghost md = min_dist as int;
        let ghost total = Node::<D>::pts_of(nodes@);
        let bounds = Self::bounds_of_nodes(&nodes);
        let num = nodes.len() as u32;
        proof {
            Node::<D>::lemma_pts_of_points_len(nodes@);
            crate::node::lemma_max_width_le(bounds@, bounds@.len() as int, 2 * COORD_LIMIT as int);
        }
        proof {
            assert forall|m: int| 0 <= m < nodes@.len() implies (#[trigger] nodes@[m]).wf(
                dim,
                cap,
                md,
            ) by {}
        }
        let fits = nodes.len() <= leaf_max_children as usize;
        let w = max_width_vec(&bounds);
        if fits || w <= min_dist {
            let root = Node::Region { bounds, children: nodes, data: None };
            proof {
                assert(root.wf(dim, cap, md));
            }
            return GenericTree { root, num, min_dist, leaf_max_children };
        }
        let nb = crate::two_power(bounds.len());
        proof {
            vstd::arithmetic::power2::lemma_pow2_pos(dim as nat);
            assert(nb == 2 * pow2((dim - 1) as nat)) by {
                vstd::arithmetic::power2::lemma_pow2_unfold(dim as nat);
            }
            vstd::arithmetic::power2::lemma_pow2_pos((dim - 1) as nat);
        }
        let mut rest = nodes;
        let mut children: Vec<Node<D>> = Vec::new();
        proof {
            assert(Node::<D>::pts_of(children@) =~= Multiset::empty());
            assert forall|m: int| 0 <= m < rest@.len() implies slot_of(
                bounds@,
                coord_view((#[trigger] rest@[m])->Point_coord@),
            ) >= 0 by {
                crate::node::lemma_slot_upto_range(
                    bounds@,
                    coord_view(rest@[m]->Point_coord@),
                    bounds@.len() as int,
                );
            }
        }
        let mut k: usize = 0;
        while k < nb
            invariant
                0 <= k <= nb,
                k % 2 == 0,
                nb == pow2(dim as nat),
                nb == 2 * pow2((dim - 1) as nat),
                children@.len() == k,
                forall|i: int|
                    0 <= i < k ==> {
                        &&& (#[trigger] children@[i]) is Region
                        &&& children@[i]->Region_bounds@ == sub_bounds(bounds@, i)
                        &&& children@[i].wf(dim, cap, md)
                    },
                forall|i: int, e: (Seq<int>, D::PointData)|
                    0 <= i < k && (#[trigger] children@[i].pts().count(e)) > 0 ==> in_slot(
                        bounds@,
                        i,
                        e.0,
                    ),
                Node::<D>::pts_of(children@).add(Node::<D>::pts_of(rest@)) =~= total,
                forall|m: int|
                    0 <= m < rest@.len() ==> {
                        &&& (#[trigger] rest@[m]) is Point
                        &&& rest@[m].wf(dim, cap, md)
                        &&& contains_closed(bounds@, coord_view(rest@[m]->Point_coord@))
                        &&& slot_of(bounds@, coord_view(rest@[m]->Point_coord@)) >= k
                    },
            decreases nb - k,
        {
            proof {
                assert(k + 1 < nb) by {
                    vstd::arithmetic::div_mod::lemma_fundamental_div_mod(k as int, 2);
                    vstd::arithmetic::div_mod::lemma_fundamental_div_mod(nb as int, 2);
                }
            }
            let mut mine1: Vec<Node<D>> = Vec::new();
            let mut mine2: Vec<Node<D>> = Vec::new();
            let mut others: Vec<Node<D>> = Vec::new();
            let ghost rest0 = Node::<D>::pts_of(rest@);
            proof {
                assert(Node::<D>::pts_of(mine1@) =~= Multiset::empty());
                assert(Node::<D>::pts_of(mine2@) =~= Multiset::empty());
                assert(Node::<D>::pts_of(others@) =~= Multiset::empty());
            }
            while rest.len() > 0
                invariant
                    forall|m: int|
                        0 <= m < rest@.len() ==> {
                            &&& (#[trigger] rest@[m]) is Point
                            &&& rest@[m].wf(dim, cap, md)
                            &&& contains_closed(bounds@, coord_view(rest@[m]->Point_coord@))
                            &&& slot_of(bounds@, coord_view(rest@[m]->Point_coord@)) >= k
                        },
                    forall|m: int|
                        0 <= m < mine1@.len() ==> {
                            &&& (#[trigger] mine1@[m]) is Point
                            &&& mine1@[m].wf(dim, cap, md)
                            &&& in_slot(bounds@, k as int, coord_view(mine1@[m]->Point_coord@))
                        },
                    forall|m: int|
                        0 <= m < mine2@.len() ==> {
                            &&& (#[trigger] mine2@[m]) is Point
                            &&& mine2@[m].wf(dim, cap, md)
                            &&& in_slot(bounds@, k as int + 1, coord_view(mine2@[m]->Point_coord@))
                        },
                    forall|m: int|
                        0 <= m < others@.len() ==> {
                            &&& (#[trigger] others@[m]) is Point
                            &&& others@[m].wf(dim, cap, md)
                            &&& contains_closed(bounds@, coord_view(others@[m]->Point_coord@))
                            &&& slot_of(bounds@, coord_view(others@[m]->Point_coord@)) >= k + 2
                        },
                    Node::<D>::pts_of(rest@).add(Node::<D>::pts_of(mine1@)).add(
                        Node::<D>::pts_of(mine2@),
                    ).add(Node::<D>::pts_of(others@)) =~= rest0,
                decreases rest@.len(),
            {
                proof {
                    Node::<D>::lemma_pts_of_drop_last(rest@);
                }
                let p = rest.pop().unwrap();
                let idx = Node::<D>::get_child_region_index(p.coord(), &bounds);
                if idx == k {
                    proof {
                        Node::<D>::lemma_pts_of_push(mine1@, p);
                    }
                    mine1.push(p);
                } else if idx == k + 1 {
                    proof {
                        Node::<D>::lemma_pts_of_push(mine2@, p);
                    }
                    mine2.push(p);
                } else {
                    proof {
                        Node::<D>::lemma_pts_of_push(others@, p);
                    }
                    others.push(p);
                }
            }
            rest = others;
            proof {
                lemma_sub_bounds_wf(bounds@, k as int);
                lemma_sub_bounds_wf(bounds@, k as int + 1);
                assert forall|m: int| 0 <= m < mine1@.len() implies contains_closed(
                    sub_bounds(bounds@, k as int),
                    coord_view((#[trigger] mine1@[m])->Point_coord@),
                ) by {
                    lemma_in_slot_sub_bounds(bounds@, coord_view(mine1@[m]->Point_coord@));
                }
                assert forall|m: int| 0 <= m < mine2@.len() implies contains_closed(
                    sub_bounds(bounds@, k as int + 1),
                    coord_view((#[trigger] mine2@[m])->Point_coord@),
                ) by {
                    lemma_in_slot_sub_bounds(bounds@, coord_view(mine2@[m]->Point_coord@));
                }
            }
            let sb1 = crate::node::sub_bounds_vec(&bounds, k);
            let sb2 = crate::node::sub_bounds_vec(&bounds, k + 1);
            let ghost mine1_seq = mine1@;
            let ghost mine2_seq = mine2@;
            let (c1, c2) = Self::par_build_pair(sb1, mine1, sb2, mine2, leaf_max_children, min_dist);
            proof {
                Node::<D>::lemma_pts_of_push(children@, c1);
                Node::<D>::lemma_pts_of_push(children@.push(c1), c2);
                assert forall|e: (Seq<int>, D::PointData)| #[trigger] c1.pts().count(e)
                    > 0 implies in_slot(bounds@, k as int, e.0) by {
                    let m = Node::<D>::lemma_pts_of_source(mine1_seq, e);
                    assert(mine1_seq[m].pts() =~= Multiset::empty().insert(mine1_seq[m].entry()));
                    assert(e == mine1_seq[m].entry());
                }
                assert forall|e: (Seq<int>, D::PointData)| #[trigger] c2.pts().count(e)
                    > 0 implies in_slot(bounds@, k as int + 1, e.0) by {
                    let m = Node::<D>::lemma_pts_of_source(mine2_seq, e);
                    assert(mine2_seq[m].pts() =~= Multiset::empty().insert(mine2_seq[m].entry()));
                    assert(e == mine2_seq[m].entry());
                }
            }
            children.push(c1);
            children.push(c2);
            k = k + 2;
        }
        proof {
            if rest@.len() > 0 {
                lemma_in_slot_sub_bounds(bounds@, coord_view(rest@[0]->Point_coord@));
            }
            assert(rest@.len() == 0);
            assert(Node::<D>::pts_of(rest@) =~= Multiset::empty());
        }
        let root = Node::Region { bounds, children, data: None };
        proof {
            assert(!root.spec_is_leaf());
            assert(root.wf(dim, cap, md));
            assert(root.pts() =~= total);
        }
        GenericTree { root, num, min_dist, leaf_max_children }
    }

    /// The point closest to `point`, among those strictly closer than
    /// `max_dist`; `None` when no stored point is that close.
    ///
    /// The returned node is a stored point whose distance to the query is
    /// (a) strictly below `max_dist` and (b) no greater than the distance
    /// of any stored point, compared as squared distances.
    pub fn find_closest_with_max_dist(&self, point: &Vec<i64>, max_dist: i64) -> (r: Option<
        &Node<D>,
    >)
        requires
            self.wf(),
            point@.len() == self.dim(),
            coord_in_limits(coord_view(point@)),
            max_dist >= 0,
        ensures
            match r {
                Some(n) => {
                    &&& *n is Point
                    &&& self.pts().count(n.entry()) > 0
                    &&& dist2(coord_view(point@), n.entry().0) < (max_dist as int) * (
                    max_dist as int)
                    &&& forall|e: (Seq<int>, D::PointData)|
                        self.pts().count(e) > 0 ==> dist2(coord_view(point@), n.entry().0)
                            <= dist2(coord_view(point@), #[trigger] e.0)
                },
                None => forall|e: (Seq<int>, D::PointData)|
                    self.pts().count(e) > 0 ==> dist2(coord_view(point@), #[trigger] e.0) >= (
                    max_dist as int) * (max_dist as int),
            },
    {
        proof {
            crate::fixed::lemma_i64_product_bounds(max_dist as int, max_dist as int);
        }
        let bound2: i128 = (max_dist as i128) * (max_dist as i128);
        proof {
            assert(bound2 >= 0) by (nonlinear_arith)
                requires
                    bound2 == (max_dist as int) * (max_dist as int),
                    max_dist >= 0,
            ;
        }
        let (d, r) = self.root.search_closest(
            point,
            bound2,
            None,
            Ghost(self.dim()),
            Ghost(self.leaf_max_children as int),
            Ghost(self.min_dist as int),
        );
        r
    }

    /// Walk the tree and verify the structural invariants at run time.
    pub fn check(&self) -> (r: Result<(), ()>)
        ensures
            r is Ok <==> self.root.check_spec(),
    {
        self.root.check()
    }

    /// A well-formed tree satisfies, at every region: the leaf invariant
    /// (a leaf holds only contained points, within capacity unless its box
    /// is too narrow to split; a non-leaf holds the `2^dim` sub-boxes,
    /// which partition it slot by slot), the containment closure (every
    /// ancestor of a stored point contains it), and the child-indexing
    /// property (a point below child `k` has slot index `k`).
    pub proof fn lemma_invariants(self)
        requires
            self.wf(),
        ensures
            self.root.tree_invariants(
                self.dim(),
                self.leaf_max_children as int,
                self.min_dist as int,
            ),
    {
        self.root.lemma_tree_invariants(
            self.dim(),
            self.leaf_max_children as int,
            self.min_dist as int,
        );
    }

    /// The point closest to `point`; `None` only when the tree is empty.
    pub fn find_closest(&self, point: &Vec<i64>) -> (r: Option<&Node<D>>)
        requires
            self.wf(),
            point@.len() == self.dim(),
            coord_in_limits(coord_view(point@)),
        ensures
            match r {
                Some(n) => {
                    &&& *n is Point
                    &&& self.pts().count(n.entry()) > 0
                    &&& forall|e: (Seq<int>, D::PointData)|
                        self.pts().count(e) > 0 ==> dist2(coord_view(point@), n.entry().0)
                            <= dist2(coord_view(point@), #[trigger] e.0)
                },
                None => self.pts().len() == 0,
            },
    {
        let r = self.find_closest_with_max_dist(point, i64::MAX);
        proof {
            if r is None && self.pts().len() > 0 {
                let e = self.pts().choose();
                assert(self.pts().count(e) > 0);
                self.root.lemma_pts_entry_wf(
                    self.dim(),
                    self.leaf_max_children as int,
                    self.min_dist as int,
                    e,
                );
                lemma_dist2_bound(coord_view(point@), e.0, self.dim());
                assert((i64::MAX as int) * (i64::MAX as int) > 8 * 4 * (COORD_LIMIT as int) * (
                COORD_LIMIT as int));
                assert(false);
            }
        }
        r
    }
}

} // verus!
