//! Tree nodes: a tagged variant holding either a point or a region.
//!
//! A region of dimension `n` subdivides its box into `2^n` child slots.
//! The slot index of a coordinate sets bit `j` exactly when the coordinate
//! exceeds the box middle on axis `j`; points exactly on a middle go to the
//! lower slot.

use vstd::prelude::*;
use vstd::multiset::Multiset;
use vstd::arithmetic::power2::pow2;
use crate::bound::{
    Bound, contains_closed, coord_view, coord_in_limits, dist2, dist2_upto, box_dist2,
    box_dist2_upto, axis_gap,
};
use crate::fixed::{COORD_LIMIT, MAX_DIM};
use crate::tree_data::TreeData;

verus! {

broadcast use vstd::std_specs::vec::group_vec_axioms, vstd::seq::group_seq_axioms, vstd::multiset::group_multiset_axioms;

/// A tree node: a point with a payload, or a region with a box, child
/// nodes, and an optional region payload (filled by aggregation passes).
#[verifier::reject_recursive_types(D)]
#[allow(inconsistent_fields)]
pub enum Node<D: TreeData> {
    Point { coord: Vec<i64>, data: D::PointData },
    Region { bounds: Vec<Bound>, children: Vec<Node<D>>, data: Option<D::RegionData> },
}

/// Bit `j` of slot index `k`.
pub open spec fn bit_set(k: int, j: int) -> bool {
    (k / pow2(j as nat) as int) % 2 == 1
}

/// Slot index of coordinate `c` in box `bounds`, over the first `n` axes:
/// bit `j` is set exactly when `c[j]` exceeds the middle of axis `j`.
pub open spec fn slot_upto(bounds: Seq<Bound>, c: Seq<int>, n: int) -> int
    decreases n,
{
    if n <= 0 {
        0
    } else {
        slot_upto(bounds, c, n - 1) + if c[n - 1] > bounds[n - 1].spec_middle() {
            pow2((n - 1) as nat) as int
        } else {
            0
        }
    }
}

/// Slot index of coordinate `c` in box `bounds`.
pub open spec fn slot_of(bounds: Seq<Bound>, c: Seq<int>) -> int
    recommends
        c.len() == bounds.len(),
{
    slot_upto(bounds, c, bounds.len() as int)
}

/// A coordinate lies in slot `k` of box `bounds`: it is inside the box and
/// its slot index is `k`.
pub open spec fn in_slot(bounds: Seq<Bound>, k: int, c: Seq<int>) -> bool {
    &&& contains_closed(bounds, c)
    &&& slot_of(bounds, c) == k
}

/// The box of child slot `k`: on each axis the lower or the upper half,
/// by bit `j` of `k`.
pub open spec fn sub_bound_at(b: Bound, upper: bool) -> Bound {
    if upper {
        Bound { min: b.spec_middle() as i64, max: b.max }
    } else {
        Bound { min: b.min, max: b.spec_middle() as i64 }
    }
}

pub open spec fn sub_bounds(bounds: Seq<Bound>, k: int) -> Seq<Bound> {
    Seq::new(bounds.len(), |j: int| sub_bound_at(bounds[j], bit_set(k, j)))
}

/// Largest axis width of a box over the first `n` axes.
pub open spec fn max_width_upto(bounds: Seq<Bound>, n: int) -> int
    decreases n,
{
    if n <= 0 {
        0
    } else {
        let w = bounds[n - 1].max - bounds[n - 1].min;
        let m = max_width_upto(bounds, n - 1);
        if w > m {
            w
        } else {
            m
        }
    }
}

pub open spec fn max_width(bounds: Seq<Bound>) -> int {
    max_width_upto(bounds, bounds.len() as int)
}

/// All bounds of a box are well formed.
pub open spec fn bounds_wf(bounds: Seq<Bound>) -> bool {
    forall|j: int| 0 <= j < bounds.len() ==> (#[trigger] bounds[j]).wf()
}

/// The box of child slot `k` of a box, axis by axis.
#[verifier::loop_isolation(false)]
pub fn sub_bounds_vec(bounds: &Vec<Bound>, k: usize) -> (r: Vec<Bound>)
    requires
        bounds_wf(bounds@),
        bounds@.len() <= MAX_DIM,
    ensures
        r@ == sub_bounds(bounds@, k as int),
{
    let mut sub: Vec<Bound> = Vec::new();
    let mut j: usize = 0;
    while j < bounds.len()
        invariant
            0 <= j <= bounds@.len(),
            sub@.len() == j,
            forall|i: int| 0 <= i < j ==> sub@[i] == sub_bounds(bounds@, k as int)[i],
        decreases bounds@.len() - j,
    {
        let p = crate::two_power(j);
        proof {
            vstd::arithmetic::power2::lemma_pow2_pos(j as nat);
            lemma_mid_in_range(bounds@[j as int]);
        }
        let upper: bool = (k / p) % 2 == 1;
        proof {
            assert(upper == bit_set(k as int, j as int));
        }
        let b = bounds[j];
        if upper {
            sub.push(Bound { min: b.middle(), max: b.max });
        } else {
            sub.push(Bound { min: b.min, max: b.middle() });
        }
        j = j + 1;
    }
    proof {
        assert(sub@ =~= sub_bounds(bounds@, k as int));
    }
    sub
}

/// The largest axis width of a box.
#[verifier::loop_isolation(false)]
pub fn max_width_vec(bounds: &Vec<Bound>) -> (r: i64)
    requires
        bounds_wf(bounds@),
    ensures
        r == max_width(bounds@),
        r >= 0,
{
    let mut m: i64 = 0;
    let mut i: usize = 0;
    while i < bounds.len()
        invariant
            0 <= i <= bounds@.len(),
            m == max_width_upto(bounds@, i as int),
            0 <= m <= 2 * COORD_LIMIT,
        decreases bounds@.len() - i,
    {
        let w = bounds[i].width();
        if w > m {
            m = w;
        }
        i = i + 1;
    }
    m
}

/// The middle of a well-formed bound lies inside it, and both halves are
/// well formed.
pub proof fn lemma_mid_in_range(b: Bound)
    requires
        b.wf(),
    ensures
        b.min <= b.spec_middle() <= b.max,
        sub_bound_at(b, false).wf(),
        sub_bound_at(b, true).wf(),
        sub_bound_at(b, false).min == b.min,
        sub_bound_at(b, true).max == b.max,
        sub_bound_at(b, false).max as int == b.spec_middle(),
        sub_bound_at(b, true).min as int == b.spec_middle(),
{
    let w = b.max - b.min;
    vstd::arithmetic::div_mod::lemma_fundamental_div_mod(w, 2);
}

/// The slot index over `n` axes is a number of `n` bits.
pub proof fn lemma_slot_upto_range(bounds: Seq<Bound>, c: Seq<int>, n: int)
    requires
        n >= 0,
    ensures
        0 <= slot_upto(bounds, c, n) < pow2(n as nat),
    decreases n,
{
    vstd::arithmetic::power2::lemma_pow2_pos(n as nat);
    if n == 0 {
        assert(pow2(0) == 1) by {
            vstd::arithmetic::power2::lemma2_to64();
        }
    } else {
        lemma_slot_upto_range(bounds, c, n - 1);
        assert(pow2(n as nat) == 2 * pow2((n - 1) as nat)) by {
            vstd::arithmetic::power2::lemma_pow2_unfold(n as nat);
        }
    }
}

/// Bit `j` of the slot index is set exactly when the coordinate exceeds
/// the middle on axis `j`.
pub proof fn lemma_slot_upto_bit(bounds: Seq<Bound>, c: Seq<int>, n: int, j: int)
    requires
        0 <= j < n,
    ensures
        bit_set(slot_upto(bounds, c, n), j) == (c[j] > bounds[j].spec_middle()),
    decreases n,
{
    let p = pow2(j as nat) as int;
    vstd::arithmetic::power2::lemma_pow2_pos(j as nat);
    let s = slot_upto(bounds, c, n - 1);
    let cond = c[n - 1] > bounds[n - 1].spec_middle();
    let full = slot_upto(bounds, c, n);
    if j == n - 1 {
        lemma_slot_upto_range(bounds, c, n - 1);
        if cond {
            assert(full == 1 * p + s);
            vstd::arithmetic::div_mod::lemma_fundamental_div_mod_converse(full, p, 1, s);
        } else {
            assert(full == 0 * p + s);
            vstd::arithmetic::div_mod::lemma_fundamental_div_mod_converse(full, p, 0, s);
        }
    } else {
        lemma_slot_upto_bit(bounds, c, n - 1, j);
        vstd::arithmetic::power2::lemma_pow2_unfold((n - 1 - j) as nat);
        let h = if cond {
            pow2((n - 2 - j) as nat) as int
        } else {
            0
        };
        let t = 2 * h;
        assert(t * p == if cond {
            pow2((n - 1) as nat) as int
        } else {
            0int
        }) by {
            if cond {
                vstd::arithmetic::power2::lemma_pow2_adds((n - 1 - j) as nat, j as nat);
                assert(t == pow2((n - 1 - j) as nat) as int);
                assert(t * p == (pow2((n - 1 - j) as nat) as int) * (pow2(j as nat) as int));
            }
        }
        assert(full == s + t * p);
        vstd::arithmetic::div_mod::lemma_hoist_over_denominator(s, t, p as nat);
        assert(full / p == s / p + t);
        assert((2 * h + s / p) % 2 == (s / p) % 2) by {
            vstd::arithmetic::div_mod::lemma_mod_multiples_vanish(h, s / p, 2);
        }
        assert(bit_set(full, j) == bit_set(s, j));
    }
}

/// A coordinate inside a box is inside the sub-box of its slot, and that
/// sub-box is well formed.
pub proof fn lemma_in_slot_sub_bounds(bounds: Seq<Bound>, c: Seq<int>)
    requires
        bounds_wf(bounds),
        contains_closed(bounds, c),
    ensures
        0 <= slot_of(bounds, c) < pow2(bounds.len()),
        contains_closed(sub_bounds(bounds, slot_of(bounds, c)), c),
{
    let k = slot_of(bounds, c);
    let n = bounds.len() as int;
    lemma_slot_upto_range(bounds, c, n);
    let sub = sub_bounds(bounds, k);
    assert forall|j: int| 0 <= j < n implies (#[trigger] sub[j]).min <= c[j] <= sub[j].max by {
        lemma_slot_upto_bit(bounds, c, n, j);
        lemma_mid_in_range(bounds[j]);
    }
}

/// Sub-boxes of a well-formed box are well formed.
pub proof fn lemma_sub_bounds_wf(bounds: Seq<Bound>, k: int)
    requires
        bounds_wf(bounds),
    ensures
        bounds_wf(sub_bounds(bounds, k)),
        sub_bounds(bounds, k).len() == bounds.len(),
{
    let sub = sub_bounds(bounds, k);
    assert forall|j: int| 0 <= j < sub.len() implies (#[trigger] sub[j]).wf() by {
        lemma_mid_in_range(bounds[j]);
    }
}

/// Each axis width is at most the largest width.
pub proof fn lemma_max_width_ge(bounds: Seq<Bound>, n: int, j: int)
    requires
        0 <= j < n <= bounds.len(),
    ensures
        bounds[j].max - bounds[j].min <= max_width_upto(bounds, n),
    decreases n,
{
    if j < n - 1 {
        lemma_max_width_ge(bounds, n - 1, j);
    }
}

/// The largest width is nonnegative, and bounded by any bound on the axis
/// widths.
pub proof fn lemma_max_width_le(bounds: Seq<Bound>, n: int, x: int)
    requires
        0 <= n <= bounds.len(),
        x >= 0,
        forall|j: int| 0 <= j < n ==> (#[trigger] bounds[j]).max - bounds[j].min <= x,
    ensures
        0 <= max_width_upto(bounds, n) <= x,
    decreases n,
{
    if n > 0 {
        lemma_max_width_le(bounds, n - 1, x);
    }
}

/// Splitting a box of largest width at least 2 strictly shrinks the
/// largest width of every sub-box.
pub proof fn lemma_sub_bounds_shrink(bounds: Seq<Bound>, k: int)
    requires
        bounds_wf(bounds),
        max_width(bounds) >= 2,
    ensures
        0 <= max_width(sub_bounds(bounds, k)) < max_width(bounds),
    decreases bounds.len(),
{
    let sub = sub_bounds(bounds, k);
    let m = max_width(bounds);
    assert forall|j: int| 0 <= j < sub.len() implies (#[trigger] sub[j]).max - sub[j].min <= m
        - 1 by {
        lemma_mid_in_range(bounds[j]);
        lemma_max_width_ge(bounds, bounds.len() as int, j);
        let w = bounds[j].max - bounds[j].min;
        vstd::arithmetic::div_mod::lemma_fundamental_div_mod(w, 2);
    }
    lemma_max_width_le(sub, sub.len() as int, m - 1);
}

impl<D: TreeData> Node<D> {
    /// Dimension of the space this node lives in.
    pub open spec fn dim(self) -> int {
        match self {
            Node::Point { coord, .. } => coord@.len() as int,
            Node::Region { bounds, .. } => bounds@.len() as int,
        }
    }

    /// The points stored under this node, as a multiset of
    /// (coordinate, payload) pairs.
    pub open spec fn pts(self) -> Multiset<(Seq<int>, D::PointData)>
        decreases self, 0int,
    {
        match self {
            Node::Point { coord, data } => Multiset::empty().insert((coord_view(coord@), data)),
            Node::Region { children, .. } => Self::pts_of(children@),
        }
    }

    /// The points stored under a sequence of nodes.
    pub open spec fn pts_of(s: Seq<Node<D>>) -> Multiset<(Seq<int>, D::PointData)>
        decreases s, 1int,
    {
        if s.len() == 0 {
            Multiset::empty()
        } else {
            s[0].pts().add(Self::pts_of(s.drop_first()))
        }
    }

    /// A region is a leaf when it has no region children; under
    /// well-formedness its children are then all points.
    pub open spec fn spec_is_leaf(self) -> bool
        recommends
            self is Region,
    {
        self->Region_children@.len() == 0 || !(self->Region_children@[0] is Region)
    }

    /// Well-formedness of a node of dimension `dim`, with leaf capacity
    /// `cap` and minimum split width `min_dist`.
    ///
    /// A leaf region holds only points, all inside its box, and holds at
    /// most `cap` of them unless its box is already narrower than
    /// `min_dist` on every axis.  A non-leaf region holds exactly `2^dim`
    /// region children whose boxes are the `2^dim` half-split sub-boxes,
    /// and every point under child `k` lies in slot `k` of the box.
    pub open spec fn wf(self, dim: int, cap: int, min_dist: int) -> bool
        decreases self, 0int,
    {
        match self {
            Node::Point { coord, .. } => {
                &&& coord@.len() == dim
                &&& coord_in_limits(coord_view(coord@))
            },
            Node::Region { bounds, children, .. } => {
                &&& bounds@.len() == dim
                &&& 1 <= dim <= MAX_DIM
                &&& bounds_wf(bounds@)
                &&& (if self.spec_is_leaf() {
                    &&& forall|k: int|
                        0 <= k < children@.len() ==> (#[trigger] children@[k]) is Point
                    &&& forall|k: int|
                        0 <= k < children@.len() ==> (#[trigger] children@[k]).wf(
                            dim,
                            cap,
                            min_dist,
                        )
                    &&& forall|k: int|
                        0 <= k < children@.len() ==> contains_closed(
                            bounds@,
                            coord_view((#[trigger] children@[k])->Point_coord@),
                        )
                    &&& (children@.len() <= cap || max_width(bounds@) <= min_dist)
                } else {
                    &&& children@.len() == pow2(dim as nat)
                    &&& max_width(bounds@) > min_dist
                    &&& forall|k: int|
                        0 <= k < children@.len() ==> (#[trigger] children@[k]) is Region
                    &&& forall|k: int|
                        0 <= k < children@.len() ==> (#[trigger] children@[k])->Region_bounds@
                            == sub_bounds(bounds@, k)
                    &&& forall|k: int|
                        0 <= k < children@.len() ==> (#[trigger] children@[k]).wf(
                            dim,
                            cap,
                            min_dist,
                        )
                    &&& forall|k: int, e: (Seq<int>, D::PointData)|
                        0 <= k < children@.len() && (#[trigger] children@[k].pts().count(e)) > 0
                            ==> in_slot(bounds@, k, e.0)
                })
            },
        }
    }

    /// Splitting the points of a node sequence at position `k`.
    pub proof fn lemma_pts_of_at(s: Seq<Node<D>>, k: int)
        requires
            0 <= k < s.len(),
        ensures
            Self::pts_of(s) =~= Self::pts_of(s.take(k)).add(s[k].pts()).add(
                Self::pts_of(s.skip(k + 1)),
            ),
        decreases k,
    {
        if k == 0 {
            assert(s.skip(1) =~= s.drop_first());
            assert(Self::pts_of(s.take(0)) =~= Multiset::empty());
        } else {
            Self::lemma_pts_of_at(s.drop_first(), k - 1);
            assert(s.drop_first().take(k - 1) =~= s.take(k).drop_first());
            assert(s.drop_first().skip(k) =~= s.skip(k + 1));
            assert(s.take(k)[0] == s[0]);
            assert(s.drop_first()[k - 1] == s[k]);
        }
    }

    /// Appending a node adds its points.
    pub proof fn lemma_pts_of_push(s: Seq<Node<D>>, x: Node<D>)
        ensures
            Self::pts_of(s.push(x)) =~= Self::pts_of(s).add(x.pts()),
        decreases s.len(),
    {
        if s.len() == 0 {
            assert(s.push(x)[0] == x);
            assert(s.push(x).drop_first() =~= Seq::<Node<D>>::empty());
            assert(Self::pts_of(Seq::<Node<D>>::empty()) =~= Multiset::empty());
            assert(Self::pts_of(s.push(x)) =~= x.pts().add(Multiset::empty()));
            assert(Self::pts_of(s) =~= Multiset::empty());
        } else {
            Self::lemma_pts_of_push(s.drop_first(), x);
            assert(s.push(x).drop_first() =~= s.drop_first().push(x));
            assert(s.push(x)[0] == s[0]);
            assert(Self::pts_of(s.push(x)) =~= s[0].pts().add(
                Self::pts_of(s.drop_first().push(x)),
            ));
            assert(Self::pts_of(s) =~= s[0].pts().add(Self::pts_of(s.drop_first())));
        }
    }

    /// Removing the last node removes its points.
    pub proof fn lemma_pts_of_drop_last(s: Seq<Node<D>>)
        requires
            s.len() > 0,
        ensures
            Self::pts_of(s) =~= Self::pts_of(s.drop_last()).add(s.last().pts()),
    {
        assert(s.drop_last().push(s.last()) =~= s);
        Self::lemma_pts_of_push(s.drop_last(), s.last());
    }

    /// Replacing the node at `k` exchanges exactly its points.
    pub proof fn lemma_pts_of_update(s: Seq<Node<D>>, k: int, v: Node<D>)
        requires
            0 <= k < s.len(),
        ensures
            Self::pts_of(s.update(k, v)).add(s[k].pts()) =~= Self::pts_of(s).add(v.pts()),
    {
        Self::lemma_pts_of_at(s, k);
        Self::lemma_pts_of_at(s.update(k, v), k);
        assert(s.update(k, v).take(k) =~= s.take(k));
        assert(s.update(k, v).skip(k + 1) =~= s.skip(k + 1));
    }

    /// A child's points are among its parent sequence's points.
    pub proof fn lemma_pts_of_contains(s: Seq<Node<D>>, k: int, e: (Seq<int>, D::PointData))
        requires
            0 <= k < s.len(),
        ensures
            Self::pts_of(s).count(e) >= s[k].pts().count(e),
    {
        Self::lemma_pts_of_at(s, k);
    }

    /// Every point of a sequence of nodes comes from one of the nodes.
    pub proof fn lemma_pts_of_source(s: Seq<Node<D>>, e: (Seq<int>, D::PointData)) -> (k: int)
        requires
            Self::pts_of(s).count(e) > 0,
        ensures
            0 <= k < s.len(),
            s[k].pts().count(e) > 0,
        decreases s.len(),
    {
        if s[0].pts().count(e) > 0 {
            0
        } else {
            let k = Self::lemma_pts_of_source(s.drop_first(), e);
            k + 1
        }
    }

    /// Create an empty region with the given box.
    pub fn new_region(bounds: Vec<Bound>) -> (r: Node<D>)
        ensures
            r is Region,
            r->Region_bounds == bounds,
            r->Region_children@.len() == 0,
            r->Region_data is None,
            r.pts() == Multiset::<(Seq<int>, D::PointData)>::empty(),
    {
        let r = Node::Region { bounds, children: Vec::new(), data: None };
        proof {
            assert(r->Region_children@.len() == 0);
            assert(r.pts() =~= Multiset::<(Seq<int>, D::PointData)>::empty());
        }
        r
    }

    /// Create a point node.
    pub fn new_point(coord: Vec<i64>, data: D::PointData) -> (r: Node<D>)
        ensures
            r == (Node::Point::<D> { coord, data }),
    {
        Node::Point { coord, data }
    }

    pub fn is_region(&self) -> (r: bool)
        ensures
            r == (*self is Region),
    {
        match self {
            Node::Point { .. } => false,
            Node::Region { .. } => true,
        }
    }

    pub fn has_children(&self) -> (r: bool)
        ensures
            r == (*self is Region && self->Region_children@.len() > 0),
    {
        match self {
            Node::Point { .. } => false,
            Node::Region { children, .. } => children.len() > 0,
        }
    }

    /// A region none of whose children is a region.
    pub fn is_leaf_region(&self) -> (r: bool)
        ensures
            r == (*self is Region && self.spec_is_leaf()),
    {
        match self {
            Node::Point { .. } => false,
            Node::Region { children, .. } => {
                if children.len() == 0 {
                    true
                } else {
                    !children[0].is_region()
                }
            },
        }
    }

    /// Number of occupied child slots.
    pub fn child_len(&self) -> (r: usize)
        ensures
            r == (if *self is Region {
                self->Region_children@.len() as int
            } else {
                0int
            }),
    {
        match self {
            Node::Point { .. } => 0,
            Node::Region { children, .. } => children.len(),
        }
    }

    /// The region children, when this node is a region.
    pub fn try_get_children(&self) -> (r: Option<&Vec<Node<D>>>)
        ensures
            match r {
                Some(c) => *self is Region && c == &self->Region_children,
                None => !(*self is Region),
            },
    {
        match self {
            Node::Point { .. } => None,
            Node::Region { children, .. } => Some(children),
        }
    }

    /// Closed containment of a coordinate in this region's box; a point
    /// node contains nothing.
    #[verifier::loop_isolation(false)]
    pub fn contains(&self, point: &Vec<i64>) -> (r: bool)
        requires
            point@.len() == self.dim(),
        ensures
            r == (*self is Region && contains_closed(
                self->Region_bounds@,
                coord_view(point@),
            )),
    {
        match self {
            Node::Point { .. } => false,
            Node::Region { bounds, .. } => {
                let mut i: usize = 0;
                while i < bounds.len()
                    invariant
                        0 <= i <= bounds@.len(),
                        point@.len() == bounds@.len(),
                        forall|j: int|
                            0 <= j < i ==> (#[trigger] bounds@[j]).min <= point@[j] as int
                                <= bounds@[j].max,
                    decreases bounds@.len() - i,
                {
                    if point[i] < bounds[i].min || point[i] > bounds[i].max {
                        proof {
                            assert(coord_view(point@)[i as int] == point@[i as int] as int);
                        }
                        return false;
                    }
                    i = i + 1;
                }
                proof {
                    assert forall|j: int| 0 <= j < bounds@.len() implies (
                    #[trigger] bounds@[j]).min <= coord_view(point@)[j] <= bounds@[j].max by {
                        assert(coord_view(point@)[j] == point@[j] as int);
                    }
                    assert(contains_closed(bounds@, coord_view(point@)));
                }
                true
            },
        }
    }

    /// The box of this region.
    pub fn bounds(&self) -> (r: &Vec<Bound>)
        requires
            *self is Region,
        ensures
            r == &self->Region_bounds,
    {
        match self {
            Node::Point { .. } => unreached(),
            Node::Region { bounds, .. } => bounds,
        }
    }

    /// The box of this node, when it is a region.
    pub fn try_bounds(&self) -> (r: Option<&Vec<Bound>>)
        ensures
            match r {
                Some(b) => *self is Region && b == &self->Region_bounds,
                None => !(*self is Region),
            },
    {
        match self {
            Node::Point { .. } => None,
            Node::Region { bounds, .. } => Some(bounds),
        }
    }

    /// The coordinate of this point node.
    pub fn coord(&self) -> (r: &Vec<i64>)
        requires
            *self is Point,
        ensures
            r == &self->Point_coord,
    {
        match self {
            Node::Point { coord, .. } => coord,
            Node::Region { .. } => unreached(),
        }
    }

    /// The payload of this point node.
    pub fn data(&self) -> (r: &D::PointData)
        requires
            *self is Point,
        ensures
            r == &self->Point_data,
    {
        match self {
            Node::Point { data, .. } => data,
            Node::Region { .. } => unreached(),
        }
    }

    /// The aggregate payload of this region node.
    pub fn region_data(&self) -> (r: &Option<D::RegionData>)
        requires
            *self is Region,
        ensures
            r == &self->Region_data,
    {
        match self {
            Node::Point { .. } => unreached(),
            Node::Region { data, .. } => data,
        }
    }

    /// Replace the payload of this point node.
    pub fn set_data(&mut self, value: D::PointData)
        requires
            *old(self) is Point,
        ensures
            *final(self) == (Node::Point::<D> { coord: old(self)->Point_coord, data: value }),
    {
        match self {
            Node::Point { data, .. } => {
                *data = value;
            },
            Node::Region { .. } => unreached(),
        }
    }

    /// An empty region with well-formed bounds is well formed for any
    /// nonnegative capacity and any minimum width.
    pub proof fn lemma_empty_region_wf(self, dim: int, cap: int, min_dist: int)
        requires
            self is Region,
            self->Region_children@.len() == 0,
            self->Region_bounds@.len() == dim,
            1 <= dim <= MAX_DIM,
            bounds_wf(self->Region_bounds@),
            cap >= 0,
        ensures
            self.wf(dim, cap, min_dist),
            self.pts() =~= Multiset::empty(),
    {
    }

    /// A point entry of a well-formed node has the node's dimension and
    /// stays within the coordinate limits.
    pub proof fn lemma_pts_entry_wf(
        self,
        dim: int,
        cap: int,
        min_dist: int,
        e: (Seq<int>, D::PointData),
    )
        requires
            self.wf(dim, cap, min_dist),
            self.pts().count(e) > 0,
        ensures
            e.0.len() == dim,
            coord_in_limits(e.0),
        decreases self,
    {
        match self {
            Node::Point { coord, data } => {
                assert(e == (coord_view(coord@), data));
            },
            Node::Region { bounds, children, .. } => {
                let k = Self::lemma_pts_of_source(children@, e);
                children@[k].lemma_pts_entry_wf(dim, cap, min_dist, e);
            },
        }
    }

    /// Every point under a well-formed region lies inside its box.
    pub proof fn lemma_pts_in_bounds(
        self,
        dim: int,
        cap: int,
        min_dist: int,
        e: (Seq<int>, D::PointData),
    )
        requires
            self.wf(dim, cap, min_dist),
            self is Region,
            self.pts().count(e) > 0,
        ensures
            contains_closed(self->Region_bounds@, e.0),
        decreases self,
    {
        let children = self->Region_children;
        let bounds = self->Region_bounds;
        let k = Self::lemma_pts_of_source(children@, e);
        if self.spec_is_leaf() {
            assert(children@[k] is Point);
            assert(children@[k].pts().count(e) > 0);
            assert(e.0 == coord_view(children@[k]->Point_coord@));
        } else {
            children@[k].lemma_pts_in_bounds(dim, cap, min_dist, e);
            assert(in_slot(bounds@, k, e.0));
        }
    }

    /// The largest axis width of this region's box.
    pub fn max_width_of(&self) -> (r: i64)
        requires
            *self is Region,
            bounds_wf(self->Region_bounds@),
        ensures
            r == max_width(self->Region_bounds@),
    {
        max_width_vec(self.bounds())
    }

    /// The child slot index of a coordinate in a box: bit `j` is set
    /// exactly when the coordinate exceeds the middle of axis `j`.
    #[verifier::loop_isolation(false)]
    pub fn get_child_region_index(point: &Vec<i64>, bounds: &Vec<Bound>) -> (r: usize)
        requires
            bounds_wf(bounds@),
            point@.len() == bounds@.len(),
            bounds@.len() <= MAX_DIM,
        ensures
            r == slot_of(bounds@, coord_view(point@)),
            r < pow2(bounds@.len()),
    {
        let ghost c = coord_view(point@);
        let mut index: usize = 0;
        let mut p: usize = 1;
        let mut i: usize = 0;
        proof {
            vstd::arithmetic::power2::lemma2_to64();
        }
        while i < bounds.len()
            invariant
                0 <= i <= bounds@.len(),
                p == pow2(i as nat),
                index == slot_upto(bounds@, c, i as int),
                0 <= index < p,
                p <= 256,
            decreases bounds@.len() - i,
        {
            proof {
                lemma_slot_upto_range(bounds@, c, i as int + 1);
                assert(pow2((i + 1) as nat) == 2 * pow2(i as nat)) by {
                    vstd::arithmetic::power2::lemma_pow2_unfold((i + 1) as nat);
                }
                assert(pow2((i + 1) as nat) <= pow2(MAX_DIM as nat)) by {
                    if i + 1 < MAX_DIM {
                        vstd::arithmetic::power2::lemma_pow2_strictly_increases(
                            (i + 1) as nat,
                            MAX_DIM as nat,
                        );
                    }
                }
                assert(pow2(MAX_DIM as nat) == 256) by {
                    vstd::arithmetic::power2::lemma2_to64();
                }
                assert(c[i as int] == point@[i as int] as int);
            }
            if point[i] > bounds[i].middle() {
                index = index + p;
            }
            p = p * 2;
            i = i + 1;
        }
        proof {
            lemma_slot_upto_range(bounds@, c, bounds@.len() as int);
        }
        index
    }

    /// The child slot index of a coordinate in this region's box.
    pub fn get_sub_region(&self, point: &Vec<i64>) -> (r: usize)
        requires
            *self is Region,
            bounds_wf(self->Region_bounds@),
            point@.len() == self->Region_bounds@.len(),
            self->Region_bounds@.len() <= MAX_DIM,
        ensures
            r == slot_of(self->Region_bounds@, coord_view(point@)),
            r < pow2(self->Region_bounds@.len()),
    {
        Self::get_child_region_index(point, self.bounds())
    }

    /// Build the empty region for child slot `k` of a box.
    fn sub_region_node(bounds: &Vec<Bound>, k: usize) -> (r: Node<D>)
        requires
            bounds_wf(bounds@),
            bounds@.len() <= MAX_DIM,
        ensures
            r is Region,
            r->Region_bounds@ == sub_bounds(bounds@, k as int),
            r->Region_children@.len() == 0,
            r->Region_data is None,
            r.pts() =~= Multiset::<(Seq<int>, D::PointData)>::empty(),
    {
        Node::new_region(sub_bounds_vec(bounds, k))
    }

    /// The `2^dim` empty sub-regions of a box, in slot order.
    #[verifier::loop_isolation(false)]
    fn make_sub_regions(bounds: &Vec<Bound>) -> (r: Vec<Node<D>>)
        requires
            bounds_wf(bounds@),
            1 <= bounds@.len() <= MAX_DIM,
        ensures
            r@.len() == pow2(bounds@.len()),
            forall|k: int|
                0 <= k < r@.len() ==> {
                    &&& (#[trigger] r@[k]) is Region
                    &&& r@[k]->Region_bounds@ == sub_bounds(bounds@, k)
                    &&& r@[k]->Region_children@.len() == 0
                    &&& r@[k]->Region_data is None
                },
            Self::pts_of(r@) =~= Multiset::<(Seq<int>, D::PointData)>::empty(),
    {
        let n = crate::two_power(bounds.len());
        let mut out: Vec<Node<D>> = Vec::new();
        proof {
            assert(Self::pts_of(out@) =~= Multiset::empty());
        }
        let mut k: usize = 0;
        while k < n
            invariant
                0 <= k <= n,
                n == pow2(bounds@.len()),
                out@.len() == k,
                forall|i: int|
                    0 <= i < k ==> {
                        &&& (#[trigger] out@[i]) is Region
                        &&& out@[i]->Region_bounds@ == sub_bounds(bounds@, i)
                        &&& out@[i]->Region_children@.len() == 0
                        &&& out@[i]->Region_data is None
                    },
                Self::pts_of(out@) =~= Multiset::empty(),
            decreases n - k,
        {
            let child = Self::sub_region_node(bounds, k);
            proof {
                Self::lemma_pts_of_push(out@, child);
            }
            out.push(child);
            k = k + 1;
        }
        out
    }

    /// Insert a point into this region: descend to the leaf region whose
    /// slots lead to the point's coordinate, place the point there, and
    /// split the leaf when it exceeds its capacity and its box is still
    /// wider than `min_dist` on some axis.
    #[verifier::loop_isolation(false)]
    pub fn insert_point(&mut self, point: Node<D>, max_num: u32, min_dist: i64)
        requires
            *old(self) is Region,
            old(self).wf(old(self).dim(), max_num as int, min_dist as int),
            point is Point,
            point.wf(old(self).dim(), max_num as int, min_dist as int),
            contains_closed(old(self)->Region_bounds@, coord_view(point->Point_coord@)),
            1 <= max_num,
            min_dist >= 1,
        ensures
            *final(self) is Region,
            final(self)->Region_bounds == old(self)->Region_bounds,
            final(self).wf(old(self).dim(), max_num as int, min_dist as int),
            final(self).pts() =~= old(self).pts().add(point.pts()),
        decreases max_width(old(self)->Region_bounds@),
    {
        let ghost dim = old(self).dim();
        let ghost cap = max_num as int;
        let ghost md = min_dist as int;
        let ghost pt = point;
        let ghost pt_entry = (coord_view(point->Point_coord@), point->Point_data);
        proof {
            assert(pt.pts() =~= Multiset::empty().insert(pt_entry));
            lemma_max_width_le(
                old(self)->Region_bounds@,
                old(self)->Region_bounds@.len() as int,
                2 * COORD_LIMIT as int,
            );
        }
        let is_leaf = self.is_leaf_region();
        match self {
            Node::Point { .. } => unreached(),
            Node::Region { bounds, children, data } => {
                let ghost total = Self::pts_of(children@).add(pt.pts());
                if !is_leaf {
                    // descend into the child slot of the point
                    let idx = Self::get_child_region_index(point.coord(), bounds);
                    proof {
                        lemma_in_slot_sub_bounds(bounds@, pt_entry.0);
                        lemma_sub_bounds_shrink(bounds@, idx as int);
                    }
                    let ghost pre = children@;
                    let mut child = children.remove(idx);
                    child.insert_point(point, max_num, min_dist);
                    children.insert(idx, child);
                    proof {
                        let child_new = children@[idx as int];
                        assert(children@ =~= pre.update(idx as int, child_new));
                        Self::lemma_pts_of_update(pre, idx as int, child_new);
                        assert forall|e: (Seq<int>, D::PointData)| #[trigger] Self::pts_of(
                            children@,
                        ).count(e) == total.count(e) by {
                            assert(Self::pts_of(children@).add(pre[idx as int].pts()).count(e)
                                == Self::pts_of(pre).add(child_new.pts()).count(e));
                            assert(child_new.pts().count(e) == pre[idx as int].pts().count(e)
                                + pt.pts().count(e));
                            assert(total.count(e) == Self::pts_of(pre).count(e) + pt.pts().count(
                                e,
                            ));
                        }
                        assert(Self::pts_of(children@) =~= total);
                        assert forall|k: int, e: (Seq<int>, D::PointData)|
                            0 <= k < children@.len() && (#[trigger] children@[k].pts().count(e))
                                > 0 implies in_slot(bounds@, k, e.0) by {
                            if k != idx as int {
                                assert(children@[k] == pre[k]);
                            } else {
                                assert(children@[k].pts().count(e) == pre[k].pts().count(e)
                                    + pt.pts().count(e));
                                if pre[k].pts().count(e) == 0 {
                                    assert(pt.pts().count(e) > 0);
                                    assert(e == pt_entry);
                                }
                            }
                        }
                        assert(final(self).wf(dim, cap, md));
                    }
                } else {
                    proof {
                        Self::lemma_pts_of_push(children@, point);
                    }
                    children.push(point);
                    let should_split = children.len() > max_num as usize;
                    if should_split {
                        let w = max_width_vec(bounds);
                        if w > min_dist {
                            // move the points aside
                            let mut moved: Vec<Node<D>> = Vec::new();
                            proof {
                                assert(Self::pts_of(moved@) =~= Multiset::empty());
                            }
                            while children.len() > 0
                                invariant
                                    forall|k: int|
                                        0 <= k < children@.len() ==> (
                                        #[trigger] children@[k]) is Point && children@[k].wf(
                                            dim,
                                            cap,
                                            md,
                                        ) && contains_closed(
                                            bounds@,
                                            coord_view(children@[k]->Point_coord@),
                                        ),
                                    forall|m: int|
                                        0 <= m < moved@.len() ==> (#[trigger] moved@[m]) is Point
                                            && moved@[m].wf(dim, cap, md) && contains_closed(
                                            bounds@,
                                            coord_view(moved@[m]->Point_coord@),
                                        ),
                                    Self::pts_of(children@).add(Self::pts_of(moved@)) =~= total,
                                decreases children@.len(),
                            {
                                proof {
                                    Self::lemma_pts_of_drop_last(children@);
                                }
                                let p = children.pop().unwrap();
                                proof {
                                    Self::lemma_pts_of_push(moved@, p);
                                }
                                moved.push(p);
                            }
                            // split into the 2^dim sub-regions
                            let fresh = Self::make_sub_regions(bounds);
                            *children = fresh;
                            // re-insert the points, each into its slot
                            while moved.len() > 0
                                invariant
                                    children@.len() == pow2(dim as nat),
                                    forall|k: int|
                                        0 <= k < children@.len() ==> {
                                            &&& (#[trigger] children@[k]) is Region
                                            &&& children@[k]->Region_bounds@ == sub_bounds(
                                                bounds@,
                                                k,
                                            )
                                            &&& children@[k].wf(dim, cap, md)
                                        },
                                    forall|k: int, e: (Seq<int>, D::PointData)|
                                        0 <= k < children@.len() && (
                                        #[trigger] children@[k].pts().count(e)) > 0 ==> in_slot(
                                            bounds@,
                                            k,
                                            e.0,
                                        ),
                                    forall|m: int|
                                        0 <= m < moved@.len() ==> (#[trigger] moved@[m]) is Point
                                            && moved@[m].wf(dim, cap, md) && contains_closed(
                                            bounds@,
                                            coord_view(moved@[m]->Point_coord@),
                                        ),
                                    Self::pts_of(children@).add(Self::pts_of(moved@)) =~= total,
                                decreases moved@.len(),
                            {
                                proof {
                                    Self::lemma_pts_of_drop_last(moved@);
                                }
                                let p = moved.pop().unwrap();
                                let ghost p_entry = (coord_view(p->Point_coord@), p->Point_data);
                                proof {
                                    assert(p.pts() =~= Multiset::empty().insert(p_entry));
                                }
                                let idx = Self::get_child_region_index(p.coord(), bounds);
                                proof {
                                    lemma_in_slot_sub_bounds(bounds@, p_entry.0);
                                    lemma_sub_bounds_shrink(bounds@, idx as int);
                                }
                                let ghost pre = children@;
                                let mut child = children.remove(idx);
                                child.insert_point(p, max_num, min_dist);
                                children.insert(idx, child);
                                proof {
                                    let child_new = children@[idx as int];
                                    let ghost pm = Self::pts_of(moved@);
                                    assert(children@ =~= pre.update(idx as int, child_new));
                                    Self::lemma_pts_of_update(pre, idx as int, child_new);
                                    assert forall|e: (Seq<int>, D::PointData)|
                                        #[trigger] Self::pts_of(children@).count(e) + pm.count(e)
                                            == total.count(e) by {
                                        assert(Self::pts_of(children@).add(
                                            pre[idx as int].pts(),
                                        ).count(e) == Self::pts_of(pre).add(
                                            child_new.pts(),
                                        ).count(e));
                                        assert(child_new.pts().count(e) == pre[
                                            idx as int].pts().count(e) + p.pts().count(e));
                                    }
                                    assert(Self::pts_of(children@).add(Self::pts_of(moved@))
                                        =~= total);
                                    assert forall|k: int, e: (Seq<int>, D::PointData)|
                                        0 <= k < children@.len() && (
                                        #[trigger] children@[k].pts().count(e)) > 0 implies in_slot(
                                        bounds@,
                                        k,
                                        e.0,
                                    ) by {
                                        if k != idx as int {
                                            assert(children@[k] == pre[k]);
                                        } else {
                                            assert(children@[k].pts().count(e) == pre[
                                                k].pts().count(e) + p.pts().count(e));
                                            if pre[k].pts().count(e) == 0 {
                                                assert(p.pts().count(e) > 0);
                                                assert(e == p_entry);
                                            }
                                        }
                                    }
                                }
                            }
                            proof {
                                assert(Self::pts_of(moved@) =~= Multiset::empty());
                                assert(Self::pts_of(children@) =~= total);
                                vstd::arithmetic::power2::lemma_pow2_pos(dim as nat);
                                assert(!final(self).spec_is_leaf());
                                assert(final(self).wf(dim, cap, md));
                            }
                        }
                    }
                }
            },
        }
    }

    /// Split an empty region into its `2^dim` empty sub-regions.  Fails,
    /// changing nothing, on a point node or a region with occupied slots.
    #[verifier::loop_isolation(false)]
    pub fn divide(&mut self) -> (r: Result<(), ()>)
        requires
            *old(self) is Region ==> {
                &&& bounds_wf(old(self)->Region_bounds@)
                &&& 1 <= old(self)->Region_bounds@.len() <= MAX_DIM
            },
        ensures
            r is Ok <==> (*old(self) is Region && old(self)->Region_children@.len() == 0),
            r is Err ==> *final(self) == *old(self),
            r is Ok ==> {
                &&& *final(self) is Region
                &&& final(self)->Region_bounds == old(self)->Region_bounds
                &&& final(self)->Region_data == old(self)->Region_data
                &&& final(self)->Region_children@.len() == pow2(old(self)->Region_bounds@.len())
                &&& forall|k: int|
                    0 <= k < final(self)->Region_children@.len() ==> {
                        &&& (#[trigger] final(self)->Region_children@[k]) is Region
                        &&& final(self)->Region_children@[k]->Region_bounds@ == sub_bounds(
                            old(self)->Region_bounds@,
                            k,
                        )
                        &&& final(self)->Region_children@[k]->Region_children@.len() == 0
                        &&& final(self)->Region_children@[k]->Region_data is None
                    }
                &&& final(self).pts() =~= Multiset::<(Seq<int>, D::PointData)>::empty()
            },
    {
        match self {
            Node::Point { .. } => Err(()),
            Node::Region { bounds, children, .. } => {
                if children.len() != 0 {
                    return Err(());
                }
                let n = crate::two_power(bounds.len());
                proof {
                    assert(Self::pts_of(children@) =~= Multiset::empty());
                }
                let mut k: usize = 0;
                while k < n
                    invariant
                        0 <= k <= n,
                        n == pow2(bounds@.len()),
                        children@.len() == k,
                        forall|i: int|
                            0 <= i < k ==> {
                                &&& (#[trigger] children@[i]) is Region
                                &&& children@[i]->Region_bounds@ == sub_bounds(bounds@, i)
                                &&& children@[i]->Region_children@.len() == 0
                                &&& children@[i]->Region_data is None
                            },
                        Self::pts_of(children@) =~= Multiset::empty(),
                    decreases n - k,
                {
                    let child = Self::sub_region_node(bounds, k);
                    proof {
                        Self::lemma_pts_of_push(children@, child);
                    }
                    children.push(child);
                    k = k + 1;
                }
                Ok(())
            },
        }
    }

    /// Place a point into the next free child slot of this region.
    pub fn insert_point_directly(&mut self, point: Node<D>)
        requires
            *old(self) is Region,
        ensures
            *final(self) is Region,
            final(self)->Region_bounds == old(self)->Region_bounds,
            final(self)->Region_data == old(self)->Region_data,
            final(self)->Region_children@ == old(self)->Region_children@.push(point),
            final(self).pts() =~= old(self).pts().add(point.pts()),
    {
        match self {
            Node::Point { .. } => unreached(),
            Node::Region { children, .. } => {
                proof {
                    Self::lemma_pts_of_push(children@, point);
                }
                children.push(point);
            },
        }
    }

    /// Squared distance from a query coordinate to this node: to the point
    /// itself, or to this region's box (zero inside).
    pub open spec fn spec_dist2(self, q: Seq<int>) -> int {
        match self {
            Node::Point { coord, .. } => dist2(q, coord_view(coord@)),
            Node::Region { bounds, .. } => box_dist2(bounds@, q),
        }
    }

    /// Coordinate limits needed to evaluate distances without overflow.
    pub open spec fn limits_ok(self) -> bool {
        match self {
            Node::Point { coord, .. } => coord_in_limits(coord_view(coord@)),
            Node::Region { bounds, .. } => bounds_wf(bounds@),
        }
    }

    /// Squared distance from `point` to this node.
    #[verifier::loop_isolation(false)]
    pub fn distance2(&self, point: &Vec<i64>) -> (r: i128)
        requires
            point@.len() == self.dim(),
            self.dim() <= MAX_DIM,
            coord_in_limits(coord_view(point@)),
            self.limits_ok(),
        ensures
            r == self.spec_dist2(coord_view(point@)),
            r >= 0,
    {
        let ghost q = coord_view(point@);
        match self {
            Node::Point { coord, .. } => {
                let mut acc: i128 = 0;
                let mut i: usize = 0;
                while i < coord.len()
                    invariant
                        0 <= i <= coord@.len(),
                        acc == dist2_upto(q, coord_view(coord@), i as int),
                        0 <= acc <= (i as int) * 4 * (COORD_LIMIT as int) * (COORD_LIMIT as int),
                    decreases coord@.len() - i,
                {
                    proof {
                        assert(q[i as int] == point@[i as int] as int);
                        assert(coord_view(coord@)[i as int] == coord@[i as int] as int);
                    }
                    let d: i128 = (point[i] as i128) - (coord[i] as i128);
                    proof {
                        assert(d * d <= 4 * (COORD_LIMIT as int) * (COORD_LIMIT as int))
                            by (nonlinear_arith)
                            requires
                                -2 * (COORD_LIMIT as int) <= d <= 2 * (COORD_LIMIT as int),
                        ;
                        assert(d * d >= 0) by (nonlinear_arith);
                    }
                    acc = acc + d * d;
                    i = i + 1;
                }
                acc
            },
            Node::Region { bounds, .. } => {
                let mut acc: i128 = 0;
                let mut i: usize = 0;
                while i < bounds.len()
                    invariant
                        0 <= i <= bounds@.len(),
                        acc == box_dist2_upto(bounds@, q, i as int),
                        0 <= acc <= (i as int) * 4 * (COORD_LIMIT as int) * (COORD_LIMIT as int),
                    decreases bounds@.len() - i,
                {
                    proof {
                        assert(q[i as int] == point@[i as int] as int);
                    }
                    let b = bounds[i];
                    let g: i128 = if point[i] < b.min {
                        (b.min as i128) - (point[i] as i128)
                    } else if point[i] > b.max {
                        (point[i] as i128) - (b.max as i128)
                    } else {
                        0
                    };
                    proof {
                        assert(g == axis_gap(bounds@[i as int], q[i as int]));
                        assert(g * g <= 4 * (COORD_LIMIT as int) * (COORD_LIMIT as int))
                            by (nonlinear_arith)
                            requires
                                0 <= g <= 2 * (COORD_LIMIT as int),
                        ;
                        assert(g * g >= 0) by (nonlinear_arith);
                    }
                    acc = acc + g * g;
                    i = i + 1;
                }
                acc
            },
        }
    }
}

} // verus!
