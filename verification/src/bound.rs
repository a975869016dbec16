//! Per-axis intervals and squared-distance arithmetic.

use vstd::prelude::*;
use crate::fixed::COORD_LIMIT;

verus! {

/// One axis of an axis-aligned box: the interval from `min` to `max`.
#[derive(Clone, Copy, Debug, PartialEq, Eq, Structural)]
pub struct Bound {
    pub min: i64,
    pub max: i64,
}

impl Bound {
    /// A bound is well formed when it is ordered and within the coordinate
    /// limit, so that widths and squared distances cannot overflow.
    pub open spec fn wf(self) -> bool {
        &&& self.min <= self.max
        &&& -COORD_LIMIT <= self.min
        &&& self.max <= COORD_LIMIT
    }

    /// Midpoint, rounded down toward `min`.
    pub open spec fn spec_middle(self) -> int {
        self.min + (self.max - self.min) / 2
    }

    pub fn width(&self) -> (r: i64)
        requires
            self.wf(),
        ensures
            r == self.max - self.min,
    {
        self.max - self.min
    }

    pub fn middle(&self) -> (r: i64)
        requires
            self.wf(),
        ensures
            r == self.spec_middle(),
            self.min <= r <= self.max,
    {
        let w: u64 = (self.max - self.min) as u64;
        self.min + (w / 2) as i64
    }

    /// Half-open membership: `min <= v < max`.
    pub fn contains(&self, v: i64) -> (r: bool)
        ensures
            r == (self.min <= v < self.max),
    {
        v >= self.min && v < self.max
    }
}

/// Closed membership of a coordinate vector in a box, axis by axis.
pub open spec fn contains_closed(bounds: Seq<Bound>, c: Seq<int>) -> bool {
    &&& c.len() == bounds.len()
    &&& forall|j: int|
        0 <= j < bounds.len() ==> (#[trigger] bounds[j]).min <= c[j] <= bounds[j].max
}

/// Mathematical view of a coordinate vector.
pub open spec fn coord_view(c: Seq<i64>) -> Seq<int> {
    c.map_values(|x: i64| x as int)
}

/// Every component within the coordinate limit.
pub open spec fn coord_in_limits(c: Seq<int>) -> bool {
    forall|j: int| 0 <= j < c.len() ==> -COORD_LIMIT <= #[trigger] c[j] <= COORD_LIMIT
}

/// Squared Euclidean distance over the first `n` axes.
pub open spec fn dist2_upto(a: Seq<int>, b: Seq<int>, n: int) -> int
    decreases n,
{
    if n <= 0 {
        0
    } else {
        dist2_upto(a, b, n - 1) + (a[n - 1] - b[n - 1]) * (a[n - 1] - b[n - 1])
    }
}

/// Squared Euclidean distance between two coordinate vectors.
pub open spec fn dist2(a: Seq<int>, b: Seq<int>) -> int
    recommends
        a.len() == b.len(),
{
    dist2_upto(a, b, a.len() as int)
}

/// Per-axis gap between a value and an interval: zero inside.
pub open spec fn axis_gap(b: Bound, v: int) -> int {
    if v < b.min {
        b.min - v
    } else if v > b.max {
        v - b.max
    } else {
        0
    }
}

/// Squared distance from a point to a box over the first `n` axes.
pub open spec fn box_dist2_upto(bounds: Seq<Bound>, c: Seq<int>, n: int) -> int
    decreases n,
{
    if n <= 0 {
        0
    } else {
        box_dist2_upto(bounds, c, n - 1) + axis_gap(bounds[n - 1], c[n - 1]) * axis_gap(
            bounds[n - 1],
            c[n - 1],
        )
    }
}

/// Squared distance from a point to an axis-aligned box; zero if inside.
pub open spec fn box_dist2(bounds: Seq<Bound>, c: Seq<int>) -> int
    recommends
        c.len() == bounds.len(),
{
    box_dist2_upto(bounds, c, bounds.len() as int)
}

pub proof fn lemma_dist2_nonneg(a: Seq<int>, b: Seq<int>, n: int)
    ensures
        dist2_upto(a, b, n) >= 0,
    decreases n,
{
    if n > 0 {
        lemma_dist2_nonneg(a, b, n - 1);
        let d = a[n - 1] - b[n - 1];
        assert(d * d >= 0) by (nonlinear_arith);
    }
}

/// A point is at squared distance zero from itself.
pub proof fn lemma_dist2_self(a: Seq<int>, n: int)
    ensures
        dist2_upto(a, a, n) == 0,
    decreases n,
{
    if n > 0 {
        lemma_dist2_self(a, n - 1);
    }
}

pub proof fn lemma_box_dist2_nonneg(bounds: Seq<Bound>, c: Seq<int>, n: int)
    ensures
        box_dist2_upto(bounds, c, n) >= 0,
    decreases n,
{
    if n > 0 {
        lemma_box_dist2_nonneg(bounds, c, n - 1);
        let g = axis_gap(bounds[n - 1], c[n - 1]);
        assert(g * g >= 0) by (nonlinear_arith);
    }
}

/// The gap to a box never exceeds the distance to any point inside it.
pub proof fn lemma_box_dist2_le_dist2(bounds: Seq<Bound>, q: Seq<int>, c: Seq<int>, n: int)
    requires
        contains_closed(bounds, c),
        n <= bounds.len(),
    ensures
        box_dist2_upto(bounds, q, n) <= dist2_upto(q, c, n),
    decreases n,
{
    if n > 0 {
        lemma_box_dist2_le_dist2(bounds, q, c, n - 1);
        let g = axis_gap(bounds[n - 1], q[n - 1]);
        let d = q[n - 1] - c[n - 1];
        assert(g * g <= d * d) by (nonlinear_arith)
            requires
                0 <= g,
            (g <= d || g <= -d),
        ;
    }
}

/// Shrinking a box axis-wise can only increase the gap to it.
pub proof fn lemma_box_dist2_monotone(outer: Seq<Bound>, inner: Seq<Bound>, q: Seq<int>, n: int)
    requires
        inner.len() == outer.len(),
        forall|j: int|
            0 <= j < outer.len() ==> (#[trigger] outer[j]).min <= inner[j].min && inner[j].max
                <= outer[j].max && inner[j].min <= inner[j].max,
        n <= outer.len(),
    ensures
        box_dist2_upto(outer, q, n) <= box_dist2_upto(inner, q, n),
    decreases n,
{
    if n > 0 {
        lemma_box_dist2_monotone(outer, inner, q, n - 1);
        let go = axis_gap(outer[n - 1], q[n - 1]);
        let gi = axis_gap(inner[n - 1], q[n - 1]);
        assert(go * go <= gi * gi) by (nonlinear_arith)
            requires
                0 <= go <= gi,
        ;
    }
}

} // verus!
