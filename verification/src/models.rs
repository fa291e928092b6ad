//! Core data model: 2D points in fixed-point coordinates, the immutable
//! problem `Configuration`, and the per-point `Circle` view of a state.
//!
//! A *state* is a `Vec<Point>` of length `n`, positionally partitioned into
//! contiguous blocks: block `g` has length `counts[g]` and its points carry
//! the group radius `radius[g]`.

use vstd::prelude::*;

use crate::num::{is_sqrt_floor, isqrt, lemma_sqrt_floor, lemma_sqrt_floor_unique, sqrt_floor};

verus! {

/// Fixed-point scale: coordinate units per spatial unit.
pub const SCALE: i64 = 1000;

/// Every point coordinate the library computes with stays in
/// `[-COORD_LIMIT, COORD_LIMIT]`; this keeps all squared distances inside
/// `i64` range.
pub const COORD_LIMIT: i64 = 1_000_000_000;

/// Bound on the rectangle dimensions and the group radii.
pub const DIM_LIMIT: i64 = 500_000_000;

#[derive(Clone, Copy, PartialEq, Eq, Structural, Debug)]
pub struct Point {
    pub x: i64,
    pub y: i64,
}

/// Both coordinates inside the representable band.
pub open spec fn in_band(p: Point) -> bool {
    &&& -COORD_LIMIT <= p.x <= COORD_LIMIT
    &&& -COORD_LIMIT <= p.y <= COORD_LIMIT
}

/// The squared Euclidean distance between `a` and `b`.
pub open spec fn dist_sq(a: Point, b: Point) -> int {
    (a.x - b.x) * (a.x - b.x) + (a.y - b.y) * (a.y - b.y)
}

/// The distance between `a` and `b`, rounded down to a whole coordinate
/// unit.
pub open spec fn dist(a: Point, b: Point) -> int {
    sqrt_floor(dist_sq(a, b))
}

impl Point {
    /// Euclidean distance to `other`, rounded down.
    pub fn distance(&self, other: &Point) -> (r: i64)
        requires
            in_band(*self),
            in_band(*other),
        ensures
            r == dist(*self, *other),
            is_sqrt_floor(dist_sq(*self, *other), r as int),
            0 <= r <= 3_000_000_000,
    {
        let dx = self.x - other.x;
        let dy = self.y - other.y;
        assert(dx * dx + dy * dy <= 8_000_000_000_000_000_000 && dx * dx >= 0 && dy * dy >= 0)
            by (nonlinear_arith)
            requires -2_000_000_000 <= dx <= 2_000_000_000 && -2_000_000_000 <= dy <= 2_000_000_000
        {}
        let d2 = (dx * dx + dy * dy) as u64;
        let r = isqrt(d2);
        proof {
            lemma_sqrt_floor(dist_sq(*self, *other));
            lemma_sqrt_floor_unique(dist_sq(*self, *other), r as int, dist(*self, *other));
        }
        r as i64
    }

    /// Exact value equality of the two coordinates.
    pub fn equals(&self, other: &Point) -> (r: bool)
        ensures
            r == (*self == *other),
    {
        self.x == other.x && self.y == other.y
    }

    /// The point with both coordinates set to `value`.
    pub fn wrap(value: i64) -> (r: Point)
        ensures
            r.x == value,
            r.y == value,
    {
        Point { x: value, y: value }
    }

    /// Whether the first `v1.len()` points of the two states are equal.
    pub fn all_equal(v1: &Vec<Point>, v2: &Vec<Point>) -> (r: bool)
        requires
            v1@.len() <= v2@.len(),
        ensures
            r == (forall|i: int| 0 <= i < v1@.len() ==> v1@[i] == v2@[i]),
    {
        let mut b = true;
        let mut i: usize = 0;
        while i < v1.len()
            invariant
                0 <= i <= v1@.len() <= v2@.len(),
                b == (forall|j: int| 0 <= j < i ==> v1@[j] == v2@[j]),
            decreases v1@.len() - i,
        {
            if !v1[i].equals(&v2[i]) {
                b = false;
                i = v1.len();
            } else {
                i = i + 1;
            }
        }
        b
    }
}

/// Sum of the first `g` group sizes: the index of the first slot of group
/// `g`.
pub open spec fn count_prefix(counts: Seq<usize>, g: int) -> int
    decreases g,
{
    if g <= 0 {
        0
    } else {
        count_prefix(counts, g - 1) + counts[g - 1]
    }
}

pub proof fn lemma_count_prefix_monotone(counts: Seq<usize>, g1: int, g2: int)
    requires
        0 <= g1 <= g2,
    ensures
        count_prefix(counts, g1) <= count_prefix(counts, g2),
    decreases g2 - g1,
{
    if g1 < g2 {
        lemma_count_prefix_monotone(counts, g1, g2 - 1);
    }
}

/// The group whose contiguous block of slots holds slot `k`.
pub open spec fn slot_group(counts: Seq<usize>, k: int) -> int
    decreases counts.len(),
{
    if counts.len() == 0 {
        0
    } else if k < counts[0] {
        0
    } else {
        1 + slot_group(counts.subrange(1, counts.len() as int), k - counts[0])
    }
}

pub proof fn lemma_count_prefix_tail(counts: Seq<usize>, g: int)
    requires
        1 <= g <= counts.len(),
    ensures
        count_prefix(counts, g) == counts[0]
            + count_prefix(counts.subrange(1, counts.len() as int), g - 1),
    decreases g,
{
    let tail = counts.subrange(1, counts.len() as int);
    if g == 1 {
        assert(count_prefix(counts, 1) == count_prefix(counts, 0) + counts[0]);
        assert(count_prefix(tail, 0) == 0);
    } else {
        lemma_count_prefix_tail(counts, g - 1);
        assert(tail[g - 2] == counts[g - 1]);
        assert(count_prefix(counts, g) == count_prefix(counts, g - 1) + counts[g - 1]);
        assert(count_prefix(tail, g - 1) == count_prefix(tail, g - 2) + tail[g - 2]);
    }
}

/// Slot `count_prefix(counts, g) + j` of block `g` belongs to group `g`.
pub proof fn lemma_slot_group(counts: Seq<usize>, g: int, j: int)
    requires
        0 <= g < counts.len(),
        0 <= j < counts[g],
    ensures
        slot_group(counts, count_prefix(counts, g) + j) == g,
    decreases g,
{
    if g == 0 {
    } else {
        let tail = counts.subrange(1, counts.len() as int);
        lemma_count_prefix_monotone(counts, 1, g);
        lemma_count_prefix_tail(counts, g);
        assert(tail[g - 1] == counts[g]);
        lemma_slot_group(tail, g - 1, j);
    }
}

/// The immutable problem definition: bounding rectangle, group sizes and
/// group radii.
#[derive(Debug)]
pub struct Configuration {
    pub w: i64,
    pub h: i64,
    pub n: usize,
    pub counts: Vec<usize>,
    pub radius: Vec<i64>,
}

impl Configuration {
    /// Structural soundness: one radius per group, group sizes summing to
    /// `n`, and all dimensions non-negative and representable. The point
    /// count is capped so that every penalty sum stays representable.
    pub open spec fn wf(self) -> bool {
        &&& self.counts@.len() == self.radius@.len()
        &&& count_prefix(self.counts@, self.counts@.len() as int) == self.n
        &&& self.n <= 1_000_000
        &&& 0 <= self.w <= DIM_LIMIT
        &&& 0 <= self.h <= DIM_LIMIT
        &&& forall|g: int|
            0 <= g < self.radius@.len() ==> 0 <= #[trigger] self.radius@[g] <= DIM_LIMIT
    }

    /// The empty configuration, to be filled field by field.
    pub fn new() -> (c: Configuration)
        ensures
            c.w == 0 && c.h == 0 && c.n == 0,
            c.counts@.len() == 0 && c.radius@.len() == 0,
            c.wf(),
    {
        Configuration { w: 0, h: 0, n: 0, counts: Vec::new(), radius: Vec::new() }
    }
}

/// A state is one candidate placement: `n` points, all inside the
/// representable coordinate band.
pub open spec fn state_wf(conf: Configuration, s: Seq<Point>) -> bool {
    &&& s.len() == conf.n
    &&& forall|i: int| 0 <= i < s.len() ==> in_band(#[trigger] s[i])
}

#[derive(Clone, Copy, PartialEq, Eq, Structural, Debug)]
pub struct Circle {
    pub center: Point,
    pub radius: i64,
}

/// Every slot below the total count belongs to a real group.
pub proof fn lemma_slot_group_in_range(counts: Seq<usize>, k: int)
    requires
        0 <= k < count_prefix(counts, counts.len() as int),
    ensures
        0 <= slot_group(counts, k) < counts.len(),
    decreases counts.len(),
{
    if counts.len() == 0 {
    } else if k < counts[0] {
    } else {
        let tail = counts.subrange(1, counts.len() as int);
        lemma_count_prefix_tail(counts, counts.len() as int);
        lemma_slot_group_in_range(tail, k - counts[0]);
    }
}

/// The radius that slot `k` of a state carries: the radius of the group
/// whose block holds `k`.
pub open spec fn slot_radius(conf: Configuration, k: int) -> i64 {
    conf.radius@[slot_group(conf.counts@, k)]
}

/// The circle that slot `k` of `s` defines.
pub open spec fn circle_at(conf: Configuration, s: Seq<Point>, k: int) -> Circle {
    Circle { center: s[k], radius: slot_radius(conf, k) }
}

/// The circles a well-formed configuration derives from `state`: circle `k`
/// is centred on point `k` and carries the radius of the group whose block
/// holds slot `k`.
pub open spec fn circles_of(conf: Configuration, state: Seq<Point>, cs: Seq<Circle>) -> bool {
    &&& cs.len() == conf.n
    &&& forall|k: int|
        0 <= k < cs.len()
            ==> (#[trigger] cs[k]).center == state[k] && cs[k].radius == slot_radius(conf, k)
}

impl Circle {
    /// Whether `p` lies inside this circle (boundary included).
    pub fn contains(&self, p: &Point) -> (r: bool)
        requires
            in_band(self.center),
            in_band(*p),
        ensures
            r == (dist(self.center, *p) <= self.radius),
    {
        let d = self.center.distance(p);
        d <= self.radius
    }

    /// Expand a state into its per-point `(center, radius)` views, in slot
    /// order.
    pub fn from_state(conf: &Configuration, state: &Vec<Point>) -> (v: Vec<Circle>)
        requires
            conf.wf(),
            state@.len() == conf.n,
        ensures
            circles_of(*conf, state@, v@),
    {
        let mut v: Vec<Circle> = Vec::new();
        let mut off: usize = 0;
        let mut g: usize = 0;
        proof {
            lemma_count_prefix_monotone(conf.counts@, 0, conf.counts@.len() as int);
        }
        while g < conf.counts.len()
            invariant
                conf.wf(),
                state@.len() == conf.n,
                0 <= g <= conf.counts@.len(),
                off == count_prefix(conf.counts@, g as int),
                off <= conf.n,
                v@.len() == off,
                forall|k: int|
                    0 <= k < v@.len()
                        ==> (#[trigger] v@[k]).center == state@[k]
                            && v@[k].radius == slot_radius(*conf, k),
            decreases conf.counts@.len() - g,
        {
            let count = conf.counts[g];
            proof {
                lemma_count_prefix_monotone(conf.counts@, g as int + 1, conf.counts@.len() as int);
            }
            let mut j: usize = 0;
            while j < count
                invariant
                    conf.wf(),
                    state@.len() == conf.n,
                    0 <= g < conf.counts@.len(),
                    count == conf.counts@[g as int],
                    off == count_prefix(conf.counts@, g as int),
                    off + count <= conf.n,
                    0 <= j <= count,
                    v@.len() == off + j,
                    forall|k: int|
                        0 <= k < v@.len()
                            ==> (#[trigger] v@[k]).center == state@[k]
                                && v@[k].radius == slot_radius(*conf, k),
            decreases count - j,
            {
                proof {
                    lemma_slot_group(conf.counts@, g as int, j as int);
                }
                v.push(Circle { center: state[off + j], radius: conf.radius[g] });
                j = j + 1;
            }
            off = off + count;
            g = g + 1;
        }
        v
    }
}

} // verus!
