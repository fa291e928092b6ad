//! Starting populations: uniform random placement, a skyline packing
//! heuristic, a single physics-like relaxation pass, and the boundary clamp
//! that keeps every circle inside the rectangle.

use vstd::prelude::*;

use crate::models::{
    circle_at, circles_of, count_prefix, dist, in_band, lemma_count_prefix_monotone,
    lemma_slot_group, lemma_slot_group_in_range, slot_radius, state_wf, Circle, Configuration,
    Point, COORD_LIMIT, DIM_LIMIT,
};
use crate::num::{div_trunc_i128, lemma_trunc_div_bound, trunc_div};
use crate::rng::gen_range_i64;

verus! {

/// One-sided clamp of a coordinate into `[r, dim - r]`: first the high side,
/// then the low side, exactly in that order (so a radius above `dim/2` ends
/// on the low side).
pub open spec fn clamp_coord(x: int, r: int, dim: int) -> int {
    let x1 = if x + r > dim {
        dim - r
    } else {
        x
    };
    if x1 - r < 0 {
        r
    } else {
        x1
    }
}

/// Both coordinates of `p` clamped for a circle of radius `r`.
pub open spec fn clamp_point(p: Point, r: int, w: int, h: int) -> Point {
    Point { x: clamp_coord(p.x as int, r, w) as i64, y: clamp_coord(p.y as int, r, h) as i64 }
}

/// What `normalize` leaves behind: every point equals its own clamp.
pub open spec fn normalized_state(conf: Configuration, s: Seq<Point>) -> bool {
    forall|j: int|
        0 <= j < s.len()
            ==> s[j] == clamp_point(
                #[trigger] s[j],
                slot_radius(conf, j) as int,
                conf.w as int,
                conf.h as int,
            )
}

/// Clamping is idempotent: a clamped coordinate clamps to itself.
pub proof fn lemma_clamp_idempotent(x: int, r: int, dim: int)
    ensures
        clamp_coord(clamp_coord(x, r, dim), r, dim) == clamp_coord(x, r, dim),
{
}

/// With `2 r <= dim`, the clamp lands inside `[r, dim - r]`.
pub proof fn lemma_clamp_bounds(x: int, r: int, dim: int)
    requires
        0 <= 2 * r <= dim,
    ensures
        r <= clamp_coord(x, r, dim) <= dim - r,
{
}

/// `normalize` is idempotent: a second pass over its output changes
/// nothing.
pub proof fn lemma_normalize_idempotent(conf: Configuration, s: Seq<Point>)
    requires
        normalized_state(conf, s),
    ensures
        forall|j: int|
            0 <= j < s.len()
                ==> clamp_point(
                    #[trigger] s[j],
                    slot_radius(conf, j) as int,
                    conf.w as int,
                    conf.h as int,
                ) == s[j],
{
}

/// When every group radius is at most half of each rectangle side, every
/// point of a normalized state lies in `[r, w - r] x [r, h - r]` for its
/// group radius `r`.
pub proof fn lemma_normalize_in_bounds(conf: Configuration, s: Seq<Point>, j: int)
    requires
        normalized_state(conf, s),
        0 <= j < s.len(),
        0 <= 2 * slot_radius(conf, j) <= conf.w,
        0 <= 2 * slot_radius(conf, j) <= conf.h,
    ensures
        slot_radius(conf, j) <= s[j].x <= conf.w - slot_radius(conf, j),
        slot_radius(conf, j) <= s[j].y <= conf.h - slot_radius(conf, j),
{
    let r = slot_radius(conf, j) as int;
    lemma_clamp_bounds(s[j].x as int, r, conf.w as int);
    lemma_clamp_bounds(s[j].y as int, r, conf.h as int);
}

/// Clamp one state to the area boundaries, group by group.
pub fn normalize_state(conf: &Configuration, state: &mut Vec<Point>)
    requires
        conf.wf(),
        state_wf(*conf, old(state)@),
    ensures
        final(state)@.len() == old(state)@.len(),
        forall|j: int|
            0 <= j < old(state)@.len()
                ==> final(state)@[j] == clamp_point(
                    old(state)@[j],
                    slot_radius(*conf, j) as int,
                    conf.w as int,
                    conf.h as int,
                ),
        state_wf(*conf, final(state)@),
        normalized_state(*conf, final(state)@),
{
    let ghost orig = state@;
    let mut off: usize = 0;
    let mut g: usize = 0;
    proof {
        lemma_count_prefix_monotone(conf.counts@, 0, conf.counts@.len() as int);
    }
    while g < conf.counts.len()
        invariant
            conf.wf(),
            state_wf(*conf, orig),
            state@.len() == orig.len(),
            0 <= g <= conf.counts@.len(),
            off == count_prefix(conf.counts@, g as int),
            off <= conf.n,
            forall|j: int|
                0 <= j < off
                    ==> state@[j] == clamp_point(
                        orig[j],
                        slot_radius(*conf, j) as int,
                        conf.w as int,
                        conf.h as int,
                    ),
            forall|j: int| off <= j < orig.len() ==> state@[j] == orig[j],
        decreases conf.counts@.len() - g,
    {
        let count = conf.counts[g];
        let radius = conf.radius[g];
        proof {
            lemma_count_prefix_monotone(conf.counts@, g as int + 1, conf.counts@.len() as int);
        }
        let mut j: usize = 0;
        while j < count
            invariant
                conf.wf(),
                state_wf(*conf, orig),
                state@.len() == orig.len(),
                0 <= g < conf.counts@.len(),
                count == conf.counts@[g as int],
                radius == conf.radius@[g as int],
                off == count_prefix(conf.counts@, g as int),
                off + count <= conf.n,
                0 <= j <= count,
                forall|jj: int|
                    0 <= jj < off + j
                        ==> state@[jj] == clamp_point(
                            orig[jj],
                            slot_radius(*conf, jj) as int,
                            conf.w as int,
                            conf.h as int,
                        ),
                forall|jj: int| off + j <= jj < orig.len() ==> state@[jj] == orig[jj],
            decreases count - j,
        {
            proof {
                lemma_slot_group(conf.counts@, g as int, j as int);
                assert(state@[off + j] == orig[off + j as int]);
                assert(in_band(orig[off + j as int]));
            }
            let p = state[off + j];
            let mut x = p.x;
            let mut y = p.y;
            if x + radius > conf.w {
                x = conf.w - radius;
            }
            if x - radius < 0 {
                x = radius;
            }
            if y + radius > conf.h {
                y = conf.h - radius;
            }
            if y - radius < 0 {
                y = radius;
            }
            state[off + j] = Point { x, y };
            j = j + 1;
        }
        off = off + count;
        g = g + 1;
    }
    proof {
        assert(off == conf.n);
        assert forall|j: int| 0 <= j < state@.len() implies in_band(#[trigger] state@[j])
            && state@[j] == clamp_point(
            state@[j],
            slot_radius(*conf, j) as int,
            conf.w as int,
            conf.h as int,
        ) by {
            lemma_slot_group_in_range(conf.counts@, j);
            let r = slot_radius(*conf, j) as int;
            lemma_clamp_idempotent(orig[j].x as int, r, conf.w as int);
            lemma_clamp_idempotent(orig[j].y as int, r, conf.h as int);
        }
    }
}

/// Clamp every state of a batch to the area boundaries.
pub fn normalize(conf: &Configuration, states: &mut Vec<Vec<Point>>)
    requires
        conf.wf(),
        forall|s: int| 0 <= s < old(states)@.len() ==> state_wf(*conf, #[trigger] old(states)@[s]@),
    ensures
        final(states)@.len() == old(states)@.len(),
        forall|s: int, j: int|
            0 <= s < old(states)@.len() && 0 <= j < old(states)@[s]@.len()
                ==> #[trigger] final(states)@[s]@[j] == clamp_point(
                    old(states)@[s]@[j],
                    slot_radius(*conf, j) as int,
                    conf.w as int,
                    conf.h as int,
                ),
        forall|s: int|
            0 <= s < final(states)@.len()
                ==> state_wf(*conf, #[trigger] final(states)@[s]@)
                    && normalized_state(*conf, final(states)@[s]@),
{
    let ghost orig = states@;
    let mut s: usize = 0;
    while s < states.len()
        invariant
            conf.wf(),
            states@.len() == orig.len(),
            forall|t: int| 0 <= t < orig.len() ==> state_wf(*conf, #[trigger] orig[t]@),
            0 <= s <= orig.len(),
            forall|t: int| s <= t < orig.len() ==> states@[t]@ == #[trigger] orig[t]@,
            forall|t: int, j: int|
                0 <= t < s && 0 <= j < orig[t]@.len()
                    ==> #[trigger] states@[t]@[j] == clamp_point(
                        orig[t]@[j],
                        slot_radius(*conf, j) as int,
                        conf.w as int,
                        conf.h as int,
                    ),
            forall|t: int|
                0 <= t < s
                    ==> state_wf(*conf, #[trigger] states@[t]@)
                        && normalized_state(*conf, states@[t]@)
                        && states@[t]@.len() == orig[t]@.len(),
        decreases orig.len() - s,
    {
        let mut st = copy_vec(&states[s]);
        proof {
            assert(states@[s as int]@ == orig[s as int]@);
            assert(state_wf(*conf, st@));
        }
        normalize_state(conf, &mut st);
        states[s] = st;
        s = s + 1;
    }
}

/// Draw `size` points, each coordinate uniform over the rectangle grid.
pub fn random_points(conf: &Configuration, rng: &mut rand::rngs::StdRng, size: usize) -> (v: Vec<
    Point,
>)
    requires
        1 <= conf.w <= DIM_LIMIT,
        1 <= conf.h <= DIM_LIMIT,
    ensures
        v@.len() == size,
        forall|i: int|
            0 <= i < size
                ==> 0 <= (#[trigger] v@[i]).x < conf.w && 0 <= v@[i].y < conf.h,
        forall|i: int| 0 <= i < size ==> in_band(#[trigger] v@[i]),
{
    let mut v: Vec<Point> = Vec::new();
    let mut i: usize = 0;
    while i < size
        invariant
            1 <= conf.w <= DIM_LIMIT,
            1 <= conf.h <= DIM_LIMIT,
            0 <= i <= size,
            v@.len() == i,
            forall|k: int|
                0 <= k < i
                    ==> 0 <= (#[trigger] v@[k]).x < conf.w && 0 <= v@[k].y < conf.h,
        decreases size - i,
    {
        let x = gen_range_i64(rng, 0, conf.w);
        let y = gen_range_i64(rng, 0, conf.h);
        v.push(Point { x, y });
        i = i + 1;
    }
    v
}

/// One force term along one axis: the displacement scaled by
/// `(1 - sum/d)`, computed as `((d - sum) * delta) / d` in truncating
/// integer arithmetic. Negative when the circles intersect (`d < sum`,
/// a repulsion), positive otherwise (an attraction).
pub open spec fn vfa_term(d: int, sum: int, delta: int) -> int {
    trunc_div((d - sum) * delta, d)
}

/// Accumulated repulsive (`push`) and attractive (`pull`) force sums of
/// one circle against a candidate list, with the number of contributing
/// candidates in each category.
pub struct VfaForces {
    pub push_x: int,
    pub push_y: int,
    pub n_push: int,
    pub pull_x: int,
    pub pull_y: int,
    pub n_pull: int,
}

/// The forces on circle `c` from the first `k` candidates. A candidate at
/// distance zero (in particular `c` itself) contributes nothing; one closer
/// than the sum of radii contributes a repulsive term, any other an
/// attractive term.
pub open spec fn vfa_forces(c: Circle, cands: Seq<Circle>, k: int) -> VfaForces
    decreases k,
{
    if k <= 0 {
        VfaForces { push_x: 0, push_y: 0, n_push: 0, pull_x: 0, pull_y: 0, n_pull: 0 }
    } else {
        let f = vfa_forces(c, cands, k - 1);
        let ca = cands[k - 1];
        let d = dist(c.center, ca.center);
        if d == 0 {
            f
        } else {
            let sum = c.radius + ca.radius;
            let tx = vfa_term(d, sum, ca.center.x - c.center.x);
            let ty = vfa_term(d, sum, ca.center.y - c.center.y);
            if d < sum {
                VfaForces {
                    push_x: f.push_x + tx,
                    push_y: f.push_y + ty,
                    n_push: f.n_push + 1,
                    pull_x: f.pull_x,
                    pull_y: f.pull_y,
                    n_pull: f.n_pull,
                }
            } else {
                VfaForces {
                    push_x: f.push_x,
                    push_y: f.push_y,
                    n_push: f.n_push,
                    pull_x: f.pull_x + tx,
                    pull_y: f.pull_y + ty,
                    n_pull: f.n_pull + 1,
                }
            }
        }
    }
}

/// The average of a force sum: zero when no candidate contributed.
pub open spec fn vfa_avg(s: int, n: int) -> int {
    if n > 0 {
        trunc_div(s, n)
    } else {
        0
    }
}

/// A value clamped into the representable coordinate band.
pub open spec fn clamp_band(v: int) -> int {
    if v > COORD_LIMIT {
        COORD_LIMIT as int
    } else if v < -COORD_LIMIT {
        -(COORD_LIMIT as int)
    } else {
        v
    }
}

/// The candidate list of the relaxation pass: every circle of the state,
/// then four zero-radius circles at the rectangle's corners.
pub open spec fn cands_of(conf: Configuration, s: Seq<Point>) -> Seq<Circle> {
    Seq::new(
        (conf.n + 4) as nat,
        |k: int|
            if k < conf.n {
                circle_at(conf, s, k)
            } else if k == conf.n {
                Circle { center: Point { x: 0, y: 0 }, radius: 0 }
            } else if k == conf.n + 1 {
                Circle { center: Point { x: 0, y: conf.h }, radius: 0 }
            } else if k == conf.n + 2 {
                Circle { center: Point { x: conf.w, y: 0 }, radius: 0 }
            } else {
                Circle { center: Point { x: conf.w, y: conf.h }, radius: 0 }
            },
    )
}

/// Where one relaxation pass moves the circle `c`: the averaged repulsive
/// and attractive forces are added to its center, and the result is kept
/// inside the coordinate band.
pub open spec fn vfa_point(c: Circle, cands: Seq<Circle>) -> Point {
    let f = vfa_forces(c, cands, cands.len() as int);
    Point {
        x: clamp_band(
            c.center.x + vfa_avg(f.push_x, f.n_push) + vfa_avg(f.pull_x, f.n_pull),
        ) as i64,
        y: clamp_band(
            c.center.y + vfa_avg(f.push_y, f.n_push) + vfa_avg(f.pull_y, f.n_pull),
        ) as i64,
    }
}

/// An exact copy of a vector of copyable values.
pub fn copy_vec<T: Copy>(v: &Vec<T>) -> (r: Vec<T>)
    ensures
        r@ == v@,
{
    let mut r: Vec<T> = Vec::new();
    let mut i: usize = 0;
    while i < v.len()
        invariant
            0 <= i <= v@.len(),
            r@ == v@.subrange(0, i as int),
        decreases v@.len() - i,
    {
        r.push(v[i]);
        i = i + 1;
    }
    proof {
        assert(r@ =~= v@);
    }
    r
}

/// One single relaxation pass: each point moves by the averaged repulsive
/// and attractive forces its circle receives from every other circle and
/// from the four rectangle corners, all measured on the original
/// positions.
pub fn vfa(conf: &Configuration, state: &mut Vec<Point>)
    requires
        conf.wf(),
        state_wf(*conf, old(state)@),
    ensures
        final(state)@.len() == conf.n,
        state_wf(*conf, final(state)@),
        forall|i: int|
            0 <= i < conf.n
                ==> final(state)@[i] == vfa_point(
                    circle_at(*conf, old(state)@, i),
                    cands_of(*conf, old(state)@),
                ),
{
    let ghost orig = state@;
    let circles = Circle::from_state(conf, state);
    let mut cand = copy_vec(&circles);
    cand.push(Circle { center: Point { x: 0, y: 0 }, radius: 0 });
    cand.push(Circle { center: Point { x: 0, y: conf.h }, radius: 0 });
    cand.push(Circle { center: Point { x: conf.w, y: 0 }, radius: 0 });
    cand.push(Circle { center: Point { x: conf.w, y: conf.h }, radius: 0 });
    proof {
        assert forall|k: int| 0 <= k < conf.n + 4 implies cand@[k] == cands_of(*conf, orig)[k] by {
            if k < conf.n {
                lemma_slot_group_in_range(conf.counts@, k);
            }
        }
        assert(cand@ =~= cands_of(*conf, orig));
        assert forall|k: int|
            0 <= k < cand@.len() implies in_band((#[trigger] cand@[k]).center) && 0
            <= cand@[k].radius <= DIM_LIMIT by {
            if k < conf.n {
                lemma_slot_group_in_range(conf.counts@, k);
            }
        }
    }
    let mut i: usize = 0;
    while i < circles.len()
        invariant
            conf.wf(),
            state_wf(*conf, orig),
            circles_of(*conf, orig, circles@),
            cand@ == cands_of(*conf, orig),
            cand@.len() == conf.n + 4,
            forall|k: int|
                0 <= k < cand@.len()
                    ==> in_band((#[trigger] cand@[k]).center) && 0 <= cand@[k].radius <= DIM_LIMIT,
            state@.len() == conf.n,
            0 <= i <= conf.n,
            forall|k: int|
                0 <= k < i
                    ==> #[trigger] state@[k] == vfa_point(circle_at(*conf, orig, k), cands_of(*conf, orig))
                        && in_band(state@[k]),
            forall|k: int| i <= k < conf.n ==> #[trigger] state@[k] == orig[k],
        decreases circles@.len() - i,
    {
        let c = circles[i];
        proof {
            lemma_slot_group_in_range(conf.counts@, i as int);
            assert(c == circle_at(*conf, orig, i as int));
        }
        let mut push_x: i128 = 0;
        let mut push_y: i128 = 0;
        let mut pull_x: i128 = 0;
        let mut pull_y: i128 = 0;
        let mut n_push: usize = 0;
        let mut n_pull: usize = 0;
        let mut j: usize = 0;
        while j < cand.len()
            invariant
                conf.wf(),
                cand@.len() == conf.n + 4,
                forall|k: int|
                    0 <= k < cand@.len()
                        ==> in_band((#[trigger] cand@[k]).center) && 0 <= cand@[k].radius
                            <= DIM_LIMIT,
                in_band(c.center),
                0 <= c.radius <= DIM_LIMIT,
                0 <= j <= cand@.len(),
                n_push <= j,
                n_pull <= j,
                vfa_forces(c, cand@, j as int) == (VfaForces {
                    push_x: push_x as int,
                    push_y: push_y as int,
                    n_push: n_push as int,
                    pull_x: pull_x as int,
                    pull_y: pull_y as int,
                    n_pull: n_pull as int,
                }),
                -(n_push * 6_000_000_000_000_000_000) <= push_x as int
                    <= n_push * 6_000_000_000_000_000_000,
                -(n_push * 6_000_000_000_000_000_000) <= push_y as int
                    <= n_push * 6_000_000_000_000_000_000,
                -(n_pull * 6_000_000_000_000_000_000) <= pull_x as int
                    <= n_pull * 6_000_000_000_000_000_000,
                -(n_pull * 6_000_000_000_000_000_000) <= pull_y as int
                    <= n_pull * 6_000_000_000_000_000_000,
            decreases cand@.len() - j,
        {
            let ca = cand[j];
            let d = c.center.distance(&ca.center);
            if d != 0 {
                let sum = c.radius + ca.radius;
                let dx = ca.center.x - c.center.x;
                let dy = ca.center.y - c.center.y;
                let ds = d - sum;
                assert(-(d as int) * 6_000_000_000_000_000_000 <= (ds as int) * (dx as int)
                    <= (d as int) * 6_000_000_000_000_000_000 && -(d as int)
                    * 6_000_000_000_000_000_000 <= (ds as int) * (dy as int) <= (d as int)
                    * 6_000_000_000_000_000_000) by (nonlinear_arith)
                    requires
                        -3_000_000_000 <= ds <= 3_000_000_000,
                        1 <= d <= 3_000_000_000,
                        -2_000_000_000 <= dx <= 2_000_000_000,
                        -2_000_000_000 <= dy <= 2_000_000_000,
                {}
                let num_x = (ds as i128) * (dx as i128);
                let num_y = (ds as i128) * (dy as i128);
                let tx = div_trunc_i128(num_x, d as i128);
                let ty = div_trunc_i128(num_y, d as i128);
                proof {
                    lemma_trunc_div_bound(num_x as int, d as int, 6_000_000_000_000_000_000);
                    lemma_trunc_div_bound(num_y as int, d as int, 6_000_000_000_000_000_000);
                }
                if d < sum {
                    proof {
                        assert((n_push + 1) * 6_000_000_000_000_000_000 == n_push
                            * 6_000_000_000_000_000_000 + 6_000_000_000_000_000_000)
                            by (nonlinear_arith)
                        {}
                        assert(n_push as int + 1 <= usize::MAX as int + 4);
                        assert((n_push as int + 1) * 6_000_000_000_000_000_000 < i128::MAX)
                            by (nonlinear_arith)
                            requires n_push as int + 1 <= usize::MAX as int + 4
                        {}
                    }
                    push_x = push_x + tx;
                    push_y = push_y + ty;
                    n_push = n_push + 1;
                } else {
                    proof {
                        assert((n_pull + 1) * 6_000_000_000_000_000_000 == n_pull
                            * 6_000_000_000_000_000_000 + 6_000_000_000_000_000_000)
                            by (nonlinear_arith)
                        {}
                        assert(n_pull as int + 1 <= usize::MAX as int + 4);
                        assert((n_pull as int + 1) * 6_000_000_000_000_000_000 < i128::MAX)
                            by (nonlinear_arith)
                            requires n_pull as int + 1 <= usize::MAX as int + 4
                        {}
                    }
                    pull_x = pull_x + tx;
                    pull_y = pull_y + ty;
                    n_pull = n_pull + 1;
                }
            }
            j = j + 1;
        }
        let pax: i128 = if n_push > 0 {
            proof {
                lemma_trunc_div_bound(push_x as int, n_push as int, 6_000_000_000_000_000_000);
            }
            div_trunc_i128(push_x, n_push as i128)
        } else {
            0
        };
        let pay: i128 = if n_push > 0 {
            proof {
                lemma_trunc_div_bound(push_y as int, n_push as int, 6_000_000_000_000_000_000);
            }
            div_trunc_i128(push_y, n_push as i128)
        } else {
            0
        };
        let plx: i128 = if n_pull > 0 {
            proof {
                lemma_trunc_div_bound(pull_x as int, n_pull as int, 6_000_000_000_000_000_000);
            }
            div_trunc_i128(pull_x, n_pull as i128)
        } else {
            0
        };
        let ply: i128 = if n_pull > 0 {
            proof {
                lemma_trunc_div_bound(pull_y as int, n_pull as int, 6_000_000_000_000_000_000);
            }
            div_trunc_i128(pull_y, n_pull as i128)
        } else {
            0
        };
        let vx: i128 = (c.center.x as i128) + pax + plx;
        let vy: i128 = (c.center.y as i128) + pay + ply;
        let nx: i64 = if vx > (COORD_LIMIT as i128) {
            COORD_LIMIT
        } else if vx < (-COORD_LIMIT as i128) {
            -COORD_LIMIT
        } else {
            vx as i64
        };
        let ny: i64 = if vy > (COORD_LIMIT as i128) {
            COORD_LIMIT
        } else if vy < (-COORD_LIMIT as i128) {
            -COORD_LIMIT
        } else {
            vy as i64
        };
        state[i] = Point { x: nx, y: ny };
        i = i + 1;
    }
}

/// One relaxation pass over every state of a batch.
pub fn vfa_batch(conf: &Configuration, states: &mut Vec<Vec<Point>>)
    requires
        conf.wf(),
        forall|s: int| 0 <= s < old(states)@.len() ==> state_wf(*conf, #[trigger] old(states)@[s]@),
    ensures
        final(states)@.len() == old(states)@.len(),
        forall|s: int| 0 <= s < final(states)@.len() ==> state_wf(*conf, #[trigger] final(states)@[s]@),
        forall|s: int, i: int|
            0 <= s < old(states)@.len() && 0 <= i < conf.n
                ==> #[trigger] final(states)@[s]@[i] == vfa_point(
                    circle_at(*conf, old(states)@[s]@, i),
                    cands_of(*conf, old(states)@[s]@),
                ),
{
    let ghost orig = states@;
    let mut s: usize = 0;
    while s < states.len()
        invariant
            conf.wf(),
            states@.len() == orig.len(),
            forall|t: int| 0 <= t < orig.len() ==> state_wf(*conf, #[trigger] orig[t]@),
            0 <= s <= orig.len(),
            forall|t: int| s <= t < orig.len() ==> states@[t]@ == #[trigger] orig[t]@,
            forall|t: int| 0 <= t < s ==> state_wf(*conf, #[trigger] states@[t]@),
            forall|t: int, i: int|
                0 <= t < s && 0 <= i < conf.n
                    ==> #[trigger] states@[t]@[i] == vfa_point(
                        circle_at(*conf, orig[t]@, i),
                        cands_of(*conf, orig[t]@),
                    ),
        decreases orig.len() - s,
    {
        let mut st = copy_vec(&states[s]);
        proof {
            assert(states@[s as int]@ == orig[s as int]@);
            assert(state_wf(*conf, st@));
        }
        vfa(conf, &mut st);
        states[s] = st;
        s = s + 1;
    }
}

/// One uniform random state: `n` points inside the rectangle.
pub fn random_state(conf: &Configuration, rng: &mut rand::rngs::StdRng) -> (v: Vec<Point>)
    requires
        1 <= conf.w <= DIM_LIMIT,
        1 <= conf.h <= DIM_LIMIT,
    ensures
        v@.len() == conf.n,
        state_wf(*conf, v@),
        forall|i: int|
            0 <= i < conf.n
                ==> 0 <= (#[trigger] v@[i]).x < conf.w && 0 <= v@[i].y < conf.h,
{
    random_points(conf, rng, conf.n)
}

/// The state a raw placement becomes after one relaxation pass and the
/// boundary clamp.
pub open spec fn relaxed_clamped(conf: Configuration, pre: Seq<Point>) -> Seq<Point> {
    Seq::new(
        conf.n as nat,
        |j: int|
            clamp_point(
                vfa_point(circle_at(conf, pre, j), cands_of(conf, pre)),
                slot_radius(conf, j) as int,
                conf.w as int,
                conf.h as int,
            ),
    )
}

/// The state a raw placement becomes after the boundary clamp alone.
pub open spec fn clamped_of(conf: Configuration, pre: Seq<Point>) -> Seq<Point> {
    Seq::new(
        conf.n as nat,
        |j: int|
            clamp_point(pre[j], slot_radius(conf, j) as int, conf.w as int, conf.h as int),
    )
}

/// The state is the relax-and-clamp image of some placement drawn inside
/// the rectangle.
pub open spec fn random_draw_image(conf: Configuration, s: Seq<Point>) -> bool {
    exists|pre: Seq<Point>|
        {
            &&& pre.len() == conf.n
            &&& forall|i: int|
                0 <= i < conf.n ==> 0 <= (#[trigger] pre[i]).x < conf.w && 0 <= pre[i].y < conf.h
            &&& s == #[trigger] relaxed_clamped(conf, pre)
        }
}

/// The state is the plain clamp image of some skyline placement: one whose
/// coordinates sit at or right of its group radius, with the horizontal
/// cursor inside the rectangle except at a row wrap.
pub open spec fn skyline_image(conf: Configuration, s: Seq<Point>) -> bool {
    exists|pre: Seq<Point>|
        {
            &&& pre.len() == conf.n
            &&& forall|j: int|
                0 <= j < conf.n
                    ==> slot_radius(conf, j) <= (#[trigger] pre[j]).x && (pre[j].x <= conf.w
                        || pre[j].x == slot_radius(conf, j)) && slot_radius(conf, j) <= pre[j].y
            &&& s == #[trigger] clamped_of(conf, pre)
        }
}

/// Random initialization: `size` uniform random states, each relaxed once,
/// then all clamped to the boundaries: every produced state is the
/// relax-and-clamp image of some uniform draw over the rectangle.
pub fn random_init(
    conf: &Configuration,
    rng: &mut rand::rngs::StdRng,
    size: usize,
) -> (states: Vec<Vec<Point>>)
    requires
        conf.wf(),
        conf.w >= 1,
        conf.h >= 1,
    ensures
        states@.len() == size,
        forall|s: int|
            0 <= s < size
                ==> state_wf(*conf, #[trigger] states@[s]@)
                    && normalized_state(*conf, states@[s]@),
        forall|s: int| 0 <= s < size ==> random_draw_image(*conf, #[trigger] states@[s]@),
{
    let mut states: Vec<Vec<Point>> = Vec::new();
    let mut i: usize = 0;
    while i < size
        invariant
            conf.wf(),
            conf.w >= 1,
            conf.h >= 1,
            0 <= i <= size,
            states@.len() == i,
            forall|s: int| 0 <= s < i ==> state_wf(*conf, #[trigger] states@[s]@),
            forall|s: int, k: int|
                0 <= s < i && 0 <= k < conf.n
                    ==> 0 <= (#[trigger] states@[s]@[k]).x < conf.w && 0 <= states@[s]@[k].y
                        < conf.h,
        decreases size - i,
    {
        let st = random_state(conf, rng);
        states.push(st);
        i = i + 1;
    }
    let ghost raw = states@;
    vfa_batch(conf, &mut states);
    let ghost relaxed = states@;
    normalize(conf, &mut states);
    proof {
        assert forall|s: int|
            0 <= s < size implies random_draw_image(*conf, #[trigger] states@[s]@) by {
            let pre = raw[s]@;
            assert(state_wf(*conf, pre));
            assert(pre.len() == conf.n);
            assert forall|i: int|
                0 <= i < conf.n implies 0 <= (#[trigger] pre[i]).x < conf.w && 0 <= pre[i].y
                < conf.h by {
                assert(raw[s]@[i] == pre[i]);
            }
            assert(states@[s]@ =~= relaxed_clamped(*conf, pre)) by {
                assert forall|j: int|
                    0 <= j < conf.n implies states@[s]@[j] == relaxed_clamped(*conf, pre)[j] by {
                    assert(relaxed[s]@[j] == vfa_point(
                        circle_at(*conf, pre, j),
                        cands_of(*conf, pre),
                    ));
                    assert(states@[s]@[j] == clamp_point(
                        relaxed[s]@[j],
                        slot_radius(*conf, j) as int,
                        conf.w as int,
                        conf.h as int,
                    ));
                }
            }
        }
    }
    states
}

/// The running coordinate bound of the skyline layout: a sum held inside
/// the coordinate band.
pub fn add_band(a: i64, b: i64) -> (r: i64)
    requires
        0 <= a <= COORD_LIMIT,
        0 <= b <= COORD_LIMIT,
    ensures
        0 <= r <= COORD_LIMIT,
        r == clamp_band(a + b),
{
    let s = a + b;
    if s > COORD_LIMIT {
        COORD_LIMIT
    } else {
        s
    }
}

/// One heuristic state: group radii are assigned to slots in a uniformly
/// shuffled order, and the circles are laid out in rows, the cursor
/// advancing by diameters and wrapping to a fresh row at the right edge.
pub fn heuristic_state(conf: &Configuration, rng: &mut rand::rngs::StdRng) -> (v: Vec<Point>)
    requires
        conf.wf(),
    ensures
        v@.len() == conf.n,
        state_wf(*conf, v@),
        forall|j: int|
            0 <= j < conf.n
                ==> slot_radius(*conf, j) <= (#[trigger] v@[j]).x && ((v@[j]).x <= conf.w
                    || (v@[j]).x == slot_radius(*conf, j)) && slot_radius(*conf, j) <= v@[j].y,
{
    let mut state: Vec<Point> = Vec::new();
    let mut i: usize = 0;
    while i < conf.n
        invariant
            0 <= i <= conf.n,
            state@.len() == i,
            forall|k: int| 0 <= k < i ==> #[trigger] state@[k] == (Point { x: 0i64, y: 0i64 }),
        decreases conf.n - i,
    {
        state.push(Point { x: 0, y: 0 });
        i = i + 1;
    }
    let circles = Circle::from_state(conf, &state);
    let mut indices: Vec<usize> = Vec::new();
    let mut i: usize = 0;
    while i < conf.n
        invariant
            0 <= i <= conf.n,
            indices@.len() == i,
            forall|k: int| 0 <= k < i ==> #[trigger] indices@[k] == k,
        decreases conf.n - i,
    {
        indices.push(i);
        i = i + 1;
    }
    let ghost before = indices@;
    crate::rng::shuffle_indices(rng, &mut indices);
    proof {
        broadcast use vstd::seq_lib::group_to_multiset_ensures;

        assert forall|k: int| 0 <= k < indices@.len() implies #[trigger] indices@[k] < conf.n by {
            assert(indices@.contains(indices@[k]));
            assert(indices@.to_multiset().count(indices@[k]) > 0);
            assert(before.to_multiset().count(indices@[k]) > 0);
            assert(before.contains(indices@[k]));
        }
        assert(before.no_duplicates());
        before.lemma_multiset_has_no_duplicates();
        assert forall|x: usize|
            indices@.to_multiset().contains(x) implies indices@.to_multiset().count(x) == 1 by {
            assert(before.to_multiset().count(x) == indices@.to_multiset().count(x));
        }
        indices@.lemma_multiset_has_no_duplicates_conv();
    }
    proof {
        assert forall|k: int|
            0 <= k < conf.n implies 0 <= (#[trigger] circles@[k]).radius <= DIM_LIMIT
            && circles@[k].radius == slot_radius(*conf, k) by {
            lemma_slot_group_in_range(conf.counts@, k);
        }
    }
    let mut cur_x: i64 = 0;
    let mut cur_y: i64 = 0;
    let mut y_offset: i64 = 0;
    let mut i: usize = 0;
    while i < indices.len()
        invariant
            conf.wf(),
            circles@.len() == conf.n,
            forall|k: int|
                0 <= k < conf.n
                    ==> 0 <= (#[trigger] circles@[k]).radius <= DIM_LIMIT && circles@[k].radius
                        == slot_radius(*conf, k),
            indices@.len() == before.len(),
            indices@.len() == conf.n,
            forall|k: int| 0 <= k < indices@.len() ==> #[trigger] indices@[k] < conf.n,
            forall|a: int, b: int|
                0 <= a < b < indices@.len() ==> indices@[a] != indices@[b],
            indices@.to_multiset() == before.to_multiset(),
            before.len() == conf.n,
            forall|k: int| 0 <= k < before.len() ==> #[trigger] before[k] == k,
            state@.len() == conf.n,
            0 <= i <= indices@.len(),
            0 <= cur_x <= COORD_LIMIT,
            0 <= cur_y <= COORD_LIMIT,
            0 <= y_offset <= COORD_LIMIT,
            forall|k: int|
                0 <= k < conf.n
                    ==> 0 <= (#[trigger] state@[k]).x <= COORD_LIMIT && 0 <= state@[k].y
                        <= COORD_LIMIT,
            forall|k: int|
                0 <= k < i
                    ==> slot_radius(*conf, #[trigger] indices@[k] as int) <= state@[indices@[k]
                        as int].x && (state@[indices@[k] as int].x <= conf.w || state@[indices@[k]
                        as int].x == slot_radius(*conf, indices@[k] as int)) && slot_radius(
                        *conf,
                        indices@[k] as int,
                    ) <= state@[indices@[k] as int].y,
        decreases indices@.len() - i,
    {
        let idx = indices[i];
        let r = circles[idx].radius;
        cur_x = add_band(cur_x, r);
        cur_y = add_band(y_offset, r);
        if cur_x > conf.w {
            cur_x = r;
            y_offset = cur_y;
            cur_y = add_band(cur_y, r);
        }
        state[idx] = Point { x: cur_x, y: cur_y };
        cur_x = add_band(cur_x, r);
        i = i + 1;
    }
    proof {
        broadcast use vstd::seq_lib::group_to_multiset_ensures;

        assert forall|j: int|
            0 <= j < conf.n implies slot_radius(*conf, j) <= (#[trigger] state@[j]).x && (state@[
        j].x <= conf.w || state@[j].x == slot_radius(*conf, j)) && slot_radius(*conf, j)
            <= state@[j].y by {
            let vj = before[j];
            assert(before.contains(vj));
            assert(before.to_multiset().count(vj) > 0);
            assert(indices@.to_multiset().count(vj) > 0);
            assert(indices@.contains(vj));
            let k = choose|k: int| 0 <= k < indices@.len() && indices@[k] == vj;
            assert(indices@[k] as int == j);
        }
        assert forall|k: int|
            0 <= k < conf.n implies in_band(#[trigger] state@[k]) by {}
    }
    state
}

/// Heuristic initialization: `size` skyline-packed states, all clamped to
/// the boundaries with no relaxation pass: every produced state is the
/// plain clamp image of one skyline placement.
pub fn heuristic_init(
    conf: &Configuration,
    rng: &mut rand::rngs::StdRng,
    size: usize,
) -> (states: Vec<Vec<Point>>)
    requires
        conf.wf(),
    ensures
        states@.len() == size,
        forall|s: int|
            0 <= s < size
                ==> state_wf(*conf, #[trigger] states@[s]@)
                    && normalized_state(*conf, states@[s]@),
        forall|s: int| 0 <= s < size ==> skyline_image(*conf, #[trigger] states@[s]@),
{
    let mut states: Vec<Vec<Point>> = Vec::new();
    let mut i: usize = 0;
    while i < size
        invariant
            conf.wf(),
            0 <= i <= size,
            states@.len() == i,
            forall|s: int| 0 <= s < i ==> state_wf(*conf, #[trigger] states@[s]@),
            forall|s: int, j: int|
                0 <= s < i && 0 <= j < conf.n
                    ==> slot_radius(*conf, j) <= (#[trigger] states@[s]@[j]).x && (states@[s]@[
                    j].x <= conf.w || states@[s]@[j].x == slot_radius(*conf, j)) && slot_radius(
                        *conf,
                        j,
                    ) <= states@[s]@[j].y,
        decreases size - i,
    {
        let st = heuristic_state(conf, rng);
        states.push(st);
        i = i + 1;
    }
    let ghost raw = states@;
    normalize(conf, &mut states);
    proof {
        assert forall|s: int|
            0 <= s < size implies skyline_image(*conf, #[trigger] states@[s]@) by {
            let pre = raw[s]@;
            assert(state_wf(*conf, pre));
            assert(pre.len() == conf.n);
            assert forall|j: int|
                0 <= j < conf.n implies slot_radius(*conf, j) <= (#[trigger] pre[j]).x && (pre[
            j].x <= conf.w || pre[j].x == slot_radius(*conf, j)) && slot_radius(*conf, j)
                <= pre[j].y by {
                assert(raw[s]@[j] == pre[j]);
            }
            assert(states@[s]@ =~= clamped_of(*conf, pre)) by {
                assert forall|j: int|
                    0 <= j < conf.n implies states@[s]@[j] == clamped_of(*conf, pre)[j] by {
                    assert(states@[s]@[j] == clamp_point(
                        pre[j],
                        slot_radius(*conf, j) as int,
                        conf.w as int,
                        conf.h as int,
                    ));
                }
            }
        }
    }
    states
}

} // verus!
