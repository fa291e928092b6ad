//! Fitness evaluation: the analytic overlap penalty (0 is optimal) and the
//! Monte Carlo coverage estimate.

use vstd::prelude::*;

use crate::models::{
    circle_at, dist, dist_sq, in_band, lemma_slot_group_in_range, slot_radius, state_wf, Circle,
    Configuration, Point, DIM_LIMIT,
};
use crate::num::{
    div_trunc_i128, lemma_sqrt_floor, lemma_sqrt_floor_ge, lemma_trunc_div_bound, trunc_div,
};
use crate::init::random_points;

verus! {

pub open spec fn imin(a: int, b: int) -> int {
    if a <= b {
        a
    } else {
        b
    }
}

pub open spec fn imax(a: int, b: int) -> int {
    if a >= b {
        a
    } else {
        b
    }
}

pub open spec fn iabs(a: int) -> int {
    if a >= 0 {
        a
    } else {
        -a
    }
}

/// The two largest values among the first `k` group radii, largest first
/// (0 where fewer than two groups exist).
pub open spec fn top2_radius(rs: Seq<i64>, k: int) -> (int, int)
    decreases k,
{
    if k <= 0 {
        (0int, 0int)
    } else {
        let p = top2_radius(rs, k - 1);
        let r = rs[k - 1] as int;
        if r >= p.0 {
            (r, p.0)
        } else if r > p.1 {
            (p.0, r)
        } else {
            p
        }
    }
}

/// The smallest value among the first `k` group radii.
pub open spec fn min_radius(rs: Seq<i64>, k: int) -> int
    decreases k,
{
    if k <= 0 {
        i64::MAX as int
    } else {
        imin(min_radius(rs, k - 1), rs[k - 1] as int)
    }
}

pub proof fn lemma_top2_order(rs: Seq<i64>, k: int)
    ensures
        0 <= top2_radius(rs, k).1 <= top2_radius(rs, k).0,
    decreases (if k <= 0 { 0int } else { k }),
{
    if k > 0 {
        lemma_top2_order(rs, k - 1);
    }
}

/// The largest entry dominates every group radius.
pub proof fn lemma_top2_ge(rs: Seq<i64>, k: int, g: int)
    requires
        0 <= g < k,
    ensures
        top2_radius(rs, k).0 >= rs[g],
    decreases k,
{
    lemma_top2_order(rs, k - 1);
    if g < k - 1 {
        lemma_top2_ge(rs, k - 1, g);
    }
}

pub proof fn lemma_min_radius_le(rs: Seq<i64>, k: int, g: int)
    requires
        0 <= g < k,
    ensures
        min_radius(rs, k) <= rs[g],
    decreases k,
{
    if g < k - 1 {
        lemma_min_radius_le(rs, k - 1, g);
    }
}

pub proof fn lemma_min_radius_pos(rs: Seq<i64>, k: int)
    requires
        forall|g: int| 0 <= g < k ==> #[trigger] rs[g] >= 1,
        k >= 0,
    ensures
        min_radius(rs, k) >= 1,
    decreases k,
{
    if k > 0 {
        lemma_min_radius_pos(rs, k - 1);
    }
}

/// Numerator of the containment penalty factor `beta`, at a denominator of
/// `r1 * rk * 100`: `beta = ((r1 + r2) * r2) / (r1 * rk) + 1/100`.
pub open spec fn beta_num(r1: int, r2: int, rk: int) -> int {
    (r1 + r2) * r2 * 100 + r1 * rk
}

pub open spec fn beta_den(r1: int, rk: int) -> int {
    r1 * rk * 100
}

/// The penalty one ordered circle pair contributes. A pair at distance 0
/// contributes nothing; a properly intersecting pair contributes
/// `gamma * (r1 + r2 - d)` where `gamma = (r1 + r2) * min / (R1 * max)`;
/// a contained pair contributes `beta * min`.
pub open spec fn pair_overlap(c1: Circle, c2: Circle, r1g: int, bn: int, bd: int) -> int {
    let d = dist(c1.center, c2.center);
    let rsum = c1.radius + c2.radius;
    let rdiff = iabs(c1.radius - c2.radius);
    if d == 0 {
        0
    } else if d < rsum && d >= rdiff {
        trunc_div(
            rsum * imin(c1.radius as int, c2.radius as int) * (rsum - d),
            r1g * imax(c1.radius as int, c2.radius as int),
        )
    } else if d < rdiff {
        trunc_div(bn * imin(c1.radius as int, c2.radius as int), bd)
    } else {
        0
    }
}

/// The penalty a circle pays for spilling over one rectangle corner:
/// `(radius - d) * radius` whenever the corner lies strictly inside it.
pub open spec fn corner_overlap(c: Circle, p: Point) -> int {
    let d = dist(c.center, p);
    if d < c.radius {
        trunc_div((c.radius - d) * c.radius, 1000)
    } else {
        0
    }
}

/// Penalty of circle `c1` against the first `k` circles of the list.
pub open spec fn pair_row(c1: Circle, cs: Seq<Circle>, k: int, r1g: int, bn: int, bd: int) -> int
    decreases k,
{
    if k <= 0 {
        0
    } else {
        pair_row(c1, cs, k - 1, r1g, bn, bd) + pair_overlap(c1, cs[k - 1], r1g, bn, bd)
    }
}

/// Penalty of circle `c` against the first `k` corners.
pub open spec fn corner_row(c: Circle, ps: Seq<Point>, k: int) -> int
    decreases k,
{
    if k <= 0 {
        0
    } else {
        corner_row(c, ps, k - 1) + corner_overlap(c, ps[k - 1])
    }
}

/// Total penalty of the first `k` circles, each against every circle and
/// every corner.
pub open spec fn overlap_rows(
    cs: Seq<Circle>,
    ps: Seq<Point>,
    k: int,
    r1g: int,
    bn: int,
    bd: int,
) -> int
    decreases k,
{
    if k <= 0 {
        0
    } else {
        overlap_rows(cs, ps, k - 1, r1g, bn, bd) + pair_row(cs[k - 1], cs, cs.len() as int, r1g, bn, bd)
            + corner_row(cs[k - 1], ps, ps.len() as int)
    }
}

/// The four rectangle corners.
pub open spec fn corners_of(conf: Configuration) -> Seq<Point> {
    seq![
        Point { x: 0, y: 0 },
        Point { x: 0, y: conf.h },
        Point { x: conf.w, y: 0 },
        Point { x: conf.w, y: conf.h },
    ]
}

/// The circles a state derives, as a sequence.
pub open spec fn circles_seq(conf: Configuration, s: Seq<Point>) -> Seq<Circle> {
    Seq::new(conf.n as nat, |k: int| circle_at(conf, s, k))
}

/// The overlap penalty of a state: intersection and containment penalties
/// over all ordered circle pairs, plus the corner spill penalties.
pub open spec fn overlap_spec(conf: Configuration, s: Seq<Point>) -> int {
    let cs = circles_seq(conf, s);
    let rs = conf.radius@;
    let p = top2_radius(rs, rs.len() as int);
    let rk = min_radius(rs, rs.len() as int);
    overlap_rows(
        cs,
        corners_of(conf),
        conf.n as int,
        p.0,
        beta_num(p.0, p.1, rk),
        beta_den(p.0, rk),
    )
}

/// Every group radius is at least one coordinate unit (the degenerate
/// zero-radius group would make the containment factor unbounded).
pub open spec fn positive_radii(conf: Configuration) -> bool {
    forall|g: int| 0 <= g < conf.radius@.len() ==> #[trigger] conf.radius@[g] >= 1
}

/// One pair term is non-negative and under the fixed per-term cap.
proof fn lemma_pair_term_bounds(c1: Circle, c2: Circle, r1g: int, r2g: int, rk: int)
    requires
        1 <= c1.radius <= r1g,
        1 <= c2.radius <= r1g,
        r1g <= DIM_LIMIT,
        0 <= r2g <= r1g,
        1 <= rk <= DIM_LIMIT,
    ensures
        0 <= pair_overlap(c1, c2, r1g, beta_num(r1g, r2g, rk), beta_den(r1g, rk))
            <= 600_000_000_000_000_000,
{
    let d = dist(c1.center, c2.center);
    let rsum = c1.radius + c2.radius;
    let rdiff = iabs(c1.radius - c2.radius);
    let mn = imin(c1.radius as int, c2.radius as int);
    let mx = imax(c1.radius as int, c2.radius as int);
    if d == 0 {
    } else if d < rsum && d >= rdiff {
        let num = rsum * mn * (rsum - d);
        let den = r1g * mx;
        assert(den >= 1) by (nonlinear_arith)
            requires r1g >= 1 && mx >= 1 && den == r1g * mx
        {}
        assert(1 <= rsum - d && 2 * (rsum - d) <= 600_000_000_000_000_000);
        assert(0 <= num <= den * (2 * (rsum - d))) by (nonlinear_arith)
            requires
                1 <= mn <= mx <= r1g,
                0 <= rsum <= 2 * r1g,
                num == rsum * mn * (rsum - d),
                den == r1g * mx,
                1 <= rsum - d,
        {}
        assert(den * (2 * (rsum - d)) <= den * 600_000_000_000_000_000) by (nonlinear_arith)
            requires den >= 1 && 0 <= 2 * (rsum - d) <= 600_000_000_000_000_000
        {}
        lemma_trunc_div_bound(num, den, 2 * (rsum - d));
        assert(trunc_div(num, den) >= 0) by {
            vstd::arithmetic::div_mod::lemma_div_pos_is_pos(num, den);
        }
    } else if d < rdiff {
        let bn = beta_num(r1g, r2g, rk);
        let bd = beta_den(r1g, rk);
        assert(0 <= bn * mn <= bd * 600_000_000_000_000_000) by (nonlinear_arith)
            requires
                bn == (r1g + r2g) * r2g * 100 + r1g * rk,
                bd == r1g * rk * 100,
                1 <= rk <= DIM_LIMIT,
                0 <= r2g <= r1g <= DIM_LIMIT,
                1 <= r1g,
                1 <= mn <= r1g,
        {}
        assert(bd >= 100) by (nonlinear_arith)
            requires r1g >= 1 && rk >= 1 && bd == r1g * rk * 100
        {}
        lemma_trunc_div_bound(bn * mn, bd, 600_000_000_000_000_000);
        assert(trunc_div(bn * mn, bd) >= 0) by {
            vstd::arithmetic::div_mod::lemma_div_pos_is_pos(bn * mn, bd);
        }
    } else {
    }
}

/// One corner term is non-negative and under the fixed per-term cap.
proof fn lemma_corner_term_bounds(c: Circle, p: Point)
    requires
        0 <= c.radius <= DIM_LIMIT,
    ensures
        0 <= corner_overlap(c, p) <= 600_000_000_000_000_000,
{
    let d = dist(c.center, p);
    if d < c.radius {
        lemma_sqrt_floor_nonneg_dist(c.center, p);
        let num = (c.radius - d) * c.radius;
        assert(0 <= num <= 1000 * 600_000_000_000_000_000) by (nonlinear_arith)
            requires 0 <= d && d < c.radius && c.radius <= DIM_LIMIT && num == (c.radius - d) * c.radius
        {}
        lemma_trunc_div_bound(num, 1000, 600_000_000_000_000_000);
        assert(trunc_div(num, 1000) >= 0) by {
            vstd::arithmetic::div_mod::lemma_div_pos_is_pos(num, 1000);
        }
    }
}

/// Distances are never negative.
proof fn lemma_sqrt_floor_nonneg_dist(a: Point, b: Point)
    ensures
        dist(a, b) >= 0,
        dist_sq(a, b) >= 0,
{
    assert(dist_sq(a, b) >= 0) by (nonlinear_arith) {}
    lemma_sqrt_floor(dist_sq(a, b));
}

/// The analytic overlap penalty of a state, in coordinate units; 0 is
/// optimal, lower is better.
pub fn overlap(conf: &Configuration, state: &Vec<Point>) -> (ov: i128)
    requires
        conf.wf(),
        state_wf(*conf, state@),
        positive_radii(*conf),
    ensures
        ov == overlap_spec(*conf, state@),
        ov >= 0,
{
    let circles = Circle::from_state(conf, state);
    let mut corners: Vec<Point> = Vec::new();
    corners.push(Point { x: 0, y: 0 });
    corners.push(Point { x: 0, y: conf.h });
    corners.push(Point { x: conf.w, y: 0 });
    corners.push(Point { x: conf.w, y: conf.h });
    proof {
        assert(corners@ =~= corners_of(*conf));
        assert(circles@ =~= circles_seq(*conf, state@));
    }
    let ghost rs = conf.radius@;
    let mut r1g: i64 = 0;
    let mut r2g: i64 = 0;
    let mut rkg: i64 = i64::MAX;
    let mut g: usize = 0;
    while g < conf.radius.len()
        invariant
            conf.wf(),
            positive_radii(*conf),
            0 <= g <= rs.len(),
            rs == conf.radius@,
            r1g as int == top2_radius(rs, g as int).0,
            r2g as int == top2_radius(rs, g as int).1,
            rkg as int == min_radius(rs, g as int),
            0 <= r2g <= r1g <= DIM_LIMIT,
        decreases rs.len() - g,
    {
        let r = conf.radius[g];
        if r >= r1g {
            r2g = r1g;
            r1g = r;
        } else if r > r2g {
            r2g = r;
        }
        if r < rkg {
            rkg = r;
        }
        g = g + 1;
    }
    proof {
        lemma_min_radius_pos(rs, rs.len() as int);
        if conf.n >= 1 {
            assert(rs.len() >= 1);
            lemma_min_radius_le(rs, rs.len() as int, 0);
        }
    }
    assert(0 <= (r1g as i128 + r2g as i128) * (r2g as i128) * 100
        <= 100_000_000_000_000_000_000 && 0 <= (r1g as i128) * (rkg as i128)
        <= 5_000_000_000_000_000_000_000_000_000) by (nonlinear_arith)
        requires 0 <= r2g <= r1g <= 500_000_000 && 1 <= rkg <= i64::MAX
    {}
    let bn: i128 = (r1g as i128 + r2g as i128) * (r2g as i128) * 100 + (r1g as i128) * (rkg
        as i128);
    let bd: i128 = (r1g as i128) * (rkg as i128) * 100;
    proof {
        assert(bn as int == beta_num(r1g as int, r2g as int, rkg as int)) by (nonlinear_arith)
            requires bn as int == (r1g as int + r2g as int) * (r2g as int) * 100 + (r1g as int)
                * (rkg as int)
        {}
        assert(bd as int == beta_den(r1g as int, rkg as int));
        if conf.n >= 1 {
            assert(bn <= 100_000_000_000_000_000_000 + (r1g as i128) * (rkg as i128)
                && (r1g as i128) * (rkg as i128) <= 250_000_000_000_000_000) by (nonlinear_arith)
                requires
                    0 <= r2g <= r1g <= 500_000_000,
                    1 <= rkg <= 500_000_000,
                    bn == (r1g as i128 + r2g as i128) * (r2g as i128) * 100 + (r1g as i128) * (rkg
                        as i128),
            {}
        }
        assert forall|k: int|
            0 <= k < conf.n implies in_band((#[trigger] circles@[k]).center) && 1 <= circles@[
            k].radius <= r1g && circles@[k].radius <= DIM_LIMIT by {
            lemma_slot_group_in_range(conf.counts@, k);
            lemma_top2_ge(rs, rs.len() as int, crate::models::slot_group(conf.counts@, k));
        }
    }
    let mut ov: i128 = 0;
    let mut i: usize = 0;
    while i < circles.len()
        invariant
            conf.wf(),
            positive_radii(*conf),
            rs == conf.radius@,
            circles@ == circles_seq(*conf, state@),
            circles@.len() == conf.n,
            corners@ == corners_of(*conf),
            corners@.len() == 4,
            forall|k: int|
                0 <= k < conf.n
                    ==> in_band((#[trigger] circles@[k]).center) && 1 <= circles@[k].radius
                        <= r1g && circles@[k].radius <= DIM_LIMIT,
            r1g as int == top2_radius(rs, rs.len() as int).0,
            r2g as int == top2_radius(rs, rs.len() as int).1,
            rkg as int == min_radius(rs, rs.len() as int),
            0 <= r2g <= r1g <= DIM_LIMIT,
            1 <= rkg,
            conf.n >= 1 ==> rkg <= DIM_LIMIT,
            bn as int == beta_num(r1g as int, r2g as int, rkg as int),
            bd as int == beta_den(r1g as int, rkg as int),
            conf.n >= 1 ==> 0 <= bn <= 110_000_000_000_000_000_000,
            0 <= i <= conf.n,
            ov as int == overlap_rows(
                circles@,
                corners@,
                i as int,
                r1g as int,
                bn as int,
                bd as int,
            ),
            0 <= ov as int <= (i as int) * (conf.n + 4) * 600_000_000_000_000_000,
        decreases circles@.len() - i,
    {
        proof {
            if conf.n >= 1 {
                assert(rs.len() >= 1);
                lemma_min_radius_le(rs, rs.len() as int, 0);
                lemma_min_radius_pos(rs, rs.len() as int);
            }
        }
        let c1 = circles[i];
        let mut row: i128 = 0;
        let mut j: usize = 0;
        while j < circles.len()
            invariant
                conf.wf(),
                circles@.len() == conf.n,
                forall|k: int|
                    0 <= k < conf.n
                        ==> in_band((#[trigger] circles@[k]).center) && 1 <= circles@[k].radius
                            <= r1g && circles@[k].radius <= DIM_LIMIT,
                0 <= r2g <= r1g <= DIM_LIMIT,
                conf.n >= 1,
                1 <= rkg <= DIM_LIMIT,
                bn as int == beta_num(r1g as int, r2g as int, rkg as int),
                bd as int == beta_den(r1g as int, rkg as int),
                0 <= bn <= 110_000_000_000_000_000_000,
                c1 == circles@[i as int],
                0 <= i < conf.n,
                0 <= j <= conf.n,
                row as int == pair_row(c1, circles@, j as int, r1g as int, bn as int, bd as int),
                0 <= row as int <= (j as int) * 600_000_000_000_000_000,
            decreases circles@.len() - j,
        {
            let c2 = circles[j];
            let d = c1.center.distance(&c2.center);
            let mut term: i128 = 0;
            if d != 0 {
                let rsum = c1.radius + c2.radius;
                let rdiff = if c1.radius >= c2.radius {
                    c1.radius - c2.radius
                } else {
                    c2.radius - c1.radius
                };
                let mn = if c1.radius <= c2.radius {
                    c1.radius
                } else {
                    c2.radius
                };
                let mx = if c1.radius >= c2.radius {
                    c1.radius
                } else {
                    c2.radius
                };
                if d < rsum && d >= rdiff {
                    assert(0 <= (rsum as i128) * (mn as i128) <= 1_000_000_000_000_000_000
                        && 0 <= (rsum as i128) * (mn as i128) * ((rsum - d) as i128)
                        <= 4_000_000_000_000_000_000_000_000_000 && 1 <= (r1g as i128) * (mx
                        as i128) <= 250_000_000_000_000_000) by (nonlinear_arith)
                        requires
                            0 < rsum <= 2_000_000_000,
                            1 <= mn <= 500_000_000,
                            1 <= mx <= 500_000_000,
                            1 <= r1g <= 500_000_000,
                            0 < rsum - d <= 2_000_000_000,
                    {}
                    let num = (rsum as i128) * (mn as i128) * ((rsum - d) as i128);
                    let den = (r1g as i128) * (mx as i128);
                    term = div_trunc_i128(num, den);
                } else if d < rdiff {
                    assert(0 <= bn * (mn as i128) <= 110_000_000_000_000_000_000_000_000_000
                        && bd >= 100) by (nonlinear_arith)
                        requires
                            1 <= mn <= 500_000_000,
                            0 <= bn <= 110_000_000_000_000_000_000,
                            bd as int == (r1g as int) * (rkg as int) * 100,
                            1 <= r1g,
                            1 <= rkg,
                    {}
                    let num = bn * (mn as i128);
                    term = div_trunc_i128(num, bd);
                }
            }
            proof {
                lemma_pair_term_bounds(c1, c2, r1g as int, r2g as int, rkg as int);
                assert(term as int == pair_overlap(c1, c2, r1g as int, bn as int, bd as int));
                assert((j as int + 1) * 600_000_000_000_000_000 == (j as int)
                    * 600_000_000_000_000_000 + 600_000_000_000_000_000) by (nonlinear_arith)
                {}
            }
            row = row + term;
            j = j + 1;
        }
        let mut q: usize = 0;
        while q < corners.len()
            invariant
                circles@.len() == conf.n,
                corners@.len() == 4,
                forall|k: int| 0 <= k < 4 ==> in_band(#[trigger] corners@[k]),
                in_band(c1.center),
                1 <= c1.radius <= DIM_LIMIT,
                c1 == circles@[i as int],
                0 <= i < conf.n,
                0 <= q <= 4,
                row as int == pair_row(c1, circles@, conf.n as int, r1g as int, bn as int, bd as int)
                    + corner_row(c1, corners@, q as int),
                0 <= row as int <= ((conf.n + q) as int) * 600_000_000_000_000_000,
            decreases corners@.len() - q,
        {
            let p = corners[q];
            let d = c1.center.distance(&p);
            let mut term: i128 = 0;
            if d < c1.radius {
                assert(0 <= ((c1.radius - d) as i128) * (c1.radius as i128)
                    <= 250_000_000_000_000_000) by (nonlinear_arith)
                    requires 0 <= d && d < c1.radius <= 500_000_000
                {}
                let num = ((c1.radius - d) as i128) * (c1.radius as i128);
                term = div_trunc_i128(num, 1000);
            }
            proof {
                lemma_corner_term_bounds(c1, p);
                assert(term as int == corner_overlap(c1, p));
                assert(((conf.n + q) as int + 1) * 600_000_000_000_000_000 == ((conf.n + q) as int)
                    * 600_000_000_000_000_000 + 600_000_000_000_000_000) by (nonlinear_arith)
                {}
            }
            row = row + term;
            q = q + 1;
        }
        proof {
            assert((i as int + 1) * ((conf.n + 4) as int) * 600_000_000_000_000_000 == (i as int)
                * ((conf.n + 4) as int) * 600_000_000_000_000_000 + ((conf.n + 4) as int)
                * 600_000_000_000_000_000 && (i as int + 1) * ((conf.n + 4) as int)
                * 600_000_000_000_000_000 <= 1_000_001 * 1_000_005 * 600_000_000_000_000_000)
                by (nonlinear_arith)
                requires 0 <= i < conf.n <= 1_000_000
            {}
        }
        ov = ov + row;
        i = i + 1;
    }
    ov
}

/// The fitness spec: the sentinel maximum exactly when the overlap is
/// zero, the inverse overlap otherwise (in hundred-thousandths of the
/// spatial inverse).
pub open spec fn overlap_fs_spec(conf: Configuration, s: Seq<Point>) -> int {
    if overlap_spec(conf, s) == 0 {
        i64::MAX as int
    } else {
        100_000_000int / overlap_spec(conf, s)
    }
}

/// Fitness of a state: converts the minimize-overlap objective into a
/// maximize-fitness one, with the sentinel maximum at the zero boundary.
/// The inverse is quantized to hundred-thousandths of the spatial inverse
/// (the selection key's own precision), so it is only weakly monotone:
/// overlaps beyond a hundred million coordinate units all collapse to
/// fitness zero.
pub fn overlap_fs(conf: &Configuration, state: &Vec<Point>) -> (r: i64)
    requires
        conf.wf(),
        state_wf(*conf, state@),
        positive_radii(*conf),
    ensures
        r == overlap_fs_spec(*conf, state@),
        r == i64::MAX <==> overlap_spec(*conf, state@) == 0,
        0 <= r,
{
    let ov = overlap(conf, state);
    if ov == 0 {
        i64::MAX
    } else {
        proof {
            vstd::arithmetic::div_mod::lemma_div_pos_is_pos(100_000_000, ov as int);
            lemma_trunc_div_bound(100_000_000, ov as int, 100_000_000);
        }
        div_trunc_i128(100_000_000, ov) as i64
    }
}

/// Whether a point lies inside at least one of the circles.
pub open spec fn is_covered(cs: Seq<Circle>, p: Point) -> bool {
    exists|k: int| 0 <= k < cs.len() && dist((#[trigger] cs[k]).center, p) <= cs[k].radius
}

/// How many of the first `k` sample points lie in the union of the
/// circles.
pub open spec fn covered_count(cs: Seq<Circle>, ps: Seq<Point>, k: int) -> int
    decreases k,
{
    if k <= 0 {
        0
    } else {
        covered_count(cs, ps, k - 1) + if is_covered(cs, ps[k - 1]) {
            1int
        } else {
            0int
        }
    }
}

/// Count the sample points covered by the union of the circles, scanning
/// circles first-hit.
pub fn count_covered(circles: &Vec<Circle>, pts: &Vec<Point>) -> (c: usize)
    requires
        forall|k: int| 0 <= k < circles@.len() ==> in_band((#[trigger] circles@[k]).center),
        forall|k: int| 0 <= k < pts@.len() ==> in_band(#[trigger] pts@[k]),
    ensures
        c == covered_count(circles@, pts@, pts@.len() as int),
        c <= pts@.len(),
{
    let mut c: usize = 0;
    let mut i: usize = 0;
    while i < pts.len()
        invariant
            forall|k: int| 0 <= k < circles@.len() ==> in_band((#[trigger] circles@[k]).center),
            forall|k: int| 0 <= k < pts@.len() ==> in_band(#[trigger] pts@[k]),
            0 <= i <= pts@.len(),
            c == covered_count(circles@, pts@, i as int),
            c <= i,
        decreases pts@.len() - i,
    {
        let p = pts[i];
        let mut covered = false;
        let mut j: usize = 0;
        while j < circles.len()
            invariant
                forall|k: int| 0 <= k < circles@.len() ==> in_band((#[trigger] circles@[k]).center),
                in_band(p),
                0 <= j <= circles@.len(),
                covered ==> is_covered(circles@, p),
                !covered ==> forall|k: int|
                    0 <= k < j ==> dist((#[trigger] circles@[k]).center, p) > circles@[k].radius,
            decreases circles@.len() - j,
        {
            if circles[j].contains(&p) {
                covered = true;
                j = circles.len();
            } else {
                j = j + 1;
            }
        }
        if covered {
            c = c + 1;
        }
        i = i + 1;
    }
    c
}

/// Monte Carlo coverage estimate: the fraction of `samples` uniform draws
/// that land inside some circle, scaled by the rectangle area. The result
/// is in squared coordinate units and never exceeds the rectangle area.
pub fn coverage_area(
    conf: &Configuration,
    state: &Vec<Point>,
    rng: &mut rand::rngs::StdRng,
    samples: usize,
) -> (r: i64)
    requires
        conf.wf(),
        state_wf(*conf, state@),
        conf.w >= 1,
        conf.h >= 1,
        1 <= samples <= 1_000_000_000,
    ensures
        0 <= r <= conf.w * conf.h,
        exists|ps: Seq<Point>|
            {
                &&& ps.len() == samples
                &&& forall|k: int|
                    0 <= k < samples
                        ==> 0 <= (#[trigger] ps[k]).x < conf.w && 0 <= ps[k].y < conf.h
                &&& r == ((conf.w * conf.h) / (samples as int)) * covered_count(
                    circles_seq(*conf, state@),
                    ps,
                    samples as int,
                )
            },
{
    let circles = Circle::from_state(conf, state);
    proof {
        assert(circles@ =~= circles_seq(*conf, state@));
        assert forall|k: int|
            0 <= k < circles@.len() implies in_band((#[trigger] circles@[k]).center) by {}
        assert(conf.w * conf.h <= 250_000_000_000_000_000 && conf.w * conf.h >= 1)
            by (nonlinear_arith)
            requires 1 <= conf.w <= 500_000_000 && 1 <= conf.h <= 500_000_000
        {}
    }
    let pts = random_points(conf, rng, samples);
    let cnt = count_covered(&circles, &pts);
    let area = conf.w * conf.h;
    let a_s = area / (samples as i64);
    proof {
        vstd::arithmetic::div_mod::lemma_fundamental_div_mod(area as int, samples as int);
        vstd::arithmetic::div_mod::lemma_mod_bound(area as int, samples as int);
        vstd::arithmetic::div_mod::lemma_div_pos_is_pos(area as int, samples as int);
        assert((samples as int) * (a_s as int) == (a_s as int) * (samples as int))
            by (nonlinear_arith)
        {}
        assert(0 <= (a_s as int) * (cnt as int) <= area as int) by (nonlinear_arith)
            requires
                0 <= a_s,
                0 <= cnt <= samples,
                (a_s as int) * (samples as int) <= area as int,
        {}
    }
    let r = a_s * (cnt as i64);
    proof {
        assert(r == ((conf.w * conf.h) / (samples as int)) * covered_count(
            circles_seq(*conf, state@),
            pts@,
            samples as int,
        ));
    }
    r
}

proof fn lemma_pair_row_zero(c1: Circle, cs: Seq<Circle>, k: int, r1g: int, bn: int, bd: int)
    requires
        forall|j: int| 0 <= j < k ==> pair_overlap(c1, #[trigger] cs[j], r1g, bn, bd) == 0,
    ensures
        pair_row(c1, cs, k, r1g, bn, bd) == 0,
    decreases (if k <= 0 { 0int } else { k }),
{
    if k > 0 {
        lemma_pair_row_zero(c1, cs, k - 1, r1g, bn, bd);
    }
}

proof fn lemma_corner_row_zero(c: Circle, ps: Seq<Point>, k: int)
    requires
        forall|j: int| 0 <= j < k ==> corner_overlap(c, #[trigger] ps[j]) == 0,
    ensures
        corner_row(c, ps, k) == 0,
    decreases (if k <= 0 { 0int } else { k }),
{
    if k > 0 {
        lemma_corner_row_zero(c, ps, k - 1);
    }
}

proof fn lemma_overlap_rows_zero(
    cs: Seq<Circle>,
    ps: Seq<Point>,
    k: int,
    r1g: int,
    bn: int,
    bd: int,
)
    requires
        forall|i: int|
            0 <= i < k
                ==> pair_row(#[trigger] cs[i], cs, cs.len() as int, r1g, bn, bd) == 0
                    && corner_row(cs[i], ps, ps.len() as int) == 0,
    ensures
        overlap_rows(cs, ps, k, r1g, bn, bd) == 0,
    decreases (if k <= 0 { 0int } else { k }),
{
    if k > 0 {
        lemma_overlap_rows_zero(cs, ps, k - 1, r1g, bn, bd);
    }
}

/// The overlap penalty is zero whenever every pair of circles keeps a
/// center distance of at least the sum of its radii and every circle lies
/// fully inside the rectangle.
pub proof fn lemma_overlap_zero_when_separated(conf: Configuration, s: Seq<Point>)
    requires
        conf.wf(),
        state_wf(conf, s),
        forall|i: int, j: int|
            0 <= i < conf.n && 0 <= j < conf.n && i != j
                ==> #[trigger] dist(s[i], s[j]) >= slot_radius(conf, i) + slot_radius(conf, j),
        forall|i: int|
            0 <= i < conf.n
                ==> #[trigger] slot_radius(conf, i) <= s[i].x
                    && s[i].x <= conf.w - slot_radius(conf, i) && slot_radius(conf, i) <= s[i].y
                    && s[i].y <= conf.h - slot_radius(conf, i),
    ensures
        overlap_spec(conf, s) == 0,
{
    let cs = circles_seq(conf, s);
    let ps = corners_of(conf);
    let rs = conf.radius@;
    let p = top2_radius(rs, rs.len() as int);
    let rk = min_radius(rs, rs.len() as int);
    let bn = beta_num(p.0, p.1, rk);
    let bd = beta_den(p.0, rk);
    assert forall|i: int, j: int|
        0 <= i < conf.n && 0 <= j < conf.n implies pair_overlap(
        cs[i],
        cs[j],
        p.0,
        bn,
        bd,
    ) == 0 by {
        lemma_slot_group_in_range(conf.counts@, i);
        lemma_slot_group_in_range(conf.counts@, j);
        assert(cs[i] == circle_at(conf, s, i));
        assert(cs[j] == circle_at(conf, s, j));
        let d = dist(cs[i].center, cs[j].center);
        if i == j {
            assert(dist_sq(s[i], s[j]) == (s[i].x - s[i].x) * (s[i].x - s[i].x) + (s[i].y
                - s[i].y) * (s[i].y - s[i].y));
            assert(dist_sq(s[i], s[j]) == 0);
            crate::num::lemma_sqrt_floor_zero();
            assert(d == 0);
        } else if d != 0 {
            let ri = cs[i].radius as int;
            let rj = cs[j].radius as int;
            assert(d >= ri + rj);
            assert(iabs(cs[i].radius - cs[j].radius) <= ri + rj);
        }
    }
    assert forall|i: int, q: int|
        0 <= i < conf.n && 0 <= q < 4 implies corner_overlap(cs[i], ps[q]) == 0 by {
        lemma_slot_group_in_range(conf.counts@, i);
        assert(cs[i] == circle_at(conf, s, i));
        let r = cs[i].radius as int;
        let x = s[i].x as int;
        let y = s[i].y as int;
        let w = conf.w as int;
        let h = conf.h as int;
        let c = ps[q];
        assert(dist_sq(s[i], c) == (x - c.x) * (x - c.x) + (y - c.y) * (y - c.y));
        if q == 0 {
            assert(c.x == 0 && c.y == 0);
            assert(x * x + y * y >= r * r) by (nonlinear_arith)
                requires 0 <= r <= x && r <= y
            {}
        } else if q == 1 {
            assert(c.x == 0 && c.y as int == h);
            assert(x * x + (y - h) * (y - h) >= r * r) by (nonlinear_arith)
                requires 0 <= r <= x && y <= h - r
            {}
        } else if q == 2 {
            assert(c.x as int == w && c.y == 0);
            assert((x - w) * (x - w) + y * y >= r * r) by (nonlinear_arith)
                requires 0 <= r <= y && x <= w - r
            {}
        } else {
            assert(c.x as int == w && c.y as int == h);
            assert((x - w) * (x - w) + (y - h) * (y - h) >= r * r) by (nonlinear_arith)
                requires 0 <= r && x <= w - r && y <= h - r
            {}
        }
        lemma_sqrt_floor_ge(dist_sq(s[i], c), r);
    }
    assert forall|i: int|
        0 <= i < conf.n implies pair_row(#[trigger] cs[i], cs, cs.len() as int, p.0, bn, bd) == 0
        && corner_row(cs[i], ps, ps.len() as int) == 0 by {
        lemma_pair_row_zero(cs[i], cs, cs.len() as int, p.0, bn, bd);
        lemma_corner_row_zero(cs[i], ps, ps.len() as int);
    }
    lemma_overlap_rows_zero(cs, ps, conf.n as int, p.0, bn, bd);
}

} // verus!
