//! Crossover: group-wise optimal alignment of the two parents by the
//! matcher, then BLX-alpha interval blending, one axis at a time.

use vstd::prelude::*;

use crate::eval::{imax, imin};
use crate::hungarian::{apply_hungarian, is_index_perm, pairing_dist};
use crate::init::{clamp_band, copy_vec};
use crate::models::{
    count_prefix, in_band, lemma_count_prefix_monotone, state_wf, Configuration, Point,
    COORD_LIMIT,
};
use crate::num::trunc_div;
use crate::rng::gen_range_i64;

verus! {

/// `b` is `a` untouched, or `a` reordered by a permutation whose pairing
/// with `t` has the least total distance any permutation of `a` reaches.
pub open spec fn aligned_block(t: Seq<Point>, a: Seq<Point>, b: Seq<Point>) -> bool {
    b == a || exists|p: Seq<i64>|
        {
            &&& is_index_perm(p, a.len() as int)
            &&& b.len() == a.len()
            &&& forall|i: int| 0 <= i < a.len() ==> b[i] == a[#[trigger] p[i] as int]
            &&& forall|q: Seq<i64>|
                is_index_perm(q, a.len() as int) ==> pairing_dist(t, a, p, a.len() as int)
                    <= pairing_dist(t, a, q, a.len() as int)
        }
}

/// Copy `count` points of `v` starting at `start`.
fn copy_range(v: &Vec<Point>, start: usize, count: usize) -> (r: Vec<Point>)
    requires
        start + count <= v@.len(),
    ensures
        r@ == v@.subrange(start as int, start as int + count as int),
{
    let mut r: Vec<Point> = Vec::new();
    proof {
        vstd::std_specs::vec::axiom_spec_len(v);
    }
    let mut j: usize = 0;
    while j < count
        invariant
            start + count <= v@.len(),
            v@.len() <= usize::MAX,
            0 <= j <= count,
            r@ == v@.subrange(start as int, start as int + j as int),
        decreases count - j,
    {
        r.push(v[start + j]);
        proof {
            assert(r@ =~= v@.subrange(start as int, start as int + j as int + 1));
        }
        j = j + 1;
    }
    r
}

/// Align `p2` to `p1`: each group block of `p2` is reordered by the
/// matcher to minimize its total distance to the same block of `p1` over
/// all per-block permutations; blocks where the matcher fails stay as they
/// were. `p1` comes back unchanged.
pub fn homogenize(conf: &Configuration, p1: &Vec<Point>, p2: &Vec<Point>) -> (r: (
    Vec<Point>,
    Vec<Point>,
))
    requires
        conf.wf(),
        state_wf(*conf, p1@),
        state_wf(*conf, p2@),
    ensures
        r.0@ == p1@,
        state_wf(*conf, r.1@),
        forall|g: int|
            0 <= g < conf.counts@.len() ==> aligned_block(
                p1@.subrange(
                    count_prefix(conf.counts@, g),
                    count_prefix(conf.counts@, g + 1),
                ),
                p2@.subrange(
                    count_prefix(conf.counts@, g),
                    count_prefix(conf.counts@, g + 1),
                ),
                #[trigger] r.1@.subrange(
                    count_prefix(conf.counts@, g),
                    count_prefix(conf.counts@, g + 1),
                ),
            ),
{
    let mut px2: Vec<Point> = Vec::new();
    let mut off: usize = 0;
    let mut g: usize = 0;
    proof {
        lemma_count_prefix_monotone(conf.counts@, 0, conf.counts@.len() as int);
    }
    while g < conf.counts.len()
        invariant
            conf.wf(),
            state_wf(*conf, p1@),
            state_wf(*conf, p2@),
            0 <= g <= conf.counts@.len(),
            off == count_prefix(conf.counts@, g as int),
            off <= conf.n,
            px2@.len() == off,
            forall|k: int| 0 <= k < off ==> in_band(#[trigger] px2@[k]),
            forall|gi: int|
                0 <= gi < g ==> aligned_block(
                    p1@.subrange(
                        count_prefix(conf.counts@, gi),
                        count_prefix(conf.counts@, gi + 1),
                    ),
                    p2@.subrange(
                        count_prefix(conf.counts@, gi),
                        count_prefix(conf.counts@, gi + 1),
                    ),
                    #[trigger] px2@.subrange(
                        count_prefix(conf.counts@, gi),
                        count_prefix(conf.counts@, gi + 1),
                    ),
                ),
        decreases conf.counts@.len() - g,
    {
        let count = conf.counts[g];
        proof {
            lemma_count_prefix_monotone(conf.counts@, g as int + 1, conf.counts@.len() as int);
        }
        let g1s = copy_range(p1, off, count);
        let mut g2s = copy_range(p2, off, count);
        proof {
            assert forall|k: int| 0 <= k < g1s@.len() implies in_band(#[trigger] g1s@[k]) by {
                assert(g1s@[k] == p1@[off + k]);
            }
            assert forall|k: int| 0 <= k < g2s@.len() implies in_band(#[trigger] g2s@[k]) by {
                assert(g2s@[k] == p2@[off + k]);
            }
        }
        let ghost block_before = g2s@;
        apply_hungarian(&g1s, &mut g2s);
        proof {
            assert forall|k: int| 0 <= k < g2s@.len() implies in_band(#[trigger] g2s@[k]) by {
                assert(block_before.contains(g2s@[k]));
                let w = choose|w: int| 0 <= w < block_before.len() && block_before[w] == g2s@[k];
                assert(block_before[w] == p2@[off + w]);
            }
        }
        let ghost px2_before = px2@;
        let mut j: usize = 0;
        while j < count
            invariant
                0 <= j <= count,
                g2s@.len() == count,
                px2@ == px2_before + g2s@.subrange(0, j as int),
            decreases count - j,
        {
            px2.push(g2s[j]);
            proof {
                assert(px2@ =~= px2_before + g2s@.subrange(0, j as int + 1));
            }
            j = j + 1;
        }
        proof {
            assert(px2@ =~= px2_before + g2s@);
            assert(px2@.subrange(off as int, off as int + count as int) =~= g2s@);
            assert forall|gi: int|
                0 <= gi < g implies #[trigger] px2@.subrange(
                count_prefix(conf.counts@, gi),
                count_prefix(conf.counts@, gi + 1),
            ) =~= px2_before.subrange(
                count_prefix(conf.counts@, gi),
                count_prefix(conf.counts@, gi + 1),
            ) by {
                lemma_count_prefix_monotone(conf.counts@, 0, gi);
                lemma_count_prefix_monotone(conf.counts@, gi, gi + 1);
                lemma_count_prefix_monotone(conf.counts@, gi + 1, g as int);
            }
        }
        off = off + count;
        g = g + 1;
    }
    (copy_vec(p1), px2)
}

/// The half-width extension of a BLX interval: `alpha` thousandths of the
/// widened parent interval.
pub open spec fn blx_ext(a: int, b: int, alpha: int) -> int {
    trunc_div(alpha * (imax(a, b) + 1 - imin(a, b)), 1000)
}

/// BLX-alpha blending: each child coordinate is drawn uniformly from its
/// parents' interval (widened by one unit against emptiness) extended on
/// both sides by `alpha` thousandths of its width, then kept inside the
/// coordinate band. The blend factor is capped at a thousandfold widening,
/// which keeps the extension arithmetic inside the machine range.
pub fn blx_alpha(p1: &Vec<Point>, p2: &Vec<Point>, alpha: i64, rng: &mut rand::rngs::StdRng) -> (r:
    Vec<Point>)
    requires
        p1@.len() == p2@.len(),
        forall|i: int| 0 <= i < p1@.len() ==> in_band(#[trigger] p1@[i]),
        forall|i: int| 0 <= i < p2@.len() ==> in_band(#[trigger] p2@[i]),
        0 <= alpha <= 1_000_000,
    ensures
        r@.len() == p1@.len(),
        forall|i: int| 0 <= i < r@.len() ==> in_band(#[trigger] r@[i]),
        forall|i: int|
            0 <= i < r@.len()
                ==> clamp_band(
                    imin(p1@[i].x as int, p2@[i].x as int) - blx_ext(
                        p1@[i].x as int,
                        p2@[i].x as int,
                        alpha as int,
                    ),
                ) <= (#[trigger] r@[i]).x <= clamp_band(
                    imax(p1@[i].x as int, p2@[i].x as int) + 1 + blx_ext(
                        p1@[i].x as int,
                        p2@[i].x as int,
                        alpha as int,
                    ),
                ) && clamp_band(
                    imin(p1@[i].y as int, p2@[i].y as int) - blx_ext(
                        p1@[i].y as int,
                        p2@[i].y as int,
                        alpha as int,
                    ),
                ) <= r@[i].y <= clamp_band(
                    imax(p1@[i].y as int, p2@[i].y as int) + 1 + blx_ext(
                        p1@[i].y as int,
                        p2@[i].y as int,
                        alpha as int,
                    ),
                ),
{
    let mut child: Vec<Point> = Vec::new();
    let mut i: usize = 0;
    while i < p1.len()
        invariant
            p1@.len() == p2@.len(),
            forall|k: int| 0 <= k < p1@.len() ==> in_band(#[trigger] p1@[k]),
            forall|k: int| 0 <= k < p2@.len() ==> in_band(#[trigger] p2@[k]),
            0 <= alpha <= 1_000_000,
            0 <= i <= p1@.len(),
            child@.len() == i,
            forall|k: int| 0 <= k < i ==> in_band(#[trigger] child@[k]),
            forall|k: int|
                0 <= k < i
                    ==> clamp_band(
                        imin(p1@[k].x as int, p2@[k].x as int) - blx_ext(
                            p1@[k].x as int,
                            p2@[k].x as int,
                            alpha as int,
                        ),
                    ) <= (#[trigger] child@[k]).x <= clamp_band(
                        imax(p1@[k].x as int, p2@[k].x as int) + 1 + blx_ext(
                            p1@[k].x as int,
                            p2@[k].x as int,
                            alpha as int,
                        ),
                    ) && clamp_band(
                        imin(p1@[k].y as int, p2@[k].y as int) - blx_ext(
                            p1@[k].y as int,
                            p2@[k].y as int,
                            alpha as int,
                        ),
                    ) <= child@[k].y <= clamp_band(
                        imax(p1@[k].y as int, p2@[k].y as int) + 1 + blx_ext(
                            p1@[k].y as int,
                            p2@[k].y as int,
                            alpha as int,
                        ),
                    ),
        decreases p1@.len() - i,
    {
        let x = blend_axis(p1[i].x, p2[i].x, alpha, rng);
        let y = blend_axis(p1[i].y, p2[i].y, alpha, rng);
        child.push(Point { x, y });
        i = i + 1;
    }
    child
}

/// One axis of the BLX draw: uniform over the extended interval, clamped
/// into the coordinate band.
fn blend_axis(a: i64, b: i64, alpha: i64, rng: &mut rand::rngs::StdRng) -> (r: i64)
    requires
        -COORD_LIMIT <= a <= COORD_LIMIT,
        -COORD_LIMIT <= b <= COORD_LIMIT,
        0 <= alpha <= 1_000_000,
    ensures
        -COORD_LIMIT <= r <= COORD_LIMIT,
        clamp_band(imin(a as int, b as int) - blx_ext(a as int, b as int, alpha as int)) <= r
            <= clamp_band(imax(a as int, b as int) + 1 + blx_ext(a as int, b as int, alpha as int)),
{
    let lo = if a <= b {
        a
    } else {
        b
    };
    let hi = (if a >= b {
        a
    } else {
        b
    }) + 1;
    let d = hi - lo;
    assert(0 <= alpha * d <= 2_000_000_000_001 * 1_000_000) by (nonlinear_arith)
        requires 0 <= alpha <= 1_000_000 && 0 < d <= 2_000_000_000_001
    {}
    let ext = (alpha * d) / 1000;
    proof {
        assert(ext == trunc_div(alpha as int * d as int, 1000));
        crate::num::lemma_trunc_div_bound(
            alpha as int * d as int,
            1000,
            2_000_000_000_001_000,
        );
    }
    let v = gen_range_i64(rng, lo - ext, hi + ext);
    let r = if v > COORD_LIMIT {
        COORD_LIMIT
    } else if v < -COORD_LIMIT {
        -COORD_LIMIT
    } else {
        v
    };
    proof {
        assert(clamp_band(lo as int - ext as int) <= r as int);
        assert(r as int <= clamp_band(hi as int + ext as int));
    }
    r
}

} // verus!
