//! Gaussian-style mutation: zero-mean noise added to both coordinates of
//! every child point, with the result kept inside the coordinate band.

use vstd::prelude::*;

use crate::eval::iabs;
use crate::init::clamp_band;
use crate::models::{in_band, Point, COORD_LIMIT};
use crate::rng::centered_noise;

verus! {

/// The noise deviation the dynamic mutation uses for point `i`: the
/// parents' horizontal displacement, which drives the noise on both axes.
pub open spec fn x_displacement(p1: Seq<Point>, p2: Seq<Point>, i: int) -> int {
    iabs(p1[i].x - p2[i].x)
}

/// Add noise to a coordinate and keep it inside the band.
fn jitter(x: i64, noise: i64) -> (r: i64)
    requires
        -COORD_LIMIT <= x <= COORD_LIMIT,
        -24_000_000_000 <= noise <= 24_000_000_000,
    ensures
        r == clamp_band(x + noise),
{
    let v = x + noise;
    if v > COORD_LIMIT {
        COORD_LIMIT
    } else if v < -COORD_LIMIT {
        -COORD_LIMIT
    } else {
        v
    }
}

/// Dynamic Gaussian mutation: the noise deviation of point `i` is the
/// horizontal displacement between the two parents' points `i`, and that
/// one deviation drives the noise on both axes of the child point. Each
/// output coordinate lies within six deviations of the input coordinate,
/// clamped to the band; with coinciding parent x's the point comes back
/// unchanged.
pub fn dynamic_gaussian(
    state: &Vec<Point>,
    p1: &Vec<Point>,
    p2: &Vec<Point>,
    rng: &mut rand::rngs::StdRng,
) -> (r: Vec<Point>)
    requires
        state@.len() == p1@.len() == p2@.len(),
        forall|i: int| 0 <= i < state@.len() ==> in_band(#[trigger] state@[i]),
        forall|i: int| 0 <= i < p1@.len() ==> in_band(#[trigger] p1@[i]),
        forall|i: int| 0 <= i < p2@.len() ==> in_band(#[trigger] p2@[i]),
    ensures
        r@.len() == state@.len(),
        forall|i: int| 0 <= i < r@.len() ==> in_band(#[trigger] r@[i]),
        forall|i: int|
            0 <= i < r@.len()
                ==> clamp_band(state@[i].x - 6 * x_displacement(p1@, p2@, i)) <= (
                #[trigger] r@[i]).x <= clamp_band(state@[i].x + 6 * x_displacement(p1@, p2@, i))
                    && clamp_band(state@[i].y - 6 * x_displacement(p1@, p2@, i)) <= r@[i].y
                    <= clamp_band(state@[i].y + 6 * x_displacement(p1@, p2@, i)),
{
    let mut out: Vec<Point> = Vec::new();
    let mut i: usize = 0;
    while i < state.len()
        invariant
            state@.len() == p1@.len() == p2@.len(),
            forall|k: int| 0 <= k < state@.len() ==> in_band(#[trigger] state@[k]),
            forall|k: int| 0 <= k < p1@.len() ==> in_band(#[trigger] p1@[k]),
            forall|k: int| 0 <= k < p2@.len() ==> in_band(#[trigger] p2@[k]),
            0 <= i <= state@.len(),
            out@.len() == i,
            forall|k: int| 0 <= k < i ==> in_band(#[trigger] out@[k]),
            forall|k: int|
                0 <= k < i
                    ==> clamp_band(state@[k].x - 6 * x_displacement(p1@, p2@, k)) <= (
                    #[trigger] out@[k]).x <= clamp_band(
                        state@[k].x + 6 * x_displacement(p1@, p2@, k),
                    ) && clamp_band(state@[k].y - 6 * x_displacement(p1@, p2@, k)) <= out@[k].y
                        <= clamp_band(state@[k].y + 6 * x_displacement(p1@, p2@, k)),
        decreases state@.len() - i,
    {
        let sdev = if p1[i].x >= p2[i].x {
            p1[i].x - p2[i].x
        } else {
            p2[i].x - p1[i].x
        };
        let nx = centered_noise(rng, sdev);
        let ny = centered_noise(rng, sdev);
        let x = jitter(state[i].x, nx);
        let y = jitter(state[i].y, ny);
        out.push(Point { x, y });
        i = i + 1;
    }
    out
}

/// Static Gaussian mutation: a fixed noise deviation of fifty spatial
/// units on both axes, whatever the parents look like. Each output
/// coordinate lies within six deviations of the input coordinate, clamped
/// to the band.
pub fn static_gaussian(
    state: &Vec<Point>,
    _p1: &Vec<Point>,
    _p2: &Vec<Point>,
    rng: &mut rand::rngs::StdRng,
) -> (r: Vec<Point>)
    requires
        forall|i: int| 0 <= i < state@.len() ==> in_band(#[trigger] state@[i]),
    ensures
        r@.len() == state@.len(),
        forall|i: int| 0 <= i < r@.len() ==> in_band(#[trigger] r@[i]),
        forall|i: int|
            0 <= i < r@.len()
                ==> clamp_band(state@[i].x - 300_000) <= (#[trigger] r@[i]).x <= clamp_band(
                    state@[i].x + 300_000,
                ) && clamp_band(state@[i].y - 300_000) <= r@[i].y <= clamp_band(
                    state@[i].y + 300_000,
                ),
{
    let mut out: Vec<Point> = Vec::new();
    let mut i: usize = 0;
    while i < state.len()
        invariant
            forall|k: int| 0 <= k < state@.len() ==> in_band(#[trigger] state@[k]),
            0 <= i <= state@.len(),
            out@.len() == i,
            forall|k: int| 0 <= k < i ==> in_band(#[trigger] out@[k]),
            forall|k: int|
                0 <= k < i
                    ==> clamp_band(state@[k].x - 300_000) <= (#[trigger] out@[k]).x <= clamp_band(
                        state@[k].x + 300_000,
                    ) && clamp_band(state@[k].y - 300_000) <= out@[k].y <= clamp_band(
                        state@[k].y + 300_000,
                    ),
        decreases state@.len() - i,
    {
        let nx = centered_noise(rng, 50_000);
        let ny = centered_noise(rng, 50_000);
        let x = jitter(state[i].x, nx);
        let y = jitter(state[i].y, ny);
        out.push(Point { x, y });
        i = i + 1;
    }
    out
}

/// With coinciding parent x's the dynamic mutation's envelope collapses:
/// the child point comes back exactly unchanged.
pub proof fn lemma_zero_displacement_unchanged(
    state: Seq<Point>,
    p1: Seq<Point>,
    p2: Seq<Point>,
    r: Seq<Point>,
    i: int,
)
    requires
        0 <= i < state.len(),
        in_band(state[i]),
        p1[i].x == p2[i].x,
        clamp_band(state[i].x - 6 * x_displacement(p1, p2, i)) <= r[i].x <= clamp_band(
            state[i].x + 6 * x_displacement(p1, p2, i),
        ),
        clamp_band(state[i].y - 6 * x_displacement(p1, p2, i)) <= r[i].y <= clamp_band(
            state[i].y + 6 * x_displacement(p1, p2, i),
        ),
    ensures
        r[i] == state[i],
{
    assert(x_displacement(p1, p2, i) == 0);
}

} // verus!
