//! The generational loop: heuristic initialization, all-pairs crossover
//! gated by a probability, optional Gaussian mutation with one relaxation
//! pass, boundary clamping of every child, truncation selection, and
//! best-so-far tracking with early stop at the fitness sentinel.

use vstd::prelude::*;

use crate::cross::{blx_alpha, homogenize};
use crate::eval::{overlap_fs, positive_radii};
use crate::init::{copy_vec, heuristic_init, normalize, normalized_state, vfa};
use crate::models::{state_wf, Configuration, Point};
use crate::mutate::dynamic_gaussian;
use crate::rng::gen_range_i64;
use crate::select::best;

verus! {

/// Run the evolutionary search for `iters` generations over a pool of
/// `size` states, crossing each ordered pair of distinct states with
/// probability `cross_ratio` (in thousandths) and additionally mutating a
/// child with probability `mutate_ratio`. The best state over the whole
/// run comes back, judged by the inverse-overlap fitness; the run stops
/// early once the fitness sentinel (overlap zero) is reached. With zero
/// generations the empty state comes back.
pub fn genetic_algorithm(
    conf: &Configuration,
    rng: &mut rand::rngs::StdRng,
    size: usize,
    iters: usize,
    cross_ratio: i64,
    mutate_ratio: i64,
) -> (r: Vec<Point>)
    requires
        conf.wf(),
        positive_radii(*conf),
        1 <= size,
        0 <= cross_ratio <= 1000,
        0 <= mutate_ratio <= 1000,
    ensures
        iters == 0 ==> r@.len() == 0,
        iters >= 1 ==> state_wf(*conf, r@) && normalized_state(*conf, r@),
{
    let mut pool = heuristic_init(conf, rng, size);
    let mut best_state: Vec<Point> = Vec::new();
    let mut best_score: i64 = i64::MIN;
    let mut it: usize = 0;
    while it < iters && best_score != i64::MAX
        invariant
            conf.wf(),
            positive_radii(*conf),
            1 <= size,
            0 <= cross_ratio <= 1000,
            0 <= mutate_ratio <= 1000,
            pool@.len() == size,
            forall|s: int|
                0 <= s < pool@.len()
                    ==> state_wf(*conf, #[trigger] pool@[s]@)
                        && normalized_state(*conf, pool@[s]@),
            0 <= it <= iters,
            it == 0 ==> best_state@.len() == 0 && best_score == i64::MIN,
            it >= 1 ==> best_score >= 0 && state_wf(*conf, best_state@)
                && normalized_state(*conf, best_state@),
        decreases iters - it,
    {
        let mut children: Vec<Vec<Point>> = Vec::new();
        let mut i1: usize = 0;
        while i1 < pool.len()
            invariant
                conf.wf(),
                positive_radii(*conf),
                0 <= cross_ratio <= 1000,
                0 <= mutate_ratio <= 1000,
                pool@.len() == size,
                forall|s: int| 0 <= s < pool@.len() ==> state_wf(*conf, #[trigger] pool@[s]@),
                0 <= i1 <= size,
                forall|c: int| 0 <= c < children@.len() ==> state_wf(*conf, #[trigger] children@[c]@),
            decreases size - i1,
        {
            let mut i2: usize = 0;
            while i2 < pool.len()
                invariant
                    conf.wf(),
                    positive_radii(*conf),
                    0 <= cross_ratio <= 1000,
                    0 <= mutate_ratio <= 1000,
                    pool@.len() == size,
                    forall|s: int| 0 <= s < pool@.len() ==> state_wf(*conf, #[trigger] pool@[s]@),
                    i1 < size,
                    0 <= i2 <= size,
                    forall|c: int|
                        0 <= c < children@.len() ==> state_wf(*conf, #[trigger] children@[c]@),
                decreases size - i2,
            {
                if !Point::all_equal(&pool[i1], &pool[i2]) {
                    if gen_range_i64(rng, 0, 1000) < cross_ratio {
                        let (h1, h2) = homogenize(conf, &pool[i1], &pool[i2]);
                        let mut ch = blx_alpha(&h1, &h2, 500, rng);
                        if gen_range_i64(rng, 0, 1000) < mutate_ratio {
                            ch = dynamic_gaussian(&ch, &h1, &h2, rng);
                            vfa(conf, &mut ch);
                        }
                        children.push(ch);
                    }
                }
                i2 = i2 + 1;
            }
            i1 = i1 + 1;
        }
        normalize(conf, &mut children);
        pool.append(&mut children);
        let selected = best(conf, &pool, size);
        pool = selected;
        let score = overlap_fs(conf, &pool[0]);
        if score > best_score {
            best_score = score;
            best_state = copy_vec(&pool[0]);
        }
        it = it + 1;
    }
    best_state
}

} // verus!
