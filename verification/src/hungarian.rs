//! Maximum-weight bipartite matching between two equal-size point sets, by
//! the Kuhn-Munkres alternating-tree algorithm with vertex potentials.
//!
//! Weights are negated distances, so the maximum-weight matching is the
//! minimum total-distance pairing. The search is guarded: the inner loop is
//! capped at `n^3` rounds, labels are kept inside fixed bounds, and the
//! final assignment is checked to be a permutation carrying the duality
//! certificate (feasible potentials, tight matched edges), from which its
//! optimality follows; on any guard failure the matcher reports no match
//! and the caller keeps the original pairing.

use vstd::prelude::*;

use crate::eval::imax;
use crate::models::{dist, in_band, Point};

verus! {

/// Bound on the potentials; the matcher gives up rather than leave it.
pub const LABEL_LIMIT: i64 = 1_000_000_000_000_000;

/// Bound on the slack values.
pub const SLACK_LIMIT: i64 = 8_000_000_000_000_000;

/// Bound on the edge weights (a negated distance always fits).
pub const WEIGHT_LIMIT: i64 = 4_000_000_000;

/// `p` maps `0..n` one-to-one onto `0..n`.
pub open spec fn is_index_perm(p: Seq<i64>, n: int) -> bool {
    &&& p.len() == n
    &&& forall|i: int| 0 <= i < n ==> 0 <= #[trigger] p[i] < n
    &&& forall|i: int, j: int| 0 <= i < j < n ==> p[i] != p[j]
}

/// Check that `p` is a permutation of `0..n`, with a seen-table scan.
fn check_index_perm(p: &Vec<i64>, n: usize) -> (r: bool)
    requires
        p@.len() == n,
    ensures
        r ==> is_index_perm(p@, n as int),
{
    let mut seen: Vec<bool> = Vec::new();
    let mut i: usize = 0;
    while i < n
        invariant
            0 <= i <= n,
            seen@.len() == i,
            forall|k: int| 0 <= k < i ==> !(#[trigger] seen@[k]),
        decreases n - i,
    {
        seen.push(false);
        i = i + 1;
    }
    let mut i: usize = 0;
    while i < n
        invariant
            p@.len() == n,
            seen@.len() == n,
            0 <= i <= n,
            forall|k: int| 0 <= k < i ==> 0 <= #[trigger] p@[k] < n,
            forall|v: int| 0 <= v < n ==> (seen@[v] <==> exists|k: int| 0 <= k < i && p@[k] == v),
            forall|a: int, b: int| 0 <= a < b < i ==> p@[a] != p@[b],
        decreases n - i,
    {
        let v = p[i];
        if v < 0 || v >= n as i64 {
            return false;
        }
        if seen[v as usize] {
            return false;
        }
        seen[v as usize] = true;
        i = i + 1;
    }
    true
}

/// The largest weight in row `i`, over the first `k` columns (`k >= 1`).
pub open spec fn row_max(w: Seq<i64>, n: int, i: int, k: int) -> int
    decreases (if k <= 1 { 0int } else { k }),
{
    if k <= 1 {
        w[i * n] as int
    } else {
        imax(row_max(w, n, i, k - 1), w[i * n + k - 1] as int)
    }
}

/// The alternating-tree state of one matching run.
pub struct HugarianSolver {
    pub g1: Vec<Point>,
    pub g2: Vec<Point>,
    pub matches: usize,
    pub n: usize,
    pub w: Vec<i64>,
    pub lx: Vec<i64>,
    pub ly: Vec<i64>,
    pub xy: Vec<i64>,
    pub yx: Vec<i64>,
    pub q: Vec<usize>,
    pub qh: usize,
    pub prev: Vec<i64>,
    pub s: Vec<bool>,
    pub t: Vec<bool>,
    pub slack: Vec<i64>,
    pub slackx: Vec<i64>,
}

impl HugarianSolver {
    /// Structural soundness of the solver state: every table has one entry
    /// per vertex, every stored index is in range, and potentials and
    /// slacks stay inside their fixed bounds.
    pub open spec fn wf(self) -> bool {
        &&& self.n == self.g1@.len()
        &&& self.n == self.g2@.len()
        &&& self.n <= 2_000_000
        &&& self.w@.len() == self.n * self.n
        &&& forall|k: int|
            0 <= k < self.w@.len() ==> -WEIGHT_LIMIT <= #[trigger] self.w@[k] <= WEIGHT_LIMIT
        &&& self.lx@.len() == self.n
        &&& self.ly@.len() == self.n
        &&& self.xy@.len() == self.n
        &&& self.yx@.len() == self.n
        &&& self.prev@.len() == self.n
        &&& self.s@.len() == self.n
        &&& self.t@.len() == self.n
        &&& self.slack@.len() == self.n
        &&& self.slackx@.len() == self.n
        &&& forall|i: int| 0 <= i < self.n ==> -LABEL_LIMIT <= #[trigger] self.lx@[i] <= LABEL_LIMIT
        &&& forall|i: int| 0 <= i < self.n ==> -LABEL_LIMIT <= #[trigger] self.ly@[i] <= LABEL_LIMIT
        &&& forall|i: int| 0 <= i < self.n ==> -1 <= #[trigger] self.xy@[i] < self.n
        &&& forall|i: int| 0 <= i < self.n ==> -1 <= #[trigger] self.yx@[i] < self.n
        &&& forall|i: int| 0 <= i < self.n ==> -2 <= #[trigger] self.prev@[i] < self.n
        &&& forall|i: int| 0 <= i < self.n ==> 0 <= #[trigger] self.slackx@[i] < self.n
        &&& forall|i: int|
            0 <= i < self.n ==> -SLACK_LIMIT <= #[trigger] self.slack@[i] <= SLACK_LIMIT
        &&& self.q@.len() <= self.n + 1
        &&& forall|k: int| 0 <= k < self.q@.len() ==> #[trigger] self.q@[k] < self.n
        &&& self.qh <= self.q@.len()
        &&& self.matches <= self.n
    }

    /// Build the solver: weights are the negated point distances, each left
    /// potential starts at its row's maximum weight, the right potentials
    /// at zero, and nothing is matched.
    pub fn new(g1: &Vec<Point>, g2: &Vec<Point>) -> (sv: HugarianSolver)
        requires
            g1@.len() == g2@.len() <= 2_000_000,
            forall|i: int| 0 <= i < g1@.len() ==> in_band(#[trigger] g1@[i]),
            forall|i: int| 0 <= i < g2@.len() ==> in_band(#[trigger] g2@[i]),
        ensures
            sv.wf(),
            sv.g1@ == g1@,
            sv.g2@ == g2@,
            sv.n == g1@.len(),
            sv.matches == 0,
            forall|k: int|
                0 <= k < sv.n * sv.n
                    ==> #[trigger] sv.w@[k] == -dist(g1@[k / (sv.n as int)], g2@[k % (sv.n as int)]),
            forall|i: int|
                0 <= i < sv.n
                    ==> #[trigger] sv.lx@[i] as int == row_max(sv.w@, sv.n as int, i, sv.n as int),
            forall|i: int| 0 <= i < sv.n ==> #[trigger] sv.ly@[i] == 0,
            forall|i: int| 0 <= i < sv.n ==> #[trigger] sv.xy@[i] == -1,
            forall|i: int| 0 <= i < sv.n ==> #[trigger] sv.yx@[i] == -1,
    {
        let n = g1.len();
        let mut w: Vec<i64> = Vec::new();
        let mut i: usize = 0;
        while i < n
            invariant
                n == g1@.len() == g2@.len() <= 2_000_000,
                forall|k: int| 0 <= k < n ==> in_band(#[trigger] g1@[k]),
                forall|k: int| 0 <= k < n ==> in_band(#[trigger] g2@[k]),
                0 <= i <= n,
                w@.len() == i * n,
                forall|k: int|
                    0 <= k < w@.len() ==> -WEIGHT_LIMIT <= #[trigger] w@[k] <= WEIGHT_LIMIT,
                forall|k: int|
                    0 <= k < w@.len() ==> #[trigger] w@[k] == -dist(g1@[k / (n as int)], g2@[k % (n as int)]),
            decreases n - i,
        {
            let mut j: usize = 0;
            proof {
                assert((i as int) * (n as int) + (n as int) <= (n as int) * (n as int) && (n as int) * (n as int) <= 4_000_000_000_000)
                    by (nonlinear_arith)
                    requires
                        0 <= i as int,
                        (i as int) < (n as int),
                        (n as int) <= 2_000_000,
                {}
            }
            while j < n
                invariant
                    n == g1@.len() == g2@.len() <= 2_000_000,
                    forall|k: int| 0 <= k < n ==> in_band(#[trigger] g1@[k]),
                    forall|k: int| 0 <= k < n ==> in_band(#[trigger] g2@[k]),
                    0 <= i < n,
                    0 <= j <= n,
                    (i as int) * (n as int) + (n as int) <= (n as int) * (n as int) <= 4_000_000_000_000,
                    w@.len() == i * n + j,
                    forall|k: int|
                        0 <= k < w@.len() ==> -WEIGHT_LIMIT <= #[trigger] w@[k] <= WEIGHT_LIMIT,
                    forall|k: int|
                        0 <= k < w@.len() ==> #[trigger] w@[k] == -dist(g1@[k / (n as int)], g2@[k % (n as int)]),
                decreases n - j,
            {
                let d = g1[i].distance(&g2[j]);
                proof {
                    let k = (i as int) * (n as int) + (j as int);
                    vstd::arithmetic::div_mod::lemma_fundamental_div_mod_converse(
                        k,
                        n as int,
                        i as int,
                        j as int,
                    );
                }
                w.push(-d);
                j = j + 1;
            }
            proof {
                assert((i as int + 1) * (n as int) == (i as int) * (n as int) + (n as int))
                    by (nonlinear_arith)
                {}
            }
            i = i + 1;
        }
        let mut lx: Vec<i64> = Vec::new();
        let mut i: usize = 0;
        while i < n
            invariant
                n <= 2_000_000,
                w@.len() == n * n,
                forall|k: int|
                    0 <= k < w@.len() ==> -WEIGHT_LIMIT <= #[trigger] w@[k] <= WEIGHT_LIMIT,
                0 <= i <= n,
                lx@.len() == i,
                forall|k: int| 0 <= k < i ==> -WEIGHT_LIMIT <= #[trigger] lx@[k] <= WEIGHT_LIMIT,
                forall|k: int|
                    0 <= k < i
                        ==> #[trigger] lx@[k] as int == row_max(w@, n as int, k, n as int),
            decreases n - i,
        {
            proof {
                vstd::std_specs::vec::axiom_spec_len(&w);
                assert((i as int) * (n as int) + (n as int) <= (n as int) * (n as int)
                    && (n as int) * (n as int) <= 4_000_000_000_000) by (nonlinear_arith)
                    requires
                        0 <= i as int,
                        (i as int) < (n as int),
                        (n as int) <= 2_000_000,
                {}
            }
            let mut acc: i64 = w[i * n];
            let mut j: usize = 1;
            while j < n
                invariant
                    n <= 2_000_000,
                    w@.len() == n * n,
                    w@.len() <= usize::MAX,
                    forall|k: int|
                        0 <= k < w@.len() ==> -WEIGHT_LIMIT <= #[trigger] w@[k] <= WEIGHT_LIMIT,
                    0 <= i < n,
                    1 <= j <= n,
                    (i as int) * (n as int) + (n as int) <= (n as int) * (n as int),
                    (n as int) * (n as int) <= 4_000_000_000_000,
                    -WEIGHT_LIMIT <= acc <= WEIGHT_LIMIT,
                    acc as int == row_max(w@, n as int, i as int, j as int),
                decreases n - j,
            {
                proof {
                    assert((i as int) * (n as int) + (j as int) < (n as int) * (n as int));
                }
                let idx = i * n + j;
                let v = w[idx];
                if v > acc {
                    acc = v;
                }
                j = j + 1;
            }
            lx.push(acc);
            i = i + 1;
        }
        let mut ly: Vec<i64> = Vec::new();
        let mut xy: Vec<i64> = Vec::new();
        let mut yx: Vec<i64> = Vec::new();
        let mut prev: Vec<i64> = Vec::new();
        let mut s: Vec<bool> = Vec::new();
        let mut t: Vec<bool> = Vec::new();
        let mut slack: Vec<i64> = Vec::new();
        let mut slackx: Vec<i64> = Vec::new();
        let mut i: usize = 0;
        while i < n
            invariant
                0 <= i <= n,
                ly@.len() == i && xy@.len() == i && yx@.len() == i && prev@.len() == i,
                s@.len() == i && t@.len() == i && slack@.len() == i && slackx@.len() == i,
                forall|k: int| 0 <= k < i ==> #[trigger] ly@[k] == 0,
                forall|k: int| 0 <= k < i ==> #[trigger] xy@[k] == -1,
                forall|k: int| 0 <= k < i ==> #[trigger] yx@[k] == -1,
                forall|k: int| 0 <= k < i ==> #[trigger] prev@[k] == -1,
                forall|k: int| 0 <= k < i ==> #[trigger] slack@[k] == 0,
                forall|k: int| 0 <= k < i ==> #[trigger] slackx@[k] == 0,
            decreases n - i,
        {
            ly.push(0);
            xy.push(-1);
            yx.push(-1);
            prev.push(-1);
            s.push(false);
            t.push(false);
            slack.push(0);
            slackx.push(0);
            i = i + 1;
        }
        HugarianSolver {
            g1: crate::init::copy_vec(g1),
            g2: crate::init::copy_vec(g2),
            matches: 0,
            n,
            w,
            lx,
            ly,
            xy,
            yx,
            q: Vec::new(),
            qh: 0,
            prev,
            s,
            t,
            slack,
            slackx,
        }
    }
}

impl HugarianSolver {
    /// Vertex `x` joins the alternating tree under parent `prevx`; every
    /// slack is lowered to the new tree row where that row is tighter.
    fn add_to_tree(&mut self, x: usize, prevx: usize)
        requires
            old(self).wf(),
            x < old(self).n,
            prevx < old(self).n,
        ensures
            final(self).wf(),
            final(self).n == old(self).n,
            final(self).g1 == old(self).g1,
            final(self).g2 == old(self).g2,
            final(self).w == old(self).w,
            final(self).xy == old(self).xy,
            final(self).yx == old(self).yx,
            final(self).matches == old(self).matches,
            final(self).q == old(self).q,
            final(self).qh == old(self).qh,
            final(self).t == old(self).t,
            final(self).lx == old(self).lx,
            final(self).ly == old(self).ly,
    {
        let n = self.n;
        self.s[x] = true;
        self.prev[x] = prevx as i64;
        proof {
            vstd::std_specs::vec::axiom_spec_len(&self.w);
            assert((x as int) * (n as int) + (n as int) <= (n as int) * (n as int))
                by (nonlinear_arith)
                requires
                    0 <= x as int,
                    (x as int) < (n as int),
            {}
        }
        let mut y: usize = 0;
        while y < n
            invariant
                self.wf(),
                self.n == n,
                x < n,
                n == old(self).n,
                self.g1 == old(self).g1 && self.g2 == old(self).g2 && self.w == old(self).w
                    && self.xy == old(self).xy && self.yx == old(self).yx && self.matches
                    == old(self).matches && self.q == old(self).q && self.qh == old(self).qh
                    && self.t == old(self).t && self.lx == old(self).lx && self.ly == old(
                    self,
                ).ly,
                (x as int) * (n as int) + (n as int) <= (n as int) * (n as int),
                self.w@.len() <= usize::MAX,
                0 <= y <= n,
            decreases n - y,
        {
            let idx = x * n + y;
            let cost = self.w[idx];
            let v = self.lx[x] + self.ly[y] - cost;
            if v < self.slack[y] {
                self.slack[y] = v;
                self.slackx[y] = x as i64;
            }
            y = y + 1;
        }
    }

    /// Shift the potentials by the smallest slack outside the tree; reports
    /// failure rather than leave the fixed label bounds.
    fn update_labels(&mut self) -> (ok: bool)
        requires
            old(self).wf(),
        ensures
            final(self).wf(),
            final(self).n == old(self).n,
            final(self).g1 == old(self).g1,
            final(self).g2 == old(self).g2,
            final(self).w == old(self).w,
            final(self).xy == old(self).xy,
            final(self).yx == old(self).yx,
            final(self).matches == old(self).matches,
            final(self).q == old(self).q,
            final(self).qh == old(self).qh,
            final(self).s == old(self).s,
            final(self).t == old(self).t,
    {
        let n = self.n;
        let mut delta: i64 = i64::MAX;
        let mut y: usize = 0;
        while y < n
            invariant
                self.wf(),
                self.n == n,
                n == old(self).n,
                *self == *old(self),
                0 <= y <= n,
                delta == i64::MAX || -SLACK_LIMIT <= delta <= SLACK_LIMIT,
            decreases n - y,
        {
            if !self.t[y] && self.slack[y] < delta {
                delta = self.slack[y];
            }
            y = y + 1;
        }
        if delta < 0 || delta > LABEL_LIMIT {
            return false;
        }
        let mut x: usize = 0;
        while x < n
            invariant
                self.wf(),
                self.n == n,
                n == old(self).n,
                self.g1 == old(self).g1 && self.g2 == old(self).g2 && self.w == old(self).w
                    && self.xy == old(self).xy && self.yx == old(self).yx && self.matches
                    == old(self).matches && self.q == old(self).q && self.qh == old(self).qh
                    && self.s == old(self).s && self.t == old(self).t,
                0 <= delta <= LABEL_LIMIT,
                0 <= x <= n,
            decreases n - x,
        {
            if self.s[x] {
                let v = self.lx[x] - delta;
                if v < -LABEL_LIMIT {
                    return false;
                }
                self.lx[x] = v;
            }
            x = x + 1;
        }
        let mut y: usize = 0;
        while y < n
            invariant
                self.wf(),
                self.n == n,
                n == old(self).n,
                self.g1 == old(self).g1 && self.g2 == old(self).g2 && self.w == old(self).w
                    && self.xy == old(self).xy && self.yx == old(self).yx && self.matches
                    == old(self).matches && self.q == old(self).q && self.qh == old(self).qh
                    && self.s == old(self).s && self.t == old(self).t,
                0 <= delta <= LABEL_LIMIT,
                0 <= y <= n,
            decreases n - y,
        {
            if self.t[y] {
                let v = self.ly[y] + delta;
                if v > LABEL_LIMIT {
                    return false;
                }
                self.ly[y] = v;
            }
            y = y + 1;
        }
        let mut y: usize = 0;
        while y < n
            invariant
                self.wf(),
                self.n == n,
                n == old(self).n,
                self.g1 == old(self).g1 && self.g2 == old(self).g2 && self.w == old(self).w
                    && self.xy == old(self).xy && self.yx == old(self).yx && self.matches
                    == old(self).matches && self.q == old(self).q && self.qh == old(self).qh
                    && self.s == old(self).s && self.t == old(self).t,
                0 <= delta <= LABEL_LIMIT,
                0 <= y <= n,
            decreases n - y,
        {
            if !self.t[y] {
                let v = self.slack[y] - delta;
                if v < -SLACK_LIMIT {
                    return false;
                }
                self.slack[y] = v;
            }
            y = y + 1;
        }
        true
    }

    /// One alternating-tree phase: grow the tree from an unmatched root
    /// over tight edges, shifting potentials when stuck, until an exposed
    /// right vertex appears, then flip the matching along the augmenting
    /// path. Reports failure when the round budget or a guard is hit.
    fn run_phase(&mut self, threshold: u64) -> (ok: bool)
        requires
            old(self).wf(),
            old(self).n >= 1,
            old(self).matches < old(self).n,
        ensures
            final(self).wf(),
            final(self).n == old(self).n,
            final(self).g1 == old(self).g1,
            final(self).g2 == old(self).g2,
            final(self).w == old(self).w,
    {
        let n = self.n;
        let mut k: usize = 0;
        while k < n
            invariant
                self.wf(),
                self.n == n,
                n == old(self).n,
                self.g1 == old(self).g1 && self.g2 == old(self).g2 && self.w == old(self).w
                    && self.xy == old(self).xy && self.yx == old(self).yx && self.matches
                    == old(self).matches,
                0 <= k <= n,
            decreases n - k,
        {
            self.s[k] = false;
            self.t[k] = false;
            self.prev[k] = -1;
            k = k + 1;
        }
        self.q = Vec::new();
        self.qh = 0;
        let mut root: usize = 0;
        let mut found_root = false;
        let mut k: usize = 0;
        while k < n
            invariant
                self.wf(),
                self.n == n,
                n == old(self).n,
                self.g1 == old(self).g1 && self.g2 == old(self).g2 && self.w == old(self).w
                    && self.xy == old(self).xy && self.yx == old(self).yx && self.matches
                    == old(self).matches,
                0 <= k <= n,
                found_root ==> root < n,
            decreases n - k,
        {
            if self.xy[k] == -1 {
                root = k;
                found_root = true;
                k = n;
            } else {
                k = k + 1;
            }
        }
        if !found_root {
            return false;
        }
        self.q.push(root);
        self.prev[root] = -2;
        self.s[root] = true;
        proof {
            vstd::std_specs::vec::axiom_spec_len(&self.w);
            assert((root as int) * (n as int) + (n as int) <= (n as int) * (n as int))
                by (nonlinear_arith)
                requires
                    0 <= root as int,
                    (root as int) < (n as int),
            {}
        }
        let mut k: usize = 0;
        while k < n
            invariant
                self.wf(),
                self.n == n,
                root < n,
                n == old(self).n,
                self.g1 == old(self).g1 && self.g2 == old(self).g2 && self.w == old(self).w
                    && self.xy == old(self).xy && self.yx == old(self).yx && self.matches
                    == old(self).matches,
                (root as int) * (n as int) + (n as int) <= (n as int) * (n as int),
                self.w@.len() <= usize::MAX,
                0 <= k <= n,
            decreases n - k,
        {
            let idx = root * n + k;
            let v = self.lx[root] + self.ly[k] - self.w[idx];
            self.slack[k] = v;
            self.slackx[k] = root as i64;
            k = k + 1;
        }
        let mut stop = false;
        let mut fx: usize = 0;
        let mut fy: usize = 0;
        let mut runs: u64 = 0;
        while runs < threshold && !stop
            invariant
                self.wf(),
                self.n == n,
                n >= 1,
                n == old(self).n,
                self.g1 == old(self).g1 && self.g2 == old(self).g2 && self.w == old(self).w
                    && self.matches == old(self).matches,
                stop ==> fx < n && fy < n,
                runs <= threshold,
            decreases threshold - runs,
        {
            runs = runs + 1;
            while self.qh < self.q.len() && !stop
                invariant
                    self.wf(),
                    self.n == n,
                    n == old(self).n,
                    self.g1 == old(self).g1 && self.g2 == old(self).g2 && self.w == old(self).w
                        && self.matches == old(self).matches,
                    stop ==> fx < n && fy < n,
                decreases n + 1 - self.qh,
            {
                let x = self.q[self.qh];
                self.qh = self.qh + 1;
                let ghost qh0 = self.qh;
                proof {
                    vstd::std_specs::vec::axiom_spec_len(&self.w);
                    assert((x as int) * (n as int) + (n as int) <= (n as int) * (n as int))
                        by (nonlinear_arith)
                        requires
                            0 <= x as int,
                            (x as int) < (n as int),
                    {}
                }
                let mut y: usize = 0;
                while y < n && !stop
                    invariant
                        self.wf(),
                        self.n == n,
                        x < n,
                        n == old(self).n,
                        self.g1 == old(self).g1 && self.g2 == old(self).g2 && self.w == old(
                            self,
                        ).w && self.matches == old(self).matches,
                        (x as int) * (n as int) + (n as int) <= (n as int) * (n as int),
                        self.w@.len() <= usize::MAX,
                        self.qh == qh0,
                        stop ==> fx < n && fy < n,
                        0 <= y <= n,
                    decreases (if stop { 0int } else { 1int }), n - y,
                {
                    let idx = x * n + y;
                    if self.w[idx] == self.lx[x] + self.ly[y] && !self.t[y] {
                        if self.yx[y] == -1 {
                            fx = x;
                            fy = y;
                            stop = true;
                        } else {
                            self.t[y] = true;
                            if self.q.len() > n {
                                return false;
                            }
                            let v = self.yx[y] as usize;
                            self.q.push(v);
                            self.add_to_tree(v, x);
                        }
                    }
                    if !stop {
                        y = y + 1;
                    }
                }
            }
            if !stop {
                if !self.update_labels() {
                    return false;
                }
                self.q = Vec::new();
                self.qh = 0;
                let mut y: usize = 0;
                while y < n && !stop
                    invariant
                        self.wf(),
                        self.n == n,
                        n == old(self).n,
                        self.g1 == old(self).g1 && self.g2 == old(self).g2 && self.w == old(
                            self,
                        ).w && self.matches == old(self).matches,
                        stop ==> fx < n && fy < n,
                        0 <= y <= n,
                    decreases (if stop { 0int } else { 1int }), n - y,
                {
                    if !self.t[y] && self.slack[y] == 0 {
                        if self.yx[y] == -1 {
                            fx = self.slackx[y] as usize;
                            fy = y;
                            stop = true;
                        } else {
                            self.t[y] = true;
                            let v = self.yx[y] as usize;
                            if !self.s[v] {
                                if self.q.len() > n {
                                    return false;
                                }
                                self.q.push(v);
                                let px = self.slackx[y] as usize;
                                self.add_to_tree(v, px);
                            }
                        }
                    }
                    if !stop {
                        y = y + 1;
                    }
                }
            }
        }
        if !stop {
            return false;
        }
        let mut pairs: Vec<(usize, usize)> = Vec::new();
        let mut cx: i64 = fx as i64;
        let mut cy: i64 = fy as i64;
        let mut steps: usize = 0;
        while cx >= 0 && steps <= n
            invariant
                self.wf(),
                self.n == n,
                n == old(self).n,
                self.g1 == old(self).g1 && self.g2 == old(self).g2 && self.w == old(self).w
                    && self.matches == old(self).matches,
                -2 <= cx < n,
                cx >= 0 ==> -1 <= cy < n,
                forall|e: int|
                    0 <= e < pairs@.len()
                        ==> (#[trigger] pairs@[e]).0 < n && pairs@[e].1 < n,
                0 <= steps <= n + 1,
            decreases n + 1 - steps,
        {
            if cy < 0 {
                return false;
            }
            pairs.push((cx as usize, cy as usize));
            let ty = self.xy[cx as usize];
            cx = self.prev[cx as usize];
            cy = ty;
            steps = steps + 1;
        }
        if cx != -2 {
            return false;
        }
        let mut e: usize = 0;
        while e < pairs.len()
            invariant
                self.wf(),
                self.n == n,
                n == old(self).n,
                self.g1 == old(self).g1 && self.g2 == old(self).g2 && self.w == old(self).w
                    && self.matches == old(self).matches,
                forall|k: int|
                    0 <= k < pairs@.len()
                        ==> (#[trigger] pairs@[k]).0 < n && pairs@[k].1 < n,
                0 <= e <= pairs@.len(),
            decreases pairs@.len() - e,
        {
            let (a, b) = pairs[e];
            self.yx[b] = a as i64;
            self.xy[a] = b as i64;
            e = e + 1;
        }
        self.matches = self.matches + 1;
        true
    }

    /// Check the optimality certificate: the potentials dominate every
    /// edge weight, and every matched edge is tight.
    fn check_certificate(&self) -> (r: bool)
        requires
            self.wf(),
        ensures
            r ==> duals_feasible(self.w@, self.n as int, self.lx@, self.ly@) && matching_tight(
                self.w@,
                self.n as int,
                self.lx@,
                self.ly@,
                self.xy@,
            ),
    {
        let n = self.n;
        proof {
            vstd::std_specs::vec::axiom_spec_len(&self.w);
        }
        let mut i: usize = 0;
        while i < n
            invariant
                self.wf(),
                self.n == n,
                self.w@.len() <= usize::MAX,
                0 <= i <= n,
                forall|a: int, b: int|
                    #![trigger self.lx@[a], self.ly@[b]]
                    0 <= a < i && 0 <= b < n ==> self.w@[a * n + b] <= self.lx@[a] + self.ly@[b],
            decreases n - i,
        {
            proof {
                assert((i as int) * (n as int) + (n as int) <= (n as int) * (n as int))
                    by (nonlinear_arith)
                    requires
                        0 <= i as int,
                        (i as int) < (n as int),
                {}
            }
            let mut j: usize = 0;
            while j < n
                invariant
                    self.wf(),
                    self.n == n,
                    self.w@.len() <= usize::MAX,
                    0 <= i < n,
                    0 <= j <= n,
                    (i as int) * (n as int) + (n as int) <= (n as int) * (n as int),
                    forall|b: int|
                        0 <= b < j ==> self.w@[i as int * n + b] <= self.lx@[i as int]
                            + #[trigger] self.ly@[b],
                decreases n - j,
            {
                if self.w[i * n + j] > self.lx[i] + self.ly[j] {
                    return false;
                }
                j = j + 1;
            }
            i = i + 1;
        }
        let mut i: usize = 0;
        while i < n
            invariant
                self.wf(),
                self.n == n,
                self.w@.len() <= usize::MAX,
                0 <= i <= n,
                forall|a: int|
                    0 <= a < i ==> self.w@[a * n + #[trigger] self.xy@[a]] == self.lx@[a]
                        + self.ly@[self.xy@[a] as int],
            decreases n - i,
        {
            let v = self.xy[i];
            if v < 0 {
                return false;
            }
            proof {
                assert((i as int) * (n as int) + (n as int) <= (n as int) * (n as int))
                    by (nonlinear_arith)
                    requires
                        0 <= i as int,
                        (i as int) < (n as int),
                {}
            }
            if self.w[i * n + (v as usize)] != self.lx[i] + self.ly[v as usize] {
                return false;
            }
            i = i + 1;
        }
        true
    }

    /// Check that the two assignment tables invert each other on the left
    /// vertices.
    fn check_inverse(&self) -> (r: bool)
        requires
            self.wf(),
        ensures
            r ==> forall|i: int|
                0 <= i < self.n ==> 0 <= #[trigger] self.xy@[i] && self.yx@[self.xy@[i] as int]
                    == i,
    {
        let n = self.n;
        let mut i: usize = 0;
        while i < n
            invariant
                self.wf(),
                self.n == n,
                0 <= i <= n,
                forall|k: int|
                    0 <= k < i ==> 0 <= #[trigger] self.xy@[k] && self.yx@[self.xy@[k] as int]
                        == k,
            decreases n - i,
        {
            let v = self.xy[i];
            if v < 0 {
                return false;
            }
            if self.yx[v as usize] != i as i64 {
                return false;
            }
            i = i + 1;
        }
        true
    }

    /// Run phases until every left vertex is matched. The result is `true`
    /// exactly when a full assignment was built, checks out as a
    /// permutation of the right vertices inverted by the right table, and
    /// carries the optimality certificate: no assignment outweighs it. An
    /// empty instance always succeeds.
    pub fn augment(&mut self) -> (ok: bool)
        requires
            old(self).wf(),
        ensures
            final(self).wf(),
            final(self).n == old(self).n,
            final(self).g1 == old(self).g1,
            final(self).g2 == old(self).g2,
            final(self).w == old(self).w,
            old(self).n == 0 ==> ok,
            ok ==> final(self).matches == final(self).n,
            ok ==> is_index_perm(final(self).xy@, final(self).n as int),
            ok ==> duals_feasible(final(self).w@, final(self).n as int, final(self).lx@, final(self).ly@),
            ok ==> matching_tight(
                final(self).w@,
                final(self).n as int,
                final(self).lx@,
                final(self).ly@,
                final(self).xy@,
            ),
            ok ==> forall|i: int|
                0 <= i < final(self).n
                    ==> 0 <= #[trigger] final(self).xy@[i] && final(self).yx@[final(self).xy@[i]
                        as int] == i,
            ok ==> forall|q: Seq<i64>|
                is_index_perm(q, final(self).n as int) ==> assign_sum(
                    final(self).w@,
                    final(self).n as int,
                    q,
                    final(self).n as int,
                ) <= assign_sum(
                    final(self).w@,
                    final(self).n as int,
                    final(self).xy@,
                    final(self).n as int,
                ),
    {
        let n = self.n;
        if n == 0 {
            proof {
                assert(is_index_perm(self.xy@, 0));
                assert forall|q: Seq<i64>|
                    is_index_perm(q, 0) implies assign_sum(self.w@, 0, q, 0) <= assign_sum(
                    self.w@,
                    0,
                    self.xy@,
                    0,
                ) by {}
            }
            return true;
        }
        let nn = n as u64;
        assert(nn * nn * nn <= 8_000_000_000_000_000_000 && nn * nn <= 4_000_000_000_000)
            by (nonlinear_arith)
            requires nn <= 2_000_000
        {}
        let threshold: u64 = nn * nn * nn;
        let mut phases: usize = 0;
        let mut ok = true;
        while phases < n && ok
            invariant
                self.wf(),
                self.n == n,
                n == old(self).n,
                self.g1 == old(self).g1 && self.g2 == old(self).g2 && self.w == old(self).w,
                0 <= phases <= n,
            decreases n - phases,
        {
            if self.matches < n {
                ok = self.run_phase(threshold);
            }
            phases = phases + 1;
        }
        if !ok {
            return false;
        }
        if self.matches < n {
            return false;
        }
        if !check_index_perm(&self.xy, n) {
            return false;
        }
        if !self.check_certificate() {
            return false;
        }
        if !self.check_inverse() {
            return false;
        }
        proof {
            assert forall|q: Seq<i64>|
                is_index_perm(q, n as int) implies assign_sum(self.w@, n as int, q, n as int)
                <= assign_sum(self.w@, n as int, self.xy@, n as int) by {
                lemma_certificate_optimal(self.w@, n as int, self.lx@, self.ly@, self.xy@, q);
            }
        }
        true
    }
}

/// Total distance of the pairing that matches `a[i]` with `b[q[i]]`, over
/// the first `k` pairs.
pub open spec fn pairing_dist(a: Seq<Point>, b: Seq<Point>, q: Seq<i64>, k: int) -> int
    decreases (if k <= 0 { 0int } else { k }),
{
    if k <= 0 {
        0
    } else {
        pairing_dist(a, b, q, k - 1) + dist(a[k - 1], b[q[k - 1] as int])
    }
}

/// On a matrix of negated distances, an assignment's weight is the negated
/// pairing distance.
proof fn lemma_assign_is_neg_dist(
    w: Seq<i64>,
    a: Seq<Point>,
    b: Seq<Point>,
    n: int,
    q: Seq<i64>,
    k: int,
)
    requires
        a.len() == n,
        b.len() == n,
        w.len() == n * n,
        forall|m: int| 0 <= m < n * n ==> #[trigger] w[m] == -dist(a[m / n], b[m % n]),
        is_index_perm(q, n),
        0 <= k <= n,
    ensures
        assign_sum(w, n, q, k) == -pairing_dist(a, b, q, k),
    decreases k,
{
    if k > 0 {
        lemma_assign_is_neg_dist(w, a, b, n, q, k - 1);
        let m = (k - 1) * n + q[k - 1];
        assert(0 <= m < n * n && m == (k - 1) * n + q[k - 1]) by (nonlinear_arith)
            requires
                0 <= k - 1 < n,
                0 <= q[k - 1] < n,
                m == (k - 1) * n + q[k - 1],
        {}
        vstd::arithmetic::div_mod::lemma_fundamental_div_mod_converse(
            m,
            n,
            k - 1,
            q[k - 1] as int,
        );
    }
}

/// Reorder `g2` so that `g2[i]` becomes the partner that the
/// maximum-weight (minimum total-distance) matching assigns to `g1[i]`:
/// when the matcher succeeds, no permutation of `g2` pairs up with `g1`
/// at a smaller total distance. When the matcher finds no full matching,
/// `g2` is left exactly as it was.
pub fn apply_hungarian(g1: &Vec<Point>, g2: &mut Vec<Point>)
    requires
        g1@.len() == old(g2)@.len() <= 2_000_000,
        forall|i: int| 0 <= i < g1@.len() ==> in_band(#[trigger] g1@[i]),
        forall|i: int| 0 <= i < old(g2)@.len() ==> in_band(#[trigger] old(g2)@[i]),
    ensures
        final(g2)@.len() == old(g2)@.len(),
        final(g2)@ == old(g2)@ || exists|p: Seq<i64>|
            {
                &&& is_index_perm(p, old(g2)@.len() as int)
                &&& forall|i: int|
                    0 <= i < old(g2)@.len() ==> #[trigger] final(g2)@[i] == old(g2)@[p[i] as int]
                &&& forall|q: Seq<i64>|
                    is_index_perm(q, old(g2)@.len() as int) ==> pairing_dist(
                        g1@,
                        old(g2)@,
                        p,
                        old(g2)@.len() as int,
                    ) <= pairing_dist(g1@, old(g2)@, q, old(g2)@.len() as int)
            },
        forall|i: int| 0 <= i < final(g2)@.len() ==> old(g2)@.contains(#[trigger] final(g2)@[i]),
{
    let mut solver = HugarianSolver::new(g1, g2);
    let ghost w0 = solver.w@;
    let ghost n0 = solver.n as int;
    let success = solver.augment();
    if success {
        let n = g1.len();
        proof {
            assert(solver.w@ == w0 && solver.n as int == n0 && n0 == n as int);
            assert forall|m: int|
                0 <= m < n * n implies #[trigger] solver.w@[m] == -dist(
                g1@[m / (n as int)],
                old(g2)@[m % (n as int)],
            ) by {
                assert(w0[m] == -dist(g1@[m / n0], old(g2)@[m % n0]));
            }
        }
        let mut out: Vec<Point> = Vec::new();
        let mut i: usize = 0;
        while i < n
            invariant
                solver.wf(),
                solver.n == n,
                n == g1@.len() == old(g2)@.len(),
                solver.g2@ == old(g2)@,
                is_index_perm(solver.xy@, n as int),
                forall|m: int|
                    0 <= m < n * n ==> #[trigger] solver.w@[m] == -dist(
                        g1@[m / (n as int)],
                        old(g2)@[m % (n as int)],
                    ),
                forall|q: Seq<i64>|
                    is_index_perm(q, n as int) ==> assign_sum(solver.w@, n as int, q, n as int)
                        <= assign_sum(solver.w@, n as int, solver.xy@, n as int),
                0 <= i <= n,
                out@.len() == i,
                forall|k: int| 0 <= k < i ==> #[trigger] out@[k] == old(g2)@[solver.xy@[k] as int],
            decreases n - i,
        {
            let t = solver.xy[i];
            out.push(solver.g2[t as usize]);
            i = i + 1;
        }
        proof {
            let p = solver.xy@;
            let nn = old(g2)@.len() as int;
            assert(is_index_perm(p, nn) && out@.len() == old(g2)@.len() && forall|k: int|
                0 <= k < nn ==> out@[k] == old(g2)@[#[trigger] p[k] as int]);
            assert forall|q: Seq<i64>|
                is_index_perm(q, nn) implies pairing_dist(g1@, old(g2)@, p, nn) <= pairing_dist(
                g1@,
                old(g2)@,
                q,
                nn,
            ) by {
                lemma_assign_is_neg_dist(solver.w@, g1@, old(g2)@, nn, p, nn);
                lemma_assign_is_neg_dist(solver.w@, g1@, old(g2)@, nn, q, nn);
            }
        }
        *g2 = out;
    }
    proof {
        assert forall|i: int|
            0 <= i < final(g2)@.len() implies old(g2)@.contains(#[trigger] final(g2)@[i]) by {
            if final(g2)@ == old(g2)@ {
                assert(old(g2)@[i] == final(g2)@[i]);
            } else {
                let p = choose|p: Seq<i64>|
                    is_index_perm(p, old(g2)@.len() as int) && final(g2)@.len() == old(g2)@.len()
                        && forall|k: int|
                        0 <= k < old(g2)@.len() ==> final(g2)@[k] == old(g2)@[#[trigger] p[k] as int];
                assert(final(g2)@[i] == old(g2)@[p[i] as int]);
            }
        }
    }
}

/// Sum of the weights an assignment `p` picks: entry `w[i*n + p[i]]` for
/// each left vertex `i` below `k`.
pub open spec fn assign_sum(w: Seq<i64>, n: int, p: Seq<i64>, k: int) -> int
    decreases (if k <= 0 { 0int } else { k }),
{
    if k <= 0 {
        0
    } else {
        assign_sum(w, n, p, k - 1) + w[(k - 1) * n + p[k - 1]]
    }
}

/// Sum of the first `k` left potentials.
pub open spec fn lx_sum(lx: Seq<i64>, k: int) -> int
    decreases (if k <= 0 { 0int } else { k }),
{
    if k <= 0 {
        0
    } else {
        lx_sum(lx, k - 1) + lx[k - 1]
    }
}

/// Sum of the right potentials the assignment `p` selects.
pub open spec fn ly_sel_sum(ly: Seq<i64>, p: Seq<i64>, k: int) -> int
    decreases (if k <= 0 { 0int } else { k }),
{
    if k <= 0 {
        0
    } else {
        ly_sel_sum(ly, p, k - 1) + ly[p[k - 1] as int]
    }
}

/// The potentials dominate every edge weight.
pub open spec fn duals_feasible(w: Seq<i64>, n: int, lx: Seq<i64>, ly: Seq<i64>) -> bool {
    forall|i: int, j: int|
        #![trigger lx[i], ly[j]]
        0 <= i < n && 0 <= j < n ==> w[i * n + j] <= lx[i] + ly[j]
}

/// Every matched edge is tight.
pub open spec fn matching_tight(w: Seq<i64>, n: int, lx: Seq<i64>, ly: Seq<i64>, p: Seq<i64>) -> bool {
    forall|i: int| 0 <= i < n ==> w[i * n + #[trigger] p[i]] == lx[i] + ly[p[i] as int]
}

/// The values of an index list, as a set.
pub open spec fn index_image(p: Seq<i64>, k: int) -> Set<int>
    decreases (if k <= 0 { 0int } else { k }),
{
    if k <= 0 {
        Set::empty()
    } else {
        index_image(p, k - 1).insert(p[k - 1] as int)
    }
}

proof fn lemma_index_image_contains(p: Seq<i64>, k: int, v: int)
    requires
        0 <= k,
    ensures
        index_image(p, k).contains(v) <==> exists|j: int| 0 <= j < k && p[j] == v,
    decreases k,
{
    if k > 0 {
        lemma_index_image_contains(p, k - 1, v);
        if exists|j: int| 0 <= j < k && p[j] == v {
            let j = choose|j: int| 0 <= j < k && p[j] == v;
            if j < k - 1 {
                assert(index_image(p, k - 1).contains(v));
            }
        }
    }
}

proof fn lemma_index_image_len(p: Seq<i64>, n: int, k: int)
    requires
        is_index_perm(p, n),
        0 <= k <= n,
    ensures
        index_image(p, k).finite(),
        index_image(p, k).len() == k,
    decreases k,
{
    if k > 0 {
        lemma_index_image_len(p, n, k - 1);
        lemma_index_image_contains(p, k - 1, p[k - 1] as int);
        assert(!index_image(p, k - 1).contains(p[k - 1] as int));
    }
}

/// A permutation of `0..n` hits every value below `n`.
proof fn lemma_index_perm_surjective(p: Seq<i64>, n: int, v: int)
    requires
        is_index_perm(p, n),
        0 <= v < n,
    ensures
        exists|i: int| 0 <= i < n && p[i] == v,
{
    let img = index_image(p, n);
    let range = vstd::set_lib::set_int_range(0, n);
    lemma_index_image_len(p, n, n);
    vstd::set_lib::lemma_int_range(0, n);
    assert(img.subset_of(range)) by {
        assert forall|x: int| img.contains(x) implies range.contains(x) by {
            lemma_index_image_contains(p, n, x);
        }
    }
    if !img.contains(v) {
        img.lemma_subset_not_in_lt(range, v);
    }
    lemma_index_image_contains(p, n, v);
}

proof fn lemma_ly_sel_congruent(ly: Seq<i64>, p: Seq<i64>, q: Seq<i64>, k: int)
    requires
        forall|j: int| 0 <= j < k ==> p[j] == q[j],
    ensures
        ly_sel_sum(ly, p, k) == ly_sel_sum(ly, q, k),
    decreases (if k <= 0 { 0int } else { k }),
{
    if k > 0 {
        lemma_ly_sel_congruent(ly, p, q, k - 1);
    }
}

/// Removing one selected index removes exactly its summand.
proof fn lemma_ly_sel_remove(ly: Seq<i64>, p: Seq<i64>, i: int)
    requires
        0 <= i < p.len(),
    ensures
        ly_sel_sum(ly, p, p.len() as int) == ly_sel_sum(ly, p.remove(i), p.len() - 1) + ly[p[i] as int],
    decreases p.len(),
{
    let m = p.len() as int;
    if i == m - 1 {
        lemma_ly_sel_congruent(ly, p, p.remove(i), m - 1);
    } else {
        let hd = p.take(m - 1);
        lemma_ly_sel_congruent(ly, p, hd, m - 1);
        lemma_ly_sel_remove(ly, hd, i);
        assert(p.remove(i)[m - 2] == p[m - 1]);
        assert(forall|j: int| 0 <= j < m - 2 ==> hd.remove(i)[j] == #[trigger] p.remove(i)[j]);
        lemma_ly_sel_congruent(ly, hd.remove(i), p.remove(i), m - 2);
    }
}

/// Any permutation of `0..n` selects every right potential exactly once.
proof fn lemma_ly_sel_perm(ly: Seq<i64>, p: Seq<i64>, n: int)
    requires
        is_index_perm(p, n),
        0 <= n,
    ensures
        ly_sel_sum(ly, p, n) == lx_sum(ly, n),
    decreases n,
{
    if n > 0 {
        lemma_index_perm_surjective(p, n, n - 1);
        let i = choose|i: int| 0 <= i < n && p[i] == n - 1;
        lemma_ly_sel_remove(ly, p, i);
        let p2 = p.remove(i);
        assert(is_index_perm(p2, n - 1)) by {
            assert forall|a: int| 0 <= a < n - 1 implies 0 <= #[trigger] p2[a] < n - 1 by {
                if a < i {
                    assert(p2[a] == p[a]);
                    assert(p[a] != p[i]);
                } else {
                    assert(p2[a] == p[a + 1]);
                    assert(p[a + 1] != p[i]);
                }
            }
            assert forall|a: int, b: int| 0 <= a < b < n - 1 implies p2[a] != p2[b] by {
                if b < i {
                } else if a < i {
                    assert(p2[a] == p[a] && p2[b] == p[b + 1]);
                } else {
                    assert(p2[a] == p[a + 1] && p2[b] == p[b + 1]);
                }
            }
        }
        lemma_ly_sel_perm(ly, p2, n - 1);
    }
}

/// With feasible potentials, every assignment's weight is at most the
/// total potential it touches.
proof fn lemma_assign_le(w: Seq<i64>, n: int, lx: Seq<i64>, ly: Seq<i64>, p: Seq<i64>, k: int)
    requires
        duals_feasible(w, n, lx, ly),
        is_index_perm(p, n),
        0 <= k <= n,
    ensures
        assign_sum(w, n, p, k) <= lx_sum(lx, k) + ly_sel_sum(ly, p, k),
    decreases k,
{
    if k > 0 {
        lemma_assign_le(w, n, lx, ly, p, k - 1);
        assert(w[(k - 1) * n + p[k - 1]] <= lx[k - 1] + ly[p[k - 1] as int]);
    }
}

/// A tight matching's weight equals the total potential it touches.
proof fn lemma_assign_tight(w: Seq<i64>, n: int, lx: Seq<i64>, ly: Seq<i64>, p: Seq<i64>, k: int)
    requires
        matching_tight(w, n, lx, ly, p),
        0 <= k <= n,
    ensures
        assign_sum(w, n, p, k) == lx_sum(lx, k) + ly_sel_sum(ly, p, k),
    decreases k,
{
    if k > 0 {
        lemma_assign_tight(w, n, lx, ly, p, k - 1);
    }
}

/// The duality certificate: a perfect matching on tight edges under
/// feasible potentials has maximum weight among all assignments.
pub proof fn lemma_certificate_optimal(
    w: Seq<i64>,
    n: int,
    lx: Seq<i64>,
    ly: Seq<i64>,
    m: Seq<i64>,
    p: Seq<i64>,
)
    requires
        duals_feasible(w, n, lx, ly),
        matching_tight(w, n, lx, ly, m),
        is_index_perm(m, n),
        is_index_perm(p, n),
    ensures
        assign_sum(w, n, p, n) <= assign_sum(w, n, m, n),
{
    lemma_assign_le(w, n, lx, ly, p, n);
    lemma_assign_tight(w, n, lx, ly, m, n);
    lemma_ly_sel_perm(ly, p, n);
    lemma_ly_sel_perm(ly, m, n);
}

} // verus!
