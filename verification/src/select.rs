//! Truncation selection: keep the highest-fitness states, ranked by the
//! quantized inverse-overlap fitness, ties broken by original position.

use vstd::prelude::*;

use crate::eval::{overlap_fs, overlap_fs_spec, positive_radii};
use crate::init::copy_vec;
use crate::models::{state_wf, Configuration, Point};

verus! {

/// `(k1, i1)` ranks strictly before `(k2, i2)`: higher fitness first, ties
/// by smaller original position.
pub open spec fn tag_before(k1: int, i1: int, k2: int, i2: int) -> bool {
    k1 > k2 || (k1 == k2 && i1 < i2)
}

/// The fitness key of every state.
pub open spec fn keys_of(conf: Configuration, states: Seq<Vec<Point>>) -> Seq<int> {
    Seq::new(states.len(), |i: int| overlap_fs_spec(conf, states[i]@))
}

/// `sel` lists pairwise-distinct indices of `keys` such that each listed
/// index ranks before every index not listed at or before it: the greedy
/// best-first selection.
pub open spec fn rank_selection(keys: Seq<int>, sel: Seq<int>) -> bool {
    &&& forall|r: int| 0 <= r < sel.len() ==> 0 <= #[trigger] sel[r] < keys.len()
    &&& forall|r1: int, r2: int| 0 <= r1 < r2 < sel.len() ==> sel[r1] != sel[r2]
    &&& forall|r: int, j: int|
        #![trigger sel[r], keys[j]]
        0 <= r < sel.len() && 0 <= j < keys.len() && (forall|r2: int|
            0 <= r2 <= r ==> sel[r2] != j) ==> tag_before(keys[sel[r]], sel[r], keys[j], j)
}

/// The selector's law: a rank-ordered selection picks only input indices,
/// lists them best first under the quantized order with ties by position,
/// and every selected entry has at least the fitness of every unselected
/// one.
pub proof fn lemma_best_selects_top(keys: Seq<int>, sel: Seq<int>)
    requires
        rank_selection(keys, sel),
    ensures
        forall|r: int| 0 <= r < sel.len() ==> 0 <= #[trigger] sel[r] < keys.len(),
        forall|r1: int, r2: int|
            0 <= r1 < r2 < sel.len()
                ==> tag_before(keys[#[trigger] sel[r1]], sel[r1], keys[#[trigger] sel[r2]], sel[r2]),
        forall|r: int, j: int|
            #![trigger sel[r], keys[j]]
            0 <= r < sel.len() && 0 <= j < keys.len() && !sel.contains(j)
                ==> keys[sel[r]] >= keys[j],
{
    assert forall|r1: int, r2: int|
        0 <= r1 < r2 < sel.len() implies tag_before(
        keys[#[trigger] sel[r1]],
        sel[r1],
        keys[#[trigger] sel[r2]],
        sel[r2],
    ) by {
        assert(forall|r0: int| 0 <= r0 <= r1 ==> sel[r0] != sel[r2]);
    }
    assert forall|r: int, j: int|
        #![trigger sel[r], keys[j]]
        0 <= r < sel.len() && 0 <= j < keys.len() && !sel.contains(j) implies keys[sel[r]]
        >= keys[j] by {
        assert(forall|r0: int| 0 <= r0 <= r ==> sel[r0] != j);
        assert(tag_before(keys[sel[r]], sel[r], keys[j], j));
    }
}

/// How many of the first `k` flags are set.
pub open spec fn count_true(s: Seq<bool>, k: int) -> int
    decreases k,
{
    if k <= 0 {
        0
    } else {
        count_true(s, k - 1) + if s[k - 1] {
            1int
        } else {
            0int
        }
    }
}

proof fn lemma_count_true_all(s: Seq<bool>, k: int)
    requires
        forall|j: int| 0 <= j < k ==> #[trigger] s[j],
        k >= 0,
    ensures
        count_true(s, k) == k,
    decreases k,
{
    if k > 0 {
        lemma_count_true_all(s, k - 1);
    }
}

proof fn lemma_count_true_update(s: Seq<bool>, b: int, k: int)
    requires
        0 <= b < s.len(),
        !s[b],
        0 <= k <= s.len(),
    ensures
        count_true(s.update(b, true), k) == count_true(s, k) + if b < k {
            1int
        } else {
            0int
        },
    decreases k,
{
    if k > 0 {
        lemma_count_true_update(s, b, k - 1);
    }
}

/// Keep the `keep` best states: fitness is the inverse-overlap key, the
/// order is highest key first with ties broken by original position, and
/// the result lists the selected states in that order.
#[verifier::rlimit(60)]
pub fn best(conf: &Configuration, states: &Vec<Vec<Point>>, keep: usize) -> (out: Vec<Vec<Point>>)
    requires
        conf.wf(),
        positive_radii(*conf),
        forall|s: int| 0 <= s < states@.len() ==> state_wf(*conf, #[trigger] states@[s]@),
        keep <= states@.len(),
    ensures
        out@.len() == keep,
        forall|r: int| 0 <= r < keep ==> state_wf(*conf, #[trigger] out@[r]@),
        exists|sel: Seq<int>|
            rank_selection(keys_of(*conf, states@), sel) && sel.len() == keep && (forall|r: int|
                0 <= r < keep ==> #[trigger] out@[r]@ == states@[sel[r]]@),
{
    let n = states.len();
    let ghost keys_spec = keys_of(*conf, states@);
    let mut keys: Vec<i64> = Vec::new();
    let mut i: usize = 0;
    while i < n
        invariant
            conf.wf(),
            positive_radii(*conf),
            forall|s: int| 0 <= s < states@.len() ==> state_wf(*conf, #[trigger] states@[s]@),
            n == states@.len(),
            keys_spec == keys_of(*conf, states@),
            0 <= i <= n,
            keys@.len() == i,
            forall|k: int| 0 <= k < i ==> #[trigger] keys@[k] == keys_spec[k],
        decreases n - i,
    {
        let f = overlap_fs(conf, &states[i]);
        keys.push(f);
        i = i + 1;
    }
    let mut used: Vec<bool> = Vec::new();
    let mut i: usize = 0;
    while i < n
        invariant
            0 <= i <= n,
            used@.len() == i,
            forall|k: int| 0 <= k < i ==> !(#[trigger] used@[k]),
        decreases n - i,
    {
        used.push(false);
        i = i + 1;
    }
    proof {
        lemma_count_true_zero(used@, n as int);
    }
    let mut out: Vec<Vec<Point>> = Vec::new();
    let ghost mut sel: Seq<int> = Seq::empty();
    let mut r: usize = 0;
    while r < keep
        invariant
            conf.wf(),
            forall|s: int| 0 <= s < states@.len() ==> state_wf(*conf, #[trigger] states@[s]@),
            n == states@.len() == keys@.len() == used@.len(),
            keep <= n,
            keys_spec == keys_of(*conf, states@),
            forall|k: int| 0 <= k < n ==> #[trigger] keys@[k] == keys_spec[k],
            0 <= r <= keep,
            out@.len() == r,
            sel.len() == r,
            count_true(used@, n as int) == r,
            forall|r1: int| 0 <= r1 < r ==> 0 <= #[trigger] sel[r1] < n,
            forall|j: int|
                0 <= j < n ==> (#[trigger] used@[j] <==> exists|r1: int| 0 <= r1 < r && sel[r1] == j),
            forall|r1: int, r2: int| 0 <= r1 < r2 < r ==> sel[r1] != sel[r2],
            forall|r1: int| 0 <= r1 < r ==> #[trigger] out@[r1]@ == states@[sel[r1]]@,
            forall|r1: int, j: int|
                #![trigger sel[r1], keys_spec[j]]
                0 <= r1 < r && 0 <= j < n && (forall|r2: int| 0 <= r2 <= r1 ==> sel[r2] != j)
                    ==> tag_before(keys_spec[sel[r1]], sel[r1], keys_spec[j], j),
        decreases keep - r,
    {
        let mut b: usize = 0;
        let mut found = false;
        let mut i: usize = 0;
        while i < n
            invariant
                n == keys@.len() == used@.len(),
                0 <= i <= n,
                found ==> b < n && !used@[b as int],
                found ==> forall|j: int|
                    0 <= j < i && !(#[trigger] used@[j]) && j != b ==> tag_before(
                        keys@[b as int] as int,
                        b as int,
                        keys@[j] as int,
                        j,
                    ),
                !found ==> forall|j: int| 0 <= j < i ==> #[trigger] used@[j],
            decreases n - i,
        {
            if !used[i] {
                if !found {
                    b = i;
                    found = true;
                } else {
                    let better = keys[i] > keys[b] || (keys[i] == keys[b] && i < b);
                    if better {
                        b = i;
                    }
                }
            }
            i = i + 1;
        }
        if !found {
            proof {
                lemma_count_true_all(used@, n as int);
            }
            assert(false);
        }
        let ghost sel_old = sel;
        let ghost used_old = used@;
        out.push(copy_vec(&states[b]));
        proof {
            lemma_count_true_update(used@, b as int, n as int);
            sel = sel_old.push(b as int);
        }
        used[b] = true;
        proof {
            assert forall|j: int|
                0 <= j < n implies ((#[trigger] used@[j]) <==> exists|r1: int|
                0 <= r1 < r + 1 && sel[r1] == j) by {
                if j == b as int {
                    assert(sel[r as int] == j);
                } else {
                    assert(used@[j] == used_old[j]);
                    if used_old[j] {
                        let r1 = choose|r1: int| 0 <= r1 < r && sel_old[r1] == j;
                        assert(sel[r1] == j);
                    } else {
                        if exists|r1: int| 0 <= r1 < r + 1 && sel[r1] == j {
                            let r1 = choose|r1: int| 0 <= r1 < r + 1 && sel[r1] == j;
                            assert(r1 < r);
                            assert(sel_old[r1] == j);
                        }
                    }
                }
            }
            assert forall|r1: int, j: int|
                #![trigger sel[r1], keys_spec[j]]
                0 <= r1 < r + 1 && 0 <= j < n && (forall|r2: int| 0 <= r2 <= r1 ==> sel[r2] != j)
                    implies tag_before(keys_spec[sel[r1]], sel[r1], keys_spec[j], j) by {
                if r1 == r as int {
                    assert(sel[r1] == b as int);
                    assert(j != b as int);
                    assert(!used_old[j]) by {
                        if used_old[j] {
                            let r2 = choose|r2: int| 0 <= r2 < r && sel_old[r2] == j;
                            assert(sel[r2] == j);
                        }
                    }
                    assert(tag_before(keys@[b as int] as int, b as int, keys@[j] as int, j));
                } else {
                    assert(sel_old[r1] == sel[r1]);
                    assert forall|r2: int| 0 <= r2 <= r1 implies sel_old[r2] != j by {
                        assert(sel[r2] == sel_old[r2]);
                    }
                    assert(tag_before(keys_spec[sel_old[r1]], sel_old[r1], keys_spec[j], j));
                }
            }
        }
        r = r + 1;
    }
    proof {
        assert(rank_selection(keys_spec, sel));
    }
    out
}

proof fn lemma_count_true_zero(s: Seq<bool>, k: int)
    requires
        forall|j: int| 0 <= j < k ==> !(#[trigger] s[j]),
        k >= 0,
    ensures
        count_true(s, k) == 0,
    decreases k,
{
    if k > 0 {
        lemma_count_true_zero(s, k - 1);
    }
}

} // verus!
