//! The randomness boundary: a seedable generator handle and the trusted
//! draws the search operators build on. Every operator takes the generator
//! explicitly, so runs are reproducible from a seed.

use vstd::prelude::*;

use rand::seq::SliceRandom;
use crate::models::DIM_LIMIT;



verus! {

#[verifier::external_type_specification]
#[verifier::external_body]
pub struct ExStdRng(rand::rngs::StdRng);

/// Relies on rand's `SeedableRng::seed_from_u64`: builds a standard
/// generator from a 64-bit seed.
#[verifier::external_body]
pub fn seeded_rng(seed: u64) -> rand::rngs::StdRng {
    <rand::rngs::StdRng as rand::SeedableRng>::seed_from_u64(seed)
}

/// Relies on rand's `Rng::gen_range`, which returns a value uniform in
/// `[lo, hi)` and panics when the range is empty.
#[verifier::external_body]
pub fn gen_range_i64(rng: &mut rand::rngs::StdRng, lo: i64, hi: i64) -> (r: i64)
    requires
        lo < hi,
    ensures
        lo <= r < hi,
{
    rand::Rng::gen_range(rng, lo, hi)
}

/// Relies on rand's `SliceRandom::shuffle`: permutes the slice in place.
#[verifier::external_body]
pub fn shuffle_indices(rng: &mut rand::rngs::StdRng, v: &mut Vec<usize>)
    ensures
        final(v)@.len() == old(v)@.len(),
        final(v)@.to_multiset() == old(v)@.to_multiset(),
{
    v.as_mut_slice().shuffle(rng)
}

/// A zero-mean noise draw with standard deviation close to `sdev`: the sum
/// of twelve uniform draws, centred. Nothing more is promised of the value
/// than its range.
pub fn centered_noise(rng: &mut rand::rngs::StdRng, sdev: i64) -> (r: i64)
    requires
        0 <= sdev <= 4 * DIM_LIMIT,
    ensures
        -6 * sdev <= r <= 6 * sdev,
{
    if sdev == 0 {
        return 0;
    }
    let mut acc: i64 = 0;
    let mut i: usize = 0;
    while i < 12
        invariant
            0 <= i <= 12,
            0 < sdev <= 4 * DIM_LIMIT,
            0 <= acc <= i * sdev,
        decreases 12 - i,
    {
        let d = gen_range_i64(rng, 0, sdev);
        assert(acc + d <= (i + 1) * sdev <= 48 * DIM_LIMIT) by (nonlinear_arith)
            requires 0 <= acc <= i * sdev && 0 <= d < sdev && sdev <= 4 * DIM_LIMIT && i < 12
        {}
        acc = acc + d;
        i = i + 1;
    }
    acc - 6 * sdev
}

} // verus!
