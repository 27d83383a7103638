//! Randomness: the creature draws every chance from a `rand` thread generator.

use rand::rngs::ThreadRng;
use rand::Rng;
use vstd::prelude::*;

verus! {

/// The thread-local generator of `rand`, handed around by reference.
#[verifier::external_type_specification]
#[verifier::external_body]
pub struct ExThreadRng(ThreadRng);

/// `rand::thread_rng`: a handle on the thread-local generator.
#[verifier::external_body]
pub(crate) fn thread_rng() -> ThreadRng {
    rand::thread_rng()
}

/// `Rng::gen_range(lo..hi)` over `i64`: a value drawn from the half-open
/// range. The range must not be empty (rand panics on an empty range).
#[verifier::external_body]
fn draw_in(rng: &mut ThreadRng, lo: i64, hi: i64) -> (r: i64)
    requires
        lo < hi,
    ensures
        lo <= r < hi,
{
    rng.gen_range(lo..hi)
}

/// A value drawn from `lo..hi`.
pub fn random_range(rng: &mut ThreadRng, lo: i64, hi: i64) -> (r: i64)
    requires
        lo < hi,
    ensures
        lo <= r < hi,
{
    draw_in(rng, lo, hi)
}

/// An index drawn from `0..n` (as `gen_range(0..n)` over `usize`).
pub fn random_index(rng: &mut ThreadRng, n: usize) -> (r: usize)
    requires
        0 < n,
    ensures
        r < n,
{
    let hi: i64 = if n as u64 > i64::MAX as u64 {
        i64::MAX
    } else {
        n as i64
    };
    let r = draw_in(rng, 0, hi);
    r as usize
}

/// A roll of `0..100`: a chance of `p` percent comes up when the roll is
/// under `p`.
pub fn percent_roll(rng: &mut ThreadRng) -> (r: u32)
    ensures
        r < 100,
{
    random_index(rng, 100) as u32
}

} // verus!
