//! Trusted boundary to the `rand` crate: every random draw that the search
//! makes goes through one of the declarations in this module, and each one
//! states only what holds of every possible outcome.

use rand::seq::SliceRandom;
use rand::Rng;

use vstd::prelude::*;

use crate::lifetime::VarId;

verus! {

/// Relies on rand's ThreadRng type: declared opaquely so that a handle to
/// the thread-local generator can pass through verified signatures.
#[verifier::external_type_specification]
#[verifier::external_body]
pub struct ExThreadRng(rand::rngs::ThreadRng);

/// Relies on rand's thread_rng: a handle to the thread-local generator.
/// Nothing can be promised of the values it will produce.
pub assume_specification[ rand::thread_rng ]() -> rand::rngs::ThreadRng;

/// Relies on rand's SliceRandom::shuffle: a Fisher-Yates pass that permutes
/// the vector in place by swaps alone, so the entries' multiset is kept.
#[verifier::external_body]
pub(crate) fn shuffle_ids(rng: &mut rand::rngs::ThreadRng, v: &mut Vec<VarId>)
    ensures
        final(v)@.to_multiset() == old(v)@.to_multiset(),
        final(v)@.len() == old(v)@.len(),
{
    v.shuffle(rng)
}

/// Relies on rand's Rng::gen_range over `0..n`: the sample lies in the
/// range; an empty range makes the call panic, so it is ruled out here.
#[verifier::external_body]
pub(crate) fn rand_index(rng: &mut rand::rngs::ThreadRng, n: usize) -> (r: usize)
    requires
        n > 0,
    ensures
        r < n,
{
    rng.gen_range(0..n)
}

/// Relies on rand's Rng::gen_ratio: true with probability `num / den`,
/// certainly false for a zero ratio and certainly true for a full one.
/// It panics when `den == 0` or `num > den`, so those are ruled out here.
#[verifier::external_body]
pub(crate) fn rand_ratio(rng: &mut rand::rngs::ThreadRng, num: u32, den: u32) -> (r: bool)
    requires
        0 < den,
        num <= den,
    ensures
        num == 0 ==> !r,
        num == den ==> r,
{
    rng.gen_ratio(num, den)
}

/// Relies on rand::random: an unconstrained machine word drawn from the
/// thread-local generator.
#[verifier::external_body]
pub(crate) fn rand_word() -> usize {
    rand::random::<usize>()
}

} // verus!
