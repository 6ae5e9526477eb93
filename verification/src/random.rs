//! Trusted wrappers around the process random number generator.

use vstd::prelude::*;
use rand::distributions::Distribution;

verus! {

/// Relies on rand::thread_rng and rand::Rng::gen_range: a uniformly random
/// index below `n`. The range is non-empty by the precondition, so the call
/// cannot fail; which index comes back is left open.
#[verifier::external_body]
pub(crate) fn random_index_below(n: usize) -> (r: usize)
    requires
        n > 0,
    ensures
        r < n,
{
    rand::Rng::gen_range(&mut rand::thread_rng(), 0..n)
}

/// The sum of a weight list.
pub open spec fn spec_sum_u64(s: Seq<u64>) -> int
    decreases s.len(),
{
    if s.len() == 0 {
        0
    } else {
        spec_sum_u64(s.drop_last()) + s.last()
    }
}

/// Relies on rand::distributions::WeightedIndex::new and
/// Distribution::sample over rand::thread_rng: returns an index drawn with
/// probability proportional to its weight; an index whose weight is zero is
/// never returned. `new` fails only on an empty list or a zero or
/// overflowing total, which the preconditions exclude; which index comes
/// back is otherwise left open.
#[verifier::external_body]
pub(crate) fn sample_weighted_index(weights: &Vec<u64>) -> (r: usize)
    requires
        exists|i: int| 0 <= i < weights@.len() && weights@[i] > 0,
        spec_sum_u64(weights@) <= u64::MAX,
    ensures
        r < weights@.len(),
        weights@[r as int] > 0,
{
    let dist = rand::distributions::WeightedIndex::new(weights.iter()).unwrap();
    dist.sample(&mut rand::thread_rng())
}

} // verus!
