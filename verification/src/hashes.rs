//! Block identifiers.

use vstd::prelude::*;

verus! {

/// A block identifier. The DAG is content-addressed: blocks refer to one
/// another only through these values, never through in-memory pointers.
pub type BlockHash = u64;

/// The virtual root that precedes genesis. It never carries a header or a
/// status; it exists so that genesis and headers whose parents were all
/// pruned have a well-defined ancestor.
pub const ORIGIN: BlockHash = 0;

/// Strict order on `(blue_work, hash)` pairs: blue work first, the hash
/// as tiebreaker. Used for selected-parent choice and the selected tip.
pub open spec fn spec_work_lt(work_a: u128, hash_a: BlockHash, work_b: u128, hash_b: BlockHash) -> bool {
    work_a < work_b || (work_a == work_b && hash_a < hash_b)
}

/// Returns whether `(work_a, hash_a)` precedes `(work_b, hash_b)` in the
/// blue-work order with hash tiebreak.
pub fn work_lt(work_a: u128, hash_a: BlockHash, work_b: u128, hash_b: BlockHash) -> (r: bool)
    ensures
        r == spec_work_lt(work_a, hash_a, work_b, hash_b),
{
    work_a < work_b || (work_a == work_b && hash_a < hash_b)
}

} // verus!
