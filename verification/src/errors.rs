//! Errors surfaced by the stores and the header pipeline.

use vstd::prelude::*;
use crate::hashes::BlockHash;

verus! {

/// Failures of a store operation. The in-memory engine of this crate can
/// only miss a key; a disk-backed engine would also surface engine and
/// decode failures through the same type.
#[derive(Clone, Copy, PartialEq, Eq, Structural, Debug)]
pub enum StoreError {
    KeyNotFound,
    EngineFailure,
    DecodeFailure,
}

/// Rule violations that make a header submission fail. Every variant except
/// `KnownInvalid` and `ParentNotFound` marks the hash `Invalid` in the
/// statuses store; those two leave the stores untouched.
#[derive(Clone, Copy, PartialEq, Eq, Structural, Debug)]
pub enum RuleError {
    /// The hash is already recorded as `Invalid`.
    KnownInvalid,
    /// A declared direct parent has no admitted status.
    ParentNotFound(BlockHash),
    /// After pruning-point filtering no parent remains at level 0.
    MissingParents,
    /// Parent count, timestamp, or field bounds violated.
    InvalidHeaderStructure,
    /// Header bits disagree with the expected value; carries `(expected, found)`.
    DifficultyMismatch(u32, u32),
    /// The proof-of-work check failed.
    InvalidProofOfWork,
    /// The level-0 mergeset exceeds the configured limit; carries its size.
    MergesetTooLarge(u64),
}

} // verus!
