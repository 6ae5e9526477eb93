//! Header lifecycle status.

use vstd::prelude::*;

verus! {

/// The lifecycle status of a block. The header processor writes only
/// `HeaderOnly` and `Invalid`; the remaining states are set by downstream
/// stages and may only progress forward. `Invalid` is terminal.
#[derive(Clone, Copy, PartialEq, Eq, Structural, Debug)]
pub enum BlockStatus {
    HeaderOnly,
    Invalid,
    Valid,
    UtxoPendingVerification,
    Disqualified,
    HeaderOnlyDisqualified,
}

impl BlockStatus {
    /// Every status except `Invalid` means the block was admitted.
    pub open spec fn spec_is_admitted(&self) -> bool {
        !(*self is Invalid)
    }

    /// Returns whether the status is an admitted one.
    pub fn is_admitted(&self) -> (r: bool)
        ensures
            r == self.spec_is_admitted(),
    {
        !matches!(self, BlockStatus::Invalid)
    }
}

} // verus!
