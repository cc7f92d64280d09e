//! Error kinds surfaced by the list engine.

use vstd::prelude::*;

verus! {

/// Everything that can go wrong while operating on a list or committing to
/// the root.
#[derive(Clone, Copy, PartialEq, Eq, Structural, Debug)]
pub enum ListError {
    /// An operation referenced an item absent from the current list.
    NotFound,
    /// Undo was asked to retreat below the fork, or redo to advance past the
    /// newest record.
    NoMoreOps,
    /// A commit could not be reconciled with the operations confirmed since
    /// the fork.
    CannotCommit,
    /// The textual form of an identifier was malformed.
    InvalidId,
    /// Performing the operation would have broken a list invariant.
    InvariantViolated,
}

} // verus!
