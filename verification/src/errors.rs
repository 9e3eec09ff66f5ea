//! The error taxonomy of the cache.

use vstd::prelude::*;

verus! {

/// A failure surfaced to the caller of the cache.
#[derive(Debug)]
pub enum CacheError {
    /// A filesystem operation failed; the text describes the operation.
    Io(String),
    /// The fetch collaborator failed on a miss; its message, unchanged.
    Transport(String),
    /// More than one slot of the named bucket holds the same key: the
    /// at-most-one-slot-per-key rule is broken on disk.
    InvariantViolation(u64),
}

impl CacheError {
    /// Whether the failure is local to storage rather than remote.
    pub open spec fn spec_is_local(self) -> bool {
        !(self is Transport)
    }

    /// Whether the failure is local to storage rather than remote.
    pub fn is_local(&self) -> (r: bool)
        ensures
            r == self.spec_is_local(),
    {
        !matches!(self, CacheError::Transport(_))
    }
}

} // verus!
