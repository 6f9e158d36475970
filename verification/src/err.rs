use crate::oid::Oid;
use vstd::prelude::*;

verus! {

/// The ways a run can fail.  Any of them aborts the whole run; the
/// orchestrator guarantees that a failed run leaves the store untouched.
#[derive(Clone, Copy, PartialEq, Eq, Structural, Debug)]
pub enum IngestError {
    /// An object the repository snapshot was expected to hold is absent
    /// (a collaborator read failure).
    MissingObject(Oid),
    /// A stored kind tag does not name any object kind.
    UnknownKindTag(u8),
    /// The commit graph contains a cycle, so no topological order exists.
    CycleDetected,
    /// Compressing or decompressing blob content failed.
    Compression,
}

} // verus!
