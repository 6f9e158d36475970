use crate::err::IngestError;
use vstd::prelude::*;

verus! {

/// The kind of object a tree entry points at.  Only `Tree` and `Blob`
/// entries are ever walked into; the other kinds are recorded as rows and
/// left alone.
#[derive(Clone, Copy, PartialEq, Eq, Structural, Debug)]
pub enum ObjectKind {
    /// No kind could be determined for the object.
    Unknown,
    /// The wildcard kind.
    Any,
    /// A commit, as a tree entry: a submodule link.
    Commit,
    /// A directory tree.
    Tree,
    /// File content.
    Blob,
    /// An annotated tag.
    Tag,
}

impl ObjectKind {
    /// The small integer tag under which this kind is persisted.
    pub open spec fn tag(self) -> u8 {
        match self {
            ObjectKind::Unknown => 0,
            ObjectKind::Any => 1,
            ObjectKind::Commit => 2,
            ObjectKind::Tree => 3,
            ObjectKind::Blob => 4,
            ObjectKind::Tag => 5,
        }
    }
}

/// Encode an object kind as its persisted integer tag.
pub fn object_type_to_int(kind: ObjectKind) -> (r: u8)
    ensures
        r == kind.tag(),
{
    match kind {
        ObjectKind::Unknown => 0,
        ObjectKind::Any => 1,
        ObjectKind::Commit => 2,
        ObjectKind::Tree => 3,
        ObjectKind::Blob => 4,
        ObjectKind::Tag => 5,
    }
}

/// Decode a persisted integer tag back into an object kind.  A value under
/// which no kind is encoded is data corruption and surfaces as a typed
/// error rather than a crash.
pub fn object_type_from_int(val: u8) -> (r: Result<ObjectKind, IngestError>)
    ensures
        val <= 5 ==> (r matches Ok(k) && k.tag() == val),
        val > 5 ==> (r matches Err(e) && e == IngestError::UnknownKindTag(val)),
{
    match val {
        0 => Ok(ObjectKind::Unknown),
        1 => Ok(ObjectKind::Any),
        2 => Ok(ObjectKind::Commit),
        3 => Ok(ObjectKind::Tree),
        4 => Ok(ObjectKind::Blob),
        5 => Ok(ObjectKind::Tag),
        _ => Err(IngestError::UnknownKindTag(val)),
    }
}

} // verus!
