//! What a braid reports when it cannot do what was asked.

use vstd::prelude::*;

verus! {

/// A lookup that found no bead under the identifier given.
#[derive(Clone, Copy, Debug, PartialEq, Eq, Structural)]
pub struct BeadNotFound;

/// The ways in which an operation on a braid can fail.
#[derive(Clone, Copy, Debug, PartialEq, Eq, Structural)]
pub enum ErrorKind {
    /// No bead has the identifier that was looked up.
    BeadNotFound,
    /// A bead names a parent that the braid does not hold.
    UnknownParent,
    /// A bead names a parent that is an ancestor of another of its parents.
    IncestViolation,
    /// The braid already holds a bead with this identifier.
    DuplicateBead,
    /// The stored beads cannot be opened as a braid.
    StorageInitError,
    /// Stored derived relations disagree with the parent relation.
    CorruptIndex,
}

/// The error of every operation on a braid.
#[derive(Clone, Copy, Debug, PartialEq, Eq, Structural)]
pub struct BraidError {
    pub kind: ErrorKind,
}

/// The text that goes with each kind of error.
pub open spec fn message_of(kind: ErrorKind) -> Seq<char> {
    match kind {
        ErrorKind::BeadNotFound => "Bead not found"@,
        ErrorKind::UnknownParent => "Unknown parent"@,
        ErrorKind::IncestViolation => "Incest violation"@,
        ErrorKind::DuplicateBead => "Duplicate bead"@,
        ErrorKind::StorageInitError => "Storage cannot be opened"@,
        ErrorKind::CorruptIndex => "Corrupt index"@,
    }
}

impl BraidError {
    /// The error of the given kind.
    pub fn new(kind: ErrorKind) -> (r: BraidError)
        ensures
            r.kind == kind,
    {
        BraidError { kind }
    }

    /// The kind of the error.
    pub fn kind(&self) -> (r: ErrorKind)
        ensures
            r == self.kind,
    {
        self.kind
    }

    /// The error as a line of text.
    pub fn message(&self) -> (r: String)
        ensures
            r@ == message_of(self.kind),
    {
        match self.kind {
            ErrorKind::BeadNotFound => "Bead not found".to_string(),
            ErrorKind::UnknownParent => "Unknown parent".to_string(),
            ErrorKind::IncestViolation => "Incest violation".to_string(),
            ErrorKind::DuplicateBead => "Duplicate bead".to_string(),
            ErrorKind::StorageInitError => "Storage cannot be opened".to_string(),
            ErrorKind::CorruptIndex => "Corrupt index".to_string(),
        }
    }
}

impl From<BeadNotFound> for BraidError {
    fn from(source: BeadNotFound) -> (r: BraidError) {
        BraidError { kind: ErrorKind::BeadNotFound }
    }
}

impl vstd::std_specs::convert::FromSpecImpl<BeadNotFound> for BraidError {
    open spec fn obeys_from_spec() -> bool {
        true
    }

    open spec fn from_spec(source: BeadNotFound) -> BraidError {
        BraidError { kind: ErrorKind::BeadNotFound }
    }
}

} // verus!
