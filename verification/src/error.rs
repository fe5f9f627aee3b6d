//! Errors surfaced by the library.

use vstd::prelude::*;

verus! {

/// What went wrong.
#[derive(Clone, Copy, Debug, PartialEq, Eq, Structural)]
pub enum Kind {
    /// A message could not be created in the object store.
    CannotCreateMessage,
    /// A traversal could not be built because a boundary id did not resolve.
    CannotConstructRevwalk,
    /// A message could not be retrieved from the object store.
    CannotGetCommit,
    /// A single reference could not be retrieved.
    CannotGetReference,
    /// The references below a prefix could not be enumerated.
    CannotGetReferences,
    /// A reference could not be created or updated.
    CannotSetReference,
    /// A reference could not be deleted.
    CannotDeleteReference,
    /// The names of the remotes could not be retrieved.
    CannotGetRemotes,
    /// The name of a remote cannot be turned into a reference path.
    ReferenceNameError,
    /// No head reference exists for an issue, locally or in any remote.
    CannotFindIssueHead,
    /// A reference does not have the shape of a head reference.
    MalFormedHeadReference,
    /// No issue was found along the first-parent lineage of a message.
    NoTreeInitFound,
}

/// An error: its kind and the reference path or id it is about.
#[derive(Debug)]
pub struct Error {
    pub kind: Kind,
    pub subject: String,
}

impl Clone for Error {
    fn clone(&self) -> (r: Error)
        ensures
            r.kind == self.kind,
            r.subject@ == self.subject@,
    {
        Error { kind: self.kind, subject: self.subject.clone() }
    }
}

impl Error {
    /// An error of the given kind about the given path or id.
    pub fn new(kind: Kind, subject: String) -> (r: Error)
        ensures
            r.kind == kind,
            r.subject@ == subject@,
    {
        Error { kind, subject }
    }

    /// An error of the given kind about the given path or id.
    pub fn about(kind: Kind, subject: &str) -> (r: Error)
        ensures
            r.kind == kind,
            r.subject@ == subject@,
    {
        Error { kind, subject: String::from_str(subject) }
    }

    /// The same error under another kind.
    pub fn wrap_with_kind(self, kind: Kind) -> (r: Error)
        ensures
            r.kind == kind,
            r.subject@ == self.subject@,
    {
        Error { kind, subject: self.subject }
    }

    /// The kind of the error.
    pub fn kind(&self) -> (r: Kind)
        ensures
            r == self.kind,
    {
        self.kind
    }

    /// The reference path or id the error is about.
    pub fn subject(&self) -> (r: &str)
        ensures
            r@ == self.subject@,
    {
        self.subject.as_str()
    }
}

} // verus!
