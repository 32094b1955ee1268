//! The failure that a byte source reports: a kind and a description.

use std::io::ErrorKind;
use vstd::prelude::*;

verus! {

/// `std::io::ErrorKind`, carried through as an opaque value: the library never
/// looks inside a kind, it only keeps it and hands it on.
#[verifier::external_type_specification]
#[verifier::external_body]
pub struct ExErrorKind(std::io::ErrorKind);

/// What went wrong when a source was opened or read: the kind of the
/// failure, its description, and the text that shows it in diagnostics.
///
/// The text is given by whoever reports the failure; the library keeps it and
/// writes it out as it is.
#[derive(Debug)]
pub struct Failure {
    pub kind: ErrorKind,
    pub description: String,
    pub shown: String,
}

impl Failure {
    /// A failure of the given kind with the given description, shown in
    /// diagnostics as `shown`.
    pub fn new(kind: ErrorKind, description: String, shown: String) -> (failure: Self)
        ensures
            failure.kind == kind,
            failure.description == description,
            failure.shown == shown,
    {
        Failure { kind, description, shown }
    }

    /// The kind of this failure.
    pub fn kind(&self) -> (kind: ErrorKind)
        ensures
            kind == self.kind,
    {
        self.kind
    }

    /// The description of this failure.
    pub fn description(&self) -> (description: &str)
        ensures
            description@ == self.description@,
    {
        self.description.as_str()
    }

    /// A second report of this failure: same kind, same description, same
    /// text.
    pub fn replay(&self) -> (again: Self)
        ensures
            again == *self,
    {
        Failure {
            kind: self.kind,
            description: self.description.clone(),
            shown: self.shown.clone(),
        }
    }
}

} // verus!
