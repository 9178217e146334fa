//! The failures the engine and the protocol surface.

use vstd::prelude::*;

verus! {

/// What went wrong.
#[derive(Clone, Copy, Debug, PartialEq, Eq, Structural)]
pub enum GridErrorKind {
    /// An item with the given identifier is already stored.
    DuplicateId,
    /// No item with the given identifier is stored.
    NotFound,
    /// A placement or a cascaded displacement would leave the grid.
    OutOfBounds,
    /// A message or a change batch does not describe a well-formed state.
    Malformed,
    /// A peer's view hash does not match this side's view hash.
    Divergence,
}

/// An error of the grid engine or of the protocol around it.
#[derive(Clone, Copy, Debug, PartialEq, Eq, Structural)]
pub struct GridError {
    pub kind: GridErrorKind,
}

impl GridError {
    /// Wraps an error kind.
    pub fn new(kind: GridErrorKind) -> (r: GridError)
        ensures
            r.kind == kind,
    {
        GridError { kind }
    }

    /// The kind of this error.
    pub open spec fn spec_kind(&self) -> GridErrorKind {
        self.kind
    }

    /// The kind of this error.
    #[verifier::when_used_as_spec(spec_kind)]
    pub fn kind(&self) -> (r: GridErrorKind)
        ensures
            r == self.kind,
    {
        self.kind
    }

    /// A short description of this error.
    pub fn get_message(&self) -> (r: String)
        ensures
            self.kind == GridErrorKind::DuplicateId ==> r@ == "Id already exists"@,
            self.kind == GridErrorKind::NotFound ==> r@ == "Item not found"@,
            self.kind == GridErrorKind::OutOfBounds ==> r@ == "Placement leaves the grid"@,
            self.kind == GridErrorKind::Malformed ==> r@ == "Malformed message"@,
            self.kind == GridErrorKind::Divergence ==> r@ == "Hash mismatch"@,
    {
        match self.kind {
            GridErrorKind::DuplicateId => String::from_str("Id already exists"),
            GridErrorKind::NotFound => String::from_str("Item not found"),
            GridErrorKind::OutOfBounds => String::from_str("Placement leaves the grid"),
            GridErrorKind::Malformed => String::from_str("Malformed message"),
            GridErrorKind::Divergence => String::from_str("Hash mismatch"),
        }
    }
}

} // verus!
