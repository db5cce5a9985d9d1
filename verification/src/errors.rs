use vstd::prelude::*;

verus! {

/// The faults this library reports.
#[derive(Debug, PartialEq, Eq)]
pub enum KhError {
    /// The text is not a calendar structure.
    Malformed,
    /// The root component is not a calendar; carries the kind seen.
    WrongKind(String),
    /// Post-parse structural validation failed; carries its messages.
    Validation(Vec<String>),
    /// No event carries a unique identifier.
    MissingUid,
    /// More than one distinct unique identifier where one is required.
    MultipleEvents,
    /// A filter argument list that does not follow the grammar.
    BadSyntax,
}

pub type KhResult<T> = Result<T, KhError>;

} // verus!
