use vstd::prelude::*;

verus! {

/// The column whose uniqueness constraint a creation attempt violated.
#[derive(Clone, Copy, Debug, PartialEq, Eq, Structural)]
pub enum ConflictColumn {
    Name,
    Url,
}

/// The error kinds a caller of the list can pattern-match on.
///
/// `NotFound`: a named entry or topic does not exist.
/// `Conflict`: creating an entry would violate the uniqueness of `name` or `url`;
/// the offending column is identified.
/// `InvalidArgument`: the caller supplied no actionable parameters.
/// `Infrastructure`: an unclassified storage failure, such as running out of
/// fresh row identifiers.
#[derive(Clone, Copy, Debug, PartialEq, Eq, Structural)]
pub enum RlistError {
    NotFound,
    Conflict { column: ConflictColumn },
    InvalidArgument,
    Infrastructure,
}

} // verus!
