use vstd::prelude::*;

verus! {

/// What can go wrong while locating or parsing a definition file.
#[derive(Debug, PartialEq, Eq)]
pub enum Error {
    /// No candidate file exists within the search scope.
    NotFound,
    /// Any other filesystem failure, with its description.
    Io(String),
    /// A line that is not a valid assignment, carried as it was read.
    LineParse(String),
}

impl Error {
    /// True exactly for the "file not found" condition, which callers may
    /// choose to treat as non-fatal.
    pub fn not_found(&self) -> (r: bool)
        ensures
            r == (self is NotFound),
    {
        match self {
            Error::NotFound => true,
            _ => false,
        }
    }
}

} // verus!
