//! The errors of construction and of search.

use vstd::prelude::*;

verus! {

/// Why no automaton was built for a pattern set.
#[derive(Clone, Copy, Debug, PartialEq, Eq, Structural)]
pub enum ConstructionError {
    /// The pattern set is empty.
    NoPatterns,
    /// A pattern is the empty string.
    EmptyPattern,
    /// The automaton would be too large for its states to be indexed.
    TooLarge,
}

/// An overlapping search was asked of an automaton that was not built for
/// the standard match kind.
#[derive(Clone, Copy, Debug, PartialEq, Eq, Structural)]
pub struct InvalidConfiguration;

impl ConstructionError {
    /// The error in words.
    pub fn message(&self) -> (text: String)
        ensures
            text@ == match *self {
                ConstructionError::NoPatterns => "the pattern set must hold at least one pattern"@,
                ConstructionError::EmptyPattern => "a pattern must hold at least one character"@,
                ConstructionError::TooLarge => "the automaton is too large to be indexed"@,
            },
    {
        match self {
            ConstructionError::NoPatterns => "the pattern set must hold at least one pattern".to_owned(),
            ConstructionError::EmptyPattern => "a pattern must hold at least one character".to_owned(),
            ConstructionError::TooLarge => "the automaton is too large to be indexed".to_owned(),
        }
    }
}

impl InvalidConfiguration {
    /// The error in words.
    pub fn message(&self) -> (text: String)
        ensures
            text@ == "match_kind must be STANDARD"@,
    {
        "match_kind must be STANDARD".to_owned()
    }
}

} // verus!
