//! The three-way result of one match attempt.
use vstd::prelude::*;

verus! {

/// Mathematical model of a match attempt's result.
pub enum Outcome {
    /// The pattern was consumed to its end.
    Success,
    /// The attempt missed softly; the sequence says where it left off.
    Remaining(Seq<char>),
    /// The attempt cannot be retried: the pattern is malformed, or a token
    /// that admits no retry was not satisfied.
    Failure,
}

/// Result of one match attempt, borrowing from the input it was made on.
#[derive(Debug, Clone, Copy, PartialEq, Eq)]
pub enum MatchResult<'a> {
    /// The pattern was consumed to its end.
    Success,
    /// The attempt missed softly; the slice says where it left off.
    Remaining(&'a str),
    /// The attempt cannot be retried.
    Failure,
}

impl<'a> View for MatchResult<'a> {
    type V = Outcome;

    open spec fn view(&self) -> Outcome {
        match *self {
            MatchResult::Success => Outcome::Success,
            MatchResult::Remaining(rest) => Outcome::Remaining(rest@),
            MatchResult::Failure => Outcome::Failure,
        }
    }
}

} // verus!
