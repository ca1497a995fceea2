use vstd::prelude::*;

verus! {

/// The fatal conditions of training and inference. Each aborts the call in
/// which it arises and is handed to the caller as the call's one error value.
#[derive(Clone, Copy, Debug, PartialEq, Eq, Structural)]
pub enum ForestError {
    /// A sample has no value for a split feature that was asked of it, or a
    /// data set is not of one shape throughout.
    DomainViolation,
    /// Feature bounds were asked of an empty subset.
    EmptyBounds,
    /// The most frequent class was asked of a counter that has counted nothing.
    UndefinedPrediction,
}

impl ForestError {
    /// A short description of the condition, for messages.
    pub fn describe(&self) -> (s: &'static str)
        ensures
            s@ == Self::description(*self),
    {
        match self {
            ForestError::DomainViolation => "a sample lacks a requested split feature",
            ForestError::EmptyBounds => "feature bounds of an empty subset",
            ForestError::UndefinedPrediction => "most frequent class of an empty counter",
        }
    }

    /// The text that `describe` returns for each condition.
    pub open spec fn description(e: ForestError) -> Seq<char> {
        match e {
            ForestError::DomainViolation => "a sample lacks a requested split feature"@,
            ForestError::EmptyBounds => "feature bounds of an empty subset"@,
            ForestError::UndefinedPrediction => "most frequent class of an empty counter"@,
        }
    }
}

} // verus!
