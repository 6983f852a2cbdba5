//! Errors that stop constraint compilation.
use vstd::prelude::*;

verus! {

/// A proof option whose value lies outside its allowed interval.
#[derive(Clone, Copy, Debug, PartialEq, Eq, Structural)]
pub enum OptionField {
    NumQueries,
    BlowupFactor,
    GrindingFactor,
}

/// Why an assertion, a periodic column, a transition degree or a set of options was rejected.
#[derive(Clone, Copy, Debug, PartialEq, Eq, Structural)]
pub enum AirError {
    /// The stride or the number of values of an assertion breaks the shape rules.
    InvalidAssertionShape,
    /// An assertion names a register at or past the trace width.
    RegisterOutOfRange,
    /// An assertion's first step lies past the trace, or its stride does not divide the
    /// trace length.
    StepOutOfRange,
    /// The assertions at these two positions of the input constrain a common register
    /// at a common step.
    AssertionOverlap(usize, usize),
    /// A periodic column's length is not a power of two between 2 and the trace length.
    InvalidPeriodicColumn,
    /// A proof option lies outside its allowed interval.
    OptionOutOfRange(OptionField),
    /// A transition constraint's evaluation degree exceeds the target degree.
    InconsistentDegree,
}

} // verus!
