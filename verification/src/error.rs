//! The ways in which scheduling can fail.

use vstd::prelude::*;

verus! {

/// Why no schedule is returned.
#[derive(Debug, Clone, Copy, PartialEq, Eq, Structural)]
pub enum SchedulingError {
    /// The instance is not well formed: no processor, no job, a job that does
    /// not sit at its own index or lacks a positive processing time for some
    /// allotment, a constraint that names no job, or a cycle of constraints.
    /// Also: an allotment or a target is missing or out of range, a table
    /// cannot be read, or a job has the same processing time on two
    /// successive allotments where a secant between them is asked for.
    InvalidInstance,
    /// Two jobs of one chain are not directly constrained.
    IncomparableInChain,
    /// The outside solver fails, or what it hands back cannot be used.
    SolverFailure,
    /// The exhaustive search found no schedule within the time bound.
    NoSolution,
    /// A number would not fit the machine's integers.
    TooLong,
}

impl SchedulingError {
    /// The failure in words.
    pub open spec fn text(self) -> Seq<char> {
        match self {
            SchedulingError::InvalidInstance => "the instance is not well formed"@,
            SchedulingError::IncomparableInChain => "chain contains two non-comparable jobs"@,
            SchedulingError::SolverFailure => "the solver found no solution"@,
            SchedulingError::NoSolution => "no solution found"@,
            SchedulingError::TooLong => "a number does not fit"@,
        }
    }

    /// The failure in words.
    pub fn message(&self) -> (message: String)
        ensures
            message@ == self.text(),
    {
        match self {
            SchedulingError::InvalidInstance => "the instance is not well formed".to_owned(),
            SchedulingError::IncomparableInChain => "chain contains two non-comparable jobs".to_owned(),
            SchedulingError::SolverFailure => "the solver found no solution".to_owned(),
            SchedulingError::NoSolution => "no solution found".to_owned(),
            SchedulingError::TooLong => "a number does not fit".to_owned(),
        }
    }
}

} // verus!
