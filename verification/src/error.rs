use vstd::prelude::*;

verus! {

/// A validation failure of a batch request. Each variant names the course
/// code that caused it; the first violation in input order aborts the whole
/// batch, and no ledger write happens.
#[derive(Debug, Clone, PartialEq, Eq)]
pub enum Error {
    /// The code names no catalog entry. Never suppressed by `force`.
    UnknownCourse(String),
    /// An approve of a code already in the ledger, without `force`.
    AlreadyApproved(String),
    /// A reject of a code absent from the ledger, without `force`.
    NotApproved(String),
    /// An approve of a course that would still resolve to `Blocked` against
    /// the ledger snapshot, without `force`.
    RequirementsNotMet(String),
}

} // verus!
