//! The values that pass between a search and the set of nearest candidates.
use vstd::prelude::*;

verus! {

/// A candidate as the set holds it.
#[derive(Clone, Copy, Debug, PartialEq, Eq, Structural)]
pub struct CandidateEntry {
    /// Position of the point in the caller's collection of points.
    pub index: usize,
    /// Key of the candidate's distance to the query (see [`crate::distance`]).
    pub distance: u64,
}

impl CandidateEntry {
    /// Whether this candidate is nearer than `other`. Keys are integers, so
    /// any two candidates compare; of two that are equally far neither is
    /// nearer, whatever their indices.
    pub fn nearer_than(&self, other: &CandidateEntry) -> (nearer: bool)
        ensures
            nearer == (self.distance < other.distance),
    {
        self.distance < other.distance
    }
}

/// Why an operation on the set was refused.
#[derive(Clone, Copy, Debug, PartialEq, Eq, Structural)]
pub enum NearestSetError {
    /// A set was asked to hold fewer than one candidate.
    InvalidCapacity,
    /// A distance was negative, infinite or not a number.
    InvalidDistance,
    /// The set was used after its candidates had been taken out of it.
    UseAfterExtract,
}

/// Where a set stands in its life.
#[derive(Clone, Copy, Debug, PartialEq, Eq, Structural)]
pub enum Phase {
    /// Fewer candidates are held than the set has room for.
    Collecting,
    /// As many candidates are held as the set has room for.
    Full,
    /// The candidates have been taken out; the set is of no further use.
    Extracted,
}

} // verus!
