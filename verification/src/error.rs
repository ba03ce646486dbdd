//! The ways in which a request to the library can fail.

use vstd::prelude::*;

verus! {

/// Why a group could not be built or the search could not go on.
#[derive(Clone, Copy, Debug, PartialEq, Eq, Structural)]
pub enum BisectError {
    /// A group was asked for whose first index lies behind its last.
    InvertedRange,
    /// A group was asked for that holds more indices than a `usize` can count.
    RangeTooLarge,
    /// A group of one object was asked to split.
    Leaf,
    /// A search was asked for over no objects at all.
    NoObjects,
    /// A group reaches beyond the last object of the set.
    OutOfRange,
    /// Groups were handed over that do not cut the objects into consecutive
    /// ranges, or that name a group of several objects as a culprit.
    NotAPartition,
    /// A result was reported for a group that is not waiting for one.
    NotPending,
    /// The object at this index could not be brought into the state asked
    /// for.
    Capability(usize),
    /// The test could not be run.
    Runner,
}

} // verus!
