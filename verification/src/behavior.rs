//! The vocabulary of the search: how a group is classified, and whether an
//! object currently takes part in the test.

use vstd::prelude::*;

verus! {

/// What is known of a group of objects.
#[derive(Clone, Copy, Debug, PartialEq, Eq, Structural, Hash)]
pub enum Behavior {
    /// Not tested yet.
    Unknown,
    /// The test shows the behavior when exactly this group is enabled.
    Dominant,
    /// The test does not show the behavior when exactly this group is enabled.
    Recessive,
}

impl Behavior {
    /// The weight of a classification when groups are ordered: untested groups
    /// weigh most, settled harmless ones least.
    pub open spec fn rank_spec(self) -> int {
        match self {
            Behavior::Unknown => 3,
            Behavior::Dominant => 2,
            Behavior::Recessive => 1,
        }
    }

    /// The weight of this classification, as a number from 1 to 3.
    pub fn rank(self) -> (r: u8)
        ensures
            r == self.rank_spec(),
    {
        match self {
            Behavior::Unknown => 3,
            Behavior::Dominant => 2,
            Behavior::Recessive => 1,
        }
    }
}

impl Default for Behavior {
    fn default() -> (b: Self)
        ensures
            b == Behavior::Unknown,
    {
        Behavior::Unknown
    }
}

/// Whether an object is part of the subset that the test currently runs on.
#[derive(Clone, Copy, Debug, PartialEq, Eq, Structural, Hash)]
pub enum State {
    /// The object takes part in the test.
    Enabled,
    /// The object is left out of the test.
    Disabled,
}

} // verus!
