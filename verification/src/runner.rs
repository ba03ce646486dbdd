//! The test that a search runs: whatever tells, for the objects as they
//! are switched, whether the behavior shows.

use vstd::prelude::*;
use crate::behavior::State;
use crate::group::GroupView;
use crate::object::Stateful;
use crate::object::isolating;
use crate::object::states_of;
use crate::search::hits;

verus! {

/// The test could not be run at all. This is not the same as a test that
/// ran and did not show the behavior.
#[derive(Clone, Copy, Debug, PartialEq, Eq, Structural)]
pub struct TestError;

/// The test of a search over objects of type `T`.
pub trait TestRunner<T: Stateful> {
    /// Whether the test may come out as `dominant` when the objects are in
    /// the given states. Unless an implementation says otherwise, it may
    /// come out either way.
    open spec fn may_show(&self, states: Seq<State>, dominant: bool) -> bool {
        true
    }

    /// Whether the test can always be run. Unless an implementation says
    /// otherwise, nothing of the kind is promised.
    open spec fn dependable(&self) -> bool {
        false
    }

    /// Runs the test once on the objects as they are switched now, and
    /// says whether the behavior showed. What the test may show, and
    /// whether it can always be run, stays as it is.
    fn run_test(&mut self, objects: &Vec<T>) -> (r: Result<bool, TestError>)
        ensures
            r matches Ok(dominant) ==> old(self).may_show(states_of(objects@), dominant),
            old(self).dependable() ==> r.is_ok() && final(self).dependable(),
            forall|states: Seq<State>, dominant: bool|
                #[trigger] final(self).may_show(states, dominant) == old(self).may_show(
                    states,
                    dominant,
                ),
    ;
}

/// Whether the test of `runner` over `n` objects goes by the culprits
/// alone: with exactly the objects of a group enabled it shows the
/// behavior if and only if one of them is a culprit.
pub open spec fn follows<T: Stateful, R: TestRunner<T>>(
    runner: R,
    culprit: Set<int>,
    n: nat,
) -> bool {
    forall|g: GroupView, dominant: bool|
        0 <= g.from <= g.to < n && #[trigger] runner.may_show(isolating(g, n), dominant)
            ==> dominant == hits(g, culprit)
}

} // verus!
