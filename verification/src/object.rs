//! What the search asks of the objects it works on.

use vstd::prelude::*;
use crate::behavior::State;
use crate::group::GroupView;

verus! {

/// An object could not be brought into the state asked for.
#[derive(Clone, Copy, Debug, PartialEq, Eq, Structural)]
pub struct ToggleError;

/// An object that can be switched on and off, and that remembers which of
/// the two it was last switched to.
pub trait Stateful {
    /// The state that the object was last brought into.
    spec fn state_spec(&self) -> State;

    /// Whether switching this object cannot fail. Unless an implementation
    /// says otherwise, nothing of the kind is promised.
    open spec fn dependable(&self) -> bool {
        false
    }

    /// Brings the object into the state `desired`, with whatever that means
    /// outside the program. Where this fails nothing is known of the
    /// object's state.
    fn set_state(&mut self, desired: State) -> (r: Result<(), ToggleError>)
        ensures
            r.is_ok() ==> final(self).state_spec() == desired,
            old(self).dependable() ==> r.is_ok() && final(self).dependable(),
    ;

    /// The state that the object was last brought into; nothing is looked up
    /// anew.
    fn state(&self) -> (s: State)
        ensures
            s == self.state_spec(),
    ;
}

/// The states of a sequence of objects, one for one.
pub open spec fn states_of<T: Stateful>(objects: Seq<T>) -> Seq<State> {
    Seq::new(objects.len(), |i: int| objects[i].state_spec())
}

/// Whether switching cannot fail for any of the objects.
pub open spec fn all_dependable<T: Stateful>(objects: Seq<T>) -> bool {
    forall|i: int| 0 <= i < objects.len() ==> (#[trigger] objects[i]).dependable()
}

/// Whether every object that could not fail to switch before still cannot.
pub open spec fn still_dependable<T: Stateful>(before: Seq<T>, after: Seq<T>) -> bool {
    forall|i: int|
        0 <= i < before.len() && (#[trigger] before[i]).dependable() ==> i < after.len()
            && after[i].dependable()
}

/// Whether every object that cannot fail to switch is enabled: the least
/// that an attempt to enable all the objects leaves behind.
pub open spec fn restored<T: Stateful>(before: Seq<T>, after: Seq<T>) -> bool {
    forall|i: int|
        0 <= i < before.len() && (#[trigger] before[i]).dependable() ==> i < after.len()
            && after[i].state_spec() == State::Enabled
}

/// The states after every object of the group `g` was brought into `state`:
/// the others keep theirs.
pub open spec fn with_group_state(states: Seq<State>, g: GroupView, state: State) -> Seq<State> {
    Seq::new(states.len(), |i: int| if g.contains(i) { state } else { states[i] })
}

/// The states of `n` objects of which exactly those of the group `g` are
/// enabled.
pub open spec fn isolating(g: GroupView, n: nat) -> Seq<State> {
    Seq::new(n, |i: int| if g.contains(i) { State::Enabled } else { State::Disabled })
}

/// The states of `n` objects that are all enabled.
pub open spec fn all_enabled(n: nat) -> Seq<State> {
    Seq::new(n, |i: int| State::Enabled)
}

/// Bringing a group into a state a second time changes nothing.
pub proof fn lemma_group_state_idempotent(states: Seq<State>, g: GroupView, state: State)
    ensures
        with_group_state(with_group_state(states, g, state), g, state) == with_group_state(
            states,
            g,
            state,
        ),
{
    assert(with_group_state(with_group_state(states, g, state), g, state) =~= with_group_state(
        states,
        g,
        state,
    ));
}

/// An object that is nothing but its state: switching it cannot fail.
#[derive(Clone, Copy, Debug, PartialEq, Eq, Structural)]
pub struct Switch {
    pub state: State,
}

impl Stateful for Switch {
    open spec fn state_spec(&self) -> State {
        self.state
    }

    open spec fn dependable(&self) -> bool {
        true
    }

    fn set_state(&mut self, desired: State) -> (r: Result<(), ToggleError>)
        ensures
            r.is_ok(),
            *final(self) == (Switch { state: desired }),
    {
        self.state = desired;
        Ok(())
    }

    fn state(&self) -> (s: State) {
        self.state
    }
}

} // verus!
