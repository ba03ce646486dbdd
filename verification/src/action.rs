//! Actions: another way to realize a group. Where switching an object on
//! means changing some value, and switching it off means undoing the
//! change, each object is an action on that value.

use std::ops::ControlFlow;
use vstd::prelude::*;
use crate::error::BisectError;
use crate::group::Group;

verus! {

/// An individual action on a value of type `B`.
pub trait Actionable<B> {
    /// Whether applying this action to `before` may give `after`. Unless
    /// an implementation says otherwise, anything may come of it.
    open spec fn applies(&self, before: B, after: B) -> bool {
        true
    }

    /// Whether unapplying this action from `before` may give `after`.
    /// Unless an implementation says otherwise, anything may come of it.
    open spec fn unapplies(&self, before: B, after: ControlFlow<B, B>) -> bool {
        true
    }

    /// Changes `base` in some way and gives it back.
    fn apply(&self, base: B) -> (r: B)
        ensures
            self.applies(base, r),
    ;

    /// Unapplies this action, or all actions at once, and gives the
    /// changed `current` back.
    ///
    /// Where actions are undone one at a time, such as taking an item out
    /// of a collection again, this undoes this action alone and returns
    /// `Continue`. Where all actions are undone in one go, such as going
    /// back to the text before any patch, this undoes them all, whatever
    /// action it is called on, and returns `Break`.
    fn unapply(&self, current: B) -> (r: ControlFlow<B, B>)
        ensures
            self.unapplies(current, r),
    ;
}

/// Any value that can be cloned is an action on a vector of its kind:
/// applied, it adds a clone of itself at the end; unapplied, it empties
/// the vector, whatever was added.
impl<T: Clone> Actionable<Vec<T>> for T {
    open spec fn applies(&self, before: Vec<T>, after: Vec<T>) -> bool {
        &&& after@.len() == before@.len() + 1
        &&& after@.drop_last() == before@
        &&& cloned(*self, after@.last())
    }

    open spec fn unapplies(&self, before: Vec<T>, after: ControlFlow<Vec<T>, Vec<T>>) -> bool {
        after matches ControlFlow::Break(rest) && rest@.len() == 0
    }

    fn apply(&self, base: Vec<T>) -> (r: Vec<T>) {
        let mut grown = base;
        grown.push(self.clone());
        assert(grown@.drop_last() =~= base@);
        grown
    }

    fn unapply(&self, current: Vec<T>) -> (r: ControlFlow<Vec<T>, Vec<T>>) {
        ControlFlow::Break(Vec::new())
    }
}

/// Whether applying the actions `from..=to` of `pool`, one after the
/// other, may turn `before` into `after`.
pub open spec fn applied<A: Actionable<B>, B>(
    pool: Seq<A>,
    from: int,
    to: int,
    before: B,
    after: B,
) -> bool
    decreases to - from + 1,
{
    if to < from {
        after == before
    } else {
        exists|mid: B|
            applied(pool, from, to - 1, before, mid) && (#[trigger] pool[to].applies(mid, after))
    }
}

/// Whether unapplying the actions `from..=to` of `pool`, the last one
/// first, may turn `before` into `after`. An action that undoes all at
/// once ends the run.
pub open spec fn unapplied<A: Actionable<B>, B>(
    pool: Seq<A>,
    from: int,
    to: int,
    before: B,
    after: B,
) -> bool
    decreases to - from + 1,
{
    if to < from {
        after == before
    } else {
        exists|step: ControlFlow<B, B>|
            (#[trigger] pool[to].unapplies(before, step)) && match step {
                ControlFlow::Break(rest) => after == rest,
                ControlFlow::Continue(rest) => unapplied(pool, from, to - 1, rest, after),
            }
    }
}

/// The mathematical model of a set of actions.
pub struct ActionSetView<A, B> {
    /// The actions, one for each object.
    pub action_pool: Seq<A>,
    /// The value that the actions are applied to.
    pub current: B,
}

/// A set of potential actions to apply to some value.
///
/// Where what the actions change is kept elsewhere, such as in the file
/// system, `B` can very well be `()`.
pub struct ActionSet<A: Actionable<B>, B> {
    action_pool: Vec<A>,
    current: B,
}

impl<A: Actionable<B>, B> View for ActionSet<A, B> {
    type V = ActionSetView<A, B>;

    closed spec fn view(&self) -> ActionSetView<A, B> {
        ActionSetView { action_pool: self.action_pool@, current: self.current }
    }
}

impl<A: Actionable<B>, B> ActionSet<A, B> {
    /// The set of the given actions on the value `current`.
    pub fn new(action_pool: Vec<A>, current: B) -> (r: ActionSet<A, B>)
        ensures
            r@.action_pool == action_pool@,
            r@.current == current,
    {
        ActionSet { action_pool, current }
    }

    /// The number of actions.
    pub fn len(&self) -> (n: usize)
        ensures
            n == self@.action_pool.len(),
    {
        self.action_pool.len()
    }

    /// The value as the actions applied so far have left it.
    pub fn current(&self) -> (r: &B)
        ensures
            *r == self@.current,
    {
        &self.current
    }

    /// Gives the value back.
    pub fn into_current(self) -> (r: B)
        ensures
            r == self@.current,
    {
        self.current
    }

    /// Applies the actions of `group` to the value, from the first index
    /// up. A group that reaches beyond the last action is refused.
    pub fn apply_group(self, group: &Group) -> (r: Result<ActionSet<A, B>, BisectError>)
        ensures
            group@.to >= self@.action_pool.len() ==> (r matches Err(e) && e
                == BisectError::OutOfRange),
            group@.to < self@.action_pool.len() ==> (r matches Ok(set) && set@.action_pool
                == self@.action_pool && applied(
                self@.action_pool,
                group@.from,
                group@.to,
                self@.current,
                set@.current,
            )),
    {
        proof {
            use_type_invariant(group);
        }
        let ghost start = self.current;
        let ActionSet { action_pool, current } = self;
        let mut current = current;
        let n: usize = action_pool.len();
        if group.to() >= n {
            return Err(BisectError::OutOfRange);
        }
        let mut i: usize = group.from();
        while i <= group.to()
            invariant
                group.wf(),
                group@.from <= i <= group@.to + 1,
                group@.to < n,
                n == action_pool@.len(),
                applied(action_pool@, group@.from, i - 1, start, current),
            decreases group@.to + 1 - i,
        {
            let ghost mid = current;
            current = action_pool[i].apply(current);
            assert(applied(action_pool@, group@.from, i as int - 1, start, mid)
                && action_pool@[i as int].applies(mid, current));
            i = i + 1;
        }
        Ok(ActionSet { action_pool, current })
    }

    /// Unapplies the actions of `group` from the value, from the last
    /// index down, and stops at the first action that undoes all at once.
    /// A group that reaches beyond the last action is refused.
    pub fn unapply_group(self, group: &Group) -> (r: Result<ActionSet<A, B>, BisectError>)
        ensures
            group@.to >= self@.action_pool.len() ==> (r matches Err(e) && e
                == BisectError::OutOfRange),
            group@.to < self@.action_pool.len() ==> (r matches Ok(set) && set@.action_pool
                == self@.action_pool && unapplied(
                self@.action_pool,
                group@.from,
                group@.to,
                self@.current,
                set@.current,
            )),
    {
        proof {
            use_type_invariant(group);
        }
        let ghost start = self.current;
        let ghost pool = self.action_pool@;
        let ActionSet { action_pool, current } = self;
        let mut current = current;
        if group.to() >= action_pool.len() {
            return Err(BisectError::OutOfRange);
        }
        let mut left: usize = group.size();
        while left > 0
            invariant
                group.wf(),
                left <= group@.size(),
                group@.to < action_pool@.len(),
                start == self.current,
                pool == self@.action_pool,
                pool == action_pool@,
                forall|end: B|
                    unapplied(action_pool@, group@.from, group@.from + left - 1, current, end)
                        ==> unapplied(action_pool@, group@.from, group@.to, start, end),
            decreases left,
        {
            let at: usize = group.from() + (left - 1);
            let ghost before = current;
            let step = action_pool[at].unapply(current);
            match step {
                ControlFlow::Break(rest) => {
                    assert(unapplied(action_pool@, group@.from, at as int, before, rest)) by {
                        assert(action_pool@[at as int].unapplies(before, step));
                    }
                    return Ok(ActionSet { action_pool, current: rest });
                },
                ControlFlow::Continue(rest) => {
                    assert forall|end: B|
                        unapplied(
                            action_pool@,
                            group@.from,
                            at as int - 1,
                            rest,
                            end,
                        ) implies unapplied(action_pool@, group@.from, group@.to, start, end) by {
                        assert(action_pool@[at as int].unapplies(before, step));
                        assert(unapplied(action_pool@, group@.from, at as int, before, end));
                    }
                    current = rest;
                },
            }
            left = left - 1;
        }
        Ok(ActionSet { action_pool, current })
    }
}

} // verus!
