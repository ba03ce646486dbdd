//! The controller: it owns the objects and the groups that the search has
//! cut them into, switches the objects for a test, and takes the result.
//!
//! A search can be driven from outside, step by step: ask for the next
//! group with `begin_test`, run the test on the objects as the controller
//! has switched them, and report with `record` what the test showed. Or
//! it can be left to `run`, with a test that the controller can call.

use vstd::prelude::*;
use crate::behavior::State;
use crate::error::BisectError;
use crate::group::Group;
use crate::group::GroupView;
use crate::object::Stateful;
use crate::object::all_dependable;
use crate::object::all_enabled;
use crate::object::isolating;
use crate::object::restored;
use crate::object::still_dependable;
use crate::object::states_of;
use crate::object::with_group_state;
use crate::group::as_ints;
use crate::partition::collect_culprits;
use crate::partition::count_pending;
use crate::partition::culprits;
use crate::partition::culprits_are_leaves;
use crate::partition::find_pending;
use crate::partition::finished;
use crate::partition::front_index;
use crate::partition::is_front;
use crate::partition::is_partition;
use crate::partition::is_pending;
use crate::partition::is_sound;
use crate::partition::lemma_partition_ascending;
use crate::partition::lemma_partition_bounds;
use crate::partition::lemma_partition_len;
use crate::partition::lemma_pending_at_most;
use crate::partition::lemma_resolve_decreases_work;
use crate::partition::lemma_resolve_keeps_partition;
use crate::partition::pending_work;
use crate::partition::resolve;
use crate::partition::resolved;
use crate::partition::views_of;
use crate::partition::whole;
use crate::runner::TestRunner;
use crate::runner::follows;
use crate::search::lemma_resolve_counts;
use crate::search::lemma_resolve_keeps_outcome;
use crate::search::lemma_settle_all_finished;
use crate::search::settle_all;
use crate::search::tests_done;

verus! {

/// The mathematical model of a controller.
pub struct BisectionView<T> {
    /// The objects, in the order in which they were handed over.
    pub objects: Seq<T>,
    /// The groups, ascending by their indices.
    pub groups: Seq<GroupView>,
}

impl<T> BisectionView<T> {
    /// There is at least one object, the groups cut the objects' indices
    /// into consecutive ranges, and what is known to show the behavior is
    /// a single object.
    pub open spec fn wf(self) -> bool {
        &&& self.objects.len() >= 1
        &&& is_partition(self.groups, self.objects.len() as int)
        &&& culprits_are_leaves(self.groups)
    }
}

/// Owns the objects under search and the groups they are cut into.
pub struct Bisection<T: Stateful> {
    objects: Vec<T>,
    groups: Vec<Group>,
}

impl<T: Stateful> View for Bisection<T> {
    type V = BisectionView<T>;

    closed spec fn view(&self) -> BisectionView<T> {
        BisectionView { objects: self.objects@, groups: views_of(self.groups@) }
    }
}

impl<T: Stateful> Bisection<T> {
    /// What holds of every controller.
    #[verifier::type_invariant]
    pub open spec fn wf(self) -> bool {
        self@.wf()
    }

    /// Takes the objects over and starts with one untested group that
    /// spans them all. A search over no objects is refused.
    pub fn new(objects: Vec<T>) -> (r: Result<Bisection<T>, BisectError>)
        ensures
            objects@.len() == 0 ==> (r matches Err(e) && e == BisectError::NoObjects),
            objects@.len() > 0 ==> (r matches Ok(b) && b@.objects == objects@ && b@.groups
                == seq![whole(objects@.len() as int)]),
    {
        let n: usize = objects.len();
        if n == 0 {
            return Err(BisectError::NoObjects);
        }
        match Group::new(0, n - 1) {
            Err(e) => Err(e),
            Ok(root) => {
                let mut groups: Vec<Group> = Vec::new();
                groups.push(root);
                assert(views_of(groups@) =~= seq![root@]);
                Ok(Bisection { objects, groups })
            },
        }
    }

    /// Takes up a search where it was left: with the objects and the
    /// groups that `into_parts` gave. Groups that do not cut the objects
    /// into consecutive ranges are refused, and so are groups that name
    /// several objects at once as a culprit.
    pub fn from_parts(objects: Vec<T>, groups: Vec<Group>) -> (r: Result<
        Bisection<T>,
        BisectError,
    >)
        ensures
            objects@.len() == 0 ==> (r matches Err(e) && e == BisectError::NoObjects),
            objects@.len() > 0 && !(is_partition(views_of(groups@), objects@.len() as int)
                && culprits_are_leaves(views_of(groups@))) ==> (r matches Err(e) && e
                == BisectError::NotAPartition),
            objects@.len() > 0 && is_partition(views_of(groups@), objects@.len() as int)
                && culprits_are_leaves(views_of(groups@)) ==> (r matches Ok(b) && b@.objects
                == objects@ && b@.groups == views_of(groups@)),
    {
        let n: usize = objects.len();
        if n == 0 {
            return Err(BisectError::NoObjects);
        }
        if !is_sound(&groups, n) {
            return Err(BisectError::NotAPartition);
        }
        Ok(Bisection { objects, groups })
    }

    /// The number of objects.
    pub fn len(&self) -> (n: usize)
        ensures
            n == self@.objects.len(),
            n >= 1,
    {
        proof {
            use_type_invariant(self);
        }
        self.objects.len()
    }

    /// The objects, as they are switched now.
    pub fn objects(&self) -> (r: &Vec<T>)
        ensures
            r@ == self@.objects,
    {
        &self.objects
    }

    /// The state that each object was last brought into, as the objects
    /// remember it.
    pub fn states(&self) -> (r: Vec<State>)
        ensures
            r@ == states_of(self@.objects),
    {
        let n: usize = self.objects.len();
        let mut out: Vec<State> = Vec::new();
        let mut i: usize = 0;
        while i < n
            invariant
                i <= n,
                n == self.objects@.len(),
                out@.len() == i,
                forall|j: int| 0 <= j < i ==> out@[j] == (#[trigger] self.objects@[j]).state_spec(),
            decreases n - i,
        {
            out.push(self.objects[i].state());
            i = i + 1;
        }
        assert(out@ =~= states_of(self.objects@));
        out
    }

    /// Gives the objects back and ends the search.
    pub fn into_objects(self) -> (r: Vec<T>)
        ensures
            r@ == self@.objects,
    {
        self.objects
    }

    /// Gives the objects and the groups back and ends the search.
    pub fn into_parts(self) -> (r: (Vec<T>, Vec<Group>))
        ensures
            r.0@ == self@.objects,
            views_of(r.1@) == self@.groups,
    {
        (self.objects, self.groups)
    }

    /// The groups that the objects are cut into, ascending.
    pub fn groups(&self) -> (r: &Vec<Group>)
        ensures
            views_of(r@) == self@.groups,
    {
        &self.groups
    }

    /// Whether no group is left to test.
    pub fn is_finished(&self) -> (r: bool)
        ensures
            r == finished(self@.groups),
    {
        front_index(&self.groups).is_none()
    }

    /// The group to test next: of the untested groups the largest, and of
    /// several of that size the first. `None` once every group is settled.
    pub fn next_group(&self) -> (r: Option<Group>)
        ensures
            r is None <==> finished(self@.groups),
            r matches Some(g) ==> is_front(self@.groups, g@) && g@.to < self@.objects.len(),
    {
        proof {
            use_type_invariant(self);
        }
        match front_index(&self.groups) {
            None => None,
            Some(k) => {
                proof {
                    lemma_partition_bounds(self@.groups, self@.objects.len() as int, k as int);
                }
                Some(self.groups[k])
            },
        }
    }

    /// The number of results taken so far: one for each test that has led
    /// to the groups as they are. With `n` objects it never exceeds
    /// `2n - 1`, which a `usize` may fail to hold.
    pub fn tests_run(&self) -> (r: u128)
        ensures
            r == tests_done(self@.groups),
            r <= 2 * self@.objects.len() - 1,
    {
        proof {
            use_type_invariant(self);
            lemma_partition_len(self@.groups, self@.objects.len() as int);
            lemma_pending_at_most(self@.groups);
        }
        let groups: usize = self.groups.len();
        let pending: usize = count_pending(&self.groups);
        let twice: u128 = 2 * (groups as u128);
        twice - 1 - (pending as u128)
    }

    /// The indices of the objects confirmed so far as culprits, ascending.
    pub fn culprits(&self) -> (r: Vec<usize>)
        ensures
            as_ints(r@) == culprits(self@.groups),
    {
        collect_culprits(&self.groups)
    }

    /// Brings every object of `group` into `state`, from the first index
    /// up, and stops at the first object that refuses. The other objects
    /// are not touched.
    pub fn set_group_state(&mut self, group: &Group, state: State) -> (r: Result<(), BisectError>)
        ensures
            final(self)@.groups == old(self)@.groups,
            final(self)@.objects.len() == old(self)@.objects.len(),
            forall|i: int|
                0 <= i < old(self)@.objects.len() && !group@.contains(i)
                    ==> final(self)@.objects[i] == old(self)@.objects[i],
            group@.to >= old(self)@.objects.len() ==> r == Err::<(), BisectError>(
                BisectError::OutOfRange,
            ) && final(self)@.objects == old(self)@.objects,
            group@.to < old(self)@.objects.len() && all_dependable(old(self)@.objects)
                ==> r.is_ok() && all_dependable(final(self)@.objects),
            still_dependable(old(self)@.objects, final(self)@.objects),
            r.is_ok() ==> states_of(final(self)@.objects) == with_group_state(
                states_of(old(self)@.objects),
                group@,
                state,
            ),
            r.is_err() && group@.to < old(self)@.objects.len() ==> (r matches Err(
                BisectError::Capability(index),
            ) && group@.contains(index as int) && (forall|i: int|
                group@.from <= i < index ==> (#[trigger] final(self)@.objects[i]).state_spec()
                    == state) && (forall|i: int|
                index < i < old(self)@.objects.len()
                    ==> final(self)@.objects[i] == old(self)@.objects[i])),
    {
        proof {
            use_type_invariant(&*self);
            use_type_invariant(group);
        }
        let n: usize = self.objects.len();
        if group.to() >= n {
            return Err(BisectError::OutOfRange);
        }
        let mut i: usize = group.from();
        while i <= group.to()
            invariant
                group.wf(),
                group@.from <= i <= group@.to + 1,
                group@.to < n,
                self.objects@.len() == n,
                old(self).objects@.len() == n,
                self.groups == old(self).groups,
                all_dependable(old(self).objects@) ==> all_dependable(self.objects@),
                still_dependable(old(self).objects@, self.objects@),
                forall|j: int|
                    group@.from <= j < i ==> (#[trigger] self.objects@[j]).state_spec() == state,
                forall|j: int|
                    0 <= j < n && !(group@.from <= j < i)
                        ==> self.objects@[j] == old(self).objects@[j],
            decreases group@.to + 1 - i,
        {
            proof {
                use_type_invariant(&*self);
            }
            let ghost before = self.objects@;
            let done = self.objects[i].set_state(state);
            if done.is_err() {
                assert(!before[i as int].dependable());
                return Err(BisectError::Capability(i));
            }
            i = i + 1;
        }
        assert(states_of(self.objects@) =~= with_group_state(
            states_of(old(self).objects@),
            group@,
            state,
        ));
        Ok(())
    }

    /// Enables every object, whether or not one of them refuses: what is
    /// left when a search ends or is given up. Where an object refuses,
    /// the first such is reported.
    pub fn restore_all(&mut self) -> (r: Result<(), BisectError>)
        ensures
            final(self)@.groups == old(self)@.groups,
            final(self)@.objects.len() == old(self)@.objects.len(),
            all_dependable(old(self)@.objects) ==> r.is_ok() && all_dependable(
                final(self)@.objects,
            ),
            still_dependable(old(self)@.objects, final(self)@.objects),
            restored(old(self)@.objects, final(self)@.objects),
            r.is_ok() ==> states_of(final(self)@.objects) == all_enabled(
                old(self)@.objects.len(),
            ),
            r.is_err() ==> (r matches Err(BisectError::Capability(index)) && index < old(
                self)@.objects.len() && forall|j: int|
                0 <= j < index ==> (#[trigger] final(self)@.objects[j]).state_spec()
                    == State::Enabled),
    {
        let n: usize = self.objects.len();
        let mut failed: Option<usize> = None;
        let mut i: usize = 0;
        while i < n
            invariant
                i <= n,
                self.objects@.len() == n,
                old(self).objects@.len() == n,
                self.groups == old(self).groups,
                all_dependable(old(self).objects@) ==> failed is None,
                all_dependable(old(self).objects@) ==> all_dependable(self.objects@),
                still_dependable(old(self).objects@, self.objects@),
                forall|j: int|
                    0 <= j < i && (#[trigger] old(self).objects@[j]).dependable()
                        ==> self.objects@[j].state_spec() == State::Enabled,
                failed matches Some(at) ==> at < i && forall|j: int|
                    0 <= j < at ==> (#[trigger] self.objects@[j]).state_spec() == State::Enabled,
                failed is None ==> forall|j: int|
                    0 <= j < i ==> (#[trigger] self.objects@[j]).state_spec() == State::Enabled,
                forall|j: int| i <= j < n ==> self.objects@[j] == old(self).objects@[j],
            decreases n - i,
        {
            proof {
                use_type_invariant(&*self);
            }
            let done = self.objects[i].set_state(State::Enabled);
            if done.is_err() && failed.is_none() {
                failed = Some(i);
            }
            i = i + 1;
        }
        match failed {
            Some(index) => Err(BisectError::Capability(index)),
            None => {
                assert(states_of(self.objects@) =~= all_enabled(n as nat));
                Ok(())
            },
        }
    }

    /// Switches the objects for the test of `group`: enables its objects
    /// and disables all the others, so that nothing stays enabled from an
    /// earlier test. Where an object refuses, the test is off: every
    /// object is enabled again as far as that goes, and the refusal is
    /// reported.
    pub fn isolate(&mut self, group: &Group) -> (r: Result<(), BisectError>)
        ensures
            final(self)@.groups == old(self)@.groups,
            final(self)@.objects.len() == old(self)@.objects.len(),
            group@.to >= old(self)@.objects.len() ==> r == Err::<(), BisectError>(
                BisectError::OutOfRange,
            ) && final(self)@.objects == old(self)@.objects,
            group@.to < old(self)@.objects.len() && all_dependable(old(self)@.objects)
                ==> r.is_ok() && all_dependable(final(self)@.objects),
            still_dependable(old(self)@.objects, final(self)@.objects),
            r.is_ok() ==> states_of(final(self)@.objects) == isolating(
                group@,
                old(self)@.objects.len(),
            ),
            r.is_err() && group@.to < old(self)@.objects.len() ==> (r matches Err(
                BisectError::Capability(index),
            ) && index < old(self)@.objects.len()) && restored(
                old(self)@.objects,
                final(self)@.objects,
            ),
    {
        let n: usize = self.objects.len();
        if group.to() >= n {
            return Err(BisectError::OutOfRange);
        }
        let mut i: usize = 0;
        while i < n
            invariant
                i <= n,
                group@.to < n,
                self.objects@.len() == n,
                old(self).objects@.len() == n,
                self.groups == old(self).groups,
                all_dependable(old(self).objects@) ==> all_dependable(self.objects@),
                still_dependable(old(self).objects@, self.objects@),
                forall|j: int| i <= j < n ==> self.objects@[j] == old(self).objects@[j],
                forall|j: int|
                    0 <= j < i ==> (#[trigger] self.objects@[j]).state_spec() == isolating(
                        group@,
                        n as nat,
                    )[j],
            decreases n - i,
        {
            proof {
                use_type_invariant(&*self);
            }
            let desired = if group.contains(i) {
                State::Enabled
            } else {
                State::Disabled
            };
            let ghost before = self.objects@;
            let done = self.objects[i].set_state(desired);
            if done.is_err() {
                assert(!before[i as int].dependable());
                assert(still_dependable(old(self).objects@, self.objects@));
                let _ = self.restore_all();
                return Err(BisectError::Capability(i));
            }
            i = i + 1;
        }
        assert(states_of(self.objects@) =~= isolating(group@, n as nat));
        Ok(())
    }

    /// Starts the next test: picks the group to test next and switches the
    /// objects for it. `None` once every group is settled; the objects are
    /// then left as they are.
    pub fn begin_test(&mut self) -> (r: Result<Option<Group>, BisectError>)
        ensures
            final(self)@.groups == old(self)@.groups,
            final(self)@.objects.len() == old(self)@.objects.len(),
            finished(old(self)@.groups) ==> (r matches Ok(None)) && final(self)@.objects == old(
                self)@.objects,
            all_dependable(old(self)@.objects) ==> r.is_ok() && all_dependable(
                final(self)@.objects,
            ),
            still_dependable(old(self)@.objects, final(self)@.objects),
            r matches Ok(Some(g)) ==> is_front(old(self)@.groups, g@) && states_of(
                final(self)@.objects,
            ) == isolating(g@, old(self)@.objects.len()),
            r matches Ok(None) ==> finished(old(self)@.groups),
            r matches Err(e) ==> (e matches BisectError::Capability(index) && index < old(
                self)@.objects.len()) && restored(old(self)@.objects, final(self)@.objects),
    {
        proof {
            use_type_invariant(&*self);
        }
        match self.next_group() {
            None => Ok(None),
            Some(group) => {
                proof {
                    let at = self@.groups.index_of(group@);
                    lemma_partition_bounds(self@.groups, self@.objects.len() as int, at);
                }
                match self.isolate(&group) {
                    Ok(()) => Ok(Some(group)),
                    Err(e) => Err(e),
                }
            },
        }
    }

    /// Takes the result of the test of `group`, which must be one of the
    /// untested groups. Where the test did not show the behavior, the group
    /// is settled as harmless. Where it did, a single object is settled as
    /// a culprit, and a larger group gives way to its two halves, both
    /// untested. The objects are not touched.
    pub fn record(&mut self, group: &Group, dominant: bool) -> (r: Result<(), BisectError>)
        ensures
            final(self)@.objects == old(self)@.objects,
            !is_pending(old(self)@.groups, group@) ==> r == Err::<(), BisectError>(
                BisectError::NotPending,
            ) && final(self)@.groups == old(self)@.groups,
            is_pending(old(self)@.groups, group@) ==> r.is_ok() && final(self)@.groups == resolve(
                old(self)@.groups,
                old(self)@.groups.index_of(group@),
                dominant,
            ) && tests_done(final(self)@.groups) == tests_done(old(self)@.groups) + 1
                && pending_work(final(self)@.groups) < pending_work(old(self)@.groups),
    {
        proof {
            use_type_invariant(&*self);
        }
        match find_pending(&self.groups, group) {
            None => Err(BisectError::NotPending),
            Some(k) => {
                proof {
                    let views = views_of(self.groups@);
                    let at = views.index_of(group@);
                    assert(views[k as int] == group@);
                    if at < k {
                        lemma_partition_ascending(views, self.objects@.len() as int, at, k as int);
                    } else if k < at {
                        lemma_partition_ascending(views, self.objects@.len() as int, k as int, at);
                    }
                    assert(views[at].wf());
                    lemma_resolve_keeps_partition(
                        views,
                        self.objects@.len() as int,
                        k as int,
                        dominant,
                    );
                    lemma_resolve_counts(views, k as int, dominant);
                    lemma_resolve_decreases_work(views, k as int, dominant);
                }
                self.groups = resolved(&self.groups, k, dominant);
                Ok(())
            },
        }
    }

    /// Runs the search to its end: as long as a group is left to test, the
    /// one to test next is tested with `runner`, with exactly its objects
    /// enabled, and the result is taken. In the end, and also where the
    /// search has to be given up, every object is enabled again as far as
    /// that goes. Returns the indices of the culprits, ascending.
    ///
    /// The search is given up where an object refuses to be switched or
    /// the test cannot be run. What was settled until then stays settled.
    pub fn run<R: TestRunner<T>>(&mut self, runner: &mut R) -> (r: Result<Vec<usize>, BisectError>)
        ensures
            final(self)@.objects.len() == old(self)@.objects.len(),
            all_dependable(old(self)@.objects) && old(runner).dependable() ==> r.is_ok(),
            still_dependable(old(self)@.objects, final(self)@.objects),
            restored(old(self)@.objects, final(self)@.objects),
            r matches Ok(found) ==> finished(final(self)@.groups) && as_ints(found@) == culprits(
                final(self)@.groups,
            ) && states_of(final(self)@.objects) == all_enabled(old(self)@.objects.len()),
            r matches Err(e) ==> (e == BisectError::Runner || (e matches BisectError::Capability(
                index,
            ) && index < old(self)@.objects.len())),
            forall|culprit: Set<int>|
                #[trigger] follows(*old(runner), culprit, old(self)@.objects.len())
                    ==> settle_all(final(self)@.groups, culprit) == settle_all(
                    old(self)@.groups,
                    culprit,
                ) && (r.is_ok() ==> final(self)@.groups == settle_all(
                    old(self)@.groups,
                    culprit,
                )),
            tests_done(final(self)@.groups) >= tests_done(old(self)@.groups),
            old(runner).dependable() ==> final(runner).dependable(),
            forall|states: Seq<State>, dominant: bool|
                #[trigger] final(runner).may_show(states, dominant) == old(runner).may_show(
                    states,
                    dominant,
                ),
    {
        let ghost n = self@.objects.len();
        proof {
            use_type_invariant(&*self);
        }
        loop
            invariant
                self.wf(),
                self@.objects.len() == n,
                old(self)@.objects.len() == n,
                all_dependable(old(self)@.objects) ==> all_dependable(self@.objects),
                still_dependable(old(self)@.objects, self@.objects),
                old(runner).dependable() ==> runner.dependable(),
                forall|states: Seq<State>, dominant: bool|
                    #[trigger] runner.may_show(states, dominant) == old(runner).may_show(
                        states,
                        dominant,
                    ),
                forall|culprit: Set<int>|
                    #[trigger] follows(*old(runner), culprit, n) ==> settle_all(
                        self@.groups,
                        culprit,
                    ) == settle_all(old(self)@.groups, culprit),
                tests_done(self@.groups) >= tests_done(old(self)@.groups),
            ensures
                finished(self@.groups),
            decreases pending_work(self@.groups),
        {
            let ghost before = self@.groups;
            let group = match self.begin_test() {
                Err(e) => {
                    return Err(e);
                },
                Ok(None) => {
                    break ;
                },
                Ok(Some(group)) => group,
            };
            let dominant = match runner.run_test(&self.objects) {
                Err(_) => {
                    let _ = self.restore_all();
                    return Err(BisectError::Runner);
                },
                Ok(dominant) => dominant,
            };
            proof {
                let k = before.index_of(group@);
                assert(before[k] == group@);
                lemma_partition_bounds(before, n as int, k);
                lemma_resolve_decreases_work(before, k, dominant);
                lemma_resolve_counts(before, k, dominant);
                assert forall|culprit: Set<int>| #[trigger]
                    follows(*old(runner), culprit, n) implies settle_all(
                    resolve(before, k, dominant),
                    culprit,
                ) == settle_all(old(self)@.groups, culprit) by {
                    assert(old(runner).may_show(isolating(group@, n), dominant));
                    lemma_resolve_keeps_outcome(before, k, culprit);
                }
            }
            let taken = self.record(&group, dominant);
            assert(taken.is_ok());
            proof {
                use_type_invariant(&*self);
            }
        }
        proof {
            assert forall|culprit: Set<int>| #[trigger]
                follows(*old(runner), culprit, n) implies self@.groups == settle_all(
                old(self)@.groups,
                culprit,
            ) by {
                lemma_settle_all_finished(self@.groups, culprit);
            }
        }
        match self.restore_all() {
            Err(e) => Err(e),
            Ok(()) => Ok(self.culprits()),
        }
    }
}

} // verus!
