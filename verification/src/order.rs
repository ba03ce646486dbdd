//! The order in which groups are picked for testing.
//!
//! Untested groups come before groups known to show the behavior, and those
//! before harmless ones; within one classification the larger group comes
//! first, and of two groups of one size the one that starts earlier.

use std::cmp::Ordering;
use vstd::prelude::*;
use vstd::std_specs::cmp::PartialOrdSpecImpl;
use crate::group::Group;
use crate::group::GroupView;

verus! {

impl GroupView {
    /// Whether this group is picked before `other`: by classification first,
    /// then by size, the larger first, then by start, the earlier first.
    pub open spec fn outranks(self, other: GroupView) -> bool {
        let mine = self.behavior.rank_spec();
        let theirs = other.behavior.rank_spec();
        ||| mine > theirs
        ||| mine == theirs && self.size() > other.size()
        ||| mine == theirs && self.size() == other.size() && self.from < other.from
    }

    /// How this group compares with `other`: greater where it is picked
    /// first.
    pub open spec fn compare(self, other: GroupView) -> Ordering {
        if self.outranks(other) {
            Ordering::Greater
        } else if other.outranks(self) {
            Ordering::Less
        } else {
            Ordering::Equal
        }
    }

    /// Two different groups never tie: one of them is picked before the
    /// other, and only one.
    pub proof fn lemma_order_total(a: GroupView, b: GroupView)
        ensures
            a == b <==> a.compare(b) == Ordering::Equal,
            a != b ==> (a.outranks(b) <==> !b.outranks(a)),
            !(a.outranks(b) && b.outranks(a)),
            !a.outranks(a),
    {
    }

    /// Groups that share no index are different groups, so one of them is
    /// picked before the other, and only one.
    pub proof fn lemma_order_of_disjoint(a: GroupView, b: GroupView)
        requires
            a.wf(),
            b.wf(),
            a.disjoint(b),
        ensures
            a != b,
            a.outranks(b) <==> !b.outranks(a),
            a.compare(b) != Ordering::Equal,
    {
    }

    /// Comparing the other way round gives the opposite answer.
    pub proof fn lemma_order_antisymmetric(a: GroupView, b: GroupView)
        ensures
            a.compare(b) == Ordering::Less <==> b.compare(a) == Ordering::Greater,
            a.compare(b) == Ordering::Equal <==> b.compare(a) == Ordering::Equal,
    {
    }

    /// What is picked before a group is picked before all that the group is
    /// picked before.
    pub proof fn lemma_order_transitive(a: GroupView, b: GroupView, c: GroupView)
        requires
            a.outranks(b),
            b.outranks(c),
        ensures
            a.outranks(c),
    {
    }
}

impl Group {
    /// Compares two groups by the order in which they are picked for
    /// testing: the greater one is picked first.
    pub fn compare(&self, other: &Group) -> (r: Ordering)
        ensures
            r == self@.compare(other@),
    {
        let mine: u8 = self.behavior().rank();
        let theirs: u8 = other.behavior().rank();
        if mine != theirs {
            return if mine > theirs {
                Ordering::Greater
            } else {
                Ordering::Less
            };
        }
        let my_size: usize = self.size();
        let their_size: usize = other.size();
        if my_size != their_size {
            return if my_size > their_size {
                Ordering::Greater
            } else {
                Ordering::Less
            };
        }
        if self.from() < other.from() {
            Ordering::Greater
        } else if self.from() > other.from() {
            Ordering::Less
        } else {
            Ordering::Equal
        }
    }
}

impl Group {
    /// Whether this group is picked for testing before `other`.
    pub fn outranks(&self, other: &Group) -> (r: bool)
        ensures
            r == self@.outranks(other@),
    {
        match self.compare(other) {
            Ordering::Greater => true,
            _ => false,
        }
    }
}

impl PartialOrdSpecImpl for Group {
    open spec fn obeys_partial_cmp_spec() -> bool {
        true
    }

    open spec fn partial_cmp_spec(&self, other: &Group) -> Option<Ordering> {
        Some(self@.compare(other@))
    }
}

impl PartialOrd for Group {
    fn partial_cmp(&self, other: &Group) -> (r: Option<Ordering>) {
        Some(self.compare(other))
    }
}

} // verus!
