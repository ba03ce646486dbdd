//! Groups: inclusive ranges of indices into the object set, each with a
//! classification.

use vstd::prelude::*;
use crate::behavior::Behavior;
use crate::error::BisectError;

verus! {

/// The mathematical model of a group: the indices `from..=to` and what is
/// known of them.
pub struct GroupView {
    pub from: int,
    pub to: int,
    pub behavior: Behavior,
}

impl GroupView {
    /// A group is never empty and starts at no negative index.
    pub open spec fn wf(self) -> bool {
        0 <= self.from <= self.to
    }

    /// The number of indices in the group.
    pub open spec fn size(self) -> int {
        self.to - self.from + 1
    }

    /// Whether `index` lies in the group.
    pub open spec fn contains(self, index: int) -> bool {
        self.from <= index <= self.to
    }

    /// The indices of the group, ascending.
    pub open spec fn indices(self) -> Seq<int> {
        Seq::new(self.size() as nat, |k: int| self.from + k)
    }

    /// Whether the two groups share no index.
    pub open spec fn disjoint(self, other: GroupView) -> bool {
        self.to < other.from || other.to < self.from
    }

    /// The last index of the lower half: on an odd size the lower half is
    /// the larger one.
    pub open spec fn mid(self) -> int {
        self.from + (self.to - self.from) / 2
    }

    /// What the halves of a group are classified as: harmless if the whole
    /// was, else not tested yet.
    pub open spec fn child_behavior(self) -> Behavior {
        if self.behavior == Behavior::Recessive {
            Behavior::Recessive
        } else {
            Behavior::Unknown
        }
    }

    /// The lower half of the group.
    pub open spec fn lower(self) -> GroupView {
        GroupView { from: self.from, to: self.mid(), behavior: self.child_behavior() }
    }

    /// The upper half of the group.
    pub open spec fn upper(self) -> GroupView {
        GroupView { from: self.mid() + 1, to: self.to, behavior: self.child_behavior() }
    }

    /// The same range under another classification.
    pub open spec fn with_behavior(self, behavior: Behavior) -> GroupView {
        GroupView { from: self.from, to: self.to, behavior }
    }

    /// The halves of a group of more than one object share no index, lie
    /// one behind the other, and together hold the indices of the group
    /// and no others. On an odd size the lower half is larger by one.
    pub proof fn lemma_split_covers(g: GroupView)
        requires
            g.wf(),
            g.size() > 1,
        ensures
            g.lower().wf(),
            g.upper().wf(),
            g.lower().from == g.from,
            g.upper().from == g.lower().to + 1,
            g.upper().to == g.to,
            g.lower().disjoint(g.upper()),
            forall|i: int| g.contains(i) <==> g.lower().contains(i) || g.upper().contains(i),
            forall|i: int| !(g.lower().contains(i) && g.upper().contains(i)),
            g.lower().indices() + g.upper().indices() == g.indices(),
            g.lower().size() + g.upper().size() == g.size(),
            g.lower().size() == g.upper().size() + g.size() % 2,
    {
        assert(g.lower().indices() + g.upper().indices() =~= g.indices());
    }

    /// The halves of a harmless group are harmless; the halves of any other
    /// group are not tested yet.
    pub proof fn lemma_split_behavior(g: GroupView)
        ensures
            g.lower().behavior == g.upper().behavior,
            g.behavior == Behavior::Recessive ==> g.lower().behavior == Behavior::Recessive,
            g.behavior == Behavior::Unknown || g.behavior == Behavior::Dominant
                ==> g.lower().behavior == Behavior::Unknown,
    {
    }
}

/// A sequence of indices as mathematical integers.
pub open spec fn as_ints(indices: Seq<usize>) -> Seq<int> {
    Seq::new(indices.len(), |k: int| indices[k] as int)
}

/// An inclusive range of indices into the object set, with a classification.
/// A group owns no objects.
#[derive(Clone, Copy, Debug, PartialEq, Eq, Structural, Hash)]
pub struct Group {
    from: usize,
    to: usize,
    behavior: Behavior,
}

impl View for Group {
    type V = GroupView;

    closed spec fn view(&self) -> GroupView {
        GroupView { from: self.from as int, to: self.to as int, behavior: self.behavior }
    }
}

impl Group {
    /// What holds of every group: it is not empty, and its size and its
    /// indices are numbers that a `usize` holds.
    #[verifier::type_invariant]
    pub open spec fn wf(self) -> bool {
        &&& self@.wf()
        &&& self@.to <= usize::MAX
        &&& self@.size() <= usize::MAX
    }

    /// Two groups with the same model are the same group.
    pub proof fn lemma_view_injective(a: Group, b: Group)
        ensures
            a@ == b@ <==> a == b,
    {
    }

    /// The untested group of the indices `from..=to`.
    ///
    /// Fails where `from` lies behind `to`, and for the one range whose size
    /// no `usize` holds.
    pub fn new(from: usize, to: usize) -> (r: Result<Group, BisectError>)
        ensures
            from > to ==> r == Err::<Group, BisectError>(BisectError::InvertedRange),
            from == 0 && to == usize::MAX ==> r == Err::<Group, BisectError>(
                BisectError::RangeTooLarge,
            ),
            from <= to && !(from == 0 && to == usize::MAX) ==> r.is_ok() && r.unwrap()@
                == (GroupView { from: from as int, to: to as int, behavior: Behavior::Unknown })
                && r.unwrap()@.size() == to - from + 1,
    {
        if from > to {
            Err(BisectError::InvertedRange)
        } else if from == 0 && to == usize::MAX {
            Err(BisectError::RangeTooLarge)
        } else {
            Ok(Group { from, to, behavior: Behavior::Unknown })
        }
    }

    /// The first index of the group.
    pub fn from(&self) -> (r: usize)
        ensures
            r == self@.from,
    {
        self.from
    }

    /// The last index of the group.
    pub fn to(&self) -> (r: usize)
        ensures
            r == self@.to,
    {
        self.to
    }

    /// What is known of the group.
    pub fn behavior(&self) -> (r: Behavior)
        ensures
            r == self@.behavior,
    {
        self.behavior
    }

    /// Classifies the group anew; its range stays.
    pub fn set_behavior(&mut self, behavior: Behavior)
        ensures
            final(self)@ == old(self)@.with_behavior(behavior),
    {
        proof {
            use_type_invariant(&*self);
        }
        self.behavior = behavior;
    }

    /// The number of indices in the group: `to - from + 1`.
    pub fn size(&self) -> (r: usize)
        ensures
            r == self@.size(),
            r == self@.to - self@.from + 1,
            r >= 1,
    {
        proof {
            use_type_invariant(self);
        }
        self.to - self.from + 1
    }

    /// Whether `index` lies in the group.
    pub fn contains(&self, index: usize) -> (r: bool)
        ensures
            r == self@.contains(index as int),
    {
        self.from <= index && index <= self.to
    }

    /// Splits a group of more than one object into its lower and its upper
    /// half. A group of one object is a leaf and does not split.
    pub fn split(&self) -> (r: Result<(Group, Group), BisectError>)
        ensures
            self@.size() == 1 ==> r == Err::<(Group, Group), BisectError>(BisectError::Leaf),
            self@.size() > 1 ==> r.is_ok() && r.unwrap().0@ == self@.lower() && r.unwrap().1@
                == self@.upper(),
    {
        proof {
            use_type_invariant(self);
        }
        if self.from == self.to {
            return Err(BisectError::Leaf);
        }
        let mid: usize = self.from + (self.to - self.from) / 2;
        let behavior = match self.behavior {
            Behavior::Recessive => Behavior::Recessive,
            _ => Behavior::Unknown,
        };
        let lower = Group { from: self.from, to: mid, behavior };
        let upper = Group { from: mid + 1, to: self.to, behavior };
        Ok((lower, upper))
    }

    /// The `k`-th index of the group, counted from 0, if it has that many.
    pub fn index_at(&self, k: usize) -> (r: Option<usize>)
        ensures
            k < self@.size() ==> r == Some((self@.from + k) as usize) && r.unwrap()
                == self@.indices()[k as int],
            k >= self@.size() ==> r.is_none(),
    {
        proof {
            use_type_invariant(self);
        }
        if k <= self.to - self.from {
            Some(self.from + k)
        } else {
            None
        }
    }

    /// The indices of the group, ascending. Each call starts afresh.
    pub fn indices(&self) -> (r: Vec<usize>)
        ensures
            as_ints(r@) == self@.indices(),
            r@.len() == self@.size(),
            forall|k: int| 0 <= k < r@.len() ==> r@[k] == self@.from + k,
    {
        proof {
            use_type_invariant(self);
        }
        let mut out: Vec<usize> = Vec::new();
        let mut next: usize = self.from;
        while next < self.to
            invariant
                self.wf(),
                self@.from <= next <= self@.to,
                out@.len() == next - self@.from,
                forall|k: int| 0 <= k < out@.len() ==> out@[k] == self@.from + k,
            decreases self@.to - next,
        {
            out.push(next);
            next = next + 1;
        }
        out.push(next);
        assert(as_ints(out@) =~= self@.indices());
        out
    }
}

} // verus!
