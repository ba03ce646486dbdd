//! The state of a search: the groups that the index range is cut into, and
//! how a test result changes them.
//!
//! The groups are kept ascending. Together they cover every index once;
//! the untested ones among them are the work that is left.

use vstd::prelude::*;
use crate::behavior::Behavior;
use crate::group::Group;
use crate::group::GroupView;
use crate::group::as_ints;

verus! {

/// The models of a sequence of groups, one for one.
pub open spec fn views_of(groups: Seq<Group>) -> Seq<GroupView> {
    Seq::new(groups.len(), |i: int| groups[i]@)
}

/// The untested group of all the indices below `n`: where a search starts.
pub open spec fn whole(n: int) -> GroupView {
    GroupView { from: 0, to: n - 1, behavior: Behavior::Unknown }
}

/// Whether `groups` cuts the indices `0..n` into consecutive ranges: the
/// first group starts at 0, each next one where the one before it ended,
/// and the last one ends at `n - 1`.
pub open spec fn is_partition(groups: Seq<GroupView>, n: int) -> bool {
    &&& groups.len() >= 1
    &&& groups[0].from == 0
    &&& groups.last().to == n - 1
    &&& forall|i: int| 0 <= i < groups.len() ==> (#[trigger] groups[i]).wf()
    &&& forall|i: int|
        0 <= i < groups.len() - 1 ==> (#[trigger] groups[i + 1]).from == groups[i].to + 1
}

/// Whether every group that is known to show the behavior is a single
/// object: a confirmed culprit.
pub open spec fn culprits_are_leaves(groups: Seq<GroupView>) -> bool {
    forall|i: int|
        0 <= i < groups.len() && (#[trigger] groups[i]).behavior == Behavior::Dominant
            ==> groups[i].size() == 1
}

/// Whether no group is left to test.
pub open spec fn finished(groups: Seq<GroupView>) -> bool {
    forall|i: int| 0 <= i < groups.len() ==> (#[trigger] groups[i]).behavior != Behavior::Unknown
}

/// Whether `g` is one of the groups and waits for its test.
pub open spec fn is_pending(groups: Seq<GroupView>, g: GroupView) -> bool {
    groups.contains(g) && g.behavior == Behavior::Unknown
}

/// Whether `g` is the group to test next: it waits for its test, and no
/// group is picked before it.
pub open spec fn is_front(groups: Seq<GroupView>, g: GroupView) -> bool {
    &&& is_pending(groups, g)
    &&& forall|j: int| 0 <= j < groups.len() ==> !(#[trigger] groups[j]).outranks(g)
}

/// What takes the place of a tested group. Where the test did not show the
/// behavior the group is harmless. Where it did, a single object is a
/// culprit, and a larger group gives way to its two halves.
pub open spec fn verdict(g: GroupView, dominant: bool) -> Seq<GroupView> {
    if !dominant {
        seq![g.with_behavior(Behavior::Recessive)]
    } else if g.size() == 1 {
        seq![g.with_behavior(Behavior::Dominant)]
    } else {
        seq![g.lower(), g.upper()]
    }
}

/// The groups after the test of the `k`-th one: the verdict takes its
/// place, and the groups around it stay.
pub open spec fn resolve(groups: Seq<GroupView>, k: int, dominant: bool) -> Seq<GroupView> {
    groups.take(k) + verdict(groups[k], dominant) + groups.skip(k + 1)
}

/// The confirmed culprits: the first index of each group known to show
/// the behavior, in the order of the groups.
pub open spec fn culprits(groups: Seq<GroupView>) -> Seq<int>
    decreases groups.len(),
{
    if groups.len() == 0 {
        Seq::<int>::empty()
    } else if groups.last().behavior == Behavior::Dominant {
        culprits(groups.drop_last()).push(groups.last().from)
    } else {
        culprits(groups.drop_last())
    }
}

/// How many groups wait for their test.
pub open spec fn pending_count(groups: Seq<GroupView>) -> nat
    decreases groups.len(),
{
    if groups.len() == 0 {
        0
    } else if groups.last().behavior == Behavior::Unknown {
        pending_count(groups.drop_last()) + 1
    } else {
        pending_count(groups.drop_last())
    }
}

/// What one untested group can still cost: itself and all the groups that
/// it can be cut into, down to single objects, tested once each.
pub open spec fn work_of(g: GroupView) -> nat {
    if g.behavior == Behavior::Unknown && g.size() >= 1 {
        (2 * g.size() - 1) as nat
    } else {
        0
    }
}

/// A bound on the tests that a search in this state can still ask for.
pub open spec fn pending_work(groups: Seq<GroupView>) -> nat
    decreases groups.len(),
{
    if groups.len() == 0 {
        0
    } else {
        pending_work(groups.drop_last()) + work_of(groups.last())
    }
}

/// The work of two runs of groups, one behind the other, is the sum of
/// their work.
pub proof fn lemma_work_concat(a: Seq<GroupView>, b: Seq<GroupView>)
    ensures
        pending_work(a + b) == pending_work(a) + pending_work(b),
    decreases b.len(),
{
    if b.len() == 0 {
        assert(a + b =~= a);
    } else {
        lemma_work_concat(a, b.drop_last());
        assert((a + b).drop_last() =~= a + b.drop_last());
        assert((a + b).last() == b.last());
    }
}

/// The groups that wait in two runs of groups, one behind the other, are
/// those that wait in either.
pub proof fn lemma_count_concat(a: Seq<GroupView>, b: Seq<GroupView>)
    ensures
        pending_count(a + b) == pending_count(a) + pending_count(b),
    decreases b.len(),
{
    if b.len() == 0 {
        assert(a + b =~= a);
    } else {
        lemma_count_concat(a, b.drop_last());
        assert((a + b).drop_last() =~= a + b.drop_last());
        assert((a + b).last() == b.last());
    }
}

/// The culprits of two runs of groups, one behind the other, are those of
/// the first followed by those of the second.
pub proof fn lemma_culprits_concat(a: Seq<GroupView>, b: Seq<GroupView>)
    ensures
        culprits(a + b) == culprits(a) + culprits(b),
    decreases b.len(),
{
    if b.len() == 0 {
        assert(a + b =~= a);
        assert(culprits(a) + culprits(b) =~= culprits(a));
    } else {
        lemma_culprits_concat(a, b.drop_last());
        assert((a + b).drop_last() =~= a + b.drop_last());
        assert((a + b).last() == b.last());
        assert(culprits(a + b) =~= culprits(a) + culprits(b));
    }
}

/// An index is among the confirmed culprits exactly when a group known to
/// show the behavior starts at it.
pub proof fn lemma_culprits_hold(groups: Seq<GroupView>, index: int)
    ensures
        culprits(groups).contains(index) <==> exists|k: int|
            0 <= k < groups.len() && (#[trigger] groups[k]).behavior == Behavior::Dominant
                && groups[k].from == index,
    decreases groups.len(),
{
    if groups.len() > 0 {
        let front = groups.drop_last();
        let last = groups.last();
        let found = culprits(groups);
        lemma_culprits_hold(front, index);
        if culprits(front).contains(index) {
            let at = choose|at: int|
                0 <= at < culprits(front).len() && culprits(front)[at] == index;
            assert(found[at] == index);
            let k = choose|k: int|
                0 <= k < front.len() && (#[trigger] front[k]).behavior == Behavior::Dominant
                    && front[k].from == index;
            assert(groups[k] == front[k]);
        }
        if last.behavior == Behavior::Dominant && last.from == index {
            assert(found[found.len() - 1] == index);
            assert(groups[groups.len() - 1] == last);
        }
        if found.contains(index) && !culprits(front).contains(index) {
            let at = choose|at: int| 0 <= at < found.len() && found[at] == index;
            if at < culprits(front).len() {
                assert(culprits(front)[at] == index);
            }
            assert(groups[groups.len() - 1] == last);
        }
        if exists|k: int|
            0 <= k < groups.len() && (#[trigger] groups[k]).behavior == Behavior::Dominant
                && groups[k].from == index {
            let k = choose|k: int|
                0 <= k < groups.len() && (#[trigger] groups[k]).behavior == Behavior::Dominant
                    && groups[k].from == index;
            if k < front.len() {
                assert(front[k] == groups[k]);
            }
        }
    }
}

/// A sequence of groups is what lies before its `k`-th group, that group,
/// and what lies behind it.
pub proof fn lemma_cut_at(groups: Seq<GroupView>, k: int)
    requires
        0 <= k < groups.len(),
    ensures
        groups == groups.take(k) + seq![groups[k]] + groups.skip(k + 1),
{
    assert(groups =~= groups.take(k) + seq![groups[k]] + groups.skip(k + 1));
}

/// No more groups wait for their test than there are groups.
pub proof fn lemma_pending_at_most(groups: Seq<GroupView>)
    ensures
        pending_count(groups) <= groups.len(),
    decreases groups.len(),
{
    if groups.len() > 0 {
        lemma_pending_at_most(groups.drop_last());
    }
}

/// The `k`-th group of a partition starts at `k` or behind it.
pub proof fn lemma_partition_starts(groups: Seq<GroupView>, n: int, k: int)
    requires
        is_partition(groups, n),
        0 <= k < groups.len(),
    ensures
        k <= groups[k].from,
    decreases k,
{
    if k > 0 {
        lemma_partition_starts(groups, n, k - 1);
        assert(groups[(k - 1) + 1].from == groups[k - 1].to + 1);
        assert(groups[k - 1].wf());
    }
}

/// A partition of `n` indices has at most `n` groups.
pub proof fn lemma_partition_len(groups: Seq<GroupView>, n: int)
    requires
        is_partition(groups, n),
    ensures
        1 <= groups.len() <= n,
{
    let last = groups.len() - 1;
    lemma_partition_starts(groups, n, last);
    assert(groups[last].wf());
}

/// The groups of a partition are ascending: an earlier group ends before a
/// later one starts.
pub proof fn lemma_partition_ascending(groups: Seq<GroupView>, n: int, i: int, j: int)
    requires
        is_partition(groups, n),
        0 <= i < j < groups.len(),
    ensures
        groups[i].to < groups[j].from,
        groups[i].disjoint(groups[j]),
    decreases j - i,
{
    if j == i + 1 {
        assert(groups[i + 1].from == groups[i].to + 1);
    } else {
        lemma_partition_ascending(groups, n, i, j - 1);
        assert(groups[(j - 1) + 1].from == groups[j - 1].to + 1);
        assert(groups[j - 1].wf());
    }
}

/// Every group of a partition lies within the indices `0..n`.
pub proof fn lemma_partition_bounds(groups: Seq<GroupView>, n: int, k: int)
    requires
        is_partition(groups, n),
        0 <= k < groups.len(),
    ensures
        0 <= groups[k].from <= groups[k].to < n,
        1 <= groups[k].size() <= n,
{
    assert(groups[k].wf());
    assert(groups[0].wf());
    assert(groups[groups.len() - 1].wf());
    if 0 < k {
        lemma_partition_ascending(groups, n, 0, k);
    }
    if k < groups.len() - 1 {
        lemma_partition_ascending(groups, n, k, groups.len() - 1);
    }
}

/// Every index below `n` lies in one group of a partition, and in one only.
pub proof fn lemma_partition_covers(groups: Seq<GroupView>, n: int, x: int)
    requires
        is_partition(groups, n),
        0 <= x < n,
    ensures
        exists|k: int| 0 <= k < groups.len() && (#[trigger] groups[k]).contains(x),
        forall|i: int, j: int|
            0 <= i < groups.len() && 0 <= j < groups.len() && (#[trigger] groups[i]).contains(x)
                && (#[trigger] groups[j]).contains(x) ==> i == j,
{
    lemma_covers_from(groups, n, x, 0);
    assert forall|i: int, j: int|
        0 <= i < groups.len() && 0 <= j < groups.len() && (#[trigger] groups[i]).contains(x) && (
        #[trigger] groups[j]).contains(x) implies i == j by {
        if i < j {
            lemma_partition_ascending(groups, n, i, j);
        } else if j < i {
            lemma_partition_ascending(groups, n, j, i);
        }
    }
}

proof fn lemma_covers_from(groups: Seq<GroupView>, n: int, x: int, k: int)
    requires
        is_partition(groups, n),
        0 <= k < groups.len(),
        groups[k].from <= x < n,
    ensures
        exists|j: int| 0 <= j < groups.len() && (#[trigger] groups[j]).contains(x),
    decreases groups.len() - k,
{
    if x <= groups[k].to {
        assert(groups[k].contains(x));
    } else {
        assert(k < groups.len() - 1);
        assert(groups[k + 1].from == groups[k].to + 1);
        lemma_covers_from(groups, n, x, k + 1);
    }
}

/// In a partition the group to test next is determined: two groups that
/// both qualify are one group.
pub proof fn lemma_front_unique(groups: Seq<GroupView>, a: GroupView, b: GroupView)
    requires
        is_front(groups, a),
        is_front(groups, b),
    ensures
        a == b,
{
    let i = groups.index_of(a);
    let j = groups.index_of(b);
    assert(groups[i] == a && groups[j] == b);
    assert(!groups[i].outranks(b));
    assert(!groups[j].outranks(a));
    GroupView::lemma_order_total(a, b);
}

/// While a group waits for its test, there is one to test next.
pub proof fn lemma_front_exists(groups: Seq<GroupView>)
    requires
        !finished(groups),
    ensures
        exists|k: int| 0 <= k < groups.len() && is_front(groups, #[trigger] groups[k]),
{
    let k = lemma_best_of(groups, groups.len() as int);
    assert(groups[k].behavior == Behavior::Unknown) by {
        let u = choose|i: int|
            0 <= i < groups.len() && (#[trigger] groups[i]).behavior == Behavior::Unknown;
        assert(!groups[u].outranks(groups[k]));
    }
    assert(groups.contains(groups[k]));
    assert(is_front(groups, groups[k]));
}

/// Among the first `m` groups there is one that none of them outranks.
proof fn lemma_best_of(groups: Seq<GroupView>, m: int) -> (k: int)
    requires
        1 <= m <= groups.len(),
    ensures
        0 <= k < m,
        forall|j: int| 0 <= j < m ==> !(#[trigger] groups[j]).outranks(groups[k]),
    decreases m,
{
    if m == 1 {
        0
    } else {
        let p = lemma_best_of(groups, m - 1);
        if groups[m - 1].outranks(groups[p]) {
            assert forall|j: int| 0 <= j < m implies !(#[trigger] groups[j]).outranks(
                groups[m - 1],
            ) by {
                if j < m - 1 && groups[j].outranks(groups[m - 1]) {
                    GroupView::lemma_order_transitive(groups[j], groups[m - 1], groups[p]);
                }
            }
            m - 1
        } else {
            p
        }
    }
}

/// A test result keeps the partition: the groups still cut `0..n` into
/// consecutive ranges, and what is known to show the behavior is still a
/// single object.
pub proof fn lemma_resolve_keeps_partition(groups: Seq<GroupView>, n: int, k: int, dominant: bool)
    requires
        is_partition(groups, n),
        culprits_are_leaves(groups),
        0 <= k < groups.len(),
        groups[k].behavior == Behavior::Unknown,
    ensures
        is_partition(resolve(groups, k, dominant), n),
        culprits_are_leaves(resolve(groups, k, dominant)),
{
    let g = groups[k];
    let v = verdict(g, dominant);
    let after = resolve(groups, k, dominant);
    let d = v.len() - 1;
    assert(g.wf());
    assert(v[0].from == g.from && v.last().to == g.to);
    assert(forall|i: int| 0 <= i < v.len() ==> (#[trigger] v[i]).wf());
    assert(after.len() == groups.len() + d);
    assert forall|i: int| 0 <= i < after.len() implies (#[trigger] after[i]).wf() by {
        if i < k {
            assert(after[i] == groups[i]);
        } else if i < k + v.len() {
            assert(after[i] == v[i - k]);
        } else {
            assert(after[i] == groups[i - d]);
        }
    }
    assert forall|i: int| 0 <= i < after.len() - 1 implies (#[trigger] after[i + 1]).from
        == after[i].to + 1 by {
        if i + 1 < k {
            assert(after[i] == groups[i] && after[i + 1] == groups[i + 1]);
        } else if i + 1 == k {
            assert(after[i] == groups[i] && after[i + 1] == v[0]);
            assert(groups[i + 1].from == groups[i].to + 1);
        } else if i + 1 < k + v.len() {
            assert(after[i] == v[0] && after[i + 1] == v[1]);
        } else if i + 1 == k + v.len() {
            assert(after[i] == v.last() && after[i + 1] == groups[k + 1]);
            assert(groups[k + 1].from == groups[k].to + 1);
        } else {
            assert(after[i] == groups[i - d] && after[i + 1] == groups[i - d + 1]);
            assert(groups[(i - d) + 1].from == groups[i - d].to + 1);
        }
    }
    assert(after[0].from == 0) by {
        if k == 0 {
            assert(after[0] == v[0]);
        } else {
            assert(after[0] == groups[0]);
        }
    }
    assert(after.last().to == n - 1) by {
        if k == groups.len() - 1 {
            assert(after.last() == v.last());
        } else {
            assert(after.last() == groups.last());
        }
    }
    assert forall|i: int|
        0 <= i < after.len() && (#[trigger] after[i]).behavior
            == Behavior::Dominant implies after[i].size() == 1 by {
        if i < k {
            assert(after[i] == groups[i]);
        } else if i < k + v.len() {
            assert(after[i] == v[i - k]);
        } else {
            assert(after[i] == groups[i - d]);
        }
    }
}

/// A test result takes work away: what is left to do after it is less
/// than before.
pub proof fn lemma_resolve_decreases_work(groups: Seq<GroupView>, k: int, dominant: bool)
    requires
        0 <= k < groups.len(),
        groups[k].wf(),
        groups[k].behavior == Behavior::Unknown,
    ensures
        pending_work(resolve(groups, k, dominant)) < pending_work(groups),
{
    let g = groups[k];
    let v = verdict(g, dominant);
    lemma_cut_at(groups, k);
    lemma_work_concat(groups.take(k) + seq![g], groups.skip(k + 1));
    lemma_work_concat(groups.take(k), seq![g]);
    lemma_work_concat(groups.take(k) + v, groups.skip(k + 1));
    lemma_work_concat(groups.take(k), v);
    lemma_work_of_one(g);
    if v.len() == 1 {
        lemma_work_of_one(v[0]);
        assert(v =~= seq![v[0]]);
    } else {
        lemma_work_of_one(g.lower());
        lemma_work_of_one(g.upper());
        lemma_work_concat(seq![g.lower()], seq![g.upper()]);
        assert(v =~= seq![g.lower()] + seq![g.upper()]);
    }
}

proof fn lemma_work_of_one(g: GroupView)
    ensures
        pending_work(seq![g]) == work_of(g),
{
    assert(seq![g].drop_last() =~= Seq::<GroupView>::empty());
    assert(pending_work(seq![g].drop_last()) == 0);
}

/// Whether `groups` cuts the indices `0..n` into consecutive ranges and
/// names single objects only as culprits.
pub(crate) fn is_sound(groups: &Vec<Group>, n: usize) -> (r: bool)
    ensures
        r == (is_partition(views_of(groups@), n as int) && culprits_are_leaves(
            views_of(groups@),
        )),
{
    let ghost views = views_of(groups@);
    let count: usize = groups.len();
    if count == 0 || n == 0 {
        proof {
            if count > 0 && is_partition(views, n as int) {
                lemma_partition_bounds(views, n as int, 0);
            }
        }
        return false;
    }
    if groups[0].from() != 0 || groups[count - 1].to() != n - 1 {
        return false;
    }
    let mut i: usize = 0;
    while i < count
        invariant
            i <= count,
            count == groups@.len(),
            views == views_of(groups@),
            forall|j: int| 0 <= j < i ==> (#[trigger] views[j]).wf(),
            forall|j: int|
                0 <= j < i && j < count - 1 ==> (#[trigger] views[j + 1]).from == views[j].to + 1,
            forall|j: int|
                0 <= j < i && (#[trigger] views[j]).behavior == Behavior::Dominant
                    ==> views[j].size() == 1,
        decreases count - i,
    {
        let g: Group = groups[i];
        proof {
            use_type_invariant(&g);
            assert(views[i as int] == g@);
        }
        if i + 1 < count {
            let next: Group = groups[i + 1];
            proof {
                use_type_invariant(&next);
            }
            if g.to() == usize::MAX || next.from() != g.to() + 1 {
                proof {
                    assert(views[i + 1] == next@);
                    assert(views[i + 1].from != views[i as int].to + 1);
                }
                return false;
            }
            proof {
                assert(views[i + 1] == next@);
            }
        }
        match g.behavior() {
            Behavior::Dominant => {
                if g.size() != 1 {
                    return false;
                }
            },
            _ => {},
        }
        i = i + 1;
    }
    true
}

/// The place of the group to test next among `groups`, if any group is
/// left to test.
pub(crate) fn front_index(groups: &Vec<Group>) -> (r: Option<usize>)
    ensures
        r is None <==> finished(views_of(groups@)),
        r matches Some(k) ==> k < groups@.len() && is_front(
            views_of(groups@),
            groups@[k as int]@,
        ),
{
    let ghost views = views_of(groups@);
    if groups.len() == 0 {
        return None;
    }
    let mut best: usize = 0;
    let mut i: usize = 1;
    while i < groups.len()
        invariant
            views == views_of(groups@),
            1 <= i <= groups@.len(),
            best < i,
            forall|j: int| 0 <= j < i ==> !(#[trigger] views[j]).outranks(views[best as int]),
        decreases groups@.len() - i,
    {
        if groups[i].outranks(&groups[best]) {
            proof {
                assert forall|j: int| 0 <= j <= i implies !(#[trigger] views[j]).outranks(
                    views[i as int],
                ) by {
                    if j < i && views[j].outranks(views[i as int]) {
                        GroupView::lemma_order_transitive(
                            views[j],
                            views[i as int],
                            views[best as int],
                        );
                    }
                }
            }
            best = i;
        }
        i = i + 1;
    }
    match groups[best].behavior() {
        Behavior::Unknown => {
            proof {
                assert(views[best as int] == groups@[best as int]@);
                assert(views.contains(views[best as int]));
            }
            Some(best)
        },
        _ => {
            proof {
                assert forall|j: int| 0 <= j < views.len() implies (#[trigger] views[j]).behavior
                    != Behavior::Unknown by {
                    assert(!views[j].outranks(views[best as int]));
                }
            }
            None
        },
    }
}

/// The place of `group` among `groups`, if it is one of them and waits for
/// its test.
pub(crate) fn find_pending(groups: &Vec<Group>, group: &Group) -> (r: Option<usize>)
    ensures
        r is None <==> !is_pending(views_of(groups@), group@),
        r matches Some(k) ==> k < groups@.len() && groups@[k as int] == *group,
{
    let ghost views = views_of(groups@);
    match group.behavior() {
        Behavior::Unknown => {},
        _ => {
            return None;
        },
    }
    let mut i: usize = 0;
    while i < groups.len()
        invariant
            views == views_of(groups@),
            i <= groups@.len(),
            group@.behavior == Behavior::Unknown,
            forall|j: int| 0 <= j < i ==> (#[trigger] views[j]) != group@,
        decreases groups@.len() - i,
    {
        if groups[i] == *group {
            proof {
                assert(views[i as int] == group@);
                assert(views.contains(group@));
            }
            return Some(i);
        }
        proof {
            Group::lemma_view_injective(groups@[i as int], *group);
        }
        i = i + 1;
    }
    None
}

/// The groups with the verdict of a test in the place of the `k`-th one.
pub(crate) fn resolved(groups: &Vec<Group>, k: usize, dominant: bool) -> (r: Vec<Group>)
    requires
        k < groups@.len(),
    ensures
        views_of(r@) == resolve(views_of(groups@), k as int, dominant),
{
    let ghost before = views_of(groups@);
    let n: usize = groups.len();
    let tested: Group = groups[k];
    proof {
        use_type_invariant(&tested);
    }
    let mut out: Vec<Group> = Vec::new();
    let mut i: usize = 0;
    while i < k
        invariant
            i <= k < n,
            n == groups@.len(),
            out@ == groups@.take(i as int),
        decreases k - i,
    {
        out.push(groups[i]);
        assert(out@ =~= groups@.take(i + 1));
        i = i + 1;
    }
    if !dominant {
        let mut settled: Group = tested;
        settled.set_behavior(Behavior::Recessive);
        out.push(settled);
    } else {
        match tested.split() {
            Err(_) => {
                let mut settled: Group = tested;
                settled.set_behavior(Behavior::Dominant);
                out.push(settled);
            },
            Ok((lower, upper)) => {
                out.push(lower);
                out.push(upper);
            },
        }
    }
    let ghost middle = out@;
    assert(views_of(middle) =~= before.take(k as int) + verdict(before[k as int], dominant));
    i = k + 1;
    while i < n
        invariant
            k < i <= n,
            n == groups@.len(),
            out@ == middle + groups@.subrange(k + 1, i as int),
        decreases n - i,
    {
        out.push(groups[i]);
        assert(out@ =~= middle + groups@.subrange(k + 1, i + 1));
        i = i + 1;
    }
    assert(groups@.subrange(k + 1, n as int) =~= groups@.skip(k + 1));
    assert(views_of(out@) =~= resolve(before, k as int, dominant));
    out
}

/// How many of `groups` wait for their test.
pub(crate) fn count_pending(groups: &Vec<Group>) -> (r: usize)
    ensures
        r == pending_count(views_of(groups@)),
{
    let ghost views = views_of(groups@);
    let mut count: usize = 0;
    let mut i: usize = 0;
    assert(views.take(0) =~= Seq::<GroupView>::empty());
    while i < groups.len()
        invariant
            views == views_of(groups@),
            i <= groups@.len(),
            count <= i,
            count == pending_count(views.take(i as int)),
        decreases groups@.len() - i,
    {
        proof {
            assert(views.take(i + 1).drop_last() =~= views.take(i as int));
            assert(views.take(i + 1).last() == groups@[i as int]@);
        }
        match groups[i].behavior() {
            Behavior::Unknown => {
                count = count + 1;
            },
            _ => {},
        }
        i = i + 1;
    }
    assert(views.take(groups@.len() as int) =~= views);
    count
}

/// The first index of each group known to show the behavior, ascending.
pub(crate) fn collect_culprits(groups: &Vec<Group>) -> (r: Vec<usize>)
    ensures
        as_ints(r@) == culprits(views_of(groups@)),
{
    let ghost views = views_of(groups@);
    let mut out: Vec<usize> = Vec::new();
    let mut i: usize = 0;
    assert(views.take(0) =~= Seq::<GroupView>::empty());
    assert(as_ints(out@) =~= Seq::<int>::empty());
    while i < groups.len()
        invariant
            views == views_of(groups@),
            i <= groups@.len(),
            as_ints(out@) == culprits(views.take(i as int)),
        decreases groups@.len() - i,
    {
        proof {
            assert(views.take(i + 1).drop_last() =~= views.take(i as int));
            assert(views.take(i + 1).last() == groups@[i as int]@);
        }
        let ghost before = out@;
        match groups[i].behavior() {
            Behavior::Dominant => {
                out.push(groups[i].from());
                assert(as_ints(out@) =~= as_ints(before).push(groups@[i as int]@.from));
            },
            _ => {},
        }
        i = i + 1;
    }
    assert(views.take(groups@.len() as int) =~= views);
    out
}

} // verus!
