//! What a search arrives at, stated without the search.
//!
//! The objects that cause the behavior are the culprits. A test shows the
//! behavior exactly when at least one enabled object is a culprit: culprits
//! act independently of each other, and there may be any number of them.
//! Under such a test the groups that a search ends with, and the number of
//! tests that it runs, depend on the culprits alone.

use vstd::prelude::*;
use vstd::arithmetic::power2::lemma_pow2_unfold;
use vstd::arithmetic::power2::lemma_pow2_pos;
use vstd::arithmetic::power2::pow2;
use crate::behavior::Behavior;
use crate::group::GroupView;
use crate::partition::culprits;
use crate::partition::culprits_are_leaves;
use crate::partition::finished;
use crate::partition::is_front;
use crate::partition::is_partition;
use crate::partition::lemma_count_concat;
use crate::partition::lemma_culprits_concat;
use crate::partition::lemma_cut_at;
use crate::partition::lemma_front_exists;
use crate::partition::lemma_resolve_decreases_work;
use crate::partition::lemma_resolve_keeps_partition;
use crate::partition::pending_count;
use crate::partition::pending_work;
use crate::partition::resolve;
use crate::partition::verdict;
use crate::partition::whole;

verus! {

/// Whether a test of the group `g` shows the behavior: whether one of its
/// objects is a culprit.
pub open spec fn hits(g: GroupView, culprit: Set<int>) -> bool {
    exists|i: int| g.contains(i) && culprit.contains(i)
}

/// The groups that the search cuts the group `g` into before it is done
/// with it: `g` itself where it holds no culprit or is a single object, and
/// else what its two halves are cut into.
pub open spec fn settle(g: GroupView, culprit: Set<int>) -> Seq<GroupView>
    decreases g.size(),
{
    if !hits(g, culprit) {
        seq![g.with_behavior(Behavior::Recessive)]
    } else if g.size() <= 1 {
        seq![g.with_behavior(Behavior::Dominant)]
    } else {
        settle(g.lower(), culprit) + settle(g.upper(), culprit)
    }
}

/// What a sequence of groups comes to once every untested group among
/// them is settled.
pub open spec fn settle_all(groups: Seq<GroupView>, culprit: Set<int>) -> Seq<GroupView>
    decreases groups.len(),
{
    if groups.len() == 0 {
        Seq::<GroupView>::empty()
    } else if groups.last().behavior == Behavior::Unknown {
        settle_all(groups.drop_last(), culprit) + settle(groups.last(), culprit)
    } else {
        settle_all(groups.drop_last(), culprit).push(groups.last())
    }
}

/// The place of the group to test next, if one is left.
pub open spec fn front_place(groups: Seq<GroupView>) -> int {
    choose|k: int| 0 <= k < groups.len() && is_front(groups, #[trigger] groups[k])
}

/// The search itself: as long as a group is left to test, the one to test
/// next is tested, and the verdict takes its place.
pub open spec fn search(groups: Seq<GroupView>, n: int, culprit: Set<int>) -> Seq<GroupView>
    decreases pending_work(groups),
{
    if finished(groups) || !is_partition(groups, n) || !culprits_are_leaves(groups) {
        groups
    } else {
        let k = front_place(groups);
        proof {
            lemma_front_exists(groups);
            lemma_resolve_decreases_work(groups, k, hits(groups[k], culprit));
        }
        search(resolve(groups, k, hits(groups[k], culprit)), n, culprit)
    }
}

/// The number of tests that the search runs.
pub open spec fn tests_of(groups: Seq<GroupView>, n: int, culprit: Set<int>) -> nat
    decreases pending_work(groups),
{
    if finished(groups) || !is_partition(groups, n) || !culprits_are_leaves(groups) {
        0
    } else {
        let k = front_place(groups);
        proof {
            lemma_front_exists(groups);
            lemma_resolve_decreases_work(groups, k, hits(groups[k], culprit));
        }
        1 + tests_of(resolve(groups, k, hits(groups[k], culprit)), n, culprit)
    }
}

/// Settling two runs of groups, one behind the other, settles each.
pub proof fn lemma_settle_all_concat(a: Seq<GroupView>, b: Seq<GroupView>, culprit: Set<int>)
    ensures
        settle_all(a + b, culprit) == settle_all(a, culprit) + settle_all(b, culprit),
    decreases b.len(),
{
    if b.len() == 0 {
        assert(a + b =~= a);
        assert(settle_all(a, culprit) + settle_all(b, culprit) =~= settle_all(a, culprit));
    } else {
        lemma_settle_all_concat(a, b.drop_last(), culprit);
        assert((a + b).drop_last() =~= a + b.drop_last());
        assert((a + b).last() == b.last());
        assert(settle_all(a + b, culprit) =~= settle_all(a, culprit) + settle_all(b, culprit));
    }
}

/// Where no group is left to test, nothing is left to settle.
pub proof fn lemma_settle_all_finished(groups: Seq<GroupView>, culprit: Set<int>)
    requires
        finished(groups),
    ensures
        settle_all(groups, culprit) == groups,
    decreases groups.len(),
{
    if groups.len() > 0 {
        assert(groups.last().behavior != Behavior::Unknown);
        assert forall|i: int| 0 <= i < groups.drop_last().len() implies (
        #[trigger] groups.drop_last()[i]).behavior != Behavior::Unknown by {
            assert(groups.drop_last()[i] == groups[i]);
        }
        lemma_settle_all_finished(groups.drop_last(), culprit);
        assert(groups.drop_last().push(groups.last()) =~= groups);
    } else {
        assert(groups =~= Seq::<GroupView>::empty());
    }
}

/// One group alone settles as `settle` says, and a settled one stays.
pub proof fn lemma_settle_all_one(g: GroupView, culprit: Set<int>)
    ensures
        g.behavior == Behavior::Unknown ==> settle_all(seq![g], culprit) == settle(g, culprit),
        g.behavior != Behavior::Unknown ==> settle_all(seq![g], culprit) == seq![g],
{
    assert(seq![g].drop_last() =~= Seq::<GroupView>::empty());
    assert(settle_all(seq![g].drop_last(), culprit) =~= Seq::<GroupView>::empty());
    assert(Seq::<GroupView>::empty() + settle(g, culprit) =~= settle(g, culprit));
    assert(Seq::<GroupView>::empty().push(g) =~= seq![g]);
}

/// A test that shows the behavior exactly when a culprit is enabled does
/// not change what the groups come to in the end.
pub proof fn lemma_resolve_keeps_outcome(groups: Seq<GroupView>, k: int, culprit: Set<int>)
    requires
        0 <= k < groups.len(),
        groups[k].wf(),
        groups[k].behavior == Behavior::Unknown,
    ensures
        settle_all(resolve(groups, k, hits(groups[k], culprit)), culprit) == settle_all(
            groups,
            culprit,
        ),
{
    let g = groups[k];
    let v = verdict(g, hits(g, culprit));
    let left = groups.take(k);
    let right = groups.skip(k + 1);
    lemma_cut_at(groups, k);
    lemma_settle_all_concat(left + seq![g], right, culprit);
    lemma_settle_all_concat(left, seq![g], culprit);
    lemma_settle_all_concat(left + v, right, culprit);
    lemma_settle_all_concat(left, v, culprit);
    lemma_settle_all_one(g, culprit);
    if v.len() == 1 {
        assert(v =~= seq![v[0]]);
        lemma_settle_all_one(v[0], culprit);
    } else {
        assert(v =~= seq![g.lower()] + seq![g.upper()]);
        lemma_settle_all_concat(seq![g.lower()], seq![g.upper()], culprit);
        lemma_settle_all_one(g.lower(), culprit);
        lemma_settle_all_one(g.upper(), culprit);
    }
}

/// The number of tests that a search has run to arrive at `groups`: each
/// group but the first came of a test that cut a group in two, and each
/// settled group was tested itself.
pub open spec fn tests_done(groups: Seq<GroupView>) -> int {
    2 * groups.len() - 1 - pending_count(groups)
}

/// Each result that is taken counts as one test more.
pub proof fn lemma_resolve_counts(groups: Seq<GroupView>, k: int, dominant: bool)
    requires
        0 <= k < groups.len(),
        groups[k].wf(),
        groups[k].behavior == Behavior::Unknown,
    ensures
        tests_done(resolve(groups, k, dominant)) == tests_done(groups) + 1,
{
    let g = groups[k];
    let v = verdict(g, dominant);
    let left = groups.take(k);
    let right = groups.skip(k + 1);
    lemma_cut_at(groups, k);
    lemma_count_concat(left + seq![g], right);
    lemma_count_concat(left, seq![g]);
    lemma_count_concat(left + v, right);
    lemma_count_concat(left, v);
    lemma_count_one(g);
    if v.len() == 1 {
        assert(v =~= seq![v[0]]);
        lemma_count_one(v[0]);
    } else {
        assert(v =~= seq![g.lower()] + seq![g.upper()]);
        lemma_count_concat(seq![g.lower()], seq![g.upper()]);
        lemma_count_one(g.lower());
        lemma_count_one(g.upper());
    }
}

proof fn lemma_count_one(g: GroupView)
    ensures
        g.behavior == Behavior::Unknown ==> pending_count(seq![g]) == 1,
        g.behavior != Behavior::Unknown ==> pending_count(seq![g]) == 0,
{
    assert(seq![g].drop_last() =~= Seq::<GroupView>::empty());
    assert(pending_count(seq![g].drop_last()) == 0);
}

/// Where no group is left to test, none is counted as untested.
pub proof fn lemma_count_finished(groups: Seq<GroupView>)
    requires
        finished(groups),
    ensures
        pending_count(groups) == 0,
    decreases groups.len(),
{
    if groups.len() > 0 {
        assert(groups.last().behavior != Behavior::Unknown);
        assert forall|i: int| 0 <= i < groups.drop_last().len() implies (
        #[trigger] groups.drop_last()[i]).behavior != Behavior::Unknown by {
            assert(groups.drop_last()[i] == groups[i]);
        }
        lemma_count_finished(groups.drop_last());
    }
}

/// Under a test that shows the behavior exactly when a culprit is enabled,
/// the search ends with the groups that `settle_all` names, after one test
/// for each group that was untested at some time.
pub proof fn lemma_search_settles(groups: Seq<GroupView>, n: int, culprit: Set<int>)
    requires
        is_partition(groups, n),
        culprits_are_leaves(groups),
    ensures
        search(groups, n, culprit) == settle_all(groups, culprit),
        finished(search(groups, n, culprit)),
        is_partition(search(groups, n, culprit), n),
        culprits_are_leaves(search(groups, n, culprit)),
        tests_of(groups, n, culprit) == tests_done(search(groups, n, culprit)) - tests_done(
            groups,
        ),
        tests_of(groups, n, culprit) <= pending_work(groups),
    decreases pending_work(groups),
{
    if finished(groups) {
        lemma_settle_all_finished(groups, culprit);
        lemma_count_finished(groups);
    } else {
        let k = front_place(groups);
        lemma_front_exists(groups);
        let dominant = hits(groups[k], culprit);
        let next = resolve(groups, k, dominant);
        assert(groups[k].wf());
        lemma_resolve_decreases_work(groups, k, dominant);
        lemma_resolve_keeps_partition(groups, n, k, dominant);
        lemma_resolve_keeps_outcome(groups, k, culprit);
        lemma_resolve_counts(groups, k, dominant);
        lemma_search_settles(next, n, culprit);
    }
}

/// A search over `n` objects, from its start: it ends with the groups that
/// `settle` cuts all the objects into, after twice as many tests as there
/// are groups in the end, less one.
pub proof fn lemma_search_from_start(n: int, culprit: Set<int>)
    requires
        n >= 1,
    ensures
        search(seq![whole(n)], n, culprit) == settle(whole(n), culprit),
        settle_all(seq![whole(n)], culprit) == settle(whole(n), culprit),
        tests_of(seq![whole(n)], n, culprit) == 2 * settle(whole(n), culprit).len() - 1,
        tests_of(seq![whole(n)], n, culprit) == tests_done(settle(whole(n), culprit)),
{
    let root = whole(n);
    lemma_search_settles(seq![root], n, culprit);
    lemma_settle_all_one(root, culprit);
    lemma_count_one(root);
    lemma_count_finished(search(seq![root], n, culprit));
}

/// The culprits among the indices `from..=to`, ascending.
pub open spec fn culprits_within(from: int, to: int, culprit: Set<int>) -> Seq<int>
    decreases to - from + 1,
{
    if to < from {
        Seq::<int>::empty()
    } else if culprit.contains(to) {
        culprits_within(from, to - 1, culprit).push(to)
    } else {
        culprits_within(from, to - 1, culprit)
    }
}

/// `culprits_within` holds the culprits among `from..=to`, and nothing
/// else.
pub proof fn lemma_culprits_within_holds(from: int, to: int, culprit: Set<int>, i: int)
    ensures
        culprits_within(from, to, culprit).contains(i) <==> from <= i <= to && culprit.contains(
            i,
        ),
    decreases to - from + 1,
{
    let all = culprits_within(from, to, culprit);
    if to < from {
        assert(all.len() == 0);
    } else {
        let before = culprits_within(from, to - 1, culprit);
        lemma_culprits_within_holds(from, to - 1, culprit, i);
        if culprit.contains(to) {
            assert(all == before.push(to));
            assert(all[before.len() as int] == to);
            if all.contains(i) {
                let at = choose|at: int| 0 <= at < all.len() && all[at] == i;
                if at < before.len() {
                    assert(before[at] == i);
                    assert(before.contains(i));
                }
            }
            if before.contains(i) {
                let at = choose|at: int| 0 <= at < before.len() && before[at] == i;
                assert(all[at] == i);
            }
        }
    }
}

/// `culprits_within` is ascending: it holds each culprit once, the smaller
/// before the larger.
pub proof fn lemma_culprits_within_ascending(
    from: int,
    to: int,
    culprit: Set<int>,
    a: int,
    b: int,
)
    requires
        0 <= a < b < culprits_within(from, to, culprit).len(),
    ensures
        culprits_within(from, to, culprit)[a] < culprits_within(from, to, culprit)[b],
    decreases to - from + 1,
{
    let all = culprits_within(from, to, culprit);
    if to < from {
    } else {
        let before = culprits_within(from, to - 1, culprit);
        if culprit.contains(to) {
            assert(all == before.push(to));
            if b < before.len() {
                lemma_culprits_within_ascending(from, to - 1, culprit, a, b);
            } else {
                assert(before.contains(before[a]));
                lemma_culprits_within_holds(from, to - 1, culprit, before[a]);
            }
        } else {
            lemma_culprits_within_ascending(from, to - 1, culprit, a, b);
        }
    }
}

/// The culprits of a range are those of its lower part followed by those
/// of its upper part, wherever it is cut.
pub proof fn lemma_culprits_within_cut(from: int, mid: int, to: int, culprit: Set<int>)
    requires
        from - 1 <= mid <= to,
    ensures
        culprits_within(from, to, culprit) == culprits_within(from, mid, culprit)
            + culprits_within(mid + 1, to, culprit),
    decreases to - mid,
{
    let lower = culprits_within(from, mid, culprit);
    if mid == to {
        assert(culprits_within(mid + 1, to, culprit) =~= Seq::<int>::empty());
        assert(lower + Seq::<int>::empty() =~= lower);
    } else {
        lemma_culprits_within_cut(from, mid, to - 1, culprit);
        let upper = culprits_within(mid + 1, to - 1, culprit);
        if culprit.contains(to) {
            assert((lower + upper).push(to) =~= lower + upper.push(to));
        }
    }
}

/// A range without a culprit has no culprits.
pub proof fn lemma_culprits_within_none(from: int, to: int, culprit: Set<int>)
    requires
        forall|i: int| from <= i <= to ==> !culprit.contains(i),
    ensures
        culprits_within(from, to, culprit) == Seq::<int>::empty(),
    decreases to - from + 1,
{
    if from <= to {
        lemma_culprits_within_none(from, to - 1, culprit);
    }
}

/// What `settle` makes of a group cuts that group into consecutive
/// ranges, none of which is left to test. A range classified as harmless
/// holds no culprit, and one classified as showing the behavior is a
/// single object, which is a culprit.
pub proof fn lemma_settle_sound(g: GroupView, culprit: Set<int>)
    requires
        g.wf(),
    ensures
        settle(g, culprit).len() >= 1,
        settle(g, culprit).len() <= g.size(),
        settle(g, culprit)[0].from == g.from,
        settle(g, culprit).last().to == g.to,
        forall|i: int|
            0 <= i < settle(g, culprit).len() ==> (#[trigger] settle(g, culprit)[i]).wf(),
        forall|i: int|
            0 <= i < settle(g, culprit).len() - 1 ==> (#[trigger] settle(g, culprit)[i + 1]).from
                == settle(g, culprit)[i].to + 1,
        forall|i: int|
            0 <= i < settle(g, culprit).len() ==> (#[trigger] settle(g, culprit)[i]).behavior
                != Behavior::Unknown,
        forall|i: int|
            0 <= i < settle(g, culprit).len() && (#[trigger] settle(g, culprit)[i]).behavior
                == Behavior::Recessive ==> !hits(settle(g, culprit)[i], culprit),
        forall|i: int|
            0 <= i < settle(g, culprit).len() && (#[trigger] settle(g, culprit)[i]).behavior
                == Behavior::Dominant ==> settle(g, culprit)[i].size() == 1 && culprit.contains(
                settle(g, culprit)[i].from,
            ),
    decreases g.size(),
{
    let out = settle(g, culprit);
    if !hits(g, culprit) {
        assert(hits(g.with_behavior(Behavior::Recessive), culprit) == hits(g, culprit));
    } else if g.size() <= 1 {
        let c = choose|i: int| g.contains(i) && culprit.contains(i);
        assert(c == g.from);
    } else {
        let a = settle(g.lower(), culprit);
        let b = settle(g.upper(), culprit);
        lemma_settle_sound(g.lower(), culprit);
        lemma_settle_sound(g.upper(), culprit);
        assert(out == a + b);
        assert(out[0] == a[0]);
        assert(out.last() == b.last());
        assert forall|i: int| 0 <= i < out.len() implies {
            &&& (#[trigger] out[i]).wf()
            &&& out[i].behavior != Behavior::Unknown
            &&& out[i].behavior == Behavior::Recessive ==> !hits(out[i], culprit)
            &&& out[i].behavior == Behavior::Dominant ==> out[i].size() == 1 && culprit.contains(
                out[i].from,
            )
        } by {
            if i < a.len() {
                assert(out[i] == a[i]);
            } else {
                assert(out[i] == b[i - a.len()]);
            }
        }
        assert forall|i: int| 0 <= i < out.len() - 1 implies (#[trigger] out[i + 1]).from
            == out[i].to + 1 by {
            if i + 1 < a.len() {
                assert(out[i] == a[i] && out[i + 1] == a[i + 1]);
            } else if i + 1 == a.len() {
                assert(out[i] == a.last() && out[i + 1] == b[0]);
            } else {
                assert(out[i] == b[i - a.len()] && out[i + 1] == b[i - a.len() + 1]);
            }
        }
    }
}

/// The culprits that a search confirms in a group are the culprits among
/// its indices: all of them, and no other index.
pub proof fn lemma_settle_culprits(g: GroupView, culprit: Set<int>)
    requires
        g.wf(),
    ensures
        culprits(settle(g, culprit)) == culprits_within(g.from, g.to, culprit),
    decreases g.size(),
{
    if !hits(g, culprit) {
        assert forall|i: int| g.from <= i <= g.to implies !culprit.contains(i) by {
            assert(g.contains(i));
        }
        lemma_culprits_within_none(g.from, g.to, culprit);
        lemma_culprits_one(g.with_behavior(Behavior::Recessive));
    } else if g.size() <= 1 {
        let c = choose|i: int| g.contains(i) && culprit.contains(i);
        assert(c == g.from);
        lemma_culprits_one(g.with_behavior(Behavior::Dominant));
        assert(culprits_within(g.from, g.to - 1, culprit) =~= Seq::<int>::empty());
        assert(culprits_within(g.from, g.to, culprit) =~= seq![g.from]);
    } else {
        lemma_settle_culprits(g.lower(), culprit);
        lemma_settle_culprits(g.upper(), culprit);
        lemma_culprits_concat(settle(g.lower(), culprit), settle(g.upper(), culprit));
        lemma_culprits_within_cut(g.from, g.mid(), g.to, culprit);
    }
}

proof fn lemma_culprits_one(g: GroupView)
    ensures
        g.behavior == Behavior::Dominant ==> culprits(seq![g]) == seq![g.from],
        g.behavior != Behavior::Dominant ==> culprits(seq![g]) == Seq::<int>::empty(),
{
    assert(seq![g].drop_last() =~= Seq::<GroupView>::empty());
    assert(culprits(seq![g].drop_last()) =~= Seq::<int>::empty());
    assert(Seq::<int>::empty().push(g.from) =~= seq![g.from]);
}

/// A group without a culprit is settled by its own test: it stays whole
/// and is classified as harmless.
pub proof fn lemma_settle_harmless(g: GroupView, culprit: Set<int>)
    requires
        forall|i: int| g.contains(i) ==> !culprit.contains(i),
    ensures
        settle(g, culprit) == seq![g.with_behavior(Behavior::Recessive)],
        culprits(settle(g, culprit)) == Seq::<int>::empty(),
{
    lemma_culprits_one(g.with_behavior(Behavior::Recessive));
}

/// A group of `2^k` objects with one culprit `c` among them is cut into
/// `k + 1` groups: on each of `k` levels the half without the culprit is
/// settled, and in the end the culprit itself.
pub proof fn lemma_settle_single(g: GroupView, culprit: Set<int>, c: int, k: nat)
    requires
        g.wf(),
        g.size() == pow2(k),
        g.contains(c),
        culprit.contains(c),
        forall|i: int| g.contains(i) && culprit.contains(i) ==> i == c,
    ensures
        settle(g, culprit).len() == k + 1,
        culprits(settle(g, culprit)) == seq![c],
    decreases k,
{
    lemma_settle_culprits(g, culprit);
    let found = culprits_within(g.from, g.to, culprit);
    lemma_culprits_within_holds(g.from, g.to, culprit, c);
    assert(found.len() == 1) by {
        if found.len() > 1 {
            assert(found.contains(found[0]));
            assert(found.contains(found[1]));
            lemma_culprits_within_holds(g.from, g.to, culprit, found[0]);
            lemma_culprits_within_holds(g.from, g.to, culprit, found[1]);
            lemma_culprits_within_ascending(g.from, g.to, culprit, 0, 1);
        }
    }
    assert(found.contains(found[0]));
    lemma_culprits_within_holds(g.from, g.to, culprit, found[0]);
    assert(found =~= seq![c]);
    assert(hits(g, culprit));
    if k == 0 {
        assert(pow2(0) == 1) by {
            lemma_pow2_unfold(1);
            lemma_pow2_pos(0);
            reveal(pow2);
            vstd::arithmetic::power::lemma_pow0(2);
        }
    } else {
        let half: nat = (k - 1) as nat;
        lemma_pow2_unfold(k);
        lemma_pow2_pos(half);
        assert(g.size() == 2 * pow2(half));
        assert(g.lower().size() == pow2(half));
        assert(g.upper().size() == pow2(half));
        if g.lower().contains(c) {
            lemma_settle_single(g.lower(), culprit, c, half);
            lemma_settle_harmless(g.upper(), culprit);
        } else {
            assert(g.upper().contains(c));
            lemma_settle_single(g.upper(), culprit, c, half);
            lemma_settle_harmless(g.lower(), culprit);
        }
    }
}

/// A search over objects none of which is a culprit is over after one
/// test: the group of all the objects is settled as harmless, and no
/// culprit is reported.
pub proof fn lemma_search_without_culprit(n: int, culprit: Set<int>)
    requires
        n >= 1,
        forall|i: int| 0 <= i < n ==> !culprit.contains(i),
    ensures
        search(seq![whole(n)], n, culprit) == seq![whole(n).with_behavior(Behavior::Recessive)],
        settle(whole(n), culprit) == seq![whole(n).with_behavior(Behavior::Recessive)],
        culprits(search(seq![whole(n)], n, culprit)) == Seq::<int>::empty(),
        culprits_within(0, n - 1, culprit) == Seq::<int>::empty(),
        tests_of(seq![whole(n)], n, culprit) == 1,
{
    lemma_search_from_start(n, culprit);
    lemma_settle_harmless(whole(n), culprit);
    lemma_culprits_within_none(0, n - 1, culprit);
}

/// A search over `2^k` objects of which exactly one, `c`, is a culprit
/// reports `c` and nothing else. It ends with `k + 1` groups after
/// `2k + 1` tests: one of all the objects, and on each of `k` levels one
/// of either half.
pub proof fn lemma_search_single_culprit(k: nat, c: int, culprit: Set<int>)
    requires
        0 <= c < pow2(k),
        culprit.contains(c),
        forall|i: int| 0 <= i < pow2(k) && culprit.contains(i) ==> i == c,
    ensures
        culprits(search(seq![whole(pow2(k) as int)], pow2(k) as int, culprit)) == seq![c],
        culprits_within(0, pow2(k) - 1, culprit) == seq![c],
        search(seq![whole(pow2(k) as int)], pow2(k) as int, culprit).len() == k + 1,
        settle(whole(pow2(k) as int), culprit).len() == k + 1,
        tests_of(seq![whole(pow2(k) as int)], pow2(k) as int, culprit) == 2 * k + 1,
{
    let n = pow2(k) as int;
    lemma_pow2_pos(k);
    lemma_search_from_start(n, culprit);
    lemma_settle_single(whole(n), culprit, c, k);
    lemma_settle_culprits(whole(n), culprit);
}

/// Whatever the culprits are, a search over `n` objects reports exactly
/// the culprits among them, ascending, and runs at most `2n - 1` tests.
pub proof fn lemma_search_finds_culprits(n: int, culprit: Set<int>)
    requires
        n >= 1,
    ensures
        culprits(search(seq![whole(n)], n, culprit)) == culprits_within(0, n - 1, culprit),
        tests_of(seq![whole(n)], n, culprit) <= 2 * n - 1,
{
    lemma_search_from_start(n, culprit);
    lemma_settle_culprits(whole(n), culprit);
    lemma_settle_sound(whole(n), culprit);
}

} // verus!
