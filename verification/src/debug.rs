//! A set of numbers to try the search out on, in memory.
//!
//! Each number is an object, and the zeros among them are the culprits:
//! the test multiplies the enabled numbers and shows the behavior where
//! the product is zero.

use vstd::prelude::*;
use vstd::arithmetic::mul::lemma_mul_nonzero;
use vstd::std_specs::convert::FromSpecImpl;
use crate::behavior::State;
use crate::controller::Bisection;
use crate::error::BisectError;
use crate::group::Group;
use crate::group::GroupView;
use crate::group::as_ints;
use crate::object::Switch;
use crate::object::all_enabled;
use crate::object::isolating;
use crate::object::states_of;
use crate::partition::lemma_partition_len;
use crate::partition::views_of;
use crate::partition::whole;
use crate::runner::TestError;
use crate::runner::TestRunner;
use crate::runner::follows;
use crate::search::culprits_within;
use crate::search::hits;
use crate::search::lemma_count_finished;
use crate::search::lemma_settle_all_finished;
use crate::search::lemma_settle_all_one;
use crate::search::lemma_settle_culprits;
use crate::search::settle;

verus! {

/// A sequence of numbers as mathematical integers.
pub open spec fn values_of(data: Seq<i32>) -> Seq<int> {
    Seq::new(data.len(), |i: int| data[i] as int)
}

/// The places at which `data` holds a zero.
pub open spec fn zeros(data: Seq<int>) -> Set<int> {
    Set::new(|i: int| 0 <= i < data.len() && data[i] == 0)
}

/// Whether the `i`-th number takes part in the product: whether it has a
/// state, and that state is enabled.
pub open spec fn takes_part(states: Seq<State>, i: int) -> bool {
    0 <= i < states.len() && states[i] == State::Enabled
}

/// The product of those of the first `n` numbers that take part.
pub open spec fn product_of(data: Seq<int>, states: Seq<State>, n: int) -> int
    decreases n,
{
    if n <= 0 {
        1
    } else if takes_part(states, n - 1) {
        product_of(data, states, n - 1) * data[n - 1]
    } else {
        product_of(data, states, n - 1)
    }
}

/// The product of the enabled numbers.
pub open spec fn enabled_product(data: Seq<int>, states: Seq<State>) -> int {
    product_of(data, states, data.len() as int)
}

/// A product is zero exactly when one of its factors is: here, when a
/// number that takes part is zero.
pub proof fn lemma_product_zero(data: Seq<int>, states: Seq<State>, n: int)
    requires
        0 <= n <= data.len(),
    ensures
        product_of(data, states, n) == 0 <==> exists|i: int|
            0 <= i < n && takes_part(states, i) && #[trigger] data[i] == 0,
    decreases n,
{
    if n > 0 {
        lemma_product_zero(data, states, n - 1);
        let before = product_of(data, states, n - 1);
        if takes_part(states, n - 1) {
            lemma_mul_nonzero(before, data[n - 1]);
        }
        if before == 0 {
            let i = choose|i: int|
                0 <= i < n - 1 && takes_part(states, i) && #[trigger] data[i] == 0;
            assert(0 <= i < n && takes_part(states, i) && data[i] == 0);
        }
    }
}

/// With exactly the objects of a group enabled, the product is zero
/// exactly when the group holds a zero.
pub proof fn lemma_product_of_group(data: Seq<int>, g: GroupView)
    requires
        0 <= g.from <= g.to < data.len(),
    ensures
        enabled_product(data, isolating(g, data.len())) == 0 <==> hits(g, zeros(data)),
{
    let states = isolating(g, data.len());
    lemma_product_zero(data, states, data.len() as int);
    if enabled_product(data, states) == 0 {
        let i = choose|i: int|
            0 <= i < data.len() && takes_part(states, i) && #[trigger] data[i] == 0;
        assert(g.contains(i) && zeros(data).contains(i));
    }
    if hits(g, zeros(data)) {
        let i = choose|i: int| g.contains(i) && zeros(data).contains(i);
        assert(0 <= i < data.len() && takes_part(states, i) && data[i] == 0);
    }
}

/// Whether the product of the enabled numbers is zero.
fn shows(data: &Vec<i32>, switches: &Vec<Switch>) -> (r: bool)
    ensures
        r == (enabled_product(values_of(data@), states_of(switches@)) == 0),
{
    let ghost values = values_of(data@);
    let ghost states = states_of(switches@);
    let n: usize = data.len();
    let mut i: usize = 0;
    while i < n
        invariant
            i <= n,
            n == data@.len(),
            values == values_of(data@),
            states == states_of(switches@),
            forall|j: int| 0 <= j < i ==> !(takes_part(states, j) && #[trigger] values[j] == 0),
        decreases n - i,
    {
        if i < switches.len() && switches[i].state == State::Enabled && data[i] == 0 {
            proof {
                lemma_product_zero(values, states, n as int);
                assert(0 <= i < n && takes_part(states, i as int) && values[i as int] == 0);
            }
            return true;
        }
        i = i + 1;
    }
    proof {
        lemma_product_zero(values, states, n as int);
    }
    false
}

/// The test of a debug set: it multiplies the numbers whose switches are
/// on, and shows the behavior where the product is zero.
pub struct ProductTest {
    data: Vec<i32>,
}

impl View for ProductTest {
    type V = Seq<int>;

    closed spec fn view(&self) -> Seq<int> {
        values_of(self.data@)
    }
}

impl ProductTest {
    /// The test over the given numbers.
    pub fn new(data: Vec<i32>) -> (r: ProductTest)
        ensures
            r@ == values_of(data@),
    {
        ProductTest { data }
    }
}

impl TestRunner<Switch> for ProductTest {
    open spec fn may_show(&self, states: Seq<State>, dominant: bool) -> bool {
        dominant == (enabled_product(self@, states) == 0)
    }

    open spec fn dependable(&self) -> bool {
        true
    }

    fn run_test(&mut self, objects: &Vec<Switch>) -> (r: Result<bool, TestError>)
        ensures
            *final(self) == *old(self),
    {
        Ok(shows(&self.data, objects))
    }
}

/// The test of a debug set goes by the zeros alone.
pub proof fn lemma_product_test_follows(test: ProductTest)
    ensures
        follows(test, zeros(test@), test@.len()),
{
    assert forall|g: GroupView, dominant: bool|
        0 <= g.from <= g.to < test@.len() && #[trigger] test.may_show(
            isolating(g, test@.len()),
            dominant,
        ) implies dominant == hits(g, zeros(test@)) by {
        lemma_product_of_group(test@, g);
    }
}

/// The states of `n` numbers of which exactly the listed ones are enabled.
pub open spec fn listing(indices: Seq<usize>, n: nat) -> Seq<State> {
    Seq::new(
        n,
        |i: int|
            if as_ints(indices).contains(i) {
                State::Enabled
            } else {
                State::Disabled
            },
    )
}

/// The mathematical model of a debug set.
pub struct DebugView {
    /// The numbers.
    pub data: Seq<int>,
    /// Which of them are enabled.
    pub states: Seq<State>,
}

/// What a search over a debug set found.
pub struct SearchReport {
    /// The indices of the culprits, ascending.
    pub culprits: Vec<usize>,
    /// The groups that the search ended with, ascending.
    pub groups: Vec<Group>,
    /// The number of tests that were run, in a type wide enough for it
    /// whatever the number of objects.
    pub tests: u128,
}

/// A vector of numbers in which the zeros are the culprits. The behavior
/// under test is that the product of the enabled numbers is zero, which it
/// is if and only if one of them is zero.
pub struct DebugBisectable {
    data: Vec<i32>,
    enabled: Vec<Switch>,
}

impl View for DebugBisectable {
    type V = DebugView;

    closed spec fn view(&self) -> DebugView {
        DebugView { data: values_of(self.data@), states: states_of(self.enabled@) }
    }
}

/// No expression of the model names the vector of switches that `from`
/// builds, so what `from` returns is stated on `from` itself.
impl FromSpecImpl<Vec<i32>> for DebugBisectable {
    open spec fn obeys_from_spec() -> bool {
        false
    }

    open spec fn from_spec(value: Vec<i32>) -> DebugBisectable {
        arbitrary()
    }
}

impl From<Vec<i32>> for DebugBisectable {
    /// The debug set of the given numbers, all of them enabled.
    fn from(value: Vec<i32>) -> (r: DebugBisectable)
        ensures
            r@.data == values_of(value@),
            r@.states == all_enabled(value@.len()),
    {
        let n: usize = value.len();
        let mut enabled: Vec<Switch> = Vec::new();
        let mut i: usize = 0;
        while i < n
            invariant
                i <= n,
                enabled@.len() == i,
                forall|j: int| 0 <= j < i ==> (#[trigger] enabled@[j]).state == State::Enabled,
            decreases n - i,
        {
            enabled.push(Switch { state: State::Enabled });
            i = i + 1;
        }
        assert(states_of(enabled@) =~= all_enabled(n as nat));
        DebugBisectable { data: value, enabled }
    }
}

impl DebugBisectable {
    /// There is one switch for each number.
    #[verifier::type_invariant]
    pub open spec fn wf(self) -> bool {
        self@.data.len() == self@.states.len()
    }

    /// How many numbers the set holds.
    pub fn len(&self) -> (n: usize)
        ensures
            n == self@.data.len(),
    {
        self.data.len()
    }

    /// Enables the numbers at the listed indices and disables all the
    /// others. A list that names an index beyond the last number is
    /// refused, and nothing is switched.
    pub fn set_enabled(&mut self, enabled: &[usize]) -> (r: Result<(), BisectError>)
        ensures
            final(self)@.data == old(self)@.data,
            (exists|j: int| 0 <= j < enabled@.len() && enabled@[j] >= old(self)@.data.len())
                ==> r == Err::<(), BisectError>(BisectError::OutOfRange) && final(self)@ == old(
                self)@,
            (forall|j: int| 0 <= j < enabled@.len() ==> enabled@[j] < old(self)@.data.len())
                ==> r.is_ok() && final(self)@.states == listing(enabled@, old(self)@.data.len()),
    {
        proof {
            use_type_invariant(&*self);
        }
        let n: usize = self.data.len();
        let count: usize = enabled.len();
        let mut j: usize = 0;
        while j < count
            invariant
                j <= count,
                count == enabled@.len(),
                n == self.data@.len(),
                *self == *old(self),
                forall|k: int| 0 <= k < j ==> enabled@[k] < n,
            decreases count - j,
        {
            if enabled[j] >= n {
                return Err(BisectError::OutOfRange);
            }
            j = j + 1;
        }
        let mut i: usize = 0;
        while i < n
            invariant
                i <= n,
                n == self.data@.len(),
                n == self.enabled@.len(),
                self.data == old(self).data,
                forall|k: int|
                    0 <= k < i ==> (#[trigger] self.enabled@[k]).state == State::Disabled,
            decreases n - i,
        {
            self.enabled[i] = Switch { state: State::Disabled };
            i = i + 1;
        }
        j = 0;
        while j < count
            invariant
                j <= count,
                count == enabled@.len(),
                n == self.data@.len(),
                n == self.enabled@.len(),
                self.data == old(self).data,
                forall|k: int| 0 <= k < count ==> enabled@[k] < n,
                forall|k: int|
                    0 <= k < n ==> ((#[trigger] self.enabled@[k]).state == State::Enabled
                        <==> as_ints(enabled@.take(j as int)).contains(k)),
            decreases count - j,
        {
            let at: usize = enabled[j];
            self.enabled[at] = Switch { state: State::Enabled };
            proof {
                let before = as_ints(enabled@.take(j as int));
                let after = as_ints(enabled@.take(j + 1));
                assert(after =~= before.push(at as int));
                assert forall|k: int| after.contains(k) <==> before.contains(k) || k == at by {
                    if before.contains(k) {
                        let w = choose|w: int| 0 <= w < before.len() && before[w] == k;
                        assert(after[w] == k);
                    }
                    if k == at {
                        assert(after[j as int] == k);
                    }
                    if after.contains(k) {
                        let w = choose|w: int| 0 <= w < after.len() && after[w] == k;
                        if w < j {
                            assert(before[w] == k);
                        }
                    }
                }
            }
            j = j + 1;
        }
        proof {
            assert(enabled@.take(count as int) =~= enabled@);
            assert(states_of(self.enabled@) =~= listing(enabled@, n as nat));
        }
        Ok(())
    }

    /// Runs the test on the numbers that are enabled now: whether their
    /// product is zero.
    pub fn perform_test(&self) -> (r: bool)
        ensures
            r == (enabled_product(self@.data, self@.states) == 0),
    {
        shows(&self.data, &self.enabled)
    }

    /// Searches the set for its zeros: tests group after group, each
    /// with exactly its numbers enabled, until every group is settled.
    /// An empty set is searched without a test.
    pub fn search(self) -> (r: SearchReport)
        ensures
            as_ints(r.culprits@) == culprits_within(0, self@.data.len() - 1, zeros(self@.data)),
            self@.data.len() == 0 ==> r.groups@.len() == 0 && r.tests == 0,
            self@.data.len() > 0 ==> views_of(r.groups@) == settle(
                whole(self@.data.len() as int),
                zeros(self@.data),
            ) && r.tests == 2 * r.groups@.len() - 1,
    {
        proof {
            use_type_invariant(&self);
        }
        let ghost culprit = zeros(self@.data);
        let ghost n = self@.data.len() as int;
        let DebugBisectable { data, enabled } = self;
        let mut search = match Bisection::new(enabled) {
            Err(_) => {
                let culprits: Vec<usize> = Vec::new();
                assert(as_ints(culprits@) =~= culprits_within(0, -1, culprit));
                return SearchReport { culprits, groups: Vec::new(), tests: 0 };
            },
            Ok(search) => search,
        };
        let mut test = ProductTest::new(data);
        proof {
            lemma_product_test_follows(test);
            lemma_settle_all_one(whole(n), culprit);
        }
        let found = search.run(&mut test);
        proof {
            use_type_invariant(&search);
            lemma_settle_all_finished(search@.groups, culprit);
            lemma_count_finished(search@.groups);
            lemma_settle_culprits(whole(n), culprit);
            lemma_partition_len(search@.groups, n);
        }
        let culprits = found.unwrap();
        let tests = search.tests_run();
        let (_, groups) = search.into_parts();
        SearchReport { culprits, groups, tests }
    }
}

} // verus!
