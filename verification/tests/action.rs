use bisection::action::ActionSet;
use bisection::action::Actionable;
use bisection::error::BisectError;
use bisection::group::Group;
use std::ops::ControlFlow;

/// Adds its amount to a total, and takes it off again, one at a time.
struct Add(i64);

impl Actionable<i64> for Add {
    fn apply(&self, base: i64) -> i64 {
        base + self.0
    }

    fn unapply(&self, current: i64) -> ControlFlow<i64, i64> {
        ControlFlow::Continue(current - self.0)
    }
}

#[test]
fn a_value_applied_to_a_vector_is_added_at_its_end() {
    let grown = 7.apply(vec![1, 2]);
    assert_eq!(grown, vec![1, 2, 7]);
    let named = String::from("c").apply(vec![String::from("a")]);
    assert_eq!(named, vec![String::from("a"), String::from("c")]);
}

#[test]
fn a_value_unapplied_from_a_vector_empties_it() {
    assert_eq!(7.unapply(vec![1, 2, 7]), ControlFlow::Break(Vec::new()));
    assert_eq!(9.unapply(vec![1, 2, 7]), ControlFlow::Break(Vec::new()));
}

#[test]
fn action_set_keeps_what_it_is_given() {
    let set = ActionSet::new(vec![10, 20, 30], vec![1]);
    assert_eq!(set.len(), 3);
    assert_eq!(set.current(), &vec![1]);
    assert_eq!(set.into_current(), vec![1]);
}

#[test]
fn apply_group_applies_its_actions_in_order() {
    let set = ActionSet::new(vec![10, 20, 30, 40, 50], Vec::new());
    let set = set.apply_group(&Group::new(1, 3).unwrap()).ok().unwrap();
    assert_eq!(set.current(), &vec![20, 30, 40]);
    let set = set.apply_group(&Group::new(0, 0).unwrap()).ok().unwrap();
    assert_eq!(set.current(), &vec![20, 30, 40, 10]);
    assert_eq!(set.len(), 5);
}

#[test]
fn apply_group_beyond_the_actions_is_refused() {
    let set = ActionSet::new(vec![10, 20, 30], Vec::new());
    let r = set.apply_group(&Group::new(2, 3).unwrap());
    assert!(matches!(r, Err(BisectError::OutOfRange)));
}

#[test]
fn unapply_group_stops_at_an_action_that_undoes_all() {
    let set = ActionSet::new(vec![10, 20, 30], vec![10, 20, 30]);
    let set = set.unapply_group(&Group::new(0, 2).unwrap()).ok().unwrap();
    assert_eq!(set.current(), &Vec::<i32>::new());
}

#[test]
fn unapply_group_undoes_one_at_a_time() {
    let set = ActionSet::new(vec![Add(1), Add(10), Add(100), Add(1000)], 0);
    let set = set.apply_group(&Group::new(0, 3).unwrap()).ok().unwrap();
    assert_eq!(*set.current(), 1111);
    let set = set.unapply_group(&Group::new(1, 2).unwrap()).ok().unwrap();
    assert_eq!(*set.current(), 1001);
    let set = set.unapply_group(&Group::new(3, 3).unwrap()).ok().unwrap();
    assert_eq!(*set.current(), 1);
}

#[test]
fn unapply_group_beyond_the_actions_is_refused() {
    let set = ActionSet::new(vec![Add(1)], 5);
    let r = set.unapply_group(&Group::new(0, 1).unwrap());
    assert!(matches!(r, Err(BisectError::OutOfRange)));
}
