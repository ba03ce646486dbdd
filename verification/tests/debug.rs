use bisection::behavior::Behavior;
use bisection::debug::DebugBisectable;
use bisection::error::BisectError;
use bisection::group::Group;

fn cut(groups: &Vec<Group>) -> Vec<(usize, usize, Behavior)> {
    groups.iter().map(|g| (g.from(), g.to(), g.behavior())).collect()
}

#[test]
fn debug_set_starts_all_enabled() {
    let set = DebugBisectable::from(vec![3, 0, 5]);
    assert_eq!(set.len(), 3);
    assert!(set.perform_test());
    let harmless = DebugBisectable::from(vec![3, 4, 5]);
    assert!(!harmless.perform_test());
}

#[test]
fn debug_test_of_no_numbers_shows_nothing() {
    let set = DebugBisectable::from(Vec::new());
    assert_eq!(set.len(), 0);
    assert!(!set.perform_test());
}

#[test]
fn debug_test_is_about_zero_not_about_overflow() {
    let set = DebugBisectable::from(vec![65536, 65536, i32::MAX, i32::MIN]);
    assert!(!set.perform_test());
}

#[test]
fn debug_search_finds_every_zero() {
    let values = vec![1, 5, 8, 7, 4, 6, 3, 9, 0, 5, 0, 3, 1, 7, 8, 7, 4, 0, 3];
    let report = DebugBisectable::from(values).search();
    assert_eq!(report.culprits, vec![8, 10, 17]);
    assert_eq!(report.tests, 2 * report.groups.len() as u128 - 1);
    assert!(report.groups.iter().all(|g| g.behavior() != Behavior::Unknown));
}

#[test]
fn debug_search_cuts_as_far_as_needed() {
    let report = DebugBisectable::from(vec![1, 1, 0, 1, 1, 1, 1]).search();
    assert_eq!(report.culprits, vec![2]);
    assert_eq!(
        cut(&report.groups),
        vec![
            (0, 1, Behavior::Recessive),
            (2, 2, Behavior::Dominant),
            (3, 3, Behavior::Recessive),
            (4, 6, Behavior::Recessive),
        ]
    );
    assert_eq!(report.tests, 7);
}

#[test]
fn debug_search_without_a_zero() {
    let report = DebugBisectable::from(vec![4, 2, 7, 9, 1]).search();
    assert_eq!(report.culprits, Vec::<usize>::new());
    assert_eq!(cut(&report.groups), vec![(0, 4, Behavior::Recessive)]);
    assert_eq!(report.tests, 1);
}

#[test]
fn debug_search_of_nothing() {
    let report = DebugBisectable::from(Vec::new()).search();
    assert_eq!(report.culprits, Vec::<usize>::new());
    assert_eq!(report.groups.len(), 0);
    assert_eq!(report.tests, 0);
}

#[test]
fn debug_search_single_zero_in_a_power_of_two() {
    for k in 0..7u32 {
        let n = 1usize << k;
        for at in 0..n {
            let mut values = vec![2; n];
            values[at] = 0;
            let report = DebugBisectable::from(values).search();
            assert_eq!(report.culprits, vec![at]);
            assert_eq!(report.groups.len(), k as usize + 1);
            assert_eq!(report.tests, 2 * k as u128 + 1);
        }
    }
}

#[test]
fn debug_search_all_zeros() {
    let report = DebugBisectable::from(vec![0; 6]).search();
    assert_eq!(report.culprits, vec![0, 1, 2, 3, 4, 5]);
    assert_eq!(report.groups.len(), 6);
    assert_eq!(report.tests, 11);
}

#[test]
fn debug_set_enabled_enables_the_listed_numbers_only() {
    let mut set = DebugBisectable::from(vec![3, 0, 5, 0]);
    assert_eq!(set.set_enabled(&[0, 2]), Ok(()));
    assert!(!set.perform_test());
    assert_eq!(set.set_enabled(&[2, 1, 2]), Ok(()));
    assert!(set.perform_test());
    assert_eq!(set.set_enabled(&[3]), Ok(()));
    assert!(set.perform_test());
    assert_eq!(set.set_enabled(&[]), Ok(()));
    assert!(!set.perform_test());
}

#[test]
fn debug_set_enabled_refuses_an_index_beyond_the_numbers() {
    let mut set = DebugBisectable::from(vec![3, 0, 5]);
    assert_eq!(set.set_enabled(&[0, 2]), Ok(()));
    assert_eq!(set.set_enabled(&[1, 3]), Err(BisectError::OutOfRange));
    assert!(!set.perform_test());
    let mut none = DebugBisectable::from(Vec::new());
    assert_eq!(none.set_enabled(&[0]), Err(BisectError::OutOfRange));
    assert_eq!(none.set_enabled(&[]), Ok(()));
}
