use bisection::behavior::Behavior;
use bisection::behavior::State;
use bisection::controller::Bisection;
use bisection::error::BisectError;
use bisection::group::Group;
use bisection::object::Stateful;
use bisection::object::Switch;
use bisection::object::ToggleError;

/// A number that can be left out of the product; one that is stuck cannot
/// be switched at all.
struct Factor {
    value: i32,
    enabled: bool,
    stuck: bool,
    switched: usize,
}

impl Factor {
    fn new(value: i32) -> Factor {
        Factor { value, enabled: true, stuck: false, switched: 0 }
    }
}

impl Stateful for Factor {
    fn state_spec(&self) -> State {
        self.state()
    }

    fn set_state(&mut self, desired: State) -> Result<(), ToggleError> {
        if self.stuck {
            return Err(ToggleError);
        }
        self.enabled = desired == State::Enabled;
        self.switched += 1;
        Ok(())
    }

    fn state(&self) -> State {
        if self.enabled {
            State::Enabled
        } else {
            State::Disabled
        }
    }
}

fn factors(values: &[i32]) -> Vec<Factor> {
    values.iter().map(|v| Factor::new(*v)).collect()
}

fn product_is_zero(objects: &Vec<Factor>) -> bool {
    objects.iter().filter(|f| f.enabled).map(|f| f.value as i64).any(|v| v == 0)
}

fn states(search: &Bisection<Factor>) -> Vec<State> {
    let direct: Vec<State> = search.objects().iter().map(|f| f.state()).collect();
    assert_eq!(search.states(), direct);
    direct
}

fn ranges(search: &Bisection<Factor>) -> Vec<(usize, usize, Behavior)> {
    search.groups().iter().map(|g| (g.from(), g.to(), g.behavior())).collect()
}

/// Drives a search to its end and says how many tests it took.
fn run(search: &mut Bisection<Factor>) -> usize {
    let mut tests = 0;
    while let Some(group) = search.next_group() {
        search.isolate(&group).unwrap();
        let dominant = product_is_zero(search.objects());
        tests += 1;
        search.record(&group, dominant).unwrap();
    }
    search.restore_all().unwrap();
    tests
}

#[test]
fn switch_takes_the_state_asked_for() {
    let mut s = Switch { state: State::Disabled };
    assert_eq!(s.set_state(State::Enabled), Ok(()));
    assert_eq!(s.state(), State::Enabled);
    assert_eq!(s.set_state(State::Disabled), Ok(()));
    assert_eq!(s.state(), State::Disabled);
}

#[test]
fn no_objects_no_search() {
    let r = Bisection::new(Vec::<Switch>::new());
    assert!(matches!(r, Err(BisectError::NoObjects)));
}

#[test]
fn search_starts_with_one_untested_group() {
    let search = Bisection::new(factors(&[1, 2, 3, 4, 5])).unwrap();
    assert_eq!(search.len(), 5);
    assert_eq!(ranges(&search), vec![(0, 4, Behavior::Unknown)]);
    assert!(!search.is_finished());
    assert_eq!(search.next_group(), Some(Group::new(0, 4).unwrap()));
    assert_eq!(search.culprits(), Vec::<usize>::new());
}

#[test]
fn search_over_one_object() {
    let mut search = Bisection::new(factors(&[0])).unwrap();
    assert_eq!(ranges(&search), vec![(0, 0, Behavior::Unknown)]);
    assert_eq!(run(&mut search), 1);
    assert_eq!(search.culprits(), vec![0]);
    assert_eq!(ranges(&search), vec![(0, 0, Behavior::Dominant)]);
}

#[test]
fn set_group_state_switches_the_group_only() {
    let mut search = Bisection::new(factors(&[1, 2, 3, 4, 5])).unwrap();
    let g = Group::new(1, 3).unwrap();
    assert_eq!(search.set_group_state(&g, State::Disabled), Ok(()));
    assert_eq!(
        states(&search),
        vec![State::Enabled, State::Disabled, State::Disabled, State::Disabled, State::Enabled]
    );
    let switched: Vec<usize> = search.objects().iter().map(|f| f.switched).collect();
    assert_eq!(switched, vec![0, 1, 1, 1, 0]);
    assert_eq!(ranges(&search), vec![(0, 4, Behavior::Unknown)]);
}

#[test]
fn set_group_state_twice_changes_nothing_more() {
    let mut search = Bisection::new(factors(&[1, 2, 3, 4, 5])).unwrap();
    let g = Group::new(2, 4).unwrap();
    search.set_group_state(&g, State::Disabled).unwrap();
    let once = states(&search);
    search.set_group_state(&g, State::Disabled).unwrap();
    assert_eq!(states(&search), once);
    search.set_group_state(&g, State::Enabled).unwrap();
    let back = states(&search);
    search.set_group_state(&g, State::Enabled).unwrap();
    assert_eq!(states(&search), back);
    assert_eq!(back, vec![State::Enabled; 5]);
}

#[test]
fn set_group_state_beyond_the_objects_is_refused() {
    let mut search = Bisection::new(factors(&[1, 2, 3])).unwrap();
    let g = Group::new(2, 3).unwrap();
    assert_eq!(search.set_group_state(&g, State::Disabled), Err(BisectError::OutOfRange));
    assert_eq!(states(&search), vec![State::Enabled; 3]);
    let switched: Vec<usize> = search.objects().iter().map(|f| f.switched).collect();
    assert_eq!(switched, vec![0, 0, 0]);
}

#[test]
fn set_group_state_stops_at_the_object_that_refuses() {
    let mut objects = factors(&[1, 2, 3, 4, 5]);
    objects[2].stuck = true;
    let mut search = Bisection::new(objects).unwrap();
    let g = Group::new(1, 4).unwrap();
    assert_eq!(search.set_group_state(&g, State::Disabled), Err(BisectError::Capability(2)));
    assert_eq!(
        states(&search),
        vec![State::Enabled, State::Disabled, State::Enabled, State::Enabled, State::Enabled]
    );
}

#[test]
fn isolate_enables_the_group_and_disables_the_rest() {
    let mut search = Bisection::new(factors(&[1, 2, 3, 4, 5])).unwrap();
    search.isolate(&Group::new(3, 4).unwrap()).unwrap();
    assert_eq!(
        states(&search),
        vec![State::Disabled, State::Disabled, State::Disabled, State::Enabled, State::Enabled]
    );
    search.isolate(&Group::new(0, 1).unwrap()).unwrap();
    assert_eq!(
        states(&search),
        vec![State::Enabled, State::Enabled, State::Disabled, State::Disabled, State::Disabled]
    );
}

#[test]
fn isolate_beyond_the_objects_is_refused() {
    let mut search = Bisection::new(factors(&[1, 2, 3])).unwrap();
    assert_eq!(search.isolate(&Group::new(0, 3).unwrap()), Err(BisectError::OutOfRange));
    assert_eq!(states(&search), vec![State::Enabled; 3]);
}

#[test]
fn isolate_restores_when_an_object_refuses() {
    let mut objects = factors(&[1, 2, 3, 4]);
    objects[2].stuck = true;
    let mut search = Bisection::new(objects).unwrap();
    assert_eq!(search.isolate(&Group::new(3, 3).unwrap()), Err(BisectError::Capability(2)));
    assert_eq!(states(&search), vec![State::Enabled; 4]);
    assert_eq!(ranges(&search), vec![(0, 3, Behavior::Unknown)]);
}

#[test]
fn restore_all_enables_every_object() {
    let mut search = Bisection::new(factors(&[1, 2, 3, 4])).unwrap();
    search.isolate(&Group::new(1, 1).unwrap()).unwrap();
    assert_eq!(search.restore_all(), Ok(()));
    assert_eq!(states(&search), vec![State::Enabled; 4]);
}

#[test]
fn restore_all_goes_on_past_an_object_that_refuses() {
    let mut objects = factors(&[1, 2, 3, 4]);
    for f in objects.iter_mut() {
        f.enabled = false;
    }
    objects[1].stuck = true;
    objects[2].stuck = true;
    let mut search = Bisection::new(objects).unwrap();
    assert_eq!(search.restore_all(), Err(BisectError::Capability(1)));
    assert_eq!(
        states(&search),
        vec![State::Enabled, State::Disabled, State::Disabled, State::Enabled]
    );
}

#[test]
fn recessive_result_settles_the_group() {
    let mut search = Bisection::new(factors(&[1, 2, 3, 4])).unwrap();
    let g = search.next_group().unwrap();
    assert_eq!(search.record(&g, false), Ok(()));
    assert_eq!(ranges(&search), vec![(0, 3, Behavior::Recessive)]);
    assert!(search.is_finished());
    assert_eq!(search.next_group(), None);
    assert_eq!(search.culprits(), Vec::<usize>::new());
}

#[test]
fn dominant_result_splits_a_group_of_several() {
    let mut search = Bisection::new(factors(&[1, 2, 3, 4, 5])).unwrap();
    let g = search.next_group().unwrap();
    assert_eq!(search.record(&g, true), Ok(()));
    assert_eq!(ranges(&search), vec![(0, 2, Behavior::Unknown), (3, 4, Behavior::Unknown)]);
    assert!(!search.is_finished());
    assert_eq!(search.culprits(), Vec::<usize>::new());
}

#[test]
fn dominant_result_confirms_a_single_object() {
    let mut search = Bisection::new(factors(&[1, 2])).unwrap();
    let g = search.next_group().unwrap();
    search.record(&g, true).unwrap();
    let second = Group::new(1, 1).unwrap();
    assert_eq!(search.record(&second, true), Ok(()));
    assert_eq!(ranges(&search), vec![(0, 0, Behavior::Unknown), (1, 1, Behavior::Dominant)]);
    assert_eq!(search.culprits(), vec![1]);
}

#[test]
fn record_leaves_the_objects_alone() {
    let mut search = Bisection::new(factors(&[1, 2, 3, 4])).unwrap();
    let g = search.next_group().unwrap();
    search.isolate(&Group::new(1, 2).unwrap()).unwrap();
    let before = states(&search);
    search.record(&g, true).unwrap();
    assert_eq!(states(&search), before);
}

#[test]
fn result_for_a_group_that_is_not_waiting_is_refused() {
    let mut search = Bisection::new(factors(&[1, 2, 3, 4])).unwrap();
    let stranger = Group::new(0, 1).unwrap();
    assert_eq!(search.record(&stranger, true), Err(BisectError::NotPending));
    assert_eq!(ranges(&search), vec![(0, 3, Behavior::Unknown)]);
    let g = search.next_group().unwrap();
    search.record(&g, false).unwrap();
    assert_eq!(search.record(&g, false), Err(BisectError::NotPending));
    let mut settled = g;
    settled.set_behavior(Behavior::Recessive);
    assert_eq!(search.record(&settled, true), Err(BisectError::NotPending));
    assert_eq!(ranges(&search), vec![(0, 3, Behavior::Recessive)]);
}

#[test]
fn next_group_is_the_largest_untested_then_the_first() {
    let mut search = Bisection::new(factors(&[1, 2, 3, 4, 5, 6, 7])).unwrap();
    let root = search.next_group().unwrap();
    search.record(&root, true).unwrap();
    assert_eq!(ranges(&search), vec![(0, 3, Behavior::Unknown), (4, 6, Behavior::Unknown)]);
    let first = search.next_group().unwrap();
    assert_eq!((first.from(), first.to()), (0, 3));
    search.record(&first, true).unwrap();
    let second = search.next_group().unwrap();
    assert_eq!((second.from(), second.to()), (4, 6));
    search.record(&second, false).unwrap();
    let third = search.next_group().unwrap();
    assert_eq!((third.from(), third.to()), (0, 1));
    search.record(&third, false).unwrap();
    let fourth = search.next_group().unwrap();
    assert_eq!((fourth.from(), fourth.to()), (2, 3));
}

#[test]
fn next_group_takes_equal_sizes_from_left_to_right() {
    let mut search = Bisection::new(factors(&[0, 0, 0, 0])).unwrap();
    let mut order: Vec<(usize, usize)> = Vec::new();
    while let Some(g) = search.next_group() {
        order.push((g.from(), g.to()));
        search.isolate(&g).unwrap();
        let dominant = product_is_zero(search.objects());
        search.record(&g, dominant).unwrap();
    }
    assert_eq!(order, vec![(0, 3), (0, 1), (2, 3), (0, 0), (1, 1), (2, 2), (3, 3)]);
    assert_eq!(search.culprits(), vec![0, 1, 2, 3]);
}

#[test]
fn end_to_end_finds_every_zero() {
    let values = [1, 5, 8, 7, 4, 6, 3, 9, 0, 5, 0, 3, 1, 7, 8, 7, 4, 0, 3];
    let mut search = Bisection::new(factors(&values)).unwrap();
    run(&mut search);
    assert!(search.is_finished());
    assert_eq!(search.culprits(), vec![8, 10, 17]);
    for (from, to, behavior) in ranges(&search) {
        match behavior {
            Behavior::Dominant => {
                assert_eq!(from, to);
                assert_eq!(values[from], 0);
            }
            Behavior::Recessive => assert!(values[from..=to].iter().all(|v| *v != 0)),
            Behavior::Unknown => panic!("an untested group is left"),
        }
    }
    assert_eq!(states(&search), vec![State::Enabled; 19]);
}

#[test]
fn end_to_end_groups_cover_every_index_once() {
    let values = [1, 5, 8, 7, 4, 6, 3, 9, 0, 5, 0, 3, 1, 7, 8, 7, 4, 0, 3];
    let mut search = Bisection::new(factors(&values)).unwrap();
    while let Some(group) = search.next_group() {
        search.isolate(&group).unwrap();
        let dominant = product_is_zero(search.objects());
        search.record(&group, dominant).unwrap();
        let cut = ranges(&search);
        assert_eq!(cut[0].0, 0);
        assert_eq!(cut[cut.len() - 1].1, values.len() - 1);
        for pair in cut.windows(2) {
            assert_eq!(pair[0].1 + 1, pair[1].0);
        }
    }
}

#[test]
fn end_to_end_without_a_culprit() {
    let mut search = Bisection::new(factors(&[3, 1, 4, 1, 5, 9, 2, 6])).unwrap();
    assert_eq!(run(&mut search), 1);
    assert!(search.is_finished());
    assert_eq!(search.culprits(), Vec::<usize>::new());
    assert_eq!(ranges(&search), vec![(0, 7, Behavior::Recessive)]);
}

#[test]
fn end_to_end_single_culprit_in_a_power_of_two() {
    for k in 0..6u32 {
        let n = 1usize << k;
        for at in 0..n {
            let mut values = vec![1; n];
            values[at] = 0;
            let mut search = Bisection::new(factors(&values)).unwrap();
            let tests = run(&mut search);
            assert_eq!(tests, 2 * (k as usize) + 1);
            assert_eq!(search.culprits(), vec![at]);
            assert_eq!(search.groups().len(), k as usize + 1);
        }
    }
}

#[test]
fn end_to_end_every_object_a_culprit() {
    let mut search = Bisection::new(factors(&[0; 5])).unwrap();
    assert_eq!(run(&mut search), 9);
    assert_eq!(search.culprits(), vec![0, 1, 2, 3, 4]);
}

#[test]
fn into_objects_gives_the_objects_back() {
    let mut search = Bisection::new(factors(&[7, 8, 9])).unwrap();
    search.isolate(&Group::new(1, 1).unwrap()).unwrap();
    let objects = search.into_objects();
    let values: Vec<i32> = objects.iter().map(|f| f.value).collect();
    assert_eq!(values, vec![7, 8, 9]);
    assert!(!objects[0].enabled && objects[1].enabled && !objects[2].enabled);
}

#[test]
fn into_parts_gives_objects_and_groups_back() {
    let mut search = Bisection::new(factors(&[7, 0])).unwrap();
    run(&mut search);
    let (objects, groups) = search.into_parts();
    assert_eq!(objects.len(), 2);
    let cut: Vec<(usize, usize, Behavior)> =
        groups.iter().map(|g| (g.from(), g.to(), g.behavior())).collect();
    assert_eq!(cut, vec![(0, 0, Behavior::Recessive), (1, 1, Behavior::Dominant)]);
}

#[test]
fn from_parts_takes_a_search_up_again() {
    let mut search = Bisection::new(factors(&[1, 0, 1, 1, 1])).unwrap();
    for _ in 0..3 {
        let g = search.begin_test().unwrap().unwrap();
        let dominant = product_is_zero(search.objects());
        search.record(&g, dominant).unwrap();
    }
    let before = ranges(&search);
    assert_eq!(
        before,
        vec![
            (0, 0, Behavior::Unknown),
            (1, 1, Behavior::Unknown),
            (2, 2, Behavior::Unknown),
            (3, 4, Behavior::Unknown),
        ]
    );
    let (objects, groups) = search.into_parts();
    let mut search = Bisection::from_parts(objects, groups).ok().unwrap();
    assert_eq!(ranges(&search), before);
    assert_eq!(run(&mut search), 4);
    assert_eq!(search.culprits(), vec![1]);
}

#[test]
fn from_parts_refuses_no_objects() {
    let r = Bisection::from_parts(Vec::<Switch>::new(), vec![Group::new(0, 0).unwrap()]);
    assert!(matches!(r, Err(BisectError::NoObjects)));
}

#[test]
fn from_parts_refuses_what_is_no_partition() {
    let gap = vec![Group::new(0, 1).unwrap(), Group::new(3, 3).unwrap()];
    assert!(matches!(
        Bisection::from_parts(factors(&[1; 4]), gap),
        Err(BisectError::NotAPartition)
    ));
    let overlap = vec![Group::new(0, 2).unwrap(), Group::new(2, 3).unwrap()];
    assert!(matches!(
        Bisection::from_parts(factors(&[1; 4]), overlap),
        Err(BisectError::NotAPartition)
    ));
    let short = vec![Group::new(0, 2).unwrap()];
    assert!(matches!(
        Bisection::from_parts(factors(&[1; 4]), short),
        Err(BisectError::NotAPartition)
    ));
    let late = vec![Group::new(1, 3).unwrap()];
    assert!(matches!(
        Bisection::from_parts(factors(&[1; 4]), late),
        Err(BisectError::NotAPartition)
    ));
    let none: Vec<Group> = Vec::new();
    assert!(matches!(
        Bisection::from_parts(factors(&[1; 4]), none),
        Err(BisectError::NotAPartition)
    ));
    let swapped = vec![Group::new(2, 3).unwrap(), Group::new(0, 1).unwrap()];
    assert!(matches!(
        Bisection::from_parts(factors(&[1; 4]), swapped),
        Err(BisectError::NotAPartition)
    ));
}

#[test]
fn from_parts_refuses_a_culprit_of_several_objects() {
    let mut wide = Group::new(0, 1).unwrap();
    wide.set_behavior(Behavior::Dominant);
    let r = Bisection::from_parts(factors(&[1; 3]), vec![wide, Group::new(2, 2).unwrap()]);
    assert!(matches!(r, Err(BisectError::NotAPartition)));
    let mut leaf = Group::new(2, 2).unwrap();
    leaf.set_behavior(Behavior::Dominant);
    let ok = Bisection::from_parts(factors(&[1; 3]), vec![Group::new(0, 1).unwrap(), leaf]);
    assert_eq!(ok.ok().unwrap().culprits(), vec![2]);
}

#[test]
fn begin_test_picks_and_switches() {
    let mut search = Bisection::new(factors(&[1, 2, 0, 4])).unwrap();
    let g = search.begin_test().unwrap().unwrap();
    assert_eq!((g.from(), g.to()), (0, 3));
    assert_eq!(states(&search), vec![State::Enabled; 4]);
    search.record(&g, true).unwrap();
    let g = search.begin_test().unwrap().unwrap();
    assert_eq!((g.from(), g.to()), (0, 1));
    assert_eq!(
        states(&search),
        vec![State::Enabled, State::Enabled, State::Disabled, State::Disabled]
    );
    search.record(&g, false).unwrap();
    let g = search.begin_test().unwrap().unwrap();
    search.record(&g, false).unwrap();
    let before = states(&search);
    assert_eq!(search.begin_test(), Ok(None));
    assert_eq!(states(&search), before);
}

#[test]
fn begin_test_reports_an_object_that_refuses() {
    let mut objects = factors(&[1, 2, 3]);
    objects[1].stuck = true;
    let mut search = Bisection::new(objects).unwrap();
    assert_eq!(search.begin_test(), Err(BisectError::Capability(1)));
    assert_eq!(ranges(&search), vec![(0, 2, Behavior::Unknown)]);
    assert_eq!(states(&search), vec![State::Enabled; 3]);
}
