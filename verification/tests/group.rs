use bisection::behavior::Behavior;
use bisection::behavior::State;
use bisection::error::BisectError;
use bisection::group::Group;
use std::cmp::Ordering;

fn group(from: usize, to: usize, behavior: Behavior) -> Group {
    let mut g = Group::new(from, to).unwrap();
    g.set_behavior(behavior);
    g
}

#[test]
fn behavior_defaults_to_unknown() {
    assert_eq!(Behavior::default(), Behavior::Unknown);
}

#[test]
fn behavior_ranks() {
    assert_eq!(Behavior::Unknown.rank(), 3);
    assert_eq!(Behavior::Dominant.rank(), 2);
    assert_eq!(Behavior::Recessive.rank(), 1);
}

#[test]
fn states_differ() {
    assert_ne!(State::Enabled, State::Disabled);
}

#[test]
fn new_group_is_unknown_and_counts_both_ends() {
    let g = Group::new(3, 7).unwrap();
    assert_eq!(g.from(), 3);
    assert_eq!(g.to(), 7);
    assert_eq!(g.size(), 5);
    assert_eq!(g.behavior(), Behavior::Unknown);
}

#[test]
fn size_is_to_minus_from_plus_one() {
    for from in 0..12usize {
        for to in from..12usize {
            assert_eq!(Group::new(from, to).unwrap().size(), to - from + 1);
        }
    }
}

#[test]
fn group_of_one_index() {
    let g = Group::new(9, 9).unwrap();
    assert_eq!(g.size(), 1);
    assert_eq!(g.indices(), vec![9]);
}

#[test]
fn inverted_range_is_refused() {
    assert_eq!(Group::new(4, 3), Err(BisectError::InvertedRange));
    assert_eq!(Group::new(usize::MAX, 0), Err(BisectError::InvertedRange));
}

#[test]
fn range_of_every_index_is_refused() {
    assert_eq!(Group::new(0, usize::MAX), Err(BisectError::RangeTooLarge));
}

#[test]
fn range_up_to_the_last_index_is_counted() {
    let g = Group::new(1, usize::MAX).unwrap();
    assert_eq!(g.size(), usize::MAX);
    let h = Group::new(usize::MAX, usize::MAX).unwrap();
    assert_eq!(h.size(), 1);
}

#[test]
fn set_behavior_keeps_the_range() {
    let mut g = Group::new(2, 5).unwrap();
    g.set_behavior(Behavior::Recessive);
    assert_eq!(g.from(), 2);
    assert_eq!(g.to(), 5);
    assert_eq!(g.behavior(), Behavior::Recessive);
}

#[test]
fn contains_both_ends_and_nothing_outside() {
    let g = Group::new(3, 5).unwrap();
    assert!(!g.contains(2));
    assert!(g.contains(3));
    assert!(g.contains(4));
    assert!(g.contains(5));
    assert!(!g.contains(6));
}

#[test]
fn indices_ascend_and_start_afresh() {
    let g = Group::new(4, 8).unwrap();
    assert_eq!(g.indices(), vec![4, 5, 6, 7, 8]);
    assert_eq!(g.indices(), vec![4, 5, 6, 7, 8]);
}

#[test]
fn index_at_counts_from_the_first_index() {
    let g = Group::new(4, 6).unwrap();
    assert_eq!(g.index_at(0), Some(4));
    assert_eq!(g.index_at(2), Some(6));
    assert_eq!(g.index_at(3), None);
    assert_eq!(g.index_at(usize::MAX), None);
}

#[test]
fn split_of_even_size_gives_equal_halves() {
    let (a, b) = Group::new(0, 7).unwrap().split().unwrap();
    assert_eq!((a.from(), a.to()), (0, 3));
    assert_eq!((b.from(), b.to()), (4, 7));
}

#[test]
fn split_of_odd_size_gives_the_lower_half_one_more() {
    let (a, b) = Group::new(0, 18).unwrap().split().unwrap();
    assert_eq!((a.from(), a.to()), (0, 9));
    assert_eq!((b.from(), b.to()), (10, 18));
    assert_eq!(a.size(), 10);
    assert_eq!(b.size(), 9);
}

#[test]
fn split_of_two_gives_two_leaves() {
    let (a, b) = Group::new(6, 7).unwrap().split().unwrap();
    assert_eq!((a.from(), a.to()), (6, 6));
    assert_eq!((b.from(), b.to()), (7, 7));
}

#[test]
fn split_children_cover_the_parent() {
    for from in 0..10usize {
        for to in (from + 1)..14usize {
            let parent = Group::new(from, to).unwrap();
            let (a, b) = parent.split().unwrap();
            assert_eq!(a.from(), parent.from());
            assert_eq!(b.to(), parent.to());
            assert_eq!(a.to() + 1, b.from());
            assert_eq!(a.size() + b.size(), parent.size());
            assert_eq!(a.to(), from + (to - from) / 2);
            let mut all = a.indices();
            all.extend(b.indices());
            assert_eq!(all, parent.indices());
        }
    }
}

#[test]
fn split_at_the_top_of_the_index_range() {
    let (a, b) = Group::new(usize::MAX - 1, usize::MAX).unwrap().split().unwrap();
    assert_eq!((a.from(), a.to()), (usize::MAX - 1, usize::MAX - 1));
    assert_eq!((b.from(), b.to()), (usize::MAX, usize::MAX));
}

#[test]
fn split_of_a_leaf_is_refused() {
    assert_eq!(Group::new(5, 5).unwrap().split(), Err(BisectError::Leaf));
}

#[test]
fn split_of_recessive_gives_recessive_children() {
    let (a, b) = group(0, 5, Behavior::Recessive).split().unwrap();
    assert_eq!(a.behavior(), Behavior::Recessive);
    assert_eq!(b.behavior(), Behavior::Recessive);
}

#[test]
fn split_of_unknown_or_dominant_gives_unknown_children() {
    let (a, b) = group(0, 5, Behavior::Unknown).split().unwrap();
    assert_eq!(a.behavior(), Behavior::Unknown);
    assert_eq!(b.behavior(), Behavior::Unknown);
    let (c, d) = group(0, 5, Behavior::Dominant).split().unwrap();
    assert_eq!(c.behavior(), Behavior::Unknown);
    assert_eq!(d.behavior(), Behavior::Unknown);
}

#[test]
fn order_goes_by_behavior_first() {
    let unknown = group(8, 8, Behavior::Unknown);
    let dominant = group(0, 3, Behavior::Dominant);
    let recessive = group(4, 7, Behavior::Recessive);
    assert!(unknown > dominant);
    assert!(dominant > recessive);
    assert!(unknown > recessive);
    assert_eq!(recessive.compare(&unknown), Ordering::Less);
    assert!(unknown.outranks(&dominant));
    assert!(!dominant.outranks(&unknown));
}

#[test]
fn order_goes_by_size_within_one_behavior() {
    let large = Group::new(4, 9).unwrap();
    let small = Group::new(0, 3).unwrap();
    assert!(large > small);
    assert!(small < large);
    assert_eq!(large.compare(&small), Ordering::Greater);
    assert_eq!(small.partial_cmp(&large), Some(Ordering::Less));
}

#[test]
fn order_goes_by_start_within_one_size() {
    let early = Group::new(0, 3).unwrap();
    let late = Group::new(4, 7).unwrap();
    assert!(early > late);
    assert!(late < early);
    assert_eq!(early.compare(&late), Ordering::Greater);
    assert_eq!(late.compare(&early), Ordering::Less);
}

#[test]
fn a_group_equals_itself_only() {
    let a = Group::new(2, 4).unwrap();
    let b = Group::new(2, 4).unwrap();
    assert_eq!(a, b);
    assert_eq!(a.compare(&b), Ordering::Equal);
    assert!(!(a < b) && !(a > b));
    assert_ne!(a, group(2, 4, Behavior::Recessive));
    assert_ne!(a, Group::new(2, 5).unwrap());
}

#[test]
fn of_two_different_groups_one_is_greater() {
    let behaviors = [Behavior::Unknown, Behavior::Dominant, Behavior::Recessive];
    let mut all: Vec<Group> = Vec::new();
    for from in 0..5usize {
        for to in from..5usize {
            for b in behaviors {
                all.push(group(from, to, b));
            }
        }
    }
    for a in &all {
        for b in &all {
            let less = a < b;
            let greater = a > b;
            if a == b {
                assert!(!less && !greater);
            } else {
                assert!(less != greater);
                assert_eq!(less, b > a);
            }
        }
    }
}

#[test]
fn order_is_transitive() {
    let a = group(0, 0, Behavior::Unknown);
    let b = group(1, 6, Behavior::Dominant);
    let c = group(7, 8, Behavior::Dominant);
    let d = group(9, 20, Behavior::Recessive);
    assert!(a > b && b > c && c > d);
    assert!(a > c && a > d && b > d);
}
