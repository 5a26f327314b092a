use concurrent_round_robin::WeightedRoundRobinSelector;

#[test]
fn small_weights_are_accepted() {
    assert!(WeightedRoundRobinSelector::accepts(&vec![("a", 1usize), ("b", 2)]));
    assert!(WeightedRoundRobinSelector::<u8>::accepts(&vec![]));
    assert!(WeightedRoundRobinSelector::accepts(&vec![((), 0usize), ((), 0)]));
}

#[test]
fn total_times_count_may_reach_the_limit() {
    let limit = i64::MAX as usize;
    assert!(WeightedRoundRobinSelector::accepts(&vec![((), limit)]));
    assert!(!WeightedRoundRobinSelector::accepts(&vec![((), limit + 1)]));
    assert!(!WeightedRoundRobinSelector::accepts(&vec![((), usize::MAX)]));
    // two candidates: the total may be at most the limit halved
    let half = limit / 2;
    assert!(WeightedRoundRobinSelector::accepts(&vec![((), half), ((), 0)]));
    assert!(WeightedRoundRobinSelector::accepts(&vec![((), half - 1), ((), 1)]));
    assert!(!WeightedRoundRobinSelector::accepts(&vec![((), half), ((), 1)]));
    assert!(!WeightedRoundRobinSelector::accepts(&vec![((), 1), ((), half)]));
    // three candidates
    let third = limit / 3;
    assert!(WeightedRoundRobinSelector::accepts(&vec![((), third), ((), 0), ((), 0)]));
    assert!(!WeightedRoundRobinSelector::accepts(&vec![((), third), ((), 0), ((), 1)]));
}

#[test]
fn sum_beyond_the_machine_word_is_rejected() {
    assert!(!WeightedRoundRobinSelector::accepts(&vec![((), usize::MAX), ((), usize::MAX)]));
}

#[test]
fn try_new_builds_what_is_accepted() {
    let made = WeightedRoundRobinSelector::try_new(vec![("a", 1), ("b", 2)]);
    let mut selector = made.unwrap();
    assert_eq!(selector.size(), 2);
    assert_eq!(selector.select().unwrap().key(), 0);
    assert_eq!(selector.close(), vec![("a", 0), ("b", 1)]);
}

#[test]
fn try_new_refuses_what_is_not_accepted() {
    assert!(WeightedRoundRobinSelector::try_new(vec![("a", usize::MAX), ("b", 2)]).is_none());
}

#[test]
fn largest_accepted_pair_runs_without_overflow() {
    let half = (i64::MAX as usize) / 2;
    let mut selector = WeightedRoundRobinSelector::try_new(vec![((), half), ((), 0)]).unwrap();
    for _ in 0..4 {
        assert_eq!(selector.select().unwrap().key(), 0);
        assert_eq!(selector.accumulator(0), Some(0));
        assert_eq!(selector.accumulator(1), Some(0));
    }
}
