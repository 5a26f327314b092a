use concurrent_round_robin::WeightedRoundRobin;

#[test]
fn fresh_state_has_zero_score() {
    let state = WeightedRoundRobin::new_with_weight(5);
    assert_eq!(state.weight, 5);
    assert_eq!(state.current, 0);
    assert_eq!(state.last_update, 0);
}

#[test]
fn increase_returns_the_score_before() {
    let mut state = WeightedRoundRobin::new_with_weight(3);
    assert_eq!(state.increase_current(), 0);
    assert_eq!(state.current, 3);
    assert_eq!(state.increase_current(), 3);
    assert_eq!(state.current, 6);
    assert_eq!(state.weight, 3);
}

#[test]
fn sel_lowers_the_score_by_the_total() {
    let mut state = WeightedRoundRobin::new_with_weight(2);
    state.increase_current();
    state.sel(7);
    assert_eq!(state.current, -5);
    state.sel(-5);
    assert_eq!(state.current, 0);
    assert_eq!(state.weight, 2);
}

#[test]
fn touch_records_the_moment_only() {
    let mut state = WeightedRoundRobin::new_with_weight(2);
    state.increase_current();
    state.touch(1_700_000_000);
    assert_eq!(state.last_update, 1_700_000_000);
    assert_eq!(state.current, 2);
    assert_eq!(state.weight, 2);
}

#[test]
fn score_wraps_at_the_ends_of_the_range() {
    let mut state = WeightedRoundRobin { weight: 1, current: i64::MAX, last_update: 0 };
    assert_eq!(state.increase_current(), i64::MAX);
    assert_eq!(state.current, i64::MIN);
    state.sel(1);
    assert_eq!(state.current, i64::MAX);
    state.sel(i64::MIN);
    assert_eq!(state.current, -1);
}
