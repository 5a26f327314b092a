use concurrent_round_robin::WeightedRoundRobinSelector;

#[test]
fn empty_set_selects_nothing_and_closes_empty() {
    let mut selector: WeightedRoundRobinSelector<&str> = WeightedRoundRobinSelector::new(vec![]);
    assert_eq!(selector.size(), 0);
    for _ in 0..3 {
        assert!(selector.select().is_none());
    }
    assert!(selector.select_at(5).is_none());
    assert_eq!(selector.accumulator(0), None);
    assert!(selector.close().is_empty());
}

#[test]
fn close_returns_every_value_with_its_index() {
    let selector = WeightedRoundRobinSelector::new(vec![("a", 7), ("b", 0), ("c", 2)]);
    assert_eq!(selector.close(), vec![("a", 0), ("b", 1), ("c", 2)]);
}

#[test]
fn close_returns_indices_not_weights() {
    let selector = WeightedRoundRobinSelector::new(vec![("x", 5), ("y", 5)]);
    let pairs = selector.close();
    assert_eq!(pairs.len(), 2);
    assert_eq!(pairs[0], ("x", 0));
    assert_eq!(pairs[1], ("y", 1));
}

#[test]
fn close_after_selections_still_returns_all() {
    let mut selector =
        WeightedRoundRobinSelector::new(vec![(String::from("p"), 1), (String::from("q"), 3)]);
    for _ in 0..5 {
        assert!(selector.select().is_some());
    }
    let pairs = selector.close();
    assert_eq!(pairs, vec![(String::from("p"), 0), (String::from("q"), 1)]);
}

#[test]
fn close_has_no_duplicate_indices() {
    let pairs: Vec<(u8, usize)> = (0..50u8).map(|v| (v, 1usize)).collect();
    let closed = WeightedRoundRobinSelector::new(pairs).close();
    assert_eq!(closed.len(), 50);
    for (place, (value, index)) in closed.iter().enumerate() {
        assert_eq!(*index, place);
        assert_eq!(*value as usize, place);
    }
}

#[test]
fn drained_set_selects_nothing() {
    let mut selector = WeightedRoundRobinSelector::new(vec![("a", 1), ("b", 2)]);
    assert_eq!(selector.select().unwrap().key(), 0);
    let pairs = selector.drain();
    assert_eq!(pairs, vec![("a", 0), ("b", 1)]);
    assert_eq!(selector.size(), 0);
    for _ in 0..3 {
        assert!(selector.select().is_none());
    }
    assert_eq!(selector.get(0), None);
    assert_eq!(selector.accumulator(0), None);
    assert!(selector.drain().is_empty());
    assert!(selector.close().is_empty());
}
