use concurrent_round_robin::WeightedRoundRobinSelector;

fn run(weights: &[usize], calls: usize) -> Vec<usize> {
    let pairs: Vec<(usize, usize)> = weights.iter().enumerate().map(|(i, w)| (i, *w)).collect();
    let mut selector = WeightedRoundRobinSelector::new(pairs);
    let mut picked = Vec::new();
    for _ in 0..calls {
        let handle = selector.select().unwrap();
        assert_eq!(handle.key(), *handle.value());
        picked.push(handle.key());
    }
    picked
}

fn count(picked: &[usize], index: usize) -> usize {
    picked.iter().filter(|p| **p == index).count()
}

#[test]
fn t() {
    let mut balancer = WeightedRoundRobinSelector::new(vec![("1", 1), ("2", 2)]);
    let mut ones = 0;
    let mut twos = 0;
    for _i in 0..100000 {
        let handle = balancer.select().unwrap();
        let value = *handle.value();
        assert!(value == "1" || value == "2");
        if value == "1" {
            ones += 1;
        } else {
            twos += 1;
        }
    }
    assert_eq!(ones + twos, 100000);
    assert!(twos >= 2 * ones - 2 && twos <= 2 * ones + 2);
}

#[test]
fn one_two_selects_first_then_second_twice() {
    let mut selector = WeightedRoundRobinSelector::new(vec![("a", 1), ("b", 2)]);
    assert_eq!(selector.accumulator(0), Some(0));
    assert_eq!(selector.accumulator(1), Some(0));

    let first = selector.select().unwrap();
    assert_eq!(first.key(), 0);
    assert_eq!(*first.value(), "a");
    assert_eq!(selector.accumulator(0), Some(-2));
    assert_eq!(selector.accumulator(1), Some(2));

    let second = selector.select().unwrap();
    assert_eq!(second.key(), 1);
    assert_eq!(*second.value(), "b");
    assert_eq!(selector.accumulator(0), Some(-1));
    assert_eq!(selector.accumulator(1), Some(1));

    let third = selector.select().unwrap();
    assert_eq!(third.key(), 1);
    assert_eq!(*third.value(), "b");
    assert_eq!(selector.accumulator(0), Some(0));
    assert_eq!(selector.accumulator(1), Some(0));
}

#[test]
fn one_two_repeats_every_three_calls() {
    assert_eq!(run(&[1, 2], 9), vec![0, 1, 1, 0, 1, 1, 0, 1, 1]);
}

#[test]
fn five_one_one_is_interleaved() {
    assert_eq!(run(&[5, 1, 1], 7), vec![0, 1, 0, 2, 0, 0, 0]);
}

#[test]
fn three_one_scores_follow_the_arithmetic() {
    let mut selector = WeightedRoundRobinSelector::new(vec![((), 3), ((), 1)]);
    let expected: [(usize, i64, i64); 4] = [(0, -1, 1), (1, 2, -2), (0, 1, -1), (0, 0, 0)];
    for (index, left, right) in expected {
        assert_eq!(selector.select().unwrap().key(), index);
        assert_eq!(selector.accumulator(0), Some(left));
        assert_eq!(selector.accumulator(1), Some(right));
    }
}

#[test]
fn whole_cycles_give_each_index_its_share() {
    let weights = [4usize, 3, 2, 1, 7];
    let total: usize = weights.iter().sum();
    for rounds in [1usize, 2, 5] {
        let picked = run(&weights, rounds * total);
        for (index, weight) in weights.iter().enumerate() {
            assert_eq!(count(&picked, index), rounds * weight);
        }
    }
}

#[test]
fn whole_cycle_brings_scores_back_to_zero() {
    let mut selector = WeightedRoundRobinSelector::new(vec![('x', 2), ('y', 0), ('z', 5)]);
    for _ in 0..7 {
        assert!(selector.select().is_some());
    }
    for index in 0..3 {
        assert_eq!(selector.accumulator(index), Some(0));
    }
}

#[test]
fn equal_scores_go_to_the_lowest_index() {
    assert_eq!(run(&[1, 1, 1], 6), vec![0, 1, 2, 0, 1, 2]);
    assert_eq!(run(&[2, 2], 4), vec![0, 1, 0, 1]);
}

#[test]
fn tie_between_later_indices_goes_to_the_earlier_one() {
    let mut selector = WeightedRoundRobinSelector::new(vec![((), 1), ((), 3), ((), 3)]);
    assert_eq!(selector.select().unwrap().key(), 0);
    assert_eq!(selector.accumulator(1), Some(3));
    assert_eq!(selector.accumulator(2), Some(3));
    assert_eq!(selector.select().unwrap().key(), 1);
}

#[test]
fn zero_weight_behind_a_positive_one_is_never_selected() {
    let picked = run(&[3, 0, 2], 50);
    assert_eq!(count(&picked, 1), 0);
    assert_eq!(count(&picked, 0), 30);
    assert_eq!(count(&picked, 2), 20);
}

#[test]
fn zero_weight_in_front_is_selected_once_and_then_starved() {
    let picked = run(&[0, 1], 6);
    assert_eq!(picked, vec![0, 1, 1, 1, 1, 1]);
}

#[test]
fn all_zero_weights_always_select_the_first() {
    let mut selector = WeightedRoundRobinSelector::new(vec![("a", 0), ("b", 0)]);
    for _ in 0..4 {
        assert_eq!(selector.select().unwrap().key(), 0);
        assert_eq!(selector.accumulator(0), Some(0));
        assert_eq!(selector.accumulator(1), Some(0));
    }
}

#[test]
fn single_candidate_is_always_selected() {
    let mut selector = WeightedRoundRobinSelector::new(vec![("only", 9)]);
    for _ in 0..5 {
        let handle = selector.select().unwrap();
        assert_eq!(handle.key(), 0);
        assert_eq!(*handle.value(), "only");
        assert_eq!(selector.accumulator(0), Some(0));
    }
}

#[test]
fn largest_single_weight_does_not_overflow() {
    let weight = i64::MAX as usize;
    let mut selector = WeightedRoundRobinSelector::new(vec![((), weight)]);
    for _ in 0..3 {
        assert_eq!(selector.select().unwrap().key(), 0);
        assert_eq!(selector.accumulator(0), Some(0));
    }
}

#[test]
fn select_at_records_the_moment_for_every_candidate() {
    let mut selector = WeightedRoundRobinSelector::new(vec![("a", 1), ("b", 2)]);
    assert_eq!(selector.last_update(0), Some(0));
    assert_eq!(selector.last_update(1), Some(0));
    assert_eq!(selector.select_at(42).unwrap().key(), 0);
    assert_eq!(selector.last_update(0), Some(42));
    assert_eq!(selector.last_update(1), Some(42));
    assert_eq!(selector.select_at(-7).unwrap().key(), 1);
    assert_eq!(selector.last_update(0), Some(-7));
    assert_eq!(selector.last_update(1), Some(-7));
    assert_eq!(selector.last_update(2), None);
}

#[test]
fn select_records_one_moment_for_all() {
    let mut selector = WeightedRoundRobinSelector::new(vec![("a", 1), ("b", 2), ("c", 3)]);
    assert!(selector.select().is_some());
    let moment = selector.last_update(0);
    assert!(moment.is_some());
    assert_eq!(selector.last_update(1), moment);
    assert_eq!(selector.last_update(2), moment);
}

#[test]
fn select_and_select_at_pick_alike() {
    let mut by_clock = WeightedRoundRobinSelector::new(vec![(0u8, 2), (1u8, 3), (2u8, 1)]);
    let mut by_hand = WeightedRoundRobinSelector::new(vec![(0u8, 2), (1u8, 3), (2u8, 1)]);
    for moment in 0..12 {
        let left = by_clock.select().unwrap().key();
        let right = by_hand.select_at(moment).unwrap().key();
        assert_eq!(left, right);
    }
}

#[test]
fn handle_gives_exclusive_access_to_the_value() {
    let mut selector = WeightedRoundRobinSelector::new(vec![(10u32, 1), (20u32, 1)]);
    {
        let mut handle = selector.select().unwrap();
        assert_eq!(handle.key(), 0);
        assert_eq!(*handle.value(), 10);
        *handle.value_mut() += 5;
        assert_eq!(*handle.value(), 15);
    }
    assert_eq!(selector.get(0), Some(&15));
    assert_eq!(selector.get(1), Some(&20));
    assert_eq!(selector.get(2), None);
    let handle = selector.select().unwrap();
    assert_eq!(handle.index, 1);
    *handle.value = 21;
    assert_eq!(selector.close(), vec![(15, 0), (21, 1)]);
}

#[test]
fn observers_report_the_construction() {
    let selector = WeightedRoundRobinSelector::new(vec![("a", 4), ("b", 0), ("c", 9)]);
    assert_eq!(selector.size(), 3);
    assert_eq!(selector.weight(0), Some(4));
    assert_eq!(selector.weight(1), Some(0));
    assert_eq!(selector.weight(2), Some(9));
    assert_eq!(selector.weight(3), None);
    assert_eq!(selector.get(2), Some(&"c"));
    assert_eq!(selector.accumulator(2), Some(0));
    assert_eq!(selector.accumulator(3), None);
}
