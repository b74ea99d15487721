use prime_gen::wheel::{
    backward, backward5, forward, forward5, get_wheel5_increment, WheelState, WHEEL5_START,
};

fn coprime_to_30(v: u64) -> bool {
    v % 2 != 0 && v % 3 != 0 && v % 5 != 0
}

#[test]
fn forward_lists_the_numbers_coprime_to_six() {
    let values: Vec<u64> = (1usize..=7).map(forward).collect();
    assert_eq!(values, vec![1, 5, 7, 11, 13, 17, 19]);
}

#[test]
fn backward_ranks_the_numbers_coprime_to_six() {
    assert_eq!(backward(1), 1);
    assert_eq!(backward(5), 2);
    assert_eq!(backward(7), 3);
    assert_eq!(backward(11), 4);
    assert_eq!(backward(13), 5);
}

#[test]
fn backward_is_total() {
    assert_eq!(backward(0), 1);
    assert_eq!(backward(6), 3);
    assert_eq!(backward(u64::MAX), 6148914691236517205);
}

#[test]
fn wheel6_round_trip_from_values() {
    let mut seen = 0u64;
    for v in 1u64..=100_000 {
        if v % 2 != 0 && v % 3 != 0 {
            seen += 1;
            let index = backward(v);
            assert_eq!(index, seen);
            assert_eq!(forward(index as usize), v);
        }
    }
}

#[test]
fn wheel6_round_trip_from_indices() {
    for p in 1usize..=50_000 {
        let v = forward(p);
        assert!(v % 2 != 0 && v % 3 != 0);
        assert_eq!(backward(v), p as u64);
    }
}

#[test]
fn forward5_lists_the_numbers_coprime_to_thirty() {
    let values: Vec<u64> = (1usize..=10).map(forward5).collect();
    assert_eq!(values, vec![1, 7, 11, 13, 17, 19, 23, 29, 31, 37]);
}

#[test]
fn backward5_ranks_the_numbers_coprime_to_thirty() {
    assert_eq!(backward5(1), 1);
    assert_eq!(backward5(7), 2);
    assert_eq!(backward5(29), 8);
    assert_eq!(backward5(31), 9);
    assert_eq!(backward5(49), 14);
}

#[test]
fn backward5_off_the_wheel_stays_next_to_the_rank() {
    assert_eq!(backward5(0), 0);
    assert_eq!(backward5(2), 1);
    assert_eq!(backward5(6), 2);
}

#[test]
fn backward5_takes_the_largest_bound() {
    assert_eq!(backward5(u64::MAX), 4919131752989213764);
    assert_eq!(forward5(4919131752989213764), 18446744073709551613);
}

#[test]
fn wheel30_round_trip_from_values() {
    let mut seen = 0usize;
    for v in 1u64..=300_000 {
        if coprime_to_30(v) {
            seen += 1;
            let index = backward5(v);
            assert_eq!(index, seen);
            assert_eq!(forward5(index), v);
        }
    }
}

#[test]
fn wheel30_round_trip_from_indices() {
    for idx in 1usize..=80_000 {
        let v = forward5(idx);
        assert!(coprime_to_30(v));
        assert_eq!(backward5(v), idx);
    }
}

#[test]
fn wheel30_values_ascend_without_gaps() {
    let mut expected = 1u64;
    for idx in 1usize..=10_000 {
        while !coprime_to_30(expected) {
            expected += 1;
        }
        assert_eq!(forward5(idx), expected);
        expected += 1;
    }
}

#[test]
fn wheel5_increment_first_steps() {
    let mut mask = WHEEL5_START;
    let steps: Vec<usize> = (0..10).map(|_| get_wheel5_increment(&mut mask)).collect();
    // indices 3, 4, 5, 6, 7, 8, 10, 11, 13, 14: the values 7 to 41 without 25 and 35
    assert_eq!(steps, vec![2, 1, 1, 1, 1, 1, 2, 1, 2, 1]);
}

#[test]
fn wheel5_increment_rotates_the_mask() {
    let mut mask = WHEEL5_START;
    assert_eq!(get_wheel5_increment(&mut mask), 2);
    assert_eq!(mask, 0b01_0010_0000);
    assert_eq!(get_wheel5_increment(&mut mask), 1);
    assert_eq!(mask, 0b00_1001_0000);
}

#[test]
fn wheel5_increment_has_period_ten() {
    let mut mask = WHEEL5_START;
    let mut moved = 0usize;
    for _ in 0..8 {
        moved += get_wheel5_increment(&mut mask);
    }
    assert_eq!(moved, 10);
    assert_eq!(mask, WHEEL5_START);
}

#[test]
fn wheel5_increment_enumerates_the_numbers_coprime_to_thirty() {
    let mut mask = WHEEL5_START;
    let mut index = 1usize;
    let mut visited = vec![forward(index)];
    while *visited.last().unwrap() < 20_000 {
        index += get_wheel5_increment(&mut mask);
        visited.push(forward(index));
    }
    let last = *visited.last().unwrap();
    let expected: Vec<u64> = (1..=last).filter(|&v| coprime_to_30(v)).collect();
    assert_eq!(visited, expected);
}

#[test]
fn wheel_state_starts_at_one() {
    let state = WheelState::new();
    assert_eq!(state.value(), 1);
}

#[test]
fn wheel_state_yields_the_gaps_of_the_wheel() {
    let mut state = WheelState::new();
    let gaps: Vec<u64> = (0..9).map(|_| state.next_admissible()).collect();
    assert_eq!(gaps, vec![6, 4, 2, 4, 2, 4, 6, 2, 6]);
    assert_eq!(state.value(), 37);
}

#[test]
fn wheel_state_visits_every_number_coprime_to_thirty() {
    let mut state = WheelState::new();
    let mut value = 1u64;
    let mut visited = vec![value];
    while value < 50_000 {
        let gap = state.next_admissible();
        value += gap;
        assert_eq!(state.value(), value);
        visited.push(value);
    }
    let expected: Vec<u64> = (1..=value).filter(|&v| coprime_to_30(v)).collect();
    assert_eq!(visited, expected);
}
