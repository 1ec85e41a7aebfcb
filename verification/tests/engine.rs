use primes::{calculate_prime, largest_prime, largest_prime_aggregator, prime_calculator_job};

#[test]
fn single_prime_is_its_own_largest() {
    assert_eq!(largest_prime((11, 11)), Some(11));
    assert_eq!(largest_prime((2, 2)), Some(2));
}

#[test]
fn single_composite_has_no_largest() {
    assert_eq!(largest_prime((217, 217)), None);
    assert_eq!(largest_prime((1, 1)), None);
}

#[test]
fn finds_largest_prime_from_10_to_100() {
    assert_eq!(largest_prime((10, 100)), Some(97));
}

#[test]
fn finds_largest_prime_at_either_bound() {
    assert_eq!(largest_prime((97, 100)), Some(97));
    assert_eq!(largest_prime((90, 97)), Some(97));
    assert_eq!(largest_prime((1, 2)), Some(2));
}

#[test]
fn largest_prime_is_the_last_one_found() {
    let intervals = [(1usize, 50usize), (20, 40), (44, 46), (100, 130), (114, 126), (13, 13)];
    for &(start, end) in intervals.iter() {
        let all = calculate_prime(start, end, None).unwrap();
        assert_eq!(largest_prime((start, end)), all.last().copied());
    }
}

#[test]
fn search_from_zero_finds_nothing_below_two() {
    assert_eq!(largest_prime((0, 0)), None);
    assert_eq!(largest_prime((0, 1)), None);
}

#[test]
fn search_from_zero_finds_the_largest_prime() {
    assert_eq!(largest_prime((0, 2)), Some(2));
    assert_eq!(largest_prime((0, 3)), Some(3));
    assert_eq!(largest_prime((0, 4)), Some(3));
    assert_eq!(largest_prime((0, 20)), Some(19));
    assert_eq!(largest_prime((0, 31)), Some(31));
    assert_eq!(largest_prime((0, 100)), Some(97));
    assert_eq!(largest_prime((0, 1000)), Some(997));
}

#[test]
fn answer_does_not_depend_on_the_number_of_workers() {
    let intervals = [(0usize, 4usize), (0, 20), (0, 100), (1, 50), (20, 40), (44, 46), (0, 1)];
    for &(start, end) in intervals.iter() {
        let expected = calculate_prime(start, end, None).unwrap().last().copied();
        for workers in 1..=9 {
            let messages = prime_calculator_job((start, end), workers);
            assert_eq!(messages.len(), workers);
            assert_eq!(largest_prime_aggregator(&messages), expected);
        }
        assert_eq!(largest_prime((start, end)), expected);
    }
}
