use primes::calculate_prime;

#[test]
fn zero_and_one_are_never_prime() {
    assert_eq!(calculate_prime(0, 1, None).unwrap(), Vec::<usize>::new());
    assert_eq!(calculate_prime(0, 0, None).unwrap(), Vec::<usize>::new());
    assert_eq!(calculate_prime(1, 1, None).unwrap(), Vec::<usize>::new());
    assert_eq!(calculate_prime(0, 1, Some(&vec![])).unwrap(), Vec::<usize>::new());
}

#[test]
fn two_and_three_are_prime() {
    assert_eq!(calculate_prime(2, 2, None).unwrap(), vec![2]);
    assert_eq!(calculate_prime(3, 3, None).unwrap(), vec![3]);
    assert_eq!(calculate_prime(0, 3, None).unwrap(), vec![2, 3]);
}

#[test]
fn four_is_divided_by_its_half() {
    assert_eq!(calculate_prime(4, 4, None).unwrap(), Vec::<usize>::new());
    assert_eq!(calculate_prime(9, 9, None).unwrap(), Vec::<usize>::new());
    assert_eq!(calculate_prime(4, 9, None).unwrap(), vec![5, 7]);
}

#[test]
fn single_candidate_is_kept_exactly_when_prime() {
    let primes_below_60 = [2, 3, 5, 7, 11, 13, 17, 19, 23, 29, 31, 37, 41, 43, 47, 53, 59];
    for p in 0..60usize {
        let found = calculate_prime(p, p, None).unwrap();
        if primes_below_60.contains(&p) {
            assert_eq!(found, vec![p]);
        } else {
            assert!(found.is_empty());
        }
    }
}

#[test]
fn empty_range_finds_nothing() {
    assert_eq!(calculate_prime(10, 5, None).unwrap(), Vec::<usize>::new());
    assert_eq!(calculate_prime(10, 5, Some(&vec![2, 3])).unwrap(), Vec::<usize>::new());
}

#[test]
fn range_without_primes_is_empty() {
    assert_eq!(calculate_prime(24, 28, None).unwrap(), Vec::<usize>::new());
    assert_eq!(calculate_prime(44, 46, None).unwrap(), Vec::<usize>::new());
}

#[test]
fn finds_primes_up_to_100() {
    assert_eq!(
        calculate_prime(0, 100, None).unwrap(),
        vec![
            2, 3, 5, 7, 11, 13, 17, 19, 23, 29, 31, 37, 41, 43, 47, 53, 59, 61, 67, 71, 73, 79,
            83, 89, 97
        ]
    );
}

#[test]
fn bounds_are_inclusive() {
    assert_eq!(calculate_prime(7, 13, None).unwrap(), vec![7, 11, 13]);
    assert_eq!(calculate_prime(8, 12, None).unwrap(), vec![11]);
}

#[test]
fn witnesses_below_the_range_find_its_primes() {
    let known = vec![2, 3, 5, 7];
    assert_eq!(calculate_prime(8, 30, Some(&known)).unwrap(), vec![11, 13, 17, 19, 23, 29]);
}

#[test]
fn a_witness_divides_itself() {
    let known = vec![2, 3, 5, 7];
    assert_eq!(calculate_prime(2, 10, Some(&known)).unwrap(), Vec::<usize>::new());
    assert_eq!(calculate_prime(5, 5, Some(&known)).unwrap(), Vec::<usize>::new());
}

#[test]
fn no_witnesses_admit_every_candidate() {
    let known = vec![];
    assert_eq!(calculate_prime(0, 10, Some(&known)).unwrap(), vec![2, 3, 4, 5, 6, 7, 8, 9, 10]);
}

#[test]
fn witnesses_above_the_candidate_are_not_tried() {
    let known = vec![7, 11];
    assert_eq!(calculate_prime(2, 6, Some(&known)).unwrap(), vec![2, 3, 4, 5, 6]);
    assert_eq!(calculate_prime(13, 15, Some(&known)).unwrap(), vec![13, 15]);
    assert_eq!(calculate_prime(21, 22, Some(&known)).unwrap(), Vec::<usize>::new());
}

#[test]
fn incomplete_witnesses_let_composites_pass() {
    let known = vec![2, 3];
    assert_eq!(calculate_prime(24, 36, Some(&known)).unwrap(), vec![25, 29, 31, 35]);
}

#[test]
fn repeated_witnesses_change_nothing() {
    let known = vec![2, 2, 3, 3];
    assert_eq!(calculate_prime(4, 12, Some(&known)).unwrap(), vec![5, 7, 11]);
}

#[test]
fn search_reaches_the_largest_number() {
    let known = vec![2];
    assert_eq!(
        calculate_prime(usize::MAX - 3, usize::MAX, Some(&known)).unwrap(),
        vec![usize::MAX - 2, usize::MAX]
    );
    let three = vec![3];
    assert_eq!(
        calculate_prime(usize::MAX, usize::MAX, Some(&three)).unwrap(),
        Vec::<usize>::new()
    );
}

#[test]
fn same_inputs_give_same_output() {
    let first = calculate_prime(0, 200, None).unwrap();
    let second = calculate_prime(0, 200, None).unwrap();
    assert_eq!(first, second);

    let known = vec![2, 3, 5, 7, 11, 13];
    let same = vec![2, 3, 5, 7, 11, 13];
    let third = calculate_prime(14, 200, Some(&known)).unwrap();
    let fourth = calculate_prime(14, 200, Some(&same)).unwrap();
    assert_eq!(third, fourth);
    assert_eq!(third, calculate_prime(14, 200, None).unwrap());
}

#[test]
fn result_is_ascending() {
    let found = calculate_prime(0, 500, None).unwrap();
    for pair in found.windows(2) {
        assert!(pair[0] < pair[1]);
    }
    assert_eq!(found.len(), 95);
    assert_eq!(found[94], 499);
}
