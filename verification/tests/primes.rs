use primes::{calculate_prime, largest_prime};

#[test]
fn detects_prime() {
    let prime = calculate_prime(17, 17, None);

    assert!(prime.is_ok());

    let prime = prime.unwrap();
    assert!(!prime.is_empty());
    assert_eq!(prime, vec![17]);
}

#[test]
fn detects_non_prime() {
    let prime = calculate_prime(217, 217, None);

    assert!(prime.is_ok());
    assert!(prime.unwrap().is_empty());
}

#[test]
fn finds_all_primes_from_0_to_20() {
    let primes = calculate_prime(0, 20, None);

    assert!(primes.is_ok());

    let primes = primes.unwrap();
    assert!(!primes.is_empty());
    assert_eq!(primes, vec![2, 3, 5, 7, 11, 13, 17, 19]);
}

#[test]
fn finds_all_primes_from_20_to_40() {
    let primes = calculate_prime(20, 40, None);

    assert!(primes.is_ok());

    let primes = primes.unwrap();
    assert!(!primes.is_empty());
    assert_eq!(primes, vec![23, 29, 31, 37]);
}

#[test]
fn finds_largest_prime_from_20_to_40() {
    let primes = largest_prime((20, 40));

    assert!(primes.is_some());

    let primes = primes.unwrap();
    assert_eq!(primes, 37);
}

#[test]
fn finds_no_largest_prime_from_44_to_46() {
    let primes = largest_prime((44, 46));

    assert!(primes.is_none());
}
