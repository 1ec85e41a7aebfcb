use primes::{parse_args, report, Report};

#[test]
fn both_arguments_give_the_interval() {
    assert_eq!(parse_args(Some(20), Some(40)), Ok((20, 40)));
    assert_eq!(parse_args(Some(0), Some(usize::MAX)), Ok((0, usize::MAX)));
    assert_eq!(parse_args(Some(7), Some(7)), Ok((7, 7)));
}

#[test]
fn missing_end_is_the_start() {
    assert_eq!(parse_args(Some(11), None), Ok((11, 11)));
}

#[test]
fn missing_arguments_are_zero() {
    assert_eq!(parse_args(None, None), Ok((0, 0)));
    assert_eq!(parse_args(None, Some(9)), Ok((0, 9)));
}

#[test]
fn start_above_end_is_refused() {
    assert_eq!(parse_args(Some(40), Some(20)), Err(String::from("Start is greater than end")));
    assert_eq!(parse_args(Some(1), Some(0)), Err(String::from("Start is greater than end")));
}

#[test]
fn report_names_the_prime() {
    assert_eq!(report((20, 40), Some(37)), Report::Largest(37));
    assert_eq!(report((11, 11), Some(11)), Report::Largest(11));
}

#[test]
fn report_of_a_single_composite() {
    assert_eq!(report((217, 217), None), Report::NotPrime(217));
}

#[test]
fn report_of_an_interval_without_primes() {
    assert_eq!(report((44, 46), None), Report::NoneBetween(44, 46));
}
