use primes::{
    aggregate_step, begin_aggregation, largest_prime_aggregator, on_arrival, Aggregation, Arrival,
    Next,
};

#[test]
fn first_value_must_be_above_one() {
    assert_eq!(aggregate_step(None, Some(0)), None);
    assert_eq!(aggregate_step(None, Some(1)), None);
    assert_eq!(aggregate_step(None, Some(2)), Some(2));
    assert_eq!(aggregate_step(None, None), None);
}

#[test]
fn later_value_must_be_strictly_greater() {
    assert_eq!(aggregate_step(Some(7), Some(7)), Some(7));
    assert_eq!(aggregate_step(Some(7), Some(5)), Some(7));
    assert_eq!(aggregate_step(Some(7), Some(11)), Some(11));
    assert_eq!(aggregate_step(Some(7), Some(1)), Some(7));
    assert_eq!(aggregate_step(Some(7), None), Some(7));
}

#[test]
fn aggregator_returns_the_largest_value() {
    assert_eq!(largest_prime_aggregator(&vec![Some(23), Some(29), Some(31), Some(37)]), Some(37));
    assert_eq!(largest_prime_aggregator(&vec![Some(37), None, Some(31), None]), Some(37));
    assert_eq!(largest_prime_aggregator(&vec![Some(5)]), Some(5));
}

#[test]
fn aggregator_returns_nothing_without_a_value_above_one() {
    assert_eq!(largest_prime_aggregator(&vec![]), None);
    assert_eq!(largest_prime_aggregator(&vec![None, None, None]), None);
    assert_eq!(largest_prime_aggregator(&vec![Some(0), Some(1), None]), None);
    assert_eq!(largest_prime_aggregator(&vec![Some(1), Some(0), Some(2), Some(1)]), Some(2));
}

#[test]
fn arrival_order_does_not_matter() {
    let orders: [[Option<usize>; 4]; 6] = [
        [Some(3), None, Some(11), Some(1)],
        [None, Some(3), Some(1), Some(11)],
        [Some(11), Some(1), Some(3), None],
        [Some(1), Some(11), None, Some(3)],
        [Some(11), Some(3), Some(1), None],
        [None, Some(1), Some(3), Some(11)],
    ];
    for order in orders.iter() {
        assert_eq!(largest_prime_aggregator(&order.to_vec()), Some(11));
    }
}

#[test]
fn reduction_of_no_message_is_complete_at_once() {
    let (state, next) = begin_aggregation(0);
    assert_eq!(state, Aggregation { expected: 0, taken: 0, largest: None });
    assert_eq!(next, Next::Return(None));
    assert_eq!(on_arrival(state, Arrival::Message(Some(5))), (state, Next::Return(None)));
    assert_eq!(on_arrival(state, Arrival::Closed), (state, Next::Return(None)));
}

#[test]
fn reduction_takes_one_message_of_every_worker() {
    let (state, next) = begin_aggregation(3);
    assert_eq!(next, Next::Receive);
    let (state, next) = on_arrival(state, Arrival::Message(Some(29)));
    assert_eq!(state, Aggregation { expected: 3, taken: 1, largest: Some(29) });
    assert_eq!(next, Next::Receive);
    let (state, next) = on_arrival(state, Arrival::Message(None));
    assert_eq!(state, Aggregation { expected: 3, taken: 2, largest: Some(29) });
    assert_eq!(next, Next::Receive);
    let (state, next) = on_arrival(state, Arrival::Message(Some(37)));
    assert_eq!(state, Aggregation { expected: 3, taken: 3, largest: Some(37) });
    assert_eq!(next, Next::Return(Some(37)));
}

#[test]
fn complete_reduction_takes_no_more() {
    let (state, _) = begin_aggregation(1);
    let (state, next) = on_arrival(state, Arrival::Message(Some(7)));
    assert_eq!(next, Next::Return(Some(7)));
    let (after, next) = on_arrival(state, Arrival::Message(Some(11)));
    assert_eq!(after, state);
    assert_eq!(next, Next::Return(Some(7)));
}

#[test]
fn waiting_changes_nothing() {
    let (state, _) = begin_aggregation(2);
    let (state, _) = on_arrival(state, Arrival::Message(Some(3)));
    assert_eq!(on_arrival(state, Arrival::Nothing), (state, Next::Receive));
}

#[test]
fn closed_channel_fails_an_incomplete_reduction() {
    let (state, _) = begin_aggregation(2);
    assert_eq!(on_arrival(state, Arrival::Closed), (state, Next::Fail));
    let (state, _) = on_arrival(state, Arrival::Message(Some(3)));
    assert_eq!(on_arrival(state, Arrival::Closed), (state, Next::Fail));
    let (state, _) = on_arrival(state, Arrival::Message(Some(5)));
    assert_eq!(on_arrival(state, Arrival::Closed), (state, Next::Return(Some(5))));
}
