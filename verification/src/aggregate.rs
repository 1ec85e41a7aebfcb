//! Reducing the partial results to a single answer.
use vstd::prelude::*;

verus! {

/// `value` was reported by some worker and can be a prime: it is above 1.
pub open spec fn reported(messages: Seq<Option<usize>>, value: usize) -> bool {
    value > 1 && messages.contains(Some(value))
}

/// `top` is the largest value above 1 among the partial results, or `None`
/// where none of them holds such a value.
pub open spec fn is_largest_reported(messages: Seq<Option<usize>>, top: Option<usize>) -> bool {
    match top {
        Some(largest) => reported(messages, largest) && forall|value: usize|
            reported(messages, value) ==> value <= largest,
        None => forall|value: usize| !reported(messages, value),
    }
}

/// The running maximum after one more partial result. A value replaces a
/// present maximum when it is strictly greater, and an absent one when it is
/// above 1.
pub open spec fn step(largest: Option<usize>, message: Option<usize>) -> Option<usize> {
    match (largest, message) {
        (Some(prime), Some(value)) => if value > prime {
            message
        } else {
            largest
        },
        (None, Some(value)) => if value > 1 {
            message
        } else {
            None
        },
        (_, None) => largest,
    }
}

/// The running maximum after all of `messages`, taken in from first to last.
pub open spec fn reduced(messages: Seq<Option<usize>>) -> Option<usize>
    decreases messages.len(),
{
    if messages.len() == 0 {
        None
    } else {
        step(reduced(messages.drop_last()), messages.last())
    }
}

/// Reducing the partial results yields the largest value above 1 among
/// them, or `None` where there is no such value.
pub proof fn lemma_reduced_is_largest(messages: Seq<Option<usize>>)
    ensures
        is_largest_reported(messages, reduced(messages)),
    decreases messages.len(),
{
    if messages.len() > 0 {
        let front = messages.drop_last();
        lemma_reduced_is_largest(front);
        assert forall|value: usize| reported(messages, value) implies reported(front, value)
            || messages.last() == Some(value) by {
            let i = choose|i: int| 0 <= i < messages.len() && messages[i] == Some(value);
            if i < front.len() {
                assert(front[i] == Some(value));
            }
        }
        assert forall|value: usize| reported(front, value) implies reported(messages, value) by {
            let i = choose|i: int| 0 <= i < front.len() && front[i] == Some(value);
            assert(messages[i] == Some(value));
        }
        assert(messages[messages.len() - 1] == messages.last());
    }
}

/// At most one answer is the largest reported value.
pub proof fn lemma_largest_reported_is_unique(
    messages: Seq<Option<usize>>,
    one: Option<usize>,
    other: Option<usize>,
)
    requires
        is_largest_reported(messages, one),
        is_largest_reported(messages, other),
    ensures
        one == other,
{
}

/// The order in which the partial results arrive does not change the
/// answer: two sequences with the same results, each as often in one as in
/// the other, reduce to the same value.
pub proof fn lemma_order_is_irrelevant(arrived: Seq<Option<usize>>, rearranged: Seq<Option<usize>>)
    requires
        arrived.to_multiset() == rearranged.to_multiset(),
    ensures
        reduced(arrived) == reduced(rearranged),
{
    lemma_reduced_is_largest(arrived);
    lemma_reduced_is_largest(rearranged);
    assert forall|value: usize| reported(arrived, value) == reported(rearranged, value) by {
        vstd::seq_lib::to_multiset_contains(arrived, Some(value));
        vstd::seq_lib::to_multiset_contains(rearranged, Some(value));
    }
    lemma_largest_reported_is_unique(arrived, reduced(arrived), reduced(rearranged));
}

/// Takes one more partial result into the running maximum.
pub fn aggregate_step(largest: Option<usize>, message: Option<usize>) -> (next: Option<usize>)
    ensures
        next == step(largest, message),
{
    match message {
        Some(value) => match largest {
            Some(prime) => if value > prime {
                message
            } else {
                largest
            },
            None => if value > 1 {
                message
            } else {
                None
            },
        },
        None => largest,
    }
}

/// What the aggregator is handed when it asks the channel for a message.
#[derive(Clone, Copy, Debug, PartialEq, Eq)]
pub enum Arrival {
    /// The partial result of one worker.
    Message(Option<usize>),
    /// No message has arrived yet.
    Nothing,
    /// Every worker is gone, and no message is left.
    Closed,
}

/// What the aggregator does next.
#[derive(Clone, Copy, Debug, PartialEq, Eq)]
pub enum Next {
    /// Ask the channel for another message.
    Receive,
    /// Every expected message was taken in: return the answer.
    Return(Option<usize>),
    /// A worker ended without a message: the search has no answer.
    Fail,
}

/// The state of a reduction: how many messages are expected, how many were
/// taken in, and the running maximum.
#[derive(Clone, Copy, Debug, PartialEq, Eq)]
pub struct Aggregation {
    pub expected: usize,
    pub taken: usize,
    pub largest: Option<usize>,
}

/// The reduction is complete: one message of every worker was taken in.
pub open spec fn is_complete(state: Aggregation) -> bool {
    state.taken >= state.expected
}

/// The state after an arrival. A message is taken in while the reduction is
/// incomplete; nothing else changes the state.
pub open spec fn after_arrival(state: Aggregation, arrival: Arrival) -> Aggregation {
    match arrival {
        Arrival::Message(message) if !is_complete(state) => Aggregation {
            expected: state.expected,
            taken: (state.taken + 1) as usize,
            largest: step(state.largest, message),
        },
        _ => state,
    }
}

/// What to do in a state: return the running maximum once the reduction is
/// complete, ask for a message before.
pub open spec fn next_in(state: Aggregation) -> Next {
    if is_complete(state) {
        Next::Return(state.largest)
    } else {
        Next::Receive
    }
}

/// What to do after an arrival in `state`. A complete reduction returns its
/// answer whatever arrives. An incomplete one goes by its next state after a
/// message, asks again after nothing, and fails once the channel is closed.
pub open spec fn next_after(state: Aggregation, arrival: Arrival) -> Next {
    if is_complete(state) {
        Next::Return(state.largest)
    } else {
        match arrival {
            Arrival::Message(_) => next_in(after_arrival(state, arrival)),
            Arrival::Nothing => Next::Receive,
            Arrival::Closed => Next::Fail,
        }
    }
}

/// The state of a reduction that expects `expected` messages, after
/// `arrived` were handed to it one by one.
pub open spec fn fed(expected: usize, arrived: Seq<Option<usize>>) -> Aggregation
    decreases arrived.len(),
{
    if arrived.len() == 0 {
        Aggregation { expected, taken: 0, largest: None }
    } else {
        after_arrival(fed(expected, arrived.drop_last()), Arrival::Message(arrived.last()))
    }
}

/// A reduction takes in the first `expected` messages and no more: it is
/// complete exactly from the `expected`-th message on, and its running
/// maximum is the reduction of the messages taken in.
pub proof fn lemma_fed(expected: usize, arrived: Seq<Option<usize>>)
    ensures
        fed(expected, arrived).expected == expected,
        arrived.len() <= expected ==> fed(expected, arrived).taken == arrived.len() && fed(
            expected,
            arrived,
        ).largest == reduced(arrived),
        arrived.len() > expected ==> fed(expected, arrived) == fed(
            expected,
            arrived.subrange(0, expected as int),
        ),
        is_complete(fed(expected, arrived)) <==> arrived.len() >= expected,
    decreases arrived.len(),
{
    if arrived.len() > 0 {
        let front = arrived.drop_last();
        lemma_fed(expected, front);
        if arrived.len() > expected {
            if front.len() > expected {
                assert(front.subrange(0, expected as int) == arrived.subrange(0, expected as int));
            } else {
                assert(front == arrived.subrange(0, expected as int));
            }
        }
    } else {
        assert(arrived.subrange(0, 0) == arrived);
    }
}

/// Begins a reduction of `expected` messages, and says what to do first.
pub fn begin_aggregation(expected: usize) -> (begun: (Aggregation, Next))
    ensures
        begun.0 == fed(expected, Seq::empty()),
        begun.1 == next_in(begun.0),
{
    let state = Aggregation { expected, taken: 0, largest: None };
    let next = if expected == 0 {
        Next::Return(None)
    } else {
        Next::Receive
    };
    (state, next)
}

/// Hands the reduction what the channel gave, and says what to do next.
pub fn on_arrival(state: Aggregation, arrival: Arrival) -> (moved: (Aggregation, Next))
    ensures
        moved.0 == after_arrival(state, arrival),
        moved.1 == next_after(state, arrival),
{
    if state.taken >= state.expected {
        return (state, Next::Return(state.largest));
    }
    match arrival {
        Arrival::Message(message) => {
            let taken: usize = state.taken + 1;
            let largest = aggregate_step(state.largest, message);
            let after = Aggregation { expected: state.expected, taken, largest };
            let next = if taken >= state.expected {
                Next::Return(largest)
            } else {
                Next::Receive
            };
            (after, next)
        },
        Arrival::Nothing => (state, Next::Receive),
        Arrival::Closed => (state, Next::Fail),
    }
}

/// Reduces all partial results to the final one: the largest value above 1
/// among them, or `None` where no worker reported such a value. Every
/// message is taken in; their order does not matter.
pub fn largest_prime_aggregator(messages: &Vec<Option<usize>>) -> (largest: Option<usize>)
    ensures
        largest == reduced(messages@),
        is_largest_reported(messages@, largest),
{
    let mut largest: Option<usize> = None;
    let mut count: usize = 0;
    while count < messages.len()
        invariant
            count <= messages@.len(),
            largest == reduced(messages@.subrange(0, count as int)),
        decreases messages@.len() - count,
    {
        proof {
            let taken = messages@.subrange(0, count as int + 1);
            assert(taken.drop_last() == messages@.subrange(0, count as int));
            assert(taken.last() == messages@[count as int]);
        }
        largest = aggregate_step(largest, messages[count]);
        count = count + 1;
    }
    proof {
        assert(messages@.subrange(0, count as int) == messages@);
        lemma_reduced_is_largest(messages@);
    }
    largest
}

} // verus!
