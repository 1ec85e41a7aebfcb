//! The whole search: partition, search of every sub-range, reduction.
use vstd::prelude::*;
use crate::aggregate::{
    largest_prime_aggregator,
    lemma_order_is_irrelevant,
    lemma_reduced_is_largest,
    reduced,
    reported,
};
use crate::partition::{
    lemma_sub_ranges_cover,
    lemma_sub_ranges_shape,
    lies_in,
    sub_ranges,
    SubRange,
};
use crate::primality::{is_largest_prime_of, is_prime};
use crate::worker::{
    all_inside,
    initial_witnesses,
    lemma_partial_results,
    messages_in_turn,
    prime_calculator_job,
};

verus! {

/// The answer of the search of `start..=end` with `workers` sub-ranges,
/// searched in ascending order.
pub open spec fn search_outcome(start: int, end: int, workers: int) -> Option<usize> {
    reduced(messages_in_turn(sub_ranges(start, end, workers), initial_witnesses(start)))
}

/// `q` lies in one of the sub-ranges.
pub open spec fn lies_in_one(jobs: Seq<SubRange>, q: int) -> bool {
    exists|k: int| 0 <= k < jobs.len() && #[trigger] lies_in(jobs[k], q)
}

/// The sub-ranges stay inside `lo..=hi`, and every number of `lo..=hi` lies
/// in one of them.
pub open spec fn covers(jobs: Seq<SubRange>, lo: int, hi: int) -> bool {
    &&& all_inside(jobs, lo, hi)
    &&& forall|q: int| lo <= q <= hi ==> #[trigger] lies_in_one(jobs, q)
}

/// An interval has at most one largest prime.
pub proof fn lemma_largest_prime_is_unique(
    lo: int,
    hi: int,
    one: Option<usize>,
    other: Option<usize>,
)
    requires
        is_largest_prime_of(lo, hi, one),
        is_largest_prime_of(lo, hi, other),
    ensures
        one == other,
{
}

/// The partition of an interval covers it.
pub proof fn lemma_partition_covers(start: int, end: int, workers: int)
    requires
        0 <= start <= end <= usize::MAX,
        workers >= 1,
    ensures
        covers(sub_ranges(start, end, workers), start, end),
{
    let jobs = sub_ranges(start, end, workers);
    lemma_sub_ranges_shape(start, end, workers);
    assert forall|q: int| start <= q <= end implies #[trigger] lies_in_one(jobs, q) by {
        let k = lemma_sub_ranges_cover(start, end, workers, q);
        assert(lies_in(jobs[k], q));
    }
}

/// Sub-ranges cover an interval in whatever order they are taken.
pub proof fn lemma_any_order_covers(jobs: Seq<SubRange>, taken: Seq<SubRange>, lo: int, hi: int)
    requires
        covers(jobs, lo, hi),
        taken.to_multiset() == jobs.to_multiset(),
    ensures
        covers(taken, lo, hi),
{
    assert forall|sub: SubRange| taken.contains(sub) == jobs.contains(sub) by {
        vstd::seq_lib::to_multiset_contains(taken, sub);
        vstd::seq_lib::to_multiset_contains(jobs, sub);
    }
    assert forall|k: int| 0 <= k < taken.len() implies lo <= (#[trigger] taken[k]).start
        && taken[k].end <= hi by {
        assert(jobs.contains(taken[k]));
        let j = choose|j: int| 0 <= j < jobs.len() && jobs[j] == taken[k];
        assert(lo <= jobs[j].start);
    }
    assert forall|q: int| lo <= q <= hi implies #[trigger] lies_in_one(taken, q) by {
        assert(lies_in_one(jobs, q));
        let j = choose|j: int| 0 <= j < jobs.len() && lies_in(jobs[j], q);
        assert(taken.contains(jobs[j]));
        let k = choose|k: int| 0 <= k < taken.len() && taken[k] == jobs[j];
        assert(lies_in(taken[k], q));
    }
}

/// Sub-ranges that cover an interval, searched in turn with an accumulator
/// that is empty at first or with none, yield the largest prime of the
/// interval.
pub proof fn lemma_covering_searches_find_largest_prime(
    jobs: Seq<SubRange>,
    start: int,
    lo: int,
    hi: int,
)
    requires
        covers(jobs, lo, hi),
    ensures
        is_largest_prime_of(lo, hi, reduced(messages_in_turn(jobs, initial_witnesses(start)))),
{
    let messages = messages_in_turn(jobs, initial_witnesses(start));
    let answer = reduced(messages);
    lemma_reduced_is_largest(messages);
    assert forall|q: int| lo <= q <= hi && is_prime(q) implies exists|value: usize|
        reported(messages, value) && q <= value by {
        assert(lies_in_one(jobs, q));
        let k = choose|k: int| 0 <= k < jobs.len() && lies_in(jobs[k], q);
        lemma_partial_results(jobs, start, lo, hi, k);
        assert(lies_in(jobs[k], q) && is_prime(q));
        let value = messages[k]->Some_0;
        assert(messages[k] == Some(value));
        assert(reported(messages, value) && q <= value);
    }
    match answer {
        Some(largest) => {
            let k = choose|k: int| 0 <= k < messages.len() && messages[k] == Some(largest);
            lemma_partial_results(jobs, start, lo, hi, k);
            assert forall|q: int| largest < q <= hi implies !is_prime(q) by {
                if is_prime(q) {
                    let value = choose|value: usize| reported(messages, value) && q <= value;
                    assert(value <= largest);
                }
            }
        },
        None => {
            assert forall|q: int| lo <= q <= hi implies !is_prime(q) by {
                if is_prime(q) {
                    let value = choose|value: usize| reported(messages, value) && q <= value;
                }
            }
        },
    }
}

/// The answer does not depend on the schedule: in whatever order the
/// sub-ranges of the partition are searched, and in whatever order their
/// partial results arrive, reducing these yields the largest prime of the
/// interval.
pub proof fn lemma_any_schedule_answers(
    start: int,
    end: int,
    workers: int,
    taken: Seq<SubRange>,
    arrived: Seq<Option<usize>>,
)
    requires
        0 <= start <= end <= usize::MAX,
        workers >= 1,
        taken.to_multiset() == sub_ranges(start, end, workers).to_multiset(),
        arrived.to_multiset() == messages_in_turn(taken, initial_witnesses(start)).to_multiset(),
    ensures
        is_largest_prime_of(start, end, reduced(arrived)),
{
    lemma_partition_covers(start, end, workers);
    lemma_any_order_covers(sub_ranges(start, end, workers), taken, start, end);
    lemma_order_is_irrelevant(arrived, messages_in_turn(taken, initial_witnesses(start)));
    lemma_covering_searches_find_largest_prime(taken, start, start, end);
}

/// The answer does not depend on the number of workers.
pub proof fn lemma_answer_ignores_workers(start: int, end: int, workers: int, others: int)
    requires
        0 <= start <= end <= usize::MAX,
        workers >= 1,
        others >= 1,
    ensures
        search_outcome(start, end, workers) == search_outcome(start, end, others),
        is_largest_prime_of(start, end, search_outcome(start, end, workers)),
{
    lemma_partition_covers(start, end, workers);
    lemma_partition_covers(start, end, others);
    lemma_covering_searches_find_largest_prime(sub_ranges(start, end, workers), start, start, end);
    lemma_covering_searches_find_largest_prime(sub_ranges(start, end, others), start, start, end);
    lemma_largest_prime_is_unique(
        start,
        end,
        search_outcome(start, end, workers),
        search_outcome(start, end, others),
    );
}

/// `num_cpus::get`: the number of logical CPUs that this process may use.
/// Its documentation promises a count of at least 1.
#[verifier::external_body]
fn available_cpus() -> (count: usize)
    ensures
        count >= 1,
{
    num_cpus::get()
}

/// Finds the largest prime of the inclusive interval `args.0..=args.1`, or
/// `None` where the interval holds no prime.
///
/// The interval is cut into one sub-range per CPU of the host; the
/// sub-ranges are searched in ascending order and their partial results
/// reduced to the largest. Where the interval begins at zero the searches
/// share the primes found so far. The answer is the same on every host.
pub fn largest_prime(args: (usize, usize)) -> (largest: Option<usize>)
    requires
        args.0 <= args.1,
    ensures
        is_largest_prime_of(args.0 as int, args.1 as int, largest),
{
    let num_cpus: usize = available_cpus();
    let messages = prime_calculator_job(args, num_cpus);
    let largest = largest_prime_aggregator(&messages);
    proof {
        lemma_answer_ignores_workers(args.0 as int, args.1 as int, num_cpus as int, 1);
    }
    largest
}

} // verus!
