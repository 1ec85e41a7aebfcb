//! The search of one sub-range, and of all sub-ranges in turn.
use vstd::prelude::*;
use crate::accumulator::{advanced, last_of, lemma_merged, lemma_merged_primes, merged, KnownPrimes};
use crate::partition::{lemma_sub_ranges_shape, lies_in, partition, sub_ranges, SubRange};
use crate::primality::{
    admitted,
    calculate_prime,
    fresh_primes,
    is_largest_prime_of,
    is_prime,
    is_prime_list,
    lemma_ascending_unique,
    lemma_complete_witnesses_decide,
    lemma_fresh_primes,
    lemma_selected,
    selected,
};

verus! {

/// The primes that an optional accumulator holds.
pub open spec fn shared_witnesses(shared: Option<KnownPrimes>) -> Option<Seq<usize>> {
    match shared {
        Some(known) => Some(known@.primes),
        None => None,
    }
}

/// What the search of `sub` adds to what is known: with an accumulator the
/// primes of the sub-range that it does not hold yet, without one all primes
/// of the sub-range.
pub open spec fn job_found(sub: SubRange, shared: Option<Seq<usize>>) -> Seq<usize> {
    match shared {
        Some(known) => fresh_primes(sub.start as int, sub.end as int, known),
        None => selected(sub.start as int, sub.end as int, None),
    }
}

/// The accumulator after the search of `sub`: it takes in what was found.
pub open spec fn job_shared(sub: SubRange, shared: Option<Seq<usize>>) -> Option<Seq<usize>> {
    match shared {
        Some(known) => Some(merged(known, job_found(sub, shared))),
        None => None,
    }
}

/// The partial result that the search of `sub` reports: the largest prime
/// of the accumulator where there is one, else the largest prime of the
/// sub-range.
pub open spec fn job_message(sub: SubRange, shared: Option<Seq<usize>>) -> Option<usize> {
    match job_shared(sub, shared) {
        Some(known) => last_of(known),
        None => last_of(job_found(sub, shared)),
    }
}

/// `message` is a partial result for `sub` in a search of `lo..=hi`: a
/// prime of the interval that no prime of the sub-range exceeds, or `None`
/// where the sub-range holds no prime.
pub open spec fn is_partial_result(lo: int, hi: int, sub: SubRange, message: Option<usize>) -> bool {
    match message {
        Some(top) => {
            &&& lo <= top <= hi
            &&& is_prime(top as int)
            &&& forall|q: int| #[trigger] lies_in(sub, q) && is_prime(q) ==> q <= top
        },
        None => forall|q: int| #[trigger] lies_in(sub, q) ==> !is_prime(q),
    }
}

/// Searched without an accumulator, a sub-range reports its largest prime.
pub proof fn lemma_lone_search_finds_largest(sub: SubRange)
    ensures
        is_largest_prime_of(sub.start as int, sub.end as int, job_message(sub, None)),
{
    let found = job_found(sub, None);
    lemma_selected(sub.start as int, sub.end as int, None);
    if found.len() > 0 {
        let largest = found.last();
        assert forall|q: int| largest < q <= sub.end implies !is_prime(q) by {
            if is_prime(q) {
                assert(found.contains(q as usize));
                let i = choose|i: int| 0 <= i < found.len() && found[i] == q as usize;
                assert(found[i] <= found[found.len() - 1]);
            }
        }
    } else {
        assert forall|q: int| sub.start <= q <= sub.end implies !is_prime(q) by {
            if is_prime(q) {
                assert(found.contains(q as usize));
            }
        }
    }
}

/// A search with an accumulator leaves a list of primes: what was held
/// before, and every prime of the sub-range.
pub proof fn lemma_search_extends_accumulator(sub: SubRange, known: Seq<usize>)
    requires
        is_prime_list(known),
    ensures
        job_shared(sub, Some(known)) is Some,
        is_prime_list(job_shared(sub, Some(known))->Some_0),
        forall|v: usize| #[trigger]
            job_shared(sub, Some(known))->Some_0.contains(v) <==> known.contains(v) || (lies_in(
                sub,
                v as int,
            ) && is_prime(v as int)),
{
    let found = job_found(sub, Some(known));
    lemma_fresh_primes(sub.start as int, sub.end as int, known);
    assert forall|i: int, j: int| 0 <= i < known.len() && 0 <= j < found.len() implies known[i]
        != found[j] by {
        assert(found.contains(found[j]));
        assert(known.contains(known[i]));
    }
    lemma_merged(known, found);
    lemma_merged_primes(known, found);
}

/// With an accumulator the partial result is a prime that the accumulator
/// holds afterwards, at or above every prime of the sub-range.
pub proof fn lemma_shared_search_reports_prime(sub: SubRange, known: Seq<usize>)
    requires
        is_prime_list(known),
    ensures
        job_message(sub, Some(known)) matches Some(top) ==> job_shared(
            sub,
            Some(known),
        )->Some_0.contains(top),
        forall|q: int| #[trigger]
            lies_in(sub, q) && is_prime(q) ==> job_message(sub, Some(known)) is Some && q
                <= job_message(sub, Some(known))->Some_0,
{
    let after = job_shared(sub, Some(known))->Some_0;
    lemma_search_extends_accumulator(sub, known);
    if after.len() > 0 {
        assert(after[after.len() - 1] == after.last());
    }
    assert forall|q: int| #[trigger] lies_in(sub, q) && is_prime(q) implies job_message(
        sub,
        Some(known),
    ) is Some && q <= job_message(sub, Some(known))->Some_0 by {
        assert(after.contains(q as usize));
        let i = choose|i: int| 0 <= i < after.len() && after[i] == q as usize;
        assert(after[i] <= after[after.len() - 1]);
    }
}

/// An accumulator for a search that begins at `start`: an empty one where
/// the search begins at zero, none elsewhere.
pub fn initial_accumulator(start: usize) -> (shared: Option<KnownPrimes>)
    ensures
        shared_witnesses(shared) == initial_witnesses(start as int),
        shared matches Some(known) ==> known@.searched == 1,
{
    if start == 0 {
        Some(KnownPrimes::new())
    } else {
        None
    }
}

/// Searches one sub-range and reports its partial result.
///
/// Without an accumulator the result is the largest prime of the sub-range,
/// or `None` where it holds no prime. With an accumulator the primes of the
/// sub-range that it does not hold yet are taken into it, and the result is
/// the largest prime that it holds afterwards, or `None` while it is empty.
///
/// With an accumulator the candidates are divided by its primes alone where
/// it lacks no prime up to half of the sub-range's end, which is enough to
/// decide every candidate; else they are divided by every smaller number, as
/// without an accumulator.
pub fn search_sub_range(sub: SubRange, shared: &mut Option<KnownPrimes>) -> (message: Option<usize>)
    ensures
        shared_witnesses(*final(shared)) == job_shared(sub, shared_witnesses(*old(shared))),
        message == job_message(sub, shared_witnesses(*old(shared))),
        *old(shared) is None ==> is_largest_prime_of(sub.start as int, sub.end as int, message),
        *old(shared) matches Some(before) ==> {
            &&& *final(shared) matches Some(after)
            &&& after@.searched == advanced(sub, before@.searched)
            &&& is_prime_list(after@.primes)
            &&& message == last_of(after@.primes)
            &&& forall|v: usize| #[trigger]
                after@.primes.contains(v) <==> before@.primes.contains(v) || (lies_in(sub, v as int)
                    && is_prime(v as int))
        },
{
    match shared {
        Some(known) => {
            let ghost held = known@.primes;
            let list = known.primes();
            let complete: bool = sub.end / 2 <= known.searched();
            let fresh = if complete {
                let found = calculate_prime(sub.start, sub.end, Some(list)).unwrap();
                proof {
                    lemma_selected(sub.start as int, sub.end as int, Some(held));
                    assert forall|v: usize|
                        found@.contains(v) <==> lies_in(sub, v as int) && is_prime(v as int)
                            && !held.contains(v) by {
                        let p = v as int;
                        if sub.start <= v <= sub.end {
                            assert(p / 2 <= (sub.end as int) / 2);
                            lemma_complete_witnesses_decide(held, p);
                            if admitted(Some(held), p) {
                                assert(found@.contains(p as usize));
                            }
                        }
                        if found@.contains(v) {
                            let i = choose|i: int| 0 <= i < found@.len() && found@[i] == v;
                        }
                    }
                }
                found
            } else {
                let found = calculate_prime(sub.start, sub.end, None).unwrap();
                proof {
                    lemma_selected(sub.start as int, sub.end as int, None);
                    assert forall|v: usize|
                        found@.contains(v) <==> lies_in(sub, v as int) && is_prime(v as int) by {
                        let p = v as int;
                        if lies_in(sub, p) && is_prime(p) {
                            assert(admitted(None, p));
                            assert(found@.contains(p as usize));
                        }
                        if found@.contains(v) {
                            let i = choose|i: int| 0 <= i < found@.len() && found@[i] == v;
                        }
                    }
                }
                known.fresh_of(&found)
            };
            proof {
                lemma_fresh_primes(sub.start as int, sub.end as int, held);
                lemma_ascending_unique(
                    fresh@,
                    fresh_primes(sub.start as int, sub.end as int, held),
                );
                lemma_search_extends_accumulator(sub, held);
            }
            known.absorb(sub, &fresh);
            known.largest()
        },
        None => {
            proof {
                lemma_lone_search_finds_largest(sub);
            }
            let found = calculate_prime(sub.start, sub.end, None).unwrap();
            if found.len() > 0 {
                Some(found[found.len() - 1])
            } else {
                None
            }
        },
    }
}

/// The accumulator that a search of `start..=end` begins with: an empty one
/// where the interval begins at zero, none elsewhere.
pub open spec fn initial_witnesses(start: int) -> Option<Seq<usize>> {
    if start == 0 {
        Some(Seq::empty())
    } else {
        None
    }
}

/// The accumulator after the first `done` of `jobs` were searched in turn.
pub open spec fn witnesses_after(jobs: Seq<SubRange>, shared: Option<Seq<usize>>, done: nat) -> Option<
    Seq<usize>,
>
    decreases done,
{
    if done == 0 {
        shared
    } else {
        job_shared(jobs[done - 1], witnesses_after(jobs, shared, (done - 1) as nat))
    }
}

/// The partial results of `jobs`, searched in turn.
pub open spec fn messages_in_turn(jobs: Seq<SubRange>, shared: Option<Seq<usize>>) -> Seq<
    Option<usize>,
> {
    Seq::new(jobs.len(), |i: int| job_message(jobs[i], witnesses_after(jobs, shared, i as nat)))
}

/// Sub-ranges inside `lo..=hi`.
pub open spec fn all_inside(jobs: Seq<SubRange>, lo: int, hi: int) -> bool {
    forall|k: int| 0 <= k < jobs.len() ==> lo <= (#[trigger] jobs[k]).start && jobs[k].end <= hi
}

/// Beginning without an accumulator, there is none after any number of
/// searches either.
proof fn lemma_no_witnesses(jobs: Seq<SubRange>, done: nat)
    ensures
        witnesses_after(jobs, None, done) == None::<Seq<usize>>,
    decreases done,
{
    if done > 0 {
        lemma_no_witnesses(jobs, (done - 1) as nat);
    }
}

/// Beginning with an empty accumulator, it holds after any number of
/// searches a list of primes of the interval.
proof fn lemma_witnesses_gather(jobs: Seq<SubRange>, lo: int, hi: int, done: nat)
    requires
        all_inside(jobs, lo, hi),
        done <= jobs.len(),
    ensures
        witnesses_after(jobs, Some(Seq::empty()), done) is Some,
        is_prime_list(witnesses_after(jobs, Some(Seq::empty()), done)->Some_0),
        forall|i: int|
            0 <= i < witnesses_after(jobs, Some(Seq::empty()), done)->Some_0.len() ==> lo
                <= #[trigger] witnesses_after(jobs, Some(Seq::empty()), done)->Some_0[i] <= hi,
    decreases done,
{
    if done > 0 {
        lemma_witnesses_gather(jobs, lo, hi, (done - 1) as nat);
        let sub = jobs[done - 1];
        let before = witnesses_after(jobs, Some(Seq::empty()), (done - 1) as nat)->Some_0;
        let after = witnesses_after(jobs, Some(Seq::empty()), done)->Some_0;
        lemma_search_extends_accumulator(sub, before);
        assert(after == job_shared(sub, Some(before))->Some_0);
        assert forall|i: int| 0 <= i < after.len() implies lo <= #[trigger] after[i] <= hi by {
            let v = after[i];
            assert(after.contains(v));
            if before.contains(v) {
                let j = choose|j: int| 0 <= j < before.len() && before[j] == v;
            }
        }
    }
}

/// In whatever order sub-ranges of an interval are searched, with an
/// accumulator that is empty at first or with none, each of them reports a
/// prime of the interval that none of its own primes exceeds, or `None`
/// where it holds no prime.
pub proof fn lemma_partial_results(jobs: Seq<SubRange>, start: int, lo: int, hi: int, k: int)
    requires
        all_inside(jobs, lo, hi),
        0 <= k < jobs.len(),
    ensures
        is_partial_result(lo, hi, jobs[k], messages_in_turn(jobs, initial_witnesses(start))[k]),
{
    let sub = jobs[k];
    let message = messages_in_turn(jobs, initial_witnesses(start))[k];
    if start == 0 {
        lemma_witnesses_gather(jobs, lo, hi, k as nat);
        lemma_witnesses_gather(jobs, lo, hi, (k + 1) as nat);
        let before = witnesses_after(jobs, Some(Seq::empty()), k as nat)->Some_0;
        let after = witnesses_after(jobs, Some(Seq::empty()), (k + 1) as nat)->Some_0;
        lemma_shared_search_reports_prime(sub, before);
        assert(message == job_message(sub, Some(before)));
        if message is Some {
            let top = message->Some_0;
            assert(after.contains(top));
            let i = choose|i: int| 0 <= i < after.len() && after[i] == top;
        } else {
            assert forall|q: int| #[trigger] lies_in(sub, q) implies !is_prime(q) by {
                if is_prime(q) {
                    assert(lies_in(sub, q) && is_prime(q));
                }
            }
        }
    } else {
        lemma_no_witnesses(jobs, k as nat);
        lemma_lone_search_finds_largest(sub);
        assert(message == job_message(sub, None));
    }
}

/// Cuts `start..=end` into `num_cpus` sub-ranges and searches them in
/// ascending order, one after the other; returns their partial results in
/// that order. Where the interval begins at zero the searches share one
/// accumulator. Each partial result is a prime of the interval that no prime
/// of its sub-range exceeds, or `None` where the sub-range holds no prime.
pub fn prime_calculator_job(args: (usize, usize), num_cpus: usize) -> (messages: Vec<Option<usize>>)
    requires
        args.0 <= args.1,
        num_cpus >= 1,
    ensures
        messages@ == messages_in_turn(
            sub_ranges(args.0 as int, args.1 as int, num_cpus as int),
            initial_witnesses(args.0 as int),
        ),
        messages@.len() == num_cpus,
        forall|k: int|
            0 <= k < num_cpus ==> is_partial_result(
                args.0 as int,
                args.1 as int,
                sub_ranges(args.0 as int, args.1 as int, num_cpus as int)[k],
                #[trigger] messages@[k],
            ),
{
    let start: usize = args.0;
    let end: usize = args.1;
    let jobs = partition(start, end, num_cpus);
    let mut shared: Option<KnownPrimes> = initial_accumulator(start);
    let ghost initial = shared_witnesses(shared);
    let mut messages: Vec<Option<usize>> = Vec::new();
    let mut job: usize = 0;
    while job < jobs.len()
        invariant
            job <= jobs@.len(),
            messages@.len() == job,
            shared_witnesses(shared) == witnesses_after(jobs@, initial, job as nat),
            forall|i: int|
                0 <= i < job ==> #[trigger] messages@[i] == job_message(
                    jobs@[i],
                    witnesses_after(jobs@, initial, i as nat),
                ),
        decreases jobs@.len() - job,
    {
        let message = search_sub_range(jobs[job], &mut shared);
        messages.push(message);
        job = job + 1;
    }
    proof {
        lemma_sub_ranges_shape(start as int, end as int, num_cpus as int);
        assert(all_inside(jobs@, start as int, end as int));
        assert forall|k: int| 0 <= k < num_cpus implies is_partial_result(
            start as int,
            end as int,
            jobs@[k],
            #[trigger] messages@[k],
        ) by {
            lemma_partial_results(jobs@, start as int, start as int, end as int, k);
        }
    }
    messages
}

} // verus!
