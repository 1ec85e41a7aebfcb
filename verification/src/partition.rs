//! Cutting an interval into one sub-range per worker.
use vstd::prelude::*;

verus! {

/// One worker's share of the interval, inclusive on both ends.
#[derive(Clone, Copy, Debug, PartialEq, Eq, Structural)]
pub struct SubRange {
    pub start: usize,
    pub end: usize,
}

/// `q` lies in the sub-range.
pub open spec fn lies_in(sub: SubRange, q: int) -> bool {
    sub.start <= q <= sub.end
}

/// The size that every sub-range but the last one has.
pub open spec fn base_job_size(start: int, end: int, workers: int) -> int {
    (end - start) / workers
}

/// The size of the last sub-range: what the others leave of the interval.
pub open spec fn last_job_size(start: int, end: int, workers: int) -> int {
    (end - start) - base_job_size(start, end, workers) * (workers - 1)
}

/// The lower bound of sub-range `i`: each one begins where its predecessor
/// ends.
pub open spec fn job_start(start: int, end: int, workers: int, i: int) -> int {
    start + i * base_job_size(start, end, workers)
}

/// The upper bound of sub-range `i`; the last one reaches `end`.
pub open spec fn job_end(start: int, end: int, workers: int, i: int) -> int {
    if i == workers - 1 {
        job_start(start, end, workers, i) + last_job_size(start, end, workers)
    } else {
        job_start(start, end, workers, i) + base_job_size(start, end, workers)
    }
}

/// The sub-ranges of `start..=end` for `workers` workers, in ascending
/// order.
pub open spec fn sub_ranges(start: int, end: int, workers: int) -> Seq<SubRange> {
    Seq::new(
        workers as nat,
        |i: int|
            SubRange {
                start: job_start(start, end, workers, i) as usize,
                end: job_end(start, end, workers, i) as usize,
            },
    )
}

/// The bounds of every sub-range lie inside the interval, in order.
pub proof fn lemma_job_bounds(start: int, end: int, workers: int, i: int)
    requires
        start <= end,
        workers >= 1,
        0 <= i < workers,
    ensures
        0 <= base_job_size(start, end, workers),
        base_job_size(start, end, workers) <= last_job_size(start, end, workers),
        last_job_size(start, end, workers) < base_job_size(start, end, workers) + workers,
        start <= job_start(start, end, workers, i) <= job_end(start, end, workers, i) <= end,
        i == workers - 1 ==> job_end(start, end, workers, i) == end,
        i < workers - 1 ==> job_end(start, end, workers, i) == job_start(start, end, workers, i + 1),
{
    let total = end - start;
    let base = total / workers;
    vstd::arithmetic::div_mod::lemma_fundamental_div_mod(total, workers);
    vstd::arithmetic::div_mod::lemma_mod_bound(total, workers);
    assert(0 <= base) by (nonlinear_arith)
        requires
            total == workers * base + total % workers,
            0 <= total % workers < workers,
            total >= 0,
            workers >= 1,
    ;
    assert(base * (workers - 1) == workers * base - base) by (nonlinear_arith);
    assert(i * base <= (workers - 1) * base) by (nonlinear_arith)
        requires
            0 <= i <= workers - 1,
            0 <= base,
    ;
    assert((workers - 1) * base == base * (workers - 1)) by (nonlinear_arith);
    assert(0 <= i * base) by (nonlinear_arith)
        requires
            0 <= i,
            0 <= base,
    ;
    assert((i + 1) * base == i * base + base) by (nonlinear_arith);
    if i < workers - 1 {
        assert((i + 1) * base <= (workers - 1) * base) by (nonlinear_arith)
            requires
                0 <= i + 1 <= workers - 1,
                0 <= base,
        ;
    }
}

/// The shape of the partition: the sub-ranges begin at `start` and end at
/// `end`, each begins where its predecessor ends, all but the last have the
/// size `(end - start) / workers`, and the last is larger by the remainder of
/// that division, which is less than `workers`.
pub proof fn lemma_sub_ranges_shape(start: int, end: int, workers: int)
    requires
        0 <= start <= end <= usize::MAX,
        workers >= 1,
    ensures
        sub_ranges(start, end, workers).len() == workers,
        sub_ranges(start, end, workers).first().start == start,
        sub_ranges(start, end, workers).last().end == end,
        forall|i: int|
            0 <= i < workers ==> {
                let job = #[trigger] sub_ranges(start, end, workers)[i];
                start <= job.start <= job.end <= end
            },
        forall|i: int|
            0 <= i < workers - 1 ==> {
                let job = #[trigger] sub_ranges(start, end, workers)[i];
                &&& job.end == sub_ranges(start, end, workers)[i + 1].start
                &&& job.end - job.start == (end - start) / workers
            },
        ({
            let last = sub_ranges(start, end, workers).last();
            let size = (end - start) / workers;
            &&& last.end - last.start == (end - start) - size * (workers - 1)
            &&& size <= last.end - last.start < size + workers
        }),
{
    assert forall|i: int| 0 <= i < workers implies {
        let job = #[trigger] sub_ranges(start, end, workers)[i];
        &&& job.start == job_start(start, end, workers, i)
        &&& job.end == job_end(start, end, workers, i)
        &&& start <= job.start <= job.end <= end
    } by {
        lemma_job_bounds(start, end, workers, i);
    }
    lemma_job_bounds(start, end, workers, 0);
    lemma_job_bounds(start, end, workers, workers - 1);
    assert forall|i: int| 0 <= i < workers - 1 implies {
        let job = #[trigger] sub_ranges(start, end, workers)[i];
        &&& job.end == sub_ranges(start, end, workers)[i + 1].start
        &&& job.end - job.start == (end - start) / workers
    } by {
        lemma_job_bounds(start, end, workers, i);
        lemma_job_bounds(start, end, workers, i + 1);
        assert(sub_ranges(start, end, workers)[i + 1].start == job_start(
            start,
            end,
            workers,
            i + 1,
        ));
    }
}

/// Every number of the interval lies in one of the sub-ranges.
pub proof fn lemma_sub_ranges_cover(start: int, end: int, workers: int, q: int) -> (i: int)
    requires
        0 <= start <= q <= end <= usize::MAX,
        workers >= 1,
    ensures
        0 <= i < workers,
        sub_ranges(start, end, workers)[i].start <= q <= sub_ranges(start, end, workers)[i].end,
{
    let total = end - start;
    let base = total / workers;
    let last = workers - 1;
    lemma_job_bounds(start, end, workers, last);
    let i = if base == 0 || (q - start) / base >= last {
        last
    } else {
        (q - start) / base
    };
    lemma_job_bounds(start, end, workers, i);
    if base == 0 {
        assert(last * base == 0) by (nonlinear_arith)
            requires
                base == 0,
        ;
    } else {
        let k = (q - start) / base;
        vstd::arithmetic::div_mod::lemma_fundamental_div_mod(q - start, base);
        vstd::arithmetic::div_mod::lemma_mod_bound(q - start, base);
        if k >= last {
            assert(last * base <= base * k) by (nonlinear_arith)
                requires
                    0 <= last <= k,
                    0 < base,
            ;
        } else {
            assert(k * base == base * k) by (nonlinear_arith);
            assert((k + 1) * base == base * k + base) by (nonlinear_arith);
            assert(0 <= k) by (nonlinear_arith)
                requires
                    q - start == base * k + (q - start) % base,
                    0 <= (q - start) % base < base,
                    q - start >= 0,
            ;
        }
    }
    i
}

/// Cuts `start..=end` into exactly `workers` contiguous sub-ranges. All
/// but the last have the size `(end - start) / workers`; the last takes the
/// remainder as well, so that it ends at `end`. Adjacent sub-ranges share
/// their boundary.
pub fn partition(start: usize, end: usize, workers: usize) -> (jobs: Vec<SubRange>)
    requires
        start <= end,
        workers >= 1,
    ensures
        jobs@ == sub_ranges(start as int, end as int, workers as int),
{
    let job_size: usize = (end - start) / workers;
    proof {
        lemma_job_bounds(start as int, end as int, workers as int, 0);
    }
    let last_size: usize = (end - start) - job_size * (workers - 1);
    let mut jobs: Vec<SubRange> = Vec::new();
    let mut from: usize = start;
    let mut job: usize = 0;
    while job < workers
        invariant
            start <= end,
            workers >= 1,
            job <= workers,
            job_size == base_job_size(start as int, end as int, workers as int),
            last_size == last_job_size(start as int, end as int, workers as int),
            job < workers ==> from == job_start(start as int, end as int, workers as int, job as int),
            jobs@.len() == job,
            forall|i: int|
                0 <= i < job ==> #[trigger] jobs@[i] == sub_ranges(
                    start as int,
                    end as int,
                    workers as int,
                )[i],
        decreases workers - job,
    {
        proof {
            lemma_job_bounds(start as int, end as int, workers as int, job as int);
        }
        let to: usize = if job == workers - 1 {
            from + last_size
        } else {
            from + job_size
        };
        jobs.push(SubRange { start: from, end: to });
        from = to;
        job = job + 1;
    }
    jobs
}

} // verus!
