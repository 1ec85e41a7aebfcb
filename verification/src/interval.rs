//! The interval that a caller asks for, and what to tell them of the answer.
use vstd::prelude::*;
use vstd::string::StringExecFns;

verus! {

/// The lower bound that the arguments ask for: the first one, or 0 without
/// it.
pub open spec fn asked_start(first: Option<usize>) -> usize {
    match first {
        Some(start) => start,
        None => 0,
    }
}

/// The upper bound that the arguments ask for: the second one, or the lower
/// bound without it.
pub open spec fn asked_end(first: Option<usize>, second: Option<usize>) -> usize {
    match second {
        Some(end) => end,
        None => asked_start(first),
    }
}

/// The text of the one error that `parse_args` returns.
pub open spec fn start_after_end() -> Seq<char> {
    "Start is greater than end"@
}

/// Turns the two optional positional arguments into an interval. A missing
/// first argument stands for 0, a missing second one for the first. An
/// interval whose start lies above its end is refused.
pub fn parse_args(first: Option<usize>, second: Option<usize>) -> (parsed: Result<
    (usize, usize),
    String,
>)
    ensures
        asked_start(first) <= asked_end(first, second) ==> parsed == Ok::<(usize, usize), String>(
            (asked_start(first), asked_end(first, second)),
        ),
        asked_start(first) > asked_end(first, second) ==> parsed is Err && parsed->Err_0@
            == start_after_end(),
{
    let start: usize = match first {
        Some(start) => start,
        None => 0,
    };
    let end: usize = match second {
        Some(end) => end,
        None => start,
    };
    if start > end {
        return Err(String::from_str("Start is greater than end"));
    }
    Ok((start, end))
}

/// What a caller is told of a finished search.
#[derive(Clone, Copy, Debug, PartialEq, Eq, Structural)]
pub enum Report {
    /// The largest prime of the interval.
    Largest(usize),
    /// The interval is a single number, and it is not prime.
    NotPrime(usize),
    /// The interval holds several numbers and no prime.
    NoneBetween(usize, usize),
}

/// The report that belongs to an answer.
pub open spec fn report_of(args: (usize, usize), largest: Option<usize>) -> Report {
    match largest {
        Some(prime) => Report::Largest(prime),
        None => if args.0 == args.1 {
            Report::NotPrime(args.0)
        } else {
            Report::NoneBetween(args.0, args.1)
        },
    }
}

/// Chooses what to tell the caller: the prime that was found; of a single
/// number, that it is not prime; of a longer interval, that no prime lies
/// between its bounds.
pub fn report(args: (usize, usize), largest: Option<usize>) -> (told: Report)
    ensures
        told == report_of(args, largest),
{
    match largest {
        Some(prime) => Report::Largest(prime),
        None => if args.0 == args.1 {
            Report::NotPrime(args.0)
        } else {
            Report::NoneBetween(args.0, args.1)
        },
    }
}

} // verus!
