//! Search for the largest prime number of an inclusive interval.
//!
//! The interval is cut into contiguous sub-ranges, one per worker
//! ([`partition`]). Each sub-range is searched by trial division
//! ([`search_sub_range`], on top of [`calculate_prime`]) and yields a partial
//! result; the partial results are reduced to the largest
//! ([`largest_prime_aggregator`], or message by message with
//! [`begin_aggregation`] and [`on_arrival`]). Where the interval begins at
//! zero the searches share the primes found so far ([`KnownPrimes`]), and
//! divide by these alone wherever enough of them are known to decide every
//! candidate of the sub-range.
//!
//! [`largest_prime`] runs the whole search on the calling thread, one
//! sub-range after the other. The searches of the sub-ranges do not depend
//! on each other but through the shared primes, so a caller with a pool of
//! threads can hand each of them one sub-range, guard the shared primes by a
//! lock, and reduce the results as they arrive: the answer is the largest
//! prime of the interval in whatever order the sub-ranges are searched and
//! the results arrive.
use vstd::prelude::*;

pub mod accumulator;
pub mod aggregate;
pub mod engine;
pub mod interval;
pub mod partition;
pub mod primality;
pub mod worker;

pub use accumulator::KnownPrimes;
pub use aggregate::{
    aggregate_step, begin_aggregation, largest_prime_aggregator, on_arrival, Aggregation, Arrival,
    Next,
};
pub use engine::largest_prime;
pub use interval::{parse_args, report, Report};
pub use partition::{partition, SubRange};
pub use primality::calculate_prime;
pub use worker::{initial_accumulator, prime_calculator_job, search_sub_range};

