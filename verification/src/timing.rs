//! Timing a computation by the machine's monotonic clock.

use vstd::prelude::*;
use std::time::{Duration, Instant};

verus! {

/// A reading of the monotonic clock, `std::time::Instant`. Nothing is known
/// of what a reading holds.
#[verifier::external_type_specification]
#[verifier::external_body]
pub struct ExInstant(Instant);

/// Reads the clock with `Instant::now`. Nothing is claimed of the reading.
#[verifier::external_body]
fn now() -> (reading: Instant) {
    Instant::now()
}

/// The time from `earlier` to `later`, by `Instant::duration_since`, which
/// gives zero where `earlier` is the later one. Nothing is claimed of the
/// span.
#[verifier::external_body]
fn span(later: Instant, earlier: Instant) -> (elapsed: Duration) {
    later.duration_since(earlier)
}

/// Runs `f` once and returns what it returned, with the time that the run
/// took.
pub fn stopwatch<F: FnOnce() -> R, R>(f: F) -> (timed: (R, Duration))
    requires
        f.requires(()),
    ensures
        f.ensures((), timed.0),
{
    let tic = now();
    let res = f();
    let toc = now();
    (res, span(toc, tic))
}

} // verus!
