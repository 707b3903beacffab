//! Wall-clock time for the diagnostics. Nothing is known of a reading but
//! that it was taken; spans of time are told apart by their nanoseconds.

use std::time::{Duration, Instant};
use vstd::prelude::*;

verus! {

/// `std::time::Instant`: a moment, of which nothing is known.
#[verifier::external_type_specification]
#[verifier::external_body]
pub struct ExInstant(Instant);

/// `Instant::now`: the present moment.
#[verifier::external_body]
pub(crate) fn now() -> (t: Instant) {
    Instant::now()
}

/// `Instant::elapsed`: the time that has passed since `start`.
#[verifier::external_body]
pub(crate) fn since(start: &Instant) -> (d: Duration) {
    start.elapsed()
}

/// What `Duration::as_nanos` gives: the nanoseconds that a span is made of.
pub uninterp spec fn span_nanos(d: Duration) -> nat;

/// What `Duration::saturating_add` gives: the two spans together, or the
/// longest span that there is where that would not fit.
pub uninterp spec fn span_sum(a: Duration, b: Duration) -> Duration;

/// `Duration::new(0, 0)`: no time - the span of no seconds and no
/// nanoseconds.
#[verifier::external_body]
pub(crate) fn no_time() -> (d: Duration)
    ensures
        span_nanos(d) == 0,
{
    Duration::new(0, 0)
}

/// `Duration::saturating_add`: the result is a function of the two spans,
/// which `span_sum` names. It is the two together, or the longest span that
/// there is: so it holds as many nanoseconds as both together or fewer, and
/// as many as either at least.
#[verifier::external_body]
pub(crate) fn plus(a: Duration, b: Duration) -> (d: Duration)
    ensures
        d == span_sum(a, b),
        span_nanos(d) <= span_nanos(a) + span_nanos(b),
        span_nanos(d) >= span_nanos(a),
        span_nanos(d) >= span_nanos(b),
{
    a.saturating_add(b)
}

/// `Duration::saturating_sub`: `a` without `b`, or no time where `b` is the
/// longer.
#[verifier::external_body]
pub(crate) fn minus(a: Duration, b: Duration) -> (d: Duration) {
    a.saturating_sub(b)
}

} // verus!
