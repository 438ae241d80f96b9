//! Points in time and spans between them, in nanoseconds.

use vstd::prelude::*;

verus! {

/// Nanoseconds in a millisecond.
pub const NANOS_PER_MILLI: u128 = 1_000_000;

/// Nanoseconds in a second.
pub const NANOS_PER_SECOND: u128 = 1_000_000_000;

/// A span of time.
#[derive(Clone, Copy, Debug, PartialEq, Eq, Structural)]
pub struct Duration {
    /// Its length in nanoseconds.
    pub nanos: u128,
}

/// A point in time, on a clock that never runs backwards.
#[derive(Clone, Copy, Debug, PartialEq, Eq, Structural)]
pub struct Instant {
    /// Nanoseconds since a fixed moment long before any that is observed.
    pub nanos: u128,
}

impl Duration {
    /// A span of whole seconds.
    pub fn from_secs(seconds: u64) -> (result: Duration)
        ensures
            result.nanos == seconds * NANOS_PER_SECOND,
    {
        Duration { nanos: seconds as u128 * NANOS_PER_SECOND }
    }

    /// A span of whole milliseconds.
    pub fn from_millis(millis: u64) -> (result: Duration)
        ensures
            result.nanos == millis * NANOS_PER_MILLI,
    {
        Duration { nanos: millis as u128 * NANOS_PER_MILLI }
    }

    /// The whole milliseconds in the span.
    pub fn as_millis(self) -> (millis: u128)
        ensures
            millis == self.nanos / NANOS_PER_MILLI,
    {
        self.nanos / NANOS_PER_MILLI
    }

    /// The whole seconds in the span.
    pub fn as_secs(self) -> (seconds: u128)
        ensures
            seconds == self.nanos / NANOS_PER_SECOND,
    {
        self.nanos / NANOS_PER_SECOND
    }
}

impl Instant {
    /// The nanoseconds from `earlier` to `self`, zero if `earlier` is later.
    pub open spec fn nanos_since(self, earlier: Instant) -> nat {
        if self.nanos >= earlier.nanos {
            (self.nanos - earlier.nanos) as nat
        } else {
            0
        }
    }

    /// The span from `earlier` to `self`, empty if `earlier` is later.
    pub fn saturating_duration_since(self, earlier: Instant) -> (result: Duration)
        ensures
            result.nanos == self.nanos_since(earlier),
    {
        if self.nanos >= earlier.nanos {
            Duration { nanos: self.nanos - earlier.nanos }
        } else {
            Duration { nanos: 0 }
        }
    }

    /// The point `span` before `self`, unless it lies before the clock's start.
    pub fn checked_sub(self, span: Duration) -> (result: Option<Instant>)
        ensures
            result == if span.nanos <= self.nanos {
                Some(Instant { nanos: (self.nanos - span.nanos) as u128 })
            } else {
                None::<Instant>
            },
    {
        if span.nanos <= self.nanos {
            Some(Instant { nanos: self.nanos - span.nanos })
        } else {
            None
        }
    }

    /// The point `span` after `self`, unless the clock cannot show it.
    pub fn checked_add(self, span: Duration) -> (result: Option<Instant>)
        ensures
            result == if self.nanos + span.nanos <= u128::MAX {
                Some(Instant { nanos: (self.nanos + span.nanos) as u128 })
            } else {
                None::<Instant>
            },
    {
        if span.nanos <= u128::MAX - self.nanos {
            Some(Instant { nanos: self.nanos + span.nanos })
        } else {
            None
        }
    }
}

/// The span from an earlier point to a later one leads from the one to the other; from a
/// later one it is empty.
pub proof fn spans_lead_to_the_later_point(earlier: Instant, later: Instant)
    ensures
        earlier.nanos <= later.nanos ==> earlier.nanos + later.nanos_since(earlier) == later.nanos,
        earlier.nanos >= later.nanos ==> later.nanos_since(earlier) == 0,
        NANOS_PER_SECOND == 1_000 * NANOS_PER_MILLI,
        NANOS_PER_MILLI == 1_000_000,
{
}

/// A span of whole seconds or milliseconds holds as many; a span counts as many whole
/// milliseconds and seconds as fit into it.
pub proof fn spans_count_whole_units(
    count: u64,
    of_seconds: Duration,
    of_millis: Duration,
    span: Duration,
    millis: u128,
    seconds: u128,
)
    requires
        call_ensures(Duration::from_secs, (count,), of_seconds),
        call_ensures(Duration::from_millis, (count,), of_millis),
        call_ensures(Duration::as_millis, (span,), millis),
        call_ensures(Duration::as_secs, (span,), seconds),
    ensures
        of_seconds.nanos == 1_000_000_000 * count,
        of_millis.nanos == 1_000_000 * count,
        1_000_000 * millis <= span.nanos < 1_000_000 * (millis + 1),
        1_000_000_000 * seconds <= span.nanos < 1_000_000_000 * (seconds + 1),
{
}

/// Going forward over a span and back again leads to where one began, and so does going
/// back and forward; the way there and back is as long as the span.
pub proof fn ways_there_lead_back(
    start: Instant,
    span: Duration,
    later: Instant,
    earlier: Instant,
    back: Option<Instant>,
    forth: Option<Instant>,
    passed: Duration,
    none: Duration,
)
    requires
        call_ensures(Instant::checked_add, (start, span), Some(later)),
        call_ensures(Instant::checked_sub, (later, span), back),
        call_ensures(Instant::checked_sub, (start, span), Some(earlier)),
        call_ensures(Instant::checked_add, (earlier, span), forth),
        call_ensures(Instant::saturating_duration_since, (later, start), passed),
        call_ensures(Instant::saturating_duration_since, (start, later), none),
    ensures
        back == Some(start),
        forth == Some(start),
        later.nanos - start.nanos == span.nanos,
        passed == span,
        none.nanos == 0,
{
}

/// A point is missing only where the clock cannot show it.
pub proof fn points_are_missing_beyond_the_clock(
    start: Instant,
    span: Duration,
    later: Option<Instant>,
    earlier: Option<Instant>,
)
    requires
        call_ensures(Instant::checked_add, (start, span), later),
        call_ensures(Instant::checked_sub, (start, span), earlier),
    ensures
        later is None <==> start.nanos + span.nanos > u128::MAX,
        earlier is None <==> span.nanos > start.nanos,
{
}

} // verus!
