//! Points in time and lengths of time, as whole nanoseconds.

use vstd::prelude::*;

verus! {

/// Nanoseconds in one second.
pub const NANOS_PER_SEC: u128 = 1_000_000_000;

/// Nanoseconds in one millisecond.
pub const NANOS_PER_MILLI: u128 = 1_000_000;

/// A length of time.
#[derive(Debug, Clone, Copy, PartialEq, Eq, Structural)]
pub struct Span {
    /// The length, in nanoseconds.
    pub nanos: u128,
}

/// A point on a monotonic clock, counted from a start that the owner of the
/// clock picks once.
#[derive(Debug, Clone, Copy, PartialEq, Eq, Structural)]
pub struct Moment {
    /// Nanoseconds since the clock's start.
    pub nanos: u128,
}

impl Span {
    /// The span of `secs` seconds.
    pub fn from_secs(secs: u64) -> (span: Span)
        ensures
            span.nanos == secs * 1_000_000_000,
    {
        Span { nanos: secs as u128 * NANOS_PER_SEC }
    }

    /// The span of `millis` milliseconds.
    pub fn from_millis(millis: u64) -> (span: Span)
        ensures
            span.nanos == millis * 1_000_000,
    {
        Span { nanos: millis as u128 * NANOS_PER_MILLI }
    }

    /// The shorter of two spans.
    pub open spec fn spec_min(self, other: Span) -> Span {
        if self.nanos <= other.nanos {
            self
        } else {
            other
        }
    }

    /// The shorter of two spans.
    pub fn min(self, other: Span) -> (span: Span)
        ensures
            span == self.spec_min(other),
            span == self || span == other,
            span.nanos <= self.nanos && span.nanos <= other.nanos,
    {
        if self.nanos <= other.nanos {
            self
        } else {
            other
        }
    }
}

impl Moment {
    /// How long after `earlier` this moment is: zero where it is not after it.
    pub open spec fn spec_since(self, earlier: Moment) -> Span {
        Span {
            nanos: if self.nanos <= earlier.nanos {
                0
            } else {
                (self.nanos - earlier.nanos) as u128
            },
        }
    }

    /// How long after `earlier` this moment is: zero where it is not after it.
    pub fn since(self, earlier: Moment) -> (span: Span)
        ensures
            span == self.spec_since(earlier),
            earlier.nanos <= self.nanos ==> earlier.nanos + span.nanos == self.nanos,
            earlier.nanos > self.nanos ==> span.nanos == 0,
    {
        if self.nanos <= earlier.nanos {
            Span { nanos: 0 }
        } else {
            Span { nanos: self.nanos - earlier.nanos }
        }
    }

    /// The moment `span` later, or the last one that the clock can show.
    pub open spec fn spec_after(self, span: Span) -> Moment {
        Moment {
            nanos: if self.nanos + span.nanos > u128::MAX {
                u128::MAX
            } else {
                (self.nanos + span.nanos) as u128
            },
        }
    }

    /// The moment `span` later, or the last one that the clock can show.
    pub fn after(self, span: Span) -> (later: Moment)
        ensures
            later == self.spec_after(span),
            self.nanos + span.nanos <= u128::MAX ==> later.nanos == self.nanos + span.nanos,
            self.nanos + span.nanos > u128::MAX ==> later.nanos == u128::MAX,
    {
        if self.nanos > u128::MAX - span.nanos {
            Moment { nanos: u128::MAX }
        } else {
            Moment { nanos: self.nanos + span.nanos }
        }
    }
}

/// The span since a moment, behind that moment, leads back: what lies between two moments
/// is what has to pass from the earlier to the later one, and nothing has to pass from a
/// moment on to an earlier one.
pub proof fn law_since_undoes_after(earlier: Moment, later: Moment, span: Span)
    ensures
        earlier.nanos <= later.nanos ==> earlier.nanos + later.spec_since(earlier).nanos
            == later.nanos,
        earlier.nanos <= later.nanos ==> earlier.spec_after(later.spec_since(earlier)) == later,
        earlier.nanos >= later.nanos ==> later.spec_since(earlier).nanos == 0,
        earlier.nanos + span.nanos <= u128::MAX ==> earlier.spec_after(span).nanos == earlier.nanos
            + span.nanos,
        earlier.nanos + span.nanos <= u128::MAX ==> earlier.spec_after(span).spec_since(earlier)
            == span,
        earlier.nanos + span.nanos > u128::MAX ==> earlier.spec_after(span).nanos == u128::MAX,
{
}

/// The shorter of two spans is one of them, and longer than neither.
pub proof fn law_min_is_the_shorter(a: Span, b: Span)
    ensures
        a.spec_min(b) == a || a.spec_min(b) == b,
        a.spec_min(b).nanos <= a.nanos,
        a.spec_min(b).nanos <= b.nanos,
        a.spec_min(b) == b.spec_min(a),
{
}

} // verus!
