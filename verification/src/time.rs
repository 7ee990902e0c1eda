//! Points in time and spans of time, as the protocol core reads them.
//!
//! The core never reads a clock: the caller hands in the current [`Instant`]. Both
//! types count whole nanoseconds, and both cover the range of a 64-bit number of
//! seconds.

use vstd::prelude::*;

verus! {

/// The number of nanoseconds in a second.
pub const NANOS_PER_SEC: u128 = 1_000_000_000;

/// The number of nanoseconds in a millisecond.
pub const NANOS_PER_MILLI: u128 = 1_000_000;

/// The longest representable span, in nanoseconds.
pub const MAX_NANOS: u128 = 18_446_744_073_709_551_615_999_999_999;

/// A span of time.
#[derive(Debug, Clone, Copy, PartialEq, Eq, PartialOrd, Ord)]
pub struct Duration {
    nanos: u128,
}

impl View for Duration {
    type V = nat;

    closed spec fn view(&self) -> nat {
        self.nanos as nat
    }
}

impl Duration {
    #[verifier::type_invariant]
    spec fn in_range(self) -> bool {
        self.nanos <= MAX_NANOS
    }

    /// The empty span.
    pub fn zero() -> (d: Self)
        ensures
            d@ == 0,
    {
        Self { nanos: 0 }
    }

    /// A span of the given number of seconds.
    pub fn from_secs(secs: u64) -> (d: Self)
        ensures
            d@ == secs * NANOS_PER_SEC,
    {
        Self { nanos: secs as u128 * NANOS_PER_SEC }
    }

    /// A span of the given number of milliseconds.
    pub fn from_millis(millis: u64) -> (d: Self)
        ensures
            d@ == millis * NANOS_PER_MILLI,
    {
        Self { nanos: millis as u128 * NANOS_PER_MILLI }
    }

    /// A span of the given number of nanoseconds, if it is representable.
    pub fn from_nanos(nanos: u128) -> (d: Option<Self>)
        ensures
            d is Some <==> nanos <= MAX_NANOS,
            d matches Some(d) ==> d@ == nanos,
    {
        if nanos <= MAX_NANOS {
            Some(Self { nanos })
        } else {
            None
        }
    }

    /// A span of the given number of nanoseconds, known to be representable.
    pub(crate) fn of_nanos(nanos: u128) -> (d: Self)
        requires
            nanos <= MAX_NANOS,
        ensures
            d@ == nanos,
    {
        Self { nanos }
    }

    /// The length of the span in nanoseconds.
    pub fn as_nanos(&self) -> (nanos: u128)
        ensures
            nanos == self@,
            nanos <= MAX_NANOS,
    {
        proof {
            use_type_invariant(&*self);
        }
        self.nanos
    }

    /// Whether the span is empty.
    pub fn is_zero(&self) -> (zero: bool)
        ensures
            zero == (self@ == 0),
    {
        self.nanos == 0
    }
}

/// A point in time, counted from an origin that the caller picks.
#[derive(Debug, Clone, Copy, PartialEq, Eq, PartialOrd, Ord)]
pub struct Instant {
    since_origin: Duration,
}

impl View for Instant {
    type V = nat;

    closed spec fn view(&self) -> nat {
        self.since_origin@
    }
}

/// The time from `earlier` to `now`, or zero if `earlier` is the later of the two.
pub open spec fn elapsed(now: nat, earlier: nat) -> nat {
    if now >= earlier {
        (now - earlier) as nat
    } else {
        0
    }
}

impl Instant {
    /// The point in time that lies the given span after the origin.
    pub fn after_origin(since_origin: Duration) -> (t: Self)
        ensures
            t@ == since_origin@,
    {
        Self { since_origin }
    }

    /// The span from the origin to this point in time.
    pub fn since_origin(&self) -> (d: Duration)
        ensures
            d@ == self@,
    {
        self.since_origin
    }

    /// The time that has passed from `earlier` to this point in time, or the empty
    /// span if `earlier` is the later of the two.
    pub fn duration_since(&self, earlier: Instant) -> (d: Duration)
        ensures
            d@ == elapsed(self@, earlier@),
    {
        let now: u128 = self.since_origin.as_nanos();
        let then_nanos: u128 = earlier.since_origin.as_nanos();
        if now >= then_nanos {
            Duration::of_nanos(now - then_nanos)
        } else {
            Duration::zero()
        }
    }
}

} // verus!
