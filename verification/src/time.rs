//! Spans of time with nanosecond resolution.
//!
//! A [`Duration`] is a count of whole seconds together with a sub-second part
//! below one second. Points in time are durations since the Unix epoch.

use vstd::prelude::*;

verus! {

/// Nanoseconds in one second.
pub const NANOS_PER_SEC: u32 = 1_000_000_000;

/// Seconds in one minute.
pub const SECS_PER_MINUTE: u64 = 60;

/// Seconds in one hour.
pub const SECS_PER_HOUR: u64 = 3_600;

/// Seconds in one day.
pub const SECS_PER_DAY: u64 = 86_400;

/// A non-negative span of time: whole seconds and a sub-second part in
/// nanoseconds, the latter always below one second.
#[derive(Clone, Copy, Debug, PartialEq, Eq, Structural)]
pub struct Duration {
    secs: u64,
    nanos: u32,
}

/// A point in time, as the span since the Unix epoch.
pub type UnixTime = Duration;

impl Duration {
    /// The sub-second part stays below one second. Every span that runs
    /// through executable code is well formed.
    #[verifier::type_invariant]
    pub closed spec fn wf(self) -> bool {
        self.nanos < NANOS_PER_SEC
    }

    /// The whole seconds of the span.
    pub closed spec fn secs(self) -> u64 {
        self.secs
    }

    /// The part of the span below one second, in nanoseconds.
    pub closed spec fn nanos(self) -> u32 {
        self.nanos
    }

    /// The span of `secs` whole seconds.
    pub closed spec fn of_secs(secs: u64) -> Duration {
        Duration { secs, nanos: 0 }
    }

    /// The span as a number of nanoseconds.
    pub open spec fn as_nanos(self) -> int {
        self.secs() * NANOS_PER_SEC + self.nanos()
    }

    /// Strict order of spans: by seconds, then by the sub-second part.
    pub open spec fn lt(self, other: Duration) -> bool {
        self.secs() < other.secs() || (self.secs() == other.secs() && self.nanos() < other.nanos())
    }

    /// Two spans with the same parts are the same span.
    pub proof fn lemma_parts_determine(a: Duration, b: Duration)
        requires
            a.secs() == b.secs(),
            a.nanos() == b.nanos(),
        ensures
            a == b,
    {
    }

    /// A span of whole seconds is well formed and has no sub-second part.
    pub proof fn lemma_of_secs(secs: u64)
        ensures
            Duration::of_secs(secs).wf(),
            Duration::of_secs(secs).secs() == secs,
            Duration::of_secs(secs).nanos() == 0,
    {
    }

    /// A well-formed span has a sub-second part below one second, and on
    /// well-formed spans the order is that of the nanosecond counts.
    pub proof fn lemma_order_is_numeric(a: Duration, b: Duration)
        requires
            a.wf(),
            b.wf(),
        ensures
            a.nanos() < NANOS_PER_SEC,
            a.lt(b) <==> a.as_nanos() < b.as_nanos(),
            a == b <==> a.as_nanos() == b.as_nanos(),
    {
    }

    /// The empty span.
    pub fn zero() -> (res: Duration)
        ensures
            res.wf(),
            res.secs() == 0,
            res.nanos() == 0,
    {
        Duration { secs: 0, nanos: 0 }
    }

    /// A span of whole seconds.
    pub fn from_secs(secs: u64) -> (res: Duration)
        ensures
            res == Duration::of_secs(secs),
            res.wf(),
            res.secs() == secs,
            res.nanos() == 0,
    {
        Duration { secs, nanos: 0 }
    }

    /// A span from seconds and nanoseconds; whole seconds held in `nanos`
    /// are carried over. `None` when the carry overflows the seconds.
    pub fn new(secs: u64, nanos: u32) -> (res: Option<Duration>)
        ensures
            res is Some <==> secs + nanos / NANOS_PER_SEC <= u64::MAX,
            res matches Some(d) ==> d.wf() && d.secs() == secs + nanos / NANOS_PER_SEC && d.nanos()
                == nanos % NANOS_PER_SEC,
    {
        let carry: u64 = (nanos / NANOS_PER_SEC) as u64;
        let rest: u32 = nanos % NANOS_PER_SEC;
        match secs.checked_add(carry) {
            Some(total) => Some(Duration { secs: total, nanos: rest }),
            None => None,
        }
    }

    /// The whole seconds of the span.
    pub fn as_secs(&self) -> (res: u64)
        ensures
            res == self.secs(),
    {
        self.secs
    }

    /// The part of the span below one second, in nanoseconds.
    pub fn subsec_nanos(&self) -> (res: u32)
        ensures
            res == self.nanos(),
            res < NANOS_PER_SEC,
            self.wf(),
    {
        proof {
            use_type_invariant(self);
        }
        self.nanos
    }

    /// Whether the span is empty.
    pub fn is_zero(&self) -> (res: bool)
        ensures
            res == (self.secs() == 0 && self.nanos() == 0),
    {
        self.secs == 0 && self.nanos == 0
    }

    /// Whether `self` is strictly shorter than (or earlier than) `other`.
    pub fn is_lt(&self, other: &Duration) -> (res: bool)
        ensures
            res == self.lt(*other),
    {
        self.secs < other.secs || (self.secs == other.secs && self.nanos < other.nanos)
    }

    /// Whether `self` is strictly longer than (or later than) `other`.
    pub fn is_gt(&self, other: &Duration) -> (res: bool)
        ensures
            res == other.lt(*self),
    {
        other.is_lt(self)
    }

    /// `self - rhs`, or `None` when `rhs` is the longer one.
    pub fn checked_sub(&self, rhs: &Duration) -> (res: Option<Duration>)
        ensures
            res is Some <==> !self.lt(*rhs),
            res matches Some(d) ==> d.wf() && d.as_nanos() == self.as_nanos() - rhs.as_nanos(),
    {
        proof {
            use_type_invariant(self);
            use_type_invariant(rhs);
        }
        if self.is_lt(rhs) {
            None
        } else if self.nanos >= rhs.nanos {
            Some(Duration { secs: self.secs - rhs.secs, nanos: self.nanos - rhs.nanos })
        } else {
            Some(
                Duration {
                    secs: self.secs - rhs.secs - 1,
                    nanos: self.nanos + (NANOS_PER_SEC - rhs.nanos),
                },
            )
        }
    }

    /// `self + rhs`, or `None` when the sum has more seconds than fit.
    pub fn checked_add(&self, rhs: &Duration) -> (res: Option<Duration>)
        ensures
            res is Some <==> self.as_nanos() + rhs.as_nanos() <= u64::MAX * NANOS_PER_SEC
                + (NANOS_PER_SEC - 1),
            res matches Some(d) ==> d.wf() && d.as_nanos() == self.as_nanos() + rhs.as_nanos(),
    {
        proof {
            use_type_invariant(self);
            use_type_invariant(rhs);
        }
        let sum: u32 = self.nanos + rhs.nanos;
        let (carry, rest): (u64, u32) = if sum >= NANOS_PER_SEC {
            (1, sum - NANOS_PER_SEC)
        } else {
            (0, sum)
        };
        match self.secs.checked_add(rhs.secs) {
            None => None,
            Some(s) => match s.checked_add(carry) {
                None => None,
                Some(total) => Some(Duration { secs: total, nanos: rest }),
            },
        }
    }
}

} // verus!
