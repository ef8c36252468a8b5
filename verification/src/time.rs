//! Spans of time and readings of a monotonic clock.

use vstd::prelude::*;

verus! {

/// Nanoseconds in a second.
pub const NANOS_PER_SEC: u32 = 1_000_000_000;

/// The whole seconds of a span in nanoseconds.
pub open spec fn whole_seconds(total: nat) -> nat {
    total / 1_000_000_000
}

/// What a span in nanoseconds has beyond its whole seconds.
pub open spec fn rest_of_second(total: nat) -> nat {
    total % 1_000_000_000
}

/// A third of a span in nanoseconds, rounded down.
pub open spec fn third_of(total: nat) -> nat {
    total / 3
}

/// The reading so much later than another, if a span can hold it.
pub open spec fn later_by(at: nat, span: nat) -> Option<nat> {
    if at + span < 0x1_0000_0000_0000_0000 * 1_000_000_000 {
        Some(at + span)
    } else {
        None
    }
}

/// The span from one reading to a later one, nothing if it is not later.
pub open spec fn span_between(later: nat, earlier: nat) -> nat {
    if later > earlier {
        (later - earlier) as nat
    } else {
        0
    }
}

/// A span of time, to the nanosecond.
#[derive(Clone, Copy, Debug, PartialEq, Eq, Structural)]
pub struct Duration {
    secs: u64,
    nanos: u32,
}

impl Duration {
    #[verifier::type_invariant]
    closed spec fn normal(self) -> bool {
        self.nanos < NANOS_PER_SEC
    }

    /// The span in nanoseconds.
    pub closed spec fn total(self) -> nat {
        self.secs as nat * NANOS_PER_SEC as nat + self.nanos as nat
    }

    /// A span of whole seconds and a rest below one second.
    pub fn new(secs: u64, nanos: u32) -> (d: Self)
        requires
            nanos < NANOS_PER_SEC,
        ensures
            d.total() == secs * NANOS_PER_SEC + nanos,
    {
        Duration { secs, nanos }
    }

    pub fn from_secs(secs: u64) -> (d: Self)
        ensures
            d.total() == secs * NANOS_PER_SEC,
    {
        Duration { secs, nanos: 0 }
    }

    pub fn from_millis(millis: u64) -> (d: Self)
        ensures
            d.total() == millis * 1_000_000,
    {
        Duration { secs: millis / 1000, nanos: ((millis % 1000) as u32) * 1_000_000 }
    }

    /// The whole seconds of the span.
    pub fn as_secs(&self) -> (secs: u64)
        ensures
            secs == self.total() / (NANOS_PER_SEC as nat),
            secs == whole_seconds(self.total()),
    {
        proof {
            use_type_invariant(self);
        }
        self.secs
    }

    /// What is left of the span beyond its whole seconds, in nanoseconds.
    pub fn subsec_nanos(&self) -> (nanos: u32)
        ensures
            nanos == self.total() % (NANOS_PER_SEC as nat),
            nanos < NANOS_PER_SEC,
            nanos == rest_of_second(self.total()),
    {
        proof {
            use_type_invariant(self);
        }
        self.nanos
    }

    /// Whether the span is no shorter than another.
    pub fn at_least(&self, other: &Duration) -> (b: bool)
        ensures
            b == (self.total() >= other.total()),
    {
        proof {
            use_type_invariant(self);
            use_type_invariant(other);
        }
        self.secs > other.secs || (self.secs == other.secs && self.nanos >= other.nanos)
    }

    /// The shorter of two spans.
    pub fn min(self, other: Duration) -> (d: Self)
        ensures
            d == (if self.total() <= other.total() {
                self
            } else {
                other
            }),
    {
        if other.at_least(&self) {
            self
        } else {
            other
        }
    }

    /// The longer of two spans.
    pub fn max(self, other: Duration) -> (d: Self)
        ensures
            d == (if self.total() > other.total() {
                self
            } else {
                other
            }),
    {
        if other.at_least(&self) {
            other
        } else {
            self
        }
    }

    /// A third of the span, rounded down to the nanosecond.
    pub fn third(self) -> (d: Self)
        ensures
            d.total() == self.total() / 3,
            d.total() == third_of(self.total()),
    {
        proof {
            use_type_invariant(&self);
        }
        let rest: u64 = (self.secs % 3) * 1_000_000_000 + self.nanos as u64;
        Duration { secs: self.secs / 3, nanos: (rest / 3) as u32 }
    }
}

/// A reading of a clock: the time since the clock was started.
#[derive(Clone, Copy, Debug, PartialEq, Eq, Structural)]
pub struct Instant {
    pub since_start: Duration,
}

impl Instant {
    /// The reading in nanoseconds since the clock was started.
    pub open spec fn at(self) -> nat {
        self.since_start.total()
    }

    /// The reading `later` after this one; `None` beyond what a span can hold.
    pub fn checked_add(self, later: Duration) -> (instant: Option<Self>)
        ensures
            instant matches Some(instant) ==> instant.at() == self.at() + later.total(),
            instant is None <==> self.at() + later.total() > u64::MAX * NANOS_PER_SEC + (
            NANOS_PER_SEC - 1),
            match instant {
                Some(instant) => later_by(self.at(), later.total()) == Some(instant.at()),
                None => later_by(self.at(), later.total()) is None,
            },
    {
        let a = self.since_start;
        proof {
            use_type_invariant(&a);
            use_type_invariant(&later);
        }
        let nanos: u32 = a.nanos + later.nanos;
        let carry: u64 = if nanos >= NANOS_PER_SEC {
            1
        } else {
            0
        };
        let rest: u32 = if nanos >= NANOS_PER_SEC {
            nanos - NANOS_PER_SEC
        } else {
            nanos
        };
        match a.secs.checked_add(later.secs) {
            Some(secs) => match secs.checked_add(carry) {
                Some(secs) => Some(Instant { since_start: Duration { secs, nanos: rest } }),
                None => None,
            },
            None => None,
        }
    }

    /// The span from `earlier` to this reading, nothing if `earlier` is later.
    pub fn saturating_duration_since(self, earlier: Instant) -> (d: Duration)
        ensures
            d.total() == (if self.at() > earlier.at() {
                (self.at() - earlier.at()) as nat
            } else {
                0
            }),
            d.total() == span_between(self.at(), earlier.at()),
    {
        let a = self.since_start;
        let b = earlier.since_start;
        proof {
            use_type_invariant(&a);
            use_type_invariant(&b);
        }
        if b.at_least(&a) {
            Duration { secs: 0, nanos: 0 }
        } else if a.nanos >= b.nanos {
            Duration { secs: a.secs - b.secs, nanos: a.nanos - b.nanos }
        } else {
            Duration { secs: a.secs - b.secs - 1, nanos: a.nanos + NANOS_PER_SEC - b.nanos }
        }
    }
}

/// A reading of the operating system's monotonic clock.
#[verifier::external_type_specification]
#[verifier::external_body]
pub struct ExStdInstant(std::time::Instant);

/// `std::time::Instant::now` reads the monotonic clock. Which reading comes
/// back depends on the moment alone, so nothing is claimed of it.
#[verifier::external_body]
fn monotonic_now() -> (now: std::time::Instant) {
    std::time::Instant::now()
}

/// `std::time::Instant::elapsed`: the time since `start`, as whole seconds and
/// a rest below one second. How much time has gone by is left open.
#[verifier::external_body]
fn elapsed_since(start: &std::time::Instant) -> (elapsed: (u64, u32))
    ensures
        elapsed.1 < NANOS_PER_SEC,
{
    let elapsed = start.elapsed();
    (elapsed.as_secs(), elapsed.subsec_nanos())
}

/// A running clock.
#[derive(Clone, Copy, Debug)]
pub struct Clock {
    started: std::time::Instant,
}

/// What a read of the monotonic clock gives.
fn read_start<F: Fn() -> std::time::Instant>(read: F) -> (start: std::time::Instant)
    requires
        read.requires(()),
    ensures
        read.ensures((), start),
{
    read()
}

/// What a read of the time since a start gives.
fn read_elapsed<F: Fn(&std::time::Instant) -> (u64, u32)>(
    read: F,
    start: &std::time::Instant,
) -> (elapsed: (u64, u32))
    requires
        read.requires((start,)),
    ensures
        read.ensures((start,), elapsed),
{
    read(start)
}

impl Clock {
    /// Whether the clock starts where the monotonic clock was read.
    pub closed spec fn is_started(&self) -> bool {
        call_ensures(monotonic_now, (), self.started)
    }

    /// Whether a reading is one that this clock gave: the seconds and the rest
    /// that went by since its start, as the monotonic clock told them.
    pub closed spec fn reads(&self, now: Instant) -> bool {
        exists|elapsed: (u64, u32)| #[trigger]
            call_ensures(elapsed_since, (&self.started,), elapsed) && now.at() == elapsed.0
                * NANOS_PER_SEC + elapsed.1
    }

    /// A clock that starts now. Which moment that is, is left open.
    pub fn start() -> (clock: Self)
        ensures
            clock.is_started(),
    {
        Clock { started: read_start(monotonic_now) }
    }

    /// The current reading of this clock. How much time has gone by is left
    /// open.
    pub fn now(&self) -> (now: Instant)
        ensures
            self.reads(now),
    {
        let (secs, nanos) = read_elapsed(elapsed_since, &self.started);
        Instant { since_start: Duration::new(secs, nanos) }
    }
}

/// The whole seconds of a span and what is left make up the span. A third is the
/// greatest span of which three fit into it. A reading so much later lies just so
/// far from the first, and there is none beyond what a span can hold; from a
/// later reading to an earlier one there is no time.
pub proof fn law_spans_add_up(total: nat, at: nat, span: nat)
    ensures
        whole_seconds(total) * 1_000_000_000 + rest_of_second(total) == total,
        rest_of_second(total) < 1_000_000_000,
        3 * third_of(total) <= total < 3 * (third_of(total) + 1),
        later_by(at, span) is Some <==> at + span < 0x1_0000_0000_0000_0000 * 1_000_000_000,
        later_by(at, span) matches Some(later) ==> span_between(later, at) == span && later >= at,
        span_between(at, at + span) == 0,
{
}

} // verus!
