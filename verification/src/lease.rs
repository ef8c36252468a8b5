//! The lease of a connection: how long it has been since the server last
//! answered, and whether the connection is closed.

use vstd::prelude::*;

use crate::time::Clock;
use crate::time::Duration;
use crate::time::Instant;

verus! {

/// What is known of a connection's lease.
#[derive(Clone, Copy, Debug, PartialEq, Eq, Structural)]
pub struct ConnectionLease {
    pub last_successful_activity: Instant,
    pub closed: bool,
}

/// The nanoseconds from one clock reading to a later one, zero if it is not
/// later.
pub open spec fn elapsed(now: Instant, since: Instant) -> nat {
    if now.at() > since.at() {
        (now.at() - since.at()) as nat
    } else {
        0
    }
}

impl ConnectionLease {
    /// A fresh lease.
    pub open spec fn fresh(now: Instant) -> Self {
        ConnectionLease { last_successful_activity: now, closed: false }
    }

    /// The lease after the server answered.
    pub open spec fn renewed(self, now: Instant) -> Self {
        if self.closed {
            self
        } else {
            ConnectionLease { last_successful_activity: now, closed: false }
        }
    }

    /// Whether the server has been silent for the whole timeout.
    pub open spec fn expired(self, now: Instant, timeout: Duration) -> bool {
        elapsed(now, self.last_successful_activity) >= timeout.total()
    }

    /// The lease after a check against the timeout.
    pub open spec fn checked(self, now: Instant, timeout: Duration) -> Self {
        ConnectionLease { closed: self.closed || self.expired(now, timeout), ..self }
    }

    /// The lease after the connection was closed.
    pub open spec fn ended(self) -> Self {
        ConnectionLease { closed: true, ..self }
    }
}

/// The state of a connection that its requests and its heartbeat share.
#[derive(Debug)]
pub struct ConnectionState {
    lease: ConnectionLease,
}

impl View for ConnectionState {
    type V = ConnectionLease;

    closed spec fn view(&self) -> ConnectionLease {
        self.lease
    }
}

impl ConnectionState {
    /// An open connection, last active now.
    pub fn new(clock: &Clock) -> (state: Self)
        ensures
            exists|now: Instant| #[trigger]
                clock.reads(now) && state@ == ConnectionLease::fresh(now),
    {
        let now = clock.now();
        Self::new_at(now)
    }

    /// An open connection, last active at `now`.
    pub fn new_at(now: Instant) -> (state: Self)
        ensures
            state@ == ConnectionLease::fresh(now),
    {
        ConnectionState { lease: ConnectionLease { last_successful_activity: now, closed: false } }
    }

    /// Notes that the server answered just now.
    pub fn record_success(&mut self, clock: &Clock)
        ensures
            exists|now: Instant| #[trigger]
                clock.reads(now) && final(self)@ == old(self)@.renewed(now),
    {
        let now = clock.now();
        self.record_success_at(now);
    }

    /// Notes that the server answered at `now`. A closed connection stays as it
    /// is.
    pub fn record_success_at(&mut self, now: Instant)
        ensures
            final(self)@ == old(self)@.renewed(now),
    {
        if !self.lease.closed {
            self.lease.last_successful_activity = now;
        }
    }

    /// Closes the connection if its lease has expired by now; tells whether it
    /// is closed.
    pub fn close_if_expired(&mut self, clock: &Clock, timeout: Duration) -> (closed: bool)
        ensures
            exists|now: Instant| #[trigger]
                clock.reads(now) && final(self)@ == old(self)@.checked(now, timeout),
            closed == final(self)@.closed,
    {
        let now = clock.now();
        self.close_if_expired_at(now, timeout)
    }

    /// Closes the connection if its lease has expired by `now`; tells whether
    /// it is closed.
    pub fn close_if_expired_at(&mut self, now: Instant, timeout: Duration) -> (closed: bool)
        ensures
            final(self)@ == old(self)@.checked(now, timeout),
            closed == final(self)@.closed,
    {
        let silence = now.saturating_duration_since(self.lease.last_successful_activity);
        if self.lease.closed || silence.at_least(&timeout) {
            self.lease.closed = true;
        }
        self.lease.closed
    }

    /// Closes the connection.
    pub fn close(&mut self)
        ensures
            final(self)@ == old(self)@.ended(),
    {
        self.lease.closed = true;
    }

    pub fn is_closed(&self) -> (closed: bool)
        ensures
            closed == self@.closed,
    {
        self.lease.closed
    }

    /// The lease itself.
    pub fn lease(&self) -> (lease: &ConnectionLease)
        ensures
            *lease == self@,
    {
        &self.lease
    }
}

/// What can happen to a lease.
pub enum LeaseEvent {
    Success { now: Instant },
    Check { now: Instant, timeout: Duration },
    Close,
}

/// The lease after an event.
pub open spec fn lease_after(lease: ConnectionLease, event: LeaseEvent) -> ConnectionLease {
    match event {
        LeaseEvent::Success { now } => lease.renewed(now),
        LeaseEvent::Check { now, timeout } => lease.checked(now, timeout),
        LeaseEvent::Close => lease.ended(),
    }
}

/// The lease after a run of events.
pub open spec fn lease_after_all(lease: ConnectionLease, events: Seq<LeaseEvent>) -> ConnectionLease
    decreases events.len(),
{
    if events.len() == 0 {
        lease
    } else {
        lease_after(lease_after_all(lease, events.drop_last()), events.last())
    }
}

/// A closed connection never changes again: no success reopens it.
pub proof fn law_closed_is_final(lease: ConnectionLease, events: Seq<LeaseEvent>)
    requires
        lease.closed,
    ensures
        lease_after_all(lease, events) == lease,
    decreases events.len(),
{
    if events.len() > 0 {
        law_closed_is_final(lease, events.drop_last());
    }
}

/// Right after a success, a check closes an open connection exactly when the
/// whole timeout has gone by since that success, whatever happened before it.
pub proof fn law_expiry_counts_from_the_last_success(
    lease: ConnectionLease,
    success: Instant,
    check: Instant,
    timeout: Duration,
)
    requires
        !lease.closed,
    ensures
        lease.renewed(success).checked(check, timeout).closed <==> elapsed(check, success)
            >= timeout.total(),
{
}

/// A run of successes and checks keeps a connection open as long as no check
/// finds a whole timeout of silence.
pub proof fn law_active_connection_stays_open(lease: ConnectionLease, events: Seq<LeaseEvent>)
    requires
        !lease.closed,
        forall|i: int|
            0 <= i < events.len() ==> match #[trigger] events[i] {
                LeaseEvent::Success { now } => true,
                LeaseEvent::Check { now, timeout } => !lease_after_all(
                    lease,
                    events.take(i),
                ).expired(now, timeout),
                LeaseEvent::Close => false,
            },
    ensures
        !lease_after_all(lease, events).closed,
    decreases events.len(),
{
    if events.len() > 0 {
        let before = events.drop_last();
        assert forall|i: int| 0 <= i < before.len() implies match #[trigger] before[i] {
            LeaseEvent::Success { now } => true,
            LeaseEvent::Check { now, timeout } => !lease_after_all(lease, before.take(i)).expired(
                now,
                timeout,
            ),
            LeaseEvent::Close => false,
        } by {
            assert(events[i] == before[i]);
            assert(before.take(i) =~= events.take(i));
        }
        law_active_connection_stays_open(lease, before);
        assert(events.take(events.len() - 1) =~= before);
        assert(events[events.len() - 1] == events.last());
    }
}

/// A lease lasts a whole timeout from the last success, to the nanosecond: a
/// check closes an open connection exactly if the timeout has gone by since
/// then, a success moves that moment and nothing else does.
pub proof fn law_lease_lasts_the_timeout(
    lease: ConnectionLease,
    now: Instant,
    timeout: Duration,
)
    ensures
        !ConnectionLease::fresh(now).closed,
        ConnectionLease::fresh(now).last_successful_activity == now,
        lease.checked(now, timeout).closed <==> lease.closed || now.at()
            >= lease.last_successful_activity.at() + timeout.total() || timeout.total() == 0,
        lease.checked(now, timeout).last_successful_activity == lease.last_successful_activity,
        lease.renewed(now).closed == lease.closed,
        !lease.closed ==> lease.renewed(now).last_successful_activity == now,
        lease.ended().closed,
        lease.ended().last_successful_activity == lease.last_successful_activity,
{
}

} // verus!
