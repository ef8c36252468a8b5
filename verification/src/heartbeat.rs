//! Keeping a lease alive: how often a heartbeat is sent and what its outcome
//! does to the connection.

use vstd::prelude::*;

use crate::errors::QuackError;
use crate::errors::QuackErrorView;
use crate::handshake::heartbeat_timeout_allowed;
use crate::handshake::outcome_view;
use crate::lease::ConnectionLease;
use crate::lease::ConnectionState;
use crate::messages::MessageHeader;
use crate::messages::MessageHeaderView;
use crate::messages::MessageType;
use crate::messages::QuackMessage;
use crate::messages::QuackMessageView;
use crate::time::Duration;
use crate::time::Instant;
use crate::time::NANOS_PER_SEC;
use crate::types::option_view;

verus! {

/// The shortest time between two heartbeats, in milliseconds.
pub const MIN_HEARTBEAT_INTERVAL_MILLIS: u64 = 100;

/// The time between two heartbeats, in nanoseconds.
pub open spec fn interval_of(timeout: nat) -> nat {
    if timeout / 3 >= MIN_HEARTBEAT_INTERVAL_MILLIS * 1_000_000 {
        timeout / 3
    } else {
        MIN_HEARTBEAT_INTERVAL_MILLIS as nat * 1_000_000
    }
}

/// The time between two heartbeats: a third of the lease, but no less than the
/// shortest time.
pub fn heartbeat_interval(timeout: Duration) -> (interval: Duration)
    ensures
        interval.total() == interval_of(timeout.total()),
{
    timeout.third().max(Duration::from_millis(MIN_HEARTBEAT_INTERVAL_MILLIS))
}

/// The heartbeat of a connection.
pub open spec fn heartbeat_message(connection_id: Seq<char>) -> QuackMessageView {
    QuackMessageView::HeartbeatRequest {
        header: MessageHeaderView::new(MessageType::HeartbeatRequest).with_connection(
            connection_id,
        ),
    }
}

/// The heartbeat that a connection is due, if it is due any.
pub open spec fn heartbeat_due(lease: ConnectionLease, connection_id: Seq<char>) -> Option<
    QuackMessageView,
> {
    if lease.closed {
        None
    } else {
        Some(heartbeat_message(connection_id))
    }
}

/// The heartbeat to send now; nothing once the connection is closed, which ends
/// the heartbeats.
pub fn next_heartbeat(state: &ConnectionState, connection_id: &str) -> (request: Option<
    QuackMessage,
>)
    ensures
        match request {
            Some(request) => !state@.closed && request@ == heartbeat_message(connection_id@),
            None => state@.closed,
        },
        option_view(request) == heartbeat_due(state@, connection_id@),
{
    if state.is_closed() {
        return None;
    }
    Some(
        QuackMessage::HeartbeatRequest {
            header: MessageHeader::new(MessageType::HeartbeatRequest).with_connection(
                connection_id,
            ),
        },
    )
}

/// What happens after a heartbeat.
#[derive(Clone, Copy, Debug, PartialEq, Eq, Structural)]
pub enum HeartbeatStep {
    /// Another heartbeat follows after the interval.
    Continue,
    /// The server gave an unexpected answer, and the connection is closed.
    StopUnexpected,
    /// The lease ran out, and the connection is closed.
    StopExpired,
}

/// The lease after a heartbeat, and what happens next.
pub open spec fn after_heartbeat(
    lease: ConnectionLease,
    now: Instant,
    timeout: Duration,
    outcome: Result<QuackMessageView, QuackErrorView>,
) -> (ConnectionLease, HeartbeatStep) {
    match outcome {
        Ok(QuackMessageView::SuccessResponse { .. }) => (
            lease.renewed(now),
            HeartbeatStep::Continue,
        ),
        Ok(_) => (lease.ended(), HeartbeatStep::StopUnexpected),
        Err(_) => (
            lease.checked(now, timeout),
            if lease.checked(now, timeout).closed {
                HeartbeatStep::StopExpired
            } else {
                HeartbeatStep::Continue
            },
        ),
    }
}

/// Takes the outcome of a heartbeat.
pub fn heartbeat_answered(
    state: &mut ConnectionState,
    now: Instant,
    timeout: Duration,
    outcome: &Result<QuackMessage, QuackError>,
) -> (step: HeartbeatStep)
    ensures
        (final(state)@, step) == after_heartbeat(
            old(state)@,
            now,
            timeout,
            outcome_view(*outcome),
        ),
{
    match outcome {
        Ok(QuackMessage::SuccessResponse { .. }) => {
            state.record_success_at(now);
            HeartbeatStep::Continue
        },
        Ok(_) => {
            state.close();
            HeartbeatStep::StopUnexpected
        },
        Err(_) => if state.close_if_expired_at(now, timeout) {
            HeartbeatStep::StopExpired
        } else {
            HeartbeatStep::Continue
        },
    }
}

/// Three heartbeats fit into any lease that the protocol allows, and there is
/// always some time between two of them.
pub proof fn law_heartbeats_fit_the_lease(seconds: u64)
    requires
        heartbeat_timeout_allowed(seconds),
    ensures
        0 < interval_of(seconds as nat * NANOS_PER_SEC as nat),
        3 * interval_of(seconds as nat * NANOS_PER_SEC as nat) <= seconds * NANOS_PER_SEC,
{
}

/// A heartbeat that fails before the lease has run out changes nothing, and
/// another one follows.
pub proof fn law_failure_within_the_lease_is_harmless(
    lease: ConnectionLease,
    now: Instant,
    timeout: Duration,
    error: QuackErrorView,
)
    requires
        !lease.closed,
        !lease.expired(now, timeout),
    ensures
        after_heartbeat(lease, now, timeout, Err(error)) == (lease, HeartbeatStep::Continue),
{
}

/// The heartbeats stop only with a closed connection, and the one that stops
/// them is the one that found it closed or closed it.
pub proof fn law_heartbeats_stop_when_closed(
    lease: ConnectionLease,
    now: Instant,
    timeout: Duration,
    outcome: Result<QuackMessageView, QuackErrorView>,
)
    ensures
        after_heartbeat(lease, now, timeout, outcome).1 != HeartbeatStep::Continue
            ==> after_heartbeat(lease, now, timeout, outcome).0.closed,
        !lease.closed && after_heartbeat(lease, now, timeout, outcome).1 == HeartbeatStep::Continue
            ==> !after_heartbeat(lease, now, timeout, outcome).0.closed,
{
}

/// The time between two heartbeats is a third of the lease, rounded down, and a
/// tenth of a second for leases too short for that.
pub proof fn law_heartbeats_come_every_third_of_the_lease(timeout: nat)
    ensures
        timeout >= 300_000_000 ==> 3 * interval_of(timeout) <= timeout < 3 * interval_of(timeout)
            + 3,
        timeout < 300_000_000 ==> interval_of(timeout) == 100_000_000,
{
}

/// A heartbeat carries the id of its connection and nothing else.
pub proof fn law_heartbeat_names_its_connection(connection_id: Seq<char>)
    ensures
        heartbeat_message(connection_id) matches QuackMessageView::HeartbeatRequest { header } && {
            &&& header.message_type == MessageType::HeartbeatRequest
            &&& header.connection_id == Some(connection_id)
            &&& header.client_query_id is None
        },
{
}

/// What a heartbeat does to an open connection: success starts its lease over,
/// any other answer closes it, and a failure closes it exactly if the server has
/// been silent for the whole lease.
pub proof fn law_heartbeat_decides_the_lease(
    lease: ConnectionLease,
    now: Instant,
    timeout: Duration,
    answer: QuackMessageView,
    error: QuackErrorView,
)
    requires
        !lease.closed,
    ensures
        answer is SuccessResponse ==> {
            let (after, step) = after_heartbeat(lease, now, timeout, Ok(answer));
            !after.closed && after.last_successful_activity == now && step
                == HeartbeatStep::Continue
        },
        !(answer is SuccessResponse) ==> {
            let (after, step) = after_heartbeat(lease, now, timeout, Ok(answer));
            after.closed && step == HeartbeatStep::StopUnexpected
        },
        ({
            let (after, step) = after_heartbeat(lease, now, timeout, Err(error));
            let silent = now.at() >= lease.last_successful_activity.at() + timeout.total()
                || timeout.total() == 0;
            &&& after.closed == silent
            &&& after.last_successful_activity == lease.last_successful_activity
            &&& step == if silent {
                HeartbeatStep::StopExpired
            } else {
                HeartbeatStep::Continue
            }
        }),
{
}

/// A connection is due heartbeats as long as it is open, and each names it.
pub proof fn law_open_connection_is_due_heartbeats(
    lease: ConnectionLease,
    connection_id: Seq<char>,
)
    ensures
        heartbeat_due(lease, connection_id) is Some <==> !lease.closed,
        heartbeat_due(lease, connection_id) matches Some(m) ==> m is HeartbeatRequest
            && m.header().connection_id == Some(connection_id),
{
}

} // verus!
