//! The bookkeeping of a pool of sessions.
//!
//! A pool opens sessions on demand, up to its limit, and reuses them
//! afterwards. Each session that is leased, being opened or being closed takes
//! a slot; the sessions that wait for their next borrower are idle. A session
//! that saw a wire failure is retired instead of handed on, and keeps its slot
//! until it is closed on the server.

use vstd::prelude::*;

use crate::errors::QuackError;
use crate::errors::QuackErrorView;
use crate::lease::ConnectionLease;
use crate::lease::ConnectionState;
use crate::uri::plain_result;

verus! {

/// The connections a pool opens when no size is chosen.
pub const DEFAULT_MAX_CONNECTIONS: usize = 4;

/// What a caller can choose about a pool.
#[derive(Clone, Debug)]
pub struct QuackPoolOptions {
    /// Upper bound on sessions open against the server at once. Callers past
    /// the limit wait for one to come free.
    ///
    /// It must be at least as large as the number of result streams a caller
    /// holds open at the same time: a parked stream holds the connection that
    /// another one may be waiting for.
    pub max_connections: usize,
}

impl Default for QuackPoolOptions {
    fn default() -> (options: Self)
        ensures
            options.max_connections == DEFAULT_MAX_CONNECTIONS,
    {
        QuackPoolOptions { max_connections: DEFAULT_MAX_CONNECTIONS }
    }
}

/// What is said of the limit of a pool.
pub open spec fn limit_checked(max_connections: nat) -> Result<(), QuackErrorView> {
    if max_connections < 1 {
        Err(QuackErrorView::Protocol("QuackPoolOptions::max_connections must be at least 1"@))
    } else {
        Ok(())
    }
}

/// Accepts the options of a pool that can hold a connection.
pub fn validate_pool_options(options: &QuackPoolOptions) -> (result: Result<(), QuackError>)
    ensures
        plain_result(result) == if options.max_connections == 0 {
            Err(
                QuackErrorView::Protocol(
                    "QuackPoolOptions::max_connections must be at least 1"@,
                ),
            )
        } else {
            Ok(())
        },
        plain_result(result) == limit_checked(options.max_connections as nat),
{
    if options.max_connections == 0 {
        return Err(QuackError::protocol("QuackPoolOptions::max_connections must be at least 1"));
    }
    Ok(())
}

/// The error of a caller who comes to a closed pool.
pub open spec fn pool_is_closed() -> QuackErrorView {
    QuackErrorView::Protocol("Quack pool is closed"@)
}

/// Whether a session has failed for good after an error.
pub open spec fn failed_after(failed: bool, error: QuackErrorView) -> bool {
    failed || error.is_connection_fatal()
}

/// Whether a session may be handed to another borrower.
pub open spec fn may_be_reused(failed: bool, lease: ConnectionLease) -> bool {
    !failed && !lease.closed
}

/// Whether the session of a client may be handed to another borrower.
#[derive(Debug)]
pub struct SessionHealth {
    pub failed: bool,
}

impl SessionHealth {
    /// A session that has seen no failure.
    pub fn new() -> (health: Self)
        ensures
            !health.failed,
    {
        SessionHealth { failed: false }
    }

    /// Notes the error of an operation. An error that leaves no way to tell
    /// what the server did retires the session for good.
    pub fn note(&mut self, error: &QuackError)
        ensures
            final(self).failed == (old(self).failed || error@.is_connection_fatal()),
            final(self).failed == failed_after(old(self).failed, error@),
    {
        if error.is_connection_fatal() {
            self.failed = true;
        }
    }

    /// Whether the session is open and has seen no such error.
    pub fn is_reusable(&self, state: &ConnectionState) -> (reusable: bool)
        ensures
            reusable == (!self.failed && !state@.closed),
            reusable == may_be_reused(self.failed, state@),
    {
        !self.failed && !state.is_closed()
    }
}

/// The sessions of a pool, as far as the pool keeps count of them.
#[derive(Debug)]
pub struct PoolState<T> {
    max_connections: usize,
    in_use: usize,
    idle: Vec<T>,
    closed: bool,
}

/// The value of a `PoolState`.
pub struct PoolStateView<T> {
    pub max_connections: nat,
    /// The sessions that are leased, being opened or being closed.
    pub in_use: nat,
    /// The sessions that wait for a borrower, the one returned last at the end.
    pub idle: Seq<T>,
    pub closed: bool,
}

impl<T> PoolStateView<T> {
    /// The sessions that the pool accounts for.
    pub open spec fn sessions(self) -> nat {
        self.in_use + self.idle.len()
    }

    /// The pool keeps within its limit.
    pub open spec fn within_limit(self) -> bool {
        self.sessions() <= self.max_connections
    }
}

impl<T> View for PoolState<T> {
    type V = PoolStateView<T>;

    closed spec fn view(&self) -> PoolStateView<T> {
        PoolStateView {
            max_connections: self.max_connections as nat,
            in_use: self.in_use as nat,
            idle: self.idle@,
            closed: self.closed,
        }
    }
}

/// What a caller who asks for a session gets.
pub enum Acquired<T> {
    /// An idle session, leased to the caller.
    Session(T),
    /// A slot, in which the caller opens a session.
    Slot,
    /// Nothing: every slot is taken, and the caller waits.
    Busy,
}

/// Whether some sessions at the end of the idle ones were passed over, and
/// which idle session was taken: all of them were tested, and exactly the one
/// that was taken, if any, was found reusable.
pub open spec fn takes_last_reusable<T, F: Fn(&T) -> bool>(
    before: Seq<T>,
    after: Seq<T>,
    taken: Option<T>,
    reusable: F,
) -> bool {
    match taken {
        Some(session) => {
            &&& after.len() < before.len()
            &&& after == before.take(after.len() as int)
            &&& session == before[after.len() as int]
            &&& reusable.ensures((&session,), true)
            &&& forall|i: int|
                after.len() < i < before.len() ==> reusable.ensures((&#[trigger] before[i],), false)
        },
        None => {
            &&& after.len() == 0
            &&& forall|i: int|
                0 <= i < before.len() ==> reusable.ensures((&#[trigger] before[i],), false)
        },
    }
}

/// What asking for a session does to a pool, and what the caller gets.
pub open spec fn acquires<T, F: Fn(&T) -> bool>(
    before: PoolStateView<T>,
    after: PoolStateView<T>,
    acquired: Result<Acquired<T>, QuackError>,
    reusable: F,
) -> bool {
    match acquired {
        Err(error) => before.closed && error@ == pool_is_closed() && after == before,
        Ok(Acquired::Busy) => !before.closed && before.in_use == before.max_connections && after
            == before,
        Ok(Acquired::Session(session)) => {
            &&& !before.closed && before.in_use != before.max_connections
            &&& takes_last_reusable(before.idle, after.idle, Some(session), reusable)
            &&& after == PoolStateView { in_use: before.in_use + 1, idle: after.idle, ..before }
        },
        Ok(Acquired::Slot) => {
            &&& !before.closed && before.in_use != before.max_connections
            &&& takes_last_reusable(before.idle, after.idle, None, reusable)
            &&& after == PoolStateView { in_use: before.in_use + 1, idle: after.idle, ..before }
        },
    }
}

impl<T> PoolStateView<T> {
    /// What giving a session back does to a pool, and the session if it is to
    /// be closed.
    pub open spec fn released(self, session: T, reusable: bool) -> (Self, Option<T>) {
        if self.closed || !reusable {
            (self, Some(session))
        } else {
            (
                PoolStateView {
                    in_use: (self.in_use - 1) as nat,
                    idle: self.idle.push(session),
                    ..self
                },
                None,
            )
        }
    }

    /// The pool after a slot was freed.
    pub open spec fn slot_freed(self) -> Self {
        PoolStateView { in_use: (self.in_use - 1) as nat, ..self }
    }

    /// The pool after it was closed.
    pub open spec fn drained(self) -> Self {
        PoolStateView { idle: Seq::empty(), closed: true, ..self }
    }
}

impl<T> PoolState<T> {
    #[verifier::type_invariant]
    closed spec fn well_formed(self) -> bool {
        self.in_use + self.idle@.len() <= self.max_connections
    }

    /// A pool with its first session, which is idle.
    pub fn new(max_connections: usize, first: T) -> (pool: Self)
        requires
            max_connections > 0,
        ensures
            pool@ == (PoolStateView {
                max_connections: max_connections as nat,
                in_use: 0,
                idle: seq![first],
                closed: false,
            }),
            pool@.within_limit(),
    {
        let mut idle: Vec<T> = Vec::new();
        idle.push(first);
        assert(idle@ =~= seq![first]);
        PoolState { max_connections, in_use: 0, idle, closed: false }
    }

    pub fn max_connections(&self) -> (max: usize)
        ensures
            max == self@.max_connections,
    {
        self.max_connections
    }

    /// The sessions that are leased, being opened or being closed.
    pub fn in_use(&self) -> (count: usize)
        ensures
            count == self@.in_use,
    {
        self.in_use
    }

    pub fn is_closed(&self) -> (closed: bool)
        ensures
            closed == self@.closed,
    {
        self.closed
    }

    fn take_idle<F: Fn(&T) -> bool>(idle: &mut Vec<T>, reusable: F) -> (session: Option<T>)
        requires
            forall|session: &T| #[trigger] reusable.requires((session,)),
        ensures
            takes_last_reusable(old(idle)@, final(idle)@, session, reusable),
    {
        let ghost before = idle@;
        while idle.len() > 0
            invariant
                before == old(idle)@,
                idle@.len() <= before.len(),
                idle@ == before.take(idle@.len() as int),
                forall|session: &T| #[trigger] reusable.requires((session,)),
                forall|i: int|
                    idle@.len() <= i < before.len() ==> reusable.ensures(
                        (&#[trigger] before[i],),
                        false,
                    ),
            decreases idle@.len(),
        {
            let ghost at = idle@.len() - 1;
            let popped = idle.pop();
            assert(idle@ =~= before.take(at));
            if let Some(session) = popped {
                assert(session == before[at]);
                if reusable(&session) {
                    return Some(session);
                }
            }
        }
        None
    }

    /// Gives a caller a session or a slot to open one in, if there is any.
    ///
    /// The idle sessions are tried from the one returned last; those that are
    /// not reusable are dropped.
    pub fn acquire<F: Fn(&T) -> bool>(&mut self, reusable: F) -> (acquired: Result<
        Acquired<T>,
        QuackError,
    >)
        requires
            forall|session: &T| #[trigger] reusable.requires((session,)),
        ensures
            final(self)@.within_limit(),
            acquires(old(self)@, final(self)@, acquired, reusable),
    {
        proof {
            use_type_invariant(&*self);
        }
        if self.closed {
            return Err(QuackError::protocol("Quack pool is closed"));
        }
        if self.in_use == self.max_connections {
            return Ok(Acquired::Busy);
        }
        let mut idle: Vec<T> = Vec::new();
        std::mem::swap(&mut idle, &mut self.idle);
        let session = Self::take_idle(&mut idle, reusable);
        self.in_use = self.in_use + 1;
        self.idle = idle;
        match session {
            Some(session) => Ok(Acquired::Session(session)),
            None => Ok(Acquired::Slot),
        }
    }

    /// Puts a session back, or hands it to the caller to be closed: it may not
    /// be handed on, or the pool is closed. A session to be closed keeps its
    /// slot.
    pub fn release(&mut self, session: T, reusable: bool) -> (retired: Option<T>)
        requires
            old(self)@.in_use > 0,
        ensures
            final(self)@.within_limit(),
            (final(self)@, retired) == old(self)@.released(session, reusable),
    {
        proof {
            use_type_invariant(&*self);
        }
        if self.closed || !reusable {
            return Some(session);
        }
        let mut idle: Vec<T> = Vec::new();
        std::mem::swap(&mut idle, &mut self.idle);
        self.in_use = self.in_use - 1;
        idle.push(session);
        self.idle = idle;
        None
    }

    /// Frees the slot of a session that is closed, or that could not be opened.
    pub fn free_slot(&mut self)
        requires
            old(self)@.in_use > 0,
        ensures
            final(self)@.within_limit(),
            final(self)@ == old(self)@.slot_freed(),
    {
        proof {
            use_type_invariant(&*self);
        }
        self.in_use = self.in_use - 1;
    }

    /// Closes the pool and takes its idle sessions out, to be closed.
    pub fn close_and_drain(&mut self) -> (drained: Vec<T>)
        ensures
            drained@ == old(self)@.idle,
            final(self)@.within_limit(),
            final(self)@ == old(self)@.drained(),
    {
        proof {
            use_type_invariant(&*self);
        }
        let mut drained: Vec<T> = Vec::new();
        std::mem::swap(&mut drained, &mut self.idle);
        self.closed = true;
        drained
    }
}

/// The first failure among some outcomes, if there is any.
pub open spec fn first_error(outcomes: Seq<Result<(), QuackErrorView>>) -> Result<
    (),
    QuackErrorView,
>
    decreases outcomes.len(),
{
    if outcomes.len() == 0 {
        Ok(())
    } else if outcomes[0] is Err {
        outcomes[0]
    } else {
        first_error(outcomes.skip(1))
    }
}

/// Outcomes, as plain values.
pub open spec fn plain_results(outcomes: Seq<Result<(), QuackError>>) -> Seq<
    Result<(), QuackErrorView>,
> {
    Seq::new(outcomes.len(), |i: int| plain_result(outcomes[i]))
}

/// The first failure among the outcomes of closing every session.
pub fn first_failure(outcomes: Vec<Result<(), QuackError>>) -> (result: Result<(), QuackError>)
    ensures
        plain_result(result) == first_error(plain_results(outcomes@)),
{
    let ghost all = plain_results(outcomes@);
    let mut rest = outcomes;
    let mut found: Result<(), QuackError> = Ok(());
    assert(all.skip(all.len() as int) =~= seq![]);
    assert(all =~= all.take(all.len() as int));
    while rest.len() > 0
        invariant
            rest@.len() <= all.len(),
            plain_results(rest@) == all.take(rest@.len() as int),
            plain_result(found) == first_error(all.skip(rest@.len() as int)),
        decreases rest@.len(),
    {
        let ghost at = rest@.len() - 1;
        let ghost before = rest@;
        let last = rest.pop();
        proof {
            assert(plain_results(before)[at] == all.take(before.len() as int)[at]);
            assert forall|k: int| 0 <= k < at implies plain_result(before[k]) == all[k] by {
                assert(plain_results(before)[k] == all.take(before.len() as int)[k]);
            }
            assert(plain_results(rest@) =~= all.take(at));
            assert(all.skip(at)[0] == all[at]);
            assert(all.skip(at).skip(1) =~= all.skip(at + 1));
        }
        if let Some(outcome) = last {
            if outcome.is_err() {
                found = outcome;
            }
        }
    }
    assert(all.skip(0) =~= all);
    found
}

/// What can happen to a pool.
pub enum PoolEvent<T, F: Fn(&T) -> bool> {
    Acquire { acquired: Result<Acquired<T>, QuackError>, reusable: F },
    Release { session: T, reusable: bool },
    FreeSlot,
    Close,
}

/// Whether an event takes a pool from one state to another.
pub open spec fn pool_step<T, F: Fn(&T) -> bool>(
    before: PoolStateView<T>,
    event: PoolEvent<T, F>,
    after: PoolStateView<T>,
) -> bool {
    match event {
        PoolEvent::Acquire { acquired, reusable } => acquires(before, after, acquired, reusable),
        PoolEvent::Release { session, reusable } => before.in_use > 0 && after == before.released(
            session,
            reusable,
        ).0,
        PoolEvent::FreeSlot => before.in_use > 0 && after == before.slot_freed(),
        PoolEvent::Close => after == before.drained(),
    }
}

/// The pool never accounts for more sessions than its limit, and the limit does
/// not change: through any run of events, from a pool within its limit, every
/// state on the way is within it.
pub proof fn law_pool_keeps_within_its_limit<T, F: Fn(&T) -> bool>(
    states: Seq<PoolStateView<T>>,
    events: Seq<PoolEvent<T, F>>,
    n: int,
)
    requires
        states.len() == events.len() + 1,
        states[0].within_limit(),
        forall|i: int|
            0 <= i < events.len() ==> pool_step(states[i], #[trigger] events[i], states[i + 1]),
        0 <= n < states.len(),
    ensures
        states[n].within_limit(),
        states[n].max_connections == states[0].max_connections,
    decreases n,
{
    if n > 0 {
        law_pool_keeps_within_its_limit(states, events, n - 1);
        assert(pool_step(states[n - 1], events[n - 1], states[n]));
    }
}

/// A session that is retired keeps its slot: while the slots of a pool are all
/// taken, giving back a session that may not be handed on leaves the next
/// caller waiting, and freeing its slot lets that caller in.
pub proof fn law_retired_session_keeps_its_slot<T, F: Fn(&T) -> bool>(
    pool: PoolStateView<T>,
    session: T,
    after: PoolStateView<T>,
    acquired: Result<Acquired<T>, QuackError>,
    reusable: F,
)
    requires
        !pool.closed,
        pool.in_use == pool.max_connections > 0,
    ensures
        acquires(pool.released(session, false).0, after, acquired, reusable) ==> acquired == Ok::<
            Acquired<T>,
            QuackError,
        >(Acquired::Busy),
        acquires(pool.released(session, false).0.slot_freed(), after, acquired, reusable)
            ==> acquired is Ok && !(acquired->Ok_0 is Busy),
{
}

/// The session that was given back last is the one handed out next, as long as
/// it is reusable; no other session is opened in its place.
pub proof fn law_returned_session_is_handed_out_next<T, F: Fn(&T) -> bool>(
    pool: PoolStateView<T>,
    session: T,
    after: PoolStateView<T>,
    acquired: Result<Acquired<T>, QuackError>,
    reusable: F,
)
    requires
        !pool.closed,
        0 < pool.in_use <= pool.max_connections,
        !reusable.ensures((&session,), false),
        acquires(pool.released(session, true).0, after, acquired, reusable),
    ensures
        acquired == Ok::<Acquired<T>, QuackError>(Acquired::Session(session)),
        after == pool,
{
    let idle = pool.idle.push(session);
    assert(idle[pool.idle.len() as int] == session);
    assert(idle.take(pool.idle.len() as int) =~= pool.idle);
}

/// A closed pool hands out nothing, takes nothing back and stays closed.
pub proof fn law_closed_pool_stays_closed<T, F: Fn(&T) -> bool>(
    before: PoolStateView<T>,
    event: PoolEvent<T, F>,
    after: PoolStateView<T>,
)
    requires
        before.closed,
        before.idle.len() == 0,
        pool_step(before, event, after),
    ensures
        after.closed,
        after.idle.len() == 0,
        event matches PoolEvent::Acquire { acquired, .. } ==> (acquired matches Err(error)
            && error@ == pool_is_closed()),
        event matches PoolEvent::Release { session, reusable } ==> before.released(
            session,
            reusable,
        ).1 == Some(session),
{
}

/// Who asks a pool for a session gets an error exactly if the pool is closed,
/// waits exactly if every slot is taken, and else takes one slot: with the idle
/// session that was given back last among those that are reusable, or to open a
/// session if none of them is. The sessions behind it are gone from the pool,
/// and those before it stay in their order.
pub proof fn law_acquire_takes_one_slot<T, F: Fn(&T) -> bool>(
    before: PoolStateView<T>,
    after: PoolStateView<T>,
    acquired: Result<Acquired<T>, QuackError>,
    reusable: F,
)
    requires
        acquires(before, after, acquired, reusable),
    ensures
        acquired is Err <==> before.closed,
        acquired matches Err(error) ==> error@ == QuackErrorView::Protocol("Quack pool is closed"@),
        acquired matches Ok(Acquired::Busy) <==> !before.closed && before.in_use
            == before.max_connections,
        acquired is Err || (acquired matches Ok(Acquired::Busy)) ==> after == before,
        !before.closed && before.in_use != before.max_connections ==> {
            &&& after.in_use == before.in_use + 1
            &&& after.max_connections == before.max_connections
            &&& !after.closed
            &&& after.idle.len() <= before.idle.len()
            &&& forall|i: int| 0 <= i < after.idle.len() ==> #[trigger] after.idle[i] == before.idle[i]
        },
        acquired matches Ok(Acquired::Session(session)) ==> {
            let at = after.idle.len() as int;
            &&& at < before.idle.len()
            &&& session == before.idle[at]
            &&& reusable.ensures((&session,), true)
            &&& forall|i: int|
                at < i < before.idle.len() ==> reusable.ensures(
                    (&#[trigger] before.idle[i],),
                    false,
                )
        },
        acquired matches Ok(Acquired::Slot) ==> after.idle.len() == 0 && forall|i: int|
            0 <= i < before.idle.len() ==> reusable.ensures((&#[trigger] before.idle[i],), false),
{
}

/// A session that is given back to an open pool and may be handed on waits in
/// it, last, and frees its slot; any other one is handed to the caller to be
/// closed and keeps its slot until that is freed. Closing takes all idle
/// sessions out, frees no slot and changes no limit.
pub proof fn law_release_keeps_or_retires<T>(
    pool: PoolStateView<T>,
    session: T,
    reusable: bool,
)
    requires
        pool.in_use > 0,
    ensures
        pool.released(session, reusable).1 is None <==> !pool.closed && reusable,
        pool.released(session, reusable).1 matches Some(retired) ==> retired == session
            && pool.released(session, reusable).0 == pool,
        !pool.closed && reusable ==> {
            let after = pool.released(session, reusable).0;
            &&& after.in_use == pool.in_use - 1
            &&& after.max_connections == pool.max_connections
            &&& !after.closed
            &&& after.idle.len() == pool.idle.len() + 1
            &&& after.idle.last() == session
            &&& forall|i: int| 0 <= i < pool.idle.len() ==> #[trigger] after.idle[i] == pool.idle[i]
        },
        pool.slot_freed().in_use == pool.in_use - 1,
        pool.slot_freed().max_connections == pool.max_connections,
        pool.slot_freed().idle == pool.idle,
        pool.slot_freed().closed == pool.closed,
        pool.drained().closed,
        pool.drained().idle.len() == 0,
        pool.drained().in_use == pool.in_use,
        pool.drained().max_connections == pool.max_connections,
{
}

/// The first failure among some outcomes is what comes of them, and success if
/// none failed.
pub proof fn law_first_failure_is_reported(outcomes: Seq<Result<(), QuackErrorView>>, i: int)
    ensures
        (forall|k: int| 0 <= k < outcomes.len() ==> #[trigger] outcomes[k] is Ok) ==> first_error(
            outcomes,
        ) is Ok,
        0 <= i < outcomes.len() && outcomes[i] is Err && (forall|k: int|
            0 <= k < i ==> #[trigger] outcomes[k] is Ok) ==> first_error(outcomes) == outcomes[i],
    decreases outcomes.len(),
{
    if outcomes.len() > 0 {
        let rest = outcomes.skip(1);
        law_first_failure_is_reported(rest, i - 1);
        assert forall|k: int| 0 <= k < rest.len() implies rest[k] == #[trigger] outcomes[k + 1] by {}
        if forall|k: int| 0 <= k < outcomes.len() ==> #[trigger] outcomes[k] is Ok {
            assert(outcomes[0] is Ok);
            assert forall|k: int| 0 <= k < rest.len() implies #[trigger] rest[k] is Ok by {
                assert(outcomes[k + 1] is Ok);
            }
        }
        if 0 < i < outcomes.len() && outcomes[i] is Err && (forall|k: int|
            0 <= k < i ==> #[trigger] outcomes[k] is Ok) {
            assert(outcomes[0] is Ok);
            assert(rest[i - 1] == outcomes[i]);
            assert forall|k: int| 0 <= k < i - 1 implies #[trigger] rest[k] is Ok by {
                assert(outcomes[k + 1] is Ok);
            }
        }
    }
}

/// A pool may hold any number of connections but none.
pub proof fn law_pool_needs_a_connection(max_connections: nat)
    ensures
        limit_checked(max_connections) is Ok <==> max_connections > 0,
{
}

/// A session fails for good with the first fatal error, and any other error
/// leaves it as it was. It may be handed on as long as it is open and has not
/// failed, whatever other errors it has seen.
pub proof fn law_fatal_error_retires_the_session(
    failed: bool,
    error: QuackErrorView,
    lease: ConnectionLease,
)
    ensures
        failed ==> failed_after(failed, error),
        error.is_connection_fatal() ==> failed_after(failed, error),
        !error.is_connection_fatal() ==> failed_after(failed, error) == failed,
        may_be_reused(failed_after(failed, error), lease) <==> may_be_reused(failed, lease)
            && !error.is_connection_fatal(),
        lease.closed ==> !may_be_reused(failed, lease),
        !lease.closed ==> may_be_reused(false, lease),
{
}

} // verus!
