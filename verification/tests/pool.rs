use quack_protocol::errors::QuackError;
use quack_protocol::fetch::prepared;
use quack_protocol::lease::ConnectionState;
use quack_protocol::messages::MessageHeader;
use quack_protocol::messages::MessageType;
use quack_protocol::messages::QuackMessage;
use quack_protocol::pool::first_failure;
use quack_protocol::pool::validate_pool_options;
use quack_protocol::pool::Acquired;
use quack_protocol::pool::PoolState;
use quack_protocol::pool::QuackPoolOptions;
use quack_protocol::pool::SessionHealth;
use quack_protocol::time::Clock;

fn session(acquired: Result<Acquired<u32>, QuackError>) -> Option<u32> {
    match acquired.unwrap() {
        Acquired::Session(session) => Some(session),
        Acquired::Slot => None,
        Acquired::Busy => panic!("every slot is taken"),
    }
}

fn is_busy(pool: &mut PoolState<u32>) -> bool {
    matches!(pool.acquire(|_: &u32| true), Ok(Acquired::Busy))
}

#[test]
fn rejects_an_empty_pool() {
    let err = validate_pool_options(&QuackPoolOptions { max_connections: 0 })
        .expect_err("max_connections 0 is rejected");
    assert!(err.to_text().contains("max_connections"), "{err:?}");
    assert!(validate_pool_options(&QuackPoolOptions { max_connections: 1 }).is_ok());
}

#[test]
fn a_malformed_response_retires_the_session() {
    let state = ConnectionState::new(&Clock::start());
    let mut health = SessionHealth::new();
    assert!(health.is_reusable(&state));
    let answer = QuackMessage::SuccessResponse {
        header: MessageHeader::new(MessageType::SuccessResponse),
    };
    let error = match prepared(1, answer) {
        Ok(_) => panic!("wrong response type is a protocol error"),
        Err(error) => error,
    };
    assert!(
        matches!(error, QuackError::Protocol(ref message) if message.contains("PREPARE_RESPONSE"))
    );
    health.note(&error);
    assert!(!health.is_reusable(&state));
}

#[test]
fn sql_errors_and_closing_decide_about_reuse() {
    let mut state = ConnectionState::new(&Clock::start());
    let mut health = SessionHealth::new();
    health.note(&QuackError::server("Table with name t does not exist!"));
    assert!(health.is_reusable(&state));
    state.close();
    assert!(!health.is_reusable(&state));
    let open = ConnectionState::new(&Clock::start());
    health.note(&QuackError::server("Invalid connection id"));
    health.note(&QuackError::unsupported("x"));
    assert!(!health.is_reusable(&open));
}

#[test]
fn a_retired_lease_keeps_its_slot_until_the_session_is_closed() {
    let mut pool = PoolState::new(1, 7u32);
    assert_eq!(session(pool.acquire(|_: &u32| true)), Some(7));
    assert!(is_busy(&mut pool));
    assert_eq!(pool.release(7, false), Some(7));
    assert!(is_busy(&mut pool));
    pool.free_slot();
    assert_eq!(session(pool.acquire(|_: &u32| true)), None);
}

#[test]
fn a_returned_session_is_handed_out_next() {
    let mut pool = PoolState::new(3, 1u32);
    assert_eq!(pool.max_connections(), 3);
    assert_eq!(session(pool.acquire(|_: &u32| true)), Some(1));
    assert_eq!(session(pool.acquire(|_: &u32| true)), None);
    assert_eq!(pool.release(1, true), None);
    assert_eq!(pool.release(2, true), None);
    assert_eq!(session(pool.acquire(|_: &u32| true)), Some(2));
    assert_eq!(session(pool.acquire(|_: &u32| true)), Some(1));
}

#[test]
fn idle_sessions_that_went_bad_are_passed_over() {
    let mut pool = PoolState::new(3, 1u32);
    assert_eq!(session(pool.acquire(|_: &u32| true)), Some(1));
    assert_eq!(session(pool.acquire(|_: &u32| true)), None);
    pool.release(1, true);
    pool.release(2, true);
    assert_eq!(session(pool.acquire(|n: &u32| *n != 2)), Some(1));
    pool.release(1, true);
    assert_eq!(session(pool.acquire(|_: &u32| false)), None);
}

#[test]
fn the_pool_keeps_within_its_limit() {
    let mut pool = PoolState::new(2, 1u32);
    assert_eq!(session(pool.acquire(|_: &u32| true)), Some(1));
    assert_eq!(session(pool.acquire(|_: &u32| true)), None);
    assert!(is_busy(&mut pool));
    pool.release(1, true);
    assert!(!is_busy(&mut pool));
}

#[test]
fn a_closed_pool_stays_closed() {
    let mut pool = PoolState::new(2, 1u32);
    assert_eq!(session(pool.acquire(|_: &u32| true)), Some(1));
    assert_eq!(session(pool.acquire(|_: &u32| true)), None);
    pool.release(2, true);
    assert!(!pool.is_closed());
    assert_eq!(pool.close_and_drain(), vec![2]);
    assert!(pool.is_closed());
    assert_eq!(pool.release(1, true), Some(1));
    assert_eq!(
        pool.acquire(|_: &u32| true).err().unwrap().to_text(),
        "quack protocol error: Quack pool is closed"
    );
    assert_eq!(pool.close_and_drain(), Vec::<u32>::new());
}

#[test]
fn closing_reports_the_first_failure() {
    assert!(first_failure(vec![]).is_ok());
    assert!(first_failure(vec![Ok(()), Ok(())]).is_ok());
    let outcomes = vec![
        Ok(()),
        Err(QuackError::server("one")),
        Err(QuackError::server("two")),
    ];
    assert_eq!(
        first_failure(outcomes).unwrap_err().to_text(),
        "quack server error: one"
    );
}
