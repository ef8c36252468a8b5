use quack_protocol::builders::append_batches;
use quack_protocol::calendar::date_from_iso_date;
use quack_protocol::client::QuackClientOptions;
use quack_protocol::client::DEFAULT_QUACK_REQUEST_TIMEOUT_SECS;
use quack_protocol::codec::decode_message;
use quack_protocol::constants::MAX_HEARTBEAT_TIMEOUT_SECS;
use quack_protocol::errors::QuackError;
use quack_protocol::handshake::validate_heartbeat_timeout;
use quack_protocol::lease::ConnectionState;
use quack_protocol::pool::QuackPoolOptions;
use quack_protocol::pool::DEFAULT_MAX_CONNECTIONS;
use quack_protocol::sql::format_sql;
use quack_protocol::sql::SqlParameters;
use quack_protocol::time::Clock;
use quack_protocol::time::Duration;
use quack_protocol::transport::check_reply;
use quack_protocol::uri::parse_quack_uri;

#[test]
fn default_options_have_request_timeout() {
    assert_eq!(
        QuackClientOptions::default().timeout,
        Some(Duration::from_secs(DEFAULT_QUACK_REQUEST_TIMEOUT_SECS))
    );
    assert_eq!(DEFAULT_QUACK_REQUEST_TIMEOUT_SECS, 300);
}

#[test]
fn heartbeat_timeout_is_bounded() {
    assert!(validate_heartbeat_timeout(1).is_ok());
    assert!(validate_heartbeat_timeout(MAX_HEARTBEAT_TIMEOUT_SECS).is_ok());
    assert!(validate_heartbeat_timeout(0).is_err());
    assert!(validate_heartbeat_timeout(MAX_HEARTBEAT_TIMEOUT_SECS + 1).is_err());
}

#[test]
fn connection_state_expires_only_after_the_last_successful_activity() {
    let started = Clock::start().now();
    let timeout = Duration::from_secs(30);
    let after = |secs: u64| started.checked_add(Duration::from_secs(secs)).unwrap();
    let mut state = ConnectionState::new_at(started);

    assert!(!state.close_if_expired_at(after(29), timeout));

    state.record_success_at(after(29));
    assert!(!state.close_if_expired_at(after(58), timeout));
    assert!(state.close_if_expired_at(after(59), timeout));
    assert!(state.is_closed());
}

#[test]
fn default_pool_is_small() {
    assert_eq!(
        QuackPoolOptions::default().max_connections,
        DEFAULT_MAX_CONNECTIONS
    );
}

#[test]
fn exact_connection_error_text_retires() {
    for message in [
        "Invalid connection id",
        "Connection does not exist / already disconnected",
    ] {
        let err = QuackError::server(message);
        assert!(err.is_connection_fatal(), "{message}");
    }
}

#[test]
fn sql_error_text_containing_connection_message_is_not_fatal() {
    for message in [
        "Invalid Input Error: Invalid connection id",
        "statement failed: Invalid connection id after committing",
        "Connection does not exist / already disconnected (from SQL)",
    ] {
        let err = QuackError::server(message);
        assert!(!err.is_connection_fatal(), "{message}");
    }
}

#[test]
fn sql_errors_leave_the_connection_usable() {
    let err = QuackError::server("Table with name t does not exist!");
    assert!(!err.is_connection_fatal());
}

#[test]
fn transport_errors_are_fatal() {
    let err = QuackError::protocol("expected PREPARE_RESPONSE, got FetchResponse");
    assert!(err.is_connection_fatal());
}

#[test]
fn errors_about_arguments_leave_the_connection_usable() {
    for message in [
        "append_rows batch_size must be at least 1",
        "not enough SQL parameters",
        "too many SQL parameters",
        "missing SQL parameter id",
        "minimum Quack protocol version 3 exceeds maximum 1",
        "supported Quack protocol versions are 1 and 3, requested range was 2..=2",
        "QuackPoolOptions::max_connections must be at least 1",
        "append is only supported by Quack protocol v1; protocol v3 uses SEND_DATA",
        "Quack pool is closed",
        "Quack client is not connected",
        "invalid Quack URI port 0",
        "no type can be told for column a",
    ] {
        let err = QuackError::protocol(message);
        assert!(!err.is_connection_fatal(), "{message}");
    }
    let raised = append_batches(1, Some(0)).unwrap_err();
    assert!(!raised.is_connection_fatal());
    let raised = format_sql("SELECT ?", Some(&SqlParameters::Positional(vec![]))).unwrap_err();
    assert!(!raised.is_connection_fatal());
    let raised = parse_quack_uri("::1", None).unwrap_err();
    assert!(!raised.is_connection_fatal());
    let raised = date_from_iso_date("today").unwrap_err();
    assert!(!raised.is_connection_fatal());
}

#[test]
fn failures_of_the_wire_retire_the_connection() {
    assert!(check_reply(500).unwrap_err().is_connection_fatal());
    assert!(decode_message(&[]).unwrap_err().is_connection_fatal());
    for message in [
        "append_rows batch_size must be at least 1 ",
        "FETCH_RESPONSE batch index overflow",
        "server selected Quack protocol version None, expected 3",
        "",
    ] {
        let err = QuackError::protocol(message);
        assert!(err.is_connection_fatal(), "{message}");
    }
}
