use quack_protocol::binary::HugeIntParts;
use quack_protocol::builders;
use quack_protocol::client::QuackClientOptions;
use quack_protocol::errors::QuackError;
use quack_protocol::handshake::is_version_negotiation_error;
use quack_protocol::handshake::Handshake;
use quack_protocol::handshake::HandshakeStep;
use quack_protocol::heartbeat::heartbeat_answered;
use quack_protocol::heartbeat::heartbeat_interval;
use quack_protocol::heartbeat::next_heartbeat;
use quack_protocol::heartbeat::HeartbeatStep;
use quack_protocol::lease::ConnectionState;
use quack_protocol::messages::MessageHeader;
use quack_protocol::messages::MessageType;
use quack_protocol::messages::QuackMessage;
use quack_protocol::session::answered;
use quack_protocol::session::disconnected;
use quack_protocol::session::expect_success;
use quack_protocol::session::Connection;
use quack_protocol::time::Clock;
use quack_protocol::time::Duration;
use quack_protocol::time::Instant;
use quack_protocol::types::LogicalTypes;
use quack_protocol::value::DataChunk;
use quack_protocol::value::Value;

fn header(kind: MessageType) -> MessageHeader {
    MessageHeader::new(kind)
}

fn success() -> QuackMessage {
    QuackMessage::SuccessResponse {
        header: header(MessageType::SuccessResponse),
    }
}

fn accepted(version: u64, heartbeat: Option<u64>) -> QuackMessage {
    QuackMessage::ConnectionResponse {
        header: header(MessageType::ConnectionResponse).with_connection("session-1"),
        server_duckdb_version: Some("v2.0.0".to_string()),
        server_platform: None,
        quack_version: Some(version),
        heartbeat_timeout_seconds: heartbeat,
    }
}

fn numbers() -> DataChunk {
    builders::data_chunk(vec![builders::column(
        LogicalTypes::integer(),
        vec![Value::Int(1)],
        Some("n".to_string()),
    )])
    .unwrap()
}

fn start() -> Handshake {
    Handshake::start(&QuackClientOptions::default()).unwrap()
}

fn refused(step: HandshakeStep) -> String {
    match step {
        HandshakeStep::Refused(error) => error.to_text(),
        _ => panic!("the handshake goes on"),
    }
}

fn later(from: Instant, millis: u64) -> Instant {
    from.checked_add(Duration::from_millis(millis)).unwrap()
}

#[test]
fn the_newest_version_is_asked_for_first() {
    let mut options = QuackClientOptions::default();
    options.auth_token = Some("token".to_string());
    options.client_id = Some("worker".to_string());
    let handshake = Handshake::start(&options).unwrap();
    assert_eq!(handshake.version(), 3);
    assert_eq!(
        handshake.request(),
        QuackMessage::ConnectionRequest {
            header: header(MessageType::ConnectionRequest),
            auth_string: Some("token".to_string()),
            client_duckdb_version: None,
            client_platform: Some("quack-rust".to_string()),
            min_supported_quack_version: 3,
            max_supported_quack_version: 3,
            client_id: Some("worker".to_string()),
            heartbeat_timeout_seconds: 60,
        }
    );
}

#[test]
fn an_older_server_is_asked_for_version_1() {
    let refusal = QuackError::protocol("Quack HTTP request failed with 500 Internal Server Error");
    let second = match start().step(Err(refusal)) {
        HandshakeStep::Retry(handshake) => handshake,
        _ => panic!("version 1 is tried"),
    };
    assert_eq!(second.version(), 1);
    match second.step(Ok(accepted(1, None))) {
        HandshakeStep::Connected {
            connection_id,
            info,
        } => {
            assert_eq!(connection_id, "session-1");
            assert_eq!(info.quack_version, Some(1));
            assert_eq!(info.heartbeat_timeout, None);
            assert_eq!(info.server_duckdb_version.as_deref(), Some("v2.0.0"));
        }
        _ => panic!("the connection is made"),
    }
}

#[test]
fn the_first_refusal_is_reported_when_no_version_fits() {
    let first = QuackError::server("Unsupported Quack version");
    let second = match start().step(Err(first)) {
        HandshakeStep::Retry(handshake) => handshake,
        _ => panic!("version 1 is tried"),
    };
    assert_eq!(
        refused(second.step(Err(QuackError::protocol("cannot deserialize the request")))),
        "quack server error: Unsupported Quack version"
    );
}

#[test]
fn another_failure_of_the_second_version_is_reported() {
    let second = match start().step(Err(QuackError::server("protocol version"))) {
        HandshakeStep::Retry(handshake) => handshake,
        _ => panic!("version 1 is tried"),
    };
    assert_eq!(
        refused(second.step(Err(QuackError::server("Authentication failed")))),
        "quack server error: Authentication failed"
    );
}

#[test]
fn a_failed_authentication_is_not_retried() {
    assert_eq!(
        refused(start().step(Err(QuackError::server("Authentication failed")))),
        "quack server error: Authentication failed"
    );
}

#[test]
fn equal_limits_require_one_version() {
    for version in [1u64, 3] {
        let mut options = QuackClientOptions::default();
        options.min_supported_quack_version = Some(version);
        options.max_supported_quack_version = Some(version);
        let handshake = Handshake::start(&options).unwrap();
        assert_eq!(handshake.version(), version);
        assert_eq!(
            refused(handshake.step(Err(QuackError::server("Unsupported quack version")))),
            "quack server error: Unsupported quack version"
        );
    }
}

#[test]
fn unusable_options_are_refused_before_anything_is_sent() {
    let mut options = QuackClientOptions::default();
    options.min_supported_quack_version = Some(3);
    options.max_supported_quack_version = Some(1);
    assert_eq!(
        Handshake::start(&options).unwrap_err().to_text(),
        "quack protocol error: minimum Quack protocol version 3 exceeds maximum 1"
    );
    options.min_supported_quack_version = Some(2);
    options.max_supported_quack_version = Some(2);
    assert_eq!(
        Handshake::start(&options).unwrap_err().to_text(),
        "quack protocol error: supported Quack protocol versions are 1 and 3, requested range was 2..=2"
    );
    let mut options = QuackClientOptions::default();
    options.heartbeat_timeout = Some(Duration::from_secs(0));
    assert_eq!(
        Handshake::start(&options).unwrap_err().to_text(),
        "quack protocol error: heartbeat timeout must be between 1 and 3600 seconds"
    );
    options.max_supported_quack_version = Some(1);
    assert_eq!(Handshake::start(&options).unwrap().version(), 1);
}

#[test]
fn an_answer_out_of_protocol_is_refused() {
    let wrong_version = start().step(Ok(accepted(1, Some(60))));
    assert_eq!(
        refused(wrong_version),
        "quack protocol error: server selected Quack protocol version Some(1), expected 3"
    );
    let mut no_version = accepted(3, Some(60));
    if let QuackMessage::ConnectionResponse { quack_version, .. } = &mut no_version {
        *quack_version = None;
    }
    assert_eq!(
        refused(start().step(Ok(no_version))),
        "quack protocol error: server selected Quack protocol version None, expected 3"
    );
    assert_eq!(
        refused(start().step(Ok(accepted(3, None)))),
        "quack protocol error: protocol v3 CONNECTION_RESPONSE did not include a heartbeat timeout"
    );
    assert_eq!(
        refused(start().step(Ok(accepted(3, Some(3601))))),
        "quack protocol error: heartbeat timeout must be between 1 and 3600 seconds"
    );
    assert_eq!(
        refused(start().step(Ok(success()))),
        "quack protocol error: expected CONNECTION_RESPONSE, got SuccessResponse"
    );
    let nameless = QuackMessage::ConnectionResponse {
        header: header(MessageType::ConnectionResponse),
        server_duckdb_version: None,
        server_platform: None,
        quack_version: Some(3),
        heartbeat_timeout_seconds: Some(60),
    };
    assert_eq!(
        refused(start().step(Ok(nameless))),
        "quack protocol error: CONNECTION_RESPONSE did not include a connection id"
    );
}

#[test]
fn a_connection_reports_its_version_and_lease() {
    match start().step(Ok(accepted(3, Some(45)))) {
        HandshakeStep::Connected { info, .. } => {
            assert_eq!(info.quack_version, Some(3));
            assert_eq!(info.heartbeat_timeout, Some(Duration::from_secs(45)));
        }
        _ => panic!("the connection is made"),
    }
}

#[test]
fn version_errors_are_told_by_their_text() {
    for text in [
        "QUACK VERSION",
        "no Protocol Version in common",
        "HTTP request failed with 500 ",
        "Failed to Deserialize",
        "expected End Of Object",
        "unexpected field 7",
    ] {
        assert!(is_version_negotiation_error(&QuackError::protocol(text)));
        assert!(is_version_negotiation_error(&QuackError::server(text)));
        assert!(!is_version_negotiation_error(&QuackError::unsupported(text)));
    }
    assert!(!is_version_negotiation_error(&QuackError::protocol(
        "HTTP request failed with 503 Service Unavailable"
    )));
}

#[test]
fn requests_are_numbered_one_after_the_other() {
    let state = ConnectionState::new(&Clock::start());
    let mut connection = Connection::new("session-1".to_string(), 3);
    assert_eq!(connection.connection_id(), "session-1");
    assert_eq!(connection.quack_version(), 3);
    let result_uuid = HugeIntParts { upper: 7, lower: 8 };
    let first = connection.prepare(&state, "SELECT 1").unwrap();
    let second = connection.fetch(&state, result_uuid, 4, 3).unwrap();
    let third = connection.prepare(&state, "SELECT 2").unwrap();
    let scoped = |kind: MessageType, id: u64| {
        header(kind)
            .with_connection("session-1")
            .with_client_query_id(id)
    };
    assert_eq!(
        first,
        QuackMessage::PrepareRequest {
            header: scoped(MessageType::PrepareRequest, 1),
            sql: "SELECT 1".to_string(),
            query_uuid: Some(HugeIntParts { upper: 0, lower: 1 }),
            inline_rows: None,
        }
    );
    assert_eq!(
        second,
        QuackMessage::FetchRequest {
            header: scoped(MessageType::FetchRequest, 2),
            result_uuid,
            batch_index: Some(4),
            ack_index: Some(3),
        }
    );
    assert_eq!(
        third,
        QuackMessage::PrepareRequest {
            header: scoped(MessageType::PrepareRequest, 3),
            sql: "SELECT 2".to_string(),
            query_uuid: Some(HugeIntParts { upper: 0, lower: 2 }),
            inline_rows: None,
        }
    );
}

#[test]
fn version_1_requests_leave_out_what_it_does_not_have() {
    let state = ConnectionState::new(&Clock::start());
    let mut connection = Connection::new("session-1".to_string(), 1);
    match connection.prepare(&state, "SELECT 1").unwrap() {
        QuackMessage::PrepareRequest { query_uuid, .. } => assert_eq!(query_uuid, None),
        other => panic!("unexpected message {other:?}"),
    }
    match connection
        .fetch(&state, HugeIntParts { upper: 0, lower: 1 }, 1, 0)
        .unwrap()
    {
        QuackMessage::FetchRequest {
            batch_index,
            ack_index,
            ..
        } => {
            assert_eq!(batch_index, None);
            assert_eq!(ack_index, None);
        }
        other => panic!("unexpected message {other:?}"),
    }
}

#[test]
fn append_needs_version_1() {
    let state = ConnectionState::new(&Clock::start());
    let mut old = Connection::new("a".to_string(), 1);
    match old
        .append(&state, "t".to_string(), Some("main".to_string()), numbers())
        .unwrap()
    {
        QuackMessage::AppendRequest {
            header,
            schema_name,
            table_name,
            append_chunk,
        } => {
            assert_eq!(header.message_type, MessageType::SendDataRequest);
            assert_eq!(header.client_query_id, Some(1));
            assert_eq!(schema_name.as_deref(), Some("main"));
            assert_eq!(table_name, "t");
            assert_eq!(append_chunk, numbers());
        }
        other => panic!("unexpected message {other:?}"),
    }
    let mut new = Connection::new("a".to_string(), 3);
    assert_eq!(
        new.append(&state, "t".to_string(), None, numbers())
            .unwrap_err()
            .to_text(),
        "quack protocol error: append is only supported by Quack protocol v1; protocol v3 uses SEND_DATA"
    );
}

#[test]
fn a_closed_connection_sends_nothing() {
    let mut state = ConnectionState::new(&Clock::start());
    let mut connection = Connection::new("a".to_string(), 1);
    assert!(matches!(
        connection.disconnect(&state),
        Some(QuackMessage::Disconnect { .. })
    ));
    disconnected(&mut state, success()).unwrap();
    assert!(state.is_closed());
    let closed = "quack protocol error: Quack client is not connected";
    assert_eq!(
        connection.prepare(&state, "SELECT 1").unwrap_err().to_text(),
        closed
    );
    let uuid = HugeIntParts { upper: 0, lower: 1 };
    assert_eq!(
        connection.fetch(&state, uuid, 1, 0).unwrap_err().to_text(),
        closed
    );
    assert_eq!(
        connection
            .append(&state, "t".to_string(), None, numbers())
            .unwrap_err()
            .to_text(),
        closed
    );
    assert!(connection.disconnect(&state).is_none());
}

#[test]
fn an_unexpected_answer_to_disconnect_leaves_the_connection_open() {
    let mut state = ConnectionState::new(&Clock::start());
    let answer = QuackMessage::HeartbeatRequest {
        header: header(MessageType::HeartbeatRequest),
    };
    assert_eq!(
        disconnected(&mut state, answer).unwrap_err().to_text(),
        "quack protocol error: expected SUCCESS_RESPONSE, got HeartbeatRequest"
    );
    assert!(!state.is_closed());
    assert!(expect_success(success()).is_ok());
}

#[test]
fn only_an_answer_renews_the_lease() {
    let now = Clock::start().now();
    let timeout = Duration::from_secs(10);
    let mut state = ConnectionState::new_at(now);
    assert!(answered(&mut state, later(now, 9_000), Err(QuackError::protocol("x"))).is_err());
    assert_eq!(state.lease().last_successful_activity, now);
    assert_eq!(
        answered(&mut state, later(now, 9_000), Ok(success())).unwrap(),
        success()
    );
    assert!(!state.close_if_expired_at(later(now, 18_999), timeout));
    assert!(state.close_if_expired_at(later(now, 19_000), timeout));
}

#[test]
fn a_closed_connection_stays_closed() {
    let now = Clock::start().now();
    let mut state = ConnectionState::new_at(now);
    state.close();
    state.record_success_at(later(now, 5));
    assert!(state.is_closed());
    assert_eq!(state.lease().last_successful_activity, now);
    assert!(state.close_if_expired_at(now, Duration::from_secs(60)));
}

#[test]
fn the_clock_does_not_run_backwards() {
    let clock = Clock::start();
    let mut state = ConnectionState::new(&clock);
    let before = state.lease().last_successful_activity;
    state.record_success(&clock);
    let after = state.lease().last_successful_activity;
    assert_eq!(before.saturating_duration_since(after), Duration::from_secs(0));
    assert!(!state.close_if_expired(&clock, Duration::from_secs(3600)));
    assert!(state.close_if_expired(&clock, Duration::from_secs(0)));
}

#[test]
fn durations_keep_whole_seconds_and_nanoseconds_apart() {
    assert_eq!(Duration::from_millis(1_250), Duration::new(1, 250_000_000));
    assert_eq!(Duration::from_millis(1_250).as_secs(), 1);
    assert_eq!(Duration::from_millis(1_250).subsec_nanos(), 250_000_000);
    assert_eq!(Duration::from_secs(10).third(), Duration::new(3, 333_333_333));
}

#[test]
fn heartbeats_come_three_times_in_a_lease() {
    assert_eq!(
        heartbeat_interval(Duration::from_secs(60)),
        Duration::from_secs(20)
    );
    assert_eq!(
        heartbeat_interval(Duration::from_millis(150)),
        Duration::from_millis(100)
    );
}

#[test]
fn heartbeats_stop_when_the_connection_is_closed() {
    let mut state = ConnectionState::new(&Clock::start());
    assert_eq!(
        next_heartbeat(&state, "session-1"),
        Some(QuackMessage::HeartbeatRequest {
            header: header(MessageType::HeartbeatRequest).with_connection("session-1"),
        })
    );
    state.close();
    assert_eq!(next_heartbeat(&state, "session-1"), None);
}

#[test]
fn a_failed_heartbeat_closes_only_an_expired_connection() {
    let now = Clock::start().now();
    let timeout = Duration::from_secs(60);
    let mut state = ConnectionState::new_at(now);
    let failure = Err(QuackError::protocol("connection reset"));
    assert_eq!(
        heartbeat_answered(&mut state, later(now, 59_999), timeout, &failure),
        HeartbeatStep::Continue
    );
    assert_eq!(
        heartbeat_answered(&mut state, later(now, 59_999), timeout, &Ok(success())),
        HeartbeatStep::Continue
    );
    assert_eq!(
        heartbeat_answered(&mut state, later(now, 119_998), timeout, &failure),
        HeartbeatStep::Continue
    );
    assert_eq!(
        heartbeat_answered(&mut state, later(now, 119_999), timeout, &failure),
        HeartbeatStep::StopExpired
    );
    assert!(state.is_closed());
}

#[test]
fn an_unexpected_heartbeat_answer_closes_the_connection() {
    let now = Clock::start().now();
    let mut state = ConnectionState::new_at(now);
    let answer = Ok(accepted(3, Some(60)));
    assert_eq!(
        heartbeat_answered(&mut state, now, Duration::from_secs(60), &answer),
        HeartbeatStep::StopUnexpected
    );
    assert!(state.is_closed());
}
