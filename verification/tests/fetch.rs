use quack_protocol::binary::HugeIntParts;
use quack_protocol::builders;
use quack_protocol::errors::QuackError;
use quack_protocol::fetch::attach_column_names;
use quack_protocol::fetch::prepared;
use quack_protocol::fetch::FetchState;
use quack_protocol::lease::ConnectionState;
use quack_protocol::messages::MessageHeader;
use quack_protocol::messages::MessageType;
use quack_protocol::messages::QuackMessage;
use quack_protocol::session::Connection;
use quack_protocol::time::Clock;
use quack_protocol::types::ColumnDefinition;
use quack_protocol::types::LogicalTypes;
use quack_protocol::value::DataChunk;
use quack_protocol::value::Value;

fn chunk(n: i64) -> DataChunk {
    builders::data_chunk(vec![builders::column(
        LogicalTypes::integer(),
        vec![Value::Int(n)],
        None,
    )])
    .unwrap()
}

fn named(n: i64) -> DataChunk {
    let mut chunk = chunk(n);
    chunk.column_names = Some(vec!["answer".to_string()]);
    chunk
}

fn prepare_response(results: Vec<DataChunk>, needs_more_fetch: bool) -> QuackMessage {
    QuackMessage::PrepareResponse {
        header: MessageHeader::new(MessageType::PrepareResponse),
        result_types: vec![LogicalTypes::integer()],
        result_names: vec!["answer".to_string()],
        needs_more_fetch,
        results,
        result_uuid: HugeIntParts { upper: 3, lower: 9 },
    }
}

fn batch(
    results: Vec<DataChunk>,
    batch_index: Option<u64>,
    total_batches: Option<u64>,
) -> Result<QuackMessage, QuackError> {
    Ok(QuackMessage::FetchResponse {
        header: MessageHeader::new(MessageType::FetchResponse),
        results,
        total_batches,
        batch_index,
    })
}

fn cursor(version: u64) -> FetchState {
    prepared(version, prepare_response(vec![], true))
        .unwrap()
        .fetch
}

fn asked_for(fetch: &FetchState, version: u64) -> (HugeIntParts, Option<u64>, Option<u64>) {
    let state = ConnectionState::new(&Clock::start());
    let mut connection = Connection::new("c".to_string(), version);
    match fetch.request(&mut connection, &state).unwrap() {
        QuackMessage::FetchRequest {
            result_uuid,
            batch_index,
            ack_index,
            ..
        } => (result_uuid, batch_index, ack_index),
        other => panic!("unexpected message {other:?}"),
    }
}

fn refusal(fetch: &mut FetchState, answer: Result<QuackMessage, QuackError>) -> String {
    fetch.accept(answer).unwrap_err().to_text()
}

#[test]
fn the_first_chunks_come_with_the_answer_to_prepare() {
    let answer = prepared(3, prepare_response(vec![chunk(1), chunk(2)], false)).unwrap();
    assert_eq!(
        answer.columns,
        vec![ColumnDefinition {
            name: "answer".to_string(),
            logical_type: LogicalTypes::integer(),
        }]
    );
    assert_eq!(answer.chunks, vec![named(1), named(2)]);
    assert!(!answer.fetch.needs_more_fetch());
}

#[test]
fn another_answer_to_prepare_is_refused() {
    let answer = QuackMessage::SuccessResponse {
        header: MessageHeader::new(MessageType::SuccessResponse),
    };
    assert_eq!(
        prepared(1, answer).unwrap_err().to_text(),
        "quack protocol error: expected PREPARE_RESPONSE, got SuccessResponse"
    );
}

#[test]
fn batches_are_asked_for_in_order_and_acknowledged() {
    let uuid = HugeIntParts { upper: 3, lower: 9 };
    let mut fetch = cursor(3);
    assert_eq!(asked_for(&fetch, 3), (uuid, Some(1), Some(0)));
    assert_eq!(
        fetch.accept(batch(vec![chunk(1)], Some(1), None)).unwrap(),
        vec![named(1)]
    );
    assert!(fetch.needs_more_fetch());
    assert_eq!(asked_for(&fetch, 3), (uuid, Some(2), Some(1)));
    assert_eq!(
        fetch
            .accept(batch(vec![chunk(2), chunk(3)], Some(2), Some(2)))
            .unwrap(),
        vec![named(2), named(3)]
    );
    assert_eq!(asked_for(&fetch, 3), (uuid, Some(3), Some(2)));
    assert_eq!(fetch.accept(batch(vec![], None, Some(2))).unwrap(), vec![]);
    assert!(!fetch.needs_more_fetch());
}

#[test]
fn batches_out_of_order_are_refused() {
    let mut fetch = cursor(3);
    assert_eq!(
        refusal(&mut fetch, batch(vec![chunk(1)], Some(2), None)),
        "quack protocol error: expected FETCH_RESPONSE batch 1, got 2"
    );
}

#[test]
fn malformed_batches_are_refused() {
    assert_eq!(
        refusal(&mut cursor(3), batch(vec![], Some(1), None)),
        "quack protocol error: FETCH_RESPONSE batch did not include any chunks"
    );
    assert_eq!(
        refusal(&mut cursor(3), batch(vec![chunk(1)], None, None)),
        "quack protocol error: FETCH_RESPONSE with chunks did not include a batch index"
    );
    assert_eq!(
        refusal(&mut cursor(3), batch(vec![], None, Some(4))),
        "quack protocol error: FETCH_RESPONSE ended after 0 batches but announced 4"
    );
    assert_eq!(
        refusal(&mut cursor(3), Err(QuackError::server("gone"))),
        "quack server error: gone"
    );
    let other = QuackMessage::ErrorResponse {
        header: MessageHeader::new(MessageType::ErrorResponse),
        message: String::new(),
    };
    assert_eq!(
        refusal(&mut cursor(3), Ok(other)),
        "quack protocol error: expected FETCH_RESPONSE, got ErrorResponse"
    );
}

#[test]
fn version_1_ends_with_an_empty_batch() {
    let mut fetch = cursor(1);
    let uuid = HugeIntParts { upper: 3, lower: 9 };
    assert_eq!(asked_for(&fetch, 1), (uuid, None, None));
    assert_eq!(
        fetch.accept(batch(vec![chunk(5)], None, None)).unwrap(),
        vec![named(5)]
    );
    assert!(fetch.needs_more_fetch());
    assert_eq!(fetch.accept(batch(vec![], None, None)).unwrap(), vec![]);
    assert!(!fetch.needs_more_fetch());
}

#[test]
fn every_chunk_gets_the_column_names() {
    let mut chunks = vec![named(1), chunk(2)];
    attach_column_names(&mut chunks, &vec!["n".to_string()]);
    for chunk in &chunks {
        assert_eq!(chunk.column_names, Some(vec!["n".to_string()]));
    }
    assert_eq!(chunks[1].columns, vec![vec![Value::Int(2)]]);
}
