use quack_protocol::binary;
use quack_protocol::binary::BinaryReader;
use quack_protocol::binary::BinaryWriter;
use quack_protocol::binary::HugeIntParts;
use quack_protocol::builders;
use quack_protocol::chunk::decode_data_chunk;
use quack_protocol::chunk::encode_data_chunk;
use quack_protocol::codec::decode_message;
use quack_protocol::codec::decode_message_for_version;
use quack_protocol::codec::encode_message;
use quack_protocol::codec::encode_message_for_version;
use quack_protocol::conform::conform;
use quack_protocol::decimals::decimal_from_text;
use quack_protocol::decimals::decimal_to_string;
use quack_protocol::errors::QuackError;
use quack_protocol::handshake::is_version_negotiation_error;
use quack_protocol::messages::MessageHeader;
use quack_protocol::messages::MessageType;
use quack_protocol::messages::QuackMessage;
use quack_protocol::transport::check_reply;
use quack_protocol::transport::check_status;
use quack_protocol::transport::read_answer;
use quack_protocol::transport::request_url;
use quack_protocol::typecodec::decode_logical_type;
use quack_protocol::typecodec::encode_logical_type;
use quack_protocol::types::ChildType;
use quack_protocol::types::LogicalType;
use quack_protocol::types::LogicalTypeId;
use quack_protocol::types::LogicalTypes;
use quack_protocol::value::interval_value;
use quack_protocol::value::timestamp_value;
use quack_protocol::value::DataChunk;
use quack_protocol::value::DateValue;
use quack_protocol::value::DecimalValue;
use quack_protocol::value::StructValue;
use quack_protocol::value::TimestampUnit;
use quack_protocol::value::Value;

fn uleb(n: u64) -> Vec<u8> {
    let mut writer = BinaryWriter::new();
    writer.write_uleb(n);
    writer.into_bytes()
}

fn sleb(n: i64) -> Vec<u8> {
    let mut writer = BinaryWriter::new();
    writer.write_sleb(n);
    writer.into_bytes()
}

fn type_bytes(t: &LogicalType) -> Vec<u8> {
    let mut writer = BinaryWriter::new();
    encode_logical_type(&mut writer, t).unwrap();
    writer.into_bytes()
}

fn chunk_bytes(chunk: &DataChunk) -> Vec<u8> {
    let mut writer = BinaryWriter::new();
    encode_data_chunk(&mut writer, chunk).unwrap();
    writer.into_bytes()
}

fn one_column(t: LogicalType, values: Vec<Value>) -> DataChunk {
    builders::data_chunk(vec![builders::column(t, values, None)]).unwrap()
}

fn round_trip(t: LogicalType, values: Vec<Value>) -> Vec<Value> {
    let bytes = chunk_bytes(&one_column(t, values));
    let mut reader = BinaryReader::new(&bytes);
    let mut chunk = decode_data_chunk(&mut reader).unwrap();
    reader.assert_eof().unwrap();
    chunk.columns.remove(0)
}

fn refused(t: LogicalType, values: Vec<Value>) -> String {
    let mut writer = BinaryWriter::new();
    encode_data_chunk(&mut writer, &one_column(t, values))
        .unwrap_err()
        .to_text()
}

fn plain(id: LogicalTypeId) -> LogicalType {
    LogicalType::plain(id)
}

fn header(kind: MessageType) -> MessageHeader {
    MessageHeader::new(kind)
}

#[test]
fn variable_length_integers_have_exact_bytes() {
    assert_eq!(uleb(0), vec![0]);
    assert_eq!(uleb(127), vec![0x7f]);
    assert_eq!(uleb(128), vec![0x80, 0x01]);
    assert_eq!(uleb(624_485), vec![0xe5, 0x8e, 0x26]);
    assert_eq!(
        uleb(u64::MAX),
        vec![0xff, 0xff, 0xff, 0xff, 0xff, 0xff, 0xff, 0xff, 0xff, 0x01]
    );
    assert_eq!(sleb(0), vec![0]);
    assert_eq!(sleb(-1), vec![0x7f]);
    assert_eq!(sleb(63), vec![0x3f]);
    assert_eq!(sleb(64), vec![0xc0, 0x00]);
    assert_eq!(sleb(-123_456), vec![0xc0, 0xbb, 0x78]);
    for n in [i64::MIN, -65, -64, 0, 63, 64, i64::MAX] {
        let bytes = sleb(n);
        assert_eq!(BinaryReader::new(&bytes).read_sleb_i64().unwrap(), n);
    }
}

#[test]
fn integers_that_do_not_fit_are_refused() {
    let long = [0xffu8; 11];
    assert_eq!(
        BinaryReader::new(&long).read_uleb_u64().unwrap_err().to_text(),
        "quack protocol error: variable-length integer is too long"
    );
    let wide = [0xff, 0xff, 0xff, 0xff, 0xff, 0xff, 0xff, 0xff, 0xff, 0x02];
    assert_eq!(
        BinaryReader::new(&wide).read_uleb_u64().unwrap_err().to_text(),
        "quack protocol error: integer is out of range"
    );
    assert_eq!(
        BinaryReader::new(&[0x80]).read_uleb_u64().unwrap_err().to_text(),
        "quack protocol error: unexpected end of input"
    );
}

#[test]
fn text_that_is_not_utf_8_is_refused() {
    let error = BinaryReader::new(&[2, 0xc3, 0x28]).read_string().unwrap_err();
    assert!(matches!(error, QuackError::Utf8(_)));
    assert!(error.is_connection_fatal());
    assert_eq!(
        error.to_text(),
        "utf-8 error: invalid utf-8 sequence of 1 bytes from index 0"
    );
    assert_eq!(
        BinaryReader::new(&[2, 0xc3, 0xa9]).read_string().unwrap(),
        "\u{e9}"
    );
    assert_eq!(
        BinaryReader::new(&[3, 0x61]).read_string().unwrap_err().to_text(),
        "quack protocol error: unexpected end of input"
    );
}

#[test]
fn fields_come_in_order() {
    let mut writer = BinaryWriter::new();
    writer.write_field(258);
    writer.write_bool(true);
    writer.end_object();
    let bytes = writer.into_bytes();
    assert_eq!(bytes, vec![2, 1, 1, 0xff, 0xff]);
    let mut reader = BinaryReader::new(&bytes);
    assert!(!reader.read_optional_field(7));
    assert_eq!(
        reader.read_required_field(7).unwrap_err().to_text(),
        "quack protocol error: expected field 7, got 258"
    );
    let mut reader = BinaryReader::new(&bytes);
    assert_eq!(
        reader.read_object_end().unwrap_err().to_text(),
        "quack protocol error: expected end of object, got field 258"
    );
    let mut reader = BinaryReader::new(&bytes);
    assert!(reader.read_optional_field(258));
    assert!(reader.read_bool().unwrap());
    assert_eq!(reader.remaining(), 2);
    assert_eq!(
        reader.assert_eof().unwrap_err().to_text(),
        "quack protocol error: 2 bytes are left after the end"
    );
    reader.read_object_end().unwrap();
    assert!(reader.is_at_end());
}

#[test]
fn a_missing_object_end_is_a_version_matter() {
    let mut reader = BinaryReader::new(&[2, 1]);
    let error = reader.read_object_end().unwrap_err();
    assert!(is_version_negotiation_error(&error));
}

#[test]
fn huge_integers_split_into_unique_parts() {
    for n in [i128::MIN, -1, 0, 1, 1 << 64, i128::MAX] {
        let parts = binary::split_signed_huge_int(n);
        assert_eq!(binary::combine_signed_huge_int(parts), n);
    }
    assert_eq!(
        binary::split_signed_huge_int(-1),
        HugeIntParts {
            upper: -1,
            lower: u64::MAX
        }
    );
}

#[test]
fn logical_types_have_exact_bytes() {
    assert_eq!(
        type_bytes(&LogicalTypes::integer()),
        vec![100, 0, 13, 0xff, 0xff]
    );
    let decimal = type_bytes(&LogicalTypes::decimal(10, 2));
    assert_eq!(
        decimal,
        vec![100, 0, 21, 101, 0, 1, 100, 0, 2, 200, 0, 10, 201, 0, 2, 0xff, 0xff, 0xff, 0xff]
    );
}

#[test]
fn logical_types_are_read_back() {
    let nested = LogicalTypes::structure(vec![
        ChildType {
            name: "list".to_string(),
            logical_type: LogicalTypes::list(LogicalTypes::decimal(38, 38)),
        },
        ChildType {
            name: "array".to_string(),
            logical_type: LogicalTypes::array(LogicalTypes::varchar(), 3),
        },
    ]);
    let bytes = type_bytes(&nested);
    let mut reader = BinaryReader::new(&bytes);
    assert_eq!(decode_logical_type(&mut reader).unwrap(), nested);
    assert!(reader.is_at_end());
}

#[test]
fn types_out_of_order_are_refused() {
    let mut writer = BinaryWriter::new();
    assert_eq!(
        encode_logical_type(&mut writer, &LogicalTypes::decimal(39, 2))
            .unwrap_err()
            .to_text(),
        "unsupported quack type: logical type 21"
    );
    let unknown = [100, 0, 99, 0xff, 0xff];
    assert_eq!(
        decode_logical_type(&mut BinaryReader::new(&unknown))
            .unwrap_err()
            .to_text(),
        "unsupported quack type: logical type 99"
    );
    let mut wide = type_bytes(&LogicalTypes::decimal(10, 2));
    wide[11] = 39;
    assert_eq!(
        decode_logical_type(&mut BinaryReader::new(&wide))
            .unwrap_err()
            .to_text(),
        "quack protocol error: decimal width or scale is out of range"
    );
}

#[test]
fn numbers_keep_their_value_at_every_width() {
    for (id, low, high) in [
        (LogicalTypeId::TinyInt, -128i64, 127i64),
        (LogicalTypeId::SmallInt, -32_768, 32_767),
        (LogicalTypeId::Integer, i32::MIN as i64, i32::MAX as i64),
        (LogicalTypeId::BigInt, i64::MIN, i64::MAX),
        (LogicalTypeId::UTinyInt, 0, 255),
        (LogicalTypeId::USmallInt, 0, 65_535),
        (LogicalTypeId::UInteger, 0, u32::MAX as i64),
    ] {
        let values = vec![Value::Int(low), Value::Null, Value::Int(high)];
        assert_eq!(round_trip(plain(id), values.clone()), values);
        if high < i64::MAX {
            assert_eq!(
                refused(plain(id), vec![Value::Int(high + 1)]),
                format!(
                    "quack protocol error: value does not fit logical type {}",
                    id.code()
                )
            );
        }
    }
    let large = vec![Value::HugeInt(u64::MAX as i128), Value::Int(1)];
    assert_eq!(round_trip(plain(LogicalTypeId::UBigInt), large.clone()), large);
    let huge = vec![Value::HugeInt(i128::MIN), Value::HugeInt(0)];
    assert_eq!(round_trip(plain(LogicalTypeId::HugeInt), huge.clone()), huge);
    assert_eq!(
        round_trip(plain(LogicalTypeId::HugeInt), vec![Value::Int(5)]),
        vec![Value::HugeInt(5)]
    );
}

#[test]
fn dates_and_timestamps_are_stored_as_numbers() {
    let dates = vec![
        Value::Date(DateValue { days: i32::MIN }),
        Value::Null,
        Value::Date(DateValue { days: 18_263 }),
    ];
    assert_eq!(round_trip(plain(LogicalTypeId::Date), dates.clone()), dates);
    for (id, unit, zone) in [
        (LogicalTypeId::TimestampSec, TimestampUnit::Seconds, false),
        (LogicalTypeId::TimestampMs, TimestampUnit::Millis, false),
        (LogicalTypeId::Timestamp, TimestampUnit::Micros, false),
        (LogicalTypeId::TimestampNs, TimestampUnit::Nanos, false),
        (LogicalTypeId::TimestampTz, TimestampUnit::Micros, true),
    ] {
        let values = vec![timestamp_value(-7, unit, zone)];
        assert_eq!(round_trip(plain(id), values.clone()), values);
        assert_eq!(
            conform(&plain(id), &timestamp_value(1, unit, !zone)),
            None
        );
    }
}

#[test]
fn intervals_keep_their_parts() {
    let spans = vec![
        interval_value(i32::MIN, -1, i64::MIN),
        interval_value(1, 2, 3),
        Value::Null,
        interval_value(i32::MAX, i32::MAX, i64::MAX),
        interval_value(0, -1, 0),
    ];
    assert_eq!(
        round_trip(plain(LogicalTypeId::Interval), spans.clone()),
        spans
    );
}

#[test]
fn a_chunk_has_exact_bytes() {
    let chunk = one_column(LogicalTypes::integer(), vec![Value::Int(1), Value::Null]);
    assert_eq!(
        chunk_bytes(&chunk),
        vec![
            100, 0, 2, // rows
            101, 0, 1, 100, 0, 13, 255, 255, // one type
            102, 0, 1, // one column
            100, 0, 1, // some values are missing
            101, 0, 8, 1, 0, 0, 0, 0, 0, 0, 0, // which ones
            102, 0, 8, 1, 0, 0, 0, 0, 0, 0, 0, // the numbers
            255, 255, 255, 255,
        ]
    );
}

#[test]
fn nested_lists_and_blobs_are_read_back() {
    let lists = vec![
        Value::List(vec![
            Value::List(vec![Value::Bytes(vec![1, 2]), Value::Null]),
            Value::Null,
        ]),
        Value::Null,
        Value::List(vec![]),
    ];
    let t = LogicalTypes::list(LogicalTypes::list(plain(LogicalTypeId::Blob)));
    assert_eq!(round_trip(t, lists.clone()), lists);
}

#[test]
fn many_rows_need_a_longer_mask() {
    let values: Vec<Value> = (0..130)
        .map(|i| {
            if i % 3 == 0 {
                Value::Null
            } else {
                Value::Int(i)
            }
        })
        .collect();
    assert_eq!(
        round_trip(LogicalTypes::bigint(), values.clone()),
        values
    );
}

#[test]
fn an_empty_chunk_is_read_back() {
    assert_eq!(
        round_trip(LogicalTypes::varchar(), vec![]),
        Vec::<Value>::new()
    );
}

#[test]
fn types_without_a_column_form_are_refused() {
    for id in [LogicalTypeId::Double, LogicalTypeId::Time, LogicalTypeId::Uuid] {
        let error = refused(plain(id), vec![]);
        assert_eq!(
            error,
            format!("unsupported quack type: logical type {}", id.code())
        );
    }
}

#[test]
fn values_conform_to_their_type() {
    let price = LogicalTypes::decimal(4, 2);
    let units = |value: i128| {
        Some(Value::Decimal(DecimalValue {
            value,
            width: 4,
            scale: 2,
        }))
    };
    assert_eq!(conform(&price, &Value::from("12.3")), units(1_230));
    assert_eq!(conform(&price, &Value::from("-.05")), units(-5));
    assert_eq!(conform(&price, &Value::from("99.99")), units(9_999));
    assert_eq!(conform(&price, &Value::from("100")), None);
    assert_eq!(conform(&price, &Value::from("1.234")), None);
    assert_eq!(conform(&price, &Value::from("one")), None);
    assert_eq!(conform(&price, &Value::Null), Some(Value::Null));
    assert_eq!(
        conform(
            &LogicalTypes::array(LogicalTypes::integer(), 2),
            &Value::List(vec![Value::Int(1)])
        ),
        None
    );
    let point = LogicalTypes::structure(vec![ChildType {
        name: "x".to_string(),
        logical_type: LogicalTypes::integer(),
    }]);
    let mut fields = StructValue::new();
    fields.insert("y".to_string(), Value::Int(1));
    assert_eq!(conform(&point, &Value::Struct(fields)), None);
}

#[test]
fn decimal_notation_is_read_back() {
    for (value, scale, text) in [
        (0i128, 0u8, "0"),
        (5, 2, "0.05"),
        (-12_345, 3, "-12.345"),
        (100, 2, "1.00"),
        (7, 0, "7"),
    ] {
        let decimal = DecimalValue {
            value,
            width: 38,
            scale,
        };
        assert_eq!(decimal_to_string(&decimal), text);
        assert_eq!(decimal_from_text(text, scale), Some(value));
    }
    assert_eq!(decimal_from_text("", 2), None);
    assert_eq!(decimal_from_text(".", 2), None);
    assert_eq!(decimal_from_text("1.2.3", 2), None);
    assert_eq!(
        decimal_from_text("170141183460469231731687303715884105728", 0),
        None
    );
}

#[test]
fn chunks_with_a_wrong_shape_are_refused() {
    let mut chunk = one_column(LogicalTypes::integer(), vec![Value::Int(1)]);
    chunk.row_count = 2;
    let mut writer = BinaryWriter::new();
    assert_eq!(
        encode_data_chunk(&mut writer, &chunk).unwrap_err().to_text(),
        "quack protocol error: column does not have one value for each row"
    );
    chunk.types.clear();
    assert_eq!(
        encode_data_chunk(&mut writer, &chunk).unwrap_err().to_text(),
        "quack protocol error: chunk does not have one column for each type"
    );
}

#[test]
fn a_heartbeat_has_exact_bytes() {
    let message = QuackMessage::HeartbeatRequest {
        header: header(MessageType::HeartbeatRequest).with_connection("c"),
    };
    let bytes = encode_message(&message).unwrap();
    assert_eq!(
        bytes,
        vec![100, 0, 11, 101, 0, 1, 99, 255, 255, 255, 255]
    );
    assert_eq!(decode_message(&bytes).unwrap(), message);
    let mut longer = bytes.clone();
    longer.push(0);
    assert_eq!(
        decode_message(&longer).unwrap_err().to_text(),
        "quack protocol error: 1 bytes are left after the end"
    );
    for end in 0..bytes.len() {
        assert!(decode_message(&bytes[..end]).is_err());
    }
}

#[test]
fn every_message_is_read_back() {
    let chunk = one_column(LogicalTypes::bigint(), vec![Value::Int(-1), Value::Null]);
    let messages = vec![
        QuackMessage::ConnectionResponse {
            header: header(MessageType::ConnectionResponse).with_connection("c"),
            server_duckdb_version: Some("v2".to_string()),
            server_platform: Some("p".to_string()),
            quack_version: Some(3),
            heartbeat_timeout_seconds: Some(30),
        },
        QuackMessage::PrepareResponse {
            header: header(MessageType::PrepareResponse),
            result_types: vec![LogicalTypes::bigint()],
            result_names: vec!["n".to_string()],
            needs_more_fetch: true,
            results: vec![chunk],
            result_uuid: HugeIntParts {
                upper: i64::MIN,
                lower: u64::MAX,
            },
        },
        QuackMessage::FetchResponse {
            header: header(MessageType::FetchResponse),
            results: vec![],
            total_batches: Some(2),
            batch_index: None,
        },
        QuackMessage::SuccessResponse {
            header: header(MessageType::SuccessResponse),
        },
        QuackMessage::ErrorResponse {
            header: header(MessageType::ErrorResponse).with_client_query_id(u64::MAX),
            message: "no such table".to_string(),
        },
        QuackMessage::Disconnect {
            header: header(MessageType::DisconnectMessage).with_connection("c"),
        },
    ];
    for message in messages {
        let bytes = encode_message(&message).unwrap();
        assert_eq!(decode_message(&bytes).unwrap(), message);
    }
}

#[test]
fn version_1_leaves_out_leases() {
    let message = QuackMessage::ConnectionResponse {
        header: header(MessageType::ConnectionResponse).with_connection("c"),
        server_duckdb_version: None,
        server_platform: None,
        quack_version: Some(1),
        heartbeat_timeout_seconds: Some(30),
    };
    let bytes = encode_message_for_version(&message, 1).unwrap();
    match decode_message_for_version(&bytes, 1).unwrap() {
        QuackMessage::ConnectionResponse {
            quack_version,
            heartbeat_timeout_seconds,
            ..
        } => {
            assert_eq!(quack_version, Some(1));
            assert_eq!(heartbeat_timeout_seconds, None);
        }
        other => panic!("unexpected message {other:?}"),
    }
}

#[test]
fn unknown_versions_and_mixed_kinds_are_refused() {
    let message = QuackMessage::SuccessResponse {
        header: header(MessageType::SuccessResponse),
    };
    assert_eq!(
        encode_message_for_version(&message, 2).unwrap_err().to_text(),
        "quack protocol error: unsupported Quack protocol version 2"
    );
    let mixed = QuackMessage::SuccessResponse {
        header: header(MessageType::ErrorResponse),
    };
    assert_eq!(
        encode_message(&mixed).unwrap_err().to_text(),
        "quack protocol error: message header states ErrorResponse for a body of SuccessResponse"
    );
    let heartbeat = QuackMessage::HeartbeatRequest {
        header: header(MessageType::HeartbeatRequest),
    };
    assert_eq!(
        encode_message_for_version(&heartbeat, 1).unwrap_err().to_text(),
        "quack protocol error: HeartbeatRequest is not part of Quack protocol version 1"
    );
}

#[test]
fn answers_are_judged_by_status_and_body() {
    assert_eq!(request_url("http://h:1"), "http://h:1/quack");
    for status in [200u16, 204, 299] {
        assert!(check_status(status, "").is_ok());
    }
    let error = check_status(500, "Internal Server Error").unwrap_err();
    assert_eq!(
        error.to_text(),
        "quack protocol error: Quack HTTP request failed with 500 Internal Server Error"
    );
    assert!(is_version_negotiation_error(&error));
    assert!(check_reply(204).is_ok());
    assert_eq!(
        check_reply(404).unwrap_err().to_text(),
        "quack protocol error: Quack HTTP request failed with 404 Not Found"
    );
    assert_eq!(
        check_reply(599).unwrap_err().to_text(),
        "quack protocol error: Quack HTTP request failed with 599 "
    );
    assert_eq!(
        check_reply(7).unwrap_err().to_text(),
        "quack protocol error: Quack HTTP request failed with 7 "
    );
    assert!(check_status(199, "").is_err());
    assert!(check_status(300, "").is_err());
    let failure = QuackMessage::ErrorResponse {
        header: header(MessageType::ErrorResponse),
        message: "boom".to_string(),
    };
    let body = encode_message_for_version(&failure, 3).unwrap();
    assert_eq!(
        read_answer(3, &body).unwrap_err().to_text(),
        "quack server error: boom"
    );
    let success = QuackMessage::SuccessResponse {
        header: header(MessageType::SuccessResponse),
    };
    let body = encode_message_for_version(&success, 1).unwrap();
    assert_eq!(read_answer(1, &body).unwrap(), success);
    assert!(read_answer(1, &[]).is_err());
}

#[test]
fn a_struct_has_every_name_once() {
    let mut point = StructValue::new();
    point.insert("x".to_string(), Value::Int(1));
    point.insert("y".to_string(), Value::Int(2));
    let before = point.clone();
    point.insert("x".to_string(), Value::from("a"));
    assert_eq!(point.len(), 2);
    assert_eq!(point.field(0).name, "x");
    assert_eq!(point.field(0).value, Value::from("a"));
    assert_eq!(point.field(1).name, "y");
    assert_eq!(point.get("x"), Some(&Value::from("a")));
    assert_eq!(point.get("y"), Some(&Value::Int(2)));
    assert_eq!(point.get("z"), None);
    assert_eq!(before.get("x"), Some(&Value::Int(1)));
    assert_ne!(before, point);
}

#[test]
fn a_struct_type_with_a_name_twice_is_refused() {
    let child = |name: &str| ChildType {
        name: name.to_string(),
        logical_type: LogicalTypes::integer(),
    };
    let twice = LogicalTypes::structure(vec![child("x"), child("x")]);
    let mut writer = BinaryWriter::new();
    let error = encode_logical_type(&mut writer, &twice).unwrap_err();
    assert!(matches!(error, QuackError::UnsupportedType(_)));

    let mut bytes = type_bytes(&LogicalTypes::structure(vec![child("x"), child("y")]));
    let at = bytes.iter().position(|b| *b == b'y').unwrap();
    bytes[at] = b'x';
    let error = decode_logical_type(&mut BinaryReader::new(&bytes)).unwrap_err();
    assert!(matches!(error, QuackError::UnsupportedType(_)));
    assert!(!error.is_connection_fatal());
}

#[test]
fn a_reply_that_is_cut_or_goes_on_retires_the_connection() {
    for version in [1, 3] {
        let message = QuackMessage::ErrorResponse {
            header: header(MessageType::ErrorResponse),
            message: "Table with name t does not exist!".to_string(),
        };
        let mut bytes = encode_message_for_version(&message, version).unwrap();
        for end in 0..bytes.len() {
            let error = decode_message_for_version(&bytes[..end], version).unwrap_err();
            assert!(error.is_connection_fatal(), "cut at {end}");
        }
        bytes.push(0);
        let error = decode_message_for_version(&bytes, version).unwrap_err();
        assert_eq!(
            error.to_text(),
            "quack protocol error: 1 bytes are left after the end"
        );
        assert!(error.is_connection_fatal());
    }
}

#[test]
fn a_reply_of_an_unknown_kind_retires_the_connection() {
    let message = QuackMessage::SuccessResponse {
        header: header(MessageType::SuccessResponse),
    };
    let mut bytes = encode_message_for_version(&message, 3).unwrap();
    bytes[2] = 99;
    let error = decode_message_for_version(&bytes, 3).unwrap_err();
    assert_eq!(
        error.to_text(),
        "quack protocol error: unknown message type 99"
    );
    assert!(error.is_connection_fatal());
    bytes[2] = 7;
    let error = decode_message_for_version(&bytes, 3).unwrap_err();
    assert_eq!(
        error.to_text(),
        "quack protocol error: SendDataRequest is not part of Quack protocol version 3"
    );
    assert!(error.is_connection_fatal());
}
