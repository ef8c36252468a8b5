use quack_protocol::builders;
use quack_protocol::builders::append_batches;
use quack_protocol::builders::data_chunk;
use quack_protocol::builders::data_chunk_from_rows;
use quack_protocol::errors::QuackError;
use quack_protocol::rows::first_column;
use quack_protocol::rows::first_row;
use quack_protocol::rows::one_row;
use quack_protocol::rows::row_outcomes;
use quack_protocol::rows::rows_from_chunk;
use quack_protocol::rows::rows_from_chunk_with_names;
use quack_protocol::rows::Row;
use quack_protocol::types::ChildType;
use quack_protocol::types::ColumnDefinition;
use quack_protocol::types::LogicalType;
use quack_protocol::types::LogicalTypeId;
use quack_protocol::types::LogicalTypes;
use quack_protocol::value::timestamp_value;
use quack_protocol::value::DataChunk;
use quack_protocol::value::DateValue;
use quack_protocol::value::DecimalValue;
use quack_protocol::value::StructValue;
use quack_protocol::value::TimestampUnit;
use quack_protocol::value::Value;

fn row(entries: Vec<(&str, Value)>) -> Row {
    let mut row = Row::new();
    for (key, value) in entries {
        row.insert(key.to_string(), value);
    }
    row
}

fn definition(name: &str, logical_type: LogicalType) -> ColumnDefinition {
    ColumnDefinition {
        name: name.to_string(),
        logical_type,
    }
}

fn two_columns() -> DataChunk {
    data_chunk(vec![
        builders::column(
            LogicalTypes::integer(),
            vec![Value::Int(1), Value::Int(2)],
            Some("a".to_string()),
        ),
        builders::column(
            LogicalTypes::varchar(),
            vec![Value::from("x"), Value::Null],
            Some("b".to_string()),
        ),
    ])
    .unwrap()
}

#[test]
fn columns_of_a_chunk_have_one_length() {
    let error = data_chunk(vec![
        builders::column(LogicalTypes::integer(), vec![Value::Int(1)], None),
        builders::column(LogicalTypes::integer(), vec![], None),
    ])
    .unwrap_err();
    assert_eq!(
        error.to_text(),
        "quack protocol error: columns do not have the same number of values"
    );
    let empty = data_chunk(vec![]).unwrap();
    assert_eq!(empty.row_count, 0);
}

#[test]
fn the_last_of_columns_with_one_name_stays() {
    let names = vec!["n".to_string(), "n".to_string()];
    let rows = rows_from_chunk_with_names(&two_columns(), &names).unwrap();
    assert_eq!(rows[0], row(vec![("n", Value::from("x"))]));
}

#[test]
fn rows_need_a_name_for_each_column() {
    let names = vec!["n".to_string()];
    assert_eq!(
        rows_from_chunk_with_names(&two_columns(), &names)
            .unwrap_err()
            .to_text(),
        "quack protocol error: expected 2 column names, got 1"
    );
    let mut nameless = two_columns();
    nameless.column_names = None;
    assert_eq!(
        rows_from_chunk(&nameless).unwrap_err().to_text(),
        "quack protocol error: chunk does not have column names"
    );
    let mut short = two_columns();
    short.columns[1].pop();
    assert_eq!(
        rows_from_chunk(&short).unwrap_err().to_text(),
        "quack protocol error: column does not have the expected number of items"
    );
}

#[test]
fn rows_keep_the_order_of_their_columns() {
    let rows = rows_from_chunk(&two_columns()).unwrap();
    let keys: Vec<&String> = rows[1].keys().collect();
    assert_eq!(keys, vec!["a", "b"]);
    assert_eq!(
        rows,
        vec![
            row(vec![("a", Value::Int(1)), ("b", Value::from("x"))]),
            row(vec![("a", Value::Int(2)), ("b", Value::Null)]),
        ]
    );
}

#[test]
fn an_arriving_chunk_gives_its_rows_or_one_error() {
    let names = vec!["a".to_string(), "b".to_string()];
    let rows: Vec<Row> = row_outcomes(Ok(two_columns()), &names)
        .into_iter()
        .map(|row| row.unwrap())
        .collect();
    assert_eq!(rows, rows_from_chunk(&two_columns()).unwrap());
    let texts = |rows: Vec<Result<Row, QuackError>>| -> Vec<String> {
        rows.into_iter()
            .map(|row| row.unwrap_err().to_text())
            .collect()
    };
    assert_eq!(
        texts(row_outcomes(Err(QuackError::server("gone")), &names)),
        vec!["quack server error: gone"]
    );
    assert_eq!(
        texts(row_outcomes(Ok(two_columns()), &[])),
        vec!["quack protocol error: expected 2 column names, got 0"]
    );
}

#[test]
fn missing_entries_are_null() {
    let rows = vec![row(vec![("a", Value::Int(1))]), row(vec![])];
    let chunk = data_chunk_from_rows(
        &rows,
        Some(vec![
            definition("a", LogicalTypes::integer()),
            definition("b", LogicalTypes::varchar()),
        ]),
    )
    .unwrap();
    assert_eq!(chunk.row_count, 2);
    assert_eq!(
        chunk.columns,
        vec![
            vec![Value::Int(1), Value::Null],
            vec![Value::Null, Value::Null]
        ]
    );
}

#[test]
fn column_types_are_told_from_the_values() {
    let mut point = StructValue::new();
    point.insert("x".to_string(), Value::Int(1));
    let rows = vec![
        row(vec![
            ("flag", Value::Null),
            ("n", Value::Int(1)),
            ("huge", Value::HugeInt(2)),
            (
                "price",
                Value::Decimal(DecimalValue {
                    value: 1,
                    width: 9,
                    scale: 3,
                }),
            ),
            ("bytes", Value::Bytes(vec![1])),
            ("list", Value::List(vec![Value::Null, Value::from("a")])),
            ("point", Value::Struct(point)),
            ("day", Value::Date(DateValue { days: 1 })),
            ("at", timestamp_value(1, TimestampUnit::Millis, false)),
        ]),
        row(vec![("flag", Value::Bool(true)), ("late", Value::from("z"))]),
    ];
    let chunk = data_chunk_from_rows(&rows, None).unwrap();
    assert_eq!(
        chunk.column_names.unwrap(),
        vec!["flag", "n", "huge", "price", "bytes", "list", "point", "day", "at", "late"]
    );
    assert_eq!(
        chunk.types,
        vec![
            LogicalTypes::boolean(),
            LogicalTypes::bigint(),
            LogicalType::plain(LogicalTypeId::HugeInt),
            LogicalTypes::decimal(9, 3),
            LogicalType::plain(LogicalTypeId::Blob),
            LogicalTypes::list(LogicalTypes::varchar()),
            LogicalTypes::structure(vec![ChildType {
                name: "x".to_string(),
                logical_type: LogicalTypes::bigint(),
            }]),
            LogicalType::plain(LogicalTypeId::Date),
            LogicalType::plain(LogicalTypeId::TimestampMs),
            LogicalTypes::varchar(),
        ]
    );
}

#[test]
fn a_column_without_values_has_no_type() {
    let rows = vec![row(vec![("a", Value::Null)])];
    assert_eq!(
        data_chunk_from_rows(&rows, None).unwrap_err().to_text(),
        "quack protocol error: no type can be told for column a"
    );
}

#[test]
fn rows_come_back_from_their_chunk() {
    let rows = vec![
        row(vec![("a", Value::Int(1)), ("b", Value::from("x"))]),
        row(vec![("a", Value::Int(2)), ("b", Value::from("y"))]),
    ];
    let chunk = data_chunk_from_rows(&rows, None).unwrap();
    assert_eq!(rows_from_chunk(&chunk).unwrap(), rows);
}

#[test]
fn the_first_row_is_the_first() {
    let rows = rows_from_chunk(&two_columns()).unwrap();
    assert_eq!(
        first_row(rows),
        Some(row(vec![("a", Value::Int(1)), ("b", Value::from("x"))]))
    );
    assert_eq!(first_row(vec![]), None);
}

#[test]
fn one_row_is_exactly_one() {
    let rows = rows_from_chunk(&two_columns()).unwrap();
    assert_eq!(
        one_row(rows).unwrap_err().to_text(),
        "quack protocol error: expected exactly one row, got 2"
    );
    assert_eq!(
        one_row(vec![]).unwrap_err().to_text(),
        "quack protocol error: expected exactly one row, got 0"
    );
    let single = row(vec![("a", Value::Int(1))]);
    assert_eq!(one_row(vec![single.clone()]).unwrap(), single);
}

#[test]
fn the_first_column_gives_its_values() {
    let columns = vec![
        definition("a", LogicalTypes::integer()),
        definition("b", LogicalTypes::varchar()),
    ];
    let mut rows = rows_from_chunk(&two_columns()).unwrap();
    rows.push(row(vec![("b", Value::from("x"))]));
    assert_eq!(
        first_column(&columns, rows),
        vec![Value::Int(1), Value::Int(2), Value::Null]
    );
    assert_eq!(first_column(&vec![], vec![row(vec![])]), vec![]);
}

#[test]
fn batches_hold_all_rows_once() {
    assert_eq!(
        append_batches(7, Some(3)).unwrap(),
        vec![(0, 3), (3, 6), (6, 7)]
    );
    assert_eq!(append_batches(7, None).unwrap(), vec![(0, 7)]);
    assert_eq!(append_batches(6, Some(3)).unwrap(), vec![(0, 3), (3, 6)]);
    assert_eq!(append_batches(2, Some(100)).unwrap(), vec![(0, 2)]);
    assert_eq!(append_batches(0, Some(0)).unwrap(), vec![(0, 0)]);
    assert_eq!(
        append_batches(1, Some(0)).unwrap_err().to_text(),
        "quack protocol error: append_rows batch_size must be at least 1"
    );
}
