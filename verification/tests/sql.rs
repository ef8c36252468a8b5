use indexmap::IndexMap;

use quack_protocol::calendar::calendar_date;
use quack_protocol::calendar::date_from_iso_date;
use quack_protocol::calendar::day_number;
use quack_protocol::calendar::iso_date;
use quack_protocol::calendar::iso_timestamp;
use quack_protocol::calendar::CalendarDate;
use quack_protocol::rows::Row;
use quack_protocol::sql::format_sql;
use quack_protocol::sql::split_statement;
use quack_protocol::sql::sql_literal;
use quack_protocol::sql::Piece;
use quack_protocol::sql::SqlParameter;
use quack_protocol::sql::SqlParameters;
use quack_protocol::statements::affected_rows;
use quack_protocol::statements::reports_count;
use quack_protocol::value::interval_value;
use quack_protocol::value::timestamp_value;
use quack_protocol::value::DateValue;
use quack_protocol::value::DecimalValue;
use quack_protocol::value::StructValue;
use quack_protocol::value::TimestampUnit;
use quack_protocol::value::TimestampValue;
use quack_protocol::value::Value;

#[test]
fn formats_sql_literals_and_placeholders() {
    assert_eq!(
        sql_literal(&SqlParameter::from("can't")).unwrap(),
        "'can''t'"
    );
    assert_eq!(sql_literal(&SqlParameter::from(true)).unwrap(), "TRUE");
    assert_eq!(
        sql_literal(&SqlParameter::from(Value::HugeInt(42))).unwrap(),
        "42"
    );
    assert_eq!(
        sql_literal(&SqlParameter::List(vec![
            SqlParameter::from(1),
            SqlParameter::from("two"),
            SqlParameter::from(Value::Null),
        ]))
        .unwrap(),
        "[1, 'two', NULL]"
    );
    assert_eq!(
        sql_literal(&SqlParameter::from(
            date_from_iso_date("2020-01-02").unwrap()
        ))
        .unwrap(),
        "DATE '2020-01-02'"
    );
    assert_eq!(
        sql_literal(&SqlParameter::from(timestamp_value(
            1,
            TimestampUnit::Seconds,
            false,
        )))
        .unwrap(),
        "TIMESTAMP '1970-01-01 00:00:01.000'"
    );
    assert_eq!(
        sql_literal(&SqlParameter::from(interval_value(1, 2, 3))).unwrap(),
        "INTERVAL '1 months 2 days 3 microseconds'"
    );

    assert_eq!(
        format_sql(
            "SELECT '?' AS s, ? AS v -- ?\n",
            Some(&SqlParameters::Positional(vec![SqlParameter::from(42)])),
        )
        .unwrap(),
        "SELECT '?' AS s, 42 AS v -- ?\n"
    );

    let mut named = IndexMap::new();
    named.insert("id".to_string(), SqlParameter::from(7));
    named.insert("label".to_string(), SqlParameter::from("seven"));
    assert_eq!(
        format_sql(
            "SELECT :id::INTEGER AS id, :label AS label",
            Some(&SqlParameters::Named(named)),
        )
        .unwrap(),
        "SELECT 7::INTEGER AS id, 'seven' AS label"
    );

    assert!(
        format_sql(
            "SELECT ?, ?",
            Some(&SqlParameters::Positional(vec![SqlParameter::from(1)])),
        )
        .is_err()
    );
}

fn literal(value: Value) -> String {
    sql_literal(&value).unwrap()
}

fn positional(sql: &str, values: Vec<Value>) -> Result<String, String> {
    format_sql(sql, Some(&SqlParameters::Positional(values))).map_err(|error| error.to_text())
}

fn texts(parts: Vec<Piece>) -> Vec<String> {
    parts
        .into_iter()
        .map(|part| match part {
            Piece::Text(text) => text,
            Piece::Slot(name) => format!("<{name}>"),
        })
        .collect()
}

#[test]
fn every_kind_of_value_has_a_literal() {
    assert_eq!(literal(Value::Null), "NULL");
    assert_eq!(literal(Value::Bool(false)), "FALSE");
    assert_eq!(literal(Value::Int(i64::MIN)), "-9223372036854775808");
    assert_eq!(
        literal(Value::HugeInt(i128::MIN)),
        "-170141183460469231731687303715884105728"
    );
    assert_eq!(
        literal(Value::Decimal(DecimalValue {
            value: -5,
            width: 10,
            scale: 2,
        })),
        "-0.05"
    );
    assert_eq!(literal(Value::String(String::new())), "''");
    assert_eq!(literal(Value::String("''".to_string())), "''''''");
    assert_eq!(
        literal(Value::Bytes(vec![0, 10, 171, 255])),
        "'\\x00\\x0A\\xAB\\xFF'::BLOB"
    );
    assert_eq!(literal(Value::List(vec![])), "[]");
    let mut fields = StructValue::new();
    fields.insert("it's".to_string(), Value::Int(1));
    fields.insert("b".to_string(), Value::List(vec![Value::Null]));
    assert_eq!(literal(Value::Struct(fields)), "{'it''s': 1, 'b': [NULL]}");
    assert_eq!(literal(Value::Struct(StructValue::new())), "{}");
    assert_eq!(
        literal(timestamp_value(-1, TimestampUnit::Micros, true)),
        "TIMESTAMPTZ '1969-12-31 23:59:59.999999+00'"
    );
    assert_eq!(
        literal(interval_value(-1, 0, i64::MIN)),
        "INTERVAL '-1 months 0 days -9223372036854775808 microseconds'"
    );
}

#[test]
fn values_outside_of_the_calendar_have_no_literal() {
    let late = Value::Date(DateValue { days: 2_932_897 });
    let error = sql_literal(&Value::List(vec![Value::Int(1), late])).unwrap_err();
    assert_eq!(
        error.to_text(),
        "unsupported quack type: no SQL literal outside of the years 1 to 9999"
    );
    let mut fields = StructValue::new();
    fields.insert(
        "t".to_string(),
        timestamp_value(i64::MIN, TimestampUnit::Seconds, false),
    );
    assert!(sql_literal(&Value::Struct(fields)).is_err());
}

#[test]
fn dates_follow_the_gregorian_calendar() {
    let days = |text: &str| match date_from_iso_date(text) {
        Ok(Value::Date(date)) => date.days,
        other => panic!("unexpected date {other:?}"),
    };
    assert_eq!(days("1970-01-01"), 0);
    assert_eq!(days("1969-12-31"), -1);
    assert_eq!(days("2000-02-29"), 11_016);
    assert_eq!(days("2000-03-01"), 11_017);
    assert_eq!(days("1900-03-01") - days("1900-02-28"), 1);
    assert_eq!(days("0001-01-01"), -719_162);
    assert_eq!(days("9999-12-31"), 2_932_896);
    for text in [
        "1970-1-1",
        "1970-00-01",
        "1970-13-01",
        "1970-02-29",
        "1900-02-29",
        "0000-01-01",
        "1970/01/01",
        "1970-01-32",
        "19a0-01-01",
        "1970-01-01 ",
        "",
    ] {
        assert_eq!(
            date_from_iso_date(text).unwrap_err().to_text(),
            format!("quack protocol error: invalid ISO date {text}")
        );
    }
}

#[test]
fn the_notation_of_a_day_is_read_back() {
    for days in [-719_162, -719_161, -1, 0, 1, 58, 59, 365, 11_016, 20_000, 2_932_896] {
        let text = iso_date(DateValue { days }).unwrap();
        assert_eq!(
            date_from_iso_date(&text).unwrap(),
            Value::Date(DateValue { days })
        );
        let date = calendar_date(days as i64).unwrap();
        assert_eq!(day_number(date), days as i64);
    }
    assert_eq!(iso_date(DateValue { days: -719_163 }), None);
    assert_eq!(calendar_date(i64::MAX), None);
    assert_eq!(
        calendar_date(11_016),
        Some(CalendarDate {
            year: 2000,
            month: 2,
            day: 29
        })
    );
}

#[test]
fn timestamps_show_the_digits_of_their_unit() {
    let text = |value: i64, unit: TimestampUnit| {
        iso_timestamp(TimestampValue {
            value,
            unit,
            with_time_zone: false,
        })
    };
    assert_eq!(
        text(-1, TimestampUnit::Seconds).as_deref(),
        Some("1969-12-31 23:59:59.000")
    );
    assert_eq!(
        text(86_399_007, TimestampUnit::Millis).as_deref(),
        Some("1970-01-01 23:59:59.007")
    );
    assert_eq!(
        text(1_234_567, TimestampUnit::Micros).as_deref(),
        Some("1970-01-01 00:00:01.234567")
    );
    assert_eq!(
        text(-1, TimestampUnit::Nanos).as_deref(),
        Some("1969-12-31 23:59:59.999999999")
    );
    assert_eq!(text(i64::MAX, TimestampUnit::Seconds), None);
    assert_eq!(text(i64::MIN, TimestampUnit::Millis), None);
    assert_eq!(
        text(-62_135_596_800, TimestampUnit::Seconds).as_deref(),
        Some("0001-01-01 00:00:00.000")
    );
    assert_eq!(text(-62_135_596_801, TimestampUnit::Seconds), None);
}

#[test]
fn each_mark_takes_one_value() {
    let one = || Value::Int(1);
    assert_eq!(
        positional("SELECT ?, ?", vec![one(), Value::from("?")]).unwrap(),
        "SELECT 1, '?'"
    );
    assert_eq!(
        positional("SELECT ?, ?", vec![one()]).unwrap_err(),
        "quack protocol error: not enough SQL parameters"
    );
    assert_eq!(
        positional("SELECT ?", vec![one(), one()]).unwrap_err(),
        "quack protocol error: too many SQL parameters"
    );
    assert_eq!(positional("SELECT 1", vec![]).unwrap(), "SELECT 1");
    assert!(positional("SELECT 1", vec![one()]).is_err());
    assert_eq!(positional("SELECT :a", vec![]).unwrap(), "SELECT :a");
}

#[test]
fn names_take_their_values() {
    let mut row = Row::new();
    row.insert("a_1".to_string(), Value::Int(5));
    row.insert("unused".to_string(), Value::Null);
    let named = SqlParameters::Named(row);
    assert_eq!(
        format_sql("SELECT :a_1, x::INT, ?, [1:2], ':a_1' -- :a_1", Some(&named)).unwrap(),
        "SELECT 5, x::INT, ?, [1:2], ':a_1' -- :a_1"
    );
    assert_eq!(
        format_sql("SELECT :b", Some(&named)).unwrap_err().to_text(),
        "quack protocol error: missing SQL parameter b"
    );
    assert_eq!(
        format_sql("SELECT 1", Some(&named)).unwrap(),
        "SELECT 1"
    );
}

#[test]
fn without_parameters_a_statement_stays() {
    assert_eq!(format_sql("SELECT ?, :a", None).unwrap(), "SELECT ?, :a");
}

#[test]
fn quotes_and_comments_hold_no_placeholders() {
    let sql = "a'?''?' \"?\" /* ? /* ? */ ? */ ? -- ?";
    assert_eq!(
        positional(sql, vec![Value::Bool(true)]).unwrap(),
        "a'?''?' \"?\" /* ? /* ? */ ? */ TRUE -- ?"
    );
    assert_eq!(positional("'?", vec![]).unwrap(), "'?");
    assert_eq!(positional("/* ?", vec![]).unwrap(), "/* ?");
    assert_eq!(positional("- ?", vec![Value::Null]).unwrap(), "- NULL");
}

#[test]
fn dollar_quoted_text_holds_no_placeholders() {
    assert_eq!(
        positional("SELECT $$?'$$, $a1$ ? $$ ? $a1$, ?", vec![Value::Int(1)]).unwrap(),
        "SELECT $$?'$$, $a1$ ? $$ ? $a1$, 1"
    );
    assert_eq!(positional("$$ ?", vec![]).unwrap(), "$$ ?");
    assert_eq!(
        positional("a$$ ?, $1$ ?", vec![Value::Int(1), Value::Int(2)]).unwrap(),
        "a$$ 1, $1$ 2"
    );
    assert_eq!(
        texts(split_statement("$t$;?$t$?", false)),
        vec!["$t$;?$t$", "<>"]
    );
}

#[test]
fn escape_strings_hold_no_placeholders() {
    assert_eq!(
        positional(r"SELECT E'\'?', e'?''?\\', ?", vec![Value::Int(1)]).unwrap(),
        r"SELECT E'\'?', e'?''?\\', 1"
    );
    assert_eq!(
        positional(r"'\', ?, nameE'\', ?", vec![Value::Int(1), Value::Int(2)]).unwrap(),
        r"'\', 1, nameE'\', 2"
    );
    assert_eq!(positional(r"E'?\", vec![]).unwrap(), r"E'?\");
}

#[test]
fn a_comment_ends_with_its_line() {
    assert_eq!(
        positional("-- ?\r? -- ?\n?", vec![Value::Int(1), Value::Int(2)]).unwrap(),
        "-- ?\r1 -- ?\n2"
    );
}

#[test]
fn the_pieces_make_up_the_statement() {
    assert_eq!(
        texts(split_statement("a'?'?", false)),
        vec!["a", "'?'", "<>"]
    );
    assert_eq!(
        texts(split_statement(":x::y:", true)),
        vec!["<x>", "::", "y", ":"]
    );
}

#[test]
fn a_text_literal_is_one_passage() {
    for text in ["", "'", "''", "a'b", "'; DROP TABLE t; --", "?", ":x"] {
        let literal = sql_literal(&Value::from(text)).unwrap();
        assert_eq!(texts(split_statement(&literal, false)), vec![literal.clone()]);
        assert_eq!(texts(split_statement(&literal, true)), vec![literal]);
    }
}

fn count_row(value: Value) -> Vec<Row> {
    let mut row = Row::new();
    row.insert("Count".to_string(), value);
    vec![row]
}

#[test]
fn changes_of_rows_report_a_count() {
    for sql in [
        "INSERT INTO t VALUES (1)",
        "  update t SET a = ';';  ",
        "-- note\nDelete FROM t WHERE b = 'returning'",
        "MERGE INTO t USING s ON true WHEN MATCHED THEN DELETE;",
        "WITH s AS (SELECT 1), u(x) AS (SELECT 2) INSERT INTO t SELECT * FROM s",
        "INSERT INTO t VALUES ($$;$$)",
        "INSERT INTO t VALUES ($q$; returning $$ $q$)",
        r"INSERT INTO t VALUES (E'\'; returning')",
    ] {
        assert!(reports_count(sql), "{sql}");
        assert_eq!(affected_rows(sql, &count_row(Value::Int(3))), Some(3));
    }
}

#[test]
fn other_statements_report_none() {
    for sql in [
        "",
        "CREATE TABLE t (i INTEGER)",
        "SELECT 1",
        "INSERT INTO t VALUES (1) RETURNING i",
        "INSERT INTO t VALUES (1); INSERT INTO t VALUES (2)",
        "WITH s AS (INSERT INTO t VALUES (1)) SELECT * FROM s",
        "'insert'",
        "inserted",
        "insert$",
        "$$insert$$",
        "INSERT INTO t VALUES ($$;$$); DELETE FROM t",
    ] {
        assert!(!reports_count(sql), "{sql}");
        assert_eq!(affected_rows(sql, &count_row(Value::Int(3))), None);
    }
}

#[test]
fn only_a_single_number_is_a_count() {
    let sql = "DELETE FROM t";
    let largest = Value::HugeInt(u64::MAX as i128);
    assert_eq!(affected_rows(sql, &count_row(largest)), Some(u64::MAX));
    assert_eq!(affected_rows(sql, &count_row(Value::Int(-1))), None);
    assert_eq!(affected_rows(sql, &count_row(Value::HugeInt(-1))), None);
    assert_eq!(affected_rows(sql, &count_row(Value::Null)), None);
    assert_eq!(affected_rows(sql, &vec![]), None);
    assert_eq!(affected_rows(sql, &vec![Row::new()]), None);
    let mut two = count_row(Value::Int(1));
    two.extend(count_row(Value::Int(1)));
    assert_eq!(affected_rows(sql, &two), None);
}
