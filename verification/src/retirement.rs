//! Which failures retire a connection: those of the wire do, those of arguments
//! do not.

use vstd::prelude::*;

use crate::builders::chunk_of_columns;
use crate::builders::suggested_columns;
use crate::builders::ColumnView;
use crate::calendar::no_date;
use crate::chunk::chunk_form;
use crate::chunk::columns_form;
use crate::client::QuackClientOptions;
use crate::codec::in_version;
use crate::codec::message_form;
use crate::codec::read_message;
use crate::codec::types_checked;
use crate::constants::QUACK_V1;
use crate::constants::QUACK_V3;
use crate::errors::raised_off_the_wire;
use crate::errors::QuackErrorView;
use crate::fetch::prepared_of;
use crate::fetch::FetchStateView;
use crate::framing::lemma_unreadable;
use crate::handshake::handshake_for;
use crate::handshake::heartbeat_timeout_error;
use crate::handshake::HandshakeStepView;
use crate::handshake::HandshakeView;
use crate::messages::QuackMessageView;
use crate::payload::results_form;
use crate::pool::pool_is_closed;
use crate::rows::key_index;
use crate::session::not_connected;
use crate::session::success_of;
use crate::sql::argument;
use crate::sql::fields_listed;
use crate::sql::filled;
use crate::sql::formatted;
use crate::sql::listed;
use crate::sql::literal;
use crate::sql::no_notation;
use crate::sql::pieces;
use crate::sql::slot_count;
use crate::sql::PieceView;
use crate::sql::SqlParametersView;
use crate::text::begins_with;
use crate::text::decimal;
use crate::text::trimmed;
use crate::transport::http_failure;
use crate::types::LogicalTypeView;
use crate::uri::host_port_of;
use crate::uri::server_of;
use crate::uri::without_quack_scheme;
use crate::value::DataChunkView;
use crate::value::FieldView;
use crate::value::ValueView;

verus! {

proof fn lemma_begins(message: Seq<char>, prefix: Seq<char>, rest: Seq<char>)
    requires
        message == prefix + rest,
    ensures
        begins_with(message, prefix),
{
    assert(message.subrange(0, prefix.len() as int) =~= prefix);
}

proof fn lemma_address_error(value: Seq<char>)
    ensures
        host_port_of(value) matches Err(error) ==> !error.is_connection_fatal(),
{
    if let Err(error) = host_port_of(value) {
        let message = error->Protocol_0;
        reveal_strlit("invalid Quack URI ");
        reveal_strlit("invalid Quack URI port ");
        reveal_strlit("invalid Quack URI host ");
        let prefix = "invalid Quack URI "@;
        if message == "invalid IPv6 Quack URI host "@ + value {
            lemma_begins(message, "invalid IPv6 Quack URI host "@, value);
        } else if message == "IPv6 Quack URI hosts must be enclosed in []: "@ + value {
            lemma_begins(message, "IPv6 Quack URI hosts must be enclosed in []: "@, value);
        } else {
            assert(message.subrange(0, prefix.len() as int) =~= prefix);
        }
    }
}

/// A URI that cannot be used is refused before anything is sent, and retires no
/// connection.
pub proof fn law_unusable_uri_is_not_fatal(input: Seq<char>, ssl_override: Option<bool>)
    ensures
        server_of(input, ssl_override) matches Err(error) ==> !error.is_connection_fatal(),
{
    let uri = trimmed(input);
    let rest = without_quack_scheme(uri);
    lemma_address_error(rest);
    lemma_begins("invalid Quack URI "@ + input, "invalid Quack URI "@, input);
    reveal_strlit("invalid Quack URI ");
    reveal_strlit("invalid Quack URI host ");
    let hostless = "invalid Quack URI host "@ + input;
    let prefix = "invalid Quack URI "@;
    assert(hostless.subrange(0, prefix.len() as int) =~= prefix);
}

/// Options that ask for no version that is known are refused before anything is
/// sent, and retire no connection.
pub proof fn law_unusable_options_are_not_fatal(options: QuackClientOptions)
    ensures
        handshake_for(options) matches Err(error) ==> error == heartbeat_timeout_error()
            || !error.is_connection_fatal(),
{
    if let Err(error) = handshake_for(options) {
        if error != heartbeat_timeout_error() {
            let message = error->Protocol_0;
            let low = "minimum Quack protocol version "@;
            let known = "supported Quack protocol versions are "@;
            assert(message.len() >= low.len() && message.subrange(0, low.len() as int) =~= low
                || message.len() >= known.len() && message.subrange(0, known.len() as int)
                =~= known);
        }
    }
}

proof fn lemma_literal_error(v: ValueView)
    ensures
        literal(v) matches Err(error) ==> error == no_notation(),
    decreases v, 0nat,
{
    match v {
        ValueView::List(items) => {
            lemma_listed_error(items, items.len());
        },
        ValueView::Struct(fields) => {
            lemma_fields_error(fields, fields.len());
        },
        _ => {},
    }
}

proof fn lemma_listed_error(items: Seq<ValueView>, count: nat)
    ensures
        listed(items, count) matches Err(error) ==> error == no_notation(),
    decreases items, count,
{
    if 0 < count <= items.len() {
        lemma_listed_error(items, (count - 1) as nat);
        lemma_literal_error(items[count - 1]);
    }
}

proof fn lemma_fields_error(fields: Seq<FieldView>, count: nat)
    ensures
        fields_listed(fields, count) matches Err(error) ==> error == no_notation(),
    decreases fields, count,
{
    if 0 < count <= fields.len() {
        lemma_fields_error(fields, (count - 1) as nat);
        lemma_literal_error(fields[count - 1].value);
    }
}

proof fn lemma_argument_error(parameters: SqlParametersView, name: Seq<char>, before: nat)
    ensures
        argument(parameters, name, before) matches Err(error) ==> !error.is_connection_fatal(),
{
    match parameters {
        SqlParametersView::Positional(values) => {
            if before < values.len() {
                lemma_literal_error(values[before as int]);
            }
        },
        SqlParametersView::Named(entries) => {
            if let Some(i) = key_index(entries, name) {
                lemma_literal_error(entries[i].1);
            }
            lemma_begins("missing SQL parameter "@ + name, "missing SQL parameter "@, name);
        },
    }
}

proof fn lemma_filled_error(parts: Seq<PieceView>, parameters: SqlParametersView)
    ensures
        filled(parts, parameters) matches Err(error) ==> !error.is_connection_fatal(),
    decreases parts.len(),
{
    if parts.len() > 0 {
        lemma_filled_error(parts.drop_last(), parameters);
        if let PieceView::Slot(name) = parts.last() {
            lemma_argument_error(parameters, name, slot_count(parts.drop_last()));
        }
    }
}

/// Parameters that do not fit a statement are refused before anything is sent,
/// and retire no connection.
pub proof fn law_unfit_parameters_are_not_fatal(
    sql: Seq<char>,
    parameters: Option<SqlParametersView>,
)
    ensures
        formatted(sql, parameters) matches Err(error) ==> !error.is_connection_fatal(),
{
    if let Some(parameters) = parameters {
        lemma_filled_error(pieces(sql, 0, true), parameters);
        lemma_filled_error(pieces(sql, 0, false), parameters);
    }
}

proof fn lemma_columns_error(
    types: Seq<LogicalTypeView>,
    columns: Seq<Seq<ValueView>>,
    rows: nat,
    from: nat,
)
    ensures
        columns_form(types, columns, rows, from) matches Err(error) ==> !error.is_connection_fatal(),
    decreases types.len() - from,
{
    if from < types.len() {
        lemma_columns_error(types, columns, rows, from + 1);
        let code = decimal(types[from as int].id.spec_code() as nat);
        let prefix = "value does not fit logical type "@;
        lemma_begins(prefix + code, prefix, code);
    }
}

proof fn lemma_suggested_error(
    rows: Seq<Seq<(Seq<char>, ValueView)>>,
    names: Seq<Seq<char>>,
    from: nat,
)
    ensures
        suggested_columns(rows, names, from) matches Err(error) ==> !error.is_connection_fatal(),
    decreases names.len() - from,
{
    if from < names.len() {
        lemma_suggested_error(rows, names, from + 1);
        let prefix = "no type can be told for column "@;
        lemma_begins(prefix + names[from as int], prefix, names[from as int]);
    }
}

/// Columns, rows and chunks that cannot be sent are refused before anything is,
/// and retire no connection.
pub proof fn law_unfit_data_is_not_fatal(
    columns: Seq<ColumnView>,
    rows: Seq<Seq<(Seq<char>, ValueView)>>,
    names: Seq<Seq<char>>,
    chunk: DataChunkView,
)
    ensures
        chunk_of_columns(columns) matches Err(error) ==> !error.is_connection_fatal(),
        suggested_columns(rows, names, 0) matches Err(error) ==> !error.is_connection_fatal(),
        chunk_form(chunk) matches Err(error) ==> !error.is_connection_fatal(),
{
    lemma_suggested_error(rows, names, 0);
    lemma_columns_error(chunk.types, chunk.columns, chunk.row_count as nat, 0);
}

proof fn lemma_types_error(types: Seq<LogicalTypeView>, from: nat)
    ensures
        types_checked(types, from) matches Err(error) ==> !error.is_connection_fatal(),
    decreases types.len() - from,
{
    if from < types.len() {
        lemma_types_error(types, from + 1);
    }
}

proof fn lemma_results_error(chunks: Seq<DataChunkView>, from: nat)
    ensures
        results_form(chunks, from) matches Err(error) ==> !error.is_connection_fatal(),
    decreases chunks.len() - from,
{
    if from < chunks.len() {
        lemma_results_error(chunks, from + 1);
        law_unfit_data_is_not_fatal(seq![], seq![], seq![], chunks[from as int]);
    }
}

/// A message that cannot be written in a version that has its kind is never
/// sent, and retires no connection.
pub proof fn law_unfit_message_is_not_fatal(version: u64, m: QuackMessageView)
    requires
        in_version(m.kind(), version),
    ensures
        message_form(version, m) matches Err(error) ==> !error.is_connection_fatal(),
{
    let unknown = "unsupported Quack protocol version "@;
    let number = decimal(version as nat);
    lemma_begins(unknown + number, unknown, number);
    let stated = "message header states "@;
    let message = stated + m.header().message_type.spec_name() + " for a body of "@
        + m.kind().spec_name();
    assert(message.subrange(0, stated.len() as int) =~= stated);
    match m {
        QuackMessageView::PrepareResponse { result_types, results, .. } => {
            lemma_types_error(result_types, 0);
            lemma_results_error(results, 0);
        },
        QuackMessageView::FetchResponse { results, .. } => {
            lemma_results_error(results, 0);
        },
        QuackMessageView::AppendRequest { append_chunk, .. } => {
            law_unfit_data_is_not_fatal(seq![], seq![], seq![], append_chunk);
        },
        _ => {},
    }
}

/// A call that is refused at once retires no connection: on a client or pool
/// that is closed already, with a batch size or pool size of nothing, with text
/// that is no date, or to append where the version cannot.
pub proof fn law_refused_call_is_not_fatal(text: Seq<char>)
    ensures
        !not_connected().is_connection_fatal(),
        !pool_is_closed().is_connection_fatal(),
        !no_date(text).is_connection_fatal(),
        !QuackErrorView::Protocol(
            "append_rows batch_size must be at least 1"@,
        ).is_connection_fatal(),
        !QuackErrorView::Protocol(
            "QuackPoolOptions::max_connections must be at least 1"@,
        ).is_connection_fatal(),
        !QuackErrorView::Protocol(
            "append is only supported by Quack protocol v1; protocol v3 uses SEND_DATA"@,
        ).is_connection_fatal(),
{
    lemma_begins("invalid ISO date "@ + text, "invalid ISO date "@, text);
}

proof fn lemma_differs(message: Seq<char>, known: Seq<char>, at: int)
    requires
        0 <= at < known.len(),
        at < message.len(),
        message[at] != known[at],
    ensures
        message != known,
        !begins_with(message, known),
{
    if begins_with(message, known) {
        assert(message.subrange(0, known.len() as int)[at] == known[at]);
    }
}

/// Whether no message off the wire has this character first.
pub open spec fn begins_like_none(c: char) -> bool {
    c != 'Q' && c != 'a' && c != 'n' && c != 't' && c != 'c' && c != 'i' && c != 'I' && c != 'm'
        && c != 's' && c != 'u' && c != 'v'
}

/// The place to look at: a later one if the first character is a certain one.
spec fn place(message: Seq<char>, c: char, later: int) -> int {
    if message[0] == c {
        later
    } else {
        0
    }
}

/// No message off the wire begins like this one, as far as its character at a
/// place tells.
pub proof fn lemma_on_the_wire(message: Seq<char>)
    requires
        message.len() > 6,
        ({
            ||| begins_like_none(message[0])
            ||| message[0] == 's' && message[1] == 'e'
            ||| message[0] == 'u' && message[2] != 's'
            ||| message[0] == 'v' && message[3] == 'i'
            ||| message[0] == 'i' && message[2] == 't'
            ||| message[0] == 'Q' && message[5] == ' ' && message[6] == 'H'
            ||| message[0] == 'c' && message.len() > 21 && message[1] == 'o' && message[6] == ' '
                && message[21] == 't'
        }),
    ensures
        !raised_off_the_wire(message),
{
    reveal_strlit("Quack client is not connected");
    reveal_strlit("Quack pool is closed");
    reveal_strlit("QuackPoolOptions::max_connections must be at least 1");
    reveal_strlit("append is only supported by Quack protocol v1; protocol v3 uses SEND_DATA");
    reveal_strlit("append_rows batch_size must be at least 1");
    reveal_strlit("not enough SQL parameters");
    reveal_strlit("too many SQL parameters");
    reveal_strlit("columns do not have the same number of values");
    reveal_strlit("column does not have one value for each row");
    reveal_strlit("chunk does not have one column for each type");
    reveal_strlit("Quack URI is empty");
    reveal_strlit("invalid Quack URI ");
    reveal_strlit("invalid IPv6 Quack URI host ");
    reveal_strlit("IPv6 Quack URI hosts must be enclosed in []: ");
    reveal_strlit("minimum Quack protocol version ");
    reveal_strlit("supported Quack protocol versions are ");
    reveal_strlit("unsupported Quack protocol version ");
    reveal_strlit("message header states ");
    reveal_strlit("missing SQL parameter ");
    reveal_strlit("invalid ISO date ");
    reveal_strlit("no type can be told for column ");
    reveal_strlit("value does not fit logical type ");
    let q = place(message, 'Q', 6);
    let five = place(message, 'Q', 5);
    let one = place(message, 's', 1);
    let invalid = place(message, 'i', 2);
    lemma_differs(message, "Quack client is not connected"@, q);
    lemma_differs(message, "Quack pool is closed"@, q);
    lemma_differs(message, "QuackPoolOptions::max_connections must be at least 1"@, five);
    lemma_differs(
        message,
        "append is only supported by Quack protocol v1; protocol v3 uses SEND_DATA"@,
        0,
    );
    lemma_differs(message, "append_rows batch_size must be at least 1"@, 0);
    lemma_differs(message, "not enough SQL parameters"@, 0);
    lemma_differs(message, "too many SQL parameters"@, 0);
    lemma_differs(
        message,
        "columns do not have the same number of values"@,
        place(message, 'c', 6),
    );
    lemma_differs(
        message,
        "column does not have one value for each row"@,
        place(message, 'c', 21),
    );
    lemma_differs(
        message,
        "chunk does not have one column for each type"@,
        place(message, 'c', 1),
    );
    lemma_differs(message, "Quack URI is empty"@, q);
    lemma_differs(message, "invalid Quack URI "@, invalid);
    lemma_differs(message, "invalid IPv6 Quack URI host "@, invalid);
    lemma_differs(message, "IPv6 Quack URI hosts must be enclosed in []: "@, 0);
    lemma_differs(message, "minimum Quack protocol version "@, 0);
    lemma_differs(message, "supported Quack protocol versions are "@, one);
    lemma_differs(message, "unsupported Quack protocol version "@, place(message, 'u', 2));
    lemma_differs(message, "message header states "@, 0);
    lemma_differs(message, "missing SQL parameter "@, 0);
    lemma_differs(message, "invalid ISO date "@, invalid);
    lemma_differs(message, "no type can be told for column "@, 0);
    lemma_differs(message, "value does not fit logical type "@, place(message, 'v', 3));
}

/// A reply that cannot be read retires the connection, unless all that is wrong
/// with it is a type that has no wire form here. A breach of the protocol in a
/// reply, in particular, has no message that is raised before anything is sent.
pub proof fn law_unreadable_reply_is_fatal(version: u64, body: Seq<u8>)
    requires
        version == QUACK_V1 || version == QUACK_V3,
    ensures
        read_message(version, body) matches Err(QuackErrorView::Protocol(m))
            ==> !raised_off_the_wire(m),
        read_message(version, body) matches Err(error) ==> error.is_connection_fatal()
            || error is UnsupportedType,
{
    lemma_unreadable(version, body);
}

/// A reply that reports no success retires the connection.
pub proof fn law_failed_reply_is_fatal(status: u16, reason: Seq<char>)
    ensures
        http_failure(status, reason).is_connection_fatal(),
{
    reveal_strlit("Quack HTTP request failed with ");
    lemma_on_the_wire(http_failure(status, reason)->Protocol_0);
}

/// An answer out of protocol retires the connection, whatever it answers: a
/// statement, a request for a batch, one that has no other result, or a request
/// for a connection.
pub proof fn law_answer_out_of_protocol_is_fatal(
    version: u64,
    state: FetchStateView,
    handshake: HandshakeView,
    answer: QuackMessageView,
)
    ensures
        prepared_of(version, answer) matches Err(error) ==> error.is_connection_fatal(),
        state.after_answer(answer) matches Err(error) ==> error.is_connection_fatal(),
        success_of(answer) matches Err(error) ==> error.is_connection_fatal(),
        handshake.after_answer(answer) matches HandshakeStepView::Refused(error)
            ==> error.is_connection_fatal(),
{
    reveal_strlit("expected PREPARE_RESPONSE, got ");
    reveal_strlit("expected FETCH_RESPONSE, got ");
    reveal_strlit("expected FETCH_RESPONSE batch ");
    reveal_strlit("FETCH_RESPONSE batch did not include any chunks");
    reveal_strlit("FETCH_RESPONSE batch index overflow");
    reveal_strlit("FETCH_RESPONSE with chunks did not include a batch index");
    reveal_strlit("FETCH_RESPONSE ended after ");
    reveal_strlit("expected SUCCESS_RESPONSE, got ");
    reveal_strlit("expected CONNECTION_RESPONSE, got ");
    reveal_strlit("CONNECTION_RESPONSE did not include a connection id");
    reveal_strlit("server selected Quack protocol version ");
    reveal_strlit("protocol v3 CONNECTION_RESPONSE did not include a heartbeat timeout");
    reveal_strlit("heartbeat timeout must be between 1 and ");
    if let Err(error) = prepared_of(version, answer) {
        lemma_on_the_wire(error->Protocol_0);
    }
    if let Err(error) = state.after_answer(answer) {
        lemma_on_the_wire(error->Protocol_0);
    }
    if let Err(error) = success_of(answer) {
        lemma_on_the_wire(error->Protocol_0);
    }
    if let HandshakeStepView::Refused(error) = handshake.after_answer(answer) {
        lemma_on_the_wire(error->Protocol_0);
    }
}

} // verus!
