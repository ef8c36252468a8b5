//! Messages on the wire: a header and a body, each an object.
//!
//! The two protocol versions share the kinds of messages; version 3 adds fields
//! to some bodies, has the heartbeat, and has no request that appends rows.
//! What a message comes to in a version is its form there: the fields that the
//! version does not have are left out, and chunks are in the form that their
//! types give them, without column names.
//!
//! What is proved of the format is that a message is read back from its bytes,
//! and what becomes of any other bytes.

use vstd::prelude::*;

use crate::binary::expect_end;
use crate::binary::lemma_followed4;
use crate::binary::lemma_followed5;
use crate::binary::lemma_followed6;
use crate::binary::lemma_joined_bytes;
use crate::binary::lemma_read_field;
use crate::binary::lemma_read_flag;
use crate::binary::lemma_read_huge_int;
use crate::binary::lemma_read_text;
use crate::binary::lemma_read_uleb;
use crate::binary::lemma_written2;
use crate::binary::lemma_written4;
use crate::binary::lemma_written5;
use crate::binary::lemma_written6;
use crate::binary::object_end;
use crate::binary::reads;
use crate::binary::reads_view;
use crate::binary::trailing_bytes;
use crate::binary::BinaryReader;
use crate::binary::BinaryWriter;
use crate::binary::HugeIntParts;
use crate::binary::ReadResult;
use crate::binary::END_OF_OBJECT;
use crate::chunk::chunk_form;
use crate::chunk::decode_types;
use crate::chunk::lemma_read_types;
use crate::chunk::read_types;
use crate::chunk::types_bytes;
use crate::chunk::write_types;
use crate::constants::QUACK_V1;
use crate::constants::QUACK_V3;
use crate::errors::QuackError;
use crate::errors::QuackErrorView;
use crate::fields::begins_beyond;
use crate::fields::decode_flag;
use crate::fields::decode_huge_int;
use crate::fields::decode_names;
use crate::fields::decode_number_field;
use crate::fields::decode_optional_huge_int;
use crate::fields::decode_optional_number;
use crate::fields::decode_optional_text;
use crate::fields::decode_text;
use crate::fields::field_bytes;
use crate::fields::flag_reader;
use crate::fields::flag_writer;
use crate::fields::huge_int_reader;
use crate::fields::huge_int_writer;
use crate::fields::lemma_field_begins;
use crate::fields::lemma_optional_begins;
use crate::fields::lemma_read_names;
use crate::fields::lemma_read_optional;
use crate::fields::lemma_read_required;
use crate::fields::names_bytes;
use crate::fields::optional_bytes;
use crate::fields::read_field;
use crate::fields::read_names;
use crate::fields::read_optional;
use crate::fields::uleb_reader;
use crate::fields::uleb_writer;
use crate::fields::write_flag;
use crate::fields::write_huge_int;
use crate::fields::write_names;
use crate::fields::write_number;
use crate::fields::write_optional_huge_int;
use crate::fields::write_optional_number;
use crate::fields::write_optional_text;
use crate::fields::write_text;
use crate::messages::MessageHeader;
use crate::messages::MessageHeaderView;
use crate::messages::MessageType;
use crate::messages::QuackMessage;
use crate::messages::QuackMessageView;
use crate::payload::decode_payload;
use crate::payload::decode_results;
use crate::payload::lemma_payload_in_form;
use crate::payload::lemma_read_payload;
use crate::payload::lemma_read_results;
use crate::payload::lemma_results_form;
use crate::payload::lemma_results_form_exactly;
use crate::payload::lemma_results_in_form;
use crate::payload::payload_countable;
use crate::payload::payload_bytes;
use crate::payload::payload_in_form;
use crate::payload::payload_reader;
use crate::payload::payload_writer;
use crate::payload::read_results;
use crate::payload::results_bytes;
use crate::payload::results_countable;
use crate::payload::results_form;
use crate::payload::results_in_form;
use crate::payload::write_payload;
use crate::payload::write_results;
use crate::text::decimal;
use crate::text::decimal_text;
use crate::text::joined;
use crate::typecodec::is_type_in_order;
use crate::typecodec::text_fits;
use crate::typecodec::type_in_order;
use crate::typecodec::unsupported_type;
use crate::typecodec::unsupported_type_error;
use crate::types::option_view;
use crate::types::views;
use crate::types::LogicalType;
use crate::types::LogicalTypeView;
use crate::uri::plain_result;
use crate::value::DataChunkView;
use crate::vector::text_reader;
use crate::vector::text_writer;

verus! {

/// The fields of an object, by their place. The numbers, and which field of a
/// message has which of them, are chosen here: nothing in this crate shows that
/// a server numbers the fields in the same way.
pub const FIRST: u16 = 100;

pub const SECOND: u16 = 101;

pub const THIRD: u16 = 102;

pub const FOURTH: u16 = 103;

pub const FIFTH: u16 = 104;

pub const SIXTH: u16 = 105;

pub const SEVENTH: u16 = 106;

// ---------------------------------------------------------------------------
// Headers
// ---------------------------------------------------------------------------
/// The bytes of a header.
pub open spec fn header_bytes(header: MessageHeaderView) -> Seq<u8> {
    field_bytes(FIRST, header.message_type.spec_code(), uleb_writer()) + (optional_bytes(
        SECOND,
        header.connection_id,
        text_writer(),
    ) + (optional_bytes(THIRD, header.client_query_id, uleb_writer()) + object_end()))
}

/// The error of a kind of message that is not known.
pub open spec fn unknown_kind(code: u64) -> QuackErrorView {
    QuackErrorView::Protocol("unknown message type "@ + decimal(code as nat))
}

/// A header.
pub open spec fn read_header(b: Seq<u8>) -> ReadResult<MessageHeaderView> {
    match read_field(b, FIRST, uleb_reader()) {
        Err(error) => Err(error),
        Ok((code, b)) => match MessageType::of_code(code) {
            None => Err(unknown_kind(code)),
            Some(message_type) => match read_optional(b, SECOND, text_reader()) {
                Err(error) => Err(error),
                Ok((connection_id, b)) => match read_optional(b, THIRD, uleb_reader()) {
                    Err(error) => Err(error),
                    Ok((client_query_id, b)) => match expect_end(b) {
                        Err(error) => Err(error),
                        Ok((_, rest)) => Ok(
                            (
                                MessageHeaderView { message_type, connection_id, client_query_id },
                                rest,
                            ),
                        ),
                    },
                },
            },
        },
    }
}

/// Whether text that may be missing is short enough to be counted.
pub open spec fn optional_text_fits(text: Option<Seq<char>>) -> bool {
    text matches Some(text) ==> text_fits(text)
}

proof fn lemma_end_begins(rest: Seq<u8>, before: u16)
    requires
        before < END_OF_OBJECT,
    ensures
        begins_beyond(object_end() + rest, before),
        expect_end(object_end() + rest) == Ok::<((), Seq<u8>), QuackErrorView>(((), rest)),
{
    lemma_read_field(END_OF_OBJECT, rest);
    lemma_field_begins(END_OF_OBJECT, seq![], rest, before);
}

proof fn lemma_optional_text(id: u16, text: Option<Seq<char>>, rest: Seq<u8>)
    requires
        optional_text_fits(text),
        begins_beyond(rest, id),
    ensures
        read_optional(optional_bytes(id, text, text_writer()) + rest, id, text_reader()) == Ok::<
            (Option<Seq<char>>, Seq<u8>),
            QuackErrorView,
        >((text, rest)),
{
    if let Some(text) = text {
        lemma_read_text(text, rest);
    }
    lemma_read_optional(id, text, text_writer(), text_reader(), rest);
}

proof fn lemma_optional_number(id: u16, n: Option<u64>, rest: Seq<u8>)
    requires
        begins_beyond(rest, id),
    ensures
        read_optional(optional_bytes(id, n, uleb_writer()) + rest, id, uleb_reader()) == Ok::<
            (Option<u64>, Seq<u8>),
            QuackErrorView,
        >((n, rest)),
{
    if let Some(n) = n {
        lemma_read_uleb(n, rest);
    }
    lemma_read_optional(id, n, uleb_writer(), uleb_reader(), rest);
}

proof fn lemma_optional_huge_int(id: u16, parts: Option<HugeIntParts>, rest: Seq<u8>)
    requires
        begins_beyond(rest, id),
    ensures
        read_optional(
            optional_bytes(id, parts, huge_int_writer()) + rest,
            id,
            huge_int_reader(),
        ) == Ok::<(Option<HugeIntParts>, Seq<u8>), QuackErrorView>((parts, rest)),
{
    if let Some(parts) = parts {
        lemma_read_huge_int(parts, rest);
    }
    lemma_read_optional(id, parts, huge_int_writer(), huge_int_reader(), rest);
}

proof fn lemma_text(id: u16, text: Seq<char>, rest: Seq<u8>)
    requires
        text_fits(text),
    ensures
        read_field(field_bytes(id, text, text_writer()) + rest, id, text_reader()) == Ok::<
            (Seq<char>, Seq<u8>),
            QuackErrorView,
        >((text, rest)),
{
    lemma_read_text(text, rest);
    lemma_read_required(id, text, text_writer(), text_reader(), rest);
}

proof fn lemma_number(id: u16, n: u64, rest: Seq<u8>)
    ensures
        read_field(field_bytes(id, n, uleb_writer()) + rest, id, uleb_reader()) == Ok::<
            (u64, Seq<u8>),
            QuackErrorView,
        >((n, rest)),
{
    lemma_read_uleb(n, rest);
    lemma_read_required(id, n, uleb_writer(), uleb_reader(), rest);
}

proof fn lemma_huge_int(id: u16, parts: HugeIntParts, rest: Seq<u8>)
    ensures
        read_field(field_bytes(id, parts, huge_int_writer()) + rest, id, huge_int_reader()) == Ok::<
            (HugeIntParts, Seq<u8>),
            QuackErrorView,
        >((parts, rest)),
{
    lemma_read_huge_int(parts, rest);
    lemma_read_required(id, parts, huge_int_writer(), huge_int_reader(), rest);
}

proof fn lemma_flag(id: u16, b: bool, rest: Seq<u8>)
    ensures
        read_field(field_bytes(id, b, flag_writer()) + rest, id, flag_reader()) == Ok::<
            (bool, Seq<u8>),
            QuackErrorView,
        >((b, rest)),
{
    lemma_read_flag(b, rest);
    lemma_read_required(id, b, flag_writer(), flag_reader(), rest);
}

/// A header is read back, and what follows it is left.
pub proof fn lemma_read_header(header: MessageHeaderView, rest: Seq<u8>)
    requires
        optional_text_fits(header.connection_id),
    ensures
        read_header(header_bytes(header) + rest) == Ok::<
            (MessageHeaderView, Seq<u8>),
            QuackErrorView,
        >((header, rest)),
{
    let kind = field_bytes(FIRST, header.message_type.spec_code(), uleb_writer());
    let connection = optional_bytes(SECOND, header.connection_id, text_writer());
    let query = optional_bytes(THIRD, header.client_query_id, uleb_writer());
    let after = object_end() + rest;
    lemma_followed4(kind, connection, query, object_end(), rest);
    lemma_number(FIRST, header.message_type.spec_code(), connection + (query + after));
    header.message_type.lemma_of_code();
    lemma_end_begins(rest, THIRD);
    lemma_end_begins(rest, SECOND);
    lemma_optional_begins(THIRD, header.client_query_id, uleb_writer(), after, SECOND);
    lemma_optional_text(SECOND, header.connection_id, query + after);
    lemma_optional_number(THIRD, header.client_query_id, after);
}

fn write_header(writer: &mut BinaryWriter, header: &MessageHeader)
    ensures
        final(writer)@ == old(writer)@ + header_bytes(header@),
{
    write_number(writer, FIRST, header.message_type.code());
    write_optional_text(writer, SECOND, &header.connection_id);
    write_optional_number(writer, THIRD, header.client_query_id);
    writer.end_object();
    proof {
        lemma_written4(
            old(writer)@,
            field_bytes(FIRST, header@.message_type.spec_code(), uleb_writer()),
            optional_bytes(SECOND, header@.connection_id, text_writer()),
            optional_bytes(THIRD, header@.client_query_id, uleb_writer()),
            object_end(),
        );
    }
}

fn decode_header(reader: &mut BinaryReader) -> (header: Result<MessageHeader, QuackError>)
    ensures
        reads_view(header, final(reader)@, read_header(old(reader)@)),
{
    let code: u64 = match decode_number_field(reader, FIRST) {
        Ok(code) => code,
        Err(error) => {
            return Err(error);
        },
    };
    let message_type = match MessageType::from_code(code) {
        Some(message_type) => message_type,
        None => {
            return Err(
                QuackError::Protocol(
                    joined("unknown message type ", decimal_text(code as u128).as_str()),
                ),
            );
        },
    };
    let connection_id = match decode_optional_text(reader, SECOND) {
        Ok(connection_id) => connection_id,
        Err(error) => {
            return Err(error);
        },
    };
    let client_query_id: Option<u64> = match decode_optional_number(reader, THIRD) {
        Ok(client_query_id) => client_query_id,
        Err(error) => {
            return Err(error);
        },
    };
    if let Err(error) = reader.read_object_end() {
        return Err(error);
    }
    Ok(MessageHeader { message_type, connection_id, client_query_id })
}

/// A field of version 3 that may be left out; never there in another version.
pub open spec fn read_v3_optional<T>(
    version: u64,
    b: Seq<u8>,
    id: u16,
    read: spec_fn(Seq<u8>) -> ReadResult<T>,
) -> ReadResult<Option<T>> {
    if version == QUACK_V3 {
        read_optional(b, id, read)
    } else {
        Ok((None, b))
    }
}

fn decode_v3_number(reader: &mut BinaryReader, version: u64, id: u16) -> (n: Result<
    Option<u64>,
    QuackError,
>)
    ensures
        reads(n, final(reader)@, read_v3_optional(version, old(reader)@, id, uleb_reader())),
{
    if version == QUACK_V3 {
        decode_optional_number(reader, id)
    } else {
        Ok(None)
    }
}

// ---------------------------------------------------------------------------
// Connection requests
// ---------------------------------------------------------------------------
/// What version 3 adds to a connection request.
pub open spec fn lease_bytes(
    version: u64,
    client_id: Option<Seq<char>>,
    heartbeat_timeout_seconds: u64,
) -> Seq<u8> {
    if version == QUACK_V3 {
        optional_bytes(SIXTH, client_id, text_writer()) + field_bytes(
            SEVENTH,
            heartbeat_timeout_seconds,
            uleb_writer(),
        )
    } else {
        seq![]
    }
}

/// What version 3 adds to a connection request.
pub open spec fn read_lease(version: u64, b: Seq<u8>) -> ReadResult<(Option<Seq<char>>, u64)> {
    if version == QUACK_V3 {
        match read_optional(b, SIXTH, text_reader()) {
            Err(error) => Err(error),
            Ok((client_id, b)) => match read_field(b, SEVENTH, uleb_reader()) {
                Err(error) => Err(error),
                Ok((seconds, rest)) => Ok(((client_id, seconds), rest)),
            },
        }
    } else {
        Ok(((None, 0), b))
    }
}

/// The bytes of the body of a connection request.
pub open spec fn connection_request_bytes(version: u64, m: QuackMessageView) -> Seq<u8> {
    optional_bytes(FIRST, m->auth_string, text_writer()) + (optional_bytes(
        SECOND,
        m->client_duckdb_version,
        text_writer(),
    ) + (optional_bytes(THIRD, m->client_platform, text_writer()) + (field_bytes(
        FOURTH,
        m->min_supported_quack_version,
        uleb_writer(),
    ) + (field_bytes(FIFTH, m->max_supported_quack_version, uleb_writer()) + (lease_bytes(
        version,
        m->client_id,
        m->ConnectionRequest_heartbeat_timeout_seconds,
    ) + object_end())))))
}

/// The body of a connection request.
pub open spec fn read_connection_request(
    version: u64,
    header: MessageHeaderView,
    b: Seq<u8>,
) -> ReadResult<QuackMessageView> {
    match read_optional(b, FIRST, text_reader()) {
        Err(error) => Err(error),
        Ok((auth_string, b)) => match read_optional(b, SECOND, text_reader()) {
            Err(error) => Err(error),
            Ok((client_duckdb_version, b)) => match read_optional(b, THIRD, text_reader()) {
                Err(error) => Err(error),
                Ok((client_platform, b)) => match read_field(b, FOURTH, uleb_reader()) {
                    Err(error) => Err(error),
                    Ok((min_supported_quack_version, b)) => match read_field(
                        b,
                        FIFTH,
                        uleb_reader(),
                    ) {
                        Err(error) => Err(error),
                        Ok((max_supported_quack_version, b)) => match read_lease(version, b) {
                            Err(error) => Err(error),
                            Ok(((client_id, heartbeat_timeout_seconds), b)) => match expect_end(
                                b,
                            ) {
                                Err(error) => Err(error),
                                Ok((_, rest)) => Ok(
                                    (
                                        QuackMessageView::ConnectionRequest {
                                            header,
                                            auth_string,
                                            client_duckdb_version,
                                            client_platform,
                                            min_supported_quack_version,
                                            max_supported_quack_version,
                                            client_id,
                                            heartbeat_timeout_seconds,
                                        },
                                        rest,
                                    ),
                                ),
                            },
                        },
                    },
                },
            },
        },
    }
}

proof fn lemma_lease(
    version: u64,
    client_id: Option<Seq<char>>,
    seconds: u64,
    rest: Seq<u8>,
)
    requires
        optional_text_fits(client_id),
        version != QUACK_V3 ==> client_id is None && seconds == 0,
    ensures
        read_lease(version, lease_bytes(version, client_id, seconds) + rest) == Ok::<
            ((Option<Seq<char>>, u64), Seq<u8>),
            QuackErrorView,
        >(((client_id, seconds), rest)),
{
    if version == QUACK_V3 {
        let id = optional_bytes(SIXTH, client_id, text_writer());
        let number = field_bytes(SEVENTH, seconds, uleb_writer());
        lemma_joined_bytes(id, number, rest);
        lemma_field_begins(SEVENTH, uleb_writer()(seconds), rest, SIXTH);
        lemma_optional_text(SIXTH, client_id, number + rest);
        lemma_number(SEVENTH, seconds, rest);
    } else {
        assert(lease_bytes(version, client_id, seconds) + rest =~= rest);
    }
}

proof fn lemma_connection_request(version: u64, m: QuackMessageView, rest: Seq<u8>)
    requires
        m is ConnectionRequest,
        optional_text_fits(m->auth_string),
        optional_text_fits(m->client_duckdb_version),
        optional_text_fits(m->client_platform),
        optional_text_fits(m->client_id),
        version != QUACK_V3 ==> m->client_id is None
            && m->ConnectionRequest_heartbeat_timeout_seconds == 0,
    ensures
        read_connection_request(
            version,
            m.header(),
            connection_request_bytes(version, m) + rest,
        ) == Ok::<(QuackMessageView, Seq<u8>), QuackErrorView>((m, rest)),
{
    let seconds = m->ConnectionRequest_heartbeat_timeout_seconds;
    let p1 = optional_bytes(FIRST, m->auth_string, text_writer());
    let p2 = optional_bytes(SECOND, m->client_duckdb_version, text_writer());
    let p3 = optional_bytes(THIRD, m->client_platform, text_writer());
    let p4 = field_bytes(FOURTH, m->min_supported_quack_version, uleb_writer());
    let p5 = field_bytes(FIFTH, m->max_supported_quack_version, uleb_writer());
    let p6 = lease_bytes(version, m->client_id, seconds);
    let end = object_end();
    let r6 = p6 + (end + rest);
    let r5 = p5 + r6;
    let r4 = p4 + r5;
    let r3 = p3 + r4;
    let r2 = p2 + r3;
    assert(connection_request_bytes(version, m) + rest == p1 + r2) by {
        lemma_followed6(p2, p3, p4, p5, p6, end, rest);
        lemma_joined_bytes(p1, p2 + (p3 + (p4 + (p5 + (p6 + end)))), rest);
    }
    assert(begins_beyond(r4, THIRD) && begins_beyond(r4, SECOND) && begins_beyond(r4, FIRST)) by {
        let bytes = uleb_writer()(m->min_supported_quack_version);
        lemma_field_begins(FOURTH, bytes, r5, THIRD);
        lemma_field_begins(FOURTH, bytes, r5, SECOND);
        lemma_field_begins(FOURTH, bytes, r5, FIRST);
    }
    assert(begins_beyond(r3, SECOND) && begins_beyond(r3, FIRST)) by {
        lemma_optional_begins(THIRD, m->client_platform, text_writer(), r4, SECOND);
        lemma_optional_begins(THIRD, m->client_platform, text_writer(), r4, FIRST);
    }
    assert(begins_beyond(r2, FIRST)) by {
        lemma_optional_begins(SECOND, m->client_duckdb_version, text_writer(), r3, FIRST);
    }
    lemma_optional_text(FIRST, m->auth_string, r2);
    lemma_optional_text(SECOND, m->client_duckdb_version, r3);
    lemma_optional_text(THIRD, m->client_platform, r4);
    lemma_number(FOURTH, m->min_supported_quack_version, r5);
    lemma_number(FIFTH, m->max_supported_quack_version, r6);
    lemma_lease(version, m->client_id, seconds, end + rest);
    lemma_end_begins(rest, FIRST);
}

// ---------------------------------------------------------------------------
// Connection responses
// ---------------------------------------------------------------------------
/// The bytes of the body of a connection response.
pub open spec fn connection_response_bytes(m: QuackMessageView) -> Seq<u8> {
    optional_bytes(FIRST, m->server_duckdb_version, text_writer()) + (optional_bytes(
        SECOND,
        m->server_platform,
        text_writer(),
    ) + (optional_bytes(THIRD, m->quack_version, uleb_writer()) + (optional_bytes(
        FOURTH,
        m->ConnectionResponse_heartbeat_timeout_seconds,
        uleb_writer(),
    ) + object_end())))
}

/// The body of a connection response.
pub open spec fn read_connection_response(
    version: u64,
    header: MessageHeaderView,
    b: Seq<u8>,
) -> ReadResult<QuackMessageView> {
    match read_optional(b, FIRST, text_reader()) {
        Err(error) => Err(error),
        Ok((server_duckdb_version, b)) => match read_optional(b, SECOND, text_reader()) {
            Err(error) => Err(error),
            Ok((server_platform, b)) => match read_optional(b, THIRD, uleb_reader()) {
                Err(error) => Err(error),
                Ok((quack_version, b)) => match read_v3_optional(
                    version,
                    b,
                    FOURTH,
                    uleb_reader(),
                ) {
                    Err(error) => Err(error),
                    Ok((heartbeat_timeout_seconds, b)) => match expect_end(b) {
                        Err(error) => Err(error),
                        Ok((_, rest)) => Ok(
                            (
                                QuackMessageView::ConnectionResponse {
                                    header,
                                    server_duckdb_version,
                                    server_platform,
                                    quack_version,
                                    heartbeat_timeout_seconds,
                                },
                                rest,
                            ),
                        ),
                    },
                },
            },
        },
    }
}

proof fn lemma_v3_number(version: u64, id: u16, n: Option<u64>, rest: Seq<u8>)
    requires
        begins_beyond(rest, id),
        version != QUACK_V3 ==> n is None,
    ensures
        read_v3_optional(
            version,
            optional_bytes(id, n, uleb_writer()) + rest,
            id,
            uleb_reader(),
        ) == Ok::<(Option<u64>, Seq<u8>), QuackErrorView>((n, rest)),
{
    lemma_optional_number(id, n, rest);
    if n is None {
        assert(optional_bytes(id, n, uleb_writer()) + rest =~= rest);
    }
}

proof fn lemma_connection_response(version: u64, m: QuackMessageView, rest: Seq<u8>)
    requires
        m is ConnectionResponse,
        optional_text_fits(m->server_duckdb_version),
        optional_text_fits(m->server_platform),
        version != QUACK_V3 ==> m->ConnectionResponse_heartbeat_timeout_seconds is None,
    ensures
        read_connection_response(version, m.header(), connection_response_bytes(m) + rest) == Ok::<
            (QuackMessageView, Seq<u8>),
            QuackErrorView,
        >((m, rest)),
{
    let seconds = m->ConnectionResponse_heartbeat_timeout_seconds;
    let p1 = optional_bytes(FIRST, m->server_duckdb_version, text_writer());
    let p2 = optional_bytes(SECOND, m->server_platform, text_writer());
    let p3 = optional_bytes(THIRD, m->quack_version, uleb_writer());
    let p4 = optional_bytes(FOURTH, seconds, uleb_writer());
    let end = object_end();
    let r4 = p4 + (end + rest);
    let r3 = p3 + r4;
    let r2 = p2 + r3;
    assert(connection_response_bytes(m) + rest == p1 + r2) by {
        lemma_followed5(p1, p2, p3, p4, end, rest);
    }
    lemma_end_begins(rest, FOURTH);
    lemma_end_begins(rest, THIRD);
    lemma_end_begins(rest, SECOND);
    lemma_end_begins(rest, FIRST);
    lemma_optional_begins(FOURTH, seconds, uleb_writer(), end + rest, THIRD);
    lemma_optional_begins(FOURTH, seconds, uleb_writer(), end + rest, SECOND);
    lemma_optional_begins(FOURTH, seconds, uleb_writer(), end + rest, FIRST);
    lemma_optional_begins(THIRD, m->quack_version, uleb_writer(), r4, SECOND);
    lemma_optional_begins(THIRD, m->quack_version, uleb_writer(), r4, FIRST);
    lemma_optional_begins(SECOND, m->server_platform, text_writer(), r3, FIRST);
    lemma_optional_text(FIRST, m->server_duckdb_version, r2);
    lemma_optional_text(SECOND, m->server_platform, r3);
    lemma_optional_number(THIRD, m->quack_version, r4);
    lemma_v3_number(version, FOURTH, seconds, end + rest);
}

// ---------------------------------------------------------------------------
// Statements and their answers
// ---------------------------------------------------------------------------
/// The bytes of the body of a request that runs a statement.
pub open spec fn prepare_request_bytes(m: QuackMessageView) -> Seq<u8> {
    field_bytes(FIRST, m->sql, text_writer()) + (optional_bytes(
        SECOND,
        m->query_uuid,
        huge_int_writer(),
    ) + (optional_bytes(THIRD, m->inline_rows, uleb_writer()) + object_end()))
}

/// The body of a request that runs a statement.
pub open spec fn read_prepare_request(
    version: u64,
    header: MessageHeaderView,
    b: Seq<u8>,
) -> ReadResult<QuackMessageView> {
    match read_field(b, FIRST, text_reader()) {
        Err(error) => Err(error),
        Ok((sql, b)) => match read_v3_optional(version, b, SECOND, huge_int_reader()) {
            Err(error) => Err(error),
            Ok((query_uuid, b)) => match read_v3_optional(version, b, THIRD, uleb_reader()) {
                Err(error) => Err(error),
                Ok((inline_rows, b)) => match expect_end(b) {
                    Err(error) => Err(error),
                    Ok((_, rest)) => Ok(
                        (
                            QuackMessageView::PrepareRequest {
                                header,
                                sql,
                                query_uuid,
                                inline_rows,
                            },
                            rest,
                        ),
                    ),
                },
            },
        },
    }
}

proof fn lemma_prepare_request(version: u64, m: QuackMessageView, rest: Seq<u8>)
    requires
        m is PrepareRequest,
        text_fits(m->sql),
        version != QUACK_V3 ==> m->query_uuid is None && m->inline_rows is None,
    ensures
        read_prepare_request(version, m.header(), prepare_request_bytes(m) + rest) == Ok::<
            (QuackMessageView, Seq<u8>),
            QuackErrorView,
        >((m, rest)),
{
    let p1 = field_bytes(FIRST, m->sql, text_writer());
    let p2 = optional_bytes(SECOND, m->query_uuid, huge_int_writer());
    let p3 = optional_bytes(THIRD, m->inline_rows, uleb_writer());
    let end = object_end();
    let r3 = p3 + (end + rest);
    let r2 = p2 + r3;
    lemma_followed4(p1, p2, p3, end, rest);
    lemma_end_begins(rest, THIRD);
    lemma_end_begins(rest, SECOND);
    lemma_optional_begins(THIRD, m->inline_rows, uleb_writer(), end + rest, SECOND);
    lemma_text(FIRST, m->sql, r2);
    lemma_optional_huge_int(SECOND, m->query_uuid, r3);
    lemma_v3_number(version, THIRD, m->inline_rows, end + rest);
    if m->query_uuid is None {
        assert(p2 + r3 =~= r3);
    }
}

/// How a list of types is written.
pub open spec fn types_writer() -> spec_fn(Seq<LogicalTypeView>) -> Seq<u8> {
    |types: Seq<LogicalTypeView>| types_bytes(types)
}

/// How a list of types is read.
pub open spec fn types_reader() -> spec_fn(Seq<u8>) -> ReadResult<Seq<LogicalTypeView>> {
    |b: Seq<u8>| read_types(b)
}

/// How a list of names is written.
pub open spec fn names_writer() -> spec_fn(Seq<Seq<char>>) -> Seq<u8> {
    |names: Seq<Seq<char>>| names_bytes(names)
}

/// How a list of names is read.
pub open spec fn names_reader() -> spec_fn(Seq<u8>) -> ReadResult<Seq<Seq<char>>> {
    |b: Seq<u8>| read_names(b)
}

/// How a list of chunks is written.
pub open spec fn results_writer(version: u64) -> spec_fn(Seq<DataChunkView>) -> Seq<u8> {
    |chunks: Seq<DataChunkView>| results_bytes(chunks, version)
}

/// How a list of chunks is read.
pub open spec fn results_reader(version: u64) -> spec_fn(Seq<u8>) -> ReadResult<
    Seq<DataChunkView>,
> {
    |b: Seq<u8>| read_results(b, version)
}

/// The bytes of the body of the answer to a statement.
pub open spec fn prepare_response_bytes(version: u64, m: QuackMessageView) -> Seq<u8> {
    field_bytes(FIRST, m->result_types, types_writer()) + (field_bytes(
        SECOND,
        m->result_names,
        names_writer(),
    ) + (field_bytes(THIRD, m->needs_more_fetch, flag_writer()) + (field_bytes(
        FOURTH,
        m->PrepareResponse_results,
        results_writer(version),
    ) + (field_bytes(FIFTH, m->PrepareResponse_result_uuid, huge_int_writer()) + object_end()))))
}

/// The body of the answer to a statement.
pub open spec fn read_prepare_response(
    version: u64,
    header: MessageHeaderView,
    b: Seq<u8>,
) -> ReadResult<QuackMessageView> {
    match read_field(b, FIRST, types_reader()) {
        Err(error) => Err(error),
        Ok((result_types, b)) => match read_field(b, SECOND, names_reader()) {
            Err(error) => Err(error),
            Ok((result_names, b)) => match read_field(b, THIRD, flag_reader()) {
                Err(error) => Err(error),
                Ok((needs_more_fetch, b)) => match read_field(
                    b,
                    FOURTH,
                    results_reader(version),
                ) {
                    Err(error) => Err(error),
                    Ok((results, b)) => match read_field(b, FIFTH, huge_int_reader()) {
                        Err(error) => Err(error),
                        Ok((result_uuid, b)) => match expect_end(b) {
                            Err(error) => Err(error),
                            Ok((_, rest)) => Ok(
                                (
                                    QuackMessageView::PrepareResponse {
                                        header,
                                        result_types,
                                        result_names,
                                        needs_more_fetch,
                                        results,
                                        result_uuid,
                                    },
                                    rest,
                                ),
                            ),
                        },
                    },
                },
            },
        },
    }
}

/// Whether a list of types is in order and can be counted.
pub open spec fn types_in_order(types: Seq<LogicalTypeView>) -> bool {
    &&& types.len() <= u64::MAX
    &&& forall|j: int| 0 <= j < types.len() ==> type_in_order(#[trigger] types[j])
}

/// Whether a list of names can be counted.
pub open spec fn names_fit(names: Seq<Seq<char>>) -> bool {
    &&& names.len() <= u64::MAX
    &&& forall|i: int| 0 <= i < names.len() ==> text_fits(#[trigger] names[i])
}

proof fn lemma_prepare_response(version: u64, m: QuackMessageView, rest: Seq<u8>)
    requires
        m is PrepareResponse,
        types_in_order(m->result_types),
        names_fit(m->result_names),
        results_in_form(m->PrepareResponse_results),
    ensures
        read_prepare_response(version, m.header(), prepare_response_bytes(version, m) + rest)
            == Ok::<(QuackMessageView, Seq<u8>), QuackErrorView>((m, rest)),
{
    let p1 = field_bytes(FIRST, m->result_types, types_writer());
    let p2 = field_bytes(SECOND, m->result_names, names_writer());
    let p3 = field_bytes(THIRD, m->needs_more_fetch, flag_writer());
    let p4 = field_bytes(FOURTH, m->PrepareResponse_results, results_writer(version));
    let p5 = field_bytes(FIFTH, m->PrepareResponse_result_uuid, huge_int_writer());
    let end = object_end();
    let r5 = p5 + (end + rest);
    let r4 = p4 + r5;
    let r3 = p3 + r4;
    let r2 = p2 + r3;
    assert(prepare_response_bytes(version, m) + rest == p1 + r2) by {
        lemma_followed6(p1, p2, p3, p4, p5, end, rest);
    }
    assert(read_field(p1 + r2, FIRST, types_reader()) == Ok::<
        (Seq<LogicalTypeView>, Seq<u8>),
        QuackErrorView,
    >((m->result_types, r2))) by {
        lemma_read_types(m->result_types, r2);
        lemma_read_required(FIRST, m->result_types, types_writer(), types_reader(), r2);
    }
    assert(read_field(r2, SECOND, names_reader()) == Ok::<
        (Seq<Seq<char>>, Seq<u8>),
        QuackErrorView,
    >((m->result_names, r3))) by {
        lemma_read_names(m->result_names, r3);
        lemma_read_required(SECOND, m->result_names, names_writer(), names_reader(), r3);
    }
    lemma_flag(THIRD, m->needs_more_fetch, r4);
    assert(read_field(r4, FOURTH, results_reader(version)) == Ok::<
        (Seq<DataChunkView>, Seq<u8>),
        QuackErrorView,
    >((m->PrepareResponse_results, r5))) by {
        lemma_read_results(m->PrepareResponse_results, version, r5);
        lemma_read_required(
            FOURTH,
            m->PrepareResponse_results,
            results_writer(version),
            results_reader(version),
            r5,
        );
    }
    lemma_huge_int(FIFTH, m->PrepareResponse_result_uuid, end + rest);
    lemma_end_begins(rest, FIRST);
}

// ---------------------------------------------------------------------------
// Batches
// ---------------------------------------------------------------------------
/// The bytes of the body of a request for more of a result.
pub open spec fn fetch_request_bytes(m: QuackMessageView) -> Seq<u8> {
    field_bytes(FIRST, m->FetchRequest_result_uuid, huge_int_writer()) + (optional_bytes(
        SECOND,
        m->FetchRequest_batch_index,
        uleb_writer(),
    ) + (optional_bytes(THIRD, m->ack_index, uleb_writer()) + object_end()))
}

/// The body of a request for more of a result.
pub open spec fn read_fetch_request(
    version: u64,
    header: MessageHeaderView,
    b: Seq<u8>,
) -> ReadResult<QuackMessageView> {
    match read_field(b, FIRST, huge_int_reader()) {
        Err(error) => Err(error),
        Ok((result_uuid, b)) => match read_v3_optional(version, b, SECOND, uleb_reader()) {
            Err(error) => Err(error),
            Ok((batch_index, b)) => match read_v3_optional(version, b, THIRD, uleb_reader()) {
                Err(error) => Err(error),
                Ok((ack_index, b)) => match expect_end(b) {
                    Err(error) => Err(error),
                    Ok((_, rest)) => Ok(
                        (
                            QuackMessageView::FetchRequest {
                                header,
                                result_uuid,
                                batch_index,
                                ack_index,
                            },
                            rest,
                        ),
                    ),
                },
            },
        },
    }
}

proof fn lemma_fetch_request(version: u64, m: QuackMessageView, rest: Seq<u8>)
    requires
        m is FetchRequest,
        version != QUACK_V3 ==> m->FetchRequest_batch_index is None && m->ack_index is None,
    ensures
        read_fetch_request(version, m.header(), fetch_request_bytes(m) + rest) == Ok::<
            (QuackMessageView, Seq<u8>),
            QuackErrorView,
        >((m, rest)),
{
    let p1 = field_bytes(FIRST, m->FetchRequest_result_uuid, huge_int_writer());
    let p2 = optional_bytes(SECOND, m->FetchRequest_batch_index, uleb_writer());
    let p3 = optional_bytes(THIRD, m->ack_index, uleb_writer());
    let end = object_end();
    let r3 = p3 + (end + rest);
    let r2 = p2 + r3;
    lemma_followed4(p1, p2, p3, end, rest);
    lemma_end_begins(rest, THIRD);
    lemma_end_begins(rest, SECOND);
    lemma_optional_begins(THIRD, m->ack_index, uleb_writer(), end + rest, SECOND);
    lemma_huge_int(FIRST, m->FetchRequest_result_uuid, r2);
    lemma_v3_number(version, SECOND, m->FetchRequest_batch_index, r3);
    lemma_v3_number(version, THIRD, m->ack_index, end + rest);
}

/// The bytes of the body of an answer with a batch.
pub open spec fn fetch_response_bytes(version: u64, m: QuackMessageView) -> Seq<u8> {
    field_bytes(FIRST, m->FetchResponse_results, results_writer(version)) + (optional_bytes(
        SECOND,
        m->total_batches,
        uleb_writer(),
    ) + (optional_bytes(THIRD, m->FetchResponse_batch_index, uleb_writer()) + object_end()))
}

/// The body of an answer with a batch.
pub open spec fn read_fetch_response(
    version: u64,
    header: MessageHeaderView,
    b: Seq<u8>,
) -> ReadResult<QuackMessageView> {
    match read_field(b, FIRST, results_reader(version)) {
        Err(error) => Err(error),
        Ok((results, b)) => match read_v3_optional(version, b, SECOND, uleb_reader()) {
            Err(error) => Err(error),
            Ok((total_batches, b)) => match read_v3_optional(version, b, THIRD, uleb_reader()) {
                Err(error) => Err(error),
                Ok((batch_index, b)) => match expect_end(b) {
                    Err(error) => Err(error),
                    Ok((_, rest)) => Ok(
                        (
                            QuackMessageView::FetchResponse {
                                header,
                                results,
                                total_batches,
                                batch_index,
                            },
                            rest,
                        ),
                    ),
                },
            },
        },
    }
}

proof fn lemma_fetch_response(version: u64, m: QuackMessageView, rest: Seq<u8>)
    requires
        m is FetchResponse,
        results_in_form(m->FetchResponse_results),
        version != QUACK_V3 ==> m->total_batches is None && m->FetchResponse_batch_index is None,
    ensures
        read_fetch_response(version, m.header(), fetch_response_bytes(version, m) + rest) == Ok::<
            (QuackMessageView, Seq<u8>),
            QuackErrorView,
        >((m, rest)),
{
    let p1 = field_bytes(FIRST, m->FetchResponse_results, results_writer(version));
    let p2 = optional_bytes(SECOND, m->total_batches, uleb_writer());
    let p3 = optional_bytes(THIRD, m->FetchResponse_batch_index, uleb_writer());
    let end = object_end();
    let r3 = p3 + (end + rest);
    let r2 = p2 + r3;
    lemma_followed4(p1, p2, p3, end, rest);
    lemma_end_begins(rest, THIRD);
    lemma_end_begins(rest, SECOND);
    lemma_optional_begins(
        THIRD,
        m->FetchResponse_batch_index,
        uleb_writer(),
        end + rest,
        SECOND,
    );
    assert(read_field(p1 + r2, FIRST, results_reader(version)) == Ok::<
        (Seq<DataChunkView>, Seq<u8>),
        QuackErrorView,
    >((m->FetchResponse_results, r2))) by {
        lemma_read_results(m->FetchResponse_results, version, r2);
        lemma_read_required(
            FIRST,
            m->FetchResponse_results,
            results_writer(version),
            results_reader(version),
            r2,
        );
    }
    lemma_v3_number(version, SECOND, m->total_batches, r3);
    lemma_v3_number(version, THIRD, m->FetchResponse_batch_index, end + rest);
}

// ---------------------------------------------------------------------------
// The other bodies
// ---------------------------------------------------------------------------
/// The bytes of the body of a request that appends rows.
pub open spec fn append_request_bytes(version: u64, m: QuackMessageView) -> Seq<u8> {
    optional_bytes(FIRST, m->schema_name, text_writer()) + (field_bytes(
        SECOND,
        m->table_name,
        text_writer(),
    ) + (field_bytes(THIRD, m->append_chunk, payload_writer(version)) + object_end()))
}

/// The body of a request that appends rows.
pub open spec fn read_append_request(
    version: u64,
    header: MessageHeaderView,
    b: Seq<u8>,
) -> ReadResult<QuackMessageView> {
    match read_optional(b, FIRST, text_reader()) {
        Err(error) => Err(error),
        Ok((schema_name, b)) => match read_field(b, SECOND, text_reader()) {
            Err(error) => Err(error),
            Ok((table_name, b)) => match read_field(b, THIRD, payload_reader(version)) {
                Err(error) => Err(error),
                Ok((append_chunk, b)) => match expect_end(b) {
                    Err(error) => Err(error),
                    Ok((_, rest)) => Ok(
                        (
                            QuackMessageView::AppendRequest {
                                header,
                                schema_name,
                                table_name,
                                append_chunk,
                            },
                            rest,
                        ),
                    ),
                },
            },
        },
    }
}

proof fn lemma_append_request(version: u64, m: QuackMessageView, rest: Seq<u8>)
    requires
        m is AppendRequest,
        optional_text_fits(m->schema_name),
        text_fits(m->table_name),
        payload_in_form(m->append_chunk),
    ensures
        read_append_request(version, m.header(), append_request_bytes(version, m) + rest) == Ok::<
            (QuackMessageView, Seq<u8>),
            QuackErrorView,
        >((m, rest)),
{
    let p1 = optional_bytes(FIRST, m->schema_name, text_writer());
    let p2 = field_bytes(SECOND, m->table_name, text_writer());
    let p3 = field_bytes(THIRD, m->append_chunk, payload_writer(version));
    let end = object_end();
    let r3 = p3 + (end + rest);
    let r2 = p2 + r3;
    lemma_followed4(p1, p2, p3, end, rest);
    lemma_field_begins(SECOND, text_writer()(m->table_name), r3, FIRST);
    lemma_optional_text(FIRST, m->schema_name, r2);
    lemma_text(SECOND, m->table_name, r3);
    lemma_read_payload(m->append_chunk, version, end + rest);
    lemma_read_required(
        THIRD,
        m->append_chunk,
        payload_writer(version),
        payload_reader(version),
        end + rest,
    );
    lemma_end_begins(rest, FIRST);
}

/// The bytes of the body of an answer with an error.
pub open spec fn error_response_bytes(m: QuackMessageView) -> Seq<u8> {
    field_bytes(FIRST, m->message, text_writer()) + object_end()
}

/// The body of an answer with an error.
pub open spec fn read_error_response(header: MessageHeaderView, b: Seq<u8>) -> ReadResult<
    QuackMessageView,
> {
    match read_field(b, FIRST, text_reader()) {
        Err(error) => Err(error),
        Ok((message, b)) => match expect_end(b) {
            Err(error) => Err(error),
            Ok((_, rest)) => Ok((QuackMessageView::ErrorResponse { header, message }, rest)),
        },
    }
}

proof fn lemma_error_response(m: QuackMessageView, rest: Seq<u8>)
    requires
        m is ErrorResponse,
        text_fits(m->message),
    ensures
        read_error_response(m.header(), error_response_bytes(m) + rest) == Ok::<
            (QuackMessageView, Seq<u8>),
            QuackErrorView,
        >((m, rest)),
{
    let p1 = field_bytes(FIRST, m->message, text_writer());
    lemma_joined_bytes(p1, object_end(), rest);
    lemma_text(FIRST, m->message, object_end() + rest);
    lemma_end_begins(rest, FIRST);
}

/// An empty body.
pub open spec fn read_empty(m: QuackMessageView, b: Seq<u8>) -> ReadResult<QuackMessageView> {
    match expect_end(b) {
        Err(error) => Err(error),
        Ok((_, rest)) => Ok((m, rest)),
    }
}

/// The bytes of a body.
pub open spec fn body_bytes(version: u64, m: QuackMessageView) -> Seq<u8> {
    match m {
        QuackMessageView::ConnectionRequest { .. } => connection_request_bytes(version, m),
        QuackMessageView::ConnectionResponse { .. } => connection_response_bytes(m),
        QuackMessageView::PrepareRequest { .. } => prepare_request_bytes(m),
        QuackMessageView::PrepareResponse { .. } => prepare_response_bytes(version, m),
        QuackMessageView::FetchRequest { .. } => fetch_request_bytes(m),
        QuackMessageView::FetchResponse { .. } => fetch_response_bytes(version, m),
        QuackMessageView::AppendRequest { .. } => append_request_bytes(version, m),
        QuackMessageView::ErrorResponse { .. } => error_response_bytes(m),
        _ => object_end(),
    }
}

/// The error of a message that a version does not have.
pub open spec fn not_in_version(kind: MessageType, version: u64) -> QuackErrorView {
    QuackErrorView::Protocol(
        kind.spec_name() + " is not part of Quack protocol version "@ + decimal(version as nat),
    )
}

/// Whether a version has a kind of message.
pub open spec fn in_version(kind: MessageType, version: u64) -> bool {
    match kind {
        MessageType::SendDataRequest => version == QUACK_V1,
        MessageType::HeartbeatRequest => version == QUACK_V3,
        _ => true,
    }
}

/// The body of a message with some header.
pub open spec fn read_body(version: u64, header: MessageHeaderView, b: Seq<u8>) -> ReadResult<
    QuackMessageView,
> {
    if !in_version(header.message_type, version) {
        Err(not_in_version(header.message_type, version))
    } else {
        match header.message_type {
            MessageType::ConnectionRequest => read_connection_request(version, header, b),
            MessageType::ConnectionResponse => read_connection_response(version, header, b),
            MessageType::PrepareRequest => read_prepare_request(version, header, b),
            MessageType::PrepareResponse => read_prepare_response(version, header, b),
            MessageType::FetchRequest => read_fetch_request(version, header, b),
            MessageType::FetchResponse => read_fetch_response(version, header, b),
            MessageType::SendDataRequest => read_append_request(version, header, b),
            MessageType::SuccessResponse => read_empty(
                QuackMessageView::SuccessResponse { header },
                b,
            ),
            MessageType::ErrorResponse => read_error_response(header, b),
            MessageType::DisconnectMessage => read_empty(
                QuackMessageView::Disconnect { header },
                b,
            ),
            MessageType::HeartbeatRequest => read_empty(
                QuackMessageView::HeartbeatRequest { header },
                b,
            ),
        }
    }
}

/// The error of a version that is not known.
pub open spec fn unknown_version(version: u64) -> QuackErrorView {
    QuackErrorView::Protocol("unsupported Quack protocol version "@ + decimal(version as nat))
}

/// A whole message: nothing is left after it.
pub open spec fn read_message(version: u64, b: Seq<u8>) -> Result<
    QuackMessageView,
    QuackErrorView,
> {
    if version != QUACK_V1 && version != QUACK_V3 {
        Err(unknown_version(version))
    } else {
        match read_header(b) {
            Err(error) => Err(error),
            Ok((header, b)) => match read_body(version, header, b) {
                Err(error) => Err(error),
                Ok((m, rest)) => if rest.len() == 0 {
                    Ok(m)
                } else {
                    Err(trailing_bytes(rest.len()))
                },
            },
        }
    }
}

/// The bytes of a message that is in its form.
pub open spec fn message_bytes(version: u64, m: QuackMessageView) -> Seq<u8> {
    header_bytes(m.header()) + body_bytes(version, m)
}

/// Whether a message is in its form in a version, and can be counted.
pub open spec fn message_in_form(version: u64, m: QuackMessageView) -> bool {
    &&& version == QUACK_V1 || version == QUACK_V3
    &&& m.header().message_type == m.kind()
    &&& in_version(m.kind(), version)
    &&& optional_text_fits(m.header().connection_id)
    &&& match m {
        QuackMessageView::ConnectionRequest { .. } => {
            &&& optional_text_fits(m->auth_string)
            &&& optional_text_fits(m->client_duckdb_version)
            &&& optional_text_fits(m->client_platform)
            &&& optional_text_fits(m->client_id)
            &&& version != QUACK_V3 ==> m->client_id is None
                && m->ConnectionRequest_heartbeat_timeout_seconds == 0
        },
        QuackMessageView::ConnectionResponse { .. } => {
            &&& optional_text_fits(m->server_duckdb_version)
            &&& optional_text_fits(m->server_platform)
            &&& version != QUACK_V3 ==> m->ConnectionResponse_heartbeat_timeout_seconds is None
        },
        QuackMessageView::PrepareRequest { .. } => {
            &&& text_fits(m->sql)
            &&& version != QUACK_V3 ==> m->query_uuid is None && m->inline_rows is None
        },
        QuackMessageView::PrepareResponse { .. } => {
            &&& types_in_order(m->result_types)
            &&& names_fit(m->result_names)
            &&& results_in_form(m->PrepareResponse_results)
        },
        QuackMessageView::FetchRequest { .. } => version != QUACK_V3
            ==> m->FetchRequest_batch_index is None && m->ack_index is None,
        QuackMessageView::FetchResponse { .. } => {
            &&& results_in_form(m->FetchResponse_results)
            &&& version != QUACK_V3 ==> m->total_batches is None
                && m->FetchResponse_batch_index is None
        },
        QuackMessageView::AppendRequest { .. } => {
            &&& optional_text_fits(m->schema_name)
            &&& text_fits(m->table_name)
            &&& payload_in_form(m->append_chunk)
        },
        QuackMessageView::ErrorResponse { .. } => text_fits(m->message),
        _ => true,
    }
}

proof fn lemma_body(version: u64, m: QuackMessageView, rest: Seq<u8>)
    requires
        message_in_form(version, m),
    ensures
        read_body(version, m.header(), body_bytes(version, m) + rest) == Ok::<
            (QuackMessageView, Seq<u8>),
            QuackErrorView,
        >((m, rest)),
{
    match m {
        QuackMessageView::ConnectionRequest { .. } => {
            lemma_connection_request(version, m, rest);
        },
        QuackMessageView::ConnectionResponse { .. } => {
            lemma_connection_response(version, m, rest);
        },
        QuackMessageView::PrepareRequest { .. } => {
            lemma_prepare_request(version, m, rest);
        },
        QuackMessageView::PrepareResponse { .. } => {
            lemma_prepare_response(version, m, rest);
        },
        QuackMessageView::FetchRequest { .. } => {
            lemma_fetch_request(version, m, rest);
        },
        QuackMessageView::FetchResponse { .. } => {
            lemma_fetch_response(version, m, rest);
        },
        QuackMessageView::AppendRequest { .. } => {
            lemma_append_request(version, m, rest);
        },
        QuackMessageView::ErrorResponse { .. } => {
            lemma_error_response(m, rest);
        },
        _ => {
            lemma_end_begins(rest, FIRST);
        },
    }
}

/// A message that is in its form is read back.
pub proof fn law_message_is_read_back(version: u64, m: QuackMessageView)
    requires
        message_in_form(version, m),
    ensures
        read_message(version, message_bytes(version, m)) == Ok::<QuackMessageView, QuackErrorView>(
            m,
        ),
{
    let body = body_bytes(version, m);
    lemma_read_header(m.header(), body);
    lemma_body(version, m, seq![]);
    assert(body + seq![] =~= body);
}

/// Nothing may follow a message: if anything does, it is refused, and told how
/// much it is.
#[verifier::rlimit(40)]
pub proof fn law_nothing_may_follow_a_message(version: u64, m: QuackMessageView, extra: Seq<u8>)
    requires
        message_in_form(version, m),
        extra.len() > 0,
    ensures
        read_message(version, message_bytes(version, m) + extra) == Err::<QuackMessageView, _>(
            trailing_bytes(extra.len()),
        ),
{
    let body = body_bytes(version, m);
    lemma_read_header(m.header(), body + extra);
    lemma_body(version, m, extra);
    assert(message_bytes(version, m) + extra =~= header_bytes(m.header()) + (body + extra));
}

// ---------------------------------------------------------------------------
// The form of a message in a version
// ---------------------------------------------------------------------------
/// What is wrong with the first type that has no wire form, from one of them
/// on.
pub open spec fn types_checked(types: Seq<LogicalTypeView>, from: nat) -> Result<
    (),
    QuackErrorView,
>
    decreases types.len() - from,
{
    if from >= types.len() {
        Ok(())
    } else if type_in_order(types[from as int]) {
        types_checked(types, from + 1)
    } else {
        Err(unsupported_type(types[from as int].id.spec_code() as nat))
    }
}

/// The error of a message whose header states another kind than its body has.
pub open spec fn kinds_differ(stated: MessageType, kind: MessageType) -> QuackErrorView {
    QuackErrorView::Protocol(
        "message header states "@ + stated.spec_name() + " for a body of "@ + kind.spec_name(),
    )
}

/// What a message comes to in a version, or what is wrong with it.
pub open spec fn message_form(version: u64, m: QuackMessageView) -> Result<
    QuackMessageView,
    QuackErrorView,
> {
    if version != QUACK_V1 && version != QUACK_V3 {
        Err(unknown_version(version))
    } else if m.header().message_type != m.kind() {
        Err(kinds_differ(m.header().message_type, m.kind()))
    } else if !in_version(m.kind(), version) {
        Err(not_in_version(m.kind(), version))
    } else {
        match m {
            QuackMessageView::ConnectionRequest {
                header,
                auth_string,
                client_duckdb_version,
                client_platform,
                min_supported_quack_version,
                max_supported_quack_version,
                client_id,
                heartbeat_timeout_seconds,
            } => if version == QUACK_V3 {
                Ok(m)
            } else {
                Ok(
                    QuackMessageView::ConnectionRequest {
                        header,
                        auth_string,
                        client_duckdb_version,
                        client_platform,
                        min_supported_quack_version,
                        max_supported_quack_version,
                        client_id: None,
                        heartbeat_timeout_seconds: 0,
                    },
                )
            },
            QuackMessageView::ConnectionResponse {
                header,
                server_duckdb_version,
                server_platform,
                quack_version,
                heartbeat_timeout_seconds,
            } => if version == QUACK_V3 {
                Ok(m)
            } else {
                Ok(
                    QuackMessageView::ConnectionResponse {
                        header,
                        server_duckdb_version,
                        server_platform,
                        quack_version,
                        heartbeat_timeout_seconds: None,
                    },
                )
            },
            QuackMessageView::PrepareRequest { header, sql, query_uuid, inline_rows } => if version
                == QUACK_V3 {
                Ok(m)
            } else {
                Ok(
                    QuackMessageView::PrepareRequest {
                        header,
                        sql,
                        query_uuid: None,
                        inline_rows: None,
                    },
                )
            },
            QuackMessageView::PrepareResponse {
                header,
                result_types,
                result_names,
                needs_more_fetch,
                results,
                result_uuid,
            } => match types_checked(result_types, 0) {
                Err(error) => Err(error),
                Ok(_) => match results_form(results, 0) {
                    Err(error) => Err(error),
                    Ok(results) => Ok(
                        QuackMessageView::PrepareResponse {
                            header,
                            result_types,
                            result_names,
                            needs_more_fetch,
                            results,
                            result_uuid,
                        },
                    ),
                },
            },
            QuackMessageView::FetchRequest { header, result_uuid, batch_index, ack_index } => if version
                == QUACK_V3 {
                Ok(m)
            } else {
                Ok(
                    QuackMessageView::FetchRequest {
                        header,
                        result_uuid,
                        batch_index: None,
                        ack_index: None,
                    },
                )
            },
            QuackMessageView::FetchResponse {
                header,
                results,
                total_batches,
                batch_index,
            } => match results_form(results, 0) {
                Err(error) => Err(error),
                Ok(results) => Ok(
                    QuackMessageView::FetchResponse {
                        header,
                        results,
                        total_batches: if version == QUACK_V3 {
                            total_batches
                        } else {
                            None
                        },
                        batch_index: if version == QUACK_V3 {
                            batch_index
                        } else {
                            None
                        },
                    },
                ),
            },
            QuackMessageView::AppendRequest {
                header,
                schema_name,
                table_name,
                append_chunk,
            } => match chunk_form(append_chunk) {
                Err(error) => Err(error),
                Ok(append_chunk) => Ok(
                    QuackMessageView::AppendRequest {
                        header,
                        schema_name,
                        table_name,
                        append_chunk,
                    },
                ),
            },
            _ => Ok(m),
        }
    }
}

/// Whether what a message holds can be counted.
pub open spec fn message_countable(m: QuackMessageView) -> bool {
    &&& optional_text_fits(m.header().connection_id)
    &&& match m {
        QuackMessageView::ConnectionRequest { .. } => {
            &&& optional_text_fits(m->auth_string)
            &&& optional_text_fits(m->client_duckdb_version)
            &&& optional_text_fits(m->client_platform)
            &&& optional_text_fits(m->client_id)
        },
        QuackMessageView::ConnectionResponse { .. } => {
            &&& optional_text_fits(m->server_duckdb_version)
            &&& optional_text_fits(m->server_platform)
        },
        QuackMessageView::PrepareRequest { .. } => text_fits(m->sql),
        QuackMessageView::PrepareResponse { .. } => {
            &&& m->result_types.len() <= u64::MAX
            &&& names_fit(m->result_names)
            &&& results_countable(m->PrepareResponse_results)
        },
        QuackMessageView::FetchResponse { .. } => results_countable(m->FetchResponse_results),
        QuackMessageView::AppendRequest { .. } => {
            &&& optional_text_fits(m->schema_name)
            &&& text_fits(m->table_name)
            &&& payload_countable(m->append_chunk)
        },
        QuackMessageView::ErrorResponse { .. } => text_fits(m->message),
        _ => true,
    }
}

proof fn lemma_types_checked(types: Seq<LogicalTypeView>, from: nat)
    requires
        from <= types.len(),
    ensures
        types_checked(types, from) is Ok <==> forall|j: int|
            from <= j < types.len() ==> type_in_order(#[trigger] types[j]),
    decreases types.len() - from,
{
    if from < types.len() {
        lemma_types_checked(types, from + 1);
        if !type_in_order(types[from as int]) {
            assert(!(forall|j: int|
                from <= j < types.len() ==> type_in_order(#[trigger] types[j])));
        } else {
            assert forall|j: int|
                (forall|k: int|
                    from + 1 <= k < types.len() ==> type_in_order(#[trigger] types[k])) && from <= j
                    < types.len() implies type_in_order(#[trigger] types[j]) by {}
        }
    }
}

/// What is decoded in a version is what was encoded in it, in its form there:
/// for every message that can be encoded.
pub proof fn law_message_comes_back_in_form(version: u64, m: QuackMessageView)
    requires
        message_form(version, m) is Ok,
        message_countable(message_form(version, m)->Ok_0),
    ensures
        read_message(version, message_bytes(version, message_form(version, m)->Ok_0)) == Ok::<
            QuackMessageView,
            QuackErrorView,
        >(message_form(version, m)->Ok_0),
{
    let form = message_form(version, m)->Ok_0;
    match m {
        QuackMessageView::PrepareResponse { result_types, results, .. } => {
            lemma_types_checked(result_types, 0);
            lemma_results_in_form(results);
        },
        QuackMessageView::FetchResponse { results, .. } => {
            lemma_results_in_form(results);
        },
        QuackMessageView::AppendRequest { append_chunk, .. } => {
            lemma_payload_in_form(append_chunk);
        },
        _ => {},
    }
    law_message_is_read_back(version, form);
}

/// A message of version 3 without chunks comes back as it is.
pub proof fn law_version_3_keeps_every_field(m: QuackMessageView)
    requires
        m.header().message_type == m.kind(),
        !(m is PrepareResponse),
        !(m is FetchResponse),
        !(m is AppendRequest),
    ensures
        message_form(QUACK_V3, m) == Ok::<QuackMessageView, QuackErrorView>(m),
{
}

/// In version 1 the lease of a connection, the name of a query, the numbers of
/// batches and the rows asked for inline are all left out, and there is no
/// heartbeat.
pub proof fn law_version_1_leaves_out_what_it_does_not_have(m: QuackMessageView)
    requires
        message_form(QUACK_V1, m) is Ok,
    ensures
        ({
            let form = message_form(QUACK_V1, m)->Ok_0;
            &&& form.header() == m.header()
            &&& form is ConnectionRequest ==> form->client_id is None
                && form->ConnectionRequest_heartbeat_timeout_seconds == 0
            &&& form is ConnectionResponse
                ==> form->ConnectionResponse_heartbeat_timeout_seconds is None
            &&& form is PrepareRequest ==> form->query_uuid is None && form->inline_rows is None
            &&& form is FetchRequest ==> form->FetchRequest_batch_index is None
                && form->ack_index is None
            &&& form is FetchResponse ==> form->total_batches is None
                && form->FetchResponse_batch_index is None
            &&& !(form is HeartbeatRequest)
        }),
{
}

// ---------------------------------------------------------------------------
// Writing
// ---------------------------------------------------------------------------
fn check_types(types: &Vec<LogicalType>) -> (result: Result<(), QuackError>)
    ensures
        plain_result(result) == types_checked(views(types@), 0),
{
    let ghost ts = views(types@);
    let mut i: usize = 0;
    while i < types.len()
        invariant
            i <= types@.len(),
            ts == views(types@),
            types_checked(ts, 0) == types_checked(ts, i as nat),
        decreases types@.len() - i,
    {
        assert(ts[i as int] == types@[i as int]@);
        if !is_type_in_order(&types[i]) {
            return Err(unsupported_type_error(types[i].id.code() as u64));
        }
        i += 1;
    }
    Ok(())
}

/// Whether writing a body did what it should: it wrote the bytes of the form,
/// or it failed as the form does.
pub open spec fn writes_form(
    version: u64,
    m: QuackMessageView,
    result: Result<(), QuackError>,
    before: Seq<u8>,
    after: Seq<u8>,
) -> bool {
    match result {
        Ok(_) => message_form(version, m) is Ok && after == before + body_bytes(
            version,
            message_form(version, m)->Ok_0,
        ),
        Err(error) => message_form(version, m) == Err::<QuackMessageView, QuackErrorView>(error@),
    }
}

/// Whether a message can be written at all in a version.
pub open spec fn writable(version: u64, m: QuackMessageView) -> bool {
    &&& version == QUACK_V1 || version == QUACK_V3
    &&& m.header().message_type == m.kind()
    &&& in_version(m.kind(), version)
}

fn write_connection_request(writer: &mut BinaryWriter, version: u64, message: &QuackMessage)
    requires
        message@ is ConnectionRequest,
        writable(version, message@),
    ensures
        writes_form(version, message@, Ok(()), old(writer)@, final(writer)@),
{
    if let QuackMessage::ConnectionRequest {
        header: _,
        auth_string,
        client_duckdb_version,
        client_platform,
        min_supported_quack_version,
        max_supported_quack_version,
        client_id,
        heartbeat_timeout_seconds,
    } = message {
        write_optional_text(writer, FIRST, auth_string);
        write_optional_text(writer, SECOND, client_duckdb_version);
        write_optional_text(writer, THIRD, client_platform);
        write_number(writer, FOURTH, *min_supported_quack_version);
        write_number(writer, FIFTH, *max_supported_quack_version);
        let ghost before = writer@;
        let ghost form = message_form(version, message@)->Ok_0;
        let ghost lease = lease_bytes(
            version,
            form->client_id,
            form->ConnectionRequest_heartbeat_timeout_seconds,
        );
        if version == QUACK_V3 {
            write_optional_text(writer, SIXTH, client_id);
            write_number(writer, SEVENTH, *heartbeat_timeout_seconds);
            proof {
                lemma_written2(
                    before,
                    optional_bytes(SIXTH, option_view(*client_id), text_writer()),
                    field_bytes(SEVENTH, *heartbeat_timeout_seconds, uleb_writer()),
                );
            }
        } else {
            assert(before + lease =~= before);
        }
        writer.end_object();
        proof {
            let p1 = optional_bytes(FIRST, form->auth_string, text_writer());
            lemma_written6(
                old(writer)@ + p1,
                optional_bytes(SECOND, form->client_duckdb_version, text_writer()),
                optional_bytes(THIRD, form->client_platform, text_writer()),
                field_bytes(FOURTH, form->min_supported_quack_version, uleb_writer()),
                field_bytes(FIFTH, form->max_supported_quack_version, uleb_writer()),
                lease,
                object_end(),
            );
            lemma_joined_bytes(
                old(writer)@,
                p1,
                optional_bytes(SECOND, form->client_duckdb_version, text_writer()) + (
                optional_bytes(THIRD, form->client_platform, text_writer()) + (field_bytes(
                    FOURTH,
                    form->min_supported_quack_version,
                    uleb_writer(),
                ) + (field_bytes(FIFTH, form->max_supported_quack_version, uleb_writer()) + (lease
                    + object_end())))),
            );
        }
    }
}

fn write_connection_response(writer: &mut BinaryWriter, version: u64, message: &QuackMessage)
    requires
        message@ is ConnectionResponse,
        writable(version, message@),
    ensures
        writes_form(version, message@, Ok(()), old(writer)@, final(writer)@),
{
    if let QuackMessage::ConnectionResponse {
        header: _,
        server_duckdb_version,
        server_platform,
        quack_version,
        heartbeat_timeout_seconds,
    } = message {
        let seconds: Option<u64> = if version == QUACK_V3 {
            *heartbeat_timeout_seconds
        } else {
            None
        };
        write_optional_text(writer, FIRST, server_duckdb_version);
        write_optional_text(writer, SECOND, server_platform);
        write_optional_number(writer, THIRD, *quack_version);
        write_optional_number(writer, FOURTH, seconds);
        writer.end_object();
        proof {
            lemma_written5(
                old(writer)@,
                optional_bytes(FIRST, option_view(*server_duckdb_version), text_writer()),
                optional_bytes(SECOND, option_view(*server_platform), text_writer()),
                optional_bytes(THIRD, *quack_version, uleb_writer()),
                optional_bytes(FOURTH, seconds, uleb_writer()),
                object_end(),
            );
        }
    }
}

fn write_prepare_request(writer: &mut BinaryWriter, version: u64, message: &QuackMessage)
    requires
        message@ is PrepareRequest,
        writable(version, message@),
    ensures
        writes_form(version, message@, Ok(()), old(writer)@, final(writer)@),
{
    if let QuackMessage::PrepareRequest { header: _, sql, query_uuid, inline_rows } = message {
        let (uuid, rows): (Option<HugeIntParts>, Option<u64>) = if version == QUACK_V3 {
            (*query_uuid, *inline_rows)
        } else {
            (None, None)
        };
        write_text(writer, FIRST, sql.as_str());
        write_optional_huge_int(writer, SECOND, uuid);
        write_optional_number(writer, THIRD, rows);
        writer.end_object();
        proof {
            lemma_written4(
                old(writer)@,
                field_bytes(FIRST, sql@, text_writer()),
                optional_bytes(SECOND, uuid, huge_int_writer()),
                optional_bytes(THIRD, rows, uleb_writer()),
                object_end(),
            );
        }
    }
}

fn write_results_field(
    writer: &mut BinaryWriter,
    id: u16,
    chunks: &Vec<crate::value::DataChunk>,
    version: u64,
) -> (result: Result<(), QuackError>)
    ensures
        match result {
            Ok(_) => results_form(views(chunks@), 0) is Ok && final(writer)@ == old(writer)@
                + field_bytes(id, results_form(views(chunks@), 0)->Ok_0, results_writer(version)),
            Err(error) => results_form(views(chunks@), 0) == Err::<Seq<DataChunkView>, _>(error@),
        },
{
    writer.write_field(id);
    let result = write_results(writer, chunks, version);
    proof {
        if let Ok(forms) = results_form(views(chunks@), 0) {
            lemma_written2(
                old(writer)@,
                crate::binary::field_id(id),
                results_bytes(forms, version),
            );
        }
    }
    result
}

fn write_prepare_response(writer: &mut BinaryWriter, version: u64, message: &QuackMessage) -> (result:
    Result<(), QuackError>)
    requires
        message@ is PrepareResponse,
        writable(version, message@),
    ensures
        writes_form(version, message@, result, old(writer)@, final(writer)@),
{
    if let QuackMessage::PrepareResponse {
        header: _,
        result_types,
        result_names,
        needs_more_fetch,
        results,
        result_uuid,
    } = message {
        if let Err(error) = check_types(result_types) {
            return Err(error);
        }
        proof {
            lemma_types_checked(views(result_types@), 0);
            assert forall|j: int| 0 <= j < result_types@.len() implies type_in_order(
                (#[trigger] result_types@[j])@,
            ) by {
                assert(type_in_order(views(result_types@)[j]));
            }
        }
        writer.write_field(FIRST);
        write_types(writer, result_types);
        proof {
            lemma_written2(
                old(writer)@,
                crate::binary::field_id(FIRST),
                types_bytes(views(result_types@)),
            );
        }
        let ghost after_types = writer@;
        writer.write_field(SECOND);
        write_names(writer, result_names);
        proof {
            lemma_written2(
                after_types,
                crate::binary::field_id(SECOND),
                names_bytes(views(result_names@)),
            );
        }
        write_flag(writer, THIRD, *needs_more_fetch);
        if let Err(error) = write_results_field(writer, FOURTH, results, version) {
            return Err(error);
        }
        write_huge_int(writer, FIFTH, *result_uuid);
        writer.end_object();
        proof {
            lemma_written6(
                old(writer)@,
                field_bytes(FIRST, views(result_types@), types_writer()),
                field_bytes(SECOND, views(result_names@), names_writer()),
                field_bytes(THIRD, *needs_more_fetch, flag_writer()),
                field_bytes(
                    FOURTH,
                    results_form(views(results@), 0)->Ok_0,
                    results_writer(version),
                ),
                field_bytes(FIFTH, *result_uuid, huge_int_writer()),
                object_end(),
            );
        }
    }
    Ok(())
}

fn write_fetch_request(writer: &mut BinaryWriter, version: u64, message: &QuackMessage)
    requires
        message@ is FetchRequest,
        writable(version, message@),
    ensures
        writes_form(version, message@, Ok(()), old(writer)@, final(writer)@),
{
    if let QuackMessage::FetchRequest { header: _, result_uuid, batch_index, ack_index } = message {
        let (batch, ack): (Option<u64>, Option<u64>) = if version == QUACK_V3 {
            (*batch_index, *ack_index)
        } else {
            (None, None)
        };
        write_huge_int(writer, FIRST, *result_uuid);
        write_optional_number(writer, SECOND, batch);
        write_optional_number(writer, THIRD, ack);
        writer.end_object();
        proof {
            lemma_written4(
                old(writer)@,
                field_bytes(FIRST, *result_uuid, huge_int_writer()),
                optional_bytes(SECOND, batch, uleb_writer()),
                optional_bytes(THIRD, ack, uleb_writer()),
                object_end(),
            );
        }
    }
}

fn write_fetch_response(writer: &mut BinaryWriter, version: u64, message: &QuackMessage) -> (result:
    Result<(), QuackError>)
    requires
        message@ is FetchResponse,
        writable(version, message@),
    ensures
        writes_form(version, message@, result, old(writer)@, final(writer)@),
{
    if let QuackMessage::FetchResponse { header: _, results, total_batches, batch_index } = message {
        let (total, batch): (Option<u64>, Option<u64>) = if version == QUACK_V3 {
            (*total_batches, *batch_index)
        } else {
            (None, None)
        };
        if let Err(error) = write_results_field(writer, FIRST, results, version) {
            return Err(error);
        }
        write_optional_number(writer, SECOND, total);
        write_optional_number(writer, THIRD, batch);
        writer.end_object();
        proof {
            lemma_written4(
                old(writer)@,
                field_bytes(
                    FIRST,
                    results_form(views(results@), 0)->Ok_0,
                    results_writer(version),
                ),
                optional_bytes(SECOND, total, uleb_writer()),
                optional_bytes(THIRD, batch, uleb_writer()),
                object_end(),
            );
        }
    }
    Ok(())
}

fn write_append_request(writer: &mut BinaryWriter, version: u64, message: &QuackMessage) -> (result:
    Result<(), QuackError>)
    requires
        message@ is AppendRequest,
        writable(version, message@),
    ensures
        writes_form(version, message@, result, old(writer)@, final(writer)@),
{
    if let QuackMessage::AppendRequest { header: _, schema_name, table_name, append_chunk } = message {
        write_optional_text(writer, FIRST, schema_name);
        write_text(writer, SECOND, table_name.as_str());
        let ghost before = writer@;
        writer.write_field(THIRD);
        if let Err(error) = write_payload(writer, append_chunk, version) {
            return Err(error);
        }
        let ghost form = chunk_form(append_chunk@)->Ok_0;
        proof {
            lemma_written2(
                before,
                crate::binary::field_id(THIRD),
                payload_bytes(form, version),
            );
        }
        writer.end_object();
        proof {
            lemma_written4(
                old(writer)@,
                optional_bytes(FIRST, option_view(*schema_name), text_writer()),
                field_bytes(SECOND, table_name@, text_writer()),
                field_bytes(THIRD, form, payload_writer(version)),
                object_end(),
            );
        }
    }
    Ok(())
}

fn write_body(writer: &mut BinaryWriter, version: u64, message: &QuackMessage) -> (result: Result<
    (),
    QuackError,
>)
    requires
        writable(version, message@),
    ensures
        writes_form(version, message@, result, old(writer)@, final(writer)@),
{
    match message {
        QuackMessage::ConnectionRequest { .. } => {
            write_connection_request(writer, version, message);
        },
        QuackMessage::ConnectionResponse { .. } => {
            write_connection_response(writer, version, message);
        },
        QuackMessage::PrepareRequest { .. } => {
            write_prepare_request(writer, version, message);
        },
        QuackMessage::PrepareResponse { .. } => {
            return write_prepare_response(writer, version, message);
        },
        QuackMessage::FetchRequest { .. } => {
            write_fetch_request(writer, version, message);
        },
        QuackMessage::FetchResponse { .. } => {
            return write_fetch_response(writer, version, message);
        },
        QuackMessage::AppendRequest { .. } => {
            return write_append_request(writer, version, message);
        },
        QuackMessage::ErrorResponse { header: _, message: text } => {
            write_text(writer, FIRST, text.as_str());
            writer.end_object();
            proof {
                lemma_written2(
                    old(writer)@,
                    field_bytes(FIRST, text@, text_writer()),
                    object_end(),
                );
            }
        },
        _ => {
            writer.end_object();
        },
    }
    Ok(())
}

fn has_kind(kind: MessageType, version: u64) -> (b: bool)
    ensures
        b == in_version(kind, version),
{
    match kind {
        MessageType::SendDataRequest => version == QUACK_V1,
        MessageType::HeartbeatRequest => version == QUACK_V3,
        _ => true,
    }
}

fn not_in_version_error(kind: MessageType, version: u64) -> (error: QuackError)
    ensures
        error@ == not_in_version(kind, version),
{
    QuackError::Protocol(
        joined(
            joined(kind.name(), " is not part of Quack protocol version ").as_str(),
            decimal_text(version as u128).as_str(),
        ),
    )
}

fn check_version(version: u64) -> (result: Result<(), QuackError>)
    ensures
        plain_result(result) == if version == QUACK_V1 || version == QUACK_V3 {
            Ok(())
        } else {
            Err(unknown_version(version))
        },
{
    if version == QUACK_V1 || version == QUACK_V3 {
        Ok(())
    } else {
        Err(
            QuackError::Protocol(
                joined(
                    "unsupported Quack protocol version ",
                    decimal_text(version as u128).as_str(),
                ),
            ),
        )
    }
}

/// The bytes of a message in a protocol version.
pub fn encode_message_for_version(message: &QuackMessage, version: u64) -> (bytes: Result<
    Vec<u8>,
    QuackError,
>)
    ensures
        match bytes {
            Ok(bytes) => message_form(version, message@) is Ok && bytes@ == message_bytes(
                version,
                message_form(version, message@)->Ok_0,
            ),
            Err(error) => message_form(version, message@) == Err::<QuackMessageView, _>(error@),
        },
{
    if let Err(error) = check_version(version) {
        return Err(error);
    }
    let stated = message.message_type();
    let kind = message.kind();
    if stated != kind {
        return Err(
            QuackError::Protocol(
                joined(
                    joined(
                        joined("message header states ", stated.name()).as_str(),
                        " for a body of ",
                    ).as_str(),
                    kind.name(),
                ),
            ),
        );
    }
    if !has_kind(kind, version) {
        return Err(not_in_version_error(kind, version));
    }
    let mut writer = BinaryWriter::new();
    write_header(&mut writer, message.header());
    if let Err(error) = write_body(&mut writer, version, message) {
        return Err(error);
    }
    let bytes = writer.into_bytes();
    proof {
        let form = message_form(version, message@)->Ok_0;
        assert(form.header() == message@.header());
        assert(Seq::<u8>::empty() + header_bytes(form.header()) =~= header_bytes(form.header()));
    }
    Ok(bytes)
}

/// The bytes of a message in the newest protocol version.
pub fn encode_message(message: &QuackMessage) -> (bytes: Result<Vec<u8>, QuackError>)
    ensures
        match bytes {
            Ok(bytes) => message_form(QUACK_V3, message@) is Ok && bytes@ == message_bytes(
                QUACK_V3,
                message_form(QUACK_V3, message@)->Ok_0,
            ),
            Err(error) => message_form(QUACK_V3, message@) == Err::<QuackMessageView, _>(error@),
        },
{
    encode_message_for_version(message, QUACK_V3)
}

// ---------------------------------------------------------------------------
// Reading
// ---------------------------------------------------------------------------
fn decode_connection_request(reader: &mut BinaryReader, version: u64, header: MessageHeader) -> (m:
    Result<QuackMessage, QuackError>)
    ensures
        reads_view(m, final(reader)@, read_connection_request(version, header@, old(reader)@)),
{
    let auth_string = match decode_optional_text(reader, FIRST) {
        Ok(text) => text,
        Err(error) => {
            return Err(error);
        },
    };
    let client_duckdb_version = match decode_optional_text(reader, SECOND) {
        Ok(text) => text,
        Err(error) => {
            return Err(error);
        },
    };
    let client_platform = match decode_optional_text(reader, THIRD) {
        Ok(text) => text,
        Err(error) => {
            return Err(error);
        },
    };
    let min_supported_quack_version: u64 = match decode_number_field(reader, FOURTH) {
        Ok(n) => n,
        Err(error) => {
            return Err(error);
        },
    };
    let max_supported_quack_version: u64 = match decode_number_field(reader, FIFTH) {
        Ok(n) => n,
        Err(error) => {
            return Err(error);
        },
    };
    let (client_id, heartbeat_timeout_seconds): (Option<String>, u64) = if version == QUACK_V3 {
        let client_id = match decode_optional_text(reader, SIXTH) {
            Ok(text) => text,
            Err(error) => {
                return Err(error);
            },
        };
        match decode_number_field(reader, SEVENTH) {
            Ok(seconds) => (client_id, seconds),
            Err(error) => {
                return Err(error);
            },
        }
    } else {
        (None, 0)
    };
    if let Err(error) = reader.read_object_end() {
        return Err(error);
    }
    Ok(
        QuackMessage::ConnectionRequest {
            header,
            auth_string,
            client_duckdb_version,
            client_platform,
            min_supported_quack_version,
            max_supported_quack_version,
            client_id,
            heartbeat_timeout_seconds,
        },
    )
}

fn decode_connection_response(reader: &mut BinaryReader, version: u64, header: MessageHeader) -> (m:
    Result<QuackMessage, QuackError>)
    ensures
        reads_view(m, final(reader)@, read_connection_response(version, header@, old(reader)@)),
{
    let server_duckdb_version = match decode_optional_text(reader, FIRST) {
        Ok(text) => text,
        Err(error) => {
            return Err(error);
        },
    };
    let server_platform = match decode_optional_text(reader, SECOND) {
        Ok(text) => text,
        Err(error) => {
            return Err(error);
        },
    };
    let quack_version: Option<u64> = match decode_optional_number(reader, THIRD) {
        Ok(n) => n,
        Err(error) => {
            return Err(error);
        },
    };
    let heartbeat_timeout_seconds: Option<u64> = match decode_v3_number(reader, version, FOURTH) {
        Ok(n) => n,
        Err(error) => {
            return Err(error);
        },
    };
    if let Err(error) = reader.read_object_end() {
        return Err(error);
    }
    Ok(
        QuackMessage::ConnectionResponse {
            header,
            server_duckdb_version,
            server_platform,
            quack_version,
            heartbeat_timeout_seconds,
        },
    )
}

fn decode_prepare_request(reader: &mut BinaryReader, version: u64, header: MessageHeader) -> (m:
    Result<QuackMessage, QuackError>)
    ensures
        reads_view(m, final(reader)@, read_prepare_request(version, header@, old(reader)@)),
{
    let sql = match decode_text(reader, FIRST) {
        Ok(sql) => sql,
        Err(error) => {
            return Err(error);
        },
    };
    let query_uuid: Option<HugeIntParts> = if version == QUACK_V3 {
        match decode_optional_huge_int(reader, SECOND) {
            Ok(uuid) => uuid,
            Err(error) => {
                return Err(error);
            },
        }
    } else {
        None
    };
    let inline_rows: Option<u64> = match decode_v3_number(reader, version, THIRD) {
        Ok(n) => n,
        Err(error) => {
            return Err(error);
        },
    };
    if let Err(error) = reader.read_object_end() {
        return Err(error);
    }
    Ok(QuackMessage::PrepareRequest { header, sql, query_uuid, inline_rows })
}

fn decode_results_field(reader: &mut BinaryReader, id: u16, version: u64) -> (chunks: Result<
    Vec<crate::value::DataChunk>,
    QuackError,
>)
    ensures
        match chunks {
            Ok(chunks) => read_field(old(reader)@, id, results_reader(version)) == Ok::<
                (Seq<DataChunkView>, Seq<u8>),
                QuackErrorView,
            >((views(chunks@), final(reader)@)),
            Err(error) => read_field(old(reader)@, id, results_reader(version)) == Err::<
                (Seq<DataChunkView>, Seq<u8>),
                QuackErrorView,
            >(error@),
        },
{
    match reader.read_required_field(id) {
        Ok(_) => decode_results(reader, version),
        Err(error) => Err(error),
    }
}

fn decode_prepare_response(reader: &mut BinaryReader, version: u64, header: MessageHeader) -> (m:
    Result<QuackMessage, QuackError>)
    ensures
        reads_view(m, final(reader)@, read_prepare_response(version, header@, old(reader)@)),
{
    if let Err(error) = reader.read_required_field(FIRST) {
        return Err(error);
    }
    let result_types = match decode_types(reader) {
        Ok(types) => types,
        Err(error) => {
            return Err(error);
        },
    };
    if let Err(error) = reader.read_required_field(SECOND) {
        return Err(error);
    }
    let result_names = match decode_names(reader) {
        Ok(names) => names,
        Err(error) => {
            return Err(error);
        },
    };
    let needs_more_fetch = match decode_flag(reader, THIRD) {
        Ok(b) => b,
        Err(error) => {
            return Err(error);
        },
    };
    let results = match decode_results_field(reader, FOURTH, version) {
        Ok(results) => results,
        Err(error) => {
            return Err(error);
        },
    };
    let result_uuid = match decode_huge_int(reader, FIFTH) {
        Ok(uuid) => uuid,
        Err(error) => {
            return Err(error);
        },
    };
    if let Err(error) = reader.read_object_end() {
        return Err(error);
    }
    Ok(
        QuackMessage::PrepareResponse {
            header,
            result_types,
            result_names,
            needs_more_fetch,
            results,
            result_uuid,
        },
    )
}

fn decode_fetch_request(reader: &mut BinaryReader, version: u64, header: MessageHeader) -> (m:
    Result<QuackMessage, QuackError>)
    ensures
        reads_view(m, final(reader)@, read_fetch_request(version, header@, old(reader)@)),
{
    let result_uuid = match decode_huge_int(reader, FIRST) {
        Ok(uuid) => uuid,
        Err(error) => {
            return Err(error);
        },
    };
    let batch_index: Option<u64> = match decode_v3_number(reader, version, SECOND) {
        Ok(n) => n,
        Err(error) => {
            return Err(error);
        },
    };
    let ack_index: Option<u64> = match decode_v3_number(reader, version, THIRD) {
        Ok(n) => n,
        Err(error) => {
            return Err(error);
        },
    };
    if let Err(error) = reader.read_object_end() {
        return Err(error);
    }
    Ok(QuackMessage::FetchRequest { header, result_uuid, batch_index, ack_index })
}

fn decode_fetch_response(reader: &mut BinaryReader, version: u64, header: MessageHeader) -> (m:
    Result<QuackMessage, QuackError>)
    ensures
        reads_view(m, final(reader)@, read_fetch_response(version, header@, old(reader)@)),
{
    let results = match decode_results_field(reader, FIRST, version) {
        Ok(results) => results,
        Err(error) => {
            return Err(error);
        },
    };
    let total_batches: Option<u64> = match decode_v3_number(reader, version, SECOND) {
        Ok(n) => n,
        Err(error) => {
            return Err(error);
        },
    };
    let batch_index: Option<u64> = match decode_v3_number(reader, version, THIRD) {
        Ok(n) => n,
        Err(error) => {
            return Err(error);
        },
    };
    if let Err(error) = reader.read_object_end() {
        return Err(error);
    }
    Ok(QuackMessage::FetchResponse { header, results, total_batches, batch_index })
}

fn decode_append_request(reader: &mut BinaryReader, version: u64, header: MessageHeader) -> (m:
    Result<QuackMessage, QuackError>)
    ensures
        reads_view(m, final(reader)@, read_append_request(version, header@, old(reader)@)),
{
    let schema_name = match decode_optional_text(reader, FIRST) {
        Ok(text) => text,
        Err(error) => {
            return Err(error);
        },
    };
    let table_name = match decode_text(reader, SECOND) {
        Ok(text) => text,
        Err(error) => {
            return Err(error);
        },
    };
    if let Err(error) = reader.read_required_field(THIRD) {
        return Err(error);
    }
    let append_chunk = match decode_payload(reader, version) {
        Ok(chunk) => chunk,
        Err(error) => {
            return Err(error);
        },
    };
    if let Err(error) = reader.read_object_end() {
        return Err(error);
    }
    Ok(QuackMessage::AppendRequest { header, schema_name, table_name, append_chunk })
}

fn decode_empty(reader: &mut BinaryReader, message: QuackMessage) -> (m: Result<
    QuackMessage,
    QuackError,
>)
    ensures
        reads_view(m, final(reader)@, read_empty(message@, old(reader)@)),
{
    match reader.read_object_end() {
        Ok(_) => Ok(message),
        Err(error) => Err(error),
    }
}

fn decode_body(reader: &mut BinaryReader, version: u64, header: MessageHeader) -> (m: Result<
    QuackMessage,
    QuackError,
>)
    ensures
        reads_view(m, final(reader)@, read_body(version, header@, old(reader)@)),
{
    let kind = header.message_type;
    if !has_kind(kind, version) {
        return Err(not_in_version_error(kind, version));
    }
    match kind {
        MessageType::ConnectionRequest => decode_connection_request(reader, version, header),
        MessageType::ConnectionResponse => decode_connection_response(reader, version, header),
        MessageType::PrepareRequest => decode_prepare_request(reader, version, header),
        MessageType::PrepareResponse => decode_prepare_response(reader, version, header),
        MessageType::FetchRequest => decode_fetch_request(reader, version, header),
        MessageType::FetchResponse => decode_fetch_response(reader, version, header),
        MessageType::SendDataRequest => decode_append_request(reader, version, header),
        MessageType::SuccessResponse => decode_empty(
            reader,
            QuackMessage::SuccessResponse { header },
        ),
        MessageType::ErrorResponse => {
            let message = match decode_text(reader, FIRST) {
                Ok(message) => message,
                Err(error) => {
                    return Err(error);
                },
            };
            if let Err(error) = reader.read_object_end() {
                return Err(error);
            }
            Ok(QuackMessage::ErrorResponse { header, message })
        },
        MessageType::DisconnectMessage => decode_empty(reader, QuackMessage::Disconnect { header }),
        MessageType::HeartbeatRequest => decode_empty(
            reader,
            QuackMessage::HeartbeatRequest { header },
        ),
    }
}

/// The message that some bytes hold in a protocol version.
pub fn decode_message_for_version(bytes: &[u8], version: u64) -> (m: Result<
    QuackMessage,
    QuackError,
>)
    ensures
        crate::handshake::outcome_view(m) == read_message(version, bytes@),
{
    if let Err(error) = check_version(version) {
        return Err(error);
    }
    let mut reader = BinaryReader::new(bytes);
    let header = match decode_header(&mut reader) {
        Ok(header) => header,
        Err(error) => {
            return Err(error);
        },
    };
    let message = match decode_body(&mut reader, version, header) {
        Ok(message) => message,
        Err(error) => {
            return Err(error);
        },
    };
    if let Err(error) = reader.assert_eof() {
        return Err(error);
    }
    Ok(message)
}

/// The message that some bytes hold in the newest protocol version.
pub fn decode_message(bytes: &[u8]) -> (m: Result<QuackMessage, QuackError>)
    ensures
        crate::handshake::outcome_view(m) == read_message(QUACK_V3, bytes@),
{
    decode_message_for_version(bytes, QUACK_V3)
}

// ---------------------------------------------------------------------------
// What a message keeps
// ---------------------------------------------------------------------------
/// Whether one message has what another one has, apart from what only the
/// newer version has and from the form of chunks.
pub open spec fn says_the_same(a: QuackMessageView, b: QuackMessageView) -> bool {
    match (a, b) {
        (
            QuackMessageView::ConnectionRequest { .. },
            QuackMessageView::ConnectionRequest { .. },
        ) => {
            &&& a->auth_string == b->auth_string
            &&& a->client_duckdb_version == b->client_duckdb_version
            &&& a->client_platform == b->client_platform
            &&& a->min_supported_quack_version == b->min_supported_quack_version
            &&& a->max_supported_quack_version == b->max_supported_quack_version
        },
        (
            QuackMessageView::ConnectionResponse { .. },
            QuackMessageView::ConnectionResponse { .. },
        ) => {
            &&& a->server_duckdb_version == b->server_duckdb_version
            &&& a->server_platform == b->server_platform
            &&& a->quack_version == b->quack_version
        },
        (QuackMessageView::PrepareRequest { .. }, QuackMessageView::PrepareRequest { .. }) => {
            a->sql == b->sql
        },
        (QuackMessageView::PrepareResponse { .. }, QuackMessageView::PrepareResponse { .. }) => {
            &&& a->result_types == b->result_types
            &&& a->result_names == b->result_names
            &&& a->needs_more_fetch == b->needs_more_fetch
            &&& a->PrepareResponse_result_uuid == b->PrepareResponse_result_uuid
        },
        (QuackMessageView::FetchRequest { .. }, QuackMessageView::FetchRequest { .. }) => {
            a->FetchRequest_result_uuid == b->FetchRequest_result_uuid
        },
        (QuackMessageView::FetchResponse { .. }, QuackMessageView::FetchResponse { .. }) => true,
        (QuackMessageView::AppendRequest { .. }, QuackMessageView::AppendRequest { .. }) => {
            &&& a->schema_name == b->schema_name
            &&& a->table_name == b->table_name
        },
        (QuackMessageView::ErrorResponse { .. }, QuackMessageView::ErrorResponse { .. }) => {
            a->message == b->message
        },
        (QuackMessageView::SuccessResponse { .. }, QuackMessageView::SuccessResponse { .. }) => true,
        (QuackMessageView::Disconnect { .. }, QuackMessageView::Disconnect { .. }) => true,
        (QuackMessageView::HeartbeatRequest { .. }, QuackMessageView::HeartbeatRequest { .. }) => {
            true
        },
        _ => false,
    }
}

/// The chunks that a message carries, in order.
pub open spec fn chunks_of(m: QuackMessageView) -> Seq<DataChunkView> {
    match m {
        QuackMessageView::PrepareResponse { results, .. } => results,
        QuackMessageView::FetchResponse { results, .. } => results,
        QuackMessageView::AppendRequest { append_chunk, .. } => seq![append_chunk],
        _ => seq![],
    }
}

/// In either version a message keeps its kind, its header and what both versions
/// have, and as many chunks as it had, each in its form. The newer version keeps
/// all else too.
pub proof fn law_message_says_the_same_in_its_form(version: u64, m: QuackMessageView, k: int)
    ensures
        message_form(version, m) matches Ok(form) ==> {
            &&& form.header() == m.header()
            &&& says_the_same(form, m)
            &&& chunks_of(form).len() == chunks_of(m).len()
            &&& 0 <= k < chunks_of(m).len() ==> chunk_form(chunks_of(m)[k]) == Ok::<
                DataChunkView,
                QuackErrorView,
            >(chunks_of(form)[k])
            &&& version == 3 && form is FetchResponse ==> form->total_batches == m->total_batches
                && form->FetchResponse_batch_index == m->FetchResponse_batch_index
            &&& version == 3 && chunks_of(m).len() == 0 && !(m is FetchResponse) && !(
            m is PrepareResponse) ==> form == m
        },
{
    if message_form(version, m) is Ok {
        match m {
            QuackMessageView::PrepareResponse { results, .. } => {
                lemma_results_form(results, 0);
                if 0 <= k < results.len() {
                    assert(chunk_form(results[k]) == Ok::<DataChunkView, QuackErrorView>(
                        results_form(results, 0)->Ok_0[k - 0],
                    ));
                }
            },
            QuackMessageView::FetchResponse { results, .. } => {
                lemma_results_form(results, 0);
                if 0 <= k < results.len() {
                    assert(chunk_form(results[k]) == Ok::<DataChunkView, QuackErrorView>(
                        results_form(results, 0)->Ok_0[k - 0],
                    ));
                }
            },
            _ => {},
        }
    }
}

/// A message can be sent exactly if the version is known and has its kind, its
/// header states that kind, and its types and chunks have a form on the wire.
/// Appending is part of the older version only, the heartbeat of the newer one.
pub proof fn law_messages_that_can_be_sent(version: u64, m: QuackMessageView)
    ensures
        message_form(version, m) is Ok <==> {
            &&& version == 1 || version == 3
            &&& m.header().message_type == m.kind()
            &&& m is AppendRequest ==> version == 1
            &&& m is HeartbeatRequest ==> version == 3
            &&& forall|k: int|
                0 <= k < chunks_of(m).len() ==> chunk_form(#[trigger] chunks_of(m)[k]) is Ok
            &&& m is PrepareResponse ==> forall|k: int|
                0 <= k < m->result_types.len() ==> type_in_order(#[trigger] m->result_types[k])
        },
{
    match m {
        QuackMessageView::PrepareResponse { result_types, results, .. } => {
            assert(chunks_of(m) == results);
            lemma_results_form_exactly(results, 0);
            lemma_types_checked_exactly(result_types, 0);
        },
        QuackMessageView::FetchResponse { results, .. } => {
            assert(chunks_of(m) == results);
            lemma_results_form_exactly(results, 0);
        },
        QuackMessageView::AppendRequest { append_chunk, .. } => {
            assert(chunks_of(m)[0] == append_chunk);
        },
        _ => {},
    }
}

proof fn lemma_types_checked_exactly(types: Seq<LogicalTypeView>, from: nat)
    requires
        from <= types.len(),
    ensures
        types_checked(types, from) is Ok <==> forall|k: int|
            from <= k < types.len() ==> type_in_order(#[trigger] types[k]),
    decreases types.len() - from,
{
    if from < types.len() {
        lemma_types_checked_exactly(types, from + 1);
        if types_checked(types, from) is Ok {
            assert(type_in_order(types[from as int]));
        }
    }
}

} // verus!
