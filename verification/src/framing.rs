//! What can be wrong with a reply: every way in which one cannot be read
//! retires the connection, but for a type that has no wire form here.

use vstd::prelude::*;

use crate::binary::end_of_input;
use crate::binary::expect_end;
use crate::binary::expect_field;
use crate::binary::out_of_range;
use crate::binary::read_blob;
use crate::binary::read_bytes;
use crate::binary::read_flag;
use crate::binary::read_huge_int;
use crate::binary::read_items;
use crate::binary::read_sleb;
use crate::binary::read_text;
use crate::binary::read_uleb;
use crate::binary::sleb_at;
use crate::binary::trailing_bytes;
use crate::binary::uleb_at;
use crate::binary::varint_too_long;
use crate::binary::ReadResult;
use crate::binary::MAX_VARINT_BYTES;
use crate::chunk::read_chunk;
use crate::chunk::read_chunk_columns;
use crate::chunk::read_column;
use crate::chunk::read_columns;
use crate::chunk::read_types;
use crate::chunk::type_reader;
use crate::codec::names_reader;
use crate::codec::not_in_version;
use crate::codec::read_append_request;
use crate::codec::read_body;
use crate::codec::read_connection_request;
use crate::codec::read_connection_response;
use crate::codec::read_error_response;
use crate::codec::read_fetch_request;
use crate::codec::read_fetch_response;
use crate::codec::read_header;
use crate::codec::read_lease;
use crate::codec::read_message;
use crate::codec::read_prepare_request;
use crate::codec::read_prepare_response;
use crate::codec::read_v3_optional;
use crate::codec::results_reader;
use crate::codec::types_reader;
use crate::codec::unknown_kind;
use crate::constants::QUACK_V1;
use crate::constants::QUACK_V3;
use crate::errors::raised_off_the_wire;
use crate::errors::QuackErrorView;
use crate::fields::flag_reader;
use crate::fields::huge_int_reader;
use crate::fields::read_field;
use crate::fields::read_optional;
use crate::fields::uleb_reader;
use crate::messages::MessageHeaderView;
use crate::messages::MessageType;
use crate::payload::payload_reader;
use crate::payload::read_payload;
use crate::retirement::lemma_on_the_wire;
use crate::storage::storage;
use crate::storage::Storage;
use crate::text::decimal;
use crate::text::is_digit;
use crate::text::lemma_decimal_value;
use crate::typecodec::bad_decimal;
use crate::typecodec::read_child;
use crate::typecodec::read_children;
use crate::typecodec::read_details;
use crate::typecodec::read_info;
use crate::typecodec::read_type;
use crate::typecodec::unsupported_type;
use crate::typecodec::CHILD_NAME;
use crate::typecodec::CHILD_TYPE;
use crate::typecodec::INFO_FIRST;
use crate::typecodec::INFO_KIND;
use crate::typecodec::TYPE_ID;
use crate::types::LogicalTypeId;
use crate::types::LogicalTypeView;
use crate::vector::bad_column;
use crate::vector::blob_reader;
use crate::vector::entry_reader;
use crate::vector::expect_count;
use crate::vector::number_reader;
use crate::vector::read_data;
use crate::vector::read_entry;
use crate::vector::read_numbers;
use crate::vector::read_struct;
use crate::vector::read_validity;
use crate::vector::read_vector;
use crate::vector::text_reader;
use crate::vector::ARRAY_ELEMENTS;
use crate::vector::ARRAY_SIZE;
use crate::vector::LIST_ELEMENTS;
use crate::vector::LIST_ENTRIES;
use crate::vector::LIST_SIZE;
use crate::vector::STRUCT_COLUMNS;

verus! {

/// Whether an error is one of a reply that cannot be read: it retires the
/// connection, or is about a type that has no wire form here.
#[verifier::opaque]
pub open spec fn of_framing(error: QuackErrorView) -> bool {
    error.is_connection_fatal() || error is UnsupportedType
}

/// Whether something was read, or the reply cannot be.
pub open spec fn framed<T>(r: ReadResult<T>) -> bool {
    r matches Err(error) ==> of_framing(error)
}

/// Whether a way to read fails only on a reply that cannot be read.
pub open spec fn frames<T>(read: spec_fn(Seq<u8>) -> ReadResult<T>) -> bool {
    forall|b: Seq<u8>| framed(#[trigger] read(b))
}

proof fn lemma_text_of_framing(message: Seq<char>)
    requires
        !raised_off_the_wire(message),
    ensures
        of_framing(QuackErrorView::Protocol(message)),
{
    reveal(of_framing);
}

proof fn lemma_fixed_texts()
    ensures
        of_framing(end_of_input()),
        of_framing(varint_too_long()),
        of_framing(out_of_range()),
        of_framing(bad_decimal()),
        of_framing(bad_column("validity mask is too short"@)),
        of_framing(bad_column("column does not have the expected number of items"@)),
        of_framing(bad_column("list lies outside of its elements"@)),
{
    reveal(of_framing);
    reveal_strlit("unexpected end of input");
    reveal_strlit("variable-length integer is too long");
    reveal_strlit("integer is out of range");
    reveal_strlit("decimal width or scale is out of range");
    reveal_strlit("validity mask is too short");
    reveal_strlit("column does not have the expected number of items");
    reveal_strlit("list lies outside of its elements");
    lemma_on_the_wire(end_of_input()->Protocol_0);
    lemma_on_the_wire(varint_too_long()->Protocol_0);
    lemma_on_the_wire(out_of_range()->Protocol_0);
    lemma_on_the_wire(bad_decimal()->Protocol_0);
    lemma_on_the_wire("validity mask is too short"@);
    lemma_on_the_wire("column does not have the expected number of items"@);
    lemma_on_the_wire("list lies outside of its elements"@);
}

proof fn lemma_trailing(count: nat)
    ensures
        of_framing(trailing_bytes(count)),
{
    reveal_strlit(" bytes are left after the end");
    lemma_decimal_value(count);
    let message = trailing_bytes(count)->Protocol_0;
    assert(message[0] == decimal(count)[0]);
    assert(is_digit(message[0]));
    lemma_on_the_wire(message);
    lemma_text_of_framing(message);
}

proof fn lemma_foreign_kind(kind: MessageType, version: u64)
    ensures
        of_framing(not_in_version(kind, version)),
{
    reveal_strlit("ConnectionRequest");
    reveal_strlit("ConnectionResponse");
    reveal_strlit("PrepareRequest");
    reveal_strlit("PrepareResponse");
    reveal_strlit("FetchRequest");
    reveal_strlit("FetchResponse");
    reveal_strlit("SendDataRequest");
    reveal_strlit("SuccessResponse");
    reveal_strlit("ErrorResponse");
    reveal_strlit("DisconnectMessage");
    reveal_strlit("HeartbeatRequest");
    let message = not_in_version(kind, version)->Protocol_0;
    assert(message[0] == kind.spec_name()[0]);
    lemma_on_the_wire(message);
    lemma_text_of_framing(message);
}

proof fn lemma_unknown_kind(code: u64)
    ensures
        of_framing(unknown_kind(code)),
{
    reveal_strlit("unknown message type ");
    let message = unknown_kind(code)->Protocol_0;
    lemma_on_the_wire(message);
    lemma_text_of_framing(message);
}

proof fn lemma_varints(b: Seq<u8>, most: nat)
    ensures
        framed(uleb_at(b, most)),
        framed(sleb_at(b, most)),
    decreases most,
{
    lemma_fixed_texts();
    if b.len() > 0 && most > 0 {
        lemma_varints(b.skip(1), (most - 1) as nat);
    }
}

proof fn lemma_field_error(b: Seq<u8>, id: u16)
    ensures
        framed(expect_field(b, id)),
{
    lemma_fixed_texts();
    reveal_strlit("expected field ");
    if let Err(error) = expect_field(b, id) {
        if error != end_of_input() {
            lemma_on_the_wire(error->Protocol_0);
            lemma_text_of_framing(error->Protocol_0);
        }
    }
}

proof fn lemma_end_error(b: Seq<u8>)
    ensures
        framed(expect_end(b)),
{
    lemma_fixed_texts();
    reveal_strlit("expected end of object, got field ");
    if let Err(error) = expect_end(b) {
        if error != end_of_input() {
            lemma_on_the_wire(error->Protocol_0);
            lemma_text_of_framing(error->Protocol_0);
        }
    }
}

/// Single items fail only on a reply that cannot be read.
proof fn lemma_plain_items()
    ensures
        forall|b: Seq<u8>| framed(#[trigger] read_uleb(b)),
        forall|b: Seq<u8>, count: nat| framed(#[trigger] read_bytes(b, count)),
        forall|b: Seq<u8>| framed(#[trigger] read_flag(b)),
        forall|b: Seq<u8>| framed(#[trigger] read_blob(b)),
        forall|b: Seq<u8>| framed(#[trigger] read_text(b)),
        forall|b: Seq<u8>, id: u16| framed(#[trigger] expect_field(b, id)),
        forall|b: Seq<u8>| framed(#[trigger] expect_end(b)),
        forall|b: Seq<u8>| framed(#[trigger] read_huge_int(b)),
        forall|b: Seq<u8>, count: nat| framed(#[trigger] expect_count(b, count)),
{
    lemma_fixed_texts();
    assert forall|b: Seq<u8>| framed(#[trigger] read_uleb(b)) by {
        lemma_varints(b, MAX_VARINT_BYTES as nat);
    }
    assert forall|b: Seq<u8>| framed(#[trigger] read_sleb(b)) by {
        lemma_varints(b, MAX_VARINT_BYTES as nat);
    }
    assert forall|b: Seq<u8>| framed(#[trigger] read_text(b)) by {
        reveal(of_framing);
        assert(framed(read_blob(b)));
    }
    assert forall|b: Seq<u8>, id: u16| framed(#[trigger] expect_field(b, id)) by {
        lemma_field_error(b, id);
    }
    assert forall|b: Seq<u8>| framed(#[trigger] expect_end(b)) by {
        lemma_end_error(b);
    }
}

proof fn lemma_items<T>(b: Seq<u8>, count: nat, read: spec_fn(Seq<u8>) -> ReadResult<T>)
    requires
        frames(read),
    ensures
        framed(read_items(b, count, read)),
    decreases count,
{
    if count > 0 {
        assert(framed(read(b)));
        if let Ok((_, rest)) = read(b) {
            lemma_items(rest, (count - 1) as nat, read);
        }
    }
}

proof fn lemma_type(b: Seq<u8>)
    ensures
        framed(read_type(b)),
    decreases b.len(), 2nat,
{
    lemma_plain_items();
    lemma_fixed_texts();
    reveal(of_framing);
    if let Ok((_, after_field)) = expect_field(b, TYPE_ID) {
        if let Ok((code, after_code)) = read_uleb(after_field) {
            if let Some(id) = LogicalTypeId::of_code(code) {
                if after_code.len() < b.len() {
                    lemma_info(id, after_code);
                }
            }
        }
    }
}

proof fn lemma_info(id: LogicalTypeId, b: Seq<u8>)
    ensures
        framed(read_info(id, b)),
    decreases b.len(), 1nat,
{
    lemma_plain_items();
    lemma_fixed_texts();
    reveal(of_framing);
    if let Ok((true, after_flag)) = read_flag(b.skip(2)) {
        if let Ok((_, after_field)) = expect_field(after_flag, INFO_KIND) {
            if let Ok((_, details)) = read_uleb(after_field) {
                if details.len() < b.len() {
                    lemma_details(id, details);
                }
            }
        }
    }
}

proof fn lemma_details(id: LogicalTypeId, b: Seq<u8>)
    ensures
        framed(read_details(id, b)),
    decreases b.len(), 0nat,
{
    lemma_plain_items();
    lemma_fixed_texts();
    reveal(of_framing);
    if let Ok((_, body)) = expect_field(b, INFO_FIRST) {
        if body.len() < b.len() {
            if let Ok((count, list)) = read_uleb(body) {
                if list.len() < b.len() {
                    lemma_children(list, count as nat);
                }
            }
            lemma_type(body);
        }
    }
}

proof fn lemma_child(b: Seq<u8>)
    ensures
        framed(read_child(b)),
    decreases b.len(), 3nat,
{
    lemma_plain_items();
    lemma_fixed_texts();
    if let Ok((_, after_field)) = expect_field(b, CHILD_NAME) {
        if let Ok((_, after_name)) = read_text(after_field) {
            if let Ok((_, body)) = expect_field(after_name, CHILD_TYPE) {
                if body.len() < b.len() {
                    lemma_type(body);
                }
            }
        }
    }
}

proof fn lemma_children(b: Seq<u8>, count: nat)
    ensures
        framed(read_children(b, count)),
    decreases b.len(), 4nat,
{
    lemma_fixed_texts();
    if count > 0 {
        lemma_child(b);
        if let Ok((_, rest)) = read_child(b) {
            if rest.len() < b.len() {
                lemma_children(rest, (count - 1) as nat);
            }
        }
    }
}

proof fn lemma_column_parts()
    ensures
        forall|b: Seq<u8>, count: nat| framed(#[trigger] read_validity(b, count)),
        forall|b: Seq<u8>, count: nat, width: nat, signed: bool|
            framed(#[trigger] read_numbers(b, count, width, signed)),
        forall|b: Seq<u8>, count: nat| framed(#[trigger] read_items(b, count, text_reader())),
        forall|b: Seq<u8>, count: nat| framed(#[trigger] read_items(b, count, blob_reader())),
        forall|b: Seq<u8>, count: nat| framed(#[trigger] read_items(b, count, entry_reader())),
{
    lemma_plain_items();
    lemma_fixed_texts();
    assert forall|b: Seq<u8>| framed(#[trigger] read_entry(b)) by {}
    assert(frames(text_reader()));
    assert(frames(blob_reader()));
    assert(frames(entry_reader()));
    assert forall|b: Seq<u8>, count: nat, width: nat, signed: bool|
        framed(#[trigger] read_numbers(b, count, width, signed)) by {
        let read = number_reader(width, signed);
        assert(frames(read));
        if let Ok((data, _)) = read_blob(b) {
            lemma_items(data, count, read);
        }
    }
    assert forall|b: Seq<u8>, count: nat|
        framed(#[trigger] read_items(b, count, text_reader())) by {
        lemma_items(b, count, text_reader());
    }
    assert forall|b: Seq<u8>, count: nat|
        framed(#[trigger] read_items(b, count, blob_reader())) by {
        lemma_items(b, count, blob_reader());
    }
    assert forall|b: Seq<u8>, count: nat|
        framed(#[trigger] read_items(b, count, entry_reader())) by {
        lemma_items(b, count, entry_reader());
    }
}

proof fn lemma_vector(t: LogicalTypeView, count: nat, b: Seq<u8>)
    ensures
        framed(read_vector(t, count, b)),
    decreases t, 2nat, 0nat,
{
    lemma_plain_items();
    lemma_column_parts();
    if let Ok((mask, b)) = read_validity(b, count) {
        lemma_data(t, count, mask, b);
    }
}

proof fn lemma_data(t: LogicalTypeView, count: nat, mask: Option<Seq<u8>>, b: Seq<u8>)
    ensures
        framed(read_data(t, count, mask, b)),
    decreases t, 1nat, 0nat,
{
    lemma_plain_items();
    lemma_column_parts();
    lemma_fixed_texts();
    assert(forall|code: nat| of_framing(#[trigger] unsupported_type(code))) by {
        reveal(of_framing);
    }
    match storage(t) {
        Storage::List => {
            if let Ok((_, b)) = expect_field(b, LIST_SIZE) {
                if let Ok((size, b)) = read_uleb(b) {
                    if let Ok((_, b)) = expect_field(b, LIST_ENTRIES) {
                        if let Ok((_, b)) = expect_count(b, count) {
                            if let Ok((_, b)) = read_items(b, count, entry_reader()) {
                                if let Ok((_, b)) = expect_field(b, LIST_ELEMENTS) {
                                    lemma_only_child(t, size as nat, b);
                                }
                            }
                        }
                    }
                }
            }
        },
        Storage::Array => {
            if let Ok((_, b)) = expect_field(b, ARRAY_SIZE) {
                if let Ok((_, b)) = expect_count(b, t.size as nat) {
                    if let Ok((_, b)) = expect_field(b, ARRAY_ELEMENTS) {
                        lemma_only_child(t, count * t.size as nat, b);
                    }
                }
            }
        },
        Storage::Struct => {
            if let Ok((_, b)) = expect_field(b, STRUCT_COLUMNS) {
                if let Ok((_, b)) = expect_count(b, t.children.len()) {
                    lemma_struct(t, count, b, 0);
                }
            }
        },
        _ => {},
    }
}

proof fn lemma_only_child(t: LogicalTypeView, count: nat, b: Seq<u8>)
    ensures
        t.children.len() == 1 ==> framed(read_vector(t.children[0].logical_type, count, b)),
    decreases t, 0nat, 0nat,
{
    if t.children.len() == 1 {
        assert(decreases_to!(t => t.children[0].logical_type));
        lemma_vector(t.children[0].logical_type, count, b);
    }
}

proof fn lemma_struct(t: LogicalTypeView, count: nat, b: Seq<u8>, from: nat)
    ensures
        framed(read_struct(t, count, b, from)),
    decreases t, 0nat, t.children.len() - from,
{
    if from < t.children.len() {
        let child = t.children[from as int].logical_type;
        assert(decreases_to!(t => t.children[from as int].logical_type));
        lemma_vector(child, count, b);
        if let Ok((_, rest)) = read_vector(child, count, b) {
            lemma_struct(t, count, rest, from + 1);
        }
    }
}

proof fn lemma_columns(types: Seq<LogicalTypeView>, rows: nat, b: Seq<u8>, from: nat)
    ensures
        framed(read_columns(types, rows, b, from)),
    decreases types.len() - from,
{
    if from < types.len() {
        reveal(read_column);
        lemma_vector(types[from as int], rows, b);
        if let Ok((_, rest)) = read_column(types[from as int], rows, b) {
            lemma_columns(types, rows, rest, from + 1);
        }
    }
}

proof fn lemma_types(b: Seq<u8>)
    ensures
        framed(read_types(b)),
{
    lemma_plain_items();
    if let Ok((count, b)) = read_uleb(b) {
        assert forall|b: Seq<u8>| framed(#[trigger] type_reader()(b)) by {
            lemma_type(b);
        }
        lemma_items(b, count as nat, type_reader());
    }
}

proof fn lemma_chunk(b: Seq<u8>)
    ensures
        framed(read_chunk(b)),
{
    lemma_plain_items();
    lemma_fixed_texts();
    assert forall|b: Seq<u8>| framed(#[trigger] read_types(b)) by {
        lemma_types(b);
    }
    assert forall|rows: usize, types: Seq<LogicalTypeView>, b: Seq<u8>|
        framed(#[trigger] read_chunk_columns(rows, types, b)) by {
        assert forall|b: Seq<u8>| framed(#[trigger] read_columns(types, rows as nat, b, 0)) by {
            lemma_columns(types, rows as nat, b, 0);
        }
    }
}

proof fn lemma_payload(b: Seq<u8>, version: u64)
    ensures
        framed(read_payload(b, version)),
{
    reveal(read_payload);
    lemma_plain_items();
    assert forall|b: Seq<u8>| framed(#[trigger] read_chunk(b)) by {
        lemma_chunk(b);
    }
    assert forall|count: nat| of_framing(#[trigger] trailing_bytes(count)) by {
        lemma_trailing(count);
    }
}

/// The ways to read what fields hold.
proof fn lemma_readers(version: u64)
    ensures
        frames(uleb_reader()),
        frames(text_reader()),
        frames(flag_reader()),
        frames(huge_int_reader()),
        frames(types_reader()),
        frames(names_reader()),
        frames(payload_reader(version)),
        frames(results_reader(version)),
{
    lemma_plain_items();
    assert forall|b: Seq<u8>| framed(#[trigger] types_reader()(b)) by {
        lemma_types(b);
    }
    assert(frames(text_reader()));
    assert forall|b: Seq<u8>| framed(#[trigger] names_reader()(b)) by {
        if let Ok((count, rest)) = read_uleb(b) {
            lemma_items(rest, count as nat, text_reader());
        }
    }
    assert forall|b: Seq<u8>| framed(#[trigger] payload_reader(version)(b)) by {
        lemma_payload(b, version);
    }
    assert forall|b: Seq<u8>| framed(#[trigger] results_reader(version)(b)) by {
        if let Ok((count, rest)) = read_uleb(b) {
            lemma_items(rest, count as nat, payload_reader(version));
        }
    }
}

/// A field fails only on a reply that cannot be read if its content does.
proof fn lemma_field<T>(read: spec_fn(Seq<u8>) -> ReadResult<T>)
    requires
        frames(read),
    ensures
        forall|b: Seq<u8>, id: u16| framed(#[trigger] read_field(b, id, read)),
        forall|b: Seq<u8>, id: u16| framed(#[trigger] read_optional(b, id, read)),
        forall|version: u64, b: Seq<u8>, id: u16|
            framed(#[trigger] read_v3_optional(version, b, id, read)),
{
    lemma_plain_items();
}

proof fn lemma_fields(version: u64)
    ensures
        forall|b: Seq<u8>, id: u16| framed(#[trigger] read_field(b, id, uleb_reader())),
        forall|b: Seq<u8>, id: u16| framed(#[trigger] read_optional(b, id, uleb_reader())),
        forall|b: Seq<u8>, id: u16|
            framed(#[trigger] read_v3_optional(version, b, id, uleb_reader())),
        forall|b: Seq<u8>, id: u16| framed(#[trigger] read_field(b, id, text_reader())),
        forall|b: Seq<u8>, id: u16| framed(#[trigger] read_optional(b, id, text_reader())),
        forall|b: Seq<u8>, id: u16| framed(#[trigger] read_field(b, id, huge_int_reader())),
        forall|b: Seq<u8>, id: u16|
            framed(#[trigger] read_v3_optional(version, b, id, huge_int_reader())),
        forall|b: Seq<u8>, id: u16| framed(#[trigger] read_field(b, id, flag_reader())),
        forall|b: Seq<u8>, id: u16| framed(#[trigger] read_field(b, id, types_reader())),
        forall|b: Seq<u8>, id: u16| framed(#[trigger] read_field(b, id, names_reader())),
        forall|b: Seq<u8>, id: u16| framed(#[trigger] read_field(b, id, payload_reader(version))),
        forall|b: Seq<u8>, id: u16| framed(#[trigger] read_field(b, id, results_reader(version))),
{
    lemma_readers(version);
    lemma_field(uleb_reader());
    lemma_field(text_reader());
    lemma_field(huge_int_reader());
    lemma_field(flag_reader());
    lemma_field(types_reader());
    lemma_field(names_reader());
    lemma_field(payload_reader(version));
    lemma_field(results_reader(version));
}

proof fn lemma_header(b: Seq<u8>)
    ensures
        framed(read_header(b)),
{
    lemma_plain_items();
    lemma_fields(QUACK_V1);
    assert forall|code: u64| of_framing(#[trigger] unknown_kind(code)) by {
        lemma_unknown_kind(code);
    }
}

proof fn lemma_connection_bodies(version: u64, header: MessageHeaderView, b: Seq<u8>)
    ensures
        framed(read_connection_request(version, header, b)),
        framed(read_connection_response(version, header, b)),
        framed(read_error_response(header, b)),
{
    lemma_plain_items();
    lemma_fields(version);
    assert forall|b: Seq<u8>| framed(#[trigger] read_lease(version, b)) by {}
}

proof fn lemma_statement_bodies(version: u64, header: MessageHeaderView, b: Seq<u8>)
    ensures
        framed(read_prepare_request(version, header, b)),
        framed(read_prepare_response(version, header, b)),
{
    lemma_plain_items();
    lemma_fields(version);
}

proof fn lemma_data_bodies(version: u64, header: MessageHeaderView, b: Seq<u8>)
    ensures
        framed(read_fetch_request(version, header, b)),
        framed(read_fetch_response(version, header, b)),
        framed(read_append_request(version, header, b)),
{
    lemma_plain_items();
    lemma_fields(version);
}

proof fn lemma_body(version: u64, header: MessageHeaderView, b: Seq<u8>)
    ensures
        framed(read_body(version, header, b)),
{
    lemma_plain_items();
    lemma_foreign_kind(header.message_type, version);
    lemma_connection_bodies(version, header, b);
    lemma_statement_bodies(version, header, b);
    lemma_data_bodies(version, header, b);
}

/// A reply that cannot be read retires the connection, unless all that is wrong
/// with it is a type that has no wire form here.
pub proof fn lemma_unreadable(version: u64, body: Seq<u8>)
    requires
        version == QUACK_V1 || version == QUACK_V3,
    ensures
        read_message(version, body) matches Err(error) ==> error.is_connection_fatal()
            || error is UnsupportedType,
{
    lemma_header(body);
    if let Ok((header, b)) = read_header(body) {
        lemma_body(version, header, b);
        if let Ok((_, rest)) = read_body(version, header, b) {
            lemma_trailing(rest.len());
        }
    }
    reveal(of_framing);
}

} // verus!
