//! Logical types on the wire.
//!
//! A type is an object: its kind and, for a kind that needs more, an object of
//! details. The fields that a writer may leave out when they are zero are
//! optional to the reader.

use vstd::prelude::*;
use vstd::utf8::encode_utf8;

use crate::binary::expect_end;
use crate::binary::expect_field;
use crate::binary::field_id;
use crate::binary::flag;
use crate::binary::has_field;
use crate::binary::lemma_followed3;
use crate::binary::lemma_followed4;
use crate::binary::lemma_followed5;
use crate::binary::lemma_joined_bytes;
use crate::binary::lemma_written3;
use crate::binary::lemma_written4;
use crate::binary::lemma_written5;
use crate::binary::lemma_prepended;
use crate::binary::lemma_read_field;
use crate::binary::lemma_read_flag;
use crate::binary::lemma_read_text;
use crate::binary::lemma_read_uleb;
use crate::binary::lemma_reading_consumes;
use crate::binary::object_end;
use crate::binary::out_of_range;
use crate::binary::end_of_input;
use crate::binary::prepended;
use crate::binary::read_flag;
use crate::binary::read_text;
use crate::binary::read_uleb;
use crate::binary::reads_view;
use crate::binary::text_blob;
use crate::binary::uleb;
use crate::binary::BinaryReader;
use crate::binary::BinaryWriter;
use crate::binary::ReadResult;
use crate::binary::END_OF_OBJECT;
use crate::errors::QuackError;
use crate::errors::QuackErrorView;
use crate::text::decimal;
use crate::text::decimal_text;
use crate::text::joined;
use crate::types::lemma_children_view;
use crate::types::views;
use crate::types::ChildType;
use crate::types::ChildTypeView;
use crate::types::LogicalType;
use crate::types::LogicalTypeId;
use crate::types::LogicalTypeView;
use crate::uri::plain_result;

verus! {

/// The field of a type's kind.
pub const TYPE_ID: u16 = 100;

/// The field of a type's details.
pub const TYPE_INFO: u16 = 101;

/// The field of the kind of details.
pub const INFO_KIND: u16 = 100;

/// The first field of some details.
pub const INFO_FIRST: u16 = 200;

/// The second field of some details.
pub const INFO_SECOND: u16 = 201;

/// The field of a child's name.
pub const CHILD_NAME: u16 = 0;

/// The field of a child's type.
pub const CHILD_TYPE: u16 = 1;

/// The most digits of a decimal.
pub const MAX_DECIMAL_WIDTH: u8 = 38;

/// The kind of details that a kind of type has on the wire.
pub open spec fn info_kind(id: LogicalTypeId) -> Option<u64> {
    match id {
        LogicalTypeId::Decimal => Some(2),
        LogicalTypeId::List => Some(4),
        LogicalTypeId::Struct => Some(5),
        LogicalTypeId::Array => Some(9),
        _ => None,
    }
}

fn info_kind_of(id: LogicalTypeId) -> (kind: Option<u64>)
    ensures
        kind == info_kind(id),
{
    match id {
        LogicalTypeId::Decimal => Some(2),
        LogicalTypeId::List => Some(4),
        LogicalTypeId::Struct => Some(5),
        LogicalTypeId::Array => Some(9),
        _ => None,
    }
}

/// Whether a kind of type needs details that are not known here.
pub open spec fn is_opaque_kind(id: LogicalTypeId) -> bool {
    id == LogicalTypeId::Enum || id == LogicalTypeId::Union || id == LogicalTypeId::Mapping
}

fn opaque_kind(id: LogicalTypeId) -> (b: bool)
    ensures
        b == is_opaque_kind(id),
{
    id == LogicalTypeId::Enum || id == LogicalTypeId::Union || id == LogicalTypeId::Mapping
}

/// The error of a type without a wire form here.
pub open spec fn unsupported_type(code: nat) -> QuackErrorView {
    QuackErrorView::UnsupportedType("logical type "@ + decimal(code))
}

/// The error of a type without a wire form here.
pub fn unsupported_type_error(code: u64) -> (error: QuackError)
    ensures
        error@ == unsupported_type(code as nat),
{
    QuackError::UnsupportedType(joined("logical type ", decimal_text(code as u128).as_str()))
}

/// Whether text is short enough to be counted.
pub open spec fn text_fits(text: Seq<char>) -> bool {
    encode_utf8(text).len() <= u64::MAX
}

/// Whether no two children of a struct have the same name.
#[verifier::opaque]
pub open spec fn named_once(children: Seq<ChildTypeView>) -> bool {
    forall|i: int, j: int|
        0 <= i < j < children.len() ==> (#[trigger] children[i]).name != (
        #[trigger] children[j]).name
}

/// Whether a type has a wire form that gives it back: each part that its kind
/// has is in order, and there is no other.
pub open spec fn type_in_order(t: LogicalTypeView) -> bool
    decreases t,
{
    match t.id {
        LogicalTypeId::Decimal => {
            &&& 1 <= t.width <= MAX_DECIMAL_WIDTH
            &&& t.scale <= t.width
            &&& t.size == 0
            &&& t.children.len() == 0
        },
        LogicalTypeId::List => {
            &&& t.width == 0 && t.scale == 0 && t.size == 0
            &&& t.children.len() == 1
            &&& t.children[0].name.len() == 0
            &&& type_in_order(t.children[0].logical_type)
        },
        LogicalTypeId::Array => {
            &&& t.width == 0 && t.scale == 0
            &&& t.children.len() == 1
            &&& t.children[0].name.len() == 0
            &&& type_in_order(t.children[0].logical_type)
        },
        LogicalTypeId::Struct => {
            &&& t.width == 0 && t.scale == 0 && t.size == 0
            &&& t.children.len() <= u64::MAX
            &&& named_once(t.children)
            &&& forall|i: int|
                0 <= i < t.children.len() ==> text_fits((#[trigger] t.children[i]).name)
                    && type_in_order(t.children[i].logical_type)
        },
        _ => {
            &&& !is_opaque_kind(t.id)
            &&& t.width == 0 && t.scale == 0 && t.size == 0
            &&& t.children.len() == 0
        },
    }
}

/// The bytes of a type.
pub open spec fn type_bytes(t: LogicalTypeView) -> Seq<u8>
    decreases t, 2nat,
{
    field_id(TYPE_ID) + (uleb(t.id.spec_code() as nat) + (info_bytes(t) + object_end()))
}

/// The bytes of a type's details, with what introduces them; nothing if its
/// kind has no details.
pub open spec fn info_bytes(t: LogicalTypeView) -> Seq<u8>
    decreases t, 1nat,
{
    match info_kind(t.id) {
        Some(kind) => field_id(TYPE_INFO) + (flag(true) + (field_id(INFO_KIND) + (uleb(kind as nat)
            + detail_bytes(t)))),
        None => seq![],
    }
}

/// The bytes of a type's details.
pub open spec fn detail_bytes(t: LogicalTypeView) -> Seq<u8>
    decreases t, 0nat,
{
    if t.id == LogicalTypeId::Decimal {
        field_id(INFO_FIRST) + (uleb(t.width as nat) + (field_id(INFO_SECOND) + (uleb(
            t.scale as nat,
        ) + object_end())))
    } else if t.id == LogicalTypeId::Struct {
        field_id(INFO_FIRST) + (uleb(t.children.len()) + (children_bytes(t.children)
            + object_end()))
    } else if t.children.len() == 0 {
        seq![]
    } else if t.id == LogicalTypeId::List {
        field_id(INFO_FIRST) + (type_bytes(t.children[0].logical_type) + object_end())
    } else {
        field_id(INFO_FIRST) + (type_bytes(t.children[0].logical_type) + (field_id(INFO_SECOND) + (
        uleb(t.size as nat) + object_end())))
    }
}

/// The bytes of one child of a struct.
pub open spec fn child_bytes(child: ChildTypeView) -> Seq<u8>
    decreases child, 0nat,
{
    field_id(CHILD_NAME) + (text_blob(child.name) + (field_id(CHILD_TYPE) + (type_bytes(
        child.logical_type,
    ) + object_end())))
}

/// The bytes of a struct's children.
pub open spec fn children_bytes(children: Seq<ChildTypeView>) -> Seq<u8>
    decreases children, 0nat,
{
    if children.len() == 0 {
        seq![]
    } else {
        child_bytes(children[0]) + children_bytes(children.subrange(1, children.len() as int))
    }
}

/// A type.
pub open spec fn read_type(b: Seq<u8>) -> ReadResult<LogicalTypeView>
    decreases b.len(), 2nat,
{
    match expect_field(b, TYPE_ID) {
        Err(error) => Err(error),
        Ok((_, after_field)) => match read_uleb(after_field) {
            Err(error) => Err(error),
            Ok((code, after_code)) => match LogicalTypeId::of_code(code) {
                None => Err(unsupported_type(code as nat)),
                Some(id) => if after_code.len() >= b.len() {
                    Err(end_of_input())
                } else {
                    match read_info(id, after_code) {
                        Err(error) => Err(error),
                        Ok((t, after_info)) => match expect_end(after_info) {
                            Err(error) => Err(error),
                            Ok((_, rest)) => Ok((t, rest)),
                        },
                    }
                },
            },
        },
    }
}

/// A type of a kind without details.
pub open spec fn without_info(id: LogicalTypeId, rest: Seq<u8>) -> ReadResult<LogicalTypeView> {
    if info_kind(id) is None && !is_opaque_kind(id) {
        Ok((LogicalTypeView::plain(id), rest))
    } else {
        Err(unsupported_type(id.spec_code() as nat))
    }
}

/// The details of a type of some kind, if there are any, which make it whole.
pub open spec fn read_info(id: LogicalTypeId, b: Seq<u8>) -> ReadResult<LogicalTypeView>
    decreases b.len(), 1nat,
{
    if !has_field(b, TYPE_INFO) {
        without_info(id, b)
    } else {
        match read_flag(b.skip(2)) {
            Err(error) => Err(error),
            Ok((false, rest)) => without_info(id, rest),
            Ok((true, after_flag)) => match expect_field(after_flag, INFO_KIND) {
                Err(error) => Err(error),
                Ok((_, after_field)) => match read_uleb(after_field) {
                    Err(error) => Err(error),
                    Ok((kind, details)) => if info_kind(id) != Some(kind) {
                        Err(unsupported_type(id.spec_code() as nat))
                    } else if details.len() >= b.len() {
                        Err(end_of_input())
                    } else {
                        read_details(id, details)
                    },
                },
            },
        }
    }
}

/// The details of a type of a kind that has some, which make it whole.
pub open spec fn read_details(id: LogicalTypeId, b: Seq<u8>) -> ReadResult<LogicalTypeView>
    decreases b.len(), 0nat,
{
    if id == LogicalTypeId::Decimal {
        read_decimal_info(b)
    } else {
        match expect_field(b, INFO_FIRST) {
            Err(error) => Err(error),
            Ok((_, body)) => if body.len() >= b.len() {
                Err(end_of_input())
            } else if id == LogicalTypeId::Struct {
                match read_uleb(body) {
                    Err(error) => Err(error),
                    Ok((count, list)) => if list.len() >= b.len() {
                        Err(end_of_input())
                    } else {
                        match read_children(list, count as nat) {
                            Err(error) => Err(error),
                            Ok((children, rest)) => if !named_once(children) {
                                Err(unsupported_type(id.spec_code() as nat))
                            } else {
                                match expect_end(rest) {
                                    Err(error) => Err(error),
                                    Ok((_, rest)) => Ok(
                                        (
                                            LogicalTypeView {
                                                children,
                                                ..LogicalTypeView::plain(id)
                                            },
                                            rest,
                                        ),
                                    ),
                                }
                            },
                        }
                    },
                }
            } else {
                match read_type(body) {
                    Err(error) => Err(error),
                    Ok((child, rest)) => match (if id == LogicalTypeId::List {
                        Ok((0, rest))
                    } else {
                        read_array_size(rest)
                    }) {
                        Err(error) => Err(error),
                        Ok((size, rest)) => match expect_end(rest) {
                            Err(error) => Err(error),
                            Ok((_, rest)) => Ok((LogicalTypeView::nested(id, child, size), rest)),
                        },
                    },
                }
            },
        }
    }
}

/// A number in an optional field; zero if the field is not there.
pub open spec fn read_optional_number(b: Seq<u8>, id: u16) -> ReadResult<u64> {
    if has_field(b, id) {
        read_uleb(b.skip(2))
    } else {
        Ok((0, b))
    }
}

/// The number of elements of an array type.
pub open spec fn read_array_size(b: Seq<u8>) -> ReadResult<u32> {
    match read_optional_number(b, INFO_SECOND) {
        Err(error) => Err(error),
        Ok((size, rest)) => if size <= u32::MAX {
            Ok((size as u32, rest))
        } else {
            Err(out_of_range())
        },
    }
}

/// The error of a decimal type that cannot be.
pub open spec fn bad_decimal() -> QuackErrorView {
    QuackErrorView::Protocol("decimal width or scale is out of range"@)
}

/// The details of a decimal type, which make it whole.
pub open spec fn read_decimal_info(b: Seq<u8>) -> ReadResult<LogicalTypeView> {
    match read_optional_number(b, INFO_FIRST) {
        Err(error) => Err(error),
        Ok((width, rest)) => match read_optional_number(rest, INFO_SECOND) {
            Err(error) => Err(error),
            Ok((scale, rest)) => match expect_end(rest) {
                Err(error) => Err(error),
                Ok((_, rest)) => if 1 <= width <= MAX_DECIMAL_WIDTH && scale <= width {
                    Ok(
                        (
                            LogicalTypeView {
                                width: width as u8,
                                scale: scale as u8,
                                ..LogicalTypeView::plain(LogicalTypeId::Decimal)
                            },
                            rest,
                        ),
                    )
                } else {
                    Err(bad_decimal())
                },
            },
        },
    }
}

/// One child of a struct.
pub open spec fn read_child(b: Seq<u8>) -> ReadResult<ChildTypeView>
    decreases b.len(), 3nat,
{
    match expect_field(b, CHILD_NAME) {
        Err(error) => Err(error),
        Ok((_, after_field)) => match read_text(after_field) {
            Err(error) => Err(error),
            Ok((name, after_name)) => match expect_field(after_name, CHILD_TYPE) {
                Err(error) => Err(error),
                Ok((_, body)) => if body.len() >= b.len() {
                    Err(end_of_input())
                } else {
                    match read_type(body) {
                        Err(error) => Err(error),
                        Ok((logical_type, rest)) => match expect_end(rest) {
                            Err(error) => Err(error),
                            Ok((_, rest)) => Ok((ChildTypeView { name, logical_type }, rest)),
                        },
                    }
                },
            },
        },
    }
}

/// So many children of a struct.
pub open spec fn read_children(b: Seq<u8>, count: nat) -> ReadResult<Seq<ChildTypeView>>
    decreases b.len(), 4nat,
{
    if count == 0 {
        Ok((seq![], b))
    } else {
        match read_child(b) {
            Err(error) => Err(error),
            Ok((child, rest)) => if rest.len() >= b.len() {
                Err(end_of_input())
            } else {
                prepended(seq![child], read_children(rest, (count - 1) as nat))
            },
        }
    }
}

proof fn lemma_read_number(n: u64, id: u16, rest: Seq<u8>)
    ensures
        read_optional_number(field_id(id) + (uleb(n as nat) + rest), id) == Ok::<
            (u64, Seq<u8>),
            QuackErrorView,
        >((n, rest)),
{
    lemma_read_field(id, uleb(n as nat) + rest);
    lemma_read_uleb(n, rest);
}

/// A type is read back, and what follows it is left.
pub proof fn lemma_read_type(t: LogicalTypeView, rest: Seq<u8>)
    requires
        type_in_order(t),
    ensures
        read_type(type_bytes(t) + rest) == Ok::<(LogicalTypeView, Seq<u8>), QuackErrorView>(
            (t, rest),
        ),
    decreases t, 2nat,
{
    let code = uleb(t.id.spec_code() as nat);
    let info = info_bytes(t);
    let after_info = object_end() + rest;
    lemma_followed4(field_id(TYPE_ID), code, info, object_end(), rest);
    lemma_read_field(TYPE_ID, code + (info + after_info));
    lemma_read_uleb(t.id.spec_code() as u64, info + after_info);
    t.id.lemma_of_code();
    lemma_read_field(END_OF_OBJECT, rest);
    lemma_read_info(t, after_info);
}

/// The details of a type are read back to the whole type.
proof fn lemma_read_info(t: LogicalTypeView, after: Seq<u8>)
    requires
        type_in_order(t),
        !has_field(after, TYPE_INFO),
    ensures
        read_info(t.id, info_bytes(t) + after) == Ok::<(LogicalTypeView, Seq<u8>), QuackErrorView>(
            (t, after),
        ),
    decreases t, 1nat,
{
    match info_kind(t.id) {
        None => {
            assert(info_bytes(t) + after =~= after);
            assert(t.children =~= Seq::empty());
        },
        Some(kind) => {
            let number = uleb(kind as nat);
            let details = detail_bytes(t) + after;
            lemma_followed5(
                field_id(TYPE_INFO),
                flag(true),
                field_id(INFO_KIND),
                number,
                detail_bytes(t),
                after,
            );
            lemma_read_field(TYPE_INFO, flag(true) + (field_id(INFO_KIND) + (number + details)));
            lemma_read_flag(true, field_id(INFO_KIND) + (number + details));
            lemma_read_field(INFO_KIND, number + details);
            lemma_read_uleb(kind, details);
            if t.id == LogicalTypeId::Decimal {
                lemma_read_decimal(t, after);
            } else if t.id == LogicalTypeId::Struct {
                lemma_read_struct(t, after);
            } else {
                lemma_read_nested(t, after);
            }
        },
    }
}

proof fn lemma_read_decimal(t: LogicalTypeView, after: Seq<u8>)
    requires
        type_in_order(t),
        t.id == LogicalTypeId::Decimal,
    ensures
        read_details(t.id, detail_bytes(t) + after) == Ok::<
            (LogicalTypeView, Seq<u8>),
            QuackErrorView,
        >((t, after)),
{
    let end = object_end();
    let width = uleb(t.width as nat);
    let scale = uleb(t.scale as nat);
    lemma_followed5(field_id(INFO_FIRST), width, field_id(INFO_SECOND), scale, end, after);
    lemma_read_number(t.width as u64, INFO_FIRST, field_id(INFO_SECOND) + (scale + (end + after)));
    lemma_read_number(t.scale as u64, INFO_SECOND, end + after);
    lemma_read_field(END_OF_OBJECT, after);
    assert(t.children =~= Seq::empty());
}

proof fn lemma_read_struct(t: LogicalTypeView, after: Seq<u8>)
    requires
        type_in_order(t),
        t.id == LogicalTypeId::Struct,
    ensures
        read_details(t.id, detail_bytes(t) + after) == Ok::<
            (LogicalTypeView, Seq<u8>),
            QuackErrorView,
        >((t, after)),
    decreases t, 0nat,
{
    let end = object_end();
    let count = uleb(t.children.len());
    let list = children_bytes(t.children);
    lemma_followed4(field_id(INFO_FIRST), count, list, end, after);
    lemma_read_field(INFO_FIRST, count + (list + (end + after)));
    lemma_read_uleb(t.children.len() as u64, list + (end + after));
    lemma_read_children(t.children, end + after);
    lemma_read_field(END_OF_OBJECT, after);
}

proof fn lemma_read_nested(t: LogicalTypeView, after: Seq<u8>)
    requires
        type_in_order(t),
        t.id == LogicalTypeId::List || t.id == LogicalTypeId::Array,
    ensures
        read_details(t.id, detail_bytes(t) + after) == Ok::<
            (LogicalTypeView, Seq<u8>),
            QuackErrorView,
        >((t, after)),
    decreases t, 0nat,
{
    let end = object_end();
    let child = t.children[0].logical_type;
    let bytes = type_bytes(child);
    assert(t.children =~= seq![ChildTypeView { name: seq![], logical_type: child }]) by {
        assert(t.children[0].name =~= seq![]);
    }
    lemma_read_field(END_OF_OBJECT, after);
    if t.id == LogicalTypeId::List {
        lemma_followed3(field_id(INFO_FIRST), bytes, end, after);
        lemma_read_field(INFO_FIRST, bytes + (end + after));
        lemma_read_type(child, end + after);
    } else {
        let size = uleb(t.size as nat);
        let second = field_id(INFO_SECOND) + (size + (end + after));
        lemma_followed5(field_id(INFO_FIRST), bytes, field_id(INFO_SECOND), size, end, after);
        lemma_read_field(INFO_FIRST, bytes + second);
        lemma_read_type(child, second);
        lemma_read_number(t.size as u64, INFO_SECOND, end + after);
    }
}

#[verifier::rlimit(40)]
proof fn lemma_read_child(child: ChildTypeView, rest: Seq<u8>)
    requires
        text_fits(child.name),
        type_in_order(child.logical_type),
    ensures
        read_child(child_bytes(child) + rest) == Ok::<(ChildTypeView, Seq<u8>), QuackErrorView>(
            (child, rest),
        ),
        child_bytes(child).len() > 0,
    decreases child, 0nat,
{
    let end = object_end();
    let name = text_blob(child.name);
    let bytes = type_bytes(child.logical_type);
    lemma_followed5(field_id(CHILD_NAME), name, field_id(CHILD_TYPE), bytes, end, rest);
    let body = bytes + (end + rest);
    let after_name = field_id(CHILD_TYPE) + body;
    let b = child_bytes(child) + rest;
    assert(b == field_id(CHILD_NAME) + (name + after_name));
    assert(expect_field(b, CHILD_NAME) == Ok::<((), Seq<u8>), QuackErrorView>(
        ((), name + after_name),
    )) by {
        lemma_read_field(CHILD_NAME, name + after_name);
    }
    assert(read_text(name + after_name) == Ok::<(Seq<char>, Seq<u8>), QuackErrorView>(
        (child.name, after_name),
    )) by {
        lemma_read_text(child.name, after_name);
    }
    assert(expect_field(after_name, CHILD_TYPE) == Ok::<((), Seq<u8>), QuackErrorView>(
        ((), body),
    )) by {
        lemma_read_field(CHILD_TYPE, body);
    }
    assert(expect_end(end + rest) == Ok::<((), Seq<u8>), QuackErrorView>(((), rest))) by {
        lemma_read_field(END_OF_OBJECT, rest);
    }
    lemma_read_type(child.logical_type, end + rest);
    assert(field_id(CHILD_NAME).len() == 2) by {
        lemma_read_field(CHILD_NAME, rest);
    }
    assert(body.len() < b.len());
}

/// The children of a struct are read back.
pub proof fn lemma_read_children(children: Seq<ChildTypeView>, after: Seq<u8>)
    requires
        forall|i: int|
            0 <= i < children.len() ==> text_fits((#[trigger] children[i]).name) && type_in_order(
                children[i].logical_type,
            ),
    ensures
        read_children(children_bytes(children) + after, children.len()) == Ok::<
            (Seq<ChildTypeView>, Seq<u8>),
            QuackErrorView,
        >((children, after)),
    decreases children, 0nat,
{
    if children.len() == 0 {
        assert(children_bytes(children) + after =~= after);
        assert(children =~= seq![]);
    } else {
        let tail = children.subrange(1, children.len() as int);
        let rest = children_bytes(tail) + after;
        let b = children_bytes(children) + after;
        assert(b == child_bytes(children[0]) + rest) by {
            lemma_joined_bytes(child_bytes(children[0]), children_bytes(tail), after);
        }
        assert(read_child(b) == Ok::<(ChildTypeView, Seq<u8>), QuackErrorView>(
            (children[0], rest),
        ) && rest.len() < b.len()) by {
            lemma_read_child(children[0], rest);
        }
        assert(read_children(rest, tail.len()) == Ok::<
            (Seq<ChildTypeView>, Seq<u8>),
            QuackErrorView,
        >((tail, after))) by {
            assert forall|i: int| 0 <= i < tail.len() implies text_fits((#[trigger] tail[i]).name)
                && type_in_order(tail[i].logical_type) by {
                assert(tail[i] == children[i + 1]);
            }
            lemma_read_children(tail, after);
        }
        assert(seq![children[0]] + tail =~= children);
    }
}

/// One more child at the end adds its bytes at the end.
proof fn lemma_children_bytes_push(children: Seq<ChildTypeView>, child: ChildTypeView)
    ensures
        children_bytes(children.push(child)) == children_bytes(children) + child_bytes(child),
    decreases children.len(),
{
    let more = children.push(child);
    let tail = more.subrange(1, more.len() as int);
    if children.len() == 0 {
        assert(tail =~= seq![]);
        assert(children_bytes(tail) =~= seq![]);
        assert(children_bytes(more) =~= child_bytes(child));
        assert(children_bytes(children) =~= seq![]);
        assert(seq![] + child_bytes(child) =~= child_bytes(child));
    } else {
        let rest = children.subrange(1, children.len() as int);
        lemma_children_bytes_push(rest, child);
        assert(tail =~= rest.push(child));
        lemma_joined_bytes(child_bytes(children[0]), children_bytes(rest), child_bytes(child));
    }
}

pub(crate) fn are_named_once(children: &Vec<ChildType>) -> (b: bool)
    ensures
        b == named_once(views(children@)),
{
    let ghost all = views(children@);
    proof {
        reveal(named_once);
    }
    let count: usize = children.len();
    for j in 0..count
        invariant
            count == children@.len(),
            all == views(children@),
            forall|i: int, k: int|
                0 <= i < k < j ==> (#[trigger] all[i]).name != (#[trigger] all[k]).name,
    {
        for i in 0..j
            invariant
                j < count,
                count == children@.len(),
                all == views(children@),
                forall|k: int| 0 <= k < i ==> (#[trigger] all[k]).name != all[j as int].name,
        {
            assert(all[i as int] == children@[i as int]@ && all[j as int] == children@[j as int]@);
            if children[i].name == children[j].name {
                assert(!named_once(all)) by {
                    reveal(named_once);
                }
                return false;
            }
        }
    }
    true
}

/// Whether a type has a wire form that gives it back.
pub fn is_type_in_order(t: &LogicalType) -> (b: bool)
    ensures
        b == type_in_order(t@),
    decreases t,
{
    proof {
        lemma_children_view(*t);
    }
    match t.id {
        LogicalTypeId::Decimal => 1 <= t.width && t.width <= MAX_DECIMAL_WIDTH && t.scale <= t.width
            && t.size == 0 && t.children.len() == 0,
        LogicalTypeId::List => {
            if t.width != 0 || t.scale != 0 || t.size != 0 || t.children.len() != 1 {
                return false;
            }
            assert(t@.children[0] == t.children@[0]@);
            assert(decreases_to!(*t => t.children@[0].logical_type));
            t.children[0].name.as_str().is_empty() && is_type_in_order(&t.children[0].logical_type)
        },
        LogicalTypeId::Array => {
            if t.width != 0 || t.scale != 0 || t.children.len() != 1 {
                return false;
            }
            assert(t@.children[0] == t.children@[0]@);
            assert(decreases_to!(*t => t.children@[0].logical_type));
            t.children[0].name.as_str().is_empty() && is_type_in_order(&t.children[0].logical_type)
        },
        LogicalTypeId::Struct => {
            if t.width != 0 || t.scale != 0 || t.size != 0 || !are_named_once(&t.children) {
                return false;
            }
            let mut i: usize = 0;
            while i < t.children.len()
                invariant
                    i <= t.children@.len(),
                    t.id == LogicalTypeId::Struct,
                    t@.children == views(t.children@),
                    named_once(t@.children),
                    forall|k: int|
                        0 <= k < i ==> text_fits((#[trigger] t@.children[k]).name)
                            && type_in_order(t@.children[k].logical_type),
                decreases t.children@.len() - i,
            {
                assert(decreases_to!(*t => t.children@[i as int].logical_type));
                assert(t@.children[i as int] == t.children@[i as int]@);
                let length: usize = t.children[i].name.as_str().as_bytes().len();
                assert(text_fits(t@.children[i as int].name));
                if !is_type_in_order(&t.children[i].logical_type) {
                    return false;
                }
                i += 1;
            }
            true
        },
        _ => !opaque_kind(t.id) && t.width == 0 && t.scale == 0 && t.size == 0 && t.children.len()
            == 0,
    }
}

fn write_type(writer: &mut BinaryWriter, t: &LogicalType)
    requires
        type_in_order(t@),
    ensures
        final(writer)@ == old(writer)@ + type_bytes(t@),
    decreases t, 2nat,
{
    writer.write_field(TYPE_ID);
    writer.write_uleb(t.id.code() as u64);
    let ghost before = writer@;
    if let Some(kind) = info_kind_of(t.id) {
        writer.write_field(TYPE_INFO);
        writer.write_bool(true);
        writer.write_field(INFO_KIND);
        writer.write_uleb(kind);
        write_details(writer, t);
        proof {
            lemma_written5(
                before,
                field_id(TYPE_INFO),
                flag(true),
                field_id(INFO_KIND),
                uleb(kind as nat),
                detail_bytes(t@),
            );
        }
    } else {
        assert(before + info_bytes(t@) =~= before);
    }
    writer.end_object();
    proof {
        lemma_written4(
            old(writer)@,
            field_id(TYPE_ID),
            uleb(t@.id.spec_code() as nat),
            info_bytes(t@),
            object_end(),
        );
    }
}

fn write_details(writer: &mut BinaryWriter, t: &LogicalType)
    requires
        type_in_order(t@),
        info_kind(t@.id) is Some,
    ensures
        final(writer)@ == old(writer)@ + detail_bytes(t@),
    decreases t, 1nat,
{
    proof {
        lemma_children_view(*t);
    }
    writer.write_field(INFO_FIRST);
    if t.id == LogicalTypeId::Decimal {
        writer.write_uleb(t.width as u64);
        writer.write_field(INFO_SECOND);
        writer.write_uleb(t.scale as u64);
        writer.end_object();
        proof {
            lemma_written5(
                old(writer)@,
                field_id(INFO_FIRST),
                uleb(t@.width as nat),
                field_id(INFO_SECOND),
                uleb(t@.scale as nat),
                object_end(),
            );
        }
    } else if t.id == LogicalTypeId::Struct {
        writer.write_uleb(t.children.len() as u64);
        write_children(writer, t);
        writer.end_object();
        proof {
            lemma_written4(
                old(writer)@,
                field_id(INFO_FIRST),
                uleb(t@.children.len()),
                children_bytes(t@.children),
                object_end(),
            );
        }
    } else {
        assert(decreases_to!(*t => t.children@[0].logical_type));
        assert(t@.children[0] == t.children@[0]@);
        write_type(writer, &t.children[0].logical_type);
        if t.id == LogicalTypeId::List {
            writer.end_object();
            proof {
                lemma_written3(
                    old(writer)@,
                    field_id(INFO_FIRST),
                    type_bytes(t@.children[0].logical_type),
                    object_end(),
                );
            }
        } else {
            writer.write_field(INFO_SECOND);
            writer.write_uleb(t.size as u64);
            writer.end_object();
            proof {
                lemma_written5(
                    old(writer)@,
                    field_id(INFO_FIRST),
                    type_bytes(t@.children[0].logical_type),
                    field_id(INFO_SECOND),
                    uleb(t@.size as nat),
                    object_end(),
                );
            }
        }
    }
}

fn write_children(writer: &mut BinaryWriter, t: &LogicalType)
    requires
        type_in_order(t@),
        t@.id == LogicalTypeId::Struct,
    ensures
        final(writer)@ == old(writer)@ + children_bytes(t@.children),
    decreases t, 0nat,
{
    proof {
        lemma_children_view(*t);
        assert(old(writer)@ =~= old(writer)@ + children_bytes(t@.children.take(0)));
    }
    let mut i: usize = 0;
    while i < t.children.len()
        invariant
            i <= t.children@.len(),
            t@.id == LogicalTypeId::Struct,
            t@.children == views(t.children@),
            type_in_order(t@),
            writer@ == old(writer)@ + children_bytes(t@.children.take(i as int)),
        decreases t.children@.len() - i,
    {
        let child = &t.children[i];
        let ghost before = writer@;
        assert(decreases_to!(*t => t.children@[i as int].logical_type));
        assert(t@.children[i as int] == child@);
        writer.write_field(CHILD_NAME);
        writer.write_string(child.name.as_str());
        writer.write_field(CHILD_TYPE);
        write_type(writer, &child.logical_type);
        writer.end_object();
        proof {
            lemma_written5(
                before,
                field_id(CHILD_NAME),
                text_blob(child.name@),
                field_id(CHILD_TYPE),
                type_bytes(child.logical_type@),
                object_end(),
            );
            lemma_children_bytes_push(t@.children.take(i as int), child@);
            assert(t@.children.take(i + 1) =~= t@.children.take(i as int).push(child@));
            lemma_joined_bytes(
                old(writer)@,
                children_bytes(t@.children.take(i as int)),
                child_bytes(child@),
            );
        }
        i += 1;
    }
    assert(t@.children.take(t@.children.len() as int) =~= t@.children);
}

/// Writes a type, if it has a wire form that gives it back.
pub fn encode_logical_type(writer: &mut BinaryWriter, t: &LogicalType) -> (result: Result<
    (),
    QuackError,
>)
    ensures
        plain_result(result) == if type_in_order(t@) {
            Ok(())
        } else {
            Err(unsupported_type(t@.id.spec_code() as nat))
        },
        final(writer)@ == if type_in_order(t@) {
            old(writer)@ + type_bytes(t@)
        } else {
            old(writer)@
        },
{
    if !is_type_in_order(t) {
        return Err(unsupported_type_error(t.id.code() as u64));
    }
    write_type(writer, t);
    Ok(())
}

fn read_optional(reader: &mut BinaryReader, id: u16) -> (n: Result<u64, QuackError>)
    ensures
        crate::binary::reads(n, final(reader)@, read_optional_number(old(reader)@, id)),
{
    if reader.read_optional_field(id) {
        reader.read_uleb_u64()
    } else {
        Ok(0)
    }
}

fn plain_type(id: LogicalTypeId) -> (t: Result<LogicalType, QuackError>)
    ensures
        match t {
            Ok(t) => info_kind(id) is None && !is_opaque_kind(id) && t@ == LogicalTypeView::plain(
                id,
            ),
            Err(error) => (info_kind(id) is Some || is_opaque_kind(id)) && error@
                == unsupported_type(id.spec_code() as nat),
        },
{
    if info_kind_of(id).is_none() && !opaque_kind(id) {
        Ok(LogicalType::plain(id))
    } else {
        Err(unsupported_type_error(id.code() as u64))
    }
}

fn read_decimal(reader: &mut BinaryReader) -> (t: Result<LogicalType, QuackError>)
    ensures
        reads_view(t, final(reader)@, read_decimal_info(old(reader)@)),
{
    let width: u64 = match read_optional(reader, INFO_FIRST) {
        Ok(width) => width,
        Err(error) => {
            return Err(error);
        },
    };
    let scale: u64 = match read_optional(reader, INFO_SECOND) {
        Ok(scale) => scale,
        Err(error) => {
            return Err(error);
        },
    };
    if let Err(error) = reader.read_object_end() {
        return Err(error);
    }
    if width < 1 || width > MAX_DECIMAL_WIDTH as u64 || scale > width {
        return Err(QuackError::protocol("decimal width or scale is out of range"));
    }
    let t = LogicalType {
        id: LogicalTypeId::Decimal,
        width: width as u8,
        scale: scale as u8,
        size: 0,
        children: Vec::new(),
    };
    assert(t@.children =~= Seq::empty());
    Ok(t)
}

/// Reads a type.
pub fn decode_logical_type(reader: &mut BinaryReader) -> (t: Result<LogicalType, QuackError>)
    ensures
        reads_view(t, final(reader)@, read_type(old(reader)@)),
    decreases old(reader)@.len(), 2nat,
{
    proof {
        lemma_reading_consumes(reader@);
    }
    let ghost start = reader@;
    if let Err(error) = reader.read_required_field(TYPE_ID) {
        return Err(error);
    }
    proof {
        lemma_reading_consumes(reader@);
    }
    let code: u64 = match reader.read_uleb_u64() {
        Ok(code) => code,
        Err(error) => {
            return Err(error);
        },
    };
    let id = match LogicalTypeId::from_code(code) {
        Some(id) => id,
        None => {
            return Err(unsupported_type_error(code));
        },
    };
    let t = match decode_info(reader, id) {
        Ok(t) => t,
        Err(error) => {
            return Err(error);
        },
    };
    if let Err(error) = reader.read_object_end() {
        return Err(error);
    }
    Ok(t)
}

fn decode_info(reader: &mut BinaryReader, id: LogicalTypeId) -> (t: Result<LogicalType, QuackError>)
    ensures
        reads_view(t, final(reader)@, read_info(id, old(reader)@)),
    decreases old(reader)@.len(), 1nat,
{
    let ghost start = reader@;
    if !reader.read_optional_field(TYPE_INFO) {
        return plain_type(id);
    }
    proof {
        lemma_reading_consumes(reader@);
    }
    let present = match reader.read_bool() {
        Ok(present) => present,
        Err(error) => {
            return Err(error);
        },
    };
    if !present {
        return plain_type(id);
    }
    proof {
        lemma_reading_consumes(reader@);
    }
    if let Err(error) = reader.read_required_field(INFO_KIND) {
        return Err(error);
    }
    proof {
        lemma_reading_consumes(reader@);
    }
    let kind: u64 = match reader.read_uleb_u64() {
        Ok(kind) => kind,
        Err(error) => {
            return Err(error);
        },
    };
    let known = match info_kind_of(id) {
        Some(known) => known == kind,
        None => false,
    };
    if !known {
        return Err(unsupported_type_error(id.code() as u64));
    }
    decode_details(reader, id)
}

fn decode_details(reader: &mut BinaryReader, id: LogicalTypeId) -> (t: Result<
    LogicalType,
    QuackError,
>)
    ensures
        reads_view(t, final(reader)@, read_details(id, old(reader)@)),
    decreases old(reader)@.len(), 0nat,
{
    if id == LogicalTypeId::Decimal {
        return read_decimal(reader);
    }
    proof {
        lemma_reading_consumes(reader@);
    }
    if let Err(error) = reader.read_required_field(INFO_FIRST) {
        return Err(error);
    }
    if id == LogicalTypeId::Struct {
        proof {
            lemma_reading_consumes(reader@);
        }
        let count: u64 = match reader.read_uleb_u64() {
            Ok(count) => count,
            Err(error) => {
                return Err(error);
            },
        };
        let children = match decode_children(reader, count) {
            Ok(children) => children,
            Err(error) => {
                return Err(error);
            },
        };
        if !are_named_once(&children) {
            return Err(unsupported_type_error(id.code() as u64));
        }
        if let Err(error) = reader.read_object_end() {
            return Err(error);
        }
        let t = LogicalType { id, width: 0, scale: 0, size: 0, children };
        proof {
            lemma_children_view(t);
        }
        return Ok(t);
    }
    let child = match decode_logical_type(reader) {
        Ok(child) => child,
        Err(error) => {
            return Err(error);
        },
    };
    let mut size: u64 = 0;
    if id != LogicalTypeId::List {
        size = match read_optional(reader, INFO_SECOND) {
            Ok(size) => size,
            Err(error) => {
                return Err(error);
            },
        };
        if size > u32::MAX as u64 {
            return Err(QuackError::protocol("integer is out of range"));
        }
    }
    if let Err(error) = reader.read_object_end() {
        return Err(error);
    }
    Ok(LogicalType::nested(id, child, size as u32))
}

fn decode_child(reader: &mut BinaryReader) -> (child: Result<ChildType, QuackError>)
    ensures
        reads_view(child, final(reader)@, read_child(old(reader)@)),
        child is Ok ==> final(reader)@.len() < old(reader)@.len(),
    decreases old(reader)@.len(), 3nat,
{
    let ghost start = reader@;
    proof {
        lemma_reading_consumes(reader@);
    }
    if let Err(error) = reader.read_required_field(CHILD_NAME) {
        return Err(error);
    }
    proof {
        lemma_reading_consumes(reader@);
    }
    let name = match reader.read_string() {
        Ok(name) => name,
        Err(error) => {
            return Err(error);
        },
    };
    proof {
        lemma_reading_consumes(reader@);
    }
    if let Err(error) = reader.read_required_field(CHILD_TYPE) {
        return Err(error);
    }
    proof {
        lemma_read_type_consumes(reader@);
    }
    let logical_type = match decode_logical_type(reader) {
        Ok(logical_type) => logical_type,
        Err(error) => {
            return Err(error);
        },
    };
    proof {
        lemma_reading_consumes(reader@);
    }
    if let Err(error) = reader.read_object_end() {
        return Err(error);
    }
    Ok(ChildType { name, logical_type })
}

fn decode_children(reader: &mut BinaryReader, count: u64) -> (children: Result<
    Vec<ChildType>,
    QuackError,
>)
    ensures
        match children {
            Ok(children) => read_children(old(reader)@, count as nat) == Ok::<
                (Seq<ChildTypeView>, Seq<u8>),
                QuackErrorView,
            >((views(children@), final(reader)@)),
            Err(error) => read_children(old(reader)@, count as nat) == Err::<
                (Seq<ChildTypeView>, Seq<u8>),
                QuackErrorView,
            >(error@),
        },
    decreases old(reader)@.len(), 4nat,
{
    let mut children: Vec<ChildType> = Vec::new();
    let mut left: u64 = count;
    proof {
        lemma_prepended(views(children@), arbitrary(), read_children(reader@, count as nat));
        assert(views(children@) =~= seq![]);
    }
    while left > 0
        invariant
            left <= count,
            reader@.len() <= old(reader)@.len(),
            read_children(old(reader)@, count as nat) == prepended(
                views(children@),
                read_children(reader@, left as nat),
            ),
        decreases left,
    {
        let ghost before = reader@;
        let ghost done = views(children@);
        match decode_child(reader) {
            Ok(child) => {
                children.push(child);
                left -= 1;
                proof {
                    assert(views(children@) =~= done.push(child@));
                    lemma_prepended(done, child@, read_children(reader@, left as nat));
                }
            },
            Err(error) => {
                return Err(error);
            },
        }
    }
    proof {
        assert(views(children@) + seq![] =~= views(children@));
    }
    Ok(children)
}

/// A type takes some bytes.
pub proof fn lemma_read_type_consumes(b: Seq<u8>)
    ensures
        read_type(b) matches Ok((t, rest)) ==> rest.len() < b.len(),
    decreases b.len(), 2nat,
{
    lemma_reading_consumes(b);
    if let Ok((_, after_field)) = expect_field(b, TYPE_ID) {
        lemma_reading_consumes(after_field);
        if let Ok((code, after_code)) = read_uleb(after_field) {
            if let Some(id) = LogicalTypeId::of_code(code) {
                lemma_read_info_consumes(id, after_code);
                if let Ok((_, after_info)) = read_info(id, after_code) {
                    lemma_reading_consumes(after_info);
                }
            }
        }
    }
}

proof fn lemma_read_info_consumes(id: LogicalTypeId, b: Seq<u8>)
    ensures
        read_info(id, b) matches Ok((t, rest)) ==> rest.len() <= b.len(),
    decreases b.len(), 1nat,
{
    if has_field(b, TYPE_INFO) {
        lemma_reading_consumes(b.skip(2));
        if let Ok((true, after_flag)) = read_flag(b.skip(2)) {
            lemma_reading_consumes(after_flag);
            if let Ok((_, after_field)) = expect_field(after_flag, INFO_KIND) {
                lemma_reading_consumes(after_field);
                if let Ok((kind, details)) = read_uleb(after_field) {
                    lemma_read_details_consumes(id, details);
                }
            }
        }
    }
}

proof fn lemma_read_details_consumes(id: LogicalTypeId, b: Seq<u8>)
    ensures
        read_details(id, b) matches Ok((t, rest)) ==> rest.len() <= b.len(),
    decreases b.len(), 0nat,
{
    if id == LogicalTypeId::Decimal {
        lemma_read_decimal_consumes(b);
    } else {
        lemma_reading_consumes(b);
        if let Ok((_, body)) = expect_field(b, INFO_FIRST) {
            lemma_reading_consumes(body);
            lemma_read_type_consumes(body);
            if let Ok((count, list)) = read_uleb(body) {
                lemma_read_children_consumes(list, count as nat);
                if let Ok((_, rest)) = read_children(list, count as nat) {
                    lemma_reading_consumes(rest);
                }
            }
            if let Ok((_, rest)) = read_type(body) {
                lemma_reading_consumes(rest);
                lemma_reading_consumes(rest.skip(2));
                if let Ok((_, rest)) = read_array_size(rest) {
                    lemma_reading_consumes(rest);
                }
            }
        }
    }
}

proof fn lemma_read_decimal_consumes(b: Seq<u8>)
    ensures
        read_decimal_info(b) matches Ok((t, rest)) ==> rest.len() <= b.len(),
{
    lemma_reading_consumes(b.skip(2));
    if let Ok((_, rest)) = read_optional_number(b, INFO_FIRST) {
        lemma_reading_consumes(rest.skip(2));
        if let Ok((_, rest)) = read_optional_number(rest, INFO_SECOND) {
            lemma_reading_consumes(rest);
        }
    }
}

proof fn lemma_read_children_consumes(b: Seq<u8>, count: nat)
    ensures
        read_children(b, count) matches Ok((children, rest)) ==> rest.len() <= b.len(),
    decreases b.len(), 4nat,
{
    if count > 0 {
        if let Ok((_, rest)) = read_child(b) {
            if rest.len() < b.len() {
                lemma_read_children_consumes(rest, (count - 1) as nat);
            }
        }
    }
}

} // verus!
