//! Columns of values on the wire.
//!
//! A column is an object: which values are there, and their data in the way
//! that its type is stored. A missing value leaves a gap in the data, which is
//! filled with zeros, with empty text or with missing values.

use vstd::prelude::*;

use crate::binary::blob;
use crate::binary::expect_end;
use crate::binary::expect_field;
use crate::binary::field_id;
use crate::binary::fixed;
use crate::binary::flag;
use crate::binary::items_bytes;
use crate::binary::object_end;
use crate::binary::out_of_range;
use crate::binary::prepended;
use crate::binary::read_blob;
use crate::binary::read_flag;
use crate::binary::read_items;
use crate::binary::read_text;
use crate::binary::read_uleb;
use crate::binary::text_blob;
use crate::binary::uleb;
use crate::binary::ReadResult;
use crate::errors::QuackErrorView;
use crate::storage::number_in_order;
use crate::storage::number_of;
use crate::storage::read_number;
use crate::storage::storage;
use crate::storage::value_of;
use crate::storage::Storage;
use crate::typecodec::named_once;
use crate::typecodec::text_fits;
use crate::typecodec::unsupported_type;
use crate::types::LogicalTypeView;
use crate::validity::any_null;
use crate::validity::marked;
use crate::validity::mask_of;
use crate::value::FieldView;
use crate::value::ValueView;

verus! {

/// The field that says whether a mask follows.
pub const HAS_VALIDITY: u16 = 100;

/// The field of the mask.
pub const VALIDITY: u16 = 101;

/// The field of plain data.
pub const DATA: u16 = 102;

/// The field of a struct's columns.
pub const STRUCT_COLUMNS: u16 = 103;

/// The field of the length of an array.
pub const ARRAY_SIZE: u16 = 103;

/// The field of the elements of all arrays.
pub const ARRAY_ELEMENTS: u16 = 104;

/// The field of the number of elements of all lists.
pub const LIST_SIZE: u16 = 104;

/// The field of the places of the lists.
pub const LIST_ENTRIES: u16 = 105;

/// The field of the elements of all lists.
pub const LIST_ELEMENTS: u16 = 106;

/// The field of where a list begins.
pub const ENTRY_OFFSET: u16 = 100;

/// The field of how long a list is.
pub const ENTRY_LENGTH: u16 = 101;

/// Whether the values of a type can be stored.
pub open spec fn storable(t: LogicalTypeView) -> bool
    decreases t,
{
    match storage(t) {
        Storage::Unknown => false,
        Storage::List | Storage::Array => t.children.len() == 1 && storable(
            t.children[0].logical_type,
        ),
        Storage::Struct => forall|i: int|
            0 <= i < t.children.len() ==> storable((#[trigger] t.children[i]).logical_type),
        _ => true,
    }
}

/// Whether a value is one of a type: missing, or in the one form that the type
/// gives it.
pub open spec fn holds(t: LogicalTypeView, v: ValueView) -> bool
    decreases t,
{
    v is Null || match storage(t) {
        Storage::Number { .. } => number_in_order(t, number_of(v)) && v == value_of(
            t,
            number_of(v),
        ),
        Storage::Text => v is String && text_fits(v->String_0),
        Storage::Bytes => v is Bytes && v->Bytes_0.len() <= u64::MAX,
        Storage::List => v is List && t.children.len() == 1 && forall|i: int|
            0 <= i < v->List_0.len() ==> holds(
                t.children[0].logical_type,
                #[trigger] v->List_0[i],
            ),
        Storage::Array => v is List && t.children.len() == 1 && v->List_0.len() == t.size && forall|
            i: int,
        |
            0 <= i < v->List_0.len() ==> holds(
                t.children[0].logical_type,
                #[trigger] v->List_0[i],
            ),
        Storage::Struct => v is Struct && v->Struct_0.len() == t.children.len() && forall|i: int|
            0 <= i < t.children.len() ==> (#[trigger] v->Struct_0[i]).name == t.children[i].name
                && holds(t.children[i].logical_type, v->Struct_0[i].value),
        Storage::Unknown => false,
    }
}

/// Whether all values are of a type.
#[verifier::opaque]
pub open spec fn all_hold(t: LogicalTypeView, values: Seq<ValueView>) -> bool {
    forall|i: int| 0 <= i < values.len() ==> holds(t, #[trigger] values[i])
}

/// The elements of a list; none for a missing one.
pub open spec fn elements(v: ValueView) -> Seq<ValueView> {
    match v {
        ValueView::List(items) => items,
        _ => seq![],
    }
}

/// The elements of an array; a missing array has only missing elements.
pub open spec fn array_elements(v: ValueView, size: nat) -> Seq<ValueView> {
    match v {
        ValueView::List(items) => items,
        _ => Seq::new(size, |i: int| ValueView::Null),
    }
}

/// The elements of all values, one after the other.
pub open spec fn flat(
    values: Seq<ValueView>,
    parts: spec_fn(ValueView) -> Seq<ValueView>,
) -> Seq<ValueView>
    decreases values.len(),
{
    if values.len() == 0 {
        seq![]
    } else {
        flat(values.drop_last(), parts) + parts(values.last())
    }
}

/// The elements of each list.
pub open spec fn list_parts() -> spec_fn(ValueView) -> Seq<ValueView> {
    |v: ValueView| elements(v)
}

/// The elements of each array.
pub open spec fn array_parts(size: nat) -> spec_fn(ValueView) -> Seq<ValueView> {
    |v: ValueView| array_elements(v, size)
}

/// The elements of all lists, one after the other.
pub open spec fn flat_lists(values: Seq<ValueView>) -> Seq<ValueView> {
    flat(values, list_parts())
}

/// The elements of all arrays, one after the other.
pub open spec fn flat_arrays(values: Seq<ValueView>, size: nat) -> Seq<ValueView> {
    flat(values, array_parts(size))
}

/// One field of a struct; missing for a missing struct.
pub open spec fn member(v: ValueView, j: int) -> ValueView {
    match v {
        ValueView::Struct(fields) => if 0 <= j < fields.len() {
            fields[j].value
        } else {
            ValueView::Null
        },
        _ => ValueView::Null,
    }
}

/// One field of all structs.
pub open spec fn members(values: Seq<ValueView>, j: int) -> Seq<ValueView> {
    Seq::new(values.len(), |i: int| member(values[i], j))
}

/// The numbers that values are stored as.
pub open spec fn numbers(values: Seq<ValueView>) -> Seq<int> {
    Seq::new(values.len(), |i: int| number_of(values[i]))
}

/// The text of a value.
pub open spec fn text_of(v: ValueView) -> Seq<char> {
    match v {
        ValueView::String(text) => text,
        _ => seq![],
    }
}

/// The texts of values.
pub open spec fn texts(values: Seq<ValueView>) -> Seq<Seq<char>> {
    Seq::new(values.len(), |i: int| text_of(values[i]))
}

/// The bytes of a value.
pub open spec fn bytes_of(v: ValueView) -> Seq<u8> {
    match v {
        ValueView::Bytes(bytes) => bytes,
        _ => seq![],
    }
}

/// The bytes of values.
pub open spec fn byte_strings(values: Seq<ValueView>) -> Seq<Seq<u8>> {
    Seq::new(values.len(), |i: int| bytes_of(values[i]))
}

/// Where the lists lie among the elements of all lists: where each begins, and
/// how long it is.
pub open spec fn list_entries(values: Seq<ValueView>) -> Seq<(u64, u64)> {
    Seq::new(
        values.len(),
        |i: int| (flat_lists(values.take(i)).len() as u64, elements(values[i]).len() as u64),
    )
}

/// The place of a list.
pub open spec fn entry_bytes(entry: (u64, u64)) -> Seq<u8> {
    field_id(ENTRY_OFFSET) + (uleb(entry.0 as nat) + (field_id(ENTRY_LENGTH) + (uleb(entry.1 as nat)
        + object_end())))
}

/// How each number is written.
pub open spec fn number_writer(width: nat) -> spec_fn(int) -> Seq<u8> {
    |n: int| fixed(n, width)
}

/// How each text is written.
pub open spec fn text_writer() -> spec_fn(Seq<char>) -> Seq<u8> {
    |text: Seq<char>| text_blob(text)
}

/// How each byte string is written.
pub open spec fn blob_writer() -> spec_fn(Seq<u8>) -> Seq<u8> {
    |bytes: Seq<u8>| blob(bytes)
}

/// How the place of each list is written.
pub open spec fn entry_writer() -> spec_fn((u64, u64)) -> Seq<u8> {
    |entry: (u64, u64)| entry_bytes(entry)
}

/// How each number is read.
pub open spec fn number_reader(width: nat, signed: bool) -> spec_fn(Seq<u8>) -> ReadResult<int> {
    |b: Seq<u8>| read_number(b, width, signed)
}

/// How each text is read.
pub open spec fn text_reader() -> spec_fn(Seq<u8>) -> ReadResult<Seq<char>> {
    |b: Seq<u8>| read_text(b)
}

/// How each byte string is read.
pub open spec fn blob_reader() -> spec_fn(Seq<u8>) -> ReadResult<Seq<u8>> {
    |b: Seq<u8>| read_blob(b)
}

/// How the place of each list is read.
pub open spec fn entry_reader() -> spec_fn(Seq<u8>) -> ReadResult<(u64, u64)> {
    |b: Seq<u8>| read_entry(b)
}

/// Whether the numbers of values and elements of a column can be counted.
pub open spec fn countable(t: LogicalTypeView, values: Seq<ValueView>) -> bool
    decreases t,
{
    values.len() <= usize::MAX && match storage(t) {
        Storage::Number { width, .. } => width * values.len() <= u64::MAX,
        Storage::List => t.children.len() == 1 ==> countable(
            t.children[0].logical_type,
            flat_lists(values),
        ),
        Storage::Array => t.children.len() == 1 ==> countable(
            t.children[0].logical_type,
            flat_arrays(values, t.size as nat),
        ),
        Storage::Struct => forall|j: int|
            0 <= j < t.children.len() ==> countable(
                (#[trigger] t.children[j]).logical_type,
                members(values, j),
            ),
        _ => true,
    }
}

/// Which values are there.
pub open spec fn validity_bytes(values: Seq<ValueView>) -> Seq<u8> {
    if any_null(values) {
        field_id(HAS_VALIDITY) + (flag(true) + (field_id(VALIDITY) + blob(mask_of(values))))
    } else {
        field_id(HAS_VALIDITY) + flag(false)
    }
}

/// The bytes of a column.
pub open spec fn vector_bytes(t: LogicalTypeView, values: Seq<ValueView>) -> Seq<u8>
    decreases t, 2nat, 0nat,
{
    validity_bytes(values) + (data_bytes(t, values) + object_end())
}

/// The bytes of a column's data.
pub open spec fn data_bytes(t: LogicalTypeView, values: Seq<ValueView>) -> Seq<u8>
    decreases t, 1nat, 0nat,
{
    match storage(t) {
        Storage::Number { width, .. } => field_id(DATA) + blob(
            items_bytes(numbers(values), number_writer(width as nat)),
        ),
        Storage::Text => field_id(DATA) + (uleb(values.len()) + items_bytes(
            texts(values),
            text_writer(),
        )),
        Storage::Bytes => field_id(DATA) + (uleb(values.len()) + items_bytes(
            byte_strings(values),
            blob_writer(),
        )),
        Storage::List => if t.children.len() == 0 {
            seq![]
        } else {
            field_id(LIST_SIZE) + (uleb(flat_lists(values).len()) + (field_id(LIST_ENTRIES) + (uleb(
                values.len(),
            ) + (items_bytes(list_entries(values), entry_writer()) + (
            field_id(LIST_ELEMENTS) + vector_bytes(
                t.children[0].logical_type,
                flat_lists(values),
            ))))))
        },
        Storage::Array => if t.children.len() == 0 {
            seq![]
        } else {
            field_id(ARRAY_SIZE) + (uleb(t.size as nat) + (field_id(ARRAY_ELEMENTS) + vector_bytes(
                t.children[0].logical_type,
                flat_arrays(values, t.size as nat),
            )))
        },
        Storage::Struct => field_id(STRUCT_COLUMNS) + (uleb(t.children.len()) + struct_bytes(
            t,
            values,
            0,
        )),
        Storage::Unknown => seq![],
    }
}

/// The bytes of the columns of a struct, from one of them on.
pub open spec fn struct_bytes(t: LogicalTypeView, values: Seq<ValueView>, from: nat) -> Seq<u8>
    decreases t, 0nat, t.children.len() - from,
{
    if from >= t.children.len() {
        seq![]
    } else {
        vector_bytes(t.children[from as int].logical_type, members(values, from as int))
            + struct_bytes(t, values, from + 1)
    }
}

/// A breach of the protocol in a column.
pub open spec fn bad_column(message: Seq<char>) -> QuackErrorView {
    QuackErrorView::Protocol(message)
}

/// Which of so many values are there: all of them, or as a mask says.
pub open spec fn read_validity(b: Seq<u8>, count: nat) -> ReadResult<Option<Seq<u8>>> {
    match expect_field(b, HAS_VALIDITY) {
        Err(error) => Err(error),
        Ok((_, b)) => match read_flag(b) {
            Err(error) => Err(error),
            Ok((false, rest)) => Ok((None, rest)),
            Ok((true, b)) => match expect_field(b, VALIDITY) {
                Err(error) => Err(error),
                Ok((_, b)) => match read_blob(b) {
                    Err(error) => Err(error),
                    Ok((mask, rest)) => if mask.len() * 8 < count {
                        Err(bad_column("validity mask is too short"@))
                    } else {
                        Ok((Some(mask), rest))
                    },
                },
            },
        },
    }
}

/// Whether there is a value at some place.
pub open spec fn shown(mask: Option<Seq<u8>>, i: int) -> bool {
    match mask {
        None => true,
        Some(mask) => marked(mask, i),
    }
}

/// Values, without those that are not there.
pub open spec fn masked(values: Seq<ValueView>, mask: Option<Seq<u8>>) -> Seq<ValueView> {
    Seq::new(
        values.len(),
        |i: int|
            if shown(mask, i) {
                values[i]
            } else {
                ValueView::Null
            },
    )
}

/// A number of items that must be a certain one.
pub open spec fn expect_count(b: Seq<u8>, count: nat) -> ReadResult<()> {
    match read_uleb(b) {
        Err(error) => Err(error),
        Ok((found, rest)) => if found == count {
            Ok(((), rest))
        } else {
            Err(bad_column("column does not have the expected number of items"@))
        },
    }
}

/// So many numbers, in a number of bytes that holds just these.
pub open spec fn read_numbers(b: Seq<u8>, count: nat, width: nat, signed: bool) -> ReadResult<
    Seq<int>,
> {
    match read_blob(b) {
        Err(error) => Err(error),
        Ok((data, rest)) => match read_items(
            data,
            count,
            number_reader(width, signed),
        ) {
            Err(error) => Err(error),
            Ok((numbers, after)) => if after.len() == 0 {
                Ok((numbers, rest))
            } else {
                Err(bad_column("column does not have the expected number of items"@))
            },
        },
    }
}

/// The place of a list.
pub open spec fn read_entry(b: Seq<u8>) -> ReadResult<(u64, u64)> {
    match expect_field(b, ENTRY_OFFSET) {
        Err(error) => Err(error),
        Ok((_, b)) => match read_uleb(b) {
            Err(error) => Err(error),
            Ok((offset, b)) => match expect_field(b, ENTRY_LENGTH) {
                Err(error) => Err(error),
                Ok((_, b)) => match read_uleb(b) {
                    Err(error) => Err(error),
                    Ok((length, b)) => match expect_end(b) {
                        Err(error) => Err(error),
                        Ok((_, rest)) => Ok(((offset, length), rest)),
                    },
                },
            },
        },
    }
}

/// Whether the lists that are there all lie among so many elements.
#[verifier::opaque]
pub open spec fn entries_in_range(
    entries: Seq<(u64, u64)>,
    mask: Option<Seq<u8>>,
    size: nat,
) -> bool {
    forall|i: int|
        0 <= i < entries.len() && shown(mask, i) ==> (#[trigger] entries[i]).0 + entries[i].1
            <= size
}

/// Lists, cut out of the elements of all lists.
pub open spec fn lists_of(
    entries: Seq<(u64, u64)>,
    mask: Option<Seq<u8>>,
    elements: Seq<ValueView>,
) -> Seq<ValueView> {
    Seq::new(
        entries.len(),
        |i: int|
            if shown(mask, i) {
                ValueView::List(
                    elements.subrange(
                        entries[i].0 as int,
                        entries[i].0 as int + entries[i].1 as int,
                    ),
                )
            } else {
                ValueView::Null
            },
    )
}

/// Arrays, cut out of the elements of all arrays.
pub open spec fn arrays_of(elements: Seq<ValueView>, count: nat, size: nat) -> Seq<ValueView> {
    Seq::new(
        count,
        |i: int| ValueView::List(elements.subrange(i * size, i * size + size)),
    )
}

/// Structs, put together from the columns of their fields.
pub open spec fn structs_of(
    t: LogicalTypeView,
    columns: Seq<Seq<ValueView>>,
    count: nat,
) -> Seq<ValueView> {
    Seq::new(
        count,
        |i: int|
            ValueView::Struct(
                Seq::new(
                    t.children.len(),
                    |j: int| FieldView { name: t.children[j].name, value: columns[j][i] },
                ),
            ),
    )
}

/// A column of so many values.
pub open spec fn read_vector(t: LogicalTypeView, count: nat, b: Seq<u8>) -> ReadResult<
    Seq<ValueView>,
>
    decreases t, 2nat, 0nat,
{
    match read_validity(b, count) {
        Err(error) => Err(error),
        Ok((mask, b)) => match read_data(t, count, mask, b) {
            Err(error) => Err(error),
            Ok((values, b)) => match expect_end(b) {
                Err(error) => Err(error),
                Ok((_, rest)) => Ok((masked(values, mask), rest)),
            },
        },
    }
}

/// The data of so many values; what it gives for a value that is not there
/// plays no part.
pub open spec fn read_data(
    t: LogicalTypeView,
    count: nat,
    mask: Option<Seq<u8>>,
    b: Seq<u8>,
) -> ReadResult<Seq<ValueView>>
    decreases t, 1nat, 0nat,
{
    match storage(t) {
        Storage::Number { width, signed } => match expect_field(b, DATA) {
            Err(error) => Err(error),
            Ok((_, b)) => match read_numbers(b, count, width as nat, signed) {
                Err(error) => Err(error),
                Ok((numbers, rest)) => Ok(
                    (Seq::new(numbers.len(), |i: int| value_of(t, numbers[i])), rest),
                ),
            },
        },
        Storage::Text => match expect_field(b, DATA) {
            Err(error) => Err(error),
            Ok((_, b)) => match expect_count(b, count) {
                Err(error) => Err(error),
                Ok((_, b)) => match read_items(b, count, text_reader()) {
                    Err(error) => Err(error),
                    Ok((texts, rest)) => Ok(
                        (Seq::new(texts.len(), |i: int| ValueView::String(texts[i])), rest),
                    ),
                },
            },
        },
        Storage::Bytes => match expect_field(b, DATA) {
            Err(error) => Err(error),
            Ok((_, b)) => match expect_count(b, count) {
                Err(error) => Err(error),
                Ok((_, b)) => match read_items(b, count, blob_reader()) {
                    Err(error) => Err(error),
                    Ok((blobs, rest)) => Ok(
                        (Seq::new(blobs.len(), |i: int| ValueView::Bytes(blobs[i])), rest),
                    ),
                },
            },
        },
        Storage::List => match expect_field(b, LIST_SIZE) {
            Err(error) => Err(error),
            Ok((_, b)) => match read_uleb(b) {
                Err(error) => Err(error),
                Ok((size, b)) => match expect_field(b, LIST_ENTRIES) {
                    Err(error) => Err(error),
                    Ok((_, b)) => match expect_count(b, count) {
                        Err(error) => Err(error),
                        Ok((_, b)) => match read_items(b, count, entry_reader()) {
                            Err(error) => Err(error),
                            Ok((entries, b)) => match expect_field(b, LIST_ELEMENTS) {
                                Err(error) => Err(error),
                                Ok((_, b)) => if t.children.len() != 1 {
                                    Err(unsupported_type(t.id.spec_code() as nat))
                                } else if size > usize::MAX {
                                    Err(out_of_range())
                                } else if !entries_in_range(entries, mask, size as nat) {
                                    Err(bad_column("list lies outside of its elements"@))
                                } else {
                                    match read_vector(
                                        t.children[0].logical_type,
                                        size as nat,
                                        b,
                                    ) {
                                        Err(error) => Err(error),
                                        Ok((elements, rest)) => Ok(
                                            (lists_of(entries, mask, elements), rest),
                                        ),
                                    }
                                },
                            },
                        },
                    },
                },
            },
        },
        Storage::Array => match expect_field(b, ARRAY_SIZE) {
            Err(error) => Err(error),
            Ok((_, b)) => match expect_count(b, t.size as nat) {
                Err(error) => Err(error),
                Ok((_, b)) => match expect_field(b, ARRAY_ELEMENTS) {
                    Err(error) => Err(error),
                    Ok((_, b)) => if t.children.len() != 1 {
                        Err(unsupported_type(t.id.spec_code() as nat))
                    } else if count * t.size > usize::MAX {
                        Err(out_of_range())
                    } else {
                        match read_vector(
                            t.children[0].logical_type,
                            count * t.size as nat,
                            b,
                        ) {
                            Err(error) => Err(error),
                            Ok((elements, rest)) => Ok(
                                (arrays_of(elements, count, t.size as nat), rest),
                            ),
                        }
                    },
                },
            },
        },
        Storage::Struct => match expect_field(b, STRUCT_COLUMNS) {
            Err(error) => Err(error),
            Ok((_, b)) => match expect_count(b, t.children.len()) {
                Err(error) => Err(error),
                Ok((_, b)) => if !named_once(t.children) {
                    Err(unsupported_type(t.id.spec_code() as nat))
                } else {
                    match read_struct(t, count, b, 0) {
                        Err(error) => Err(error),
                        Ok((columns, rest)) => Ok((structs_of(t, columns, count), rest)),
                    }
                },
            },
        },
        Storage::Unknown => Err(unsupported_type(t.id.spec_code() as nat)),
    }
}

/// The columns of a struct, from one of them on.
pub open spec fn read_struct(t: LogicalTypeView, count: nat, b: Seq<u8>, from: nat) -> ReadResult<
    Seq<Seq<ValueView>>,
>
    decreases t, 0nat, t.children.len() - from,
{
    if from >= t.children.len() {
        Ok((seq![], b))
    } else {
        match read_vector(t.children[from as int].logical_type, count, b) {
            Err(error) => Err(error),
            Ok((column, rest)) => prepended(seq![column], read_struct(t, count, rest, from + 1)),
        }
    }
}

} // verus!
