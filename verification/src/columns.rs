//! Writing and reading columns.

use vstd::prelude::*;

use crate::binary::blob;
use crate::binary::expect_field;
use crate::binary::field_id;
use crate::binary::flag;
use crate::binary::items_bytes;
use crate::binary::lemma_items_bytes_push;
use crate::binary::lemma_joined_bytes;
use crate::binary::lemma_prepended;
use crate::binary::lemma_read_items_step;
use crate::binary::lemma_written2;
use crate::binary::lemma_written3;
use crate::binary::lemma_written4;
use crate::binary::lemma_written5;
use crate::binary::object_end;
use crate::binary::prepended;
use crate::binary::read_blob;
use crate::binary::read_items;
use crate::binary::reads;
use crate::binary::text_blob;
use crate::binary::uleb;
use crate::binary::BinaryReader;
use crate::binary::BinaryWriter;
use crate::binary::ReadResult;
use crate::errors::QuackError;
use crate::errors::QuackErrorView;
use crate::roundtrip::lemma_flat_at;
use crate::roundtrip::lemma_flat_take;
use crate::storage::decode_number;
use crate::storage::storage;
use crate::storage::storage_of;
use crate::storage::stored_number;
use crate::storage::value_from_number;
use crate::storage::value_of;
use crate::storage::Storage;
use crate::typecodec::are_named_once;
use crate::typecodec::named_once;
use crate::typecodec::unsupported_type_error;
use crate::types::lemma_children_view;
use crate::types::views;
use crate::types::LogicalType;
use crate::types::LogicalTypeView;
use crate::validity::has_null;
use crate::validity::is_marked;
use crate::validity::marked;
use crate::validity::validity_mask;
use crate::value::lemma_nested_view;
use crate::value::fields_named_once;
use crate::value::Field;
use crate::value::StructValue;
use crate::value::FieldView;
use crate::value::Value;
use crate::value::ValueView;
use crate::vector::array_elements;
use crate::vector::array_parts;
use crate::vector::arrays_of;
use crate::vector::blob_reader;
use crate::vector::blob_writer;
use crate::vector::byte_strings;
use crate::vector::bytes_of;
use crate::vector::data_bytes;
use crate::vector::elements;
use crate::vector::entries_in_range;
use crate::vector::entry_bytes;
use crate::vector::entry_reader;
use crate::vector::entry_writer;
use crate::vector::expect_count;
use crate::vector::flat_arrays;
use crate::vector::flat_lists;
use crate::vector::list_entries;
use crate::vector::list_parts;
use crate::vector::lists_of;
use crate::vector::masked;
use crate::vector::member;
use crate::vector::members;
use crate::vector::number_reader;
use crate::vector::number_writer;
use crate::vector::numbers;
use crate::vector::read_data;
use crate::vector::read_entry;
use crate::vector::read_numbers;
use crate::vector::read_struct;
use crate::vector::read_validity;
use crate::vector::read_vector;
use crate::vector::shown;
use crate::vector::storable;
use crate::vector::struct_bytes;
use crate::vector::structs_of;
use crate::vector::text_of;
use crate::vector::text_reader;
use crate::vector::text_writer;
use crate::vector::texts;
use crate::vector::validity_bytes;
use crate::vector::vector_bytes;
use crate::vector::ARRAY_ELEMENTS;
use crate::vector::ARRAY_SIZE;
use crate::vector::DATA;
use crate::vector::ENTRY_LENGTH;
use crate::vector::ENTRY_OFFSET;
use crate::vector::HAS_VALIDITY;
use crate::vector::LIST_ELEMENTS;
use crate::vector::LIST_ENTRIES;
use crate::vector::LIST_SIZE;
use crate::vector::STRUCT_COLUMNS;
use crate::vector::VALIDITY;

verus! {

// ---------------------------------------------------------------------------
// Writing
// ---------------------------------------------------------------------------
fn write_validity(writer: &mut BinaryWriter, values: &Vec<&Value>)
    ensures
        final(writer)@ == old(writer)@ + validity_bytes(views(values@)),
{
    writer.write_field(HAS_VALIDITY);
    if has_null(values) {
        writer.write_bool(true);
        writer.write_field(VALIDITY);
        let mask = validity_mask(values);
        writer.write_blob(mask.as_slice());
        proof {
            lemma_written4(
                old(writer)@,
                field_id(HAS_VALIDITY),
                flag(true),
                field_id(VALIDITY),
                blob(mask@),
            );
        }
    } else {
        writer.write_bool(false);
        proof {
            lemma_written2(old(writer)@, field_id(HAS_VALIDITY), flag(false));
        }
    }
}

fn write_numbers(writer: &mut BinaryWriter, values: &Vec<&Value>, width: usize)
    ensures
        final(writer)@ == old(writer)@ + blob(
            items_bytes(numbers(views(values@)), number_writer(width as nat)),
        ),
{
    let ghost ns = numbers(views(values@));
    let mut data = BinaryWriter::new();
    let count: usize = values.len();
    assert(items_bytes(ns.take(0), number_writer(width as nat)) =~= seq![]);
    for i in 0..count
        invariant
            count == values@.len(),
            ns == numbers(views(values@)),
            data@ == items_bytes(ns.take(i as int), number_writer(width as nat)),
    {
        data.write_fixed(stored_number(values[i]), width);
        proof {
            lemma_items_bytes_push(ns.take(i as int), ns[i as int], number_writer(width as nat));
            assert(ns.take(i + 1) =~= ns.take(i as int).push(ns[i as int]));
        }
    }
    assert(ns.take(count as int) =~= ns);
    let bytes = data.into_bytes();
    writer.write_blob(bytes.as_slice());
}

fn write_texts(writer: &mut BinaryWriter, values: &Vec<&Value>)
    ensures
        final(writer)@ == old(writer)@ + (uleb(values@.len()) + items_bytes(
            texts(views(values@)),
            text_writer(),
        )),
{
    let ghost ts = texts(views(values@));
    let count: usize = values.len();
    let empty = String::new();
    writer.write_uleb(count as u64);
    let ghost before = writer@;
    assert(items_bytes(ts.take(0), text_writer()) =~= seq![]);
    assert(before + seq![] =~= before);
    for i in 0..count
        invariant
            count == values@.len(),
            ts == texts(views(values@)),
            empty@ == Seq::<char>::empty(),
            writer@ == before + items_bytes(ts.take(i as int), text_writer()),
    {
        let ghost written = writer@;
        match values[i] {
            Value::String(text) => writer.write_string(text.as_str()),
            _ => writer.write_string(empty.as_str()),
        }
        proof {
            assert(ts[i as int] =~= text_of(values@[i as int]@));
            assert(writer@ == written + text_blob(ts[i as int]));
            lemma_items_bytes_push(ts.take(i as int), ts[i as int], text_writer());
            assert(ts.take(i + 1) =~= ts.take(i as int).push(ts[i as int]));
            lemma_joined_bytes(
                before,
                items_bytes(ts.take(i as int), text_writer()),
                text_blob(ts[i as int]),
            );
        }
    }
    proof {
        assert(ts.take(count as int) =~= ts);
        lemma_written2(old(writer)@, uleb(count as nat), items_bytes(ts, text_writer()));
    }
}

fn write_byte_strings(writer: &mut BinaryWriter, values: &Vec<&Value>)
    ensures
        final(writer)@ == old(writer)@ + (uleb(values@.len()) + items_bytes(
            byte_strings(views(values@)),
            blob_writer(),
        )),
{
    let ghost bs = byte_strings(views(values@));
    let count: usize = values.len();
    let empty: Vec<u8> = Vec::new();
    writer.write_uleb(count as u64);
    let ghost before = writer@;
    assert(items_bytes(bs.take(0), blob_writer()) =~= seq![]);
    assert(before + seq![] =~= before);
    for i in 0..count
        invariant
            count == values@.len(),
            bs == byte_strings(views(values@)),
            empty@ == Seq::<u8>::empty(),
            writer@ == before + items_bytes(bs.take(i as int), blob_writer()),
    {
        let ghost written = writer@;
        match values[i] {
            Value::Bytes(bytes) => writer.write_blob(bytes.as_slice()),
            _ => writer.write_blob(empty.as_slice()),
        }
        proof {
            assert(bs[i as int] =~= bytes_of(values@[i as int]@));
            assert(writer@ == written + blob(bs[i as int]));
            lemma_items_bytes_push(bs.take(i as int), bs[i as int], blob_writer());
            assert(bs.take(i + 1) =~= bs.take(i as int).push(bs[i as int]));
            lemma_joined_bytes(
                before,
                items_bytes(bs.take(i as int), blob_writer()),
                blob(bs[i as int]),
            );
        }
    }
    proof {
        assert(bs.take(count as int) =~= bs);
        lemma_written2(old(writer)@, uleb(count as nat), items_bytes(bs, blob_writer()));
    }
}

/// The elements of a list; none for anything else.
fn list_items<'a>(value: &'a Value) -> (items: Option<&'a Vec<Value>>)
    ensures
        match items {
            Some(items) => value@ == ValueView::List(views(items@)),
            None => !(value@ is List),
        },
{
    proof {
        lemma_nested_view(*value);
    }
    match value {
        Value::List(items) => Some(items),
        _ => None,
    }
}

fn push_items<'a>(all: &mut Vec<&'a Value>, items: &'a Vec<Value>)
    ensures
        views(final(all)@) == views(old(all)@) + views(items@),
{
    let count: usize = items.len();
    assert(views(all@) + views(items@).take(0) =~= views(all@));
    for k in 0..count
        invariant
            count == items@.len(),
            views(all@) == views(old(all)@) + views(items@).take(k as int),
    {
        let ghost before = all@;
        all.push(&items[k]);
        proof {
            assert(views(all@) =~= views(before).push(items@[k as int]@));
            assert(views(items@).take(k + 1) =~= views(items@).take(k as int).push(
                items@[k as int]@,
            ));
            assert(views(all@) =~= views(old(all)@) + views(items@).take(k + 1));
        }
    }
    assert(views(items@).take(count as int) =~= views(items@));
}

/// The elements of all lists, one after the other.
fn all_list_items<'a>(values: &Vec<&'a Value>) -> (all: Vec<&'a Value>)
    ensures
        views(all@) == flat_lists(views(values@)),
{
    let mut all: Vec<&'a Value> = Vec::new();
    let count: usize = values.len();
    assert(views(all@) =~= flat_lists(views(values@).take(0)));
    for i in 0..count
        invariant
            count == values@.len(),
            views(all@) == flat_lists(views(values@).take(i as int)),
    {
        proof {
            lemma_flat_take(views(values@), list_parts(), i as int);
            assert(views(values@)[i as int] == values@[i as int]@);
        }
        match list_items(values[i]) {
            Some(items) => {
                push_items(&mut all, items);
            },
            None => {
                assert(views(all@) + seq![] =~= views(all@));
            },
        }
    }
    assert(views(values@).take(count as int) =~= views(values@));
    all
}

/// The elements of all arrays, one after the other.
fn all_array_items<'a>(values: &Vec<&'a Value>, size: u32, null: &'a Value) -> (all: Vec<&'a Value>)
    requires
        null@ is Null,
    ensures
        views(all@) == flat_arrays(views(values@), size as nat),
{
    let mut all: Vec<&'a Value> = Vec::new();
    let count: usize = values.len();
    assert(views(all@) =~= flat_arrays(views(values@).take(0), size as nat));
    for i in 0..count
        invariant
            count == values@.len(),
            null@ is Null,
            views(all@) == flat_arrays(views(values@).take(i as int), size as nat),
    {
        proof {
            lemma_flat_take(views(values@), array_parts(size as nat), i as int);
            assert(views(values@)[i as int] == values@[i as int]@);
        }
        match list_items(values[i]) {
            Some(items) => {
                push_items(&mut all, items);
            },
            None => {
                let ghost before = all@;
                let ghost gap = Seq::new(size as nat, |k: int| ValueView::Null);
                assert(views(before) + gap.take(0) =~= views(before));
                for k in 0..size
                    invariant
                        null@ is Null,
                        gap == Seq::new(size as nat, |k: int| ValueView::Null),
                        views(all@) == views(before) + gap.take(k as int),
                {
                    let ghost so_far = all@;
                    all.push(null);
                    proof {
                        assert(views(all@) =~= views(so_far).push(ValueView::Null));
                        assert(gap.take(k + 1) =~= gap.take(k as int).push(ValueView::Null));
                        assert(views(all@) =~= views(before) + gap.take(k + 1));
                    }
                }
                assert(gap.take(size as int) =~= gap);
                assert(array_elements(values@[i as int]@, size as nat) =~= gap);
            },
        }
    }
    assert(views(values@).take(count as int) =~= views(values@));
    all
}

/// One field of all structs.
fn struct_column<'a>(values: &Vec<&'a Value>, j: usize, null: &'a Value) -> (column: Vec<&'a Value>)
    requires
        null@ is Null,
    ensures
        views(column@) == members(views(values@), j as int),
{
    let mut column: Vec<&'a Value> = Vec::new();
    let count: usize = values.len();
    for i in 0..count
        invariant
            count == values@.len(),
            null@ is Null,
            column@.len() == i,
            forall|k: int|
                0 <= k < i ==> (#[trigger] column@[k])@ == member(values@[k]@, j as int),
    {
        let value: &'a Value = values[i];
        proof {
            lemma_nested_view(*value);
        }
        match value {
            Value::Struct(fields) => if j < fields.len() {
                column.push(&fields.field(j).value);
            } else {
                column.push(null);
            },
            _ => column.push(null),
        }
    }
    assert(views(column@) =~= members(views(values@), j as int));
    column
}

fn write_entries(writer: &mut BinaryWriter, values: &Vec<&Value>)
    requires
        flat_lists(views(values@)).len() <= usize::MAX,
    ensures
        final(writer)@ == old(writer)@ + items_bytes(
            list_entries(views(values@)),
            entry_writer(),
        ),
{
    let ghost vs = views(values@);
    let ghost entries = list_entries(vs);
    let count: usize = values.len();
    let mut offset: usize = 0;
    assert(items_bytes(entries.take(0), entry_writer()) =~= seq![]);
    assert(writer@ + seq![] =~= writer@);
    for i in 0..count
        invariant
            count == values@.len(),
            vs == views(values@),
            entries == list_entries(vs),
            flat_lists(vs).len() <= usize::MAX,
            offset == flat_lists(vs.take(i as int)).len(),
            writer@ == old(writer)@ + items_bytes(entries.take(i as int), entry_writer()),
    {
        proof {
            lemma_flat_at(vs, list_parts(), i as int);
            lemma_flat_take(vs, list_parts(), i as int);
            assert(vs[i as int] == values@[i as int]@);
        }
        let length: usize = match list_items(values[i]) {
            Some(items) => items.len(),
            None => 0,
        };
        let ghost before = writer@;
        writer.write_field(ENTRY_OFFSET);
        writer.write_uleb(offset as u64);
        writer.write_field(ENTRY_LENGTH);
        writer.write_uleb(length as u64);
        writer.end_object();
        proof {
            let entry = entries[i as int];
            assert(entry == (offset as u64, length as u64));
            lemma_written5(
                before,
                field_id(ENTRY_OFFSET),
                uleb(entry.0 as nat),
                field_id(ENTRY_LENGTH),
                uleb(entry.1 as nat),
                object_end(),
            );
            lemma_items_bytes_push(entries.take(i as int), entry, entry_writer());
            assert(entries.take(i + 1) =~= entries.take(i as int).push(entry));
            lemma_joined_bytes(
                old(writer)@,
                items_bytes(entries.take(i as int), entry_writer()),
                entry_bytes(entry),
            );
        }
        offset = offset + length;
    }
    assert(entries.take(count as int) =~= entries);
}

/// Writes a column.
pub(crate) fn write_vector(writer: &mut BinaryWriter, t: &LogicalType, values: &Vec<&Value>)
    requires
        storable(t@),
    ensures
        final(writer)@ == old(writer)@ + vector_bytes(t@, views(values@)),
    decreases t, 2nat, 0nat,
{
    write_validity(writer, values);
    write_data(writer, t, values);
    writer.end_object();
    proof {
        lemma_written3(
            old(writer)@,
            validity_bytes(views(values@)),
            data_bytes(t@, views(values@)),
            object_end(),
        );
    }
}

fn write_data(writer: &mut BinaryWriter, t: &LogicalType, values: &Vec<&Value>)
    requires
        storable(t@),
    ensures
        final(writer)@ == old(writer)@ + data_bytes(t@, views(values@)),
    decreases t, 1nat, 0nat,
{
    let ghost vs = views(values@);
    proof {
        lemma_children_view(*t);
    }
    match storage_of(t) {
        Storage::Number { width, signed: _ } => {
            writer.write_field(DATA);
            write_numbers(writer, values, width);
            proof {
                lemma_written2(
                    old(writer)@,
                    field_id(DATA),
                    blob(items_bytes(numbers(vs), number_writer(width as nat))),
                );
            }
        },
        Storage::Text => {
            writer.write_field(DATA);
            write_texts(writer, values);
            proof {
                lemma_written2(
                    old(writer)@,
                    field_id(DATA),
                    uleb(vs.len()) + items_bytes(texts(vs), text_writer()),
                );
            }
        },
        Storage::Bytes => {
            writer.write_field(DATA);
            write_byte_strings(writer, values);
            proof {
                lemma_written2(
                    old(writer)@,
                    field_id(DATA),
                    uleb(vs.len()) + items_bytes(byte_strings(vs), blob_writer()),
                );
            }
        },
        Storage::List => {
            let all = all_list_items(values);
            assert(views(all@).len() == all@.len());
            writer.write_field(LIST_SIZE);
            writer.write_uleb(all.len() as u64);
            writer.write_field(LIST_ENTRIES);
            writer.write_uleb(values.len() as u64);
            let ghost head = writer@;
            write_entries(writer, values);
            writer.write_field(LIST_ELEMENTS);
            assert(t@.children[0] == t.children@[0]@);
            assert(decreases_to!(*t => t.children@[0].logical_type));
            write_vector(writer, &t.children[0].logical_type, &all);
            proof {
                let places = items_bytes(list_entries(vs), entry_writer());
                let column = vector_bytes(t@.children[0].logical_type, flat_lists(vs));
                lemma_written3(head, places, field_id(LIST_ELEMENTS), column);
                lemma_written5(
                    old(writer)@,
                    field_id(LIST_SIZE),
                    uleb(flat_lists(vs).len()),
                    field_id(LIST_ENTRIES),
                    uleb(vs.len()),
                    places + (field_id(LIST_ELEMENTS) + column),
                );
            }
        },
        Storage::Array => {
            let null = Value::Null;
            let all = all_array_items(values, t.size, &null);
            writer.write_field(ARRAY_SIZE);
            writer.write_uleb(t.size as u64);
            writer.write_field(ARRAY_ELEMENTS);
            assert(t@.children[0] == t.children@[0]@);
            assert(decreases_to!(*t => t.children@[0].logical_type));
            write_vector(writer, &t.children[0].logical_type, &all);
            proof {
                lemma_written4(
                    old(writer)@,
                    field_id(ARRAY_SIZE),
                    uleb(t@.size as nat),
                    field_id(ARRAY_ELEMENTS),
                    vector_bytes(t@.children[0].logical_type, flat_arrays(vs, t@.size as nat)),
                );
            }
        },
        Storage::Struct => {
            writer.write_field(STRUCT_COLUMNS);
            writer.write_uleb(t.children.len() as u64);
            write_struct(writer, t, values, 0);
            proof {
                lemma_written3(
                    old(writer)@,
                    field_id(STRUCT_COLUMNS),
                    uleb(t@.children.len()),
                    struct_bytes(t@, vs, 0),
                );
            }
        },
        Storage::Unknown => {
            assert(false);
        },
    }
}

fn write_struct(writer: &mut BinaryWriter, t: &LogicalType, values: &Vec<&Value>, from: usize)
    requires
        storable(t@),
        storage(t@) is Struct,
        from <= t@.children.len(),
    ensures
        final(writer)@ == old(writer)@ + struct_bytes(t@, views(values@), from as nat),
    decreases t, 0nat, t@.children.len() - from,
{
    proof {
        lemma_children_view(*t);
    }
    if from < t.children.len() {
        let null = Value::Null;
        let column = struct_column(values, from, &null);
        assert(t@.children[from as int] == t.children@[from as int]@);
        assert(decreases_to!(*t => t.children@[from as int].logical_type));
        write_vector(writer, &t.children[from].logical_type, &column);
        write_struct(writer, t, values, from + 1);
        proof {
            lemma_written2(
                old(writer)@,
                vector_bytes(
                    t@.children[from as int].logical_type,
                    members(views(values@), from as int),
                ),
                struct_bytes(t@, views(values@), (from + 1) as nat),
            );
        }
    } else {
        assert(writer@ + seq![] =~= writer@);
    }
}

// ---------------------------------------------------------------------------
// Reading
// ---------------------------------------------------------------------------
/// Whether reading values did what it should.
pub open spec fn reads_values(
    outcome: Result<Vec<Value>, QuackError>,
    after: Seq<u8>,
    expected: ReadResult<Seq<ValueView>>,
) -> bool {
    match outcome {
        Ok(values) => expected == Ok::<(Seq<ValueView>, Seq<u8>), QuackErrorView>(
            (views(values@), after),
        ),
        Err(error) => expected == Err::<(Seq<ValueView>, Seq<u8>), QuackErrorView>(error@),
    }
}

/// What a mask says, if there is one.
pub open spec fn mask_view(mask: Option<Vec<u8>>) -> Option<Seq<u8>> {
    match mask {
        Some(mask) => Some(mask@),
        None => None,
    }
}

fn decode_validity(reader: &mut BinaryReader, count: usize) -> (mask: Result<
    Option<Vec<u8>>,
    QuackError,
>)
    ensures
        match mask {
            Ok(mask) => read_validity(old(reader)@, count as nat) == Ok::<
                (Option<Seq<u8>>, Seq<u8>),
                QuackErrorView,
            >((mask_view(mask), final(reader)@)),
            Err(error) => read_validity(old(reader)@, count as nat) == Err::<
                (Option<Seq<u8>>, Seq<u8>),
                QuackErrorView,
            >(error@),
        },
        mask matches Ok(Some(mask)) ==> mask@.len() * 8 >= count,
{
    if let Err(error) = reader.read_required_field(HAS_VALIDITY) {
        return Err(error);
    }
    let has_mask = match reader.read_bool() {
        Ok(has_mask) => has_mask,
        Err(error) => {
            return Err(error);
        },
    };
    if !has_mask {
        return Ok(None);
    }
    if let Err(error) = reader.read_required_field(VALIDITY) {
        return Err(error);
    }
    match reader.read_blob() {
        Err(error) => Err(error),
        Ok(mask) => {
            let needed: usize = if count % 8 == 0 {
                count / 8
            } else {
                count / 8 + 1
            };
            if mask.len() < needed {
                Err(QuackError::protocol("validity mask is too short"))
            } else {
                Ok(Some(mask))
            }
        },
    }
}

fn is_shown(mask: &Option<Vec<u8>>, i: usize) -> (b: bool)
    requires
        *mask matches Some(mask) ==> mask@.len() * 8 > i,
    ensures
        b == shown(mask_view(*mask), i as int),
{
    match mask {
        None => true,
        Some(mask) => is_marked(mask, i),
    }
}

fn apply_mask(values: &mut Vec<Value>, mask: &Option<Vec<u8>>)
    requires
        *mask matches Some(mask) ==> mask@.len() * 8 >= old(values)@.len(),
    ensures
        views(final(values)@) == masked(views(old(values)@), mask_view(*mask)),
{
    let count: usize = values.len();
    for i in 0..count
        invariant
            count == values@.len(),
            count == old(values)@.len(),
            *mask matches Some(mask) ==> mask@.len() * 8 >= count,
            forall|k: int|
                0 <= k < i ==> (#[trigger] values@[k])@ == masked(
                    views(old(values)@),
                    mask_view(*mask),
                )[k],
            forall|k: int| i <= k < count ==> #[trigger] values@[k] == old(values)@[k],
    {
        if !is_shown(mask, i) {
            values[i] = Value::Null;
        }
    }
    assert(views(values@) =~= masked(views(old(values)@), mask_view(*mask)));
}

fn decode_count(reader: &mut BinaryReader, count: u64) -> (result: Result<(), QuackError>)
    ensures
        reads(result, final(reader)@, expect_count(old(reader)@, count as nat)),
{
    match reader.read_uleb_u64() {
        Err(error) => Err(error),
        Ok(found) => if found == count {
            Ok(())
        } else {
            Err(QuackError::protocol("column does not have the expected number of items"))
        },
    }
}

fn decode_numbers(
    reader: &mut BinaryReader,
    t: &LogicalType,
    count: usize,
    width: usize,
    signed: bool,
) -> (values: Result<Vec<Value>, QuackError>)
    requires
        width <= 16,
        !signed ==> width <= 8,
    ensures
        match values {
            Ok(values) => read_numbers(old(reader)@, count as nat, width as nat, signed) matches Ok(
                (ns, rest),
            ) && rest == final(reader)@ && views(values@) == Seq::new(
                ns.len(),
                |i: int| value_of(t@, ns[i]),
            ),
            Err(error) => read_numbers(old(reader)@, count as nat, width as nat, signed) == Err::<
                (Seq<int>, Seq<u8>),
                QuackErrorView,
            >(error@),
        },
{
    let data = match reader.read_blob() {
        Ok(data) => data,
        Err(error) => {
            return Err(error);
        },
    };
    let mut inner = BinaryReader::new(data.as_slice());
    let mut values: Vec<Value> = Vec::new();
    let mut left: usize = count;
    let ghost all = data@;
    let ghost mut ns: Seq<int> = seq![];
    let ghost read = number_reader(width as nat, signed);
    proof {
        lemma_prepended(ns, 0, read_items(all, count as nat, read));
    }
    while left > 0
        invariant
            left <= count,
            width <= 16,
            !signed ==> width <= 8,
            read == number_reader(width as nat, signed),
            read_blob(old(reader)@) == Ok::<(Seq<u8>, Seq<u8>), QuackErrorView>((all, reader@)),
            read_items(all, count as nat, read) == prepended(
                ns,
                read_items(inner@, left as nat, read),
            ),
            values@.len() == ns.len(),
            forall|k: int| 0 <= k < ns.len() ==> (#[trigger] values@[k])@ == value_of(t@, ns[k]),
        decreases left,
    {
        proof {
            lemma_read_items_step(ns, inner@, left as nat, read);
        }
        match decode_number(&mut inner, width, signed) {
            Err(error) => {
                return Err(error);
            },
            Ok(n) => {
                values.push(value_from_number(t, n));
                proof {
                    ns = ns.push(n as int);
                }
                left -= 1;
            },
        }
    }
    assert(ns + seq![] =~= ns);
    if !inner.is_at_end() {
        return Err(QuackError::protocol("column does not have the expected number of items"));
    }
    assert(views(values@) =~= Seq::new(ns.len(), |i: int| value_of(t@, ns[i])));
    Ok(values)
}

fn decode_texts(reader: &mut BinaryReader, count: usize) -> (values: Result<Vec<Value>, QuackError>)
    ensures
        match values {
            Ok(values) => read_items(old(reader)@, count as nat, text_reader()) matches Ok(
                (ts, rest),
            ) && rest == final(reader)@ && views(values@) == Seq::new(
                ts.len(),
                |i: int| ValueView::String(ts[i]),
            ),
            Err(error) => read_items(old(reader)@, count as nat, text_reader()) == Err::<
                (Seq<Seq<char>>, Seq<u8>),
                QuackErrorView,
            >(error@),
        },
{
    let mut values: Vec<Value> = Vec::new();
    let mut left: usize = count;
    let ghost mut ts: Seq<Seq<char>> = seq![];
    proof {
        lemma_prepended(ts, seq![], read_items(reader@, count as nat, text_reader()));
    }
    while left > 0
        invariant
            left <= count,
            read_items(old(reader)@, count as nat, text_reader()) == prepended(
                ts,
                read_items(reader@, left as nat, text_reader()),
            ),
            values@.len() == ts.len(),
            forall|k: int|
                0 <= k < ts.len() ==> (#[trigger] values@[k])@ == ValueView::String(ts[k]),
        decreases left,
    {
        proof {
            lemma_read_items_step(ts, reader@, left as nat, text_reader());
        }
        match reader.read_string() {
            Err(error) => {
                return Err(error);
            },
            Ok(text) => {
                proof {
                    ts = ts.push(text@);
                }
                values.push(Value::String(text));
                left -= 1;
            },
        }
    }
    assert(ts + seq![] =~= ts);
    assert(views(values@) =~= Seq::new(ts.len(), |i: int| ValueView::String(ts[i])));
    Ok(values)
}

fn decode_byte_strings(reader: &mut BinaryReader, count: usize) -> (values: Result<
    Vec<Value>,
    QuackError,
>)
    ensures
        match values {
            Ok(values) => read_items(old(reader)@, count as nat, blob_reader()) matches Ok(
                (bs, rest),
            ) && rest == final(reader)@ && views(values@) == Seq::new(
                bs.len(),
                |i: int| ValueView::Bytes(bs[i]),
            ),
            Err(error) => read_items(old(reader)@, count as nat, blob_reader()) == Err::<
                (Seq<Seq<u8>>, Seq<u8>),
                QuackErrorView,
            >(error@),
        },
{
    let mut values: Vec<Value> = Vec::new();
    let mut left: usize = count;
    let ghost mut bs: Seq<Seq<u8>> = seq![];
    proof {
        lemma_prepended(bs, seq![], read_items(reader@, count as nat, blob_reader()));
    }
    while left > 0
        invariant
            left <= count,
            read_items(old(reader)@, count as nat, blob_reader()) == prepended(
                bs,
                read_items(reader@, left as nat, blob_reader()),
            ),
            values@.len() == bs.len(),
            forall|k: int|
                0 <= k < bs.len() ==> (#[trigger] values@[k])@ == ValueView::Bytes(bs[k]),
        decreases left,
    {
        proof {
            lemma_read_items_step(bs, reader@, left as nat, blob_reader());
        }
        match reader.read_blob() {
            Err(error) => {
                return Err(error);
            },
            Ok(bytes) => {
                proof {
                    bs = bs.push(bytes@);
                }
                values.push(Value::Bytes(bytes));
                left -= 1;
            },
        }
    }
    assert(bs + seq![] =~= bs);
    assert(views(values@) =~= Seq::new(bs.len(), |i: int| ValueView::Bytes(bs[i])));
    Ok(values)
}

fn decode_entry(reader: &mut BinaryReader) -> (entry: Result<(u64, u64), QuackError>)
    ensures
        reads(entry, final(reader)@, read_entry(old(reader)@)),
{
    if let Err(error) = reader.read_required_field(ENTRY_OFFSET) {
        return Err(error);
    }
    let offset: u64 = match reader.read_uleb_u64() {
        Ok(offset) => offset,
        Err(error) => {
            return Err(error);
        },
    };
    if let Err(error) = reader.read_required_field(ENTRY_LENGTH) {
        return Err(error);
    }
    let length: u64 = match reader.read_uleb_u64() {
        Ok(length) => length,
        Err(error) => {
            return Err(error);
        },
    };
    if let Err(error) = reader.read_object_end() {
        return Err(error);
    }
    Ok((offset, length))
}

fn decode_entries(reader: &mut BinaryReader, count: usize) -> (entries: Result<
    Vec<(u64, u64)>,
    QuackError,
>)
    ensures
        match entries {
            Ok(entries) => read_items(old(reader)@, count as nat, entry_reader()) == Ok::<
                (Seq<(u64, u64)>, Seq<u8>),
                QuackErrorView,
            >((entries@, final(reader)@)),
            Err(error) => read_items(old(reader)@, count as nat, entry_reader()) == Err::<
                (Seq<(u64, u64)>, Seq<u8>),
                QuackErrorView,
            >(error@),
        },
{
    let mut entries: Vec<(u64, u64)> = Vec::new();
    let mut left: usize = count;
    proof {
        lemma_prepended(entries@, (0, 0), read_items(reader@, count as nat, entry_reader()));
    }
    while left > 0
        invariant
            left <= count,
            read_items(old(reader)@, count as nat, entry_reader()) == prepended(
                entries@,
                read_items(reader@, left as nat, entry_reader()),
            ),
        decreases left,
    {
        proof {
            lemma_read_items_step(entries@, reader@, left as nat, entry_reader());
        }
        match decode_entry(reader) {
            Err(error) => {
                return Err(error);
            },
            Ok(entry) => {
                entries.push(entry);
                left -= 1;
            },
        }
    }
    assert(entries@ + seq![] =~= entries@);
    Ok(entries)
}

fn check_entries(entries: &Vec<(u64, u64)>, mask: &Option<Vec<u8>>, size: u64) -> (b: bool)
    requires
        *mask matches Some(mask) ==> mask@.len() * 8 >= entries@.len(),
    ensures
        b == entries_in_range(entries@, mask_view(*mask), size as nat),
{
    let count: usize = entries.len();
    for i in 0..count
        invariant
            count == entries@.len(),
            *mask matches Some(mask) ==> mask@.len() * 8 >= count,
            forall|k: int|
                0 <= k < i && shown(mask_view(*mask), k) ==> (#[trigger] entries@[k]).0
                    + entries@[k].1 <= size,
    {
        let entry = entries[i];
        if is_shown(mask, i) && (entry.0 > size || entry.1 > size - entry.0) {
            assert(!entries_in_range(entries@, mask_view(*mask), size as nat)) by {
                reveal(entries_in_range);
                assert(entries@[i as int] == entry);
            }
            return false;
        }
    }
    assert(entries_in_range(entries@, mask_view(*mask), size as nat)) by {
        reveal(entries_in_range);
    }
    true
}

fn cut_out(elements: &Vec<Value>, from: usize, to: usize) -> (list: Value)
    requires
        from <= to <= elements@.len(),
    ensures
        list@ == ValueView::List(views(elements@).subrange(from as int, to as int)),
{
    let mut items: Vec<Value> = Vec::new();
    for k in from..to
        invariant
            from <= k <= to <= elements@.len(),
            items@.len() == k - from,
            forall|i: int| 0 <= i < k - from ==> (#[trigger] items@[i])@ == elements@[from + i]@,
    {
        items.push(elements[k].clone());
    }
    let ghost inside = items@;
    let list = Value::List(items);
    proof {
        lemma_nested_view(list);
        assert(views(inside) =~= views(elements@).subrange(from as int, to as int));
    }
    list
}

fn cut_lists(entries: &Vec<(u64, u64)>, mask: &Option<Vec<u8>>, elements: &Vec<Value>) -> (values:
    Vec<Value>)
    requires
        *mask matches Some(mask) ==> mask@.len() * 8 >= entries@.len(),
        entries_in_range(entries@, mask_view(*mask), elements@.len()),
    ensures
        views(values@) == lists_of(entries@, mask_view(*mask), views(elements@)),
{
    let mut values: Vec<Value> = Vec::new();
    let count: usize = entries.len();
    let size: usize = elements.len();
    for i in 0..count
        invariant
            count == entries@.len(),
            size == elements@.len(),
            *mask matches Some(mask) ==> mask@.len() * 8 >= count,
            entries_in_range(entries@, mask_view(*mask), elements@.len()),
            values@.len() == i,
            forall|k: int|
                0 <= k < i ==> (#[trigger] values@[k])@ == lists_of(
                    entries@,
                    mask_view(*mask),
                    views(elements@),
                )[k],
    {
        if is_shown(mask, i) {
            let entry = entries[i];
            assert(entry.0 + entry.1 <= size) by {
                reveal(entries_in_range);
                assert(entries@[i as int] == entry);
            }
            values.push(cut_out(elements, entry.0 as usize, entry.0 as usize + entry.1 as usize));
        } else {
            values.push(Value::Null);
        }
    }
    assert(views(values@) =~= lists_of(entries@, mask_view(*mask), views(elements@)));
    values
}

fn cut_arrays(elements: &Vec<Value>, count: usize, size: usize) -> (values: Vec<Value>)
    requires
        elements@.len() == count * size,
    ensures
        views(values@) == arrays_of(views(elements@), count as nat, size as nat),
{
    let mut values: Vec<Value> = Vec::new();
    let mut from: usize = 0;
    let total: usize = elements.len();
    assert(0 * size == 0) by (nonlinear_arith);
    for i in 0..count
        invariant
            total == elements@.len(),
            elements@.len() == count * size,
            from == i * size,
            values@.len() == i,
            forall|k: int|
                0 <= k < i ==> (#[trigger] values@[k])@ == arrays_of(
                    views(elements@),
                    count as nat,
                    size as nat,
                )[k],
    {
        assert(i * size + size <= count * size && (i + 1) * size == i * size + size)
            by (nonlinear_arith)
            requires
                i < count,
        ;
        values.push(cut_out(elements, from, from + size));
        from = from + size;
    }
    assert(views(values@) =~= arrays_of(views(elements@), count as nat, size as nat));
    values
}

/// The fields of columns, as plain values.
pub open spec fn column_views(columns: Seq<Vec<Value>>) -> Seq<Seq<ValueView>> {
    Seq::new(columns.len(), |j: int| views(columns[j]@))
}

fn put_together(t: &LogicalType, columns: &Vec<Vec<Value>>, count: usize) -> (values: Vec<Value>)
    requires
        columns@.len() == t@.children.len(),
        forall|j: int| 0 <= j < columns@.len() ==> (#[trigger] columns@[j])@.len() == count,
        named_once(t@.children),
    ensures
        views(values@) == structs_of(t@, column_views(columns@), count as nat),
{
    proof {
        lemma_children_view(*t);
    }
    let mut values: Vec<Value> = Vec::new();
    for i in 0..count
        invariant
            columns@.len() == t@.children.len(),
            t@.children == views(t.children@),
            forall|j: int| 0 <= j < columns@.len() ==> (#[trigger] columns@[j])@.len() == count,
            named_once(t@.children),
            values@.len() == i,
            forall|k: int|
                0 <= k < i ==> (#[trigger] values@[k])@ == structs_of(
                    t@,
                    column_views(columns@),
                    count as nat,
                )[k],
    {
        let mut fields: Vec<Field> = Vec::new();
        let width: usize = t.children.len();
        for j in 0..width
            invariant
                i < count,
                width == t.children@.len(),
                columns@.len() == t@.children.len(),
                t@.children == views(t.children@),
                forall|j: int| 0 <= j < columns@.len() ==> (#[trigger] columns@[j])@.len() == count,
                fields@.len() == j,
                forall|k: int|
                    0 <= k < j ==> (#[trigger] fields@[k])@ == (FieldView {
                        name: t@.children[k].name,
                        value: column_views(columns@)[k][i as int],
                    }),
        {
            assert(columns@[j as int]@.len() == count);
            assert(t@.children[j as int] == t.children@[j as int]@);
            fields.push(
                Field { name: t.children[j].name.clone(), value: columns[j][i].clone() },
            );
        }
        let ghost inside = fields@;
        proof {
            reveal(named_once);
            reveal(fields_named_once);
            assert forall|a: int, b: int| 0 <= a < b < inside.len() implies (
            #[trigger] views(inside)[a]).name != (#[trigger] views(inside)[b]).name by {
                assert(t@.children[a].name != t@.children[b].name);
                assert(inside[a]@.name == t@.children[a].name);
                assert(inside[b]@.name == t@.children[b].name);
            }
        }
        let value = Value::Struct(StructValue::of_fields(fields));
        proof {
            lemma_nested_view(value);
            let expected = structs_of(t@, column_views(columns@), count as nat)[i as int];
            assert(views(inside) =~= expected->Struct_0);
        }
        values.push(value);
    }
    assert(views(values@) =~= structs_of(t@, column_views(columns@), count as nat));
    values
}

proof fn lemma_read_items_length<T>(
    b: Seq<u8>,
    count: nat,
    read: spec_fn(Seq<u8>) -> ReadResult<T>,
)
    ensures
        read_items(b, count, read) matches Ok((items, rest)) ==> items.len() == count,
    decreases count,
{
    if count > 0 {
        if let Ok((_, rest)) = read(b) {
            lemma_read_items_length(rest, (count - 1) as nat, read);
        }
    }
}

/// A column that is read has the number of values that was asked for.
pub proof fn lemma_read_vector_length(t: LogicalTypeView, count: nat, b: Seq<u8>)
    ensures
        read_vector(t, count, b) matches Ok((values, rest)) ==> values.len() == count,
{
    if let Ok((mask, b)) = read_validity(b, count) {
        lemma_read_data_length(t, count, mask, b);
    }
}

proof fn lemma_read_data_length(
    t: LogicalTypeView,
    count: nat,
    mask: Option<Seq<u8>>,
    b: Seq<u8>,
)
    ensures
        read_data(t, count, mask, b) matches Ok((values, rest)) ==> values.len() == count,
{
    match storage(t) {
        Storage::Number { width, signed } => {
            if let Ok((_, b)) = expect_field(b, DATA) {
                if let Ok((data, _)) = read_blob(b) {
                    lemma_read_items_length(data, count, number_reader(width as nat, signed));
                }
            }
        },
        Storage::Text => {
            if let Ok((_, b)) = expect_field(b, DATA) {
                if let Ok((_, b)) = expect_count(b, count) {
                    lemma_read_items_length(b, count, text_reader());
                }
            }
        },
        Storage::Bytes => {
            if let Ok((_, b)) = expect_field(b, DATA) {
                if let Ok((_, b)) = expect_count(b, count) {
                    lemma_read_items_length(b, count, blob_reader());
                }
            }
        },
        Storage::List => {
            if let Ok((_, b)) = expect_field(b, LIST_SIZE) {
                if let Ok((_, b)) = crate::binary::read_uleb(b) {
                    if let Ok((_, b)) = expect_field(b, LIST_ENTRIES) {
                        if let Ok((_, b)) = expect_count(b, count) {
                            lemma_read_items_length(b, count, entry_reader());
                        }
                    }
                }
            }
        },
        _ => {},
    }
}

/// Reads a column of so many values.
pub fn decode_vector(reader: &mut BinaryReader, t: &LogicalType, count: usize) -> (values: Result<
    Vec<Value>,
    QuackError,
>)
    ensures
        reads_values(values, final(reader)@, read_vector(t@, count as nat, old(reader)@)),
        values matches Ok(values) ==> values@.len() == count,
    decreases t, 2nat, 0nat,
{
    let mask = match decode_validity(reader, count) {
        Ok(mask) => mask,
        Err(error) => {
            return Err(error);
        },
    };
    let mut values = match decode_data(reader, t, count, &mask) {
        Ok(values) => values,
        Err(error) => {
            return Err(error);
        },
    };
    if let Err(error) = reader.read_object_end() {
        return Err(error);
    }
    apply_mask(&mut values, &mask);
    proof {
        lemma_read_vector_length(t@, count as nat, old(reader)@);
        assert(views(values@).len() == values@.len());
    }
    Ok(values)
}

fn decode_data(
    reader: &mut BinaryReader,
    t: &LogicalType,
    count: usize,
    mask: &Option<Vec<u8>>,
) -> (values: Result<Vec<Value>, QuackError>)
    requires
        *mask matches Some(mask) ==> mask@.len() * 8 >= count,
    ensures
        reads_values(
            values,
            final(reader)@,
            read_data(t@, count as nat, mask_view(*mask), old(reader)@),
        ),
        values matches Ok(values) ==> values@.len() == count,
    decreases t, 1nat, 0nat,
{
    proof {
        lemma_children_view(*t);
        lemma_read_data_length(t@, count as nat, mask_view(*mask), reader@);
    }
    match storage_of(t) {
        Storage::Number { width, signed } => {
            if let Err(error) = reader.read_required_field(DATA) {
                return Err(error);
            }
            let values = match decode_numbers(reader, t, count, width, signed) {
                Ok(values) => values,
                Err(error) => {
                    return Err(error);
                },
            };
            assert(views(values@).len() == values@.len());
            Ok(values)
        },
        Storage::Text => {
            if let Err(error) = reader.read_required_field(DATA) {
                return Err(error);
            }
            if let Err(error) = decode_count(reader, count as u64) {
                return Err(error);
            }
            let values = match decode_texts(reader, count) {
                Ok(values) => values,
                Err(error) => {
                    return Err(error);
                },
            };
            assert(views(values@).len() == values@.len());
            Ok(values)
        },
        Storage::Bytes => {
            if let Err(error) = reader.read_required_field(DATA) {
                return Err(error);
            }
            if let Err(error) = decode_count(reader, count as u64) {
                return Err(error);
            }
            let values = match decode_byte_strings(reader, count) {
                Ok(values) => values,
                Err(error) => {
                    return Err(error);
                },
            };
            assert(views(values@).len() == values@.len());
            Ok(values)
        },
        Storage::List => decode_lists(reader, t, count, mask),
        Storage::Array => decode_arrays(reader, t, count, mask),
        Storage::Struct => decode_structs(reader, t, count, mask),
        Storage::Unknown => Err(unsupported_type_error(t.id.code() as u64)),
    }
}

fn decode_lists(
    reader: &mut BinaryReader,
    t: &LogicalType,
    count: usize,
    mask: &Option<Vec<u8>>,
) -> (values: Result<Vec<Value>, QuackError>)
    requires
        storage(t@) is List,
        *mask matches Some(mask) ==> mask@.len() * 8 >= count,
    ensures
        reads_values(
            values,
            final(reader)@,
            read_data(t@, count as nat, mask_view(*mask), old(reader)@),
        ),
        values matches Ok(values) ==> values@.len() == count,
    decreases t, 0nat, 0nat,
{
    proof {
        lemma_children_view(*t);
        lemma_read_data_length(t@, count as nat, mask_view(*mask), reader@);
    }
    if let Err(error) = reader.read_required_field(LIST_SIZE) {
        return Err(error);
    }
    let size: u64 = match reader.read_uleb_u64() {
        Ok(size) => size,
        Err(error) => {
            return Err(error);
        },
    };
    if let Err(error) = reader.read_required_field(LIST_ENTRIES) {
        return Err(error);
    }
    if let Err(error) = decode_count(reader, count as u64) {
        return Err(error);
    }
    proof {
        lemma_read_items_length(reader@, count as nat, entry_reader());
    }
    let entries = match decode_entries(reader, count) {
        Ok(entries) => entries,
        Err(error) => {
            return Err(error);
        },
    };
    if let Err(error) = reader.read_required_field(LIST_ELEMENTS) {
        return Err(error);
    }
    if t.children.len() != 1 {
        return Err(unsupported_type_error(t.id.code() as u64));
    }
    if size > usize::MAX as u64 {
        return Err(QuackError::protocol("integer is out of range"));
    }
    if !check_entries(&entries, mask, size) {
        return Err(QuackError::protocol("list lies outside of its elements"));
    }
    assert(t@.children[0] == t.children@[0]@);
    assert(decreases_to!(*t => t.children@[0].logical_type));
    let elements = match decode_vector(reader, &t.children[0].logical_type, size as usize) {
        Ok(elements) => elements,
        Err(error) => {
            return Err(error);
        },
    };
    let values = cut_lists(&entries, mask, &elements);
    assert(views(values@).len() == values@.len());
    Ok(values)
}

fn decode_arrays(
    reader: &mut BinaryReader,
    t: &LogicalType,
    count: usize,
    mask: &Option<Vec<u8>>,
) -> (values: Result<Vec<Value>, QuackError>)
    requires
        storage(t@) is Array,
    ensures
        reads_values(
            values,
            final(reader)@,
            read_data(t@, count as nat, mask_view(*mask), old(reader)@),
        ),
        values matches Ok(values) ==> values@.len() == count,
    decreases t, 0nat, 0nat,
{
    proof {
        lemma_children_view(*t);
        lemma_read_data_length(t@, count as nat, mask_view(*mask), reader@);
    }
    if let Err(error) = reader.read_required_field(ARRAY_SIZE) {
        return Err(error);
    }
    if let Err(error) = decode_count(reader, t.size as u64) {
        return Err(error);
    }
    if let Err(error) = reader.read_required_field(ARRAY_ELEMENTS) {
        return Err(error);
    }
    if t.children.len() != 1 {
        return Err(unsupported_type_error(t.id.code() as u64));
    }
    let total: usize = match count.checked_mul(t.size as usize) {
        Some(total) => total,
        None => {
            return Err(QuackError::protocol("integer is out of range"));
        },
    };
    assert(t@.children[0] == t.children@[0]@);
    assert(decreases_to!(*t => t.children@[0].logical_type));
    let elements = match decode_vector(reader, &t.children[0].logical_type, total) {
        Ok(elements) => elements,
        Err(error) => {
            return Err(error);
        },
    };
    let values = cut_arrays(&elements, count, t.size as usize);
    assert(views(values@).len() == values@.len());
    Ok(values)
}

fn decode_structs(
    reader: &mut BinaryReader,
    t: &LogicalType,
    count: usize,
    mask: &Option<Vec<u8>>,
) -> (values: Result<Vec<Value>, QuackError>)
    requires
        storage(t@) is Struct,
    ensures
        reads_values(
            values,
            final(reader)@,
            read_data(t@, count as nat, mask_view(*mask), old(reader)@),
        ),
        values matches Ok(values) ==> values@.len() == count,
    decreases t, 0nat, 0nat,
{
    proof {
        lemma_children_view(*t);
        lemma_read_data_length(t@, count as nat, mask_view(*mask), reader@);
    }
    if let Err(error) = reader.read_required_field(STRUCT_COLUMNS) {
        return Err(error);
    }
    if let Err(error) = decode_count(reader, t.children.len() as u64) {
        return Err(error);
    }
    if !are_named_once(&t.children) {
        return Err(unsupported_type_error(t.id.code() as u64));
    }
    let ghost start = reader@;
    let ghost whole = read_data(t@, count as nat, mask_view(*mask), old(reader)@);
    assert(whole == match read_struct(t@, count as nat, start, 0) {
        Err(error) => Err(error),
        Ok((columns, rest)) => Ok((structs_of(t@, columns, count as nat), rest)),
    });
    let mut columns: Vec<Vec<Value>> = Vec::new();
    let width: usize = t.children.len();
    proof {
        lemma_prepended(
            column_views(columns@),
            seq![],
            read_struct(t@, count as nat, start, 0),
        );
        assert(column_views(columns@) =~= seq![]);
    }
    let mut j: usize = 0;
    while j < width
        invariant
            j <= width,
            whole == read_data(t@, count as nat, mask_view(*mask), old(reader)@),
            whole == match read_struct(t@, count as nat, start, 0) {
                Err(error) => Err(error),
                Ok((columns, rest)) => Ok((structs_of(t@, columns, count as nat), rest)),
            },
            width == t.children@.len(),
            t@.children == views(t.children@),
            columns@.len() == j,
            forall|k: int| 0 <= k < j ==> (#[trigger] columns@[k])@.len() == count,
            read_struct(t@, count as nat, start, 0) == prepended(
                column_views(columns@),
                read_struct(t@, count as nat, reader@, j as nat),
            ),
        decreases width - j,
    {
        let ghost done = column_views(columns@);
        assert(t@.children[j as int] == t.children@[j as int]@);
        assert(decreases_to!(*t => t.children@[j as int].logical_type));
        match decode_vector(reader, &t.children[j].logical_type, count) {
            Err(error) => {
                return Err(error);
            },
            Ok(column) => {
                columns.push(column);
                proof {
                    assert(column_views(columns@) =~= done.push(views(column@)));
                    lemma_prepended(
                        done,
                        views(column@),
                        read_struct(t@, count as nat, reader@, (j + 1) as nat),
                    );
                }
                j += 1;
            },
        }
    }
    assert(column_views(columns@) + seq![] =~= column_views(columns@));
    let values = put_together(t, &columns, count);
    assert(views(values@).len() == values@.len());
    Ok(values)
}

/// A column that is read has as many values as there are rows, and the value of
/// a row is missing wherever the mask of the column says so.
pub proof fn law_read_column_shows_what_is_marked(
    t: LogicalTypeView,
    count: nat,
    b: Seq<u8>,
    i: int,
)
    requires
        0 <= i < count,
    ensures
        read_vector(t, count, b) matches Ok((values, _)) ==> {
            &&& values.len() == count
            &&& read_validity(b, count) matches Ok((mask, data)) && {
                &&& mask matches Some(mask) ==> count <= 8 * mask.len()
                &&& (mask matches Some(mask) && !marked(mask, i)) ==> values[i] is Null
                &&& (mask matches Some(mask) ==> marked(mask, i)) ==> (read_data(
                    t,
                    count,
                    mask,
                    data,
                ) matches Ok((shown_values, _)) && values[i] == shown_values[i])
            }
        },
{
    lemma_read_vector_length(t, count, b);
}

/// A list is the run of elements that its entry says, wherever that lies; an
/// array is the next so many elements; a struct has in each field the value that
/// the field's column has in its place.
pub proof fn law_nested_values_are_cut_out(
    entries: Seq<(u64, u64)>,
    mask: Option<Seq<u8>>,
    elements: Seq<ValueView>,
    t: LogicalTypeView,
    columns: Seq<Seq<ValueView>>,
    count: nat,
    size: nat,
    i: int,
    k: int,
)
    requires
        0 <= i < count,
        0 <= k,
    ensures
        entries_in_range(entries, mask, elements.len()) && count == entries.len() ==> {
            let lists = lists_of(entries, mask, elements);
            &&& lists.len() == count
            &&& !shown(mask, i) ==> lists[i] is Null
            &&& shown(mask, i) ==> (lists[i] matches ValueView::List(items) && items.len()
                == entries[i].1 && (k < items.len() ==> items[k] == elements[entries[i].0 + k]))
        },
        count * size == elements.len() ==> {
            let arrays = arrays_of(elements, count, size);
            &&& arrays.len() == count
            &&& arrays[i] matches ValueView::List(items) && items.len() == size && (k < size
                ==> items[k] == elements[i * size + k])
        },
        ({
            let structs = structs_of(t, columns, count);
            &&& structs.len() == count
            &&& structs[i] matches ValueView::Struct(fields) && fields.len() == t.children.len()
                && (k < fields.len() ==> fields[k].name == t.children[k].name && fields[k].value
                == columns[k][i])
        }),
{
    if entries_in_range(entries, mask, elements.len()) && count == entries.len() {
        reveal(entries_in_range);
        if shown(mask, i) {
            assert(entries[i].0 + entries[i].1 <= elements.len());
        }
    }
    if count * size == elements.len() {
        assert(0 <= i * size && i * size + size <= count * size) by (nonlinear_arith)
            requires
                0 <= i < count,
                size >= 0,
        ;
    }
}

} // verus!
