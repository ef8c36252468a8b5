//! A column that is written is read back.

use vstd::prelude::*;

use crate::binary::blob;
use crate::binary::expect_field;
use crate::binary::field_id;
use crate::binary::flag;
use crate::binary::items_bytes;
use crate::binary::lemma_fixed;
use crate::binary::lemma_followed3;
use crate::binary::lemma_followed4;
use crate::binary::lemma_followed5;
use crate::binary::lemma_joined_bytes;
use crate::binary::lemma_read_blob;
use crate::binary::lemma_read_field;
use crate::binary::lemma_read_flag;
use crate::binary::lemma_read_items;
use crate::binary::lemma_read_text;
use crate::binary::lemma_read_uleb;
use crate::binary::object_end;
use crate::binary::read_items;
use crate::binary::read_uleb;
use crate::binary::uleb;
use crate::binary::END_OF_OBJECT;
use crate::errors::QuackErrorView;
use crate::storage::fits;
use crate::storage::lemma_pow10_increases;
use crate::storage::lemma_pow256_values;
use crate::storage::lemma_read_number;
use crate::storage::number_in_order;
use crate::storage::number_of;
use crate::storage::storage;
use crate::storage::value_of;
use crate::storage::Storage;
use crate::typecodec::type_in_order;
use crate::types::LogicalTypeView;
use crate::validity::any_null;
use crate::validity::lemma_mask_of;
use crate::validity::mask_of;
use crate::value::FieldView;
use crate::value::ValueView;
use crate::vector::all_hold;
use crate::vector::array_parts;
use crate::vector::arrays_of;
use crate::vector::byte_strings;
use crate::vector::blob_reader;
use crate::vector::blob_writer;
use crate::vector::countable;
use crate::vector::data_bytes;
use crate::vector::elements;
use crate::vector::entries_in_range;
use crate::vector::entry_bytes;
use crate::vector::entry_reader;
use crate::vector::entry_writer;
use crate::vector::expect_count;
use crate::vector::flat;
use crate::vector::flat_arrays;
use crate::vector::flat_lists;
use crate::vector::holds;
use crate::vector::list_entries;
use crate::vector::list_parts;
use crate::vector::lists_of;
use crate::vector::masked;
use crate::vector::members;
use crate::vector::number_reader;
use crate::vector::number_writer;
use crate::vector::numbers;
use crate::vector::read_data;
use crate::vector::read_entry;
use crate::vector::read_struct;
use crate::vector::read_validity;
use crate::vector::read_vector;
use crate::vector::shown;
use crate::vector::storable;
use crate::vector::struct_bytes;
use crate::vector::structs_of;
use crate::vector::text_of;
use crate::vector::text_reader;
use crate::vector::text_writer;
use crate::vector::texts;
use crate::vector::bytes_of;
use crate::vector::validity_bytes;
use crate::vector::vector_bytes;
use crate::vector::ARRAY_ELEMENTS;
use crate::vector::ARRAY_SIZE;
use crate::vector::DATA;
use crate::vector::ENTRY_LENGTH;
use crate::vector::ENTRY_OFFSET;
use crate::vector::HAS_VALIDITY;
use crate::vector::LIST_ELEMENTS;
use crate::vector::LIST_ENTRIES;
use crate::vector::LIST_SIZE;
use crate::vector::STRUCT_COLUMNS;
use crate::vector::VALIDITY;

verus! {

/// Which values are there: all of them, or as their mask says.
pub open spec fn mask_for(values: Seq<ValueView>) -> Option<Seq<u8>> {
    if any_null(values) {
        Some(mask_of(values))
    } else {
        None
    }
}

proof fn lemma_shown(values: Seq<ValueView>, i: int)
    requires
        0 <= i < values.len(),
    ensures
        shown(mask_for(values), i) == !(values[i] is Null),
{
    lemma_mask_of(values, i);
}

proof fn lemma_read_validity(values: Seq<ValueView>, after: Seq<u8>)
    requires
        values.len() <= usize::MAX,
    ensures
        read_validity(validity_bytes(values) + after, values.len()) == Ok::<
            (Option<Seq<u8>>, Seq<u8>),
            QuackErrorView,
        >((mask_for(values), after)),
{
    let first = field_id(HAS_VALIDITY);
    if any_null(values) {
        let second = field_id(VALIDITY);
        let mask = mask_of(values);
        lemma_followed4(first, flag(true), second, blob(mask), after);
        lemma_read_field(HAS_VALIDITY, flag(true) + (second + (blob(mask) + after)));
        lemma_read_flag(true, second + (blob(mask) + after));
        lemma_read_field(VALIDITY, blob(mask) + after);
        lemma_read_blob(mask, after);
        if values.len() > 0 {
            lemma_mask_of(values, 0);
        }
    } else {
        lemma_joined_bytes(first, flag(false), after);
        lemma_read_field(HAS_VALIDITY, flag(false) + after);
        lemma_read_flag(false, after);
    }
}

proof fn lemma_expect_count(count: nat, after: Seq<u8>)
    requires
        count <= u64::MAX,
    ensures
        expect_count(uleb(count) + after, count) == Ok::<((), Seq<u8>), QuackErrorView>(
            ((), after),
        ),
{
    lemma_read_uleb(count as u64, after);
}

// ---------------------------------------------------------------------------
// Numbers, text and bytes
// ---------------------------------------------------------------------------
proof fn lemma_numbers_length(ns: Seq<int>, width: nat)
    ensures
        items_bytes(ns, number_writer(width)).len() == width * ns.len(),
    decreases ns.len(),
{
    if ns.len() > 0 {
        lemma_numbers_length(ns.skip(1), width);
        lemma_fixed(ns[0], width);
        let less = (ns.len() - 1) as nat;
        assert(width + width * less == width * ns.len()) by (nonlinear_arith)
            requires
                ns.len() == less + 1,
        ;
    } else {
        assert(width * 0 == 0) by (nonlinear_arith);
    }
}

/// Zero stands for a value of every type that is stored as numbers.
proof fn lemma_zero_in_order(t: LogicalTypeView)
    requires
        storage(t) is Number,
    ensures
        number_in_order(t, 0),
        storage(t)->width > 0,
{
    lemma_pow256_values();
    lemma_pow10_increases(0, t.width as nat);
}

proof fn lemma_read_number_data(t: LogicalTypeView, values: Seq<ValueView>, after: Seq<u8>)
    requires
        storage(t) is Number,
        all_hold(t, values),
        countable(t, values),
    ensures
        ({
            let back = Seq::new(values.len(), |i: int| value_of(t, number_of(values[i])));
            &&& read_data(t, values.len(), mask_for(values), data_bytes(t, values) + after) == Ok::<
                (Seq<ValueView>, Seq<u8>),
                QuackErrorView,
            >((back, after))
            &&& masked(back, mask_for(values)) == values
        }),
{
    reveal(all_hold);
    if let Storage::Number { width, signed } = storage(t) {
        let w = width as nat;
        let ns = numbers(values);
        let data = items_bytes(ns, number_writer(w));
        let back = Seq::new(values.len(), |i: int| value_of(t, number_of(values[i])));
        lemma_zero_in_order(t);
        assert forall|i: int| 0 <= i < ns.len() implies fits(#[trigger] ns[i], w, signed) by {
            assert(holds(t, values[i]));
        }
        assert forall|i: int, rest: Seq<u8>| 0 <= i < ns.len() implies #[trigger] number_reader(
            w,
            signed,
        )(number_writer(w)(ns[i]) + rest) == Ok::<(int, Seq<u8>), QuackErrorView>(
            (ns[i], rest),
        ) by {
            lemma_read_number(ns[i], w, signed, rest);
        }
        lemma_read_items(ns, seq![], number_writer(w), number_reader(w, signed));
        assert(data + seq![] =~= data);
        lemma_numbers_length(ns, w);
        lemma_joined_bytes(field_id(DATA), blob(data), after);
        lemma_read_field(DATA, blob(data) + after);
        lemma_read_blob(data, after);
        assert(back =~= Seq::new(ns.len(), |i: int| value_of(t, ns[i])));
        assert forall|i: int| 0 <= i < values.len() implies #[trigger] masked(
            back,
            mask_for(values),
        )[i] == values[i] by {
            assert(holds(t, values[i]));
            lemma_shown(values, i);
        }
        assert(masked(back, mask_for(values)) =~= values);
    }
}

proof fn lemma_read_text_data(t: LogicalTypeView, values: Seq<ValueView>, after: Seq<u8>)
    requires
        storage(t) is Text,
        all_hold(t, values),
        countable(t, values),
    ensures
        ({
            let back = Seq::new(values.len(), |i: int| ValueView::String(text_of(values[i])));
            &&& read_data(t, values.len(), mask_for(values), data_bytes(t, values) + after) == Ok::<
                (Seq<ValueView>, Seq<u8>),
                QuackErrorView,
            >((back, after))
            &&& masked(back, mask_for(values)) == values
        }),
{
    reveal(all_hold);
    let ts = texts(values);
    let data = items_bytes(ts, text_writer());
    let back = Seq::new(values.len(), |i: int| ValueView::String(text_of(values[i])));
    assert forall|i: int, rest: Seq<u8>| 0 <= i < ts.len() implies #[trigger] text_reader()(
        text_writer()(ts[i]) + rest,
    ) == Ok::<(Seq<char>, Seq<u8>), QuackErrorView>((ts[i], rest)) by {
        assert(holds(t, values[i]));
        lemma_read_text(ts[i], rest);
    }
    lemma_read_items(ts, after, text_writer(), text_reader());
    lemma_followed3(field_id(DATA), uleb(values.len()), data, after);
    lemma_read_field(DATA, uleb(values.len()) + (data + after));
    lemma_expect_count(values.len(), data + after);
    assert(back =~= Seq::new(ts.len(), |i: int| ValueView::String(ts[i])));
    assert forall|i: int| 0 <= i < values.len() implies #[trigger] masked(
        back,
        mask_for(values),
    )[i] == values[i] by {
        assert(holds(t, values[i]));
        lemma_shown(values, i);
    }
    assert(masked(back, mask_for(values)) =~= values);
}

proof fn lemma_read_bytes_data(t: LogicalTypeView, values: Seq<ValueView>, after: Seq<u8>)
    requires
        storage(t) is Bytes,
        all_hold(t, values),
        countable(t, values),
    ensures
        ({
            let back = Seq::new(values.len(), |i: int| ValueView::Bytes(bytes_of(values[i])));
            &&& read_data(t, values.len(), mask_for(values), data_bytes(t, values) + after) == Ok::<
                (Seq<ValueView>, Seq<u8>),
                QuackErrorView,
            >((back, after))
            &&& masked(back, mask_for(values)) == values
        }),
{
    reveal(all_hold);
    let bs = byte_strings(values);
    let data = items_bytes(bs, blob_writer());
    let back = Seq::new(values.len(), |i: int| ValueView::Bytes(bytes_of(values[i])));
    assert forall|i: int, rest: Seq<u8>| 0 <= i < bs.len() implies #[trigger] blob_reader()(
        blob_writer()(bs[i]) + rest,
    ) == Ok::<(Seq<u8>, Seq<u8>), QuackErrorView>((bs[i], rest)) by {
        assert(holds(t, values[i]));
        lemma_read_blob(bs[i], rest);
    }
    lemma_read_items(bs, after, blob_writer(), blob_reader());
    lemma_followed3(field_id(DATA), uleb(values.len()), data, after);
    lemma_read_field(DATA, uleb(values.len()) + (data + after));
    lemma_expect_count(values.len(), data + after);
    assert(back =~= Seq::new(bs.len(), |i: int| ValueView::Bytes(bs[i])));
    assert forall|i: int| 0 <= i < values.len() implies #[trigger] masked(
        back,
        mask_for(values),
    )[i] == values[i] by {
        assert(holds(t, values[i]));
        lemma_shown(values, i);
    }
    assert(masked(back, mask_for(values)) =~= values);
}

// ---------------------------------------------------------------------------
// Elements of all values, one after the other
// ---------------------------------------------------------------------------
/// The elements of one value lie together, after those of the values before.
pub proof fn lemma_flat_at(
    values: Seq<ValueView>,
    parts: spec_fn(ValueView) -> Seq<ValueView>,
    i: int,
)
    requires
        0 <= i < values.len(),
    ensures
        ({
            let offset = flat(values.take(i), parts).len() as int;
            let part = parts(values[i]);
            &&& offset + part.len() <= flat(values, parts).len()
            &&& flat(values, parts).subrange(offset, offset + part.len()) == part
        }),
    decreases values.len(),
{
    let before = values.drop_last();
    let offset = flat(values.take(i), parts).len() as int;
    let part = parts(values[i]);
    if i == values.len() - 1 {
        assert(values.take(i) =~= before);
        assert(flat(values, parts).subrange(offset, offset + part.len()) =~= part);
    } else {
        lemma_flat_at(before, parts, i);
        assert(before.take(i) =~= values.take(i));
        assert(flat(values, parts).subrange(offset, offset + part.len()) =~= flat(
            before,
            parts,
        ).subrange(offset, offset + part.len()));
    }
}

/// One more value adds its elements at the end.
pub proof fn lemma_flat_take(
    values: Seq<ValueView>,
    parts: spec_fn(ValueView) -> Seq<ValueView>,
    i: int,
)
    requires
        0 <= i < values.len(),
    ensures
        flat(values.take(i + 1), parts) == flat(values.take(i), parts) + parts(values[i]),
{
    assert(values.take(i + 1).drop_last() =~= values.take(i));
    assert(values.take(i + 1).last() == values[i]);
}

proof fn lemma_flat_holds(
    t: LogicalTypeView,
    values: Seq<ValueView>,
    parts: spec_fn(ValueView) -> Seq<ValueView>,
)
    requires
        forall|i: int| 0 <= i < values.len() ==> all_hold(t, parts(#[trigger] values[i])),
    ensures
        all_hold(t, flat(values, parts)),
    decreases values.len(),
{
    reveal(all_hold);
    if values.len() > 0 {
        let before = values.drop_last();
        assert forall|i: int| 0 <= i < before.len() implies all_hold(
            t,
            parts(#[trigger] before[i]),
        ) by {
            assert(before[i] == values[i]);
        }
        lemma_flat_holds(t, before, parts);
        assert(all_hold(t, parts(values[values.len() - 1])));
        let all = flat(values, parts);
        assert forall|k: int| 0 <= k < all.len() implies holds(t, #[trigger] all[k]) by {
            let first = flat(before, parts);
            if k < first.len() {
                assert(all[k] == first[k]);
            } else {
                assert(all[k] == parts(values.last())[k - first.len()]);
            }
        }
    }
}

/// Where every value has the same number of elements, they lie at multiples of
/// that number.
pub proof fn lemma_flat_length(
    values: Seq<ValueView>,
    parts: spec_fn(ValueView) -> Seq<ValueView>,
    size: nat,
)
    requires
        forall|i: int| 0 <= i < values.len() ==> parts(#[trigger] values[i]).len() == size,
    ensures
        flat(values, parts).len() == values.len() * size,
    decreases values.len(),
{
    if values.len() > 0 {
        let before = values.drop_last();
        assert forall|i: int| 0 <= i < before.len() implies parts(#[trigger] before[i]).len()
            == size by {
            assert(before[i] == values[i]);
        }
        lemma_flat_length(before, parts, size);
        assert(parts(values[values.len() - 1]).len() == size);
        let less = before.len();
        assert(less * size + size == values.len() * size) by (nonlinear_arith)
            requires
                values.len() == less + 1,
        ;
    } else {
        assert(0 * size == 0) by (nonlinear_arith);
    }
}

// ---------------------------------------------------------------------------
// Lists, arrays and structs
// ---------------------------------------------------------------------------
proof fn lemma_read_entry(entry: (u64, u64), rest: Seq<u8>)
    ensures
        read_entry(entry_bytes(entry) + rest) == Ok::<((u64, u64), Seq<u8>), QuackErrorView>(
            (entry, rest),
        ),
{
    let end = object_end();
    let offset = uleb(entry.0 as nat);
    let length = uleb(entry.1 as nat);
    lemma_followed5(field_id(ENTRY_OFFSET), offset, field_id(ENTRY_LENGTH), length, end, rest);
    lemma_read_field(ENTRY_OFFSET, offset + (field_id(ENTRY_LENGTH) + (length + (end + rest))));
    lemma_read_uleb(entry.0, field_id(ENTRY_LENGTH) + (length + (end + rest)));
    lemma_read_field(ENTRY_LENGTH, length + (end + rest));
    lemma_read_uleb(entry.1, end + rest);
    lemma_read_field(END_OF_OBJECT, rest);
}

proof fn lemma_list_values(values: Seq<ValueView>)
    requires
        flat_lists(values).len() <= usize::MAX,
        forall|i: int|
            0 <= i < values.len() ==> (#[trigger] values[i]) is Null || values[i] is List,
    ensures
        entries_in_range(list_entries(values), mask_for(values), flat_lists(values).len()),
        masked(
            lists_of(list_entries(values), mask_for(values), flat_lists(values)),
            mask_for(values),
        ) == values,
{
    reveal(entries_in_range);
    let entries = list_entries(values);
    let all = flat_lists(values);
    let mask = mask_for(values);
    assert forall|i: int| 0 <= i < values.len() implies (#[trigger] entries[i]).0 + entries[i].1
        <= all.len() && all.subrange(
        entries[i].0 as int,
        entries[i].0 as int + entries[i].1 as int,
    ) == elements(values[i]) by {
        lemma_flat_at(values, list_parts(), i);
    }
    let back = masked(lists_of(entries, mask, all), mask);
    assert forall|i: int| 0 <= i < values.len() implies #[trigger] back[i] == values[i] by {
        lemma_shown(values, i);
        assert(values[i] is Null || values[i] is List);
        assert(entries[i].0 + entries[i].1 <= all.len());
    }
    assert(back =~= values);
}

/// The steps of reading lists, put together.
proof fn lemma_list_steps(
    t: LogicalTypeView,
    count: nat,
    mask: Option<Seq<u8>>,
    entries: Seq<(u64, u64)>,
    all: Seq<ValueView>,
    b: Seq<u8>,
    b1: Seq<u8>,
    b2: Seq<u8>,
    b3: Seq<u8>,
    b4: Seq<u8>,
    b5: Seq<u8>,
    b6: Seq<u8>,
    after: Seq<u8>,
)
    requires
        storage(t) is List,
        t.children.len() == 1,
        all.len() <= usize::MAX,
        expect_field(b, LIST_SIZE) == Ok::<((), Seq<u8>), QuackErrorView>(((), b1)),
        read_uleb(b1) == Ok::<(u64, Seq<u8>), QuackErrorView>((all.len() as u64, b2)),
        expect_field(b2, LIST_ENTRIES) == Ok::<((), Seq<u8>), QuackErrorView>(((), b3)),
        expect_count(b3, count) == Ok::<((), Seq<u8>), QuackErrorView>(((), b4)),
        read_items(b4, count, entry_reader()) == Ok::<(Seq<(u64, u64)>, Seq<u8>), QuackErrorView>(
            (entries, b5),
        ),
        expect_field(b5, LIST_ELEMENTS) == Ok::<((), Seq<u8>), QuackErrorView>(((), b6)),
        entries_in_range(entries, mask, all.len()),
        read_vector(t.children[0].logical_type, all.len(), b6) == Ok::<
            (Seq<ValueView>, Seq<u8>),
            QuackErrorView,
        >((all, after)),
    ensures
        read_data(t, count, mask, b) == Ok::<(Seq<ValueView>, Seq<u8>), QuackErrorView>(
            (lists_of(entries, mask, all), after),
        ),
{
}

/// How the data of lists begins.
proof fn lemma_list_bytes(t: LogicalTypeView, values: Seq<ValueView>, after: Seq<u8>)
    requires
        storage(t) is List,
        t.children.len() == 1,
    ensures
        data_bytes(t, values) + after == field_id(LIST_SIZE) + (uleb(flat_lists(values).len()) + (
        field_id(LIST_ENTRIES) + (uleb(values.len()) + (items_bytes(
            list_entries(values),
            entry_writer(),
        ) + (field_id(LIST_ELEMENTS) + (vector_bytes(
            t.children[0].logical_type,
            flat_lists(values),
        ) + after)))))),
{
    let column = vector_bytes(t.children[0].logical_type, flat_lists(values));
    let places = items_bytes(list_entries(values), entry_writer());
    let count = uleb(values.len());
    lemma_joined_bytes(field_id(LIST_ELEMENTS), column, after);
    lemma_joined_bytes(places, field_id(LIST_ELEMENTS) + column, after);
    lemma_joined_bytes(count, places + (field_id(LIST_ELEMENTS) + column), after);
    lemma_followed4(
        field_id(LIST_SIZE),
        uleb(flat_lists(values).len()),
        field_id(LIST_ENTRIES),
        count + (places + (field_id(LIST_ELEMENTS) + column)),
        after,
    );
}

proof fn lemma_read_entries(entries: Seq<(u64, u64)>, after: Seq<u8>)
    ensures
        read_items(
            items_bytes(entries, entry_writer()) + after,
            entries.len(),
            entry_reader(),
        ) == Ok::<(Seq<(u64, u64)>, Seq<u8>), QuackErrorView>((entries, after)),
{
    assert forall|i: int, rest: Seq<u8>| 0 <= i < entries.len() implies #[trigger] entry_reader()(
        entry_writer()(entries[i]) + rest,
    ) == Ok::<((u64, u64), Seq<u8>), QuackErrorView>((entries[i], rest)) by {
        lemma_read_entry(entries[i], rest);
    }
    lemma_read_items(entries, after, entry_writer(), entry_reader());
}

#[verifier::rlimit(40)]
proof fn lemma_read_list_data(t: LogicalTypeView, values: Seq<ValueView>, after: Seq<u8>)
    requires
        type_in_order(t),
        storable(t),
        storage(t) is List,
        all_hold(t, values),
        countable(t, values),
    ensures
        ({
            let back = lists_of(list_entries(values), mask_for(values), flat_lists(values));
            &&& read_data(t, values.len(), mask_for(values), data_bytes(t, values) + after) == Ok::<
                (Seq<ValueView>, Seq<u8>),
                QuackErrorView,
            >((back, after))
            &&& masked(back, mask_for(values)) == values
        }),
    decreases t, 1nat, 0nat,
{
    let child = t.children[0].logical_type;
    let all = flat_lists(values);
    let entries = list_entries(values);
    assert(entries_in_range(entries, mask_for(values), all.len())) by {
        lemma_list_parts(t, values);
        lemma_list_values(values);
    }
    assert(masked(lists_of(entries, mask_for(values), all), mask_for(values)) == values) by {
        lemma_list_parts(t, values);
        lemma_list_values(values);
    }
    assert(all_hold(child, all) && countable(child, all) && all.len() <= usize::MAX) by {
        lemma_list_parts(t, values);
    }
    let tail = vector_bytes(child, all) + after;
    let b5 = field_id(LIST_ELEMENTS) + tail;
    let b4 = items_bytes(entries, entry_writer()) + b5;
    let b3 = uleb(values.len()) + b4;
    let b2 = field_id(LIST_ENTRIES) + b3;
    let b1 = uleb(all.len()) + b2;
    let b = field_id(LIST_SIZE) + b1;
    lemma_list_bytes(t, values, after);
    lemma_read_field(LIST_SIZE, b1);
    lemma_read_uleb(all.len() as u64, b2);
    lemma_read_field(LIST_ENTRIES, b3);
    lemma_expect_count(values.len(), b4);
    lemma_read_entries(entries, b5);
    lemma_read_field(LIST_ELEMENTS, tail);
    lemma_read_vector(child, all, after);
    lemma_list_steps(
        t,
        values.len(),
        mask_for(values),
        entries,
        all,
        b,
        b1,
        b2,
        b3,
        b4,
        b5,
        tail,
        after,
    );
}

proof fn lemma_list_parts(t: LogicalTypeView, values: Seq<ValueView>)
    requires
        storage(t) is List,
        t.children.len() == 1,
        all_hold(t, values),
        countable(t, values),
    ensures
        all_hold(t.children[0].logical_type, flat_lists(values)),
        countable(t.children[0].logical_type, flat_lists(values)),
        flat_lists(values).len() <= usize::MAX,
        forall|i: int|
            0 <= i < values.len() ==> (#[trigger] values[i]) is Null || values[i] is List,
{
    reveal(all_hold);
    let child = t.children[0].logical_type;
    assert forall|i: int| 0 <= i < values.len() implies all_hold(
        child,
        list_parts()(#[trigger] values[i]),
    ) && (values[i] is Null || values[i] is List) by {
        assert(holds(t, values[i]));
    }
    lemma_flat_holds(child, values, list_parts());
    reveal_with_fuel(countable, 2);
}

proof fn lemma_array_parts(t: LogicalTypeView, values: Seq<ValueView>)
    requires
        storage(t) is Array,
        t.children.len() == 1,
        all_hold(t, values),
        countable(t, values),
    ensures
        all_hold(t.children[0].logical_type, flat_arrays(values, t.size as nat)),
        countable(t.children[0].logical_type, flat_arrays(values, t.size as nat)),
        flat_arrays(values, t.size as nat).len() <= usize::MAX,
        forall|i: int|
            0 <= i < values.len() ==> (#[trigger] values[i]) is Null || (values[i] is List
                && values[i]->List_0.len() == t.size),
{
    reveal(all_hold);
    let child = t.children[0].logical_type;
    let n = t.size as nat;
    assert forall|i: int| 0 <= i < values.len() implies all_hold(
        child,
        array_parts(n)(#[trigger] values[i]),
    ) && (values[i] is Null || (values[i] is List && values[i]->List_0.len() == n)) by {
        assert(holds(t, values[i]));
    }
    lemma_flat_holds(child, values, array_parts(n));
    reveal_with_fuel(countable, 2);
}

proof fn lemma_array_values(values: Seq<ValueView>, size: nat)
    requires
        forall|i: int|
            0 <= i < values.len() ==> (#[trigger] values[i]) is Null || (values[i] is List
                && values[i]->List_0.len() == size),
    ensures
        flat_arrays(values, size).len() == values.len() * size,
        masked(
            arrays_of(flat_arrays(values, size), values.len(), size),
            mask_for(values),
        ) == values,
{
    let parts = array_parts(size);
    let all = flat_arrays(values, size);
    assert forall|i: int| 0 <= i < values.len() implies parts(#[trigger] values[i]).len()
        == size by {
        assert(values[i] is Null || values[i] is List);
    }
    lemma_flat_length(values, parts, size);
    let back = masked(arrays_of(all, values.len(), size), mask_for(values));
    assert forall|i: int| 0 <= i < values.len() implies #[trigger] back[i] == values[i] by {
        lemma_shown(values, i);
        lemma_flat_at(values, parts, i);
        let before = values.take(i);
        assert forall|k: int| 0 <= k < before.len() implies parts(#[trigger] before[k]).len()
            == size by {
            assert(before[k] == values[k]);
        }
        lemma_flat_length(before, parts, size);
        assert(values[i] is Null || values[i] is List);
    }
    assert(back =~= values);
}

#[verifier::rlimit(40)]
proof fn lemma_read_array_data(t: LogicalTypeView, values: Seq<ValueView>, after: Seq<u8>)
    requires
        type_in_order(t),
        storable(t),
        storage(t) is Array,
        all_hold(t, values),
        countable(t, values),
    ensures
        ({
            let back = arrays_of(
                flat_arrays(values, t.size as nat),
                values.len(),
                t.size as nat,
            );
            &&& read_data(t, values.len(), mask_for(values), data_bytes(t, values) + after) == Ok::<
                (Seq<ValueView>, Seq<u8>),
                QuackErrorView,
            >((back, after))
            &&& masked(back, mask_for(values)) == values
        }),
    decreases t, 1nat, 0nat,
{
    let child = t.children[0].logical_type;
    let n = t.size as nat;
    let all = flat_arrays(values, n);
    lemma_array_parts(t, values);
    lemma_array_values(values, n);
    let size = uleb(n);
    let column = vector_bytes(child, all);
    let tail = column + after;
    let b = data_bytes(t, values) + after;
    let b1 = size + (field_id(ARRAY_ELEMENTS) + tail);
    let b2 = field_id(ARRAY_ELEMENTS) + tail;
    assert(b == field_id(ARRAY_SIZE) + b1) by {
        lemma_followed4(field_id(ARRAY_SIZE), size, field_id(ARRAY_ELEMENTS), column, after);
    }
    assert(expect_field(b, ARRAY_SIZE) == Ok::<((), Seq<u8>), QuackErrorView>(((), b1))) by {
        lemma_read_field(ARRAY_SIZE, b1);
    }
    assert(expect_count(b1, n) == Ok::<((), Seq<u8>), QuackErrorView>(((), b2))) by {
        lemma_expect_count(n, b2);
    }
    assert(expect_field(b2, ARRAY_ELEMENTS) == Ok::<((), Seq<u8>), QuackErrorView>(((), tail))) by {
        lemma_read_field(ARRAY_ELEMENTS, tail);
    }
    assert(read_vector(child, all.len(), tail) == Ok::<(Seq<ValueView>, Seq<u8>), QuackErrorView>(
        (all, after),
    )) by {
        lemma_read_vector(child, all, after);
    }
}

/// The columns of a struct's fields, from one of them on.
pub open spec fn columns_from(
    t: LogicalTypeView,
    values: Seq<ValueView>,
    from: nat,
) -> Seq<Seq<ValueView>> {
    Seq::new(
        (if from <= t.children.len() {
            t.children.len() - from
        } else {
            0
        }) as nat,
        |j: int| members(values, from + j),
    )
}

proof fn lemma_members_hold(t: LogicalTypeView, values: Seq<ValueView>, j: int)
    requires
        storage(t) is Struct,
        all_hold(t, values),
        0 <= j < t.children.len(),
    ensures
        all_hold(t.children[j].logical_type, members(values, j)),
{
    reveal(all_hold);
    let column = members(values, j);
    assert forall|i: int| 0 <= i < column.len() implies holds(
        t.children[j].logical_type,
        #[trigger] column[i],
    ) by {
        assert(holds(t, values[i]));
        if let ValueView::Struct(fields) = values[i] {
            assert(fields[j].name == t.children[j].name);
        }
    }
}

#[verifier::rlimit(40)]
proof fn lemma_read_struct(
    t: LogicalTypeView,
    values: Seq<ValueView>,
    from: nat,
    after: Seq<u8>,
)
    requires
        type_in_order(t),
        storable(t),
        storage(t) is Struct,
        all_hold(t, values),
        countable(t, values),
    ensures
        read_struct(t, values.len(), struct_bytes(t, values, from) + after, from) == Ok::<
            (Seq<Seq<ValueView>>, Seq<u8>),
            QuackErrorView,
        >((columns_from(t, values, from), after)),
    decreases t, 0nat, t.children.len() - from,
{
    if from >= t.children.len() {
        assert(struct_bytes(t, values, from) + after =~= after);
        assert(columns_from(t, values, from) =~= seq![]);
    } else {
        let j = from as int;
        let child = t.children[j].logical_type;
        let column = members(values, j);
        let tail = struct_bytes(t, values, from + 1) + after;
        lemma_joined_bytes(
            vector_bytes(child, column),
            struct_bytes(t, values, from + 1),
            after,
        );
        lemma_members_hold(t, values, j);
        assert(countable((t.children[j]).logical_type, members(values, j)));
        assert(type_in_order(t.children[j].logical_type));
        assert(storable(t.children[j].logical_type));
        assert(decreases_to!(t => t.children[j].logical_type));
        lemma_read_vector(child, column, tail);
        lemma_read_struct(t, values, from + 1, after);
        assert(seq![column] + columns_from(t, values, from + 1) =~= columns_from(t, values, from));
    }
}

proof fn lemma_struct_values(t: LogicalTypeView, values: Seq<ValueView>)
    requires
        storage(t) is Struct,
        all_hold(t, values),
    ensures
        masked(structs_of(t, columns_from(t, values, 0), values.len()), mask_for(values)) == values,
{
    reveal(all_hold);
    let columns = columns_from(t, values, 0);
    let back = masked(structs_of(t, columns, values.len()), mask_for(values));
    assert forall|i: int| 0 <= i < values.len() implies #[trigger] back[i] == values[i] by {
        lemma_shown(values, i);
        assert(holds(t, values[i]));
        if let ValueView::Struct(fields) = values[i] {
            let again = Seq::new(
                t.children.len(),
                |j: int| FieldView { name: t.children[j].name, value: columns[j][i] },
            );
            assert forall|j: int| 0 <= j < t.children.len() implies #[trigger] again[j]
                == fields[j] by {
                assert(fields[j].name == t.children[j].name);
                assert(columns[j] == members(values, j));
            }
            assert(again =~= fields);
        }
    }
    assert(back =~= values);
}

proof fn lemma_read_struct_data(t: LogicalTypeView, values: Seq<ValueView>, after: Seq<u8>)
    requires
        type_in_order(t),
        storable(t),
        storage(t) is Struct,
        all_hold(t, values),
        countable(t, values),
    ensures
        ({
            let back = structs_of(t, columns_from(t, values, 0), values.len());
            &&& read_data(t, values.len(), mask_for(values), data_bytes(t, values) + after) == Ok::<
                (Seq<ValueView>, Seq<u8>),
                QuackErrorView,
            >((back, after))
            &&& masked(back, mask_for(values)) == values
        }),
    decreases t, 1nat, 0nat,
{
    let count = uleb(t.children.len());
    let columns = struct_bytes(t, values, 0);
    lemma_followed3(field_id(STRUCT_COLUMNS), count, columns, after);
    lemma_read_field(STRUCT_COLUMNS, count + (columns + after));
    lemma_expect_count(t.children.len(), columns + after);
    lemma_read_struct(t, values, 0, after);
    lemma_struct_values(t, values);
}

/// A column is read back, and what follows it is left.
pub proof fn lemma_read_vector(t: LogicalTypeView, values: Seq<ValueView>, rest: Seq<u8>)
    requires
        type_in_order(t),
        storable(t),
        all_hold(t, values),
        countable(t, values),
    ensures
        read_vector(t, values.len(), vector_bytes(t, values) + rest) == Ok::<
            (Seq<ValueView>, Seq<u8>),
            QuackErrorView,
        >((values, rest)),
    decreases t, 2nat, 0nat,
{
    let after = object_end() + rest;
    lemma_followed3(validity_bytes(values), data_bytes(t, values), object_end(), rest);
    lemma_read_validity(values, data_bytes(t, values) + after);
    lemma_read_field(END_OF_OBJECT, rest);
    match storage(t) {
        Storage::Number { .. } => {
            lemma_read_number_data(t, values, after);
        },
        Storage::Text => {
            lemma_read_text_data(t, values, after);
        },
        Storage::Bytes => {
            lemma_read_bytes_data(t, values, after);
        },
        Storage::List => {
            lemma_read_list_data(t, values, after);
        },
        Storage::Array => {
            lemma_read_array_data(t, values, after);
        },
        Storage::Struct => {
            lemma_read_struct_data(t, values, after);
        },
        Storage::Unknown => {},
    }
}

} // verus!
