//! Bringing values into the form that a type gives them.

use vstd::prelude::*;
use vstd::utf8::encode_utf8;

use crate::binary::pow256;
use crate::decimals::decimal_from_text;
use crate::decimals::decimal_number;
use crate::storage::is_number_in_order;
use crate::storage::law_interval_is_kept_in_its_number;
use crate::storage::lemma_number_of_value;
use crate::storage::lemma_pow10_increases;
use crate::storage::lemma_pow10_values;
use crate::storage::lemma_pow256_values;
use crate::storage::number_in_order;
use crate::storage::number_of;
use crate::storage::pow10;
use crate::storage::storage;
use crate::storage::storage_of;
use crate::storage::stored_number;
use crate::storage::timestamp_unit;
use crate::storage::value_from_number;
use crate::storage::value_of;
use crate::storage::Storage;
use crate::typecodec::named_once;
use crate::typecodec::text_fits;
use crate::typecodec::type_in_order;
use crate::types::lemma_children_view;
use crate::types::views;
use crate::types::ChildTypeView;
use crate::types::LogicalType;
use crate::types::LogicalTypeId;
use crate::types::LogicalTypeView;
use crate::value::lemma_nested_view;
use crate::value::fields_named_once;
use crate::value::Field;
use crate::value::StructValue;
use crate::value::FieldView;
use crate::value::TimestampUnit;
use crate::value::TimestampValue;
use crate::value::Value;
use crate::value::ValueView;
use crate::vector::holds;
use crate::vector::storable;

verus! {

/// The number that a value stands for in a type that is stored as numbers, if
/// it can stand for one there. A decimal type takes decimals of its own scale
/// and decimal notation.
pub open spec fn number_for(t: LogicalTypeView, v: ValueView) -> Option<int> {
    match t.id {
        LogicalTypeId::Boolean => match v {
            ValueView::Bool(b) => Some(number_of(v)),
            _ => None,
        },
        LogicalTypeId::Decimal => match v {
            ValueView::Decimal(d) => if d.scale == t.scale {
                Some(d.value as int)
            } else {
                None
            },
            ValueView::String(text) => decimal_number(text, t.scale as nat),
            _ => None,
        },
        LogicalTypeId::Date => match v {
            ValueView::Date(d) => Some(d.days as int),
            _ => None,
        },
        LogicalTypeId::Interval => match v {
            ValueView::Interval(span) => Some(number_of(v)),
            _ => None,
        },
        LogicalTypeId::TimestampSec
        | LogicalTypeId::TimestampMs
        | LogicalTypeId::Timestamp
        | LogicalTypeId::TimestampNs
        | LogicalTypeId::TimestampTz => match v {
            ValueView::Timestamp(m) => if m.unit == timestamp_unit(t.id) && m.with_time_zone == (
            t.id == LogicalTypeId::TimestampTz) {
                Some(m.value as int)
            } else {
                None
            },
            _ => None,
        },
        _ => match v {
            ValueView::Int(n) => Some(n as int),
            ValueView::HugeInt(n) => Some(n as int),
            _ => None,
        },
    }
}

/// The form that a type gives a value, if the value is one of the type in some
/// form.
pub open spec fn conformed(t: LogicalTypeView, v: ValueView) -> Option<ValueView>
    decreases t,
{
    if v is Null {
        Some(v)
    } else {
        match storage(t) {
            Storage::Number { .. } => match number_for(t, v) {
                Some(n) => if number_in_order(t, n) {
                    Some(value_of(t, n))
                } else {
                    None
                },
                None => None,
            },
            Storage::Text => if v is String && text_fits(v->String_0) {
                Some(v)
            } else {
                None
            },
            Storage::Bytes => if v is Bytes && v->Bytes_0.len() <= u64::MAX {
                Some(v)
            } else {
                None
            },
            Storage::List | Storage::Array => if v is List && t.children.len() == 1 && (
            storage(t) is Array ==> v->List_0.len() == t.size) && forall|i: int|
                0 <= i < v->List_0.len() ==> conformed(
                    t.children[0].logical_type,
                    #[trigger] v->List_0[i],
                ) is Some {
                Some(
                    ValueView::List(
                        Seq::new(
                            v->List_0.len(),
                            |i: int| conformed(t.children[0].logical_type, v->List_0[i])->Some_0,
                        ),
                    ),
                )
            } else {
                None
            },
            Storage::Struct => if v is Struct && v->Struct_0.len() == t.children.len() && forall|
                i: int,
            |
                0 <= i < t.children.len() ==> (#[trigger] v->Struct_0[i]).name == t.children[i].name
                    && conformed(t.children[i].logical_type, v->Struct_0[i].value) is Some {
                Some(
                    ValueView::Struct(
                        Seq::new(
                            v->Struct_0.len(),
                            |i: int|
                                if 0 <= i < t.children.len() {
                                    FieldView {
                                        name: t.children[i].name,
                                        value: conformed(
                                            t.children[i].logical_type,
                                            v->Struct_0[i].value,
                                        )->Some_0,
                                    }
                                } else {
                                    arbitrary()
                                },
                        ),
                    ),
                )
            } else {
                None
            },
            Storage::Unknown => None,
        }
    }
}

/// The form that a type gives a value is one of the type.
pub proof fn lemma_conformed_holds(t: LogicalTypeView, v: ValueView)
    requires
        conformed(t, v) is Some,
    ensures
        holds(t, conformed(t, v)->Some_0),
    decreases t,
{
    let w = conformed(t, v)->Some_0;
    if !(v is Null) {
        match storage(t) {
            Storage::Number { .. } => {
                lemma_number_of_value(t, number_for(t, v)->Some_0);
            },
            Storage::List | Storage::Array => {
                assert forall|i: int| 0 <= i < w->List_0.len() implies holds(
                    t.children[0].logical_type,
                    #[trigger] w->List_0[i],
                ) by {
                    assert(conformed(t.children[0].logical_type, v->List_0[i]) is Some);
                    lemma_conformed_holds(t.children[0].logical_type, v->List_0[i]);
                }
            },
            Storage::Struct => {
                assert forall|i: int| 0 <= i < t.children.len() implies (
                #[trigger] w->Struct_0[i]).name == t.children[i].name && holds(
                    t.children[i].logical_type,
                    w->Struct_0[i].value,
                ) by {
                    assert(v->Struct_0[i].name == t.children[i].name);
                    lemma_conformed_holds(t.children[i].logical_type, v->Struct_0[i].value);
                }
            },
            _ => {},
        }
    }
}

/// A value that is one of the type already keeps its form.
pub proof fn law_conforming_keeps_values_of_the_type(t: LogicalTypeView, v: ValueView)
    requires
        holds(t, v),
    ensures
        conformed(t, v) == Some(v),
    decreases t,
{
    if !(v is Null) {
        match storage(t) {
            Storage::Number { .. } => {
                lemma_number_of_value(t, number_of(v));
            },
            Storage::List | Storage::Array => {
                let child = t.children[0].logical_type;
                assert forall|i: int| 0 <= i < v->List_0.len() implies conformed(
                    child,
                    #[trigger] v->List_0[i],
                ) == Some(v->List_0[i]) by {
                    assert(holds(child, v->List_0[i]));
                    law_conforming_keeps_values_of_the_type(child, v->List_0[i]);
                }
                assert(conformed(t, v)->Some_0->List_0 =~= v->List_0);
            },
            Storage::Struct => {
                assert forall|i: int| 0 <= i < t.children.len() implies (
                #[trigger] v->Struct_0[i]).name == t.children[i].name && conformed(
                    t.children[i].logical_type,
                    v->Struct_0[i].value,
                ) == Some(v->Struct_0[i].value) by {
                    assert(v->Struct_0[i].name == t.children[i].name);
                    law_conforming_keeps_values_of_the_type(
                        t.children[i].logical_type,
                        v->Struct_0[i].value,
                    );
                }
                assert(conformed(t, v)->Some_0->Struct_0 =~= v->Struct_0);
            },
            _ => {},
        }
    }
}

fn timestamp_number(id: LogicalTypeId, m: TimestampValue) -> (n: Option<i128>)
    ensures
        n == (if m.unit == timestamp_unit(id) && m.with_time_zone == (id
            == LogicalTypeId::TimestampTz) {
            Some(m.value as i128)
        } else {
            None
        }),
{
    let (unit, with_time_zone) = match id {
        LogicalTypeId::TimestampSec => (TimestampUnit::Seconds, false),
        LogicalTypeId::TimestampMs => (TimestampUnit::Millis, false),
        LogicalTypeId::TimestampNs => (TimestampUnit::Nanos, false),
        LogicalTypeId::TimestampTz => (TimestampUnit::Micros, true),
        _ => (TimestampUnit::Micros, false),
    };
    if m.unit == unit && m.with_time_zone == with_time_zone {
        Some(m.value as i128)
    } else {
        None
    }
}

fn conform_number(t: &LogicalType, value: &Value) -> (w: Option<Value>)
    requires
        storage(t@) is Number,
        t@.id == LogicalTypeId::Decimal ==> t@.width <= crate::typecodec::MAX_DECIMAL_WIDTH,
        !(value@ is Null),
    ensures
        match w {
            Some(w) => conformed(t@, value@) == Some(w@),
            None => conformed(t@, value@) is None,
        },
{
    let n: Option<i128> = match t.id {
        LogicalTypeId::Boolean => match value {
            Value::Bool(b) => Some(
                if *b {
                    1
                } else {
                    0
                },
            ),
            _ => None,
        },
        LogicalTypeId::Decimal => match value {
            Value::Decimal(d) => if d.scale == t.scale {
                Some(d.value)
            } else {
                None
            },
            Value::String(text) => {
                proof {
                    lemma_pow10_increases(t@.width as nat, 38);
                    lemma_pow10_values();
                }
                decimal_from_text(text.as_str(), t.scale)
            },
            _ => None,
        },
        LogicalTypeId::Date => match value {
            Value::Date(d) => Some(d.days as i128),
            _ => None,
        },
        LogicalTypeId::Interval => match value {
            Value::Interval(_) => Some(stored_number(value)),
            _ => None,
        },
        LogicalTypeId::TimestampSec
        | LogicalTypeId::TimestampMs
        | LogicalTypeId::Timestamp
        | LogicalTypeId::TimestampNs
        | LogicalTypeId::TimestampTz => match value {
            Value::Timestamp(m) => timestamp_number(t.id, *m),
            _ => None,
        },
        _ => match value {
            Value::Int(n) => Some(*n as i128),
            Value::HugeInt(n) => Some(*n),
            _ => None,
        },
    };
    match n {
        Some(n) => if is_number_in_order(t, n) {
            Some(value_from_number(t, n))
        } else {
            None
        },
        None => None,
    }
}

/// Brings a value into the form that a type gives it.
pub fn conform(t: &LogicalType, value: &Value) -> (w: Option<Value>)
    requires
        type_in_order(t@),
    ensures
        match w {
            Some(w) => conformed(t@, value@) == Some(w@),
            None => conformed(t@, value@) is None,
        },
    decreases t, 1nat,
{
    proof {
        lemma_nested_view(*value);
        lemma_children_view(*t);
    }
    if let Value::Null = value {
        return Some(Value::Null);
    }
    match storage_of(t) {
        Storage::Number { .. } => conform_number(t, value),
        Storage::Text => match value {
            Value::String(text) => {
                let length: usize = text.as_str().as_bytes().len();
                assert(text_fits(text@));
                Some(Value::String(text.clone()))
            },
            _ => None,
        },
        Storage::Bytes => match value {
            Value::Bytes(bytes) => {
                let length: usize = bytes.len();
                Some(value.clone())
            },
            _ => None,
        },
        Storage::List => conform_list(t, value),
        Storage::Array => conform_list(t, value),
        Storage::Struct => conform_struct(t, value),
        Storage::Unknown => None,
    }
}

fn conform_list(t: &LogicalType, value: &Value) -> (w: Option<Value>)
    requires
        type_in_order(t@),
        storage(t@) is List || storage(t@) is Array,
        !(value@ is Null),
    ensures
        match w {
            Some(w) => conformed(t@, value@) == Some(w@),
            None => conformed(t@, value@) is None,
        },
    decreases t, 0nat,
{
    proof {
        lemma_nested_view(*value);
        lemma_children_view(*t);
    }
    let items = match value {
        Value::List(items) => items,
        _ => {
            return None;
        },
    };
    let fixed_size = match t.id {
        LogicalTypeId::Array => true,
        _ => false,
    };
    if fixed_size && items.len() as u64 != t.size as u64 {
        return None;
    }
    let ghost child = t@.children[0].logical_type;
    assert(t@.children[0] == t.children@[0]@);
    let mut done: Vec<Value> = Vec::new();
    let count: usize = items.len();
    let mut i: usize = 0;
    while i < count
        invariant
            i <= count,
            count == items@.len(),
            t.children@.len() == 1,
            child == t.children@[0].logical_type@,
            type_in_order(child),
            value@ == ValueView::List(views(items@)),
            child == t@.children[0].logical_type,
            storage(t@) is List || storage(t@) is Array,
            done@.len() == i,
            forall|k: int|
                0 <= k < i ==> conformed(child, #[trigger] value@->List_0[k]) == Some(done@[k]@),
        decreases count - i,
    {
        assert(decreases_to!(*t => t.children@[0].logical_type));
        assert(value@->List_0[i as int] == items@[i as int]@);
        match conform(&t.children[0].logical_type, &items[i]) {
            Some(w) => {
                done.push(w);
            },
            None => {
                assert(conformed(child, value@->List_0[i as int]) is None);
                return None;
            },
        }
        i += 1;
    }
    let ghost inside = done@;
    let w = Value::List(done);
    proof {
        lemma_nested_view(w);
        assert forall|k: int| 0 <= k < value@->List_0.len() implies conformed(
            child,
            #[trigger] value@->List_0[k],
        ) is Some by {}
        assert(views(inside) =~= conformed(t@, value@)->Some_0->List_0);
    }
    Some(w)
}

fn conform_struct(t: &LogicalType, value: &Value) -> (w: Option<Value>)
    requires
        type_in_order(t@),
        storage(t@) is Struct,
        !(value@ is Null),
    ensures
        match w {
            Some(w) => conformed(t@, value@) == Some(w@),
            None => conformed(t@, value@) is None,
        },
    decreases t, 0nat,
{
    proof {
        lemma_nested_view(*value);
        lemma_children_view(*t);
    }
    let fields = match value {
        Value::Struct(fields) => fields,
        _ => {
            return None;
        },
    };
    if fields.len() != t.children.len() {
        return None;
    }
    let mut done: Vec<Field> = Vec::new();
    let count: usize = fields.len();
    let mut i: usize = 0;
    while i < count
        invariant
            i <= count,
            count == fields@.len(),
            count == t.children@.len(),
            t@.children == views(t.children@),
            type_in_order(t@),
            storage(t@) is Struct,
            value@ == ValueView::Struct(fields@),
            done@.len() == i,
            forall|k: int|
                0 <= k < i ==> (#[trigger] value@->Struct_0[k]).name == t@.children[k].name
                    && conformed(t@.children[k].logical_type, value@->Struct_0[k].value) == Some(
                    done@[k]@.value,
                ) && done@[k]@.name == t@.children[k].name,
        decreases count - i,
    {
        assert(decreases_to!(*t => t.children@[i as int].logical_type));
        let field = fields.field(i);
        assert(t@.children[i as int] == t.children@[i as int]@);
        if field.name != t.children[i].name {
            assert(value@->Struct_0[i as int].name != t@.children[i as int].name);
            return None;
        }
        match conform(&t.children[i].logical_type, &field.value) {
            Some(w) => {
                done.push(Field { name: field.name.clone(), value: w });
            },
            None => {
                assert(value@->Struct_0[i as int].name == t@.children[i as int].name);
                return None;
            },
        }
        i += 1;
    }
    let ghost inside = done@;
    proof {
        reveal(named_once);
        reveal(fields_named_once);
        assert forall|a: int, b: int| 0 <= a < b < inside.len() implies (
        #[trigger] views(inside)[a]).name != (#[trigger] views(inside)[b]).name by {
            assert(t@.children[a].name != t@.children[b].name);
            assert(value@->Struct_0[a].name == t@.children[a].name);
            assert(value@->Struct_0[b].name == t@.children[b].name);
        }
    }
    let w = Value::Struct(StructValue::of_fields(done));
    proof {
        lemma_nested_view(w);
        assert forall|k: int| 0 <= k < t@.children.len() implies (
        #[trigger] value@->Struct_0[k]).name == t@.children[k].name && conformed(
            t@.children[k].logical_type,
            value@->Struct_0[k].value,
        ) is Some by {}
        assert forall|k: int| 0 <= k < count implies #[trigger] views(inside)[k] == conformed(
            t@,
            value@,
        )->Some_0->Struct_0[k] by {
            assert(value@->Struct_0[k].name == t@.children[k].name);
        }
        assert(views(inside) =~= conformed(t@, value@)->Some_0->Struct_0);
    }
    Some(w)
}

/// A struct that is a value of a type in order has no name twice.
pub proof fn law_struct_of_type_is_named_once(t: LogicalTypeView, v: ValueView)
    requires
        type_in_order(t),
        holds(t, v),
        v is Struct,
    ensures
        fields_named_once(v->Struct_0),
{
    reveal(named_once);
    reveal(fields_named_once);
    let fields = v->Struct_0;
    assert(storage(t) is Struct);
    assert forall|i: int, j: int| 0 <= i < j < fields.len() implies (#[trigger] fields[i]).name
        != (#[trigger] fields[j]).name by {
        assert(v->Struct_0[i].name == t.children[i].name);
        assert(v->Struct_0[j].name == t.children[j].name);
    }
}

// ---------------------------------------------------------------------------
// What the types take
// ---------------------------------------------------------------------------
/// The least and the greatest integer of an integer type.
pub open spec fn integers_of(id: LogicalTypeId) -> Option<(int, int)> {
    match id {
        LogicalTypeId::TinyInt => Some((-128int, 127int)),
        LogicalTypeId::SmallInt => Some((-32_768int, 32_767int)),
        LogicalTypeId::Integer => Some((-2_147_483_648int, 2_147_483_647int)),
        LogicalTypeId::BigInt => Some((i64::MIN as int, i64::MAX as int)),
        LogicalTypeId::HugeInt => Some((i128::MIN as int, i128::MAX as int)),
        LogicalTypeId::UTinyInt => Some((0int, 255int)),
        LogicalTypeId::USmallInt => Some((0int, 65_535int)),
        LogicalTypeId::UInteger => Some((0int, 4_294_967_295int)),
        LogicalTypeId::UBigInt => Some((0int, u64::MAX as int)),
        _ => None,
    }
}

/// Whether a value is an integer, in either form.
pub open spec fn is_integer(v: ValueView, n: int) -> bool {
    match v {
        ValueView::Int(k) => k == n,
        ValueView::HugeInt(k) => k == n,
        _ => false,
    }
}

/// An integer type takes its integers and no others, in either form, and no
/// integer becomes another one. They are huge integers in the largest type, and
/// in the other types only where they have to be.
pub proof fn law_integers_keep_their_number(t: LogicalTypeView, v: ValueView, n: int)
    requires
        integers_of(t.id) is Some,
    ensures
        ({
            let (low, high) = integers_of(t.id)->Some_0;
            &&& is_integer(v, n) ==> {
                &&& conformed(t, v) is Some <==> low <= n <= high
                &&& conformed(t, v) matches Some(w) ==> {
                    &&& is_integer(w, n)
                    &&& w is HugeInt <==> t.id == LogicalTypeId::HugeInt || n > i64::MAX
                }
            }
            &&& conformed(t, v) is Some ==> v is Null || v is Int || v is HugeInt
        }),
{
    lemma_pow256_values();
}

/// A missing value is one of every type. A type for truth values, days,
/// intervals, text or bytes takes these and nothing else, and each stays what
/// it is; only text and bytes that cannot be counted are not taken.
pub proof fn law_plain_values_are_kept(t: LogicalTypeView, v: ValueView)
    ensures
        conformed(t, ValueView::Null) == Some(ValueView::Null),
        !(v is Null) ==> {
            &&& t.id == LogicalTypeId::Boolean ==> conformed(t, v) == if v is Bool {
                Some(v)
            } else {
                None
            }
            &&& t.id == LogicalTypeId::Date ==> conformed(t, v) == if v is Date {
                Some(v)
            } else {
                None
            }
            &&& t.id == LogicalTypeId::Interval ==> conformed(t, v) == if v is Interval {
                Some(v)
            } else {
                None
            }
            &&& t.id == LogicalTypeId::Varchar ==> conformed(t, v) == if v is String
                && encode_utf8(v->String_0).len() <= u64::MAX {
                Some(v)
            } else {
                None
            }
            &&& t.id == LogicalTypeId::Blob ==> conformed(t, v) == if v is Bytes
                && v->Bytes_0.len() <= u64::MAX {
                Some(v)
            } else {
                None
            }
        },
{
    lemma_pow256_values();
    if let ValueView::Interval(span) = v {
        law_interval_is_kept_in_its_number(span);
    }
}

/// A timestamp type takes the timestamps of its own unit, with or without a time
/// zone as the type says, and nothing else, and each stays what it is.
pub proof fn law_timestamps_are_not_rescaled(t: LogicalTypeView, v: ValueView)
    requires
        !(v is Null),
        t.id == LogicalTypeId::TimestampSec || t.id == LogicalTypeId::TimestampMs || t.id
            == LogicalTypeId::Timestamp || t.id == LogicalTypeId::TimestampNs || t.id
            == LogicalTypeId::TimestampTz,
    ensures
        conformed(t, v) is Some <==> (v matches ValueView::Timestamp(m) && match (
            m.unit,
            m.with_time_zone,
        ) {
            (TimestampUnit::Seconds, false) => t.id == LogicalTypeId::TimestampSec,
            (TimestampUnit::Millis, false) => t.id == LogicalTypeId::TimestampMs,
            (TimestampUnit::Micros, false) => t.id == LogicalTypeId::Timestamp,
            (TimestampUnit::Nanos, false) => t.id == LogicalTypeId::TimestampNs,
            (TimestampUnit::Micros, true) => t.id == LogicalTypeId::TimestampTz,
            _ => false,
        }),
        conformed(t, v) matches Some(w) ==> w == v,
{
    lemma_pow256_values();
}

proof fn lemma_decimals_fit(t: LogicalTypeView, n: int)
    requires
        t.id == LogicalTypeId::Decimal,
        t.width <= 38,
        -pow10(t.width as nat) < n < pow10(t.width as nat),
    ensures
        number_in_order(t, n),
        i128::MIN <= n <= i128::MAX,
{
    lemma_pow256_values();
    lemma_pow10_values();
    if t.width <= 4 {
        lemma_pow10_increases(t.width as nat, 4);
    } else if t.width <= 9 {
        lemma_pow10_increases(t.width as nat, 9);
    } else if t.width <= 18 {
        lemma_pow10_increases(t.width as nat, 18);
    } else {
        lemma_pow10_increases(t.width as nat, 38);
    }
}

/// A decimal type takes decimals of its own scale and decimal notation, as long
/// as the units have no more digits than the type is wide. The units stay the
/// same.
pub proof fn law_decimals_keep_their_units(t: LogicalTypeView, v: ValueView, n: int)
    requires
        t.id == LogicalTypeId::Decimal,
        t.width <= 38,
        match v {
            ValueView::Decimal(d) => d.value == n,
            ValueView::String(text) => decimal_number(text, t.scale as nat) == Some(n),
            _ => false,
        },
    ensures
        conformed(t, v) is Some <==> -pow10(t.width as nat) < n < pow10(t.width as nat) && (
        v matches ValueView::Decimal(d) ==> d.scale == t.scale),
        conformed(t, v) matches Some(w) ==> (w matches ValueView::Decimal(d) && d.value == n
            && d.width == t.width && d.scale == t.scale),
{
    if -pow10(t.width as nat) < n < pow10(t.width as nat) {
        lemma_decimals_fit(t, n);
    }
}

/// What is neither a decimal nor decimal notation is no decimal.
pub proof fn law_nothing_else_is_a_decimal(t: LogicalTypeView, v: ValueView)
    requires
        t.id == LogicalTypeId::Decimal,
        !(v is Null),
        !(v is Decimal),
        v matches ValueView::String(text) ==> decimal_number(text, t.scale as nat) is None,
    ensures
        conformed(t, v) is None,
{
}

/// A list is taken exactly if each of its items is, and an array also has as
/// many as its type says; the items keep their places.
pub proof fn law_items_of_lists_conform(t: LogicalTypeView, items: Seq<ValueView>)
    requires
        t.id == LogicalTypeId::List || t.id == LogicalTypeId::Array,
        t.children.len() == 1,
    ensures
        ({
            let child = t.children[0].logical_type;
            &&& conformed(t, ValueView::List(items)) is Some <==> (t.id == LogicalTypeId::Array
                ==> items.len() == t.size) && forall|i: int|
                0 <= i < items.len() ==> conformed(child, #[trigger] items[i]) is Some
            &&& conformed(t, ValueView::List(items)) matches Some(w) ==> {
                &&& w is List
                &&& w->List_0.len() == items.len()
                &&& forall|i: int|
                    0 <= i < items.len() ==> conformed(child, items[i]) == Some(
                        #[trigger] w->List_0[i],
                    )
            }
        }),
{
    let v = ValueView::List(items);
    let child = t.children[0].logical_type;
    if let Some(w) = conformed(t, v) {
        assert forall|i: int| 0 <= i < items.len() implies conformed(child, items[i]) == Some(
            #[trigger] w->List_0[i],
        ) by {
            assert(conformed(child, v->List_0[i]) is Some);
        }
    }
}

/// A struct is taken exactly if it has the fields of its type, in their order
/// and each with a value of its type; the fields keep their names and places.
pub proof fn law_fields_of_structs_conform(t: LogicalTypeView, fields: Seq<FieldView>)
    requires
        t.id == LogicalTypeId::Struct,
    ensures
        conformed(t, ValueView::Struct(fields)) is Some <==> fields.len() == t.children.len()
            && forall|i: int|
            0 <= i < fields.len() ==> (#[trigger] fields[i]).name == t.children[i].name
                && conformed(t.children[i].logical_type, fields[i].value) is Some,
        conformed(t, ValueView::Struct(fields)) matches Some(w) ==> {
            &&& w is Struct
            &&& w->Struct_0.len() == fields.len()
            &&& forall|i: int|
                0 <= i < fields.len() ==> (#[trigger] w->Struct_0[i]).name == fields[i].name
                    && conformed(t.children[i].logical_type, fields[i].value) == Some(
                    w->Struct_0[i].value,
                )
        },
{
    let v = ValueView::Struct(fields);
    if let Some(w) = conformed(t, v) {
        assert forall|i: int| 0 <= i < fields.len() implies (#[trigger] w->Struct_0[i]).name
            == fields[i].name && conformed(t.children[i].logical_type, fields[i].value) == Some(
            w->Struct_0[i].value,
        ) by {
            assert(v->Struct_0[i].name == t.children[i].name);
        }
    }
}

/// A number takes as many bytes as the range of its type needs: those of an
/// integer type hold its integers and no others, a truth value takes one, and
/// days, timestamps and intervals take the bytes of 32, 64 and 128 bits.
pub proof fn law_numbers_take_the_bytes_of_their_range(t: LogicalTypeView)
    ensures
        integers_of(t.id) matches Some((low, high)) ==> (storage(t) matches Storage::Number {
            width,
            signed,
        } && pow256(width as nat) == high - low + 1 && signed == (low < 0)),
        t.id == LogicalTypeId::Boolean ==> storage(t) == (Storage::Number {
            width: 1,
            signed: false,
        }),
        t.id == LogicalTypeId::Date ==> (storage(t) matches Storage::Number { width, signed }
            && signed && pow256(width as nat) == i32::MAX - i32::MIN + 1),
        t.id == LogicalTypeId::TimestampSec || t.id == LogicalTypeId::TimestampMs || t.id
            == LogicalTypeId::Timestamp || t.id == LogicalTypeId::TimestampNs || t.id
            == LogicalTypeId::TimestampTz ==> (storage(t) matches Storage::Number { width, signed }
            && signed && pow256(width as nat) == i64::MAX - i64::MIN + 1),
        t.id == LogicalTypeId::Interval ==> (storage(t) matches Storage::Number { width, signed }
            && signed && pow256(width as nat) == i128::MAX - i128::MIN + 1),
{
    lemma_pow256_values();
}

/// A decimal takes the fewest bytes, of 2, 4, 8 and 16, that hold every number
/// with as many digits as its type is wide.
pub proof fn law_decimals_take_the_fewest_bytes(t: LogicalTypeView)
    requires
        t.id == LogicalTypeId::Decimal,
        1 <= t.width <= 38,
    ensures
        storage(t) matches Storage::Number { width, signed } && {
            &&& signed
            &&& width == 2 || width == 4 || width == 8 || width == 16
            &&& 2 * (pow10(t.width as nat) - 1) < pow256(width as nat)
            &&& width > 2 ==> 2 * (pow10(t.width as nat) - 1) >= pow256((width / 2) as nat)
        },
{
    lemma_pow256_values();
    lemma_pow10_values();
    let digits = t.width as nat;
    if digits <= 4 {
        lemma_pow10_increases(digits, 4);
    } else if digits <= 9 {
        lemma_pow10_increases(5, digits);
        lemma_pow10_increases(digits, 9);
        assert(pow10(5) == 10 * pow10(4));
    } else if digits <= 18 {
        lemma_pow10_increases(10, digits);
        lemma_pow10_increases(digits, 18);
        assert(pow10(10) == 10 * pow10(9));
    } else {
        lemma_pow10_increases(19, digits);
        lemma_pow10_increases(digits, 38);
        assert(pow10(19) == 10 * pow10(18));
    }
}

/// Values of every kind of number, of text and of bytes can be stored, and so
/// can lists, arrays and structs of what can be stored; of other types none can.
pub proof fn law_types_that_can_be_stored(t: LogicalTypeView)
    ensures
        integers_of(t.id) is Some || t.id == LogicalTypeId::Boolean || t.id == LogicalTypeId::Date
            || t.id == LogicalTypeId::Interval || t.id == LogicalTypeId::TimestampSec || t.id
            == LogicalTypeId::TimestampMs || t.id == LogicalTypeId::Timestamp || t.id
            == LogicalTypeId::TimestampNs || t.id == LogicalTypeId::TimestampTz || t.id
            == LogicalTypeId::Decimal || t.id == LogicalTypeId::Varchar || t.id
            == LogicalTypeId::Blob ==> storable(t),
        t.id == LogicalTypeId::List || t.id == LogicalTypeId::Array ==> (storable(t)
            <==> t.children.len() == 1 && storable(t.children[0].logical_type)),
        t.id == LogicalTypeId::Struct ==> (storable(t) <==> forall|i: int|
            0 <= i < t.children.len() ==> storable((#[trigger] t.children[i]).logical_type)),
        storage(t) is Unknown ==> !storable(t),
{
}

/// Whether a kind of type has no parts of its own.
pub open spec fn has_no_parts(id: LogicalTypeId) -> bool {
    &&& id != LogicalTypeId::Decimal
    &&& id != LogicalTypeId::List
    &&& id != LogicalTypeId::Array
    &&& id != LogicalTypeId::Struct
    &&& id != LogicalTypeId::Enum
    &&& id != LogicalTypeId::Union
    &&& id != LogicalTypeId::Mapping
}

/// Types that are put together from their parts have a form on the wire exactly
/// if the parts do: a decimal has 1 to 38 digits, of which any number may stand
/// after the point; lists, and arrays of any length, go by their items; a struct
/// goes by its members, which need different names. A kind without parts has one
/// as it is, but enumerations, unions and maps have none.
pub proof fn law_types_go_by_their_parts(
    id: LogicalTypeId,
    width: u8,
    scale: u8,
    child: LogicalTypeView,
    size: u32,
    children: Seq<ChildTypeView>,
)
    ensures
        type_in_order(LogicalTypeView::decimal(width, scale)) <==> 1 <= width <= 38 && scale
            <= width,
        type_in_order(LogicalTypeView::nested(LogicalTypeId::List, child, 0)) <==> type_in_order(
            child,
        ),
        type_in_order(LogicalTypeView::nested(LogicalTypeId::Array, child, size))
            <==> type_in_order(child),
        type_in_order(LogicalTypeView::structure(children)) <==> {
            &&& children.len() <= u64::MAX
            &&& forall|i: int, j: int|
                0 <= i < j < children.len() ==> (#[trigger] children[i]).name != (
                #[trigger] children[j]).name
            &&& forall|i: int|
                0 <= i < children.len() ==> text_fits((#[trigger] children[i]).name)
                    && type_in_order(children[i].logical_type)
        },
        has_no_parts(id) ==> type_in_order(LogicalTypeView::plain(id)),
        id == LogicalTypeId::Enum || id == LogicalTypeId::Union || id == LogicalTypeId::Mapping
            ==> !type_in_order(LogicalTypeView::plain(id)),
{
    reveal(named_once);
    let list = LogicalTypeView::nested(LogicalTypeId::List, child, 0);
    let array = LogicalTypeView::nested(LogicalTypeId::Array, child, size);
    let object = LogicalTypeView::structure(children);
    assert(list.children[0].logical_type == child && list.children[0].name.len() == 0);
    assert(array.children[0].logical_type == child && array.children[0].name.len() == 0);
    assert(object.children == children);
}

} // verus!
