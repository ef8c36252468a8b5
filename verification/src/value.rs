//! Column values, and the chunks and rows made of them.

use vstd::prelude::*;

use crate::types::LogicalType;
use crate::types::LogicalTypeView;
use crate::types::views;

verus! {

/// A fixed-point number: `value` counts units of `10^-scale`.
#[derive(Clone, Copy, Debug, PartialEq, Eq, Structural)]
pub struct DecimalValue {
    pub value: i128,
    pub width: u8,
    pub scale: u8,
}

/// A day, counted from 1970-01-01.
#[derive(Clone, Copy, Debug, PartialEq, Eq, Structural)]
pub struct DateValue {
    pub days: i32,
}

/// What a timestamp counts.
#[derive(Clone, Copy, Debug, PartialEq, Eq, Structural)]
pub enum TimestampUnit {
    Seconds,
    Millis,
    Micros,
    Nanos,
}

/// A moment, counted in some unit from the beginning of 1970-01-01.
#[derive(Clone, Copy, Debug, PartialEq, Eq, Structural)]
pub struct TimestampValue {
    pub value: i64,
    pub unit: TimestampUnit,
    pub with_time_zone: bool,
}

/// A span of time. Its parts do not convert into each other.
#[derive(Clone, Copy, Debug, PartialEq, Eq, Structural)]
pub struct IntervalValue {
    pub months: i32,
    pub days: i32,
    pub micros: i64,
}

/// A named member of a struct value.
#[derive(Debug, PartialEq, Eq)]
pub struct Field {
    pub name: String,
    pub value: Value,
}

/// A value of some logical type.
#[derive(Debug, PartialEq, Eq)]
pub enum Value {
    Null,
    Bool(bool),
    Int(i64),
    HugeInt(i128),
    Decimal(DecimalValue),
    Date(DateValue),
    Timestamp(TimestampValue),
    Interval(IntervalValue),
    String(String),
    Bytes(Vec<u8>),
    List(Vec<Value>),
    Struct(StructValue),
}

/// The fields of a struct value, in order, each under a name of its own.
#[derive(Debug, PartialEq, Eq)]
pub struct StructValue {
    fields: Vec<Field>,
}

/// The value of a `Field`.
pub struct FieldView {
    pub name: Seq<char>,
    pub value: ValueView,
}

/// The value of a `Value`.
pub enum ValueView {
    Null,
    Bool(bool),
    Int(i64),
    HugeInt(i128),
    Decimal(DecimalValue),
    Date(DateValue),
    Timestamp(TimestampValue),
    Interval(IntervalValue),
    String(Seq<char>),
    Bytes(Seq<u8>),
    List(Seq<ValueView>),
    Struct(Seq<FieldView>),
}

impl View for Value {
    type V = ValueView;

    open spec fn view(&self) -> ValueView
        decreases self,
    {
        match self {
            Value::Null => ValueView::Null,
            Value::Bool(b) => ValueView::Bool(*b),
            Value::Int(n) => ValueView::Int(*n),
            Value::HugeInt(n) => ValueView::HugeInt(*n),
            Value::Decimal(d) => ValueView::Decimal(*d),
            Value::Date(d) => ValueView::Date(*d),
            Value::Timestamp(t) => ValueView::Timestamp(*t),
            Value::Interval(span) => ValueView::Interval(*span),
            Value::String(s) => ValueView::String(s@),
            Value::Bytes(b) => ValueView::Bytes(b@),
            Value::List(items) => ValueView::List(
                Seq::new(
                    items@.len(),
                    |i: int|
                        if 0 <= i < items@.len() {
                            items@[i].view()
                        } else {
                            ValueView::Null
                        },
                ),
            ),
            Value::Struct(fields) => ValueView::Struct(
                Seq::new(
                    fields.list().len(),
                    |i: int|
                        if 0 <= i < fields.list().len() {
                            FieldView {
                                name: fields.list()[i].name@,
                                value: fields.list()[i].value.view(),
                            }
                        } else {
                            arbitrary()
                        },
                ),
            ),
        }
    }
}

impl View for Field {
    type V = FieldView;

    open spec fn view(&self) -> FieldView {
        FieldView { name: self.name@, value: self.value@ }
    }
}

impl View for StructValue {
    type V = Seq<FieldView>;

    open spec fn view(&self) -> Seq<FieldView> {
        views(self.list())
    }
}

/// Whether no two fields have the same name.
#[verifier::opaque]
pub open spec fn fields_named_once(fields: Seq<FieldView>) -> bool {
    forall|i: int, j: int|
        0 <= i < j < fields.len() ==> (#[trigger] fields[i]).name != (#[trigger] fields[j]).name
}

/// Whether a field has some name.
pub open spec fn has_field_named(fields: Seq<FieldView>, name: Seq<char>) -> bool {
    exists|i: int| 0 <= i < fields.len() && (#[trigger] fields[i]).name == name
}

/// The fields after a value was put under a name: in the place of the field of
/// that name, or at the end.
pub open spec fn fields_with(fields: Seq<FieldView>, name: Seq<char>, value: ValueView) -> Seq<
    FieldView,
> {
    if has_field_named(fields, name) {
        Seq::new(
            fields.len(),
            |i: int|
                if fields[i].name == name {
                    FieldView { name, value }
                } else {
                    fields[i]
                },
        )
    } else {
        fields.push(FieldView { name, value })
    }
}

/// The value under a name, if there is one; the first if there are several.
pub open spec fn value_of_field(fields: Seq<FieldView>, name: Seq<char>) -> Option<ValueView>
    decreases fields.len(),
{
    if fields.len() == 0 {
        None
    } else if fields[0].name == name {
        Some(fields[0].value)
    } else {
        value_of_field(fields.skip(1), name)
    }
}

proof fn lemma_value_of_field(fields: Seq<FieldView>, name: Seq<char>, i: int)
    requires
        0 <= i < fields.len(),
        fields[i].name == name,
        forall|k: int| 0 <= k < i ==> (#[trigger] fields[k]).name != name,
    ensures
        value_of_field(fields, name) == Some(fields[i].value),
    decreases fields.len(),
{
    if i > 0 {
        let rest = fields.skip(1);
        assert(fields[0].name != name);
        assert forall|k: int| 0 <= k < i - 1 implies (#[trigger] rest[k]).name != name by {
            assert(rest[k] == fields[k + 1]);
        }
        lemma_value_of_field(rest, name, i - 1);
    }
}

proof fn lemma_no_value_of_field(fields: Seq<FieldView>, name: Seq<char>)
    requires
        !has_field_named(fields, name),
    ensures
        value_of_field(fields, name) is None,
    decreases fields.len(),
{
    if fields.len() > 0 {
        let rest = fields.skip(1);
        assert(fields[0].name != name);
        assert(!has_field_named(rest, name)) by {
            if has_field_named(rest, name) {
                let k = choose|k: int| 0 <= k < rest.len() && (#[trigger] rest[k]).name == name;
                assert(fields[k + 1].name == name);
            }
        }
        lemma_no_value_of_field(rest, name);
    }
}

/// What is put under a name is what is found under it afterwards, and what is
/// found under any other name stays.
pub proof fn law_field_is_found_again(
    fields: Seq<FieldView>,
    name: Seq<char>,
    value: ValueView,
    other: Seq<char>,
)
    requires
        fields_named_once(fields),
    ensures
        value_of_field(fields_with(fields, name, value), name) == Some(value),
        other != name ==> value_of_field(fields_with(fields, name, value), other)
            == value_of_field(fields, other),
{
    reveal(fields_named_once);
    law_field_is_replaced(fields, name, value);
    let after = fields_with(fields, name, value);
    if has_field_named(fields, name) {
        let i = choose|i: int| 0 <= i < fields.len() && (#[trigger] fields[i]).name == name;
        assert(after[i] == FieldView { name, value });
        assert forall|k: int| 0 <= k < i implies (#[trigger] after[k]).name != name by {
            assert(fields[k].name != name);
        }
        lemma_value_of_field(after, name, i);
    } else {
        let i = fields.len() as int;
        assert forall|k: int| 0 <= k < i implies (#[trigger] after[k]).name != name by {
            assert(after[k] == fields[k]);
        }
        lemma_value_of_field(after, name, i);
    }
    if other != name {
        if has_field_named(fields, other) {
            let i = choose|i: int| 0 <= i < fields.len() && (#[trigger] fields[i]).name == other;
            assert forall|k: int| 0 <= k < i implies (#[trigger] fields[k]).name != other by {
                assert(fields[k].name != fields[i].name);
            }
            lemma_value_of_field(fields, other, i);
            assert(after[i] == fields[i]);
            assert forall|k: int| 0 <= k < i implies (#[trigger] after[k]).name != other by {
                assert(fields[k].name != other);
            }
            lemma_value_of_field(after, other, i);
        } else {
            lemma_no_value_of_field(fields, other);
            assert(!has_field_named(after, other)) by {
                if has_field_named(after, other) {
                    let k = choose|k: int|
                        0 <= k < after.len() && (#[trigger] after[k]).name == other;
                    if k < fields.len() {
                        assert(fields[k].name == other);
                    }
                }
            }
            lemma_no_value_of_field(after, other);
        }
    }
}

/// A value that is put under a name is the one that stands there afterwards;
/// all other fields stay as they are, in their order, and no name occurs twice.
pub proof fn law_field_is_replaced(fields: Seq<FieldView>, name: Seq<char>, value: ValueView)
    requires
        fields_named_once(fields),
    ensures
        fields_named_once(fields_with(fields, name, value)),
        fields_with(fields, name, value).contains(FieldView { name, value }),
        forall|i: int|
            0 <= i < fields.len() && (#[trigger] fields[i]).name != name ==> fields_with(
                fields,
                name,
                value,
            )[i] == fields[i],
        fields_with(fields, name, value).len() == fields.len() + if has_field_named(fields, name) {
            0int
        } else {
            1int
        },
{
    reveal(fields_named_once);
    let after = fields_with(fields, name, value);
    if has_field_named(fields, name) {
        let i = choose|i: int| 0 <= i < fields.len() && (#[trigger] fields[i]).name == name;
        assert(after[i] == FieldView { name, value });
    } else {
        assert(after.last() == FieldView { name, value });
        assert(after.contains(after.last()));
    }
}

impl StructValue {
    /// The fields, in order.
    pub closed spec fn list(self) -> Seq<Field> {
        self.fields@
    }

    #[verifier::type_invariant]
    spec fn is_named_once(self) -> bool {
        fields_named_once(views(self.fields@))
    }

    /// A struct without fields.
    pub fn new() -> (s: Self)
        ensures
            s@ == Seq::<FieldView>::empty(),
    {
        let fields: Vec<Field> = Vec::new();
        proof {
            reveal(fields_named_once);
            assert(views(fields@) =~= seq![]);
        }
        StructValue { fields }
    }

    /// A struct of fields that all have different names.
    pub(crate) fn of_fields(fields: Vec<Field>) -> (s: Self)
        requires
            fields_named_once(views(fields@)),
        ensures
            s@ == views(fields@),
    {
        StructValue { fields }
    }

    /// The number of fields.
    pub fn len(&self) -> (count: usize)
        ensures
            count == self@.len(),
            fields_named_once(self@),
    {
        proof {
            use_type_invariant(self);
        }
        self.fields.len()
    }

    /// The field at a place.
    pub fn field(&self, i: usize) -> (field: &Field)
        requires
            i < self@.len(),
        ensures
            field@ == self@[i as int],
            decreases_to!(*self => *field),
    {
        assert(decreases_to!(*self => self.fields@[i as int]));
        &self.fields[i]
    }

    fn place(&self, name: &String) -> (place: Option<usize>)
        ensures
            match place {
                Some(i) => i < self@.len() && self@[i as int].name == name@,
                None => !has_field_named(self@, name@),
            },
    {
        let count: usize = self.fields.len();
        for i in 0..count
            invariant
                count == self@.len(),
                forall|k: int| 0 <= k < i ==> (#[trigger] self@[k]).name != name@,
        {
            assert(self@[i as int] == self.fields@[i as int]@);
            if self.fields[i].name == *name {
                return Some(i);
            }
        }
        None
    }

    /// The value under a name, of which there is at most one.
    pub fn get(&self, name: &str) -> (value: Option<&Value>)
        ensures
            value matches Some(value) ==> forall|i: int|
                0 <= i < self@.len() && (#[trigger] self@[i]).name == name@ ==> self@[i].value
                    == value@,
            value is Some <==> has_field_named(self@, name@),
            match value {
                Some(value) => value_of_field(self@, name@) == Some(value@),
                None => value_of_field(self@, name@) is None,
            },
    {
        proof {
            use_type_invariant(self);
            reveal(fields_named_once);
        }
        match self.place(&name.to_owned()) {
            Some(i) => {
                assert(self@[i as int] == self.fields@[i as int]@);
                proof {
                    assert forall|k: int| 0 <= k < i implies (#[trigger] self@[k]).name
                        != name@ by {
                        assert(self@[k].name != self@[i as int].name);
                    }
                    lemma_value_of_field(self@, name@, i as int);
                }
                Some(&self.fields[i].value)
            },
            None => {
                proof {
                    lemma_no_value_of_field(self@, name@);
                }
                None
            },
        }
    }

    /// Puts a value under a name: in the place of the one that is there, or at
    /// the end.
    pub fn insert(&mut self, name: String, value: Value)
        ensures
            final(self)@ == fields_with(old(self)@, name@, value@),
            fields_named_once(final(self)@),
    {
        let ghost before = self@;
        proof {
            use_type_invariant(&*self);
            reveal(fields_named_once);
        }
        let place = self.place(&name);
        let mut list: Vec<Field> = Vec::new();
        assert(views(list@) =~= seq![]);
        std::mem::swap(&mut list, &mut self.fields);
        assert(views(list@) == before);
        let field = Field { name, value };
        match place {
            Some(i) => {
                assert(before[i as int].name == field.name@);
                list[i] = field;
            },
            None => {
                list.push(field);
            },
        }
        assert(views(list@) =~= fields_with(before, field.name@, field.value@));
        assert(fields_named_once(views(list@)));
        self.fields = list;
    }
}

/// Nested values, seen as the views of a sequence.
pub proof fn lemma_nested_view(value: Value)
    ensures
        value matches Value::List(items) ==> value@ == ValueView::List(views(items@)),
        value matches Value::Struct(fields) ==> value@ == ValueView::Struct(fields@),
{
    reveal_with_fuel(<Value as View>::view, 2);
    match value {
        Value::List(items) => {
            assert(value@->List_0 =~= views(items@));
        },
        Value::Struct(fields) => {
            assert(value@->Struct_0 =~= fields@);
        },
        _ => {},
    }
}

impl Clone for Value {
    fn clone(&self) -> (value: Self)
        ensures
            value@ == self@,
        decreases self,
    {
        proof {
            lemma_nested_view(*self);
        }
        match self {
            Value::Null => Value::Null,
            Value::Bool(b) => Value::Bool(*b),
            Value::Int(n) => Value::Int(*n),
            Value::HugeInt(n) => Value::HugeInt(*n),
            Value::Decimal(d) => Value::Decimal(*d),
            Value::Date(d) => Value::Date(*d),
            Value::Timestamp(t) => Value::Timestamp(*t),
            Value::Interval(span) => Value::Interval(*span),
            Value::String(s) => Value::String(s.clone()),
            Value::Bytes(b) => {
                let mut bytes: Vec<u8> = Vec::new();
                bytes.extend_from_slice(b.as_slice());
                assert(bytes@ =~= b@);
                Value::Bytes(bytes)
            },
            Value::List(items) => {
                let mut copies: Vec<Value> = Vec::new();
                let mut i: usize = 0;
                while i < items.len()
                    invariant
                        i <= items@.len(),
                        copies@.len() == i,
                        *self == Value::List(*items),
                        forall|j: int| 0 <= j < i ==> #[trigger] copies@[j]@ == items@[j]@,
                    decreases items@.len() - i,
                {
                    assert(decreases_to!(*self => self->List_0@[i as int]));
                    copies.push(items[i].clone());
                    i += 1;
                }
                let value = Value::List(copies);
                proof {
                    lemma_nested_view(value);
                    assert(views(copies@) =~= views(items@));
                }
                value
            },
            Value::Struct(fields) => {
                let copy = fields.clone();
                let value = Value::Struct(copy);
                proof {
                    lemma_nested_view(value);
                }
                value
            },
        }
    }
}

impl Clone for StructValue {
    fn clone(&self) -> (s: Self)
        ensures
            s@ == self@,
        decreases self,
    {
        proof {
            use_type_invariant(self);
        }
        let mut copies: Vec<Field> = Vec::new();
        let count: usize = self.fields.len();
        let mut i: usize = 0;
        while i < count
            invariant
                i <= count,
                count == self.fields@.len(),
                copies@.len() == i,
                forall|j: int| 0 <= j < i ==> #[trigger] copies@[j]@ == self.fields@[j]@,
            decreases count - i,
        {
            assert(decreases_to!(*self => self.fields@[i as int].value));
            let field = &self.fields[i];
            copies.push(Field { name: field.name.clone(), value: field.value.clone() });
            i += 1;
        }
        assert(views(copies@) =~= views(self.fields@));
        StructValue { fields: copies }
    }
}

impl Clone for Field {
    fn clone(&self) -> (field: Self)
        ensures
            field@ == self@,
    {
        Field { name: self.name.clone(), value: self.value.clone() }
    }
}

/// A timestamp as a value.
pub fn timestamp_value(value: i64, unit: TimestampUnit, with_time_zone: bool) -> (v: Value)
    ensures
        v@ == ValueView::Timestamp(TimestampValue { value, unit, with_time_zone }),
{
    Value::Timestamp(TimestampValue { value, unit, with_time_zone })
}

/// An interval as a value.
pub fn interval_value(months: i32, days: i32, micros: i64) -> (v: Value)
    ensures
        v@ == ValueView::Interval(IntervalValue { months, days, micros }),
{
    Value::Interval(IntervalValue { months, days, micros })
}

impl From<bool> for Value {
    fn from(b: bool) -> (value: Self) {
        Value::Bool(b)
    }
}

impl vstd::std_specs::convert::FromSpecImpl<bool> for Value {
    open spec fn obeys_from_spec() -> bool {
        true
    }

    open spec fn from_spec(b: bool) -> Self {
        Value::Bool(b)
    }
}

impl From<i64> for Value {
    fn from(n: i64) -> (value: Self) {
        Value::Int(n)
    }
}

impl vstd::std_specs::convert::FromSpecImpl<i64> for Value {
    open spec fn obeys_from_spec() -> bool {
        true
    }

    open spec fn from_spec(n: i64) -> Self {
        Value::Int(n)
    }
}

impl From<String> for Value {
    fn from(text: String) -> (value: Self) {
        Value::String(text)
    }
}

impl vstd::std_specs::convert::FromSpecImpl<String> for Value {
    open spec fn obeys_from_spec() -> bool {
        true
    }

    open spec fn from_spec(text: String) -> Self {
        Value::String(text)
    }
}

impl<'a> From<&'a str> for Value {
    fn from(text: &'a str) -> (value: Self)
        ensures
            value@ == ValueView::String(text@),
    {
        Value::String(text.to_owned())
    }
}

impl<'a> vstd::std_specs::convert::FromSpecImpl<&'a str> for Value {
    open spec fn obeys_from_spec() -> bool {
        false
    }

    open spec fn from_spec(text: &'a str) -> Self {
        arbitrary()
    }
}

/// A batch of rows, stored by column.
#[derive(Debug, PartialEq, Eq)]
pub struct DataChunk {
    pub row_count: usize,
    pub types: Vec<LogicalType>,
    pub columns: Vec<Vec<Value>>,
    pub column_names: Option<Vec<String>>,
}

/// The value of a `DataChunk`.
pub struct DataChunkView {
    pub row_count: usize,
    pub types: Seq<LogicalTypeView>,
    pub columns: Seq<Seq<ValueView>>,
    pub column_names: Option<Seq<Seq<char>>>,
}

impl View for DataChunk {
    type V = DataChunkView;

    open spec fn view(&self) -> DataChunkView {
        DataChunkView {
            row_count: self.row_count,
            types: views(self.types@),
            columns: Seq::new(self.columns@.len(), |i: int| views(self.columns@[i]@)),
            column_names: match self.column_names {
                Some(names) => Some(views(names@)),
                None => None,
            },
        }
    }
}

fn cloned_types(types: &Vec<LogicalType>) -> (copy: Vec<LogicalType>)
    ensures
        views(copy@) == views(types@),
{
    let mut copy: Vec<LogicalType> = Vec::new();
    let count: usize = types.len();
    for i in 0..count
        invariant
            count == types@.len(),
            copy@.len() == i,
            forall|k: int| 0 <= k < i ==> (#[trigger] copy@[k])@ == types@[k]@,
    {
        copy.push(types[i].clone());
    }
    assert(views(copy@) =~= views(types@));
    copy
}

pub(crate) fn cloned_column(column: &Vec<Value>) -> (copy: Vec<Value>)
    ensures
        views(copy@) == views(column@),
{
    let mut copy: Vec<Value> = Vec::new();
    let count: usize = column.len();
    for i in 0..count
        invariant
            count == column@.len(),
            copy@.len() == i,
            forall|k: int| 0 <= k < i ==> (#[trigger] copy@[k])@ == column@[k]@,
    {
        copy.push(column[i].clone());
    }
    assert(views(copy@) =~= views(column@));
    copy
}

pub(crate) fn cloned_names(names: &Vec<String>) -> (copy: Vec<String>)
    ensures
        views(copy@) == views(names@),
{
    let mut copy: Vec<String> = Vec::new();
    let count: usize = names.len();
    for i in 0..count
        invariant
            count == names@.len(),
            copy@.len() == i,
            forall|k: int| 0 <= k < i ==> (#[trigger] copy@[k])@ == names@[k]@,
    {
        copy.push(names[i].clone());
    }
    assert(views(copy@) =~= views(names@));
    copy
}

impl Clone for DataChunk {
    fn clone(&self) -> (chunk: Self)
        ensures
            chunk@ == self@,
    {
        let mut columns: Vec<Vec<Value>> = Vec::new();
        let count: usize = self.columns.len();
        for j in 0..count
            invariant
                count == self.columns@.len(),
                columns@.len() == j,
                forall|k: int|
                    0 <= k < j ==> views((#[trigger] columns@[k])@) == views(self.columns@[k]@),
        {
            let copy = cloned_column(&self.columns[j]);
            columns.push(copy);
        }
        let chunk = DataChunk {
            row_count: self.row_count,
            types: cloned_types(&self.types),
            columns,
            column_names: match &self.column_names {
                Some(names) => Some(cloned_names(names)),
                None => None,
            },
        };
        assert(chunk@.columns =~= self@.columns);
        chunk
    }
}

impl DataChunkView {
    /// The chunk under other column names.
    pub open spec fn named(self, names: Seq<Seq<char>>) -> Self {
        DataChunkView { column_names: Some(names), ..self }
    }
}

} // verus!
