//! Putting chunks together, from columns or from rows.

use vstd::prelude::*;

use crate::conform::conformed;
use crate::conform::law_decimals_keep_their_units;
use crate::conform::law_integers_keep_their_number;
use crate::conform::law_plain_values_are_kept;
use crate::conform::law_timestamps_are_not_rescaled;
use crate::errors::QuackError;
use crate::errors::QuackErrorView;
use crate::fetch::column_names;
use crate::rows::key_index;
use crate::rows::row_entries;
use crate::rows::row_entry;
use crate::rows::row_get;
use crate::rows::row_len;
use crate::rows::row_of;
use crate::rows::rows_entries;
use crate::rows::rows_of;
use crate::rows::value_under;
use crate::rows::Row;
use crate::storage::pow10;
use crate::text::joined;
use crate::typecodec::text_fits;
use crate::types::option_view;
use crate::types::views;
use crate::types::ChildType;
use crate::types::ChildTypeView;
use crate::types::ColumnDefinition;
use crate::types::ColumnDefinitionView;
use crate::types::LogicalType;
use crate::types::LogicalTypeId;
use crate::types::LogicalTypes;
use crate::types::LogicalTypeView;
use crate::value::cloned_column;
use crate::value::lemma_nested_view;
use crate::value::DataChunk;
use crate::value::DataChunkView;
use crate::value::FieldView;
use crate::value::TimestampUnit;
use crate::value::TimestampValue;
use crate::value::Value;
use crate::value::ValueView;

verus! {

/// A column of values, perhaps with a name.
#[derive(Debug)]
pub struct Column {
    pub logical_type: LogicalType,
    pub values: Vec<Value>,
    pub name: Option<String>,
}

/// The value of a `Column`.
pub struct ColumnView {
    pub logical_type: LogicalTypeView,
    pub values: Seq<ValueView>,
    pub name: Option<Seq<char>>,
}

impl View for Column {
    type V = ColumnView;

    open spec fn view(&self) -> ColumnView {
        ColumnView {
            logical_type: self.logical_type@,
            values: views(self.values@),
            name: option_view(self.name),
        }
    }
}

/// A column of values, perhaps with a name.
pub fn column(logical_type: LogicalType, values: Vec<Value>, name: Option<String>) -> (c: Column)
    ensures
        c@ == (ColumnView {
            logical_type: logical_type@,
            values: views(values@),
            name: option_view(name),
        }),
{
    Column { logical_type, values, name }
}

/// Whether every column has a name.
pub open spec fn all_have_names(columns: Seq<ColumnView>) -> bool {
    forall|j: int| 0 <= j < columns.len() ==> (#[trigger] columns[j]).name is Some
}

/// The chunk that some columns make, or what is wrong with them. The chunk has
/// column names if every column has one.
pub open spec fn chunk_of_columns(columns: Seq<ColumnView>) -> Result<
    DataChunkView,
    QuackErrorView,
> {
    if exists|j: int|
        0 <= j < columns.len() && (#[trigger] columns[j]).values.len() != columns[0].values.len() {
        Err(QuackErrorView::Protocol("columns do not have the same number of values"@))
    } else {
        Ok(
            DataChunkView {
                row_count: if columns.len() == 0 {
                    0
                } else {
                    columns[0].values.len() as usize
                },
                types: Seq::new(columns.len(), |j: int| columns[j].logical_type),
                columns: Seq::new(columns.len(), |j: int| columns[j].values),
                column_names: if all_have_names(columns) {
                    Some(Seq::new(columns.len(), |j: int| columns[j].name->Some_0))
                } else {
                    None
                },
            },
        )
    }
}

/// The outcome of making a chunk, as plain values.
pub open spec fn chunk_view(chunk: Result<DataChunk, QuackError>) -> Result<
    DataChunkView,
    QuackErrorView,
> {
    match chunk {
        Ok(chunk) => Ok(chunk@),
        Err(error) => Err(error@),
    }
}

/// The chunk that some columns make.
pub fn data_chunk(columns: Vec<Column>) -> (chunk: Result<DataChunk, QuackError>)
    ensures
        chunk_view(chunk) == chunk_of_columns(views(columns@)),
{
    let ghost all = views(columns@);
    let count: usize = columns.len();
    let rows: usize = if count == 0 {
        0
    } else {
        columns[0].values.len()
    };
    let mut types: Vec<LogicalType> = Vec::new();
    let mut values: Vec<Vec<Value>> = Vec::new();
    let mut names: Vec<String> = Vec::new();
    let mut named: bool = true;
    let mut j: usize = 0;
    while j < count
        invariant
            j <= count,
            count == columns@.len(),
            all == views(columns@),
            count > 0 ==> rows == all[0].values.len(),
            types@.len() == j,
            values@.len() == j,
            forall|k: int| 0 <= k < j ==> (#[trigger] types@[k])@ == all[k].logical_type,
            forall|k: int| 0 <= k < j ==> views((#[trigger] values@[k])@) == all[k].values,
            forall|k: int| 0 <= k < j ==> (#[trigger] all[k]).values.len() == rows,
            named ==> names@.len() == j && forall|k: int|
                0 <= k < j ==> (#[trigger] all[k]).name == Some(names@[k]@),
            !named ==> exists|k: int| 0 <= k < j && (#[trigger] all[k]).name is None,
        decreases count - j,
    {
        let c = &columns[j];
        assert(all[j as int] == c@);
        if c.values.len() != rows {
            assert(all[j as int].values.len() != all[0].values.len());
            return Err(QuackError::protocol("columns do not have the same number of values"));
        }
        types.push(c.logical_type.clone());
        let copy = cloned_column(&c.values);
        values.push(copy);
        match &c.name {
            Some(name) => {
                if named {
                    names.push(name.clone());
                }
            },
            None => {
                named = false;
                assert(all[j as int].name is None);
            },
        }
        j += 1;
    }
    let chunk = DataChunk {
        row_count: rows,
        types,
        columns: values,
        column_names: if named {
            Some(names)
        } else {
            None
        },
    };
    proof {
        assert(chunk@.types =~= Seq::new(all.len(), |j: int| all[j].logical_type));
        assert(chunk@.columns =~= Seq::new(all.len(), |j: int| all[j].values));
        if named {
            assert(views(names@) =~= Seq::new(all.len(), |j: int| all[j].name->Some_0));
        }
    }
    Ok(chunk)
}

// ---------------------------------------------------------------------------
// From rows
// ---------------------------------------------------------------------------
/// One column of some rows: what each has under a name.
pub open spec fn column_of_rows(
    rows: Seq<Seq<(Seq<char>, ValueView)>>,
    name: Seq<char>,
) -> Seq<ValueView> {
    Seq::new(rows.len(), |i: int| value_under(rows[i], name))
}

/// The chunk that some rows make under given columns.
pub open spec fn chunk_of_rows(
    rows: Seq<Seq<(Seq<char>, ValueView)>>,
    columns: Seq<ColumnDefinitionView>,
) -> DataChunkView {
    DataChunkView {
        row_count: rows.len() as usize,
        types: Seq::new(columns.len(), |j: int| columns[j].logical_type),
        columns: Seq::new(columns.len(), |j: int| column_of_rows(rows, columns[j].name)),
        column_names: Some(column_names(columns)),
    }
}

/// The type of a timestamp, if there is one: with a time zone, only
/// microseconds are counted.
pub open spec fn timestamp_type(t: TimestampValue) -> Option<LogicalTypeView> {
    match (t.unit, t.with_time_zone) {
        (TimestampUnit::Seconds, false) => Some(
            LogicalTypeView::plain(LogicalTypeId::TimestampSec),
        ),
        (TimestampUnit::Millis, false) => Some(LogicalTypeView::plain(LogicalTypeId::TimestampMs)),
        (TimestampUnit::Micros, false) => Some(LogicalTypeView::plain(LogicalTypeId::Timestamp)),
        (TimestampUnit::Nanos, false) => Some(LogicalTypeView::plain(LogicalTypeId::TimestampNs)),
        (TimestampUnit::Micros, true) => Some(LogicalTypeView::plain(LogicalTypeId::TimestampTz)),
        _ => None,
    }
}

/// The type that a value suggests for its column.
pub open spec fn suggested_type(v: ValueView) -> Option<LogicalTypeView>
    decreases v,
{
    match v {
        ValueView::Null => None,
        ValueView::Bool(_) => Some(LogicalTypeView::plain(LogicalTypeId::Boolean)),
        ValueView::Int(_) => Some(LogicalTypeView::plain(LogicalTypeId::BigInt)),
        ValueView::HugeInt(_) => Some(LogicalTypeView::plain(LogicalTypeId::HugeInt)),
        ValueView::Decimal(d) => Some(LogicalTypeView::decimal(d.width, d.scale)),
        ValueView::Date(_) => Some(LogicalTypeView::plain(LogicalTypeId::Date)),
        ValueView::Timestamp(t) => timestamp_type(t),
        ValueView::Interval(_) => Some(LogicalTypeView::plain(LogicalTypeId::Interval)),
        ValueView::String(_) => Some(LogicalTypeView::plain(LogicalTypeId::Varchar)),
        ValueView::Bytes(_) => Some(LogicalTypeView::plain(LogicalTypeId::Blob)),
        ValueView::List(items) => match first_suggestion(items) {
            Some(child) => Some(LogicalTypeView::nested(LogicalTypeId::List, child, 0)),
            None => None,
        },
        ValueView::Struct(fields) => if forall|i: int|
            0 <= i < fields.len() ==> suggested_type((#[trigger] fields[i]).value) is Some {
            Some(
                LogicalTypeView::structure(
                    Seq::new(
                        fields.len(),
                        |i: int|
                            if 0 <= i < fields.len() {
                                ChildTypeView {
                                    name: fields[i].name,
                                    logical_type: suggested_type(fields[i].value)->Some_0,
                                }
                            } else {
                                arbitrary()
                            },
                    ),
                ),
            )
        } else {
            None
        },
    }
}

/// The type that the first of some values suggests that suggests one.
pub open spec fn first_suggestion(values: Seq<ValueView>) -> Option<LogicalTypeView>
    decreases values,
{
    if values.len() == 0 {
        None
    } else {
        match suggested_type(values[0]) {
            Some(t) => Some(t),
            None => first_suggestion(values.subrange(1, values.len() as int)),
        }
    }
}

/// The names in some entries that are not among some names yet, added to these.
pub open spec fn with_new_names(
    names: Seq<Seq<char>>,
    entries: Seq<(Seq<char>, ValueView)>,
    count: nat,
) -> Seq<Seq<char>>
    decreases count,
{
    if count == 0 {
        names
    } else {
        let before = with_new_names(names, entries, (count - 1) as nat);
        let name = entries[count - 1].0;
        if before.contains(name) {
            before
        } else {
            before.push(name)
        }
    }
}

/// The names in the first rows, in the order in which they first come.
pub open spec fn names_in(rows: Seq<Seq<(Seq<char>, ValueView)>>, count: nat) -> Seq<Seq<char>>
    decreases count,
{
    if count == 0 {
        seq![]
    } else {
        with_new_names(
            names_in(rows, (count - 1) as nat),
            rows[count - 1],
            rows[count - 1].len(),
        )
    }
}

/// The columns that some rows suggest for some names, or the first name for
/// which they suggest none.
pub open spec fn suggested_columns(
    rows: Seq<Seq<(Seq<char>, ValueView)>>,
    names: Seq<Seq<char>>,
    from: nat,
) -> Result<Seq<ColumnDefinitionView>, QuackErrorView>
    decreases names.len() - from,
{
    if from >= names.len() {
        Ok(seq![])
    } else {
        match first_suggestion(column_of_rows(rows, names[from as int])) {
            None => Err(
                QuackErrorView::Protocol("no type can be told for column "@ + names[from as int]),
            ),
            Some(logical_type) => match suggested_columns(rows, names, from + 1) {
                Err(error) => Err(error),
                Ok(rest) => Ok(
                    seq![ColumnDefinitionView { name: names[from as int], logical_type }] + rest,
                ),
            },
        }
    }
}

fn suggest_timestamp(t: TimestampValue) -> (logical_type: Option<LogicalType>)
    ensures
        option_view(logical_type) == timestamp_type(t),
{
    match (t.unit, t.with_time_zone) {
        (TimestampUnit::Seconds, false) => Some(LogicalType::plain(LogicalTypeId::TimestampSec)),
        (TimestampUnit::Millis, false) => Some(LogicalType::plain(LogicalTypeId::TimestampMs)),
        (TimestampUnit::Micros, false) => Some(LogicalType::plain(LogicalTypeId::Timestamp)),
        (TimestampUnit::Nanos, false) => Some(LogicalType::plain(LogicalTypeId::TimestampNs)),
        (TimestampUnit::Micros, true) => Some(LogicalType::plain(LogicalTypeId::TimestampTz)),
        _ => None,
    }
}

/// The type that a value suggests for its column.
fn suggest(value: &Value) -> (t: Option<LogicalType>)
    ensures
        option_view(t) == suggested_type(value@),
    decreases value, 1nat,
{
    proof {
        lemma_nested_view(*value);
    }
    match value {
        Value::Null => None,
        Value::Bool(_) => Some(LogicalTypes::boolean()),
        Value::Int(_) => Some(LogicalTypes::bigint()),
        Value::HugeInt(_) => Some(LogicalType::plain(LogicalTypeId::HugeInt)),
        Value::Decimal(d) => Some(LogicalTypes::decimal(d.width, d.scale)),
        Value::Date(_) => Some(LogicalType::plain(LogicalTypeId::Date)),
        Value::Timestamp(t) => suggest_timestamp(*t),
        Value::Interval(_) => Some(LogicalType::plain(LogicalTypeId::Interval)),
        Value::String(_) => Some(LogicalTypes::varchar()),
        Value::Bytes(_) => Some(LogicalType::plain(LogicalTypeId::Blob)),
        Value::List(_) => suggest_list(value),
        Value::Struct(_) => suggest_struct(value),
    }
}

proof fn lemma_no_suggestion_yet(values: Seq<ValueView>, count: nat)
    requires
        count <= values.len(),
        forall|k: int| 0 <= k < count ==> suggested_type(#[trigger] values[k]) is None,
    ensures
        first_suggestion(values) == first_suggestion(
            values.subrange(count as int, values.len() as int),
        ),
    decreases count,
{
    if count == 0 {
        assert(values.subrange(0, values.len() as int) =~= values);
    } else {
        lemma_no_suggestion_yet(values, (count - 1) as nat);
        let rest = values.subrange(count - 1, values.len() as int);
        assert(rest[0] == values[count - 1]);
        assert(rest.subrange(1, rest.len() as int) =~= values.subrange(
            count as int,
            values.len() as int,
        ));
    }
}

fn suggest_list(value: &Value) -> (t: Option<LogicalType>)
    requires
        value@ is List,
    ensures
        option_view(t) == suggested_type(value@),
    decreases value, 0nat,
{
    proof {
        lemma_nested_view(*value);
    }
    if let Value::List(items) = value {
        let ghost vs = views(items@);
        let count: usize = items.len();
        let mut i: usize = 0;
        while i < count
            invariant
                i <= count,
                count == items@.len(),
                vs == views(items@),
                *value matches Value::List(list) && *items == list,
                value@ == ValueView::List(vs),
                forall|k: int| 0 <= k < i ==> suggested_type(#[trigger] vs[k]) is None,
            decreases count - i,
        {
            assert(decreases_to!(*value => value->List_0@[i as int]));
            assert(vs[i as int] == items@[i as int]@);
            if let Some(child) = suggest(&items[i]) {
                proof {
                    lemma_no_suggestion_yet(vs, i as nat);
                    assert(vs.subrange(i as int, vs.len() as int)[0] == vs[i as int]);
                }
                return Some(LogicalTypes::list(child));
            }
            i += 1;
        }
        proof {
            lemma_no_suggestion_yet(vs, count as nat);
            assert(vs.subrange(count as int, vs.len() as int) =~= seq![]);
        }
    }
    None
}

fn suggest_struct(value: &Value) -> (t: Option<LogicalType>)
    requires
        value@ is Struct,
    ensures
        option_view(t) == suggested_type(value@),
    decreases value, 0nat,
{
    proof {
        lemma_nested_view(*value);
    }
    let mut children: Vec<ChildType> = Vec::new();
    if let Value::Struct(fields) = value {
        let ghost fs = fields@;
        let count: usize = fields.len();
        let mut i: usize = 0;
        while i < count
            invariant
                i <= count,
                count == fields@.len(),
                fs == fields@,
                *value matches Value::Struct(list) && *fields == list,
                value@ == ValueView::Struct(fs),
                children@.len() == i,
                forall|k: int|
                    0 <= k < i ==> suggested_type((#[trigger] fs[k]).value) == Some(
                        children@[k]@.logical_type,
                    ) && children@[k]@.name == fs[k].name,
            decreases count - i,
        {
            let field = fields.field(i);
            assert(decreases_to!(*value => value->Struct_0));
            assert(decreases_to!(*field => field.value));
            match suggest(&field.value) {
                Some(logical_type) => {
                    children.push(ChildType { name: field.name.clone(), logical_type });
                },
                None => {
                    assert(suggested_type(fs[i as int].value) is None);
                    return None;
                },
            }
            i += 1;
        }
        proof {
            assert forall|k: int| 0 <= k < fs.len() implies suggested_type(
                (#[trigger] fs[k]).value,
            ) is Some by {}
            let expected = suggested_type(value@)->Some_0.children;
            assert forall|k: int| 0 <= k < count implies #[trigger] views(children@)[k]
                == expected[k] by {
                assert(suggested_type(fs[k].value) == Some(children@[k]@.logical_type));
            }
            assert(views(children@) =~= expected);
        }
    }
    Some(LogicalTypes::structure(children))
}

fn is_among(names: &Vec<String>, name: &String) -> (b: bool)
    ensures
        b == views(names@).contains(name@),
{
    let count: usize = names.len();
    for i in 0..count
        invariant
            count == names@.len(),
            forall|k: int| 0 <= k < i ==> #[trigger] views(names@)[k] != name@,
    {
        assert(views(names@)[i as int] == names@[i as int]@);
        if names[i] == *name {
            return true;
        }
    }
    false
}

fn add_new_names(names: &mut Vec<String>, row: &Row)
    ensures
        views(final(names)@) == with_new_names(
            views(old(names)@),
            row_entries(*row),
            row_entries(*row).len(),
        ),
{
    let ghost entries = row_entries(*row);
    let ghost start = views(names@);
    let count: usize = row_len(row);
    for i in 0..count
        invariant
            count == entries.len(),
            entries == row_entries(*row),
            start == views(old(names)@),
            views(names@) == with_new_names(start, entries, i as nat),
    {
        if let Some((name, _)) = row_entry(row, i) {
            if !is_among(names, name) {
                let ghost before = names@;
                names.push(name.clone());
                assert(views(names@) =~= views(before).push(name@));
            }
        }
    }
}

fn names_of_rows(rows: &[Row]) -> (names: Vec<String>)
    ensures
        views(names@) == names_in(rows_entries(rows@), rows@.len()),
{
    let ghost all = rows_entries(rows@);
    let mut names: Vec<String> = Vec::new();
    let count: usize = rows.len();
    assert(views(names@) =~= seq![]);
    for i in 0..count
        invariant
            count == rows@.len(),
            all == rows_entries(rows@),
            views(names@) == names_in(all, i as nat),
    {
        assert(all[i as int] == row_entries(rows@[i as int]));
        add_new_names(&mut names, &rows[i]);
    }
    names
}

fn values_under(rows: &[Row], name: &String) -> (values: Vec<Value>)
    ensures
        views(values@) == column_of_rows(rows_entries(rows@), name@),
{
    let ghost all = rows_entries(rows@);
    let mut values: Vec<Value> = Vec::new();
    let count: usize = rows.len();
    for i in 0..count
        invariant
            count == rows@.len(),
            all == rows_entries(rows@),
            values@.len() == i,
            forall|k: int|
                0 <= k < i ==> (#[trigger] values@[k])@ == value_under(all[k], name@),
    {
        assert(all[i as int] == row_entries(rows@[i as int]));
        match row_get(&rows[i], name.as_str()) {
            Some(value) => values.push(value.clone()),
            None => values.push(Value::Null),
        }
    }
    assert(views(values@) =~= column_of_rows(all, name@));
    values
}

fn suggest_first(values: &Vec<Value>) -> (t: Option<LogicalType>)
    ensures
        option_view(t) == first_suggestion(views(values@)),
{
    let ghost vs = views(values@);
    let count: usize = values.len();
    for i in 0..count
        invariant
            count == values@.len(),
            vs == views(values@),
            forall|k: int| 0 <= k < i ==> suggested_type(#[trigger] vs[k]) is None,
    {
        assert(vs[i as int] == values@[i as int]@);
        if let Some(t) = suggest(&values[i]) {
            proof {
                lemma_no_suggestion_yet(vs, i as nat);
                assert(vs.subrange(i as int, vs.len() as int)[0] == vs[i as int]);
            }
            return Some(t);
        }
    }
    proof {
        lemma_no_suggestion_yet(vs, count as nat);
        assert(vs.subrange(count as int, vs.len() as int) =~= seq![]);
    }
    None
}

/// What the suggestions for the remaining names make of all columns.
pub open spec fn after_first_columns(
    first: Seq<ColumnDefinitionView>,
    rest: Result<Seq<ColumnDefinitionView>, QuackErrorView>,
) -> Result<Seq<ColumnDefinitionView>, QuackErrorView> {
    match rest {
        Ok(rest) => Ok(first + rest),
        Err(error) => Err(error),
    }
}

fn suggest_columns(rows: &[Row]) -> (columns: Result<Vec<ColumnDefinition>, QuackError>)
    ensures
        match columns {
            Ok(columns) => suggested_columns(
                rows_entries(rows@),
                names_in(rows_entries(rows@), rows@.len()),
                0,
            ) == Ok::<_, QuackErrorView>(views(columns@)),
            Err(error) => suggested_columns(
                rows_entries(rows@),
                names_in(rows_entries(rows@), rows@.len()),
                0,
            ) == Err::<Seq<ColumnDefinitionView>, _>(error@),
        },
{
    let names = names_of_rows(rows);
    let ghost all = rows_entries(rows@);
    let ghost ns = views(names@);
    let ghost whole = suggested_columns(all, ns, 0);
    let mut columns: Vec<ColumnDefinition> = Vec::new();
    let mut j: usize = 0;
    proof {
        assert(views(columns@) =~= seq![]);
        if let Ok(rest) = whole {
            assert(seq![] + rest =~= rest);
        }
    }
    while j < names.len()
        invariant
            j <= names@.len(),
            all == rows_entries(rows@),
            ns == views(names@),
            ns == names_in(all, rows@.len()),
            whole == suggested_columns(all, ns, 0),
            whole == after_first_columns(views(columns@), suggested_columns(all, ns, j as nat)),
        decreases names@.len() - j,
    {
        assert(ns[j as int] == names@[j as int]@);
        let values = values_under(rows, &names[j]);
        match suggest_first(&values) {
            None => {
                return Err(
                    QuackError::Protocol(
                        joined("no type can be told for column ", names[j].as_str()),
                    ),
                );
            },
            Some(logical_type) => {
                let ghost before = views(columns@);
                let c = ColumnDefinition { name: names[j].clone(), logical_type };
                columns.push(c);
                proof {
                    assert(views(columns@) =~= before.push(c@));
                    if let Ok(rest) = suggested_columns(all, ns, (j + 1) as nat) {
                        assert(before + (seq![c@] + rest) =~= views(columns@) + rest);
                    }
                }
                j += 1;
            },
        }
    }
    assert(views(columns@) + seq![] =~= views(columns@));
    Ok(columns)
}

fn chunk_under(rows: &[Row], columns: &Vec<ColumnDefinition>) -> (chunk: DataChunk)
    ensures
        chunk@ == chunk_of_rows(rows_entries(rows@), views(columns@)),
{
    let ghost all = rows_entries(rows@);
    let ghost cs = views(columns@);
    let mut types: Vec<LogicalType> = Vec::new();
    let mut values: Vec<Vec<Value>> = Vec::new();
    let mut names: Vec<String> = Vec::new();
    let count: usize = columns.len();
    for j in 0..count
        invariant
            count == columns@.len(),
            all == rows_entries(rows@),
            cs == views(columns@),
            types@.len() == j,
            values@.len() == j,
            names@.len() == j,
            forall|k: int| 0 <= k < j ==> (#[trigger] types@[k])@ == cs[k].logical_type,
            forall|k: int|
                0 <= k < j ==> views((#[trigger] values@[k])@) == column_of_rows(all, cs[k].name),
            forall|k: int| 0 <= k < j ==> (#[trigger] names@[k])@ == cs[k].name,
    {
        assert(cs[j as int] == columns@[j as int]@);
        types.push(columns[j].logical_type.clone());
        let under = values_under(rows, &columns[j].name);
        values.push(under);
        names.push(columns[j].name.clone());
    }
    let chunk = DataChunk {
        row_count: rows.len(),
        types,
        columns: values,
        column_names: Some(names),
    };
    proof {
        let expected = chunk_of_rows(all, cs);
        assert(chunk@.types =~= expected.types);
        assert(chunk@.columns =~= expected.columns);
        assert(views(names@) =~= column_names(cs));
    }
    chunk
}

/// The chunk that some rows make, under given columns or under those that the
/// rows suggest.
pub open spec fn chunk_from(
    rows: Seq<Seq<(Seq<char>, ValueView)>>,
    columns: Option<Seq<ColumnDefinitionView>>,
) -> Result<DataChunkView, QuackErrorView> {
    match columns {
        Some(columns) => Ok(chunk_of_rows(rows, columns)),
        None => match suggested_columns(rows, names_in(rows, rows.len()), 0) {
            Ok(columns) => Ok(chunk_of_rows(rows, columns)),
            Err(error) => Err(error),
        },
    }
}

/// The chunk that some rows make. Without given columns there is one for each
/// name in the rows, of the type that its first values suggest.
pub fn data_chunk_from_rows(rows: &[Row], columns: Option<Vec<ColumnDefinition>>) -> (chunk: Result<
    DataChunk,
    QuackError,
>)
    ensures
        chunk_view(chunk) == match columns {
            Some(columns) => Ok(chunk_of_rows(rows_entries(rows@), views(columns@))),
            None => match suggested_columns(
                rows_entries(rows@),
                names_in(rows_entries(rows@), rows@.len()),
                0,
            ) {
                Ok(columns) => Ok(chunk_of_rows(rows_entries(rows@), columns)),
                Err(error) => Err(error),
            },
        },
        chunk_view(chunk) == chunk_from(
            rows_entries(rows@),
            match columns {
                Some(columns) => Some(views(columns@)),
                None => None,
            },
        ),
{
    match columns {
        Some(columns) => Ok(chunk_under(rows, &columns)),
        None => match suggest_columns(rows) {
            Ok(columns) => Ok(chunk_under(rows, &columns)),
            Err(error) => Err(error),
        },
    }
}

/// Whether no two names are the same.
pub open spec fn distinct(names: Seq<Seq<char>>) -> bool {
    forall|i: int, j: int|
        0 <= i < j < names.len() ==> #[trigger] names[i] != #[trigger] names[j]
}

/// Whether the entries of a row stand under some names, in their order.
pub open spec fn stands_under(
    entries: Seq<(Seq<char>, ValueView)>,
    names: Seq<Seq<char>>,
) -> bool {
    &&& entries.len() == names.len()
    &&& forall|j: int| 0 <= j < names.len() ==> (#[trigger] entries[j]).0 == names[j]
}

proof fn lemma_key_absent(entries: Seq<(Seq<char>, ValueView)>, key: Seq<char>)
    requires
        forall|j: int| 0 <= j < entries.len() ==> (#[trigger] entries[j]).0 != key,
    ensures
        key_index(entries, key) is None,
    decreases entries.len(),
{
    if entries.len() > 0 {
        let rest = entries.skip(1);
        assert forall|j: int| 0 <= j < rest.len() implies (#[trigger] rest[j]).0 != key by {
            assert(rest[j] == entries[j + 1]);
        }
        assert(entries[0].0 != key);
        lemma_key_absent(rest, key);
    }
}

proof fn lemma_key_present(entries: Seq<(Seq<char>, ValueView)>, key: Seq<char>, at: int)
    requires
        0 <= at < entries.len(),
        entries[at].0 == key,
        forall|j: int| 0 <= j < at ==> (#[trigger] entries[j]).0 != key,
    ensures
        key_index(entries, key) == Some(at),
    decreases entries.len(),
{
    if at > 0 {
        let rest = entries.skip(1);
        assert forall|j: int| 0 <= j < at - 1 implies (#[trigger] rest[j]).0 != key by {
            assert(rest[j] == entries[j + 1]);
        }
        assert(entries[0].0 != key);
        lemma_key_present(rest, key, at - 1);
    }
}

proof fn lemma_row_of(
    names: Seq<Seq<char>>,
    columns: Seq<Seq<ValueView>>,
    i: int,
    count: nat,
)
    requires
        distinct(names),
        count <= names.len(),
    ensures
        row_of(names, columns, i, count) == Seq::new(
            count,
            |j: int| (names[j], columns[j][i]),
        ),
    decreases count,
{
    let expected = Seq::new(count, |j: int| (names[j], columns[j][i]));
    if count == 0 {
        assert(row_of(names, columns, i, count) =~= expected);
    } else {
        let less = (count - 1) as nat;
        lemma_row_of(names, columns, i, less);
        let before = row_of(names, columns, i, less);
        assert forall|j: int| 0 <= j < before.len() implies (#[trigger] before[j]).0
            != names[count - 1] by {
            assert(names[j] != names[count - 1]);
        }
        lemma_key_absent(before, names[count - 1]);
        assert(row_of(names, columns, i, count) =~= expected);
    }
}

/// A row of a chunk has one entry for each column, in the order of the columns,
/// as long as no two column names are the same.
pub proof fn law_row_has_an_entry_for_each_column(
    chunk: DataChunkView,
    names: Seq<Seq<char>>,
    i: int,
)
    requires
        distinct(names),
        rows_of(chunk, names) is Ok,
        0 <= i < chunk.row_count,
    ensures
        rows_of(chunk, names)->Ok_0[i] == Seq::new(
            names.len(),
            |j: int| (names[j], chunk.columns[j][i]),
        ),
{
    lemma_row_of(names, chunk.columns, i, names.len());
}

/// Rows that stand under some columns come back from the chunk that they make.
pub proof fn law_rows_come_back(
    rows: Seq<Seq<(Seq<char>, ValueView)>>,
    columns: Seq<ColumnDefinitionView>,
)
    requires
        rows.len() <= usize::MAX,
        distinct(column_names(columns)),
        forall|i: int|
            0 <= i < rows.len() ==> stands_under(#[trigger] rows[i], column_names(columns)),
    ensures
        rows_of(chunk_of_rows(rows, columns), column_names(columns)) == Ok::<
            Seq<Seq<(Seq<char>, ValueView)>>,
            QuackErrorView,
        >(rows),
{
    let names = column_names(columns);
    let chunk = chunk_of_rows(rows, columns);
    let back = Seq::new(
        chunk.row_count as nat,
        |i: int| row_of(names, chunk.columns, i, names.len()),
    );
    assert forall|i: int| 0 <= i < rows.len() implies #[trigger] back[i] == rows[i] by {
        assert(stands_under(rows[i], names));
        lemma_row_of(names, chunk.columns, i, names.len());
        assert forall|j: int| 0 <= j < names.len() implies #[trigger] back[i][j]
            == rows[i][j] by {
            assert(rows[i][j].0 == names[j]);
            assert forall|k: int| 0 <= k < j implies (#[trigger] rows[i][k]).0 != names[j] by {
                assert(rows[i][k].0 == names[k]);
                assert(names[k] != names[j]);
            }
            lemma_key_present(rows[i], names[j], j);
            assert(chunk.columns[j] == column_of_rows(rows, names[j]));
            assert(chunk.columns[j][i] == value_under(rows[i], names[j]));
        }
        assert(back[i] =~= rows[i]);
    }
    assert(back =~= rows);
}

// ---------------------------------------------------------------------------
// Batches of rows
// ---------------------------------------------------------------------------
/// Where a batch of rows begins and where it ends.
pub open spec fn batch(rows: nat, size: nat, k: int) -> (nat, nat) {
    (
        (k * size) as nat,
        if k * size + size <= rows {
            (k * size + size) as nat
        } else {
            rows
        },
    )
}

/// How many batches of some size so many rows make.
pub open spec fn batch_count(rows: nat, size: nat) -> nat
    recommends
        size > 0,
{
    if rows == 0 {
        1
    } else {
        ((rows - 1) / (size as int) + 1) as nat
    }
}

/// A size of batches, as a plain number.
pub open spec fn size_of(batch_size: Option<usize>) -> Option<nat> {
    match batch_size {
        Some(size) => Some(size as nat),
        None => None,
    }
}

/// The batches in which rows are appended: where each begins and ends. No rows
/// make one empty batch; without a size all rows make one batch.
pub fn append_batches(rows: usize, batch_size: Option<usize>) -> (batches: Result<
    Vec<(usize, usize)>,
    QuackError,
>)
    ensures
        match batches {
            Ok(batches) => rows == 0 && batches@ == seq![(0usize, 0usize)] || rows > 0
                && batch_size != Some(0usize) && ({
                let size = match batch_size {
                    Some(size) => size as nat,
                    None => rows as nat,
                };
                &&& batches@.len() == batch_count(rows as nat, size)
                &&& forall|k: int|
                    0 <= k < batches@.len() ==> ((#[trigger] batches@[k]).0 as nat, batches@[k].1
                        as nat) == batch(rows as nat, size, k)
            }),
            Err(error) => rows > 0 && batch_size == Some(0usize) && error@
                == QuackErrorView::Protocol("append_rows batch_size must be at least 1"@),
        },
        batches is Err <==> batches_of(rows as nat, size_of(batch_size)) is None,
        batches matches Ok(batches) ==> (batches_of(
            rows as nat,
            size_of(batch_size),
        ) matches Some(all) && all.len() == batches@.len() && forall|k: int|
            0 <= k < all.len() ==> #[trigger] all[k] == (
                batches@[k].0 as nat,
                batches@[k].1 as nat,
            )),
{
    let mut batches: Vec<(usize, usize)> = Vec::new();
    if rows == 0 {
        batches.push((0, 0));
        assert(batches@ =~= seq![(0usize, 0usize)]);
        return Ok(batches);
    }
    let size: usize = match batch_size {
        Some(size) => size,
        None => rows,
    };
    if size == 0 {
        return Err(QuackError::protocol("append_rows batch_size must be at least 1"));
    }
    let mut from: usize = 0;
    assert(0 * size == 0) by (nonlinear_arith);
    while from < rows
        invariant
            size > 0,
            rows > 0,
            from <= rows,
            from < rows ==> from == batches@.len() * size,
            from == rows ==> batches@.len() > 0 && (batches@.len() - 1) * size < rows
                && batches@.len() * size >= rows,
            forall|k: int|
                0 <= k < batches@.len() ==> ((#[trigger] batches@[k]).0 as nat, batches@[k].1
                    as nat) == batch(rows as nat, size as nat, k),
        decreases rows - from,
    {
        let to: usize = if size <= rows - from {
            from + size
        } else {
            rows
        };
        let ghost k = batches@.len() as int;
        assert((k + 1) * size == k * size + size) by (nonlinear_arith);
        batches.push((from, to));
        from = to;
    }
    proof {
        let n = batches@.len() as int;
        let s = size as int;
        let r = rows as int;
        assert(n == (r - 1) / s + 1) by (nonlinear_arith)
            requires
                s > 0,
                (n - 1) * s < r,
                n * s >= r,
        ;
    }
    Ok(batches)
}

/// The batches hold all rows in order, each row once: they begin with the first
/// row, each begins where the one before ends, and the last ends with the last
/// row. None is empty, and none is larger than the size.
pub proof fn law_batches_hold_all_rows(rows: nat, size: nat)
    requires
        rows > 0,
        size > 0,
    ensures
        batch(rows, size, 0).0 == 0,
        batch(rows, size, batch_count(rows, size) - 1).1 == rows,
        forall|k: int|
            0 <= k < batch_count(rows, size) ==> {
                &&& (#[trigger] batch(rows, size, k)).0 < batch(rows, size, k).1 <= rows
                &&& batch(rows, size, k).1 - batch(rows, size, k).0 <= size
                &&& k + 1 < batch_count(rows, size) ==> batch(rows, size, k).1 == batch(
                    rows,
                    size,
                    k + 1,
                ).0
            },
{
    let n = batch_count(rows, size) as int;
    let s = size as int;
    let r = rows as int;
    assert(0 * s == 0) by (nonlinear_arith);
    assert((n - 1) * s < r && n * s >= r) by (nonlinear_arith)
        requires
            s > 0,
            r > 0,
            n == (r - 1) / s + 1,
    ;
    assert((n - 1) * s + s == n * s) by (nonlinear_arith);
    assert((n - 1) * s >= 0) by (nonlinear_arith)
        requires
            n >= 1,
            s > 0,
    ;
    assert forall|k: int| 0 <= k < n implies {
        &&& (#[trigger] batch(rows, size, k)).0 < batch(rows, size, k).1 <= rows
        &&& batch(rows, size, k).1 - batch(rows, size, k).0 <= size
        &&& k + 1 < n ==> batch(rows, size, k).1 == batch(rows, size, k + 1).0
    } by {
        assert(0 <= k * s <= (n - 1) * s && (k + 1) * s == k * s + s) by (nonlinear_arith)
            requires
                0 <= k <= n - 1,
                s > 0,
        ;
        if k + 1 < n {
            assert((k + 1) * s <= (n - 1) * s) by (nonlinear_arith)
                requires
                    k + 1 <= n - 1,
                    s > 0,
            ;
        }
    }
}

// ---------------------------------------------------------------------------
// What is built
// ---------------------------------------------------------------------------
/// Columns make a chunk exactly if they are equally long. The chunk has their
/// types and values in their places, and their names if every column has one.
pub proof fn law_chunk_has_its_columns(columns: Seq<ColumnView>, j: int)
    requires
        forall|k: int| 0 <= k < columns.len() ==> (#[trigger] columns[k]).values.len() <= usize::MAX,
    ensures
        chunk_of_columns(columns) is Ok <==> forall|a: int, b: int|
            0 <= a < columns.len() && 0 <= b < columns.len() ==> (
            #[trigger] columns[a]).values.len() == (#[trigger] columns[b]).values.len(),
        chunk_of_columns(columns) matches Ok(chunk) ==> {
            &&& chunk.types.len() == columns.len()
            &&& chunk.columns.len() == columns.len()
            &&& columns.len() == 0 ==> chunk.row_count == 0
            &&& 0 <= j < columns.len() ==> {
                &&& chunk.row_count == columns[j].values.len()
                &&& chunk.types[j] == columns[j].logical_type
                &&& chunk.columns[j] == columns[j].values
                &&& match chunk.column_names {
                    Some(names) => names.len() == columns.len() && columns[j].name == Some(
                        names[j],
                    ),
                    None => exists|k: int|
                        0 <= k < columns.len() && (#[trigger] columns[k]).name is None,
                }
            }
        },
{
    if chunk_of_columns(columns) is Ok {
        assert forall|a: int, b: int|
            0 <= a < columns.len() && 0 <= b < columns.len() implies (
        #[trigger] columns[a]).values.len() == (#[trigger] columns[b]).values.len() by {
            assert(!(columns[a].values.len() != columns[0].values.len()));
            assert(!(columns[b].values.len() != columns[0].values.len()));
        }
        if 0 <= j < columns.len() {
            assert(columns[j].values.len() == columns[0].values.len());
            if !all_have_names(columns) {
                let k = choose|k: int|
                    0 <= k < columns.len() && !((#[trigger] columns[k]).name is Some);
                assert(columns[k].name is None);
            } else {
                assert(columns[j].name is Some);
            }
        }
    } else {
        let k = choose|k: int|
            0 <= k < columns.len() && (#[trigger] columns[k]).values.len()
                != columns[0].values.len();
        assert(columns[k].values.len() != columns[0].values.len());
    }
}

/// Rows make a chunk with a column for each that is asked for, and a value for
/// each row: what the first entry under the column's name has, or a missing
/// value if there is none.
pub proof fn law_chunk_has_its_rows(
    rows: Seq<Seq<(Seq<char>, ValueView)>>,
    columns: Seq<ColumnDefinitionView>,
    i: int,
    j: int,
    k: int,
)
    requires
        rows.len() <= usize::MAX,
        0 <= i < rows.len(),
        0 <= j < columns.len(),
    ensures
        ({
            let chunk = chunk_of_rows(rows, columns);
            &&& chunk.row_count == rows.len()
            &&& chunk.types.len() == columns.len()
            &&& chunk.types[j] == columns[j].logical_type
            &&& chunk.column_names matches Some(names) && names.len() == columns.len() && names[j]
                == columns[j].name
            &&& chunk.columns.len() == columns.len()
            &&& chunk.columns[j].len() == rows.len()
            &&& 0 <= k < rows[i].len() && rows[i][k].0 == columns[j].name && (forall|e: int|
                0 <= e < k ==> (#[trigger] rows[i][e]).0 != columns[j].name)
                ==> chunk.columns[j][i] == rows[i][k].1
            &&& (forall|e: int|
                0 <= e < rows[i].len() ==> (#[trigger] rows[i][e]).0 != columns[j].name)
                ==> chunk.columns[j][i] is Null
        }),
{
    let name = columns[j].name;
    if 0 <= k < rows[i].len() && rows[i][k].0 == name && (forall|e: int|
        0 <= e < k ==> (#[trigger] rows[i][e]).0 != name) {
        lemma_key_present(rows[i], name, k);
    }
    if forall|e: int| 0 <= e < rows[i].len() ==> (#[trigger] rows[i][e]).0 != name {
        lemma_key_absent(rows[i], name);
    }
}

proof fn lemma_new_names(names: Seq<Seq<char>>, entries: Seq<(Seq<char>, ValueView)>, count: nat)
    requires
        distinct(names),
        count <= entries.len(),
    ensures
        ({
            let after = with_new_names(names, entries, count);
            &&& distinct(after)
            &&& names.len() <= after.len()
            &&& after.take(names.len() as int) == names
            &&& forall|name: Seq<char>| #[trigger]
                after.contains(name) <==> names.contains(name) || exists|k: int|
                    0 <= k < count && (#[trigger] entries[k]).0 == name
        }),
    decreases count,
{
    if count == 0 {
        assert(names.take(names.len() as int) =~= names);
    } else {
        let before = with_new_names(names, entries, (count - 1) as nat);
        let after = with_new_names(names, entries, count);
        let last = entries[count - 1].0;
        lemma_new_names(names, entries, (count - 1) as nat);
        assert(after.take(names.len() as int) =~= before.take(names.len() as int));
        if !before.contains(last) {
            assert forall|i: int, j: int| 0 <= i < j < after.len() implies #[trigger] after[i]
                != #[trigger] after[j] by {
                if j == before.len() {
                    assert(before[i] == after[i]);
                    assert(before.contains(before[i]));
                } else {
                    assert(before[i] != before[j]);
                }
            }
        }
        assert forall|name: Seq<char>| #[trigger] after.contains(name) <==> names.contains(name)
            || exists|k: int| 0 <= k < count && (#[trigger] entries[k]).0 == name by {
            if after.contains(name) {
                let at = after.index_of(name);
                if at < before.len() && after[at] == name {
                    assert(before[at] == name);
                    assert(before.contains(name));
                } else {
                    let place = choose|p: int| 0 <= p < after.len() && after[p] == name;
                    if place < before.len() {
                        assert(before[place] == name);
                        assert(before.contains(name));
                    } else {
                        assert(entries[count - 1].0 == name);
                    }
                }
            }
            if before.contains(name) {
                let place = choose|p: int| 0 <= p < before.len() && before[p] == name;
                assert(after[place] == name);
            }
            if name == last && !before.contains(last) {
                assert(after[before.len() as int] == name);
            }
            if exists|k: int| 0 <= k < count && (#[trigger] entries[k]).0 == name {
                let k = choose|k: int| 0 <= k < count && (#[trigger] entries[k]).0 == name;
                if k < count - 1 {
                    assert(entries[k].0 == name);
                    assert(before.contains(name));
                }
            }
        }
    }
}

/// Whether one of the first rows has a name.
pub open spec fn is_name_in(
    rows: Seq<Seq<(Seq<char>, ValueView)>>,
    count: nat,
    name: Seq<char>,
) -> bool {
    exists|i: int, k: int|
        0 <= i < count && 0 <= k < rows[i].len() && (#[trigger] rows[i][k]).0 == name
}

/// The names of some rows are all the names that the rows have, each once; and
/// the names that more rows bring come behind those of the rows before them.
pub proof fn law_names_are_collected_once(
    rows: Seq<Seq<(Seq<char>, ValueView)>>,
    count: nat,
    name: Seq<char>,
)
    requires
        count <= rows.len(),
    ensures
        distinct(names_in(rows, count)),
        names_in(rows, count).contains(name) <==> is_name_in(rows, count, name),
        count > 0 ==> {
            let fewer = names_in(rows, (count - 1) as nat);
            &&& fewer.len() <= names_in(rows, count).len()
            &&& names_in(rows, count).take(fewer.len() as int) == fewer
        },
    decreases count,
{
    if count > 0 {
        let less = (count - 1) as nat;
        let entries = rows[count - 1];
        law_names_are_collected_once(rows, less, name);
        lemma_new_names(names_in(rows, less), entries, entries.len());
        let all = names_in(rows, count);
        if all.contains(name) {
            if names_in(rows, less).contains(name) {
                let (i, k) = choose|i: int, k: int|
                    0 <= i < less && 0 <= k < rows[i].len() && (#[trigger] rows[i][k]).0 == name;
                assert(rows[i][k].0 == name);
            } else {
                let k = choose|k: int| 0 <= k < entries.len() && (#[trigger] entries[k]).0 == name;
                assert(rows[count - 1][k].0 == name);
            }
        }
        if is_name_in(rows, count, name) {
            let (i, k) = choose|i: int, k: int|
                0 <= i < count && 0 <= k < rows[i].len() && (#[trigger] rows[i][k]).0 == name;
            if i < less {
                assert(rows[i][k].0 == name);
                assert(is_name_in(rows, less, name));
            } else {
                assert(entries[k].0 == name);
            }
        }
    }
}

/// The type of a column is what the first of its values says that says one; a
/// missing value says nothing.
pub proof fn law_first_value_tells_the_type(values: Seq<ValueView>, k: int)
    ensures
        suggested_type(ValueView::Null) is None,
        0 <= k < values.len() && suggested_type(values[k]) is Some && (forall|e: int|
            0 <= e < k ==> suggested_type(#[trigger] values[e]) is None) ==> first_suggestion(
            values,
        ) == suggested_type(values[k]),
        (forall|e: int| 0 <= e < values.len() ==> suggested_type(#[trigger] values[e]) is None)
            ==> first_suggestion(values) is None,
{
    if 0 <= k < values.len() && suggested_type(values[k]) is Some && (forall|e: int|
        0 <= e < k ==> suggested_type(#[trigger] values[e]) is None) {
        lemma_no_suggestion_yet(values, k as nat);
        let rest = values.subrange(k, values.len() as int);
        assert(rest[0] == values[k]);
    }
    if forall|e: int| 0 <= e < values.len() ==> suggested_type(#[trigger] values[e]) is None {
        lemma_no_suggestion_yet(values, values.len());
    }
}

/// A value is one of the type that it suggests, and stays what it is there: for
/// every value that is not a list or a struct, as long as a decimal is no wider
/// than it says. Only a missing value, and a timestamp in a unit that has no
/// type, suggest none.
pub proof fn law_value_is_of_the_type_it_suggests(v: ValueView)
    requires
        !(v is List),
        !(v is Struct),
        v matches ValueView::Decimal(d) ==> d.width <= 38 && -pow10(d.width as nat) < d.value
            < pow10(d.width as nat),
        v matches ValueView::String(text) ==> text_fits(text),
        v matches ValueView::Bytes(bytes) ==> bytes.len() <= u64::MAX,
    ensures
        suggested_type(v) matches Some(t) ==> conformed(t, v) == Some(v) && t.children.len() == 0
            && t.size == 0,
        suggested_type(v) is None <==> v is Null || (v matches ValueView::Timestamp(m)
            && m.with_time_zone && m.unit != TimestampUnit::Micros),
{
    if let Some(t) = suggested_type(v) {
        match v {
            ValueView::Int(n) => {
                law_integers_keep_their_number(t, v, n as int);
            },
            ValueView::HugeInt(n) => {
                law_integers_keep_their_number(t, v, n as int);
            },
            ValueView::Decimal(d) => {
                law_decimals_keep_their_units(t, v, d.value as int);
            },
            ValueView::Timestamp(_) => {
                law_timestamps_are_not_rescaled(t, v);
            },
            _ => {
                law_plain_values_are_kept(t, v);
            },
        }
    }
}

/// A list suggests a list of what its items suggest, and a struct a struct with
/// its own fields, each of the type that its value suggests.
pub proof fn law_nested_value_suggests_its_parts(
    items: Seq<ValueView>,
    fields: Seq<FieldView>,
    k: int,
)
    ensures
        match first_suggestion(items) {
            Some(child) => suggested_type(ValueView::List(items)) matches Some(t) && t.id
                == LogicalTypeId::List && t.children.len() == 1 && t.children[0].logical_type
                == child,
            None => suggested_type(ValueView::List(items)) is None,
        },
        suggested_type(ValueView::Struct(fields)) is Some <==> forall|i: int|
            0 <= i < fields.len() ==> suggested_type((#[trigger] fields[i]).value) is Some,
        suggested_type(ValueView::Struct(fields)) matches Some(t) ==> {
            &&& t.id == LogicalTypeId::Struct
            &&& t.children.len() == fields.len()
            &&& 0 <= k < fields.len() ==> t.children[k].name == fields[k].name && suggested_type(
                fields[k].value,
            ) == Some(t.children[k].logical_type)
        },
{
    let v = ValueView::Struct(fields);
    assert(v->Struct_0 == fields);
    if let Some(t) = suggested_type(v) {
        if 0 <= k < fields.len() {
            assert(suggested_type(fields[k].value) is Some);
        }
    }
}

/// Columns are told of rows exactly if every name has a value that tells its
/// type. There is then one column for each name, in order.
pub proof fn law_columns_are_told_of_rows(
    rows: Seq<Seq<(Seq<char>, ValueView)>>,
    names: Seq<Seq<char>>,
    from: nat,
)
    requires
        from <= names.len(),
    ensures
        suggested_columns(rows, names, from) is Ok <==> forall|j: int|
            from <= j < names.len() ==> first_suggestion(
                column_of_rows(rows, #[trigger] names[j]),
            ) is Some,
        suggested_columns(rows, names, from) matches Ok(columns) ==> {
            &&& columns.len() == names.len() - from
            &&& forall|j: int|
                from <= j < names.len() ==> {
                    &&& (#[trigger] columns[j - from]).name == names[j]
                    &&& first_suggestion(column_of_rows(rows, names[j])) == Some(
                        columns[j - from].logical_type,
                    )
                }
        },
    decreases names.len() - from,
{
    if from < names.len() {
        law_columns_are_told_of_rows(rows, names, from + 1);
        if let Ok(columns) = suggested_columns(rows, names, from) {
            let rest = suggested_columns(rows, names, from + 1)->Ok_0;
            assert forall|j: int| from <= j < names.len() implies {
                &&& (#[trigger] columns[j - from]).name == names[j]
                &&& first_suggestion(column_of_rows(rows, names[j])) == Some(
                    columns[j - from].logical_type,
                )
            } by {
                if j > from {
                    assert(columns[j - from] == rest[j - (from + 1)]);
                }
            }
        } else if first_suggestion(column_of_rows(rows, names[from as int])) is None {
            assert(!(first_suggestion(column_of_rows(rows, names[from as int])) is Some));
        }
    }
}

/// Every batch but the last is as large as the size.
pub proof fn law_batches_are_full(rows: nat, size: nat, k: int)
    requires
        rows > 0,
        size > 0,
        0 <= k < batch_count(rows, size) - 1,
    ensures
        batch(rows, size, k).1 - batch(rows, size, k).0 == size,
{
    let n = batch_count(rows, size) as int;
    let s = size as int;
    let r = rows as int;
    assert(k * s >= 0 && k * s + s <= (n - 1) * s && (n - 1) * s < r) by (nonlinear_arith)
        requires
            s > 0,
            r > 0,
            n == (r - 1) / s + 1,
            0 <= k <= n - 2,
    ;
}

/// Without given columns a chunk has one for each name in the rows, each of the
/// type that its first values suggest, so that no entry is left out: the first
/// entry of a row under a name is the value in the row's place of the column of
/// that name. With given columns it has just these.
pub proof fn law_rows_make_a_chunk_of_all_entries(
    rows: Seq<Seq<(Seq<char>, ValueView)>>,
    given: Seq<ColumnDefinitionView>,
    i: int,
    k: int,
)
    requires
        rows.len() <= usize::MAX,
        0 <= i < rows.len(),
        0 <= k < rows[i].len(),
        forall|e: int| 0 <= e < k ==> (#[trigger] rows[i][e]).0 != rows[i][k].0,
    ensures
        chunk_from(rows, Some(given)) == Ok::<DataChunkView, QuackErrorView>(
            chunk_of_rows(rows, given),
        ),
        chunk_from(rows, None) matches Ok(chunk) ==> {
            &&& chunk.column_names matches Some(names) && distinct(names)
            &&& exists|j: int|
                0 <= j < chunk.columns.len() && #[trigger] chunk.column_names->Some_0[j]
                    == rows[i][k].0 && chunk.columns[j][i] == rows[i][k].1
        },
        chunk_from(rows, None) is Ok <==> forall|j: int|
            0 <= j < names_in(rows, rows.len()).len() ==> first_suggestion(
                column_of_rows(rows, #[trigger] names_in(rows, rows.len())[j]),
            ) is Some,
{
    let name = rows[i][k].0;
    let names = names_in(rows, rows.len());
    law_names_are_collected_once(rows, rows.len(), name);
    law_columns_are_told_of_rows(rows, names, 0);
    assert(rows[i][k].0 == name);
    assert(is_name_in(rows, rows.len(), name));
    if let Ok(chunk) = chunk_from(rows, None) {
        let columns = suggested_columns(rows, names, 0)->Ok_0;
        let j = choose|j: int| 0 <= j < names.len() && names[j] == name;
        assert forall|m: int| 0 <= m < names.len() implies #[trigger] columns[m].name
            == names[m] by {
            assert(columns[m - 0].name == names[m]);
        }
        assert(column_names(columns) =~= names);
        law_chunk_has_its_rows(rows, columns, i, j, k);
        assert(chunk.column_names->Some_0[j] == name);
    }
}

/// The batches in which so many rows are appended: where each begins and ends.
pub open spec fn batches_of(rows: nat, batch_size: Option<nat>) -> Option<Seq<(nat, nat)>> {
    if rows == 0 {
        Some(seq![(0nat, 0nat)])
    } else if batch_size == Some(0nat) {
        None
    } else {
        let size = match batch_size {
            Some(size) => size,
            None => rows,
        };
        Some(Seq::new(batch_count(rows, size), |k: int| batch(rows, size, k)))
    }
}

/// There are batches unless their size is zero and there are rows. The batches
/// hold the rows one after the other, from the first to the last; each but the
/// last is as large as the size, and none is larger. Without a size there is one
/// batch, and so there is if there are no rows.
pub proof fn law_rows_are_appended_in_batches(rows: nat, batch_size: Option<nat>, k: int)
    ensures
        batches_of(rows, batch_size) is Some <==> rows == 0 || batch_size != Some(0nat),
        batches_of(rows, batch_size) matches Some(batches) ==> {
            &&& batches.len() > 0
            &&& batches[0].0 == 0
            &&& batches.last().1 == rows
            &&& batch_size is None || rows == 0 ==> batches.len() == 1
            &&& 0 <= k < batches.len() ==> {
                &&& batches[k].0 <= batches[k].1 <= rows
                &&& rows > 0 ==> batches[k].0 < batches[k].1
                &&& batch_size matches Some(size) ==> rows > 0 ==> batches[k].1 - batches[k].0
                    <= size
                &&& k + 1 < batches.len() ==> batches[k].1 == batches[k + 1].0
                &&& k + 1 < batches.len() ==> (batch_size matches Some(size) && batches[k].1
                    - batches[k].0 == size)
            }
        },
{
    if rows > 0 && batch_size != Some(0nat) {
        let size = match batch_size {
            Some(size) => size,
            None => rows,
        };
        let batches = batches_of(rows, batch_size)->Some_0;
        law_batches_hold_all_rows(rows, size);
        if batch_size is None {
            let r = rows as int;
            assert((r - 1) / r == 0) by (nonlinear_arith)
                requires
                    r > 0,
            ;
        }
        if 0 <= k < batches.len() {
            assert(batches[k] == batch(rows, size, k));
            if k + 1 < batches.len() {
                assert(batches[k + 1] == batch(rows, size, k + 1));
                law_batches_are_full(rows, size, k);
            }
        }
    }
}

} // verus!
