//! Rows: the values of a chunk, each under the name of its column.

use indexmap::IndexMap;
use vstd::prelude::*;

use crate::errors::QuackError;
use crate::errors::QuackErrorView;
use crate::text::decimal;
use crate::text::decimal_text;
use crate::text::joined;
use crate::text::law_decimal_notation;
use crate::text::writes_number;
use crate::types::views;
use crate::types::ColumnDefinition;
use crate::types::ColumnDefinitionView;
use crate::value::DataChunk;
use crate::value::DataChunkView;
use crate::value::Value;
use crate::value::ValueView;

verus! {

/// `indexmap::IndexMap`, a map that keeps the order of its entries.
#[verifier::external_type_specification]
#[verifier::external_body]
#[verifier::reject_recursive_types(K)]
#[verifier::reject_recursive_types(V)]
#[verifier::reject_recursive_types(S)]
pub struct ExIndexMap<K, V, S>(IndexMap<K, V, S>);

/// A row: values by the names of their columns, in order.
pub type Row = IndexMap<String, Value>;

/// The entries of a row, in order.
pub uninterp spec fn row_entries(row: Row) -> Seq<(Seq<char>, ValueView)>;

/// Where the entry of a key stands.
pub open spec fn key_index(entries: Seq<(Seq<char>, ValueView)>, key: Seq<char>) -> Option<int>
    decreases entries.len(),
{
    if entries.len() == 0 {
        None
    } else if entries[0].0 == key {
        Some(0)
    } else {
        match key_index(entries.skip(1), key) {
            Some(i) => Some(i + 1),
            None => None,
        }
    }
}

/// The entries after a value was put under a key: in the place of the entry of
/// that key, or at the end.
pub open spec fn entries_with(
    entries: Seq<(Seq<char>, ValueView)>,
    key: Seq<char>,
    value: ValueView,
) -> Seq<(Seq<char>, ValueView)> {
    match key_index(entries, key) {
        Some(i) => entries.update(i, (key, value)),
        None => entries.push((key, value)),
    }
}

/// An empty row.
///
/// Calls `indexmap::IndexMap::new`, which makes a map without entries.
#[verifier::external_body]
pub(crate) fn row_new() -> (row: Row)
    ensures
        row_entries(row) == Seq::<(Seq<char>, ValueView)>::empty(),
{
    Row::new()
}

/// Puts a value under a key.
///
/// Calls `indexmap::IndexMap::insert`. If the map has the key, the entry keeps
/// its place and gets the new value; if not, a new entry comes last.
#[verifier::external_body]
pub(crate) fn row_insert(row: &mut Row, key: String, value: Value)
    ensures
        row_entries(*final(row)) == entries_with(row_entries(*old(row)), key@, value@),
{
    row.insert(key, value);
}

/// The value under a key, if there is one.
///
/// Calls `indexmap::IndexMap::get`, which gives the value of the entry of the
/// key.
#[verifier::external_body]
pub(crate) fn row_get<'a>(row: &'a Row, key: &str) -> (value: Option<&'a Value>)
    ensures
        match value {
            Some(value) => key_index(row_entries(*row), key@) matches Some(i) && value@
                == row_entries(*row)[i].1,
            None => key_index(row_entries(*row), key@) is None,
        },
{
    row.get(key)
}

/// The entry at a place, if there is one.
///
/// Calls `indexmap::IndexMap::get_index`, which gives the entry at that place
/// in the order, and nothing beyond the last.
#[verifier::external_body]
pub(crate) fn row_entry<'a>(row: &'a Row, i: usize) -> (entry: Option<(&'a String, &'a Value)>)
    ensures
        match entry {
            Some((key, value)) => i < row_entries(*row).len() && row_entries(*row)[i as int] == (
                key@,
                value@,
            ),
            None => i >= row_entries(*row).len(),
        },
{
    row.get_index(i)
}

/// The number of entries of a row.
///
/// Calls `indexmap::IndexMap::len`, which gives the number of entries.
#[verifier::external_body]
pub(crate) fn row_len(row: &Row) -> (n: usize)
    ensures
        n == row_entries(*row).len(),
{
    row.len()
}

/// Takes the entry of a key out of a row.
///
/// Calls `indexmap::IndexMap::shift_remove`, which removes the entry of the
/// key, keeps the order of the others, and gives the value.
#[verifier::external_body]
pub(crate) fn row_shift_remove(row: &mut Row, key: &str) -> (value: Option<Value>)
    ensures
        match value {
            Some(value) => key_index(row_entries(*old(row)), key@) matches Some(i) && value@
                == row_entries(*old(row))[i].1 && row_entries(*final(row)) == row_entries(
                *old(row),
            ).remove(i),
            None => key_index(row_entries(*old(row)), key@) is None && row_entries(*final(row))
                == row_entries(*old(row)),
        },
{
    row.shift_remove(key)
}

/// The entries of rows, in order.
pub open spec fn rows_entries(rows: Seq<Row>) -> Seq<Seq<(Seq<char>, ValueView)>> {
    Seq::new(rows.len(), |i: int| row_entries(rows[i]))
}

/// One row of some columns.
pub open spec fn row_of(
    names: Seq<Seq<char>>,
    columns: Seq<Seq<ValueView>>,
    i: int,
    count: nat,
) -> Seq<(Seq<char>, ValueView)>
    decreases count,
{
    if count == 0 {
        seq![]
    } else {
        entries_with(
            row_of(names, columns, i, (count - 1) as nat),
            names[count - 1],
            columns[count - 1][i],
        )
    }
}

/// The rows of a chunk under some column names, or what is wrong with it.
pub open spec fn rows_of(chunk: DataChunkView, names: Seq<Seq<char>>) -> Result<
    Seq<Seq<(Seq<char>, ValueView)>>,
    QuackErrorView,
> {
    if names.len() != chunk.columns.len() {
        Err(
            QuackErrorView::Protocol(
                "expected "@ + decimal(chunk.columns.len()) + " column names, got "@ + decimal(
                    names.len(),
                ),
            ),
        )
    } else if exists|j: int|
        0 <= j < chunk.columns.len() && (#[trigger] chunk.columns[j]).len() != chunk.row_count {
        Err(QuackErrorView::Protocol("column does not have the expected number of items"@))
    } else {
        Ok(Seq::new(chunk.row_count as nat, |i: int| row_of(names, chunk.columns, i, names.len())))
    }
}

/// The outcome of making rows, as plain values.
pub open spec fn rows_view(rows: Result<Vec<Row>, QuackError>) -> Result<
    Seq<Seq<(Seq<char>, ValueView)>>,
    QuackErrorView,
> {
    match rows {
        Ok(rows) => Ok(rows_entries(rows@)),
        Err(error) => Err(error@),
    }
}

/// The rows of a chunk under the given column names.
pub fn rows_from_chunk_with_names(chunk: &DataChunk, names: &[String]) -> (rows: Result<
    Vec<Row>,
    QuackError,
>)
    ensures
        rows_view(rows) == rows_of(chunk@, views(names@)),
{
    let width: usize = chunk.columns.len();
    if names.len() != width {
        return Err(
            QuackError::Protocol(
                joined(
                    joined(
                        joined("expected ", decimal_text(width as u128).as_str()).as_str(),
                        " column names, got ",
                    ).as_str(),
                    decimal_text(names.len() as u128).as_str(),
                ),
            ),
        );
    }
    let mut j: usize = 0;
    while j < width
        invariant
            j <= width,
            width == chunk.columns@.len(),
            width == names@.len(),
            forall|k: int| 0 <= k < j ==> (#[trigger] chunk@.columns[k]).len() == chunk.row_count,
        decreases width - j,
    {
        assert(chunk@.columns[j as int] == views(chunk.columns@[j as int]@));
        if chunk.columns[j].len() != chunk.row_count {
            assert(chunk@.columns[j as int].len() != chunk@.row_count);
            return Err(QuackError::protocol("column does not have the expected number of items"));
        }
        j += 1;
    }
    let ghost ns = views(names@);
    let ghost cs = chunk@.columns;
    let mut rows: Vec<Row> = Vec::new();
    let count: usize = chunk.row_count;
    for i in 0..count
        invariant
            width == chunk.columns@.len(),
            width == names@.len(),
            count == chunk.row_count,
            ns == views(names@),
            cs == chunk@.columns,
            forall|k: int| 0 <= k < width ==> (#[trigger] chunk@.columns[k]).len() == count,
            rows@.len() == i,
            forall|k: int|
                0 <= k < i ==> row_entries(#[trigger] rows@[k]) == row_of(ns, cs, k, ns.len()),
    {
        let mut row = row_new();
        for k in 0..width
            invariant
                i < count,
                width == chunk.columns@.len(),
                width == names@.len(),
                ns == views(names@),
                cs == chunk@.columns,
                forall|k: int| 0 <= k < width ==> (#[trigger] chunk@.columns[k]).len() == count,
                row_entries(row) == row_of(ns, cs, i as int, k as nat),
        {
            assert(chunk@.columns[k as int] == views(chunk.columns@[k as int]@));
            assert(cs[k as int][i as int] == chunk.columns@[k as int]@[i as int]@);
            row_insert(&mut row, names[k].clone(), chunk.columns[k][i].clone());
        }
        rows.push(row);
    }
    assert(rows_entries(rows@) =~= Seq::new(count as nat, |i: int| row_of(ns, cs, i, ns.len())));
    Ok(rows)
}

/// The outcome for one row, as plain values.
pub open spec fn row_outcome_view(row: Result<Row, QuackError>) -> Result<
    Seq<(Seq<char>, ValueView)>,
    QuackErrorView,
> {
    match row {
        Ok(row) => Ok(row_entries(row)),
        Err(error) => Err(error@),
    }
}

/// The outcomes for rows, as plain values.
pub open spec fn row_outcome_views(rows: Seq<Result<Row, QuackError>>) -> Seq<
    Result<Seq<(Seq<char>, ValueView)>, QuackErrorView>,
> {
    Seq::new(rows.len(), |i: int| row_outcome_view(rows[i]))
}

/// What the arrival of a chunk gives row by row: its rows, or one error.
pub open spec fn arriving_rows(
    chunk: Result<DataChunkView, QuackErrorView>,
    names: Seq<Seq<char>>,
) -> Seq<Result<Seq<(Seq<char>, ValueView)>, QuackErrorView>> {
    match chunk {
        Err(error) => seq![Err(error)],
        Ok(chunk) => match rows_of(chunk, names) {
            Err(error) => seq![Err(error)],
            Ok(rows) => Seq::new(rows.len(), |i: int| Ok(rows[i])),
        },
    }
}

/// What the arrival of a chunk gives row by row: its rows under the given
/// column names, or one error.
pub fn row_outcomes(chunk: Result<DataChunk, QuackError>, names: &[String]) -> (rows: Vec<
    Result<Row, QuackError>,
>)
    ensures
        row_outcome_views(rows@) == arriving_rows(
            match chunk {
                Ok(chunk) => Ok(chunk@),
                Err(error) => Err(error@),
            },
            views(names@),
        ),
{
    let mut outcomes: Vec<Result<Row, QuackError>> = Vec::new();
    let made = match chunk {
        Ok(chunk) => rows_from_chunk_with_names(&chunk, names),
        Err(error) => Err(error),
    };
    match made {
        Err(error) => {
            outcomes.push(Err(error));
            assert(row_outcome_views(outcomes@) =~= seq![Err(error@)]);
        },
        Ok(rows) => {
            let ghost all = rows@;
            let mut rows = rows;
            let count: usize = rows.len();
            for i in 0..count
                invariant
                    count == rows@.len(),
                    count == all.len(),
                    outcomes@.len() == i,
                    forall|k: int|
                        0 <= k < i ==> #[trigger] outcomes@[k] == Ok::<Row, QuackError>(all[k]),
                    forall|k: int| i <= k < count ==> #[trigger] rows@[k] == all[k],
            {
                let mut row = row_new();
                std::mem::swap(&mut rows[i], &mut row);
                outcomes.push(Ok(row));
            }
            proof {
                let entries = rows_entries(all);
                assert forall|k: int| 0 <= k < all.len() implies row_outcome_views(outcomes@)[k]
                    == Ok::<_, QuackErrorView>(entries[k]) by {
                    assert(outcomes@[k] == Ok::<Row, QuackError>(all[k]));
                }
                assert(row_outcome_views(outcomes@) =~= Seq::new(
                    entries.len(),
                    |i: int| Ok::<_, QuackErrorView>(entries[i]),
                ));
            }
        },
    }
    outcomes
}

/// The rows of a chunk under its own column names, if it has any.
pub open spec fn own_rows(chunk: DataChunkView) -> Result<
    Seq<Seq<(Seq<char>, ValueView)>>,
    QuackErrorView,
> {
    match chunk.column_names {
        Some(names) => rows_of(chunk, names),
        None => Err(QuackErrorView::Protocol("chunk does not have column names"@)),
    }
}

/// The only one of some rows, if there is just one.
pub open spec fn only_row(rows: Seq<Seq<(Seq<char>, ValueView)>>) -> Result<
    Seq<(Seq<char>, ValueView)>,
    QuackErrorView,
> {
    if rows.len() == 1 {
        Ok(rows[0])
    } else {
        Err(QuackErrorView::Protocol("expected exactly one row, got "@ + decimal(rows.len())))
    }
}

/// The values of the first column of some rows.
pub open spec fn first_values(
    columns: Seq<ColumnDefinitionView>,
    rows: Seq<Seq<(Seq<char>, ValueView)>>,
) -> Seq<ValueView> {
    if columns.len() == 0 {
        seq![]
    } else {
        Seq::new(rows.len(), |i: int| value_under(rows[i], columns[0].name))
    }
}

/// The rows of a chunk under its own column names.
pub fn rows_from_chunk(chunk: &DataChunk) -> (rows: Result<Vec<Row>, QuackError>)
    ensures
        rows_view(rows) == match chunk@.column_names {
            Some(names) => rows_of(chunk@, names),
            None => Err(QuackErrorView::Protocol("chunk does not have column names"@)),
        },
        rows_view(rows) == own_rows(chunk@),
{
    match &chunk.column_names {
        Some(names) => rows_from_chunk_with_names(chunk, names.as_slice()),
        None => Err(QuackError::protocol("chunk does not have column names")),
    }
}

/// The first of some rows.
pub fn first_row(rows: Vec<Row>) -> (row: Option<Row>)
    ensures
        match row {
            Some(row) => rows@.len() > 0 && row == rows@[0],
            None => rows@.len() == 0,
        },
        row matches Some(row) ==> rows_entries(rows@).first() == row_entries(row),
{
    let mut rows = rows;
    if rows.len() == 0 {
        return None;
    }
    Some(rows.remove(0))
}

/// The only one of some rows.
pub fn one_row(rows: Vec<Row>) -> (row: Result<Row, QuackError>)
    ensures
        match row {
            Ok(row) => rows@.len() == 1 && row == rows@[0],
            Err(error) => rows@.len() != 1 && error@ == QuackErrorView::Protocol(
                "expected exactly one row, got "@ + decimal(rows@.len()),
            ),
        },
        row_outcome_view(row) == only_row(rows_entries(rows@)),
{
    let mut rows = rows;
    if rows.len() != 1 {
        return Err(
            QuackError::Protocol(
                joined(
                    "expected exactly one row, got ",
                    decimal_text(rows.len() as u128).as_str(),
                ),
            ),
        );
    }
    Ok(rows.remove(0))
}

/// The value that a row has under a key; missing if there is none.
pub open spec fn value_under(entries: Seq<(Seq<char>, ValueView)>, key: Seq<char>) -> ValueView {
    match key_index(entries, key) {
        Some(i) => entries[i].1,
        None => ValueView::Null,
    }
}

/// The values of the first column of some rows.
pub fn first_column(columns: &Vec<ColumnDefinition>, rows: Vec<Row>) -> (values: Vec<Value>)
    ensures
        views(values@) == if columns@.len() == 0 {
            Seq::<ValueView>::empty()
        } else {
            Seq::new(
                rows@.len(),
                |i: int| value_under(row_entries(rows@[i]), columns@[0]@.name),
            )
        },
        views(values@) == first_values(views(columns@), rows_entries(rows@)),
{
    let mut values: Vec<Value> = Vec::new();
    if columns.len() == 0 {
        assert(views(values@) =~= Seq::<ValueView>::empty());
        assert(views(columns@).len() == 0);
        return values;
    }
    let ghost all = rows@;
    let ghost key = columns@[0]@.name;
    let mut rows = rows;
    let count: usize = rows.len();
    for i in 0..count
        invariant
            count == rows@.len(),
            count == all.len(),
            columns@.len() > 0,
            key == columns@[0].name@,
            values@.len() == i,
            forall|k: int|
                0 <= k < i ==> (#[trigger] values@[k])@ == value_under(row_entries(all[k]), key),
            forall|k: int| i <= k < count ==> #[trigger] rows@[k] == all[k],
    {
        let mut row = row_new();
        std::mem::swap(&mut rows[i], &mut row);
        match row_shift_remove(&mut row, columns[0].name.as_str()) {
            Some(value) => values.push(value),
            None => values.push(Value::Null),
        }
    }
    assert(views(values@) =~= Seq::new(
        all.len(),
        |i: int| value_under(row_entries(all[i]), key),
    ));
    assert(views(columns@)[0] == columns@[0]@);
    assert(views(values@) =~= first_values(views(columns@), rows_entries(all)));
    values
}

/// The entry of a key is the first that has it.
pub proof fn law_entry_of_a_key(entries: Seq<(Seq<char>, ValueView)>, key: Seq<char>)
    ensures
        match key_index(entries, key) {
            Some(i) => {
                &&& 0 <= i < entries.len()
                &&& entries[i].0 == key
                &&& value_under(entries, key) == entries[i].1
                &&& forall|k: int| 0 <= k < i ==> (#[trigger] entries[k]).0 != key
            },
            None => {
                &&& value_under(entries, key) is Null
                &&& forall|k: int| 0 <= k < entries.len() ==> (#[trigger] entries[k]).0 != key
            },
        },
    decreases entries.len(),
{
    if entries.len() > 0 && entries[0].0 != key {
        let rest = entries.skip(1);
        law_entry_of_a_key(rest, key);
        match key_index(rest, key) {
            Some(i) => {
                assert(rest[i] == entries[i + 1]);
                assert forall|k: int| 0 <= k < i + 1 implies (#[trigger] entries[k]).0 != key by {
                    if k > 0 {
                        assert(rest[k - 1] == entries[k]);
                    }
                }
            },
            None => {
                assert forall|k: int| 0 <= k < entries.len() implies (#[trigger] entries[k]).0
                    != key by {
                    if k > 0 {
                        assert(rest[k - 1] == entries[k]);
                    }
                }
            },
        }
    }
}

/// A value that is put under a key is what the row has under it afterwards, and
/// what it has under any other key stays.
pub proof fn law_value_is_put_under_its_key(
    entries: Seq<(Seq<char>, ValueView)>,
    key: Seq<char>,
    value: ValueView,
    other: Seq<char>,
)
    ensures
        value_under(entries_with(entries, key, value), key) == value,
        other != key ==> value_under(entries_with(entries, key, value), other) == value_under(
            entries,
            other,
        ),
        key_index(entries, key) is Some ==> entries_with(entries, key, value).len()
            == entries.len(),
        key_index(entries, key) is None ==> entries_with(entries, key, value) == entries.push(
            (key, value),
        ),
{
    let after = entries_with(entries, key, value);
    law_entry_of_a_key(entries, key);
    law_entry_of_a_key(entries, other);
    law_entry_of_a_key(after, key);
    law_entry_of_a_key(after, other);
    let at = match key_index(entries, key) {
        Some(i) => i,
        None => entries.len() as int,
    };
    assert(after[at] == (key, value));
    assert forall|k: int| 0 <= k < entries.len() && k != at implies #[trigger] after[k]
        == entries[k] by {}
    let found = key_index(after, key);
    assert(found is Some);
    let i = found->Some_0;
    if i < at {
        assert(after[i] == entries[i]);
        assert(entries[i].0 != key);
    } else if i > at {
        assert(after[at].0 != key);
    }
    if other != key {
        match (key_index(entries, other), key_index(after, other)) {
            (Some(a), Some(b)) => {
                assert(a != at && b != at);
                assert(after[a] == entries[a] && after[b] == entries[b]);
                if a < b {
                    assert(after[a].0 != other);
                } else if b < a {
                    assert(entries[b].0 != other);
                }
            },
            (Some(a), None) => {
                assert(after[a] == entries[a]);
            },
            (None, Some(b)) => {
                assert(after[b] == entries[b]);
            },
            (None, None) => {},
        }
    }
}

proof fn lemma_row_values(
    names: Seq<Seq<char>>,
    columns: Seq<Seq<ValueView>>,
    i: int,
    count: nat,
    j: int,
)
    requires
        count <= names.len(),
        0 <= j < count,
        forall|k: int| j < k < count ==> #[trigger] names[k] != names[j],
    ensures
        value_under(row_of(names, columns, i, count), names[j]) == columns[j][i],
        key_index(row_of(names, columns, i, count), names[j]) is Some,
    decreases count,
{
    let before = row_of(names, columns, i, (count - 1) as nat);
    let key = names[count - 1];
    law_value_is_put_under_its_key(before, key, columns[count - 1][i], names[j]);
    law_entry_of_a_key(row_of(names, columns, i, count), names[j]);
    let after = row_of(names, columns, i, count);
    if j < count - 1 {
        assert(names[count - 1] != names[j]);
        lemma_row_values(names, columns, i, (count - 1) as nat, j);
        let at = key_index(before, names[j])->Some_0;
        law_entry_of_a_key(before, names[j]);
        law_entry_of_a_key(before, key);
        assert(after[at] == before[at]);
    } else {
        let at = match key_index(before, key) {
            Some(i) => i,
            None => before.len() as int,
        };
        law_entry_of_a_key(before, key);
        assert(after[at].0 == key);
    }
}

/// Rows are made of a chunk exactly if there is one name for each column and one
/// value for each row in every column. There are then as many rows as the chunk
/// says, and each has under a name what the column of that name has in its
/// place; of two columns with one name, the later one counts.
pub proof fn law_rows_hold_their_columns(chunk: DataChunkView, names: Seq<Seq<char>>, i: int, j: int)
    ensures
        rows_of(chunk, names) is Ok <==> names.len() == chunk.columns.len() && forall|k: int|
            0 <= k < chunk.columns.len() ==> (#[trigger] chunk.columns[k]).len() == chunk.row_count,
        rows_of(chunk, names) matches Ok(rows) ==> {
            &&& rows.len() == chunk.row_count
            &&& 0 <= i < rows.len() && 0 <= j < names.len() && (forall|k: int|
                j < k < names.len() ==> #[trigger] names[k] != names[j]) ==> value_under(
                rows[i],
                names[j],
            ) == chunk.columns[j][i]
        },
{
    if let Ok(rows) = rows_of(chunk, names) {
        if 0 <= i < rows.len() && 0 <= j < names.len() && (forall|k: int|
            j < k < names.len() ==> #[trigger] names[k] != names[j]) {
            lemma_row_values(names, chunk.columns, i, names.len(), j);
        }
    }
}

/// What arrives is handed on row by row: the rows of a chunk in their order, or
/// the one error that there is.
pub proof fn law_rows_arrive_in_order(
    chunk: DataChunkView,
    error: QuackErrorView,
    names: Seq<Seq<char>>,
    i: int,
)
    ensures
        arriving_rows(Err(error), names) == seq![
            Err::<Seq<(Seq<char>, ValueView)>, QuackErrorView>(error),
        ],
        rows_of(chunk, names) matches Err(error) ==> arriving_rows(Ok(chunk), names) == seq![
            Err::<Seq<(Seq<char>, ValueView)>, QuackErrorView>(error),
        ],
        rows_of(chunk, names) matches Ok(rows) ==> {
            &&& arriving_rows(Ok(chunk), names).len() == rows.len()
            &&& 0 <= i < rows.len() ==> arriving_rows(Ok(chunk), names)[i] == Ok::<
                Seq<(Seq<char>, ValueView)>,
                QuackErrorView,
            >(rows[i])
        },
{
}

/// A chunk makes rows of its own exactly if it has column names that fit it.
pub proof fn law_chunk_makes_rows_under_its_names(chunk: DataChunkView, i: int, j: int)
    ensures
        own_rows(chunk) is Ok ==> chunk.column_names is Some,
        chunk.column_names matches Some(names) ==> (own_rows(chunk) is Ok <==> names.len()
            == chunk.columns.len() && forall|k: int|
            0 <= k < chunk.columns.len() ==> (#[trigger] chunk.columns[k]).len()
                == chunk.row_count),
        own_rows(chunk) matches Ok(rows) ==> {
            let names = chunk.column_names->Some_0;
            &&& rows.len() == chunk.row_count
            &&& 0 <= i < rows.len() && 0 <= j < names.len() && (forall|k: int|
                j < k < names.len() ==> #[trigger] names[k] != names[j]) ==> value_under(
                rows[i],
                names[j],
            ) == chunk.columns[j][i]
        },
{
    if let Some(names) = chunk.column_names {
        law_rows_hold_their_columns(chunk, names, i, j);
    }
}

/// One row is asked for and given exactly if there is just one; else their number
/// is told.
pub proof fn law_one_row_is_the_only_one(rows: Seq<Seq<(Seq<char>, ValueView)>>)
    ensures
        only_row(rows) is Ok <==> rows.len() == 1,
        only_row(rows) matches Ok(row) ==> rows == seq![row],
        only_row(rows) matches Err(error) ==> (error matches QuackErrorView::Protocol(message)
            && exists|digits: Seq<char>|
            #[trigger] writes_number(digits, rows.len()) && message
                == "expected exactly one row, got "@ + digits),
{
    law_decimal_notation(rows.len());
    if rows.len() == 1 {
        assert(rows =~= seq![rows[0]]);
    }
}

/// The first column gives one value for each row, in order: what the row has
/// under the name of that column. Without columns there are no values.
pub proof fn law_first_column_has_a_value_for_each_row(
    columns: Seq<ColumnDefinitionView>,
    rows: Seq<Seq<(Seq<char>, ValueView)>>,
    i: int,
    k: int,
)
    requires
        columns.len() > 0,
        0 <= i < rows.len(),
        0 <= k < rows[i].len(),
        rows[i][k].0 == columns[0].name,
        forall|e: int| 0 <= e < k ==> (#[trigger] rows[i][e]).0 != columns[0].name,
    ensures
        first_values(columns, rows).len() == rows.len(),
        first_values(columns, rows)[i] == rows[i][k].1,
        first_values(seq![], rows).len() == 0,
{
    law_entry_of_a_key(rows[i], columns[0].name);
    let at = key_index(rows[i], columns[0].name);
    if let Some(place) = at {
        if place < k {
            assert(rows[i][place].0 != columns[0].name);
        } else if place > k {
            assert(rows[i][k].0 != columns[0].name);
        }
    } else {
        assert(rows[i][k].0 != columns[0].name);
    }
}

} // verus!
