//! Chunks on the wire: a number of rows, the types of the columns, and the
//! columns.

use vstd::prelude::*;

use crate::binary::expect_end;
use crate::binary::expect_field;
use crate::binary::field_id;
use crate::binary::items_bytes;
use crate::binary::lemma_followed4;
use crate::binary::lemma_items_bytes_push;
use crate::binary::lemma_joined_bytes;
use crate::binary::lemma_prepended;
use crate::binary::lemma_read_field;
use crate::binary::lemma_read_items;
use crate::binary::lemma_read_items_step;
use crate::binary::lemma_read_uleb;
use crate::binary::lemma_written2;
use crate::binary::lemma_written4;
use crate::binary::lemma_written5;
use crate::binary::object_end;
use crate::binary::out_of_range;
use crate::binary::prepended;
use crate::binary::read_items;
use crate::binary::read_uleb;
use crate::binary::reads_view;
use crate::binary::uleb;
use crate::binary::BinaryReader;
use crate::binary::BinaryWriter;
use crate::binary::ReadResult;
use crate::binary::END_OF_OBJECT;
use crate::columns::column_views;
use crate::columns::decode_vector;
use crate::columns::write_vector;
use crate::conform::conform;
use crate::conform::conformed;
use crate::conform::lemma_conformed_holds;
use crate::errors::QuackError;
use crate::errors::QuackErrorView;
use crate::roundtrip::lemma_read_vector;
use crate::storage::storage;
use crate::storage::storage_of;
use crate::storage::Storage;
use crate::text::decimal;
use crate::text::decimal_text;
use crate::text::joined;
use crate::typecodec::decode_logical_type;
use crate::typecodec::encode_logical_type;
use crate::typecodec::is_type_in_order;
use crate::typecodec::lemma_read_type;
use crate::typecodec::read_type;
use crate::typecodec::type_bytes;
use crate::typecodec::type_in_order;
use crate::typecodec::unsupported_type;
use crate::typecodec::unsupported_type_error;
use crate::types::lemma_children_view;
use crate::types::views;
use crate::types::LogicalType;
use crate::types::LogicalTypeView;
use crate::value::DataChunk;
use crate::value::DataChunkView;
use crate::value::Value;
use crate::value::ValueView;
use crate::vector::all_hold;
use crate::vector::bad_column;
use crate::vector::countable;
use crate::vector::expect_count;
use crate::vector::holds;
use crate::vector::read_vector;
use crate::vector::storable;
use crate::vector::vector_bytes;

verus! {

/// The field of the number of rows.
pub const CHUNK_ROWS: u16 = 100;

/// The field of the types of the columns.
pub const CHUNK_TYPES: u16 = 101;

/// The field of the columns.
pub const CHUNK_COLUMNS: u16 = 102;

/// The error of a value that is not one of its column's type.
pub open spec fn value_misfit(t: LogicalTypeView) -> QuackErrorView {
    QuackErrorView::Protocol(
        "value does not fit logical type "@ + decimal(t.id.spec_code() as nat),
    )
}

/// A column in the form that its type gives it, or what is wrong with it.
pub open spec fn column_form(t: LogicalTypeView, column: Seq<ValueView>, rows: nat) -> Result<
    Seq<ValueView>,
    QuackErrorView,
> {
    if !type_in_order(t) || !storable(t) {
        Err(unsupported_type(t.id.spec_code() as nat))
    } else if column.len() != rows {
        Err(bad_column("column does not have one value for each row"@))
    } else if exists|i: int| 0 <= i < column.len() && conformed(t, #[trigger] column[i]) is None {
        Err(value_misfit(t))
    } else {
        Ok(Seq::new(column.len(), |i: int| conformed(t, column[i])->Some_0))
    }
}

/// Columns in the form that their types give them, from one of them on, or what
/// is wrong with the first that is not in order.
pub open spec fn columns_form(
    types: Seq<LogicalTypeView>,
    columns: Seq<Seq<ValueView>>,
    rows: nat,
    from: nat,
) -> Result<Seq<Seq<ValueView>>, QuackErrorView>
    decreases types.len() - from,
{
    if from >= types.len() {
        Ok(seq![])
    } else {
        match column_form(types[from as int], columns[from as int], rows) {
            Err(error) => Err(error),
            Ok(column) => match columns_form(types, columns, rows, from + 1) {
                Err(error) => Err(error),
                Ok(rest) => Ok(seq![column] + rest),
            },
        }
    }
}

/// A chunk in the form that its types give it, without column names, or what is
/// wrong with it.
pub open spec fn chunk_form(chunk: DataChunkView) -> Result<DataChunkView, QuackErrorView> {
    if chunk.types.len() != chunk.columns.len() {
        Err(bad_column("chunk does not have one column for each type"@))
    } else {
        match columns_form(chunk.types, chunk.columns, chunk.row_count as nat, 0) {
            Err(error) => Err(error),
            Ok(columns) => Ok(DataChunkView { columns, column_names: None, ..chunk }),
        }
    }
}

/// How each type is written.
pub open spec fn type_writer() -> spec_fn(LogicalTypeView) -> Seq<u8> {
    |t: LogicalTypeView| type_bytes(t)
}

/// How each type is read.
pub open spec fn type_reader() -> spec_fn(Seq<u8>) -> ReadResult<LogicalTypeView> {
    |b: Seq<u8>| read_type(b)
}

/// The bytes of a list of types.
pub open spec fn types_bytes(types: Seq<LogicalTypeView>) -> Seq<u8> {
    uleb(types.len()) + items_bytes(types, type_writer())
}

/// The bytes of one column of a chunk.
#[verifier::opaque]
pub open spec fn column_bytes(t: LogicalTypeView, column: Seq<ValueView>) -> Seq<u8> {
    vector_bytes(t, column)
}

/// One column of a chunk.
#[verifier::opaque]
pub open spec fn read_column(t: LogicalTypeView, rows: nat, b: Seq<u8>) -> ReadResult<
    Seq<ValueView>,
> {
    read_vector(t, rows, b)
}

/// The bytes of columns, from one of them on.
pub open spec fn columns_bytes(
    types: Seq<LogicalTypeView>,
    columns: Seq<Seq<ValueView>>,
    from: nat,
) -> Seq<u8>
    decreases types.len() - from,
{
    if from >= types.len() {
        seq![]
    } else {
        column_bytes(types[from as int], columns[from as int]) + columns_bytes(
            types,
            columns,
            from + 1,
        )
    }
}

/// The bytes of a chunk that is in form.
pub open spec fn chunk_bytes(chunk: DataChunkView) -> Seq<u8> {
    field_id(CHUNK_ROWS) + (uleb(chunk.row_count as nat) + (field_id(CHUNK_TYPES) + (types_bytes(
        chunk.types,
    ) + (field_id(CHUNK_COLUMNS) + (uleb(chunk.types.len()) + (columns_bytes(
        chunk.types,
        chunk.columns,
        0,
    ) + object_end()))))))
}

/// A list of types.
pub open spec fn read_types(b: Seq<u8>) -> ReadResult<Seq<LogicalTypeView>> {
    match read_uleb(b) {
        Err(error) => Err(error),
        Ok((count, b)) => read_items(b, count as nat, type_reader()),
    }
}

/// Columns, from one of them on.
pub open spec fn read_columns(
    types: Seq<LogicalTypeView>,
    rows: nat,
    b: Seq<u8>,
    from: nat,
) -> ReadResult<Seq<Seq<ValueView>>>
    decreases types.len() - from,
{
    if from >= types.len() {
        Ok((seq![], b))
    } else {
        match read_column(types[from as int], rows, b) {
            Err(error) => Err(error),
            Ok((column, rest)) => prepended(seq![column], read_columns(types, rows, rest, from + 1)),
        }
    }
}

/// A chunk.
pub open spec fn read_chunk(b: Seq<u8>) -> ReadResult<DataChunkView> {
    match expect_field(b, CHUNK_ROWS) {
        Err(error) => Err(error),
        Ok((_, b)) => match read_uleb(b) {
            Err(error) => Err(error),
            Ok((rows, b)) => if rows > usize::MAX {
                Err(out_of_range())
            } else {
                match expect_field(b, CHUNK_TYPES) {
                    Err(error) => Err(error),
                    Ok((_, b)) => match read_types(b) {
                        Err(error) => Err(error),
                        Ok((types, b)) => read_chunk_columns(rows as usize, types, b),
                    },
                }
            },
        },
    }
}

/// The rest of a chunk, after its types.
pub open spec fn read_chunk_columns(
    rows: usize,
    types: Seq<LogicalTypeView>,
    b: Seq<u8>,
) -> ReadResult<DataChunkView> {
    match expect_field(b, CHUNK_COLUMNS) {
        Err(error) => Err(error),
        Ok((_, b)) => match expect_count(b, types.len()) {
            Err(error) => Err(error),
            Ok((_, b)) => match read_columns(types, rows as nat, b, 0) {
                Err(error) => Err(error),
                Ok((columns, b)) => match expect_end(b) {
                    Err(error) => Err(error),
                    Ok((_, rest)) => Ok(
                        (
                            DataChunkView { row_count: rows, types, columns, column_names: None },
                            rest,
                        ),
                    ),
                },
            },
        },
    }
}

/// Whether the items of a chunk can be counted.
#[verifier::opaque]
pub open spec fn chunk_countable(chunk: DataChunkView) -> bool {
    &&& chunk.types.len() <= usize::MAX
    &&& forall|j: int|
        0 <= j < chunk.types.len() ==> countable(#[trigger] chunk.types[j], chunk.columns[j])
}

/// Whether a chunk is in the form that its types give it.
#[verifier::opaque]
pub open spec fn chunk_in_form(chunk: DataChunkView) -> bool {
    &&& chunk.types.len() == chunk.columns.len()
    &&& chunk.column_names is None
    &&& forall|j: int|
        0 <= j < chunk.types.len() ==> {
            &&& type_in_order(#[trigger] chunk.types[j])
            &&& storable(chunk.types[j])
            &&& chunk.columns[j].len() == chunk.row_count
            &&& all_hold(chunk.types[j], chunk.columns[j])
        }
}

proof fn lemma_columns_form(
    types: Seq<LogicalTypeView>,
    columns: Seq<Seq<ValueView>>,
    rows: nat,
    from: nat,
    j: int,
)
    requires
        from <= j < types.len(),
        columns_form(types, columns, rows, from) is Ok,
    ensures
        ({
            let form = columns_form(types, columns, rows, from)->Ok_0;
            &&& form.len() == types.len() - from
            &&& column_form(types[j], columns[j], rows) == Ok::<_, QuackErrorView>(form[j - from])
        }),
    decreases types.len() - from,
{
    if from < j {
        lemma_columns_form(types, columns, rows, from + 1, j);
    } else if from + 1 < types.len() {
        lemma_columns_form(types, columns, rows, from + 1, types.len() - 1);
    }
}

/// The form of a chunk is in form.
pub proof fn lemma_chunk_form(chunk: DataChunkView)
    requires
        chunk_form(chunk) is Ok,
    ensures
        chunk_in_form(chunk_form(chunk)->Ok_0),
{
    reveal(chunk_in_form);
    let form = chunk_form(chunk)->Ok_0;
    if chunk.types.len() > 0 {
        lemma_columns_form(chunk.types, chunk.columns, chunk.row_count as nat, 0, 0);
    }
    assert forall|j: int| 0 <= j < form.types.len() implies type_in_order(
        #[trigger] form.types[j],
    ) && storable(form.types[j]) && form.columns[j].len() == form.row_count && all_hold(
        form.types[j],
        form.columns[j],
    ) by {
        lemma_columns_form(chunk.types, chunk.columns, chunk.row_count as nat, 0, j);
        let t = chunk.types[j];
        let column = chunk.columns[j];
        let done = form.columns[j];
        assert(all_hold(t, done)) by {
            reveal(all_hold);
            assert forall|i: int| 0 <= i < done.len() implies holds(t, #[trigger] done[i]) by {
                assert(conformed(t, column[i]) is Some);
                lemma_conformed_holds(t, column[i]);
            }
        }
    }
}

/// What being in form means for one column.
proof fn lemma_column_in_form(chunk: DataChunkView, j: int)
    requires
        chunk_in_form(chunk),
        chunk_countable(chunk),
        0 <= j < chunk.types.len(),
    ensures
        type_in_order(chunk.types[j]),
        storable(chunk.types[j]),
        chunk.columns[j].len() == chunk.row_count,
        all_hold(chunk.types[j], chunk.columns[j]),
        countable(chunk.types[j], chunk.columns[j]),
{
    reveal(chunk_in_form);
    reveal(chunk_countable);
    assert(type_in_order(chunk.types[j]));
    assert(countable(chunk.types[j], chunk.columns[j]));
}

/// What being in form means for the columns together.
proof fn lemma_columns_in_form(chunk: DataChunkView)
    requires
        chunk_in_form(chunk),
        chunk_countable(chunk),
    ensures
        chunk.types.len() == chunk.columns.len(),
        chunk.types.len() <= usize::MAX,
        chunk.column_names is None,
{
    reveal(chunk_in_form);
    reveal(chunk_countable);
}

proof fn lemma_columns_step(
    types: Seq<LogicalTypeView>,
    rows: nat,
    from: nat,
    b: Seq<u8>,
    column: Seq<ValueView>,
    rest: Seq<u8>,
    tail: Seq<Seq<ValueView>>,
    after: Seq<u8>,
)
    requires
        from < types.len(),
        read_column(types[from as int], rows, b) == Ok::<
            (Seq<ValueView>, Seq<u8>),
            QuackErrorView,
        >((column, rest)),
        read_columns(types, rows, rest, from + 1) == Ok::<
            (Seq<Seq<ValueView>>, Seq<u8>),
            QuackErrorView,
        >((tail, after)),
    ensures
        read_columns(types, rows, b, from) == Ok::<(Seq<Seq<ValueView>>, Seq<u8>), QuackErrorView>(
            (seq![column] + tail, after),
        ),
{
}

proof fn lemma_read_column(chunk: DataChunkView, j: int, rest: Seq<u8>)
    requires
        chunk_in_form(chunk),
        chunk_countable(chunk),
        0 <= j < chunk.types.len(),
    ensures
        read_column(
            chunk.types[j],
            chunk.row_count as nat,
            column_bytes(chunk.types[j], chunk.columns[j]) + rest,
        ) == Ok::<(Seq<ValueView>, Seq<u8>), QuackErrorView>((chunk.columns[j], rest)),
{
    reveal(column_bytes);
    reveal(read_column);
    lemma_column_in_form(chunk, j);
    lemma_read_vector(chunk.types[j], chunk.columns[j], rest);
}

proof fn lemma_columns_bytes(
    types: Seq<LogicalTypeView>,
    columns: Seq<Seq<ValueView>>,
    from: nat,
    after: Seq<u8>,
)
    requires
        from < types.len(),
    ensures
        columns_bytes(types, columns, from) + after == column_bytes(
            types[from as int],
            columns[from as int],
        ) + (columns_bytes(types, columns, from + 1) + after),
{
    lemma_joined_bytes(
        column_bytes(types[from as int], columns[from as int]),
        columns_bytes(types, columns, from + 1),
        after,
    );
}

proof fn lemma_read_columns(chunk: DataChunkView, from: nat, after: Seq<u8>)
    requires
        chunk_in_form(chunk),
        chunk_countable(chunk),
        from <= chunk.types.len(),
    ensures
        read_columns(
            chunk.types,
            chunk.row_count as nat,
            columns_bytes(chunk.types, chunk.columns, from) + after,
            from,
        ) == Ok::<(Seq<Seq<ValueView>>, Seq<u8>), QuackErrorView>(
            (chunk.columns.skip(from as int), after),
        ),
    decreases chunk.types.len() - from,
{
    let types = chunk.types;
    let columns = chunk.columns;
    lemma_columns_in_form(chunk);
    if from >= types.len() {
        assert(columns_bytes(types, columns, from) + after =~= after);
        assert(columns.skip(from as int) =~= seq![]);
    } else {
        let column = columns[from as int];
        let rest = columns_bytes(types, columns, from + 1) + after;
        let b = column_bytes(types[from as int], column) + rest;
        lemma_columns_bytes(types, columns, from, after);
        lemma_read_column(chunk, from as int, rest);
        lemma_read_columns(chunk, from + 1, after);
        lemma_columns_step(
            types,
            chunk.row_count as nat,
            from,
            b,
            column,
            rest,
            columns.skip(from as int + 1),
            after,
        );
        assert(seq![column] + columns.skip(from as int + 1) =~= columns.skip(from as int));
    }
}

/// A list of types is read back.
pub proof fn lemma_read_types(types: Seq<LogicalTypeView>, after: Seq<u8>)
    requires
        types.len() <= u64::MAX,
        forall|j: int| 0 <= j < types.len() ==> type_in_order(#[trigger] types[j]),
    ensures
        read_types(types_bytes(types) + after) == Ok::<
            (Seq<LogicalTypeView>, Seq<u8>),
            QuackErrorView,
        >((types, after)),
{
    let list = items_bytes(types, type_writer());
    lemma_joined_bytes(uleb(types.len()), list, after);
    lemma_read_uleb(types.len() as u64, list + after);
    assert forall|i: int, rest: Seq<u8>| 0 <= i < types.len() implies #[trigger] type_reader()(
        type_writer()(types[i]) + rest,
    ) == Ok::<(LogicalTypeView, Seq<u8>), QuackErrorView>((types[i], rest)) by {
        lemma_read_type(types[i], rest);
    }
    lemma_read_items(types, after, type_writer(), type_reader());
}

/// A chunk that is in form is read back, and what follows it is left.
pub proof fn law_chunk_is_read_back(chunk: DataChunkView, rest: Seq<u8>)
    requires
        chunk_in_form(chunk),
        chunk_countable(chunk),
    ensures
        read_chunk(chunk_bytes(chunk) + rest) == Ok::<(DataChunkView, Seq<u8>), QuackErrorView>(
            (chunk, rest),
        ),
{
    lemma_columns_in_form(chunk);
    let rows = uleb(chunk.row_count as nat);
    let types = types_bytes(chunk.types);
    let count = uleb(chunk.types.len());
    let columns = columns_bytes(chunk.types, chunk.columns, 0);
    let end = object_end();
    let b5 = columns + (end + rest);
    let b4 = count + b5;
    let b3 = field_id(CHUNK_COLUMNS) + b4;
    let b2 = types + b3;
    let b1 = field_id(CHUNK_TYPES) + b2;
    assert(chunk_bytes(chunk) + rest == field_id(CHUNK_ROWS) + (rows + b1)) by {
        let tail = field_id(CHUNK_COLUMNS) + (count + (columns + end));
        lemma_followed4(field_id(CHUNK_COLUMNS), count, columns, end, rest);
        lemma_joined_bytes(types, tail, rest);
        lemma_followed4(field_id(CHUNK_ROWS), rows, field_id(CHUNK_TYPES), types + tail, rest);
    }
    assert(expect_field(field_id(CHUNK_ROWS) + (rows + b1), CHUNK_ROWS) == Ok::<
        ((), Seq<u8>),
        QuackErrorView,
    >(((), rows + b1))) by {
        lemma_read_field(CHUNK_ROWS, rows + b1);
    }
    assert(read_uleb(rows + b1) == Ok::<(u64, Seq<u8>), QuackErrorView>(
        (chunk.row_count as u64, b1),
    )) by {
        lemma_read_uleb(chunk.row_count as u64, b1);
    }
    assert(expect_field(b1, CHUNK_TYPES) == Ok::<((), Seq<u8>), QuackErrorView>(((), b2))) by {
        lemma_read_field(CHUNK_TYPES, b2);
    }
    assert(read_types(b2) == Ok::<(Seq<LogicalTypeView>, Seq<u8>), QuackErrorView>(
        (chunk.types, b3),
    )) by {
        assert forall|j: int| 0 <= j < chunk.types.len() implies type_in_order(
            #[trigger] chunk.types[j],
        ) by {
            lemma_column_in_form(chunk, j);
        }
        lemma_read_types(chunk.types, b3);
    }
    assert(read_chunk_columns(chunk.row_count, chunk.types, b3) == Ok::<
        (DataChunkView, Seq<u8>),
        QuackErrorView,
    >((chunk, rest))) by {
        lemma_read_field(CHUNK_COLUMNS, b4);
        lemma_read_uleb(chunk.types.len() as u64, b5);
        lemma_read_columns(chunk, 0, end + rest);
        lemma_read_field(END_OF_OBJECT, rest);
        assert(chunk.columns.skip(0) =~= chunk.columns);
    }
}

/// A chunk is read back in the form that its types give it: what is decoded is
/// what was encoded, with its values in that form and without column names.
pub proof fn law_chunk_comes_back_in_form(chunk: DataChunkView, rest: Seq<u8>)
    requires
        chunk_form(chunk) is Ok,
        chunk_countable(chunk_form(chunk)->Ok_0),
    ensures
        read_chunk(chunk_bytes(chunk_form(chunk)->Ok_0) + rest) == Ok::<
            (DataChunkView, Seq<u8>),
            QuackErrorView,
        >((chunk_form(chunk)->Ok_0, rest)),
{
    lemma_chunk_form(chunk);
    law_chunk_is_read_back(chunk_form(chunk)->Ok_0, rest);
}

// ---------------------------------------------------------------------------
// Writing
// ---------------------------------------------------------------------------
/// Whether the values of a type can be stored.
pub fn is_storable(t: &LogicalType) -> (b: bool)
    ensures
        b == storable(t@),
    decreases t,
{
    proof {
        lemma_children_view(*t);
    }
    match storage_of(t) {
        Storage::Unknown => false,
        Storage::List => {
            if t.children.len() != 1 {
                return false;
            }
            assert(t@.children[0] == t.children@[0]@);
            assert(decreases_to!(*t => t.children@[0].logical_type));
            is_storable(&t.children[0].logical_type)
        },
        Storage::Array => {
            if t.children.len() != 1 {
                return false;
            }
            assert(t@.children[0] == t.children@[0]@);
            assert(decreases_to!(*t => t.children@[0].logical_type));
            is_storable(&t.children[0].logical_type)
        },
        Storage::Struct => {
            let mut i: usize = 0;
            while i < t.children.len()
                invariant
                    i <= t.children@.len(),
                    storage(t@) is Struct,
                    t@.children == views(t.children@),
                    forall|k: int|
                        0 <= k < i ==> storable((#[trigger] t@.children[k]).logical_type),
                decreases t.children@.len() - i,
            {
                assert(t@.children[i as int] == t.children@[i as int]@);
                assert(decreases_to!(*t => t.children@[i as int].logical_type));
                if !is_storable(&t.children[i].logical_type) {
                    return false;
                }
                i += 1;
            }
            true
        },
        _ => true,
    }
}

fn form_column(t: &LogicalType, column: &Vec<Value>, rows: usize) -> (done: Result<
    Vec<Value>,
    QuackError,
>)
    ensures
        match done {
            Ok(done) => column_form(t@, views(column@), rows as nat) == Ok::<_, QuackErrorView>(
                views(done@),
            ),
            Err(error) => column_form(t@, views(column@), rows as nat) == Err::<
                Seq<ValueView>,
                _,
            >(error@),
        },
{
    if !is_type_in_order(t) || !is_storable(t) {
        return Err(unsupported_type_error(t.id.code() as u64));
    }
    if column.len() != rows {
        return Err(QuackError::protocol("column does not have one value for each row"));
    }
    let ghost values = views(column@);
    let mut done: Vec<Value> = Vec::new();
    let mut i: usize = 0;
    while i < column.len()
        invariant
            i <= column@.len(),
            values == views(column@),
            values.len() == rows,
            type_in_order(t@),
            storable(t@),
            done@.len() == i,
            forall|k: int| 0 <= k < i ==> conformed(t@, #[trigger] values[k]) == Some(done@[k]@),
        decreases column@.len() - i,
    {
        assert(values[i as int] == column@[i as int]@);
        match conform(t, &column[i]) {
            Some(value) => {
                done.push(value);
            },
            None => {
                assert(conformed(t@, values[i as int]) is None);
                return Err(
                    QuackError::Protocol(
                        joined(
                            "value does not fit logical type ",
                            decimal_text(t.id.code() as u128).as_str(),
                        ),
                    ),
                );
            },
        }
        i += 1;
    }
    assert(views(done@) =~= Seq::new(values.len(), |i: int| conformed(t@, values[i])->Some_0));
    Ok(done)
}

/// What the form of the remaining columns makes of all of them.
pub open spec fn after_first(
    first: Seq<Seq<ValueView>>,
    rest: Result<Seq<Seq<ValueView>>, QuackErrorView>,
) -> Result<Seq<Seq<ValueView>>, QuackErrorView> {
    match rest {
        Ok(rest) => Ok(first + rest),
        Err(error) => Err(error),
    }
}

fn form_columns(chunk: &DataChunk) -> (done: Result<Vec<Vec<Value>>, QuackError>)
    requires
        chunk@.types.len() == chunk@.columns.len(),
    ensures
        match done {
            Ok(done) => columns_form(chunk@.types, chunk@.columns, chunk@.row_count as nat, 0)
                == Ok::<_, QuackErrorView>(column_views(done@)),
            Err(error) => columns_form(chunk@.types, chunk@.columns, chunk@.row_count as nat, 0)
                == Err::<Seq<Seq<ValueView>>, _>(error@),
        },
{
    let ghost types = chunk@.types;
    let ghost columns = chunk@.columns;
    let ghost rows = chunk@.row_count as nat;
    let ghost whole = columns_form(types, columns, rows, 0);
    let mut done: Vec<Vec<Value>> = Vec::new();
    let mut j: usize = 0;
    proof {
        assert(column_views(done@) =~= seq![]);
        if let Ok(rest) = whole {
            assert(seq![] + rest =~= rest);
        }
    }
    while j < chunk.types.len()
        invariant
            j <= chunk.types@.len(),
            types == chunk@.types,
            columns == chunk@.columns,
            rows == chunk@.row_count as nat,
            types.len() == columns.len(),
            whole == columns_form(types, columns, rows, 0),
            whole == after_first(
                column_views(done@),
                columns_form(types, columns, rows, j as nat),
            ),
        decreases chunk.types@.len() - j,
    {
        assert(types[j as int] == chunk.types@[j as int]@);
        assert(columns[j as int] == views(chunk.columns@[j as int]@));
        match form_column(&chunk.types[j], &chunk.columns[j], chunk.row_count) {
            Err(error) => {
                return Err(error);
            },
            Ok(column) => {
                let ghost before = column_views(done@);
                done.push(column);
                proof {
                    assert(column_views(done@) =~= before.push(views(column@)));
                    if let Ok(rest) = columns_form(types, columns, rows, (j + 1) as nat) {
                        assert(before + (seq![views(column@)] + rest) =~= column_views(done@)
                            + rest);
                    }
                }
                j += 1;
            },
        }
    }
    assert(column_views(done@) + seq![] =~= column_views(done@));
    Ok(done)
}

fn references<'a>(column: &'a Vec<Value>) -> (refs: Vec<&'a Value>)
    ensures
        views(refs@) == views(column@),
{
    let mut refs: Vec<&'a Value> = Vec::new();
    let count: usize = column.len();
    for i in 0..count
        invariant
            count == column@.len(),
            refs@.len() == i,
            forall|k: int| 0 <= k < i ==> (#[trigger] refs@[k])@ == column@[k]@,
    {
        refs.push(&column[i]);
    }
    assert(views(refs@) =~= views(column@));
    refs
}

/// Writes a list of types that are all in order.
pub(crate) fn write_types(writer: &mut BinaryWriter, types: &Vec<LogicalType>)
    requires
        forall|j: int| 0 <= j < types@.len() ==> type_in_order((#[trigger] types@[j])@),
    ensures
        final(writer)@ == old(writer)@ + types_bytes(views(types@)),
{
    let ghost ts = views(types@);
    let count: usize = types.len();
    writer.write_uleb(count as u64);
    let ghost before = writer@;
    assert(items_bytes(ts.take(0), type_writer()) =~= seq![]);
    assert(before + seq![] =~= before);
    for i in 0..count
        invariant
            count == types@.len(),
            ts == views(types@),
            forall|j: int| 0 <= j < types@.len() ==> type_in_order((#[trigger] types@[j])@),
            writer@ == before + items_bytes(ts.take(i as int), type_writer()),
    {
        assert(type_in_order(types@[i as int]@));
        let written = encode_logical_type(writer, &types[i]);
        proof {
            lemma_items_bytes_push(ts.take(i as int), ts[i as int], type_writer());
            assert(ts.take(i + 1) =~= ts.take(i as int).push(ts[i as int]));
            lemma_joined_bytes(
                before,
                items_bytes(ts.take(i as int), type_writer()),
                type_bytes(ts[i as int]),
            );
        }
    }
    proof {
        assert(ts.take(count as int) =~= ts);
        lemma_written2(old(writer)@, uleb(count as nat), items_bytes(ts, type_writer()));
    }
}

fn write_columns(
    writer: &mut BinaryWriter,
    types: &Vec<LogicalType>,
    columns: &Vec<Vec<Value>>,
    from: usize,
)
    requires
        from <= types@.len(),
        types@.len() == columns@.len(),
        forall|j: int| 0 <= j < types@.len() ==> storable((#[trigger] types@[j])@),
    ensures
        final(writer)@ == old(writer)@ + columns_bytes(
            views(types@),
            column_views(columns@),
            from as nat,
        ),
    decreases types@.len() - from,
{
    if from < types.len() {
        let refs = references(&columns[from]);
        assert(storable(types@[from as int]@));
        write_vector(writer, &types[from], &refs);
        reveal(column_bytes);
        write_columns(writer, types, columns, from + 1);
        proof {
            lemma_written2(
                old(writer)@,
                column_bytes(types@[from as int]@, views(columns@[from as int]@)),
                columns_bytes(views(types@), column_views(columns@), (from + 1) as nat),
            );
        }
    } else {
        assert(writer@ + seq![] =~= writer@);
    }
}

/// Writes a chunk in the form that its types give it.
pub fn encode_data_chunk(writer: &mut BinaryWriter, chunk: &DataChunk) -> (result: Result<
    (),
    QuackError,
>)
    ensures
        match result {
            Ok(_) => chunk_form(chunk@) is Ok && final(writer)@ == old(writer)@ + chunk_bytes(
                chunk_form(chunk@)->Ok_0,
            ),
            Err(error) => chunk_form(chunk@) == Err::<DataChunkView, _>(error@) && final(writer)@
                == old(writer)@,
        },
{
    if chunk.types.len() != chunk.columns.len() {
        return Err(QuackError::protocol("chunk does not have one column for each type"));
    }
    let columns = match form_columns(chunk) {
        Ok(columns) => columns,
        Err(error) => {
            return Err(error);
        },
    };
    let ghost form = chunk_form(chunk@)->Ok_0;
    proof {
        lemma_chunk_form(chunk@);
        reveal(chunk_in_form);
        assert forall|j: int| 0 <= j < chunk.types@.len() implies type_in_order(
            (#[trigger] chunk.types@[j])@,
        ) && storable(chunk.types@[j]@) by {
            assert(form.types[j] == chunk.types@[j]@);
        }
    }
    writer.write_field(CHUNK_ROWS);
    writer.write_uleb(chunk.row_count as u64);
    writer.write_field(CHUNK_TYPES);
    write_types(writer, &chunk.types);
    let ghost head = writer@;
    writer.write_field(CHUNK_COLUMNS);
    writer.write_uleb(chunk.types.len() as u64);
    write_columns(writer, &chunk.types, &columns, 0);
    writer.end_object();
    proof {
        let tail = field_id(CHUNK_COLUMNS) + (uleb(form.types.len()) + (columns_bytes(
            form.types,
            form.columns,
            0,
        ) + object_end()));
        lemma_written4(
            head,
            field_id(CHUNK_COLUMNS),
            uleb(form.types.len()),
            columns_bytes(form.types, form.columns, 0),
            object_end(),
        );
        lemma_written5(
            old(writer)@,
            field_id(CHUNK_ROWS),
            uleb(form.row_count as nat),
            field_id(CHUNK_TYPES),
            types_bytes(form.types),
            tail,
        );
    }
    Ok(())
}

// ---------------------------------------------------------------------------
// Reading
// ---------------------------------------------------------------------------
/// Reads a list of types.
pub fn decode_types(reader: &mut BinaryReader) -> (types: Result<Vec<LogicalType>, QuackError>)
    ensures
        match types {
            Ok(types) => read_types(old(reader)@) == Ok::<
                (Seq<LogicalTypeView>, Seq<u8>),
                QuackErrorView,
            >((views(types@), final(reader)@)),
            Err(error) => read_types(old(reader)@) == Err::<
                (Seq<LogicalTypeView>, Seq<u8>),
                QuackErrorView,
            >(error@),
        },
{
    let count: u64 = match reader.read_uleb_u64() {
        Ok(count) => count,
        Err(error) => {
            return Err(error);
        },
    };
    let ghost start = reader@;
    let mut types: Vec<LogicalType> = Vec::new();
    let mut left: u64 = count;
    proof {
        lemma_prepended(
            views(types@),
            arbitrary(),
            read_items(start, count as nat, type_reader()),
        );
        assert(views(types@) =~= seq![]);
    }
    while left > 0
        invariant
            left <= count,
            read_uleb(old(reader)@) == Ok::<(u64, Seq<u8>), QuackErrorView>((count, start)),
            read_items(start, count as nat, type_reader()) == prepended(
                views(types@),
                read_items(reader@, left as nat, type_reader()),
            ),
        decreases left,
    {
        let ghost done = views(types@);
        proof {
            lemma_read_items_step(done, reader@, left as nat, type_reader());
        }
        match decode_logical_type(reader) {
            Err(error) => {
                return Err(error);
            },
            Ok(t) => {
                types.push(t);
                assert(views(types@) =~= done.push(t@));
                left -= 1;
            },
        }
    }
    assert(views(types@) + seq![] =~= views(types@));
    Ok(types)
}

fn decode_columns(reader: &mut BinaryReader, types: &Vec<LogicalType>, rows: usize) -> (columns:
    Result<Vec<Vec<Value>>, QuackError>)
    ensures
        match columns {
            Ok(columns) => read_columns(views(types@), rows as nat, old(reader)@, 0) == Ok::<
                (Seq<Seq<ValueView>>, Seq<u8>),
                QuackErrorView,
            >((column_views(columns@), final(reader)@)),
            Err(error) => read_columns(views(types@), rows as nat, old(reader)@, 0) == Err::<
                (Seq<Seq<ValueView>>, Seq<u8>),
                QuackErrorView,
            >(error@),
        },
{
    let ghost ts = views(types@);
    let mut columns: Vec<Vec<Value>> = Vec::new();
    let mut j: usize = 0;
    proof {
        assert(column_views(columns@) =~= seq![]);
        lemma_prepended(column_views(columns@), seq![], read_columns(ts, rows as nat, reader@, 0));
    }
    while j < types.len()
        invariant
            j <= types@.len(),
            ts == views(types@),
            read_columns(ts, rows as nat, old(reader)@, 0) == prepended(
                column_views(columns@),
                read_columns(ts, rows as nat, reader@, j as nat),
            ),
        decreases types@.len() - j,
    {
        let ghost done = column_views(columns@);
        assert(ts[j as int] == types@[j as int]@);
        reveal(read_column);
        match decode_vector(reader, &types[j], rows) {
            Err(error) => {
                return Err(error);
            },
            Ok(column) => {
                columns.push(column);
                proof {
                    assert(column_views(columns@) =~= done.push(views(column@)));
                    lemma_prepended(
                        done,
                        views(column@),
                        read_columns(ts, rows as nat, reader@, (j + 1) as nat),
                    );
                }
                j += 1;
            },
        }
    }
    assert(column_views(columns@) + seq![] =~= column_views(columns@));
    Ok(columns)
}

/// Reads a chunk.
pub fn decode_data_chunk(reader: &mut BinaryReader) -> (chunk: Result<DataChunk, QuackError>)
    ensures
        reads_view(chunk, final(reader)@, read_chunk(old(reader)@)),
{
    if let Err(error) = reader.read_required_field(CHUNK_ROWS) {
        return Err(error);
    }
    let rows: u64 = match reader.read_uleb_u64() {
        Ok(rows) => rows,
        Err(error) => {
            return Err(error);
        },
    };
    if rows > usize::MAX as u64 {
        return Err(QuackError::protocol("integer is out of range"));
    }
    if let Err(error) = reader.read_required_field(CHUNK_TYPES) {
        return Err(error);
    }
    let types = match decode_types(reader) {
        Ok(types) => types,
        Err(error) => {
            return Err(error);
        },
    };
    if let Err(error) = reader.read_required_field(CHUNK_COLUMNS) {
        return Err(error);
    }
    let count: u64 = match reader.read_uleb_u64() {
        Ok(count) => count,
        Err(error) => {
            return Err(error);
        },
    };
    if count != types.len() as u64 {
        return Err(QuackError::protocol("column does not have the expected number of items"));
    }
    let columns = match decode_columns(reader, &types, rows as usize) {
        Ok(columns) => columns,
        Err(error) => {
            return Err(error);
        },
    };
    if let Err(error) = reader.read_object_end() {
        return Err(error);
    }
    let chunk = DataChunk { row_count: rows as usize, types, columns, column_names: None };
    assert(chunk@.columns =~= column_views(columns@));
    Ok(chunk)
}

proof fn lemma_columns_form_exactly(
    types: Seq<LogicalTypeView>,
    columns: Seq<Seq<ValueView>>,
    rows: nat,
    from: nat,
)
    requires
        types.len() == columns.len(),
        from <= types.len(),
    ensures
        columns_form(types, columns, rows, from) is Ok <==> forall|j: int|
            from <= j < types.len() ==> column_fits(#[trigger] types[j], columns[j], rows),
        columns_form(types, columns, rows, from) matches Ok(form) ==> {
            &&& form.len() == types.len() - from
            &&& forall|j: int|
                from <= j < types.len() ==> (#[trigger] form[j - from]).len() == columns[j].len()
            &&& forall|j: int, i: int|
                from <= j < types.len() && 0 <= i < columns[j].len() ==> conformed(
                    types[j],
                    columns[j][i],
                ) == Some(#[trigger] form[j - from][i])
        },
    decreases types.len() - from,
{
    if from < types.len() {
        let t = types[from as int];
        let column = columns[from as int];
        lemma_columns_form_exactly(types, columns, rows, from + 1);
        lemma_column_form_exactly(t, column, rows);
        if columns_form(types, columns, rows, from) is Ok {
            let form = columns_form(types, columns, rows, from)->Ok_0;
            let rest = columns_form(types, columns, rows, from + 1)->Ok_0;
            let first = column_form(t, column, rows)->Ok_0;
            assert(column_fits(types[from as int], columns[from as int], rows));
            assert(form[0] == first);
            assert forall|j: int| from <= j < types.len() implies (#[trigger] form[j
                - from]).len() == columns[j].len() by {
                if j > from {
                    assert(form[j - from] == rest[j - (from + 1)]);
                }
            }
            assert forall|j: int, i: int|
                from <= j < types.len() && 0 <= i < columns[j].len() implies conformed(
                types[j],
                columns[j][i],
            ) == Some(#[trigger] form[j - from][i]) by {
                if j > from {
                    assert(form[j - from] == rest[j - (from + 1)]);
                    assert(conformed(types[j], columns[j][i]) == Some(rest[j - (from + 1)][i]));
                } else {
                    assert(conformed(t, column[i]) == Some(first[i]));
                }
            }
        } else {
            if column_form(t, column, rows) is Err {
                assert(!column_fits(types[from as int], columns[from as int], rows));
            }
        }
    }
}

/// Whether a column can be stored: its type has a form on the wire, and there is
/// a value of the type for each row.
pub open spec fn column_fits(t: LogicalTypeView, column: Seq<ValueView>, rows: nat) -> bool {
    &&& type_in_order(t)
    &&& storable(t)
    &&& column.len() == rows
    &&& forall|i: int| 0 <= i < column.len() ==> conformed(t, #[trigger] column[i]) is Some
}

proof fn lemma_column_form_exactly(t: LogicalTypeView, column: Seq<ValueView>, rows: nat)
    ensures
        column_form(t, column, rows) is Ok <==> column_fits(t, column, rows),
        column_form(t, column, rows) matches Ok(form) ==> {
            &&& form.len() == column.len()
            &&& forall|i: int|
                0 <= i < column.len() ==> conformed(t, column[i]) == Some(#[trigger] form[i])
        },
{
    if column_form(t, column, rows) is Ok {
        let form = column_form(t, column, rows)->Ok_0;
        assert forall|i: int| 0 <= i < column.len() implies conformed(t, column[i]) == Some(
            #[trigger] form[i],
        ) by {
            assert(!(conformed(t, column[i]) is None));
        }
    } else if type_in_order(t) && storable(t) && column.len() == rows {
        let i = choose|i: int| 0 <= i < column.len() && conformed(t, #[trigger] column[i]) is None;
        assert(!(conformed(t, column[i]) is Some));
    }
}

/// A chunk can be sent exactly if each of its columns can be stored. What is
/// sent has the rows and types of the chunk, and in each place the value of the
/// chunk in the form of its type; only the column names are left out.
pub proof fn law_chunk_form_keeps_the_table(chunk: DataChunkView)
    ensures
        chunk_form(chunk) is Ok <==> chunk.types.len() == chunk.columns.len() && forall|j: int|
            0 <= j < chunk.types.len() ==> column_fits(
                #[trigger] chunk.types[j],
                chunk.columns[j],
                chunk.row_count as nat,
            ),
        chunk_form(chunk) matches Ok(form) ==> {
            &&& form.row_count == chunk.row_count
            &&& form.types == chunk.types
            &&& form.column_names is None
            &&& form.columns.len() == chunk.columns.len()
            &&& forall|j: int|
                0 <= j < chunk.columns.len() ==> (#[trigger] form.columns[j]).len()
                    == chunk.row_count
            &&& forall|j: int, i: int|
                0 <= j < chunk.columns.len() && 0 <= i < chunk.row_count ==> conformed(
                    chunk.types[j],
                    chunk.columns[j][i],
                ) == Some(#[trigger] form.columns[j][i])
        },
{
    if chunk.types.len() == chunk.columns.len() {
        let rows = chunk.row_count as nat;
        lemma_columns_form_exactly(chunk.types, chunk.columns, rows, 0);
        if let Ok(form) = chunk_form(chunk) {
            assert forall|j: int| 0 <= j < chunk.columns.len() implies (
            #[trigger] form.columns[j]).len() == chunk.row_count by {
                assert(column_fits(chunk.types[j], chunk.columns[j], rows));
                assert(form.columns[j - 0].len() == chunk.columns[j].len());
            }
            assert forall|j: int, i: int|
                0 <= j < chunk.columns.len() && 0 <= i < chunk.row_count implies conformed(
                chunk.types[j],
                chunk.columns[j][i],
            ) == Some(#[trigger] form.columns[j][i]) by {
                assert(column_fits(chunk.types[j], chunk.columns[j], rows));
                assert(conformed(chunk.types[j], chunk.columns[j][i]) == Some(
                    form.columns[j - 0][i],
                ));
            }
        }
    }
}

proof fn lemma_first_misfit(
    types: Seq<LogicalTypeView>,
    columns: Seq<Seq<ValueView>>,
    rows: nat,
    from: nat,
    j: int,
)
    requires
        from <= j < types.len(),
        types.len() == columns.len(),
        forall|k: int| from <= k < j ==> column_fits(#[trigger] types[k], columns[k], rows),
        !column_fits(types[j], columns[j], rows),
    ensures
        column_form(types[j], columns[j], rows) is Err,
        columns_form(types, columns, rows, from) == Err::<Seq<Seq<ValueView>>, _>(
            column_form(types[j], columns[j], rows)->Err_0,
        ),
    decreases types.len() - from,
{
    lemma_column_form_exactly(types[from as int], columns[from as int], rows);
    if from < j {
        assert(column_fits(types[from as int], columns[from as int], rows));
        lemma_first_misfit(types, columns, rows, from + 1, j);
    }
}

/// A chunk that cannot be sent is refused for its first column that does not
/// fit: for its type if that has no form on the wire or no values, then for the
/// number of its values, then for a value that is not one of its type. The type
/// is told by its number.
pub proof fn law_first_misfit_is_told(chunk: DataChunkView, j: int)
    requires
        chunk.types.len() == chunk.columns.len(),
        0 <= j < chunk.types.len(),
        forall|k: int|
            0 <= k < j ==> column_fits(
                #[trigger] chunk.types[k],
                chunk.columns[k],
                chunk.row_count as nat,
            ),
        !column_fits(chunk.types[j], chunk.columns[j], chunk.row_count as nat),
    ensures
        ({
            let t = chunk.types[j];
            let code = decimal(t.id.spec_code() as nat);
            chunk_form(chunk) == Err::<DataChunkView, _>(
                if !type_in_order(t) || !storable(t) {
                    QuackErrorView::UnsupportedType("logical type "@ + code)
                } else if chunk.columns[j].len() != chunk.row_count {
                    QuackErrorView::Protocol("column does not have one value for each row"@)
                } else {
                    QuackErrorView::Protocol("value does not fit logical type "@ + code)
                },
            )
        }),
{
    lemma_first_misfit(chunk.types, chunk.columns, chunk.row_count as nat, 0, j);
}

} // verus!
