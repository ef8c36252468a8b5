//! Fields of objects, required and optional ones.

use vstd::prelude::*;

use crate::binary::expect_field;
use crate::binary::field_id;
use crate::binary::flag;
use crate::binary::has_field;
use crate::binary::huge_int_bytes;
use crate::binary::items_bytes;
use crate::binary::lemma_items_bytes_push;
use crate::binary::lemma_joined_bytes;
use crate::binary::lemma_prepended;
use crate::binary::lemma_read_field;
use crate::binary::lemma_read_items;
use crate::binary::lemma_read_items_step;
use crate::binary::lemma_read_text;
use crate::binary::lemma_read_uleb;
use crate::binary::lemma_written2;
use crate::binary::prepended;
use crate::binary::read_flag;
use crate::binary::read_huge_int;
use crate::binary::read_items;
use crate::binary::read_uleb;
use crate::binary::reads;
use crate::binary::text_blob;
use crate::binary::uleb;
use crate::binary::unsigned_value;
use crate::binary::BinaryReader;
use crate::binary::BinaryWriter;
use crate::binary::HugeIntParts;
use crate::binary::ReadResult;
use crate::errors::QuackError;
use crate::errors::QuackErrorView;
use crate::typecodec::text_fits;
use crate::types::option_view;
use crate::types::views;
use crate::vector::text_reader;
use crate::vector::text_writer;

verus! {

/// How a number is written.
pub open spec fn uleb_writer() -> spec_fn(u64) -> Seq<u8> {
    |n: u64| uleb(n as nat)
}

/// How a number is read.
pub open spec fn uleb_reader() -> spec_fn(Seq<u8>) -> ReadResult<u64> {
    |b: Seq<u8>| read_uleb(b)
}

/// How a huge integer is written.
pub open spec fn huge_int_writer() -> spec_fn(HugeIntParts) -> Seq<u8> {
    |parts: HugeIntParts| huge_int_bytes(parts)
}

/// How a huge integer is read.
pub open spec fn huge_int_reader() -> spec_fn(Seq<u8>) -> ReadResult<HugeIntParts> {
    |b: Seq<u8>| read_huge_int(b)
}

/// How a truth value is written.
pub open spec fn flag_writer() -> spec_fn(bool) -> Seq<u8> {
    |b: bool| flag(b)
}

/// How a truth value is read.
pub open spec fn flag_reader() -> spec_fn(Seq<u8>) -> ReadResult<bool> {
    |b: Seq<u8>| read_flag(b)
}

/// The bytes of a field.
pub open spec fn field_bytes<T>(id: u16, x: T, bytes: spec_fn(T) -> Seq<u8>) -> Seq<u8> {
    field_id(id) + bytes(x)
}

/// The bytes of a field that may be left out.
pub open spec fn optional_bytes<T>(
    id: u16,
    x: Option<T>,
    bytes: spec_fn(T) -> Seq<u8>,
) -> Seq<u8> {
    match x {
        Some(x) => field_id(id) + bytes(x),
        None => seq![],
    }
}

/// A field.
pub open spec fn read_field<T>(
    b: Seq<u8>,
    id: u16,
    read: spec_fn(Seq<u8>) -> ReadResult<T>,
) -> ReadResult<T> {
    match expect_field(b, id) {
        Err(error) => Err(error),
        Ok((_, b)) => read(b),
    }
}

/// A field that may be left out.
pub open spec fn read_optional<T>(
    b: Seq<u8>,
    id: u16,
    read: spec_fn(Seq<u8>) -> ReadResult<T>,
) -> ReadResult<Option<T>> {
    if has_field(b, id) {
        match read(b.skip(2)) {
            Err(error) => Err(error),
            Ok((x, rest)) => Ok((Some(x), rest)),
        }
    } else {
        Ok((None, b))
    }
}

/// Whether the field that comes next has a greater number.
pub open spec fn begins_beyond(b: Seq<u8>, id: u16) -> bool {
    b.len() >= 2 && unsigned_value(b.take(2)) > id
}

/// A field with a greater number begins beyond.
pub proof fn lemma_field_begins(id: u16, bytes: Seq<u8>, rest: Seq<u8>, before: u16)
    requires
        before < id,
    ensures
        begins_beyond((field_id(id) + bytes) + rest, before),
        begins_beyond(field_id(id) + rest, before),
{
    lemma_joined_bytes(field_id(id), bytes, rest);
    lemma_read_field(id, bytes + rest);
    lemma_read_field(id, rest);
    assert(has_field(field_id(id) + (bytes + rest), id));
    assert(has_field(field_id(id) + rest, id));
}

/// A field with a greater number that may be left out begins beyond, if what
/// follows it does.
pub proof fn lemma_optional_begins<T>(
    id: u16,
    x: Option<T>,
    bytes: spec_fn(T) -> Seq<u8>,
    rest: Seq<u8>,
    before: u16,
)
    requires
        before < id,
        begins_beyond(rest, before),
    ensures
        begins_beyond(optional_bytes(id, x, bytes) + rest, before),
{
    match x {
        Some(x) => {
            lemma_field_begins(id, bytes(x), rest, before);
        },
        None => {
            assert(optional_bytes(id, x, bytes) + rest =~= rest);
        },
    }
}

/// A field is read back if its content is.
pub proof fn lemma_read_required<T>(
    id: u16,
    x: T,
    bytes: spec_fn(T) -> Seq<u8>,
    read: spec_fn(Seq<u8>) -> ReadResult<T>,
    rest: Seq<u8>,
)
    requires
        read(bytes(x) + rest) == Ok::<(T, Seq<u8>), QuackErrorView>((x, rest)),
    ensures
        read_field(field_bytes(id, x, bytes) + rest, id, read) == Ok::<
            (T, Seq<u8>),
            QuackErrorView,
        >((x, rest)),
{
    lemma_joined_bytes(field_id(id), bytes(x), rest);
    lemma_read_field(id, bytes(x) + rest);
}

/// A field that may be left out is read back if its content is, and if what
/// follows begins beyond it.
pub proof fn lemma_read_optional<T>(
    id: u16,
    x: Option<T>,
    bytes: spec_fn(T) -> Seq<u8>,
    read: spec_fn(Seq<u8>) -> ReadResult<T>,
    rest: Seq<u8>,
)
    requires
        x matches Some(x) ==> read(bytes(x) + rest) == Ok::<(T, Seq<u8>), QuackErrorView>(
            (x, rest),
        ),
        begins_beyond(rest, id),
    ensures
        read_optional(optional_bytes(id, x, bytes) + rest, id, read) == Ok::<
            (Option<T>, Seq<u8>),
            QuackErrorView,
        >((x, rest)),
{
    match x {
        Some(x) => {
            lemma_joined_bytes(field_id(id), bytes(x), rest);
            lemma_read_field(id, bytes(x) + rest);
            assert(has_field(field_id(id) + (bytes(x) + rest), id));
        },
        None => {
            assert(optional_bytes(id, x, bytes) + rest =~= rest);
        },
    }
}

/// A list of texts.
pub open spec fn names_bytes(names: Seq<Seq<char>>) -> Seq<u8> {
    uleb(names.len()) + items_bytes(names, text_writer())
}

/// A list of texts.
pub open spec fn read_names(b: Seq<u8>) -> ReadResult<Seq<Seq<char>>> {
    match read_uleb(b) {
        Err(error) => Err(error),
        Ok((count, b)) => read_items(b, count as nat, text_reader()),
    }
}

/// A list of texts is read back.
pub proof fn lemma_read_names(names: Seq<Seq<char>>, rest: Seq<u8>)
    requires
        names.len() <= u64::MAX,
        forall|i: int| 0 <= i < names.len() ==> text_fits(#[trigger] names[i]),
    ensures
        read_names(names_bytes(names) + rest) == Ok::<(Seq<Seq<char>>, Seq<u8>), QuackErrorView>(
            (names, rest),
        ),
{
    let list = items_bytes(names, text_writer());
    lemma_joined_bytes(uleb(names.len()), list, rest);
    lemma_read_uleb(names.len() as u64, list + rest);
    assert forall|i: int, after: Seq<u8>| 0 <= i < names.len() implies #[trigger] text_reader()(
        text_writer()(names[i]) + after,
    ) == Ok::<(Seq<char>, Seq<u8>), QuackErrorView>((names[i], after)) by {
        lemma_read_text(names[i], after);
    }
    lemma_read_items(names, rest, text_writer(), text_reader());
}

// ---------------------------------------------------------------------------
// Writing and reading
// ---------------------------------------------------------------------------
/// Writes a field of text that may be left out.
pub fn write_optional_text(writer: &mut BinaryWriter, id: u16, text: &Option<String>)
    ensures
        final(writer)@ == old(writer)@ + optional_bytes(id, option_view(*text), text_writer()),
{
    match text {
        Some(text) => {
            writer.write_field(id);
            writer.write_string(text.as_str());
            proof {
                lemma_written2(old(writer)@, field_id(id), text_blob(text@));
            }
        },
        None => {
            assert(writer@ + seq![] =~= writer@);
        },
    }
}

/// Writes a number in a field that may be left out.
pub fn write_optional_number(writer: &mut BinaryWriter, id: u16, n: Option<u64>)
    ensures
        final(writer)@ == old(writer)@ + optional_bytes(id, n, uleb_writer()),
{
    match n {
        Some(n) => {
            writer.write_field(id);
            writer.write_uleb(n);
            proof {
                lemma_written2(old(writer)@, field_id(id), uleb(n as nat));
            }
        },
        None => {
            assert(writer@ + seq![] =~= writer@);
        },
    }
}

/// Writes a huge integer in a field that may be left out.
pub fn write_optional_huge_int(writer: &mut BinaryWriter, id: u16, parts: Option<HugeIntParts>)
    ensures
        final(writer)@ == old(writer)@ + optional_bytes(id, parts, huge_int_writer()),
{
    match parts {
        Some(parts) => {
            writer.write_field(id);
            writer.write_huge_int_parts(parts);
            proof {
                lemma_written2(old(writer)@, field_id(id), huge_int_bytes(parts));
            }
        },
        None => {
            assert(writer@ + seq![] =~= writer@);
        },
    }
}

/// Writes a field of text.
pub fn write_text(writer: &mut BinaryWriter, id: u16, text: &str)
    ensures
        final(writer)@ == old(writer)@ + field_bytes(id, text@, text_writer()),
{
    writer.write_field(id);
    writer.write_string(text);
    proof {
        lemma_written2(old(writer)@, field_id(id), text_blob(text@));
    }
}

/// Writes a number in a field.
pub fn write_number(writer: &mut BinaryWriter, id: u16, n: u64)
    ensures
        final(writer)@ == old(writer)@ + field_bytes(id, n, uleb_writer()),
{
    writer.write_field(id);
    writer.write_uleb(n);
    proof {
        lemma_written2(old(writer)@, field_id(id), uleb(n as nat));
    }
}

/// Writes a huge integer in a field.
pub fn write_huge_int(writer: &mut BinaryWriter, id: u16, parts: HugeIntParts)
    ensures
        final(writer)@ == old(writer)@ + field_bytes(id, parts, huge_int_writer()),
{
    writer.write_field(id);
    writer.write_huge_int_parts(parts);
    proof {
        lemma_written2(old(writer)@, field_id(id), huge_int_bytes(parts));
    }
}

/// Writes a truth value in a field.
pub fn write_flag(writer: &mut BinaryWriter, id: u16, b: bool)
    ensures
        final(writer)@ == old(writer)@ + field_bytes(id, b, flag_writer()),
{
    writer.write_field(id);
    writer.write_bool(b);
    proof {
        lemma_written2(old(writer)@, field_id(id), flag(b));
    }
}

/// Writes a list of texts.
pub fn write_names(writer: &mut BinaryWriter, names: &Vec<String>)
    ensures
        final(writer)@ == old(writer)@ + names_bytes(views(names@)),
{
    let ghost ns = views(names@);
    let count: usize = names.len();
    writer.write_uleb(count as u64);
    let ghost before = writer@;
    assert(items_bytes(ns.take(0), text_writer()) =~= seq![]);
    assert(before + seq![] =~= before);
    for i in 0..count
        invariant
            count == names@.len(),
            ns == views(names@),
            writer@ == before + items_bytes(ns.take(i as int), text_writer()),
    {
        writer.write_string(names[i].as_str());
        proof {
            lemma_items_bytes_push(ns.take(i as int), ns[i as int], text_writer());
            assert(ns.take(i + 1) =~= ns.take(i as int).push(ns[i as int]));
            lemma_joined_bytes(
                before,
                items_bytes(ns.take(i as int), text_writer()),
                text_blob(ns[i as int]),
            );
        }
    }
    proof {
        assert(ns.take(count as int) =~= ns);
        lemma_written2(old(writer)@, uleb(count as nat), items_bytes(ns, text_writer()));
    }
}

/// Whether reading an optional text did what it should.
pub open spec fn reads_optional_text(
    outcome: Result<Option<String>, QuackError>,
    after: Seq<u8>,
    expected: ReadResult<Option<Seq<char>>>,
) -> bool {
    match outcome {
        Ok(text) => expected == Ok::<(Option<Seq<char>>, Seq<u8>), QuackErrorView>(
            (option_view(text), after),
        ),
        Err(error) => expected == Err::<(Option<Seq<char>>, Seq<u8>), QuackErrorView>(error@),
    }
}

/// Reads a field of text that may be left out.
pub fn decode_optional_text(reader: &mut BinaryReader, id: u16) -> (text: Result<
    Option<String>,
    QuackError,
>)
    ensures
        reads_optional_text(
            text,
            final(reader)@,
            read_optional(old(reader)@, id, text_reader()),
        ),
{
    if !reader.read_optional_field(id) {
        return Ok(None);
    }
    match reader.read_string() {
        Ok(text) => Ok(Some(text)),
        Err(error) => Err(error),
    }
}

/// Reads a number in a field that may be left out.
pub fn decode_optional_number(reader: &mut BinaryReader, id: u16) -> (n: Result<
    Option<u64>,
    QuackError,
>)
    ensures
        reads(n, final(reader)@, read_optional(old(reader)@, id, uleb_reader())),
{
    if !reader.read_optional_field(id) {
        return Ok(None);
    }
    match reader.read_uleb_u64() {
        Ok(n) => Ok(Some(n)),
        Err(error) => Err(error),
    }
}

/// Reads a huge integer in a field that may be left out.
pub fn decode_optional_huge_int(reader: &mut BinaryReader, id: u16) -> (parts: Result<
    Option<HugeIntParts>,
    QuackError,
>)
    ensures
        reads(parts, final(reader)@, read_optional(old(reader)@, id, huge_int_reader())),
{
    if !reader.read_optional_field(id) {
        return Ok(None);
    }
    match reader.read_huge_int_parts() {
        Ok(parts) => Ok(Some(parts)),
        Err(error) => Err(error),
    }
}

/// Reads a field of text.
pub fn decode_text(reader: &mut BinaryReader, id: u16) -> (text: Result<String, QuackError>)
    ensures
        crate::binary::reads_view(
            text,
            final(reader)@,
            read_field(old(reader)@, id, text_reader()),
        ),
{
    match reader.read_required_field(id) {
        Ok(_) => reader.read_string(),
        Err(error) => Err(error),
    }
}

/// Reads a number in a field.
pub fn decode_number_field(reader: &mut BinaryReader, id: u16) -> (n: Result<u64, QuackError>)
    ensures
        reads(n, final(reader)@, read_field(old(reader)@, id, uleb_reader())),
{
    match reader.read_required_field(id) {
        Ok(_) => reader.read_uleb_u64(),
        Err(error) => Err(error),
    }
}

/// Reads a huge integer in a field.
pub fn decode_huge_int(reader: &mut BinaryReader, id: u16) -> (parts: Result<
    HugeIntParts,
    QuackError,
>)
    ensures
        reads(parts, final(reader)@, read_field(old(reader)@, id, huge_int_reader())),
{
    match reader.read_required_field(id) {
        Ok(_) => reader.read_huge_int_parts(),
        Err(error) => Err(error),
    }
}

/// Reads a truth value in a field.
pub fn decode_flag(reader: &mut BinaryReader, id: u16) -> (b: Result<bool, QuackError>)
    ensures
        reads(b, final(reader)@, read_field(old(reader)@, id, flag_reader())),
{
    match reader.read_required_field(id) {
        Ok(_) => reader.read_bool(),
        Err(error) => Err(error),
    }
}

/// Reads a list of texts.
pub fn decode_names(reader: &mut BinaryReader) -> (names: Result<Vec<String>, QuackError>)
    ensures
        match names {
            Ok(names) => read_names(old(reader)@) == Ok::<
                (Seq<Seq<char>>, Seq<u8>),
                QuackErrorView,
            >((views(names@), final(reader)@)),
            Err(error) => read_names(old(reader)@) == Err::<
                (Seq<Seq<char>>, Seq<u8>),
                QuackErrorView,
            >(error@),
        },
{
    let count: u64 = match reader.read_uleb_u64() {
        Ok(count) => count,
        Err(error) => {
            return Err(error);
        },
    };
    let ghost start = reader@;
    let mut names: Vec<String> = Vec::new();
    let mut left: u64 = count;
    proof {
        assert(views(names@) =~= seq![]);
        lemma_prepended(
            views(names@),
            seq![],
            read_items(start, count as nat, text_reader()),
        );
    }
    while left > 0
        invariant
            left <= count,
            read_uleb(old(reader)@) == Ok::<(u64, Seq<u8>), QuackErrorView>((count, start)),
            read_items(start, count as nat, text_reader()) == prepended(
                views(names@),
                read_items(reader@, left as nat, text_reader()),
            ),
        decreases left,
    {
        let ghost done = views(names@);
        proof {
            lemma_read_items_step(done, reader@, left as nat, text_reader());
        }
        match reader.read_string() {
            Err(error) => {
                return Err(error);
            },
            Ok(name) => {
                names.push(name);
                assert(views(names@) =~= done.push(name@));
                left -= 1;
            },
        }
    }
    assert(views(names@) + seq![] =~= views(names@));
    Ok(names)
}

} // verus!
