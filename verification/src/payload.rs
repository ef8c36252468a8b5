//! Chunks inside messages: wrapped into an object by protocol version 1, as raw
//! bytes by version 3.

use vstd::prelude::*;

use crate::binary::blob;
use crate::binary::expect_end;
use crate::binary::expect_field;
use crate::binary::field_id;
use crate::binary::items_bytes;
use crate::binary::lemma_followed3;
use crate::binary::lemma_items_bytes_push;
use crate::binary::lemma_joined_bytes;
use crate::binary::lemma_prepended;
use crate::binary::lemma_read_blob;
use crate::binary::lemma_read_field;
use crate::binary::lemma_read_items;
use crate::binary::lemma_read_items_step;
use crate::binary::lemma_read_uleb;
use crate::binary::lemma_written2;
use crate::binary::lemma_written3;
use crate::binary::object_end;
use crate::binary::prepended;
use crate::binary::read_blob;
use crate::binary::read_items;
use crate::binary::read_uleb;
use crate::binary::reads_view;
use crate::binary::trailing_bytes;
use crate::binary::uleb;
use crate::binary::BinaryReader;
use crate::binary::BinaryWriter;
use crate::binary::ReadResult;
use crate::binary::END_OF_OBJECT;
use crate::chunk::chunk_bytes;
use crate::chunk::chunk_countable;
use crate::chunk::chunk_form;
use crate::chunk::chunk_in_form;
use crate::chunk::decode_data_chunk;
use crate::chunk::encode_data_chunk;
use crate::chunk::law_chunk_is_read_back;
use crate::chunk::lemma_chunk_form;
use crate::chunk::read_chunk;
use crate::constants::QUACK_V1;
use crate::errors::QuackError;
use crate::errors::QuackErrorView;
use crate::types::views;
use crate::value::DataChunk;
use crate::value::DataChunkView;

verus! {

/// The field of a wrapped chunk.
pub const WRAPPED_CHUNK: u16 = 300;

/// The bytes of a chunk inside a message.
#[verifier::opaque]
pub open spec fn payload_bytes(chunk: DataChunkView, version: u64) -> Seq<u8> {
    if version == QUACK_V1 {
        field_id(WRAPPED_CHUNK) + (chunk_bytes(chunk) + object_end())
    } else {
        blob(chunk_bytes(chunk))
    }
}

/// A chunk inside a message.
#[verifier::opaque]
pub open spec fn read_payload(b: Seq<u8>, version: u64) -> ReadResult<DataChunkView> {
    if version == QUACK_V1 {
        match expect_field(b, WRAPPED_CHUNK) {
            Err(error) => Err(error),
            Ok((_, b)) => match read_chunk(b) {
                Err(error) => Err(error),
                Ok((chunk, b)) => match expect_end(b) {
                    Err(error) => Err(error),
                    Ok((_, rest)) => Ok((chunk, rest)),
                },
            },
        }
    } else {
        match read_blob(b) {
            Err(error) => Err(error),
            Ok((bytes, rest)) => match read_chunk(bytes) {
                Err(error) => Err(error),
                Ok((chunk, after)) => if after.len() == 0 {
                    Ok((chunk, rest))
                } else {
                    Err(trailing_bytes(after.len()))
                },
            },
        }
    }
}

/// Whether a chunk can be counted, with its bytes.
#[verifier::opaque]
pub open spec fn payload_countable(chunk: DataChunkView) -> bool {
    chunk_countable(chunk) && chunk_bytes(chunk).len() <= u64::MAX
}

/// Whether a chunk is in form and can be counted.
#[verifier::opaque]
pub open spec fn payload_in_form(chunk: DataChunkView) -> bool {
    chunk_in_form(chunk) && payload_countable(chunk)
}

/// The form of a chunk is in form.
pub proof fn lemma_payload_in_form(chunk: DataChunkView)
    requires
        chunk_form(chunk) is Ok,
        payload_countable(chunk_form(chunk)->Ok_0),
    ensures
        payload_in_form(chunk_form(chunk)->Ok_0),
{
    reveal(payload_in_form);
    lemma_chunk_form(chunk);
}

/// A chunk inside a message is read back.
pub proof fn lemma_read_payload(chunk: DataChunkView, version: u64, rest: Seq<u8>)
    requires
        payload_in_form(chunk),
    ensures
        read_payload(payload_bytes(chunk, version) + rest, version) == Ok::<
            (DataChunkView, Seq<u8>),
            QuackErrorView,
        >((chunk, rest)),
{
    reveal(payload_bytes);
    reveal(read_payload);
    reveal(payload_in_form);
    reveal(payload_countable);
    let bytes = chunk_bytes(chunk);
    if version == QUACK_V1 {
        let end = object_end();
        lemma_followed3(field_id(WRAPPED_CHUNK), bytes, end, rest);
        lemma_read_field(WRAPPED_CHUNK, bytes + (end + rest));
        law_chunk_is_read_back(chunk, end + rest);
        lemma_read_field(END_OF_OBJECT, rest);
    } else {
        lemma_read_blob(bytes, rest);
        law_chunk_is_read_back(chunk, seq![]);
        assert(bytes + seq![] =~= bytes);
    }
}

/// How each chunk is written.
pub open spec fn payload_writer(version: u64) -> spec_fn(DataChunkView) -> Seq<u8> {
    |chunk: DataChunkView| payload_bytes(chunk, version)
}

/// How each chunk is read.
pub open spec fn payload_reader(version: u64) -> spec_fn(Seq<u8>) -> ReadResult<DataChunkView> {
    |b: Seq<u8>| read_payload(b, version)
}

/// The bytes of a list of chunks.
pub open spec fn results_bytes(chunks: Seq<DataChunkView>, version: u64) -> Seq<u8> {
    uleb(chunks.len()) + items_bytes(chunks, payload_writer(version))
}

/// A list of chunks.
pub open spec fn read_results(b: Seq<u8>, version: u64) -> ReadResult<Seq<DataChunkView>> {
    match read_uleb(b) {
        Err(error) => Err(error),
        Ok((count, b)) => read_items(b, count as nat, payload_reader(version)),
    }
}

/// Whether the chunks of a list can be counted.
pub open spec fn results_countable(chunks: Seq<DataChunkView>) -> bool {
    &&& chunks.len() <= u64::MAX
    &&& forall|i: int| 0 <= i < chunks.len() ==> payload_countable(#[trigger] chunks[i])
}

/// Whether the chunks of a list are in form and can be counted.
pub open spec fn results_in_form(chunks: Seq<DataChunkView>) -> bool {
    &&& chunks.len() <= u64::MAX
    &&& forall|i: int| 0 <= i < chunks.len() ==> payload_in_form(#[trigger] chunks[i])
}

/// A list of chunks is read back.
pub proof fn lemma_read_results(chunks: Seq<DataChunkView>, version: u64, rest: Seq<u8>)
    requires
        results_in_form(chunks),
    ensures
        read_results(results_bytes(chunks, version) + rest, version) == Ok::<
            (Seq<DataChunkView>, Seq<u8>),
            QuackErrorView,
        >((chunks, rest)),
{
    let list = items_bytes(chunks, payload_writer(version));
    lemma_joined_bytes(uleb(chunks.len()), list, rest);
    lemma_read_uleb(chunks.len() as u64, list + rest);
    assert forall|i: int, after: Seq<u8>| 0 <= i < chunks.len() implies #[trigger] payload_reader(
        version,
    )(payload_writer(version)(chunks[i]) + after) == Ok::<
        (DataChunkView, Seq<u8>),
        QuackErrorView,
    >((chunks[i], after)) by {
        lemma_read_payload(chunks[i], version, after);
    }
    lemma_read_items(chunks, rest, payload_writer(version), payload_reader(version));
}

/// Chunks in the form that their types give them, from one of them on, or what
/// is wrong with the first that is not in order.
pub open spec fn results_form(chunks: Seq<DataChunkView>, from: nat) -> Result<
    Seq<DataChunkView>,
    QuackErrorView,
>
    decreases chunks.len() - from,
{
    if from >= chunks.len() {
        Ok(seq![])
    } else {
        match chunk_form(chunks[from as int]) {
            Err(error) => Err(error),
            Ok(chunk) => match results_form(chunks, from + 1) {
                Err(error) => Err(error),
                Ok(rest) => Ok(seq![chunk] + rest),
            },
        }
    }
}

/// The form of a list of chunks holds the form of each.
pub proof fn lemma_results_form(chunks: Seq<DataChunkView>, from: nat)
    requires
        results_form(chunks, from) is Ok,
        from <= chunks.len(),
    ensures
        results_form(chunks, from)->Ok_0.len() == chunks.len() - from,
        forall|i: int|
            from <= i < chunks.len() ==> chunk_form(#[trigger] chunks[i]) == Ok::<
                _,
                QuackErrorView,
            >(results_form(chunks, from)->Ok_0[i - from]),
    decreases chunks.len() - from,
{
    if from < chunks.len() {
        lemma_results_form(chunks, from + 1);
        let rest = results_form(chunks, from + 1)->Ok_0;
        let all = results_form(chunks, from)->Ok_0;
        assert forall|i: int| from <= i < chunks.len() implies chunk_form(#[trigger] chunks[i])
            == Ok::<_, QuackErrorView>(all[i - from]) by {
            if i > from {
                assert(all[i - from] == rest[i - from - 1]);
            }
        }
    }
}

/// The form of a list of chunks is in form.
pub proof fn lemma_results_in_form(chunks: Seq<DataChunkView>)
    requires
        results_form(chunks, 0) is Ok,
        results_countable(results_form(chunks, 0)->Ok_0),
    ensures
        results_in_form(results_form(chunks, 0)->Ok_0),
{
    lemma_results_form(chunks, 0);
    let forms = results_form(chunks, 0)->Ok_0;
    assert forall|i: int| 0 <= i < forms.len() implies payload_in_form(#[trigger] forms[i]) by {
        assert(chunk_form(chunks[i]) == Ok::<_, QuackErrorView>(forms[i]));
        assert(payload_countable(forms[i]));
        lemma_payload_in_form(chunks[i]);
    }
}

// ---------------------------------------------------------------------------
// Writing and reading
// ---------------------------------------------------------------------------
/// Writes a chunk inside a message.
pub fn write_payload(writer: &mut BinaryWriter, chunk: &DataChunk, version: u64) -> (result: Result<
    (),
    QuackError,
>)
    ensures
        match result {
            Ok(_) => chunk_form(chunk@) is Ok && final(writer)@ == old(writer)@ + payload_bytes(
                chunk_form(chunk@)->Ok_0,
                version,
            ),
            Err(error) => chunk_form(chunk@) == Err::<DataChunkView, _>(error@),
        },
{
    reveal(payload_bytes);
    if version == QUACK_V1 {
        writer.write_field(WRAPPED_CHUNK);
        if let Err(error) = encode_data_chunk(writer, chunk) {
            return Err(error);
        }
        writer.end_object();
        proof {
            lemma_written3(
                old(writer)@,
                field_id(WRAPPED_CHUNK),
                chunk_bytes(chunk_form(chunk@)->Ok_0),
                object_end(),
            );
        }
    } else {
        let mut inner = BinaryWriter::new();
        if let Err(error) = encode_data_chunk(&mut inner, chunk) {
            return Err(error);
        }
        let bytes = inner.into_bytes();
        assert(bytes@ =~= chunk_bytes(chunk_form(chunk@)->Ok_0));
        writer.write_blob(bytes.as_slice());
    }
    Ok(())
}

/// What the form of the remaining chunks makes of all of them.
pub open spec fn after_first_chunks(
    first: Seq<DataChunkView>,
    rest: Result<Seq<DataChunkView>, QuackErrorView>,
) -> Result<Seq<DataChunkView>, QuackErrorView> {
    match rest {
        Ok(rest) => Ok(first + rest),
        Err(error) => Err(error),
    }
}

/// Writes a list of chunks.
pub fn write_results(writer: &mut BinaryWriter, chunks: &Vec<DataChunk>, version: u64) -> (result:
    Result<(), QuackError>)
    ensures
        match result {
            Ok(_) => results_form(views(chunks@), 0) is Ok && final(writer)@ == old(writer)@
                + results_bytes(results_form(views(chunks@), 0)->Ok_0, version),
            Err(error) => results_form(views(chunks@), 0) == Err::<Seq<DataChunkView>, _>(error@),
        },
{
    let ghost cs = views(chunks@);
    let ghost whole = results_form(cs, 0);
    let count: usize = chunks.len();
    writer.write_uleb(count as u64);
    let ghost before = writer@;
    let ghost mut done: Seq<DataChunkView> = seq![];
    proof {
        assert(items_bytes(done, payload_writer(version)) =~= seq![]);
        assert(before + seq![] =~= before);
        if let Ok(rest) = whole {
            assert(done + rest =~= rest);
        }
    }
    let mut i: usize = 0;
    while i < count
        invariant
            i <= count,
            count == chunks@.len(),
            cs == views(chunks@),
            whole == results_form(cs, 0),
            whole == after_first_chunks(done, results_form(cs, i as nat)),
            writer@ == before + items_bytes(done, payload_writer(version)),
        decreases count - i,
    {
        assert(cs[i as int] == chunks@[i as int]@);
        let ghost written = writer@;
        if let Err(error) = write_payload(writer, &chunks[i], version) {
            return Err(error);
        }
        proof {
            let form = chunk_form(cs[i as int])->Ok_0;
            if let Ok(rest) = results_form(cs, (i + 1) as nat) {
                assert(done + (seq![form] + rest) =~= done.push(form) + rest);
            }
            lemma_items_bytes_push(done, form, payload_writer(version));
            lemma_joined_bytes(
                before,
                items_bytes(done, payload_writer(version)),
                payload_bytes(form, version),
            );
            done = done.push(form);
        }
        i += 1;
    }
    proof {
        assert(done + seq![] =~= done);
        lemma_results_form(cs, 0);
        lemma_written2(
            old(writer)@,
            uleb(count as nat),
            items_bytes(done, payload_writer(version)),
        );
    }
    Ok(())
}

/// Reads a chunk inside a message.
pub fn decode_payload(reader: &mut BinaryReader, version: u64) -> (chunk: Result<
    DataChunk,
    QuackError,
>)
    ensures
        reads_view(chunk, final(reader)@, read_payload(old(reader)@, version)),
{
    reveal(read_payload);
    if version == QUACK_V1 {
        if let Err(error) = reader.read_required_field(WRAPPED_CHUNK) {
            return Err(error);
        }
        let chunk = match decode_data_chunk(reader) {
            Ok(chunk) => chunk,
            Err(error) => {
                return Err(error);
            },
        };
        if let Err(error) = reader.read_object_end() {
            return Err(error);
        }
        Ok(chunk)
    } else {
        let bytes = match reader.read_blob() {
            Ok(bytes) => bytes,
            Err(error) => {
                return Err(error);
            },
        };
        let mut inner = BinaryReader::new(bytes.as_slice());
        let chunk = match decode_data_chunk(&mut inner) {
            Ok(chunk) => chunk,
            Err(error) => {
                return Err(error);
            },
        };
        if let Err(error) = inner.assert_eof() {
            return Err(error);
        }
        Ok(chunk)
    }
}

/// Reads a list of chunks.
pub fn decode_results(reader: &mut BinaryReader, version: u64) -> (chunks: Result<
    Vec<DataChunk>,
    QuackError,
>)
    ensures
        match chunks {
            Ok(chunks) => read_results(old(reader)@, version) == Ok::<
                (Seq<DataChunkView>, Seq<u8>),
                QuackErrorView,
            >((views(chunks@), final(reader)@)),
            Err(error) => read_results(old(reader)@, version) == Err::<
                (Seq<DataChunkView>, Seq<u8>),
                QuackErrorView,
            >(error@),
        },
{
    let count: u64 = match reader.read_uleb_u64() {
        Ok(count) => count,
        Err(error) => {
            return Err(error);
        },
    };
    let ghost start = reader@;
    let ghost read = payload_reader(version);
    let mut chunks: Vec<DataChunk> = Vec::new();
    let mut left: u64 = count;
    proof {
        assert(views(chunks@) =~= seq![]);
        lemma_prepended(views(chunks@), arbitrary(), read_items(start, count as nat, read));
    }
    while left > 0
        invariant
            left <= count,
            read == payload_reader(version),
            read_uleb(old(reader)@) == Ok::<(u64, Seq<u8>), QuackErrorView>((count, start)),
            read_items(start, count as nat, read) == prepended(
                views(chunks@),
                read_items(reader@, left as nat, read),
            ),
        decreases left,
    {
        let ghost done = views(chunks@);
        proof {
            lemma_read_items_step(done, reader@, left as nat, read);
        }
        match decode_payload(reader, version) {
            Err(error) => {
                return Err(error);
            },
            Ok(chunk) => {
                chunks.push(chunk);
                assert(views(chunks@) =~= done.push(chunk@));
                left -= 1;
            },
        }
    }
    assert(views(chunks@) + seq![] =~= views(chunks@));
    Ok(chunks)
}

/// Chunks can be sent exactly if each of them can.
pub proof fn lemma_results_form_exactly(chunks: Seq<DataChunkView>, from: nat)
    requires
        from <= chunks.len(),
    ensures
        results_form(chunks, from) is Ok <==> forall|i: int|
            from <= i < chunks.len() ==> chunk_form(#[trigger] chunks[i]) is Ok,
    decreases chunks.len() - from,
{
    if from < chunks.len() {
        lemma_results_form_exactly(chunks, from + 1);
        if results_form(chunks, from) is Ok {
            assert(chunk_form(chunks[from as int]) is Ok);
        }
    }
}

} // verus!
