//! Reading a result: the answer to the statement, and the batches that follow.

use vstd::prelude::*;

use crate::binary::HugeIntParts;
use crate::constants::QUACK_V3;
use crate::errors::QuackError;
use crate::errors::QuackErrorView;
use crate::handshake::outcome_view;
use crate::lease::ConnectionState;
use crate::messages::QuackMessage;
use crate::messages::QuackMessageView;
use crate::session::not_connected;
use crate::session::SessionRequest;
use crate::session::Connection;
use crate::text::law_decimal_notation;
use crate::text::writes_number;
use crate::text::decimal;
use crate::text::decimal_text;
use crate::text::joined;
use crate::types::views;
use crate::types::ColumnDefinition;
use crate::types::ColumnDefinitionView;
use crate::types::LogicalType;
use crate::types::LogicalTypeView;
use crate::value::cloned_names;
use crate::value::DataChunk;
use crate::value::DataChunkView;

verus! {

/// Chunks, each with the same column names attached.
pub open spec fn all_named(chunks: Seq<DataChunkView>, names: Seq<Seq<char>>) -> Seq<DataChunkView> {
    Seq::new(chunks.len(), |i: int| chunks[i].named(names))
}

/// Attaches column names to every chunk.
pub fn attach_column_names(chunks: &mut Vec<DataChunk>, names: &Vec<String>)
    ensures
        views(final(chunks)@) == all_named(views(old(chunks)@), views(names@)),
{
    let count: usize = chunks.len();
    for i in 0..count
        invariant
            count == chunks.len(),
            chunks@.len() == old(chunks)@.len(),
            forall|k: int|
                0 <= k < i ==> (#[trigger] chunks@[k])@ == old(chunks)@[k]@.named(views(names@)),
            forall|k: int| i <= k < chunks.len() ==> #[trigger] chunks@[k] == old(chunks)@[k],
    {
        chunks[i].column_names = Some(cloned_names(names));
    }
    assert(views(chunks@) =~= all_named(views(old(chunks)@), views(names@)));
}

/// Pairs of names and types, as far as there are both.
pub open spec fn columns_of(
    names: Seq<Seq<char>>,
    types: Seq<LogicalTypeView>,
) -> Seq<ColumnDefinitionView> {
    Seq::new(
        if names.len() < types.len() {
            names.len()
        } else {
            types.len()
        },
        |i: int| ColumnDefinitionView { name: names[i], logical_type: types[i] },
    )
}

/// The names of columns.
pub open spec fn column_names(columns: Seq<ColumnDefinitionView>) -> Seq<Seq<char>> {
    Seq::new(columns.len(), |i: int| columns[i].name)
}

fn zipped(names: &Vec<String>, types: &Vec<LogicalType>) -> (columns: Vec<ColumnDefinition>)
    ensures
        views(columns@) == columns_of(views(names@), views(types@)),
{
    let count: usize = if names.len() < types.len() {
        names.len()
    } else {
        types.len()
    };
    let mut columns: Vec<ColumnDefinition> = Vec::new();
    for i in 0..count
        invariant
            count <= names.len(),
            count <= types.len(),
            columns.len() == i,
            forall|k: int|
                0 <= k < i ==> (#[trigger] columns@[k])@ == (ColumnDefinitionView {
                    name: names@[k]@,
                    logical_type: types@[k]@,
                }),
    {
        columns.push(
            ColumnDefinition { name: names[i].clone(), logical_type: types[i].clone() },
        );
    }
    assert(views(columns@) =~= columns_of(views(names@), views(types@)));
    columns
}

fn names_of(columns: &Vec<ColumnDefinition>) -> (names: Vec<String>)
    ensures
        views(names@) == column_names(views(columns@)),
{
    let mut names: Vec<String> = Vec::new();
    for i in 0..columns.len()
        invariant
            names.len() == i,
            forall|k: int| 0 <= k < i ==> (#[trigger] names@[k])@ == columns@[k]@.name,
    {
        names.push(columns[i].name.clone());
    }
    assert(views(names@) =~= column_names(views(columns@)));
    names
}

/// How far a result has been read.
#[derive(Debug)]
pub struct FetchState {
    quack_version: u64,
    result_uuid: HugeIntParts,
    column_names: Vec<String>,
    needs_more_fetch: bool,
    next_batch_index: u64,
    ack_index: u64,
}

/// The value of a `FetchState`.
pub struct FetchStateView {
    pub quack_version: u64,
    pub result_uuid: HugeIntParts,
    pub column_names: Seq<Seq<char>>,
    /// Whether another batch is to be asked for.
    pub needs_more_fetch: bool,
    /// The batch to ask for.
    pub next_batch_index: u64,
    /// The last batch that came.
    pub ack_index: u64,
}

impl View for FetchState {
    type V = FetchStateView;

    closed spec fn view(&self) -> FetchStateView {
        FetchStateView {
            quack_version: self.quack_version,
            result_uuid: self.result_uuid,
            column_names: views(self.column_names@),
            needs_more_fetch: self.needs_more_fetch,
            next_batch_index: self.next_batch_index,
            ack_index: self.ack_index,
        }
    }
}

/// The first part of a result.
#[derive(Debug)]
pub struct Prepared {
    pub columns: Vec<ColumnDefinition>,
    pub chunks: Vec<DataChunk>,
    pub fetch: FetchState,
}

/// The value of a `Prepared`.
pub struct PreparedView {
    pub columns: Seq<ColumnDefinitionView>,
    pub chunks: Seq<DataChunkView>,
    pub fetch: FetchStateView,
}

impl View for Prepared {
    type V = PreparedView;

    open spec fn view(&self) -> PreparedView {
        PreparedView {
            columns: views(self.columns@),
            chunks: views(self.chunks@),
            fetch: self.fetch@,
        }
    }
}

/// What an answer to a statement holds.
pub open spec fn prepared_of(quack_version: u64, answer: QuackMessageView) -> Result<
    PreparedView,
    QuackErrorView,
> {
    match answer {
        QuackMessageView::PrepareResponse {
            header,
            result_types,
            result_names,
            needs_more_fetch,
            results,
            result_uuid,
        } => Ok(
            PreparedView {
                columns: columns_of(result_names, result_types),
                chunks: all_named(results, result_names),
                fetch: FetchStateView {
                    quack_version,
                    result_uuid,
                    column_names: column_names(columns_of(result_names, result_types)),
                    needs_more_fetch,
                    next_batch_index: 1,
                    ack_index: 0,
                },
            },
        ),
        other => Err(
            QuackErrorView::Protocol(
                "expected PREPARE_RESPONSE, got "@ + other.header().message_type.spec_name(),
            ),
        ),
    }
}

/// Reads the answer to a statement.
pub fn prepared(quack_version: u64, answer: QuackMessage) -> (result: Result<Prepared, QuackError>)
    ensures
        match result {
            Ok(prepared) => prepared_of(quack_version, answer@) == Ok::<_, QuackErrorView>(
                prepared@,
            ),
            Err(error) => prepared_of(quack_version, answer@) == Err::<PreparedView, _>(error@),
        },
{
    match answer {
        QuackMessage::PrepareResponse {
            header: _,
            result_types,
            result_names,
            needs_more_fetch,
            results,
            result_uuid,
        } => {
            let mut chunks = results;
            attach_column_names(&mut chunks, &result_names);
            let columns = zipped(&result_names, &result_types);
            let column_names = names_of(&columns);
            Ok(
                Prepared {
                    columns,
                    chunks,
                    fetch: FetchState {
                        quack_version,
                        result_uuid,
                        column_names,
                        needs_more_fetch,
                        next_batch_index: 1,
                        ack_index: 0,
                    },
                },
            )
        },
        other => Err(
            QuackError::Protocol(
                joined("expected PREPARE_RESPONSE, got ", other.message_type().name()),
            ),
        ),
    }
}

impl FetchStateView {
    /// The request for the next batch.
    pub open spec fn asks(self) -> SessionRequest {
        SessionRequest::Fetch {
            result_uuid: self.result_uuid,
            batch_index: self.next_batch_index,
            ack_index: self.ack_index,
        }
    }

    /// The state in which nothing more is asked for.
    pub open spec fn ended(self) -> Self {
        FetchStateView { needs_more_fetch: false, ..self }
    }

    /// The state after the batch that was asked for.
    pub open spec fn advanced(self) -> Self {
        FetchStateView {
            needs_more_fetch: true,
            ack_index: self.next_batch_index,
            next_batch_index: (self.next_batch_index + 1) as u64,
            ..self
        }
    }

    /// What an answer of version 3 leads to.
    pub open spec fn after_batch(
        self,
        chunks: nat,
        total_batches: Option<u64>,
        batch_index: Option<u64>,
    ) -> Result<Self, QuackErrorView> {
        match batch_index {
            Some(batch_index) => if batch_index != self.next_batch_index {
                Err(
                    QuackErrorView::Protocol(
                        "expected FETCH_RESPONSE batch "@ + decimal(self.next_batch_index as nat)
                            + ", got "@ + decimal(batch_index as nat),
                    ),
                )
            } else if chunks == 0 {
                Err(QuackErrorView::Protocol("FETCH_RESPONSE batch did not include any chunks"@))
            } else if self.next_batch_index == u64::MAX {
                Err(QuackErrorView::Protocol("FETCH_RESPONSE batch index overflow"@))
            } else {
                Ok(self.advanced())
            },
            None => if chunks > 0 {
                Err(
                    QuackErrorView::Protocol(
                        "FETCH_RESPONSE with chunks did not include a batch index"@,
                    ),
                )
            } else {
                match total_batches {
                    Some(total) if total != self.ack_index => Err(
                        QuackErrorView::Protocol(
                            "FETCH_RESPONSE ended after "@ + decimal(self.ack_index as nat)
                                + " batches but announced "@ + decimal(total as nat),
                        ),
                    ),
                    _ => Ok(self.ended()),
                }
            },
        }
    }

    /// What an answer leads to.
    pub open spec fn after_answer(self, answer: QuackMessageView) -> Result<Self, QuackErrorView> {
        match answer {
            QuackMessageView::FetchResponse { header, results, total_batches, batch_index } => {
                if self.quack_version == QUACK_V3 {
                    self.after_batch(results.len(), total_batches, batch_index)
                } else {
                    Ok(FetchStateView { needs_more_fetch: results.len() > 0, ..self })
                }
            },
            other => Err(
                QuackErrorView::Protocol(
                    "expected FETCH_RESPONSE, got "@ + other.header().message_type.spec_name(),
                ),
            ),
        }
    }

    /// What the outcome of a request leads to. An error ends the result.
    pub open spec fn after_outcome(self, outcome: Result<QuackMessageView, QuackErrorView>) -> (
        Self,
        Result<Seq<DataChunkView>, QuackErrorView>,
    ) {
        match outcome {
            Ok(answer) => match self.after_answer(answer) {
                Ok(next) => (
                    next,
                    Ok(all_named(answer->FetchResponse_results, self.column_names)),
                ),
                Err(error) => (self.ended(), Err(error)),
            },
            Err(error) => (self.ended(), Err(error)),
        }
    }
}

/// The outcome of reading a batch, as plain values.
pub open spec fn batch_view(batch: Result<Vec<DataChunk>, QuackError>) -> Result<
    Seq<DataChunkView>,
    QuackErrorView,
> {
    match batch {
        Ok(chunks) => Ok(views(chunks@)),
        Err(error) => Err(error@),
    }
}

impl FetchState {
    /// Whether another batch is to be asked for.
    pub fn needs_more_fetch(&self) -> (more: bool)
        ensures
            more == self@.needs_more_fetch,
    {
        self.needs_more_fetch
    }

    /// The request for the next batch, unless the connection is closed.
    pub fn request(&self, connection: &mut Connection, state: &ConnectionState) -> (request: Result<
        QuackMessage,
        QuackError,
    >)
        ensures
            state@.closed ==> outcome_view(request) == Err::<QuackMessageView, _>(not_connected())
                && final(connection)@ == old(connection)@,
            !state@.closed ==> outcome_view(request) == Ok::<_, QuackErrorView>(
                old(connection)@.fetch_message(
                    self@.result_uuid,
                    self@.next_batch_index,
                    self@.ack_index,
                ),
            ) && final(connection)@ == old(connection)@.numbered(),
            outcome_view(request) == old(connection)@.sends(state@.closed, self@.asks()),
            final(connection)@ == old(connection)@.afterwards(state@.closed, self@.asks()),
    {
        connection.fetch(state, self.result_uuid, self.next_batch_index, self.ack_index)
    }

    fn after_batch(
        &mut self,
        chunks: usize,
        total_batches: Option<u64>,
        batch_index: Option<u64>,
    ) -> (result: Result<(), QuackError>)
        ensures
            match result {
                Ok(_) => old(self)@.after_batch(chunks as nat, total_batches, batch_index) == Ok::<
                    _,
                    QuackErrorView,
                >(final(self)@),
                Err(error) => old(self)@.after_batch(chunks as nat, total_batches, batch_index)
                    == Err::<FetchStateView, _>(error@) && final(self)@ == old(self)@,
            },
    {
        match batch_index {
            Some(batch_index) => {
                // One exact batch was asked for. Taking another one here would
                // silently reorder the result.
                if batch_index != self.next_batch_index {
                    let message = joined(
                        joined(
                            joined(
                                "expected FETCH_RESPONSE batch ",
                                decimal_text(self.next_batch_index as u128).as_str(),
                            ).as_str(),
                            ", got ",
                        ).as_str(),
                        decimal_text(batch_index as u128).as_str(),
                    );
                    return Err(QuackError::Protocol(message));
                }
                if chunks == 0 {
                    return Err(
                        QuackError::protocol("FETCH_RESPONSE batch did not include any chunks"),
                    );
                }
                match self.next_batch_index.checked_add(1) {
                    Some(next) => {
                        self.ack_index = batch_index;
                        self.next_batch_index = next;
                    },
                    None => {
                        return Err(QuackError::protocol("FETCH_RESPONSE batch index overflow"));
                    },
                }
                self.needs_more_fetch = true;
            },
            None => {
                if chunks > 0 {
                    return Err(
                        QuackError::protocol(
                            "FETCH_RESPONSE with chunks did not include a batch index",
                        ),
                    );
                }
                if let Some(total) = total_batches {
                    if total != self.ack_index {
                        let message = joined(
                            joined(
                                joined(
                                    "FETCH_RESPONSE ended after ",
                                    decimal_text(self.ack_index as u128).as_str(),
                                ).as_str(),
                                " batches but announced ",
                            ).as_str(),
                            decimal_text(total as u128).as_str(),
                        );
                        return Err(QuackError::Protocol(message));
                    }
                }
                self.needs_more_fetch = false;
            },
        }
        Ok(())
    }

    /// Takes the outcome of a request for a batch; gives the chunks of the
    /// batch, with their column names. An error ends the result.
    pub fn accept(&mut self, outcome: Result<QuackMessage, QuackError>) -> (batch: Result<
        Vec<DataChunk>,
        QuackError,
    >)
        ensures
            (final(self)@, batch_view(batch)) == old(self)@.after_outcome(outcome_view(outcome)),
    {
        let answer = match outcome {
            Ok(answer) => answer,
            Err(error) => {
                self.needs_more_fetch = false;
                return Err(error);
            },
        };
        match answer {
            QuackMessage::FetchResponse { header: _, results, total_batches, batch_index } => {
                if self.quack_version == QUACK_V3 {
                    if let Err(error) = self.after_batch(
                        results.len(),
                        total_batches,
                        batch_index,
                    ) {
                        self.needs_more_fetch = false;
                        return Err(error);
                    }
                } else {
                    self.needs_more_fetch = results.len() > 0;
                }
                let mut chunks = results;
                attach_column_names(&mut chunks, &self.column_names);
                Ok(chunks)
            },
            other => {
                self.needs_more_fetch = false;
                Err(
                    QuackError::Protocol(
                        joined("expected FETCH_RESPONSE, got ", other.message_type().name()),
                    ),
                )
            },
        }
    }
}

impl FetchStateView {
    /// The state after the first outcomes of a run of requests.
    pub open spec fn after_outcomes(
        self,
        outcomes: Seq<Result<QuackMessageView, QuackErrorView>>,
        count: nat,
    ) -> Self
        decreases count,
    {
        if count == 0 {
            self
        } else {
            self.after_outcomes(outcomes, (count - 1) as nat).after_outcome(outcomes[count - 1]).0
        }
    }

    /// Whether the first outcomes of a run of requests are all accepted, each
    /// with a request for more before it.
    pub open spec fn accepts(
        self,
        outcomes: Seq<Result<QuackMessageView, QuackErrorView>>,
        count: nat,
    ) -> bool {
        forall|k: int|
            0 <= k < count ==> {
                let before = #[trigger] self.after_outcomes(outcomes, k as nat);
                before.needs_more_fetch && before.after_outcome(outcomes[k]).1 is Ok
            }
    }
}

/// With version 3 the batches of a result arrive in order and without gaps:
/// the request at any place asks for the batch of that place, and an answer
/// with chunks is accepted only under that number. The answer without a number
/// ends the result, and where it announces a total, that is the number of
/// batches that came.
pub proof fn law_batches_come_in_order(
    start: FetchStateView,
    outcomes: Seq<Result<QuackMessageView, QuackErrorView>>,
    i: int,
)
    requires
        start.quack_version == QUACK_V3,
        start.next_batch_index == 1,
        start.ack_index == 0,
        0 <= i < outcomes.len(),
        start.accepts(outcomes, (i + 1) as nat),
    ensures
        start.after_outcomes(outcomes, i as nat).next_batch_index == i + 1,
        start.after_outcomes(outcomes, i as nat).ack_index == i,
        outcomes[i] matches Ok(QuackMessageView::FetchResponse {
            results,
            total_batches,
            batch_index,
            ..
        }) && match batch_index {
            Some(batch_index) => batch_index == i + 1 && results.len() > 0,
            None => results.len() == 0 && (total_batches matches Some(total) ==> total == i)
                && !start.after_outcomes(outcomes, (i + 1) as nat).needs_more_fetch,
        },
    decreases i,
{
    let before = start.after_outcomes(outcomes, i as nat);
    assert(before.needs_more_fetch && before.after_outcome(outcomes[i]).1 is Ok);
    assert(before.quack_version == QUACK_V3 && before.next_batch_index == i + 1 && before.ack_index
        == i) by {
        if i > 0 {
            assert(start.accepts(outcomes, i as nat));
            law_batches_come_in_order(start, outcomes, i - 1);
            lemma_version_is_kept(start, outcomes, i as nat);
        }
    }
    assert(start.after_outcomes(outcomes, (i + 1) as nat) == before.after_outcome(outcomes[i]).0);
}

proof fn lemma_version_is_kept(
    start: FetchStateView,
    outcomes: Seq<Result<QuackMessageView, QuackErrorView>>,
    count: nat,
)
    ensures
        start.after_outcomes(outcomes, count).quack_version == start.quack_version,
        start.after_outcomes(outcomes, count).column_names == start.column_names,
        start.after_outcomes(outcomes, count).result_uuid == start.result_uuid,
    decreases count,
{
    if count > 0 {
        lemma_version_is_kept(start, outcomes, (count - 1) as nat);
    }
}

/// Every chunk of an accepted answer is handed on in its place, unchanged but
/// for the column names, which are those of the statement's result.
pub proof fn law_chunks_are_handed_on(
    start: FetchStateView,
    outcomes: Seq<Result<QuackMessageView, QuackErrorView>>,
    i: int,
    k: int,
)
    requires
        0 <= i < outcomes.len(),
        start.accepts(outcomes, (i + 1) as nat),
    ensures
        ({
            let batch = start.after_outcomes(outcomes, i as nat).after_outcome(outcomes[i]).1->Ok_0;
            let results = outcomes[i]->Ok_0->FetchResponse_results;
            &&& outcomes[i]->Ok_0 is FetchResponse
            &&& batch.len() == results.len()
            &&& 0 <= k < results.len() ==> batch[k] == results[k].named(start.column_names)
        }),
{
    let before = start.after_outcomes(outcomes, i as nat);
    assert(before.needs_more_fetch && before.after_outcome(outcomes[i]).1 is Ok);
    lemma_version_is_kept(start, outcomes, i as nat);
}

/// A result ends with its first error, and with version 1 at the first answer
/// without chunks.
pub proof fn law_result_ends(
    state: FetchStateView,
    outcome: Result<QuackMessageView, QuackErrorView>,
)
    ensures
        state.after_outcome(outcome).1 is Err ==> !state.after_outcome(outcome).0.needs_more_fetch,
        state.quack_version != QUACK_V3 ==> (state.after_outcome(outcome).1 matches Ok(chunks)
            ==> state.after_outcome(outcome).0.needs_more_fetch == (chunks.len() > 0)),
{
}

/// Whether a chunk that is handed on holds what a chunk of an answer holds, under
/// the column names of the result.
pub open spec fn is_chunk_under(
    chunk: DataChunkView,
    received: DataChunkView,
    names: Seq<Seq<char>>,
) -> bool {
    &&& chunk.row_count == received.row_count
    &&& chunk.types == received.types
    &&& chunk.columns == received.columns
    &&& chunk.column_names == Some(names)
}

/// The answer to a statement says all that reading its result starts from:
/// more is asked for exactly if the answer says so, whatever chunks it carries,
/// and the first request is for the first batch, with none acknowledged, of the
/// result that the answer names. Every chunk of the answer is handed on in its
/// place, and the columns are its names and types in order. Any other answer is
/// refused.
pub proof fn law_reading_starts_as_the_answer_says(quack_version: u64, answer: QuackMessageView)
    ensures
        prepared_of(quack_version, answer) is Ok <==> answer is PrepareResponse,
        prepared_of(quack_version, answer) matches Ok(first) ==> {
            let names = answer->result_names;
            let types = answer->result_types;
            let received = answer->PrepareResponse_results;
            &&& first.fetch.needs_more_fetch == answer->needs_more_fetch
            &&& first.fetch.result_uuid == answer->PrepareResponse_result_uuid
            &&& first.fetch.quack_version == quack_version
            &&& first.fetch.next_batch_index == 1
            &&& first.fetch.ack_index == 0
            &&& first.chunks.len() == received.len()
            &&& forall|k: int|
                0 <= k < received.len() ==> is_chunk_under(
                    #[trigger] first.chunks[k],
                    received[k],
                    names,
                )
            &&& first.columns.len() <= names.len() && first.columns.len() <= types.len()
            &&& first.columns.len() == names.len() || first.columns.len() == types.len()
            &&& forall|j: int|
                0 <= j < first.columns.len() ==> (#[trigger] first.columns[j]).name == names[j]
                    && first.columns[j].logical_type == types[j]
            &&& first.fetch.column_names == names.take(first.columns.len() as int)
        },
{
    if let Ok(first) = prepared_of(quack_version, answer) {
        assert(first.fetch.column_names =~= answer->result_names.take(first.columns.len() as int));
    }
}

/// Whether an answer is one with a batch of a result: the batch of a number
/// with version 3, and one with chunks.
pub open spec fn is_batch(quack_version: u64, answer: QuackMessageView, number: int) -> bool {
    &&& answer is FetchResponse
    &&& answer->FetchResponse_results.len() > 0
    &&& quack_version == QUACK_V3 ==> (answer->FetchResponse_batch_index matches Some(index)
        && index == number)
}

/// Whether an answer is the one that ends a result after so many batches.
pub open spec fn is_end(quack_version: u64, answer: QuackMessageView, batches: int) -> bool {
    &&& answer is FetchResponse
    &&& answer->FetchResponse_results.len() == 0
    &&& quack_version == QUACK_V3 ==> answer->FetchResponse_batch_index is None && (
    answer->total_batches matches Some(total) ==> total == batches)
}

/// Whether answers are those of a server that sends a result in batches, one
/// for each request, and then ends it.
pub open spec fn is_run(quack_version: u64, answers: Seq<QuackMessageView>) -> bool {
    &&& 0 < answers.len() < u64::MAX
    &&& forall|k: int|
        0 <= k < answers.len() - 1 ==> is_batch(quack_version, #[trigger] answers[k], k + 1)
    &&& is_end(quack_version, answers.last(), answers.len() - 1)
}

/// Answers, as the outcomes of their requests.
pub open spec fn answered_all(answers: Seq<QuackMessageView>) -> Seq<
    Result<QuackMessageView, QuackErrorView>,
> {
    Seq::new(answers.len(), |k: int| Ok(answers[k]))
}

/// The chunks of the first answers, one after the other.
pub open spec fn received_chunks(answers: Seq<QuackMessageView>, count: nat) -> Seq<DataChunkView>
    decreases count,
{
    if count == 0 {
        seq![]
    } else {
        received_chunks(answers, (count - 1) as nat) + answers[count
            - 1]->FetchResponse_results
    }
}

impl FetchStateView {
    /// The chunks that the first outcomes of a run of requests give, one after
    /// the other.
    pub open spec fn delivered(
        self,
        outcomes: Seq<Result<QuackMessageView, QuackErrorView>>,
        count: nat,
    ) -> Seq<DataChunkView>
        decreases count,
    {
        if count == 0 {
            seq![]
        } else {
            self.delivered(outcomes, (count - 1) as nat) + match self.after_outcomes(
                outcomes,
                (count - 1) as nat,
            ).after_outcome(outcomes[count - 1]).1 {
                Ok(chunks) => chunks,
                Err(_) => seq![],
            }
        }
    }
}

proof fn lemma_run(start: FetchStateView, answers: Seq<QuackMessageView>, k: nat)
    requires
        is_run(start.quack_version, answers),
        start.needs_more_fetch,
        start.next_batch_index == 1,
        start.ack_index == 0,
        k <= answers.len(),
    ensures
        ({
            let outcomes = answered_all(answers);
            let state = start.after_outcomes(outcomes, k);
            let delivered = start.delivered(outcomes, k);
            let received = received_chunks(answers, k);
            &&& state.needs_more_fetch == (k < answers.len())
            &&& state.quack_version == start.quack_version
            &&& state.result_uuid == start.result_uuid
            &&& state.column_names == start.column_names
            &&& start.quack_version == QUACK_V3 && k < answers.len() ==> state.next_batch_index == k
                + 1 && state.ack_index == k
            &&& start.accepts(outcomes, k)
            &&& delivered.len() == received.len()
            &&& forall|c: int|
                0 <= c < received.len() ==> is_chunk_under(
                    #[trigger] delivered[c],
                    received[c],
                    start.column_names,
                )
        }),
    decreases k,
{
    if k > 0 {
        let last = (k - 1) as nat;
        lemma_run(start, answers, last);
        let outcomes = answered_all(answers);
        let before = start.after_outcomes(outcomes, last);
        let answer = answers[k - 1];
        assert(outcomes[k - 1] == Ok::<_, QuackErrorView>(answer));
        if k < answers.len() {
            assert(is_batch(start.quack_version, answers[k - 1], k as int));
        } else {
            assert(answer == answers.last());
        }
        let batch = before.after_outcome(outcomes[k - 1]).1;
        assert(batch is Ok);
        assert(start.accepts(outcomes, k)) by {
            assert forall|j: int| 0 <= j < k implies ({
                let before = #[trigger] start.after_outcomes(outcomes, j as nat);
                before.needs_more_fetch && before.after_outcome(outcomes[j]).1 is Ok
            }) by {
                if j < k - 1 {
                    assert(start.accepts(outcomes, last));
                }
            }
        }
        let delivered = start.delivered(outcomes, k);
        let received = received_chunks(answers, k);
        let earlier = received_chunks(answers, last);
        assert forall|c: int| 0 <= c < received.len() implies is_chunk_under(
            #[trigger] delivered[c],
            received[c],
            start.column_names,
        ) by {
            if c < earlier.len() {
                assert(delivered[c] == start.delivered(outcomes, last)[c]);
                assert(received[c] == earlier[c]);
            } else {
                assert(delivered[c] == batch->Ok_0[c - earlier.len()]);
            }
        }
    }
}

/// A result is read whole: if its statement is answered with more to come and
/// the server then sends batches and ends the result, every answer is asked for
/// and accepted, the request behind any number of batches is for the next batch
/// and acknowledges the last one, nothing is asked for after the end, and what
/// is delivered are the chunks of the answer to the statement, followed by the
/// chunks of every batch, each once and in order.
pub proof fn law_whole_result_is_delivered(
    quack_version: u64,
    first: QuackMessageView,
    answers: Seq<QuackMessageView>,
)
    requires
        first is PrepareResponse,
        first->needs_more_fetch,
        is_run(quack_version, answers),
    ensures
        ({
            let start = prepared_of(quack_version, first)->Ok_0;
            let outcomes = answered_all(answers);
            let delivered = start.chunks + start.fetch.delivered(outcomes, answers.len());
            let received = first->PrepareResponse_results + received_chunks(
                answers,
                answers.len(),
            );
            &&& start.fetch.accepts(outcomes, answers.len())
            &&& !start.fetch.after_outcomes(outcomes, answers.len()).needs_more_fetch
            &&& forall|k: nat| k < answers.len() ==> ({
                let state = #[trigger] start.fetch.after_outcomes(outcomes, k);
                &&& state.needs_more_fetch
                &&& state.result_uuid == first->PrepareResponse_result_uuid
                &&& quack_version == QUACK_V3 ==> state.next_batch_index == k + 1
                    && state.ack_index == k
            })
            &&& delivered.len() == received.len()
            &&& forall|c: int|
                0 <= c < received.len() ==> (#[trigger] delivered[c]).row_count
                    == received[c].row_count && delivered[c].types == received[c].types
                    && delivered[c].columns == received[c].columns
        }),
{
    law_reading_starts_as_the_answer_says(quack_version, first);
    let start = prepared_of(quack_version, first)->Ok_0;
    let outcomes = answered_all(answers);
    lemma_run(start.fetch, answers, answers.len());
    assert forall|k: nat| k < answers.len() implies ({
        let state = #[trigger] start.fetch.after_outcomes(outcomes, k);
        &&& state.needs_more_fetch
        &&& state.result_uuid == first->PrepareResponse_result_uuid
        &&& quack_version == QUACK_V3 ==> state.next_batch_index == k + 1 && state.ack_index == k
    }) by {
        lemma_run(start.fetch, answers, k);
    }
    let inline = first->PrepareResponse_results;
    let later = start.fetch.delivered(outcomes, answers.len());
    let delivered = start.chunks + later;
    let received = inline + received_chunks(answers, answers.len());
    assert forall|c: int| 0 <= c < received.len() implies (#[trigger] delivered[c]).row_count
        == received[c].row_count && delivered[c].types == received[c].types && delivered[c].columns
        == received[c].columns by {
        if c < inline.len() {
            assert(is_chunk_under(start.chunks[c], inline[c], first->result_names));
        } else {
            assert(delivered[c] == later[c - inline.len()]);
        }
    }
}

/// What is not an answer in its turn is never taken for one: the outcome of a
/// request gives chunks only if it is an answer with a batch, or the one that
/// ends the result, and they are then its own chunks. A failed request is
/// reported as it failed.
pub proof fn law_nothing_else_is_taken_for_a_batch(
    state: FetchStateView,
    outcome: Result<QuackMessageView, QuackErrorView>,
)
    ensures
        outcome matches Err(error) ==> state.after_outcome(outcome).1 == Err::<
            Seq<DataChunkView>,
            _,
        >(error),
        state.after_outcome(outcome).1 matches Ok(chunks) ==> {
            &&& outcome matches Ok(answer)
            &&& is_batch(state.quack_version, answer, state.next_batch_index as int) || is_end(
                state.quack_version,
                answer,
                state.ack_index as int,
            )
            &&& state.after_outcome(outcome).0.needs_more_fetch
                == (answer->FetchResponse_results.len() > 0)
            &&& chunks.len() == answer->FetchResponse_results.len()
            &&& forall|c: int|
                0 <= c < chunks.len() ==> is_chunk_under(
                    #[trigger] chunks[c],
                    answer->FetchResponse_results[c],
                    state.column_names,
                )
        },
{
}

/// What is asked for is always the batch behind the one that came last, which is
/// acknowledged, and of the same result: the batch that an answer must bring is
/// the one that was asked for.
pub proof fn law_next_batch_is_asked_for(state: FetchStateView, answer: QuackMessageView)
    requires
        state.quack_version == QUACK_V3,
        answer is FetchResponse,
        answer->FetchResponse_results.len() > 0,
    ensures
        state.asks() matches SessionRequest::Fetch { result_uuid, batch_index, ack_index } && {
            &&& result_uuid == state.result_uuid
            &&& batch_index == state.next_batch_index
            &&& ack_index == state.ack_index
            &&& state.after_outcome(Ok(answer)).1 is Ok <==> answer->FetchResponse_batch_index
                == Some(batch_index) && batch_index < u64::MAX
            &&& state.after_outcome(Ok(answer)).1 is Ok ==> {
                let next = state.after_outcome(Ok(answer)).0;
                &&& next.needs_more_fetch
                &&& next.asks() == (SessionRequest::Fetch {
                    result_uuid,
                    batch_index: (batch_index + 1) as u64,
                    ack_index: batch_index,
                })
            }
        },
{
}

/// Whether a message says two numbers in digits, one behind each of two phrases.
pub open spec fn says_both(
    message: Seq<char>,
    first_phrase: Seq<char>,
    first: nat,
    second_phrase: Seq<char>,
    second: nat,
) -> bool {
    exists|a: Seq<char>, b: Seq<char>| #[trigger]
        writes_number(a, first) && #[trigger] writes_number(b, second) && message == first_phrase
            + a + second_phrase + b
}

/// An answer with the wrong batch is refused with the number that was expected
/// and the one that came, and one that ends a result too early or too late with
/// the number of batches that came and the one that was announced. Any refusal
/// ends the result.
pub proof fn law_refused_batches_are_told(state: FetchStateView, answer: QuackMessageView)
    requires
        state.quack_version == QUACK_V3,
        answer is FetchResponse,
    ensures
        state.after_outcome(Ok(answer)).1 is Err ==> !state.after_outcome(
            Ok(answer),
        ).0.needs_more_fetch,
        (answer->FetchResponse_batch_index matches Some(came) && came != state.next_batch_index)
            ==> (state.after_outcome(Ok(answer)).1 matches Err(QuackErrorView::Protocol(message))
            && says_both(
            message,
            "expected FETCH_RESPONSE batch "@,
            state.next_batch_index as nat,
            ", got "@,
            answer->FetchResponse_batch_index->Some_0 as nat,
        )),
        (answer->FetchResponse_batch_index is None && answer->FetchResponse_results.len() == 0 && (
        answer->total_batches matches Some(total) && total != state.ack_index)) ==> (
        state.after_outcome(Ok(answer)).1 matches Err(QuackErrorView::Protocol(message))
            && says_both(
            message,
            "FETCH_RESPONSE ended after "@,
            state.ack_index as nat,
            " batches but announced "@,
            answer->total_batches->Some_0 as nat,
        )),
{
    law_decimal_notation(state.next_batch_index as nat);
    law_decimal_notation(state.ack_index as nat);
    if let Some(came) = answer->FetchResponse_batch_index {
        law_decimal_notation(came as nat);
    }
    if let Some(total) = answer->total_batches {
        law_decimal_notation(total as nat);
    }
}

} // verus!
