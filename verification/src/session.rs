//! An open connection: the requests that it sends and what their answers mean.

use vstd::prelude::*;

use crate::binary::HugeIntParts;
use crate::constants::QUACK_V1;
use crate::constants::QUACK_V3;
use crate::errors::QuackError;
use crate::errors::QuackErrorView;
use crate::handshake::outcome_view;
use crate::lease::ConnectionLease;
use crate::lease::ConnectionState;
use crate::messages::MessageHeader;
use crate::messages::MessageHeaderView;
use crate::messages::MessageType;
use crate::messages::QuackMessage;
use crate::messages::QuackMessageView;
use crate::text::joined;
use crate::time::Instant;
use crate::types::option_view;
use crate::uri::plain_result;
use crate::value::DataChunk;
use crate::value::DataChunkView;

verus! {

/// A connection that the server granted. Whether it is still open is kept in
/// its `ConnectionState`, which its heartbeat shares.
#[derive(Debug)]
pub struct Connection {
    connection_id: String,
    quack_version: u64,
    query_counter: u64,
    query_uuid_counter: u64,
}

/// The value of a `Connection`.
pub struct ConnectionView {
    pub connection_id: Seq<char>,
    pub quack_version: u64,
    /// The number of the next request.
    pub query_counter: u64,
    /// The number of the next query.
    pub query_uuid_counter: u64,
}

impl View for Connection {
    type V = ConnectionView;

    closed spec fn view(&self) -> ConnectionView {
        ConnectionView {
            connection_id: self.connection_id@,
            quack_version: self.quack_version,
            query_counter: self.query_counter,
            query_uuid_counter: self.query_uuid_counter,
        }
    }
}

/// A counter after one more use; it starts over after its last value.
pub open spec fn next_count(counter: u64) -> u64 {
    if counter == u64::MAX {
        0
    } else {
        (counter + 1) as u64
    }
}

/// The error of a request on a closed connection.
pub open spec fn not_connected() -> QuackErrorView {
    QuackErrorView::Protocol("Quack client is not connected"@)
}

impl ConnectionView {
    /// A connection that has sent nothing yet.
    pub open spec fn granted(connection_id: Seq<char>, quack_version: u64) -> Self {
        ConnectionView { connection_id, quack_version, query_counter: 1, query_uuid_counter: 1 }
    }

    /// The header of the next request.
    pub open spec fn scoped_header(self, message_type: MessageType) -> MessageHeaderView {
        MessageHeaderView {
            message_type,
            connection_id: Some(self.connection_id),
            client_query_id: Some(self.query_counter),
        }
    }

    /// The connection after a request was numbered.
    pub open spec fn numbered(self) -> Self {
        ConnectionView { query_counter: next_count(self.query_counter), ..self }
    }

    /// The connection after a query was numbered.
    pub open spec fn query_numbered(self) -> Self {
        ConnectionView { query_uuid_counter: next_count(self.query_uuid_counter), ..self.numbered()
        }
    }

    /// The request that runs a statement. Version 3 names the query.
    pub open spec fn prepare_message(self, sql: Seq<char>) -> QuackMessageView {
        QuackMessageView::PrepareRequest {
            header: self.scoped_header(MessageType::PrepareRequest),
            sql,
            query_uuid: if self.quack_version == QUACK_V3 {
                Some(HugeIntParts { upper: 0, lower: self.query_uuid_counter })
            } else {
                None
            },
            inline_rows: None,
        }
    }

    /// The request for more of a result. Version 3 asks for one exact batch and
    /// says which one it has.
    pub open spec fn fetch_message(
        self,
        result_uuid: HugeIntParts,
        batch_index: u64,
        ack_index: u64,
    ) -> QuackMessageView {
        QuackMessageView::FetchRequest {
            header: self.scoped_header(MessageType::FetchRequest),
            result_uuid,
            batch_index: if self.quack_version == QUACK_V3 {
                Some(batch_index)
            } else {
                None
            },
            ack_index: if self.quack_version == QUACK_V3 {
                Some(ack_index)
            } else {
                None
            },
        }
    }

    /// The request that appends rows to a table.
    pub open spec fn append_message(
        self,
        table_name: Seq<char>,
        schema_name: Option<Seq<char>>,
        chunk: DataChunkView,
    ) -> QuackMessageView {
        QuackMessageView::AppendRequest {
            header: self.scoped_header(MessageType::SendDataRequest),
            schema_name,
            table_name,
            append_chunk: chunk,
        }
    }

    /// The request that ends the connection.
    pub open spec fn disconnect_message(self) -> QuackMessageView {
        QuackMessageView::Disconnect { header: self.scoped_header(MessageType::DisconnectMessage) }
    }
}

impl Connection {
    /// The connection that a handshake ended with.
    pub fn new(connection_id: String, quack_version: u64) -> (connection: Self)
        ensures
            connection@ == ConnectionView::granted(connection_id@, quack_version),
    {
        Connection { connection_id, quack_version, query_counter: 1, query_uuid_counter: 1 }
    }

    pub fn connection_id(&self) -> (id: &str)
        ensures
            id@ == self@.connection_id,
    {
        self.connection_id.as_str()
    }

    pub fn quack_version(&self) -> (version: u64)
        ensures
            version == self@.quack_version,
    {
        self.quack_version
    }

    fn scoped_header(&mut self, message_type: MessageType) -> (header: MessageHeader)
        ensures
            header@ == old(self)@.scoped_header(message_type),
            final(self)@ == old(self)@.numbered(),
    {
        let query_id: u64 = self.query_counter;
        self.query_counter = query_id.wrapping_add(1);
        MessageHeader::new(message_type).with_connection(
            self.connection_id.as_str(),
        ).with_client_query_id(query_id)
    }

    fn ensure_open(state: &ConnectionState) -> (result: Result<(), QuackError>)
        ensures
            plain_result(result) == if state@.closed {
                Err(not_connected())
            } else {
                Ok(())
            },
    {
        if state.is_closed() {
            Err(QuackError::protocol("Quack client is not connected"))
        } else {
            Ok(())
        }
    }

    /// The request that runs a statement, unless the connection is closed.
    pub fn prepare(&mut self, state: &ConnectionState, sql: &str) -> (request: Result<
        QuackMessage,
        QuackError,
    >)
        ensures
            state@.closed ==> outcome_view(request) == Err::<QuackMessageView, _>(not_connected())
                && final(self)@ == old(self)@,
            !state@.closed ==> outcome_view(request) == Ok::<_, QuackErrorView>(
                old(self)@.prepare_message(sql@),
            ) && final(self)@ == old(self)@.query_numbered(),
            outcome_view(request) == old(self)@.sends(
                state@.closed,
                SessionRequest::Prepare { sql: sql@ },
            ),
            final(self)@ == old(self)@.afterwards(
                state@.closed,
                SessionRequest::Prepare { sql: sql@ },
            ),
    {
        if let Err(error) = Self::ensure_open(state) {
            return Err(error);
        }
        let number: u64 = self.query_uuid_counter;
        self.query_uuid_counter = number.wrapping_add(1);
        let query_uuid = if self.quack_version == QUACK_V3 {
            Some(HugeIntParts { upper: 0, lower: number })
        } else {
            None
        };
        Ok(
            QuackMessage::PrepareRequest {
                header: self.scoped_header(MessageType::PrepareRequest),
                sql: sql.to_owned(),
                query_uuid,
                inline_rows: None,
            },
        )
    }

    /// The request for more of a result, unless the connection is closed.
    pub fn fetch(
        &mut self,
        state: &ConnectionState,
        result_uuid: HugeIntParts,
        batch_index: u64,
        ack_index: u64,
    ) -> (request: Result<QuackMessage, QuackError>)
        ensures
            state@.closed ==> outcome_view(request) == Err::<QuackMessageView, _>(not_connected())
                && final(self)@ == old(self)@,
            !state@.closed ==> outcome_view(request) == Ok::<_, QuackErrorView>(
                old(self)@.fetch_message(result_uuid, batch_index, ack_index),
            ) && final(self)@ == old(self)@.numbered(),
            outcome_view(request) == old(self)@.sends(
                state@.closed,
                SessionRequest::Fetch { result_uuid, batch_index, ack_index },
            ),
            final(self)@ == old(self)@.afterwards(
                state@.closed,
                SessionRequest::Fetch { result_uuid, batch_index, ack_index },
            ),
    {
        if let Err(error) = Self::ensure_open(state) {
            return Err(error);
        }
        let named = self.quack_version == QUACK_V3;
        Ok(
            QuackMessage::FetchRequest {
                header: self.scoped_header(MessageType::FetchRequest),
                result_uuid,
                batch_index: if named {
                    Some(batch_index)
                } else {
                    None
                },
                ack_index: if named {
                    Some(ack_index)
                } else {
                    None
                },
            },
        )
    }

    /// The request that appends rows to a table, unless the connection is
    /// closed or of a version without that request.
    pub fn append(
        &mut self,
        state: &ConnectionState,
        table_name: String,
        schema_name: Option<String>,
        chunk: DataChunk,
    ) -> (request: Result<QuackMessage, QuackError>)
        ensures
            outcome_view(request) == if state@.closed {
                Err(not_connected())
            } else if old(self)@.quack_version != QUACK_V1 {
                Err(
                    QuackErrorView::Protocol(
                        "append is only supported by Quack protocol v1; protocol v3 uses SEND_DATA"@,
                    ),
                )
            } else {
                Ok(
                    old(self)@.append_message(table_name@, option_view(schema_name), chunk@),
                )
            },
            final(self)@ == if request is Ok {
                old(self)@.numbered()
            } else {
                old(self)@
            },
            outcome_view(request) == old(self)@.sends(
                state@.closed,
                SessionRequest::Append {
                    table_name: table_name@,
                    schema_name: option_view(schema_name),
                    chunk: chunk@,
                },
            ),
            final(self)@ == old(self)@.afterwards(
                state@.closed,
                SessionRequest::Append {
                    table_name: table_name@,
                    schema_name: option_view(schema_name),
                    chunk: chunk@,
                },
            ),
    {
        if let Err(error) = Self::ensure_open(state) {
            return Err(error);
        }
        if self.quack_version != QUACK_V1 {
            return Err(
                QuackError::protocol(
                    "append is only supported by Quack protocol v1; protocol v3 uses SEND_DATA",
                ),
            );
        }
        Ok(
            QuackMessage::AppendRequest {
                header: self.scoped_header(MessageType::SendDataRequest),
                schema_name,
                table_name,
                append_chunk: chunk,
            },
        )
    }

    /// The request that ends the connection; nothing if it is closed already.
    pub fn disconnect(&mut self, state: &ConnectionState) -> (request: Option<QuackMessage>)
        ensures
            state@.closed ==> request is None && final(self)@ == old(self)@,
            !state@.closed ==> option_view(request) == Some(old(self)@.disconnect_message())
                && final(self)@ == old(self)@.numbered(),
            match request {
                Some(request) => old(self)@.sends(state@.closed, SessionRequest::Disconnect)
                    == Ok::<_, QuackErrorView>(request@),
                None => old(self)@.sends(state@.closed, SessionRequest::Disconnect) is Err,
            },
            final(self)@ == old(self)@.afterwards(state@.closed, SessionRequest::Disconnect),
    {
        if Self::ensure_open(state).is_err() {
            return None;
        }
        Some(
            QuackMessage::Disconnect { header: self.scoped_header(MessageType::DisconnectMessage) },
        )
    }
}

/// The lease of a connection after the outcome of a request.
pub open spec fn lease_after_outcome(
    lease: ConnectionLease,
    now: Instant,
    outcome: Result<QuackMessageView, QuackErrorView>,
) -> ConnectionLease {
    match outcome {
        Ok(_) => lease.renewed(now),
        Err(_) => lease,
    }
}

/// The lease of a connection after the answer to the request that ends it.
pub open spec fn lease_after_disconnect(
    lease: ConnectionLease,
    answer: QuackMessageView,
) -> ConnectionLease {
    match success_of(answer) {
        Ok(_) => lease.ended(),
        Err(_) => lease,
    }
}

/// Takes the outcome of a request on a connection; an answer renews its lease.
pub fn answered(
    state: &mut ConnectionState,
    now: Instant,
    outcome: Result<QuackMessage, QuackError>,
) -> (answer: Result<QuackMessage, QuackError>)
    ensures
        answer == outcome,
        final(state)@ == if outcome is Ok {
            old(state)@.renewed(now)
        } else {
            old(state)@
        },
        final(state)@ == lease_after_outcome(old(state)@, now, outcome_view(outcome)),
{
    if outcome.is_ok() {
        state.record_success_at(now);
    }
    outcome
}

/// Whether an answer says that the request was carried out.
pub open spec fn success_of(answer: QuackMessageView) -> Result<(), QuackErrorView> {
    match answer {
        QuackMessageView::SuccessResponse { .. } => Ok(()),
        other => Err(
            QuackErrorView::Protocol(
                "expected SUCCESS_RESPONSE, got "@ + other.header().message_type.spec_name(),
            ),
        ),
    }
}

/// Accepts the answer to a request that has no other result.
pub fn expect_success(response: QuackMessage) -> (result: Result<(), QuackError>)
    ensures
        plain_result(result) == success_of(response@),
{
    match response {
        QuackMessage::SuccessResponse { .. } => Ok(()),
        other => Err(
            QuackError::Protocol(
                joined("expected SUCCESS_RESPONSE, got ", other.message_type().name()),
            ),
        ),
    }
}

/// Accepts the answer to the request that ends a connection, and closes it.
pub fn disconnected(state: &mut ConnectionState, response: QuackMessage) -> (result: Result<
    (),
    QuackError,
>)
    ensures
        plain_result(result) == success_of(response@),
        final(state)@ == if result is Ok {
            old(state)@.ended()
        } else {
            old(state)@
        },
        final(state)@ == lease_after_disconnect(old(state)@, response@),
{
    match expect_success(response) {
        Ok(_) => {
            state.close();
            Ok(())
        },
        Err(error) => Err(error),
    }
}

/// A request that a caller can make on an open connection.
pub enum SessionRequest {
    Prepare { sql: Seq<char> },
    Fetch { result_uuid: HugeIntParts, batch_index: u64, ack_index: u64 },
    Append { table_name: Seq<char>, schema_name: Option<Seq<char>>, chunk: DataChunkView },
    Disconnect,
}

impl ConnectionView {
    /// The message that a request sends.
    pub open spec fn message(self, request: SessionRequest) -> QuackMessageView {
        match request {
            SessionRequest::Prepare { sql } => self.prepare_message(sql),
            SessionRequest::Fetch { result_uuid, batch_index, ack_index } => self.fetch_message(
                result_uuid,
                batch_index,
                ack_index,
            ),
            SessionRequest::Append { table_name, schema_name, chunk } => self.append_message(
                table_name,
                schema_name,
                chunk,
            ),
            SessionRequest::Disconnect => self.disconnect_message(),
        }
    }

    /// The connection after a request.
    pub open spec fn after(self, request: SessionRequest) -> Self {
        match request {
            SessionRequest::Prepare { .. } => self.query_numbered(),
            _ => self.numbered(),
        }
    }

    /// What a request comes to on a connection that is closed or not: the
    /// message that it sends, or why it sends none.
    pub open spec fn sends(self, closed: bool, request: SessionRequest) -> Result<
        QuackMessageView,
        QuackErrorView,
    > {
        if closed {
            Err(not_connected())
        } else if request is Append && self.quack_version != QUACK_V1 {
            Err(
                QuackErrorView::Protocol(
                    "append is only supported by Quack protocol v1; protocol v3 uses SEND_DATA"@,
                ),
            )
        } else {
            Ok(self.message(request))
        }
    }

    /// The connection after a request, whether it was sent or not.
    pub open spec fn afterwards(self, closed: bool, request: SessionRequest) -> Self {
        if self.sends(closed, request) is Ok {
            self.after(request)
        } else {
            self
        }
    }

    /// The connection after some requests.
    pub open spec fn after_all(self, requests: Seq<SessionRequest>) -> Self
        decreases requests.len(),
    {
        if requests.len() == 0 {
            self
        } else {
            self.after_all(requests.drop_last()).after(requests.last())
        }
    }

    /// The message that the request at one place of a run sends.
    pub open spec fn message_at(self, requests: Seq<SessionRequest>, i: int) -> QuackMessageView {
        self.after_all(requests.take(i)).message(requests[i])
    }
}

/// How many queries are among the first requests.
pub open spec fn queries(requests: Seq<SessionRequest>) -> nat
    decreases requests.len(),
{
    if requests.len() == 0 {
        0
    } else {
        queries(requests.drop_last()) + if requests.last() is Prepare {
            1nat
        } else {
            0
        }
    }
}

/// A counter after a number of uses.
pub open spec fn counted(counter: u64, uses: nat) -> u64 {
    ((counter + uses) % 0x1_0000_0000_0000_0000) as u64
}

proof fn lemma_after_all(connection: ConnectionView, requests: Seq<SessionRequest>)
    ensures
        connection.after_all(requests).connection_id == connection.connection_id,
        connection.after_all(requests).quack_version == connection.quack_version,
        connection.after_all(requests).query_counter == counted(
            connection.query_counter,
            requests.len(),
        ),
        connection.after_all(requests).query_uuid_counter == counted(
            connection.query_uuid_counter,
            queries(requests),
        ),
        queries(requests) <= requests.len(),
    decreases requests.len(),
{
    if requests.len() > 0 {
        lemma_after_all(connection, requests.drop_last());
    }
}

proof fn lemma_queries_between(requests: Seq<SessionRequest>, i: int, j: int)
    requires
        0 <= i < j <= requests.len(),
        requests[i] is Prepare,
    ensures
        queries(requests.take(i)) < queries(requests.take(j)) <= queries(requests.take(i)) + (j
            - i),
    decreases j - i,
{
    let taken = requests.take(j);
    assert(taken.drop_last() =~= requests.take(j - 1));
    assert(taken.last() == requests[j - 1]);
    if i < j - 1 {
        lemma_queries_between(requests, i, j - 1);
    }
}

proof fn lemma_counts_differ(counter: u64, a: nat, b: nat)
    requires
        a < b,
        b - a < 0x1_0000_0000_0000_0000,
    ensures
        counted(counter, a) != counted(counter, b),
{
    let m: int = 0x1_0000_0000_0000_0000;
    let x: int = counter + a;
    let y: int = counter + b;
    assert(x % m != y % m) by (nonlinear_arith)
        requires
            x < y < x + m,
            m == 0x1_0000_0000_0000_0000,
    ;
}

/// Every request of a connection carries its connection id, and no two of them
/// share their number within the connection, unless a whole round of the
/// counter lies between them.
pub proof fn law_requests_are_told_apart(
    connection: ConnectionView,
    requests: Seq<SessionRequest>,
    i: int,
    j: int,
)
    requires
        0 <= i < j < requests.len(),
        j - i < 0x1_0000_0000_0000_0000,
    ensures
        connection.message_at(requests, i).header().connection_id == Some(connection.connection_id),
        connection.message_at(requests, j).header().connection_id == Some(connection.connection_id),
        connection.message_at(requests, i).header().client_query_id is Some,
        connection.message_at(requests, i).header().client_query_id != connection.message_at(
            requests,
            j,
        ).header().client_query_id,
{
    lemma_after_all(connection, requests.take(i));
    lemma_after_all(connection, requests.take(j));
    lemma_counts_differ(connection.query_counter, i as nat, j as nat);
}

/// With version 3 every query of a connection carries a name, and no two of
/// them share it, unless a whole round of the counter lies between them. With
/// version 1 no query carries one.
pub proof fn law_queries_are_told_apart(
    connection: ConnectionView,
    requests: Seq<SessionRequest>,
    i: int,
    j: int,
)
    requires
        0 <= i < j < requests.len(),
        j - i < 0x1_0000_0000_0000_0000,
        requests[i] is Prepare,
        requests[j] is Prepare,
    ensures
        connection.quack_version == QUACK_V3 ==> connection.message_at(
            requests,
            i,
        )->PrepareRequest_query_uuid is Some && connection.message_at(
            requests,
            i,
        )->PrepareRequest_query_uuid != connection.message_at(
            requests,
            j,
        )->PrepareRequest_query_uuid,
        connection.quack_version != QUACK_V3 ==> connection.message_at(
            requests,
            i,
        )->PrepareRequest_query_uuid is None,
{
    lemma_after_all(connection, requests.take(i));
    lemma_after_all(connection, requests.take(j));
    lemma_queries_between(requests, i, j);
    lemma_counts_differ(
        connection.query_uuid_counter,
        queries(requests.take(i)),
        queries(requests.take(j)),
    );
}

/// Whether a header is that of a request on a connection, under a number.
pub open spec fn is_request_header(
    header: MessageHeaderView,
    kind: MessageType,
    connection: ConnectionView,
) -> bool {
    &&& header.message_type == kind
    &&& header.connection_id == Some(connection.connection_id)
    &&& header.client_query_id == Some(connection.query_counter)
}

/// Every request says what the caller asks for, and nothing else: the statement
/// as it stands, the result with the batch that is asked for and the one that is
/// acknowledged, or the table and the chunk. With version 3 a query is named and
/// batches are numbered; with any other version neither is. No request asks for
/// rows inline.
pub proof fn law_requests_say_what_is_asked(
    connection: ConnectionView,
    sql: Seq<char>,
    result_uuid: HugeIntParts,
    batch_index: u64,
    ack_index: u64,
    table_name: Seq<char>,
    schema_name: Option<Seq<char>>,
    chunk: DataChunkView,
)
    ensures
        connection.prepare_message(sql) matches QuackMessageView::PrepareRequest {
            header,
            sql: sent,
            query_uuid,
            inline_rows,
        } && {
            &&& is_request_header(header, MessageType::PrepareRequest, connection)
            &&& sent == sql
            &&& query_uuid is Some <==> connection.quack_version == 3
            &&& query_uuid matches Some(uuid) ==> uuid.upper == 0 && uuid.lower
                == connection.query_uuid_counter
            &&& inline_rows is None
        },
        connection.fetch_message(
            result_uuid,
            batch_index,
            ack_index,
        ) matches QuackMessageView::FetchRequest {
            header,
            result_uuid: asked,
            batch_index: batch,
            ack_index: ack,
        } && {
            &&& is_request_header(header, MessageType::FetchRequest, connection)
            &&& asked == result_uuid
            &&& connection.quack_version == 3 ==> batch == Some(batch_index) && ack == Some(
                ack_index,
            )
            &&& connection.quack_version != 3 ==> batch is None && ack is None
        },
        connection.append_message(
            table_name,
            schema_name,
            chunk,
        ) matches QuackMessageView::AppendRequest {
            header,
            schema_name: schema,
            table_name: table,
            append_chunk,
        } && {
            &&& is_request_header(header, MessageType::SendDataRequest, connection)
            &&& schema == schema_name
            &&& table == table_name
            &&& append_chunk == chunk
        },
        connection.disconnect_message() matches QuackMessageView::Disconnect { header }
            && is_request_header(header, MessageType::DisconnectMessage, connection),
{
}

/// The requests of a new connection are numbered from one, and so are its
/// queries; every request carries the id of the connection.
pub proof fn law_requests_are_numbered_from_one(
    connection_id: Seq<char>,
    quack_version: u64,
    requests: Seq<SessionRequest>,
    i: int,
)
    requires
        0 <= i < requests.len(),
        i < u64::MAX,
    ensures
        ({
            let message = ConnectionView::granted(connection_id, quack_version).message_at(
                requests,
                i,
            );
            &&& message.header().connection_id == Some(connection_id)
            &&& message.header().client_query_id == Some((i + 1) as u64)
            &&& quack_version == 3 ==> (message matches QuackMessageView::PrepareRequest {
                query_uuid,
                ..
            } ==> (query_uuid matches Some(uuid) && uuid.upper == 0 && uuid.lower == queries(
                requests.take(i),
            ) + 1))
        }),
{
    lemma_after_all(ConnectionView::granted(connection_id, quack_version), requests.take(i));
}

/// An answer says that a request was carried out exactly if it is the message
/// for that.
pub proof fn law_success_is_what_is_answered(answer: QuackMessageView)
    ensures
        success_of(answer) is Ok <==> answer is SuccessResponse,
{
}

/// A closed connection sends nothing. An open one sends every request, under the
/// next number; only appending is refused unless the version is the older one.
/// What is refused leaves the connection as it is, so it uses up no number.
pub proof fn law_open_connection_sends_what_it_can(
    connection: ConnectionView,
    closed: bool,
    request: SessionRequest,
)
    ensures
        connection.sends(closed, request) is Ok <==> !closed && (request is Append
            ==> connection.quack_version == 1),
        connection.sends(closed, request) matches Ok(message) ==> {
            let after = connection.afterwards(closed, request);
            &&& message == connection.message(request)
            &&& message.header().client_query_id == Some(connection.query_counter)
            &&& after.connection_id == connection.connection_id
            &&& after.quack_version == connection.quack_version
            &&& connection.query_counter < u64::MAX ==> after.query_counter
                == connection.query_counter + 1
            &&& connection.query_uuid_counter < u64::MAX ==> after.query_uuid_counter
                == connection.query_uuid_counter + if request is Prepare {
                1int
            } else {
                0int
            }
        },
        connection.sends(closed, request) is Err ==> connection.afterwards(closed, request)
            == connection,
{
}

/// Any answer renews the lease of an open connection, and a failure leaves it as
/// it is. Success in ending a connection closes it, and no other answer does.
pub proof fn law_answers_renew_the_lease(
    lease: ConnectionLease,
    now: Instant,
    answer: QuackMessageView,
    error: QuackErrorView,
)
    requires
        !lease.closed,
    ensures
        !lease_after_outcome(lease, now, Ok(answer)).closed,
        lease_after_outcome(lease, now, Ok(answer)).last_successful_activity == now,
        lease_after_outcome(lease, now, Err(error)) == lease,
        lease_after_disconnect(lease, answer).closed <==> answer is SuccessResponse,
        lease_after_disconnect(lease, answer).last_successful_activity
            == lease.last_successful_activity,
{
}

/// An answer that does not say that a request was carried out is refused with
/// the kind that its header states.
pub proof fn law_other_answer_is_told(answer: QuackMessageView)
    requires
        !(answer is SuccessResponse),
    ensures
        success_of(answer) == Err::<(), _>(
            QuackErrorView::Protocol(
                "expected SUCCESS_RESPONSE, got "@ + answer.header().message_type.spec_name(),
            ),
        ),
{
}

} // verus!
