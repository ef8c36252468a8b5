//! The messages of the protocol.

use vstd::prelude::*;

use crate::binary::HugeIntParts;
use crate::types::LogicalType;
use crate::types::LogicalTypeView;
use crate::types::option_view;
use crate::types::views;
use crate::value::DataChunk;
use crate::value::DataChunkView;

verus! {

/// The kind of a message.
#[derive(Clone, Copy, Debug, PartialEq, Eq, Structural)]
pub enum MessageType {
    ConnectionRequest,
    ConnectionResponse,
    PrepareRequest,
    PrepareResponse,
    FetchRequest,
    FetchResponse,
    SendDataRequest,
    SuccessResponse,
    ErrorResponse,
    DisconnectMessage,
    HeartbeatRequest,
}

impl MessageType {
    /// The name of the kind.
    pub open spec fn spec_name(self) -> Seq<char> {
        match self {
            MessageType::ConnectionRequest => "ConnectionRequest"@,
            MessageType::ConnectionResponse => "ConnectionResponse"@,
            MessageType::PrepareRequest => "PrepareRequest"@,
            MessageType::PrepareResponse => "PrepareResponse"@,
            MessageType::FetchRequest => "FetchRequest"@,
            MessageType::FetchResponse => "FetchResponse"@,
            MessageType::SendDataRequest => "SendDataRequest"@,
            MessageType::SuccessResponse => "SuccessResponse"@,
            MessageType::ErrorResponse => "ErrorResponse"@,
            MessageType::DisconnectMessage => "DisconnectMessage"@,
            MessageType::HeartbeatRequest => "HeartbeatRequest"@,
        }
    }

    /// The number of the kind on the wire. The numbers are chosen here: nothing
    /// in this crate shows that a server counts the kinds in the same way.
    pub open spec fn spec_code(self) -> u64 {
        match self {
            MessageType::ConnectionRequest => 1,
            MessageType::ConnectionResponse => 2,
            MessageType::PrepareRequest => 3,
            MessageType::PrepareResponse => 4,
            MessageType::FetchRequest => 5,
            MessageType::FetchResponse => 6,
            MessageType::SendDataRequest => 7,
            MessageType::SuccessResponse => 8,
            MessageType::ErrorResponse => 9,
            MessageType::DisconnectMessage => 10,
            MessageType::HeartbeatRequest => 11,
        }
    }

    /// The number of the kind on the wire.
    pub fn code(self) -> (code: u64)
        ensures
            code == self.spec_code(),
    {
        match self {
            MessageType::ConnectionRequest => 1,
            MessageType::ConnectionResponse => 2,
            MessageType::PrepareRequest => 3,
            MessageType::PrepareResponse => 4,
            MessageType::FetchRequest => 5,
            MessageType::FetchResponse => 6,
            MessageType::SendDataRequest => 7,
            MessageType::SuccessResponse => 8,
            MessageType::ErrorResponse => 9,
            MessageType::DisconnectMessage => 10,
            MessageType::HeartbeatRequest => 11,
        }
    }

    /// The kind with the given number on the wire, if there is one.
    pub open spec fn of_code(code: u64) -> Option<Self> {
        if exists|kind: MessageType| #[trigger] kind.spec_code() == code {
            Some(choose|kind: MessageType| #[trigger] kind.spec_code() == code)
        } else {
            None
        }
    }

    /// Different kinds have different numbers.
    pub proof fn lemma_of_code(self)
        ensures
            Self::of_code(self.spec_code()) == Some(self),
    {
    }

    /// The kind with the given number on the wire, if there is one.
    pub fn from_code(code: u64) -> (kind: Option<Self>)
        ensures
            kind == Self::of_code(code),
    {
        let kind = if code == 1 {
            Some(MessageType::ConnectionRequest)
        } else if code == 2 {
            Some(MessageType::ConnectionResponse)
        } else if code == 3 {
            Some(MessageType::PrepareRequest)
        } else if code == 4 {
            Some(MessageType::PrepareResponse)
        } else if code == 5 {
            Some(MessageType::FetchRequest)
        } else if code == 6 {
            Some(MessageType::FetchResponse)
        } else if code == 7 {
            Some(MessageType::SendDataRequest)
        } else if code == 8 {
            Some(MessageType::SuccessResponse)
        } else if code == 9 {
            Some(MessageType::ErrorResponse)
        } else if code == 10 {
            Some(MessageType::DisconnectMessage)
        } else if code == 11 {
            Some(MessageType::HeartbeatRequest)
        } else {
            None
        };
        proof {
            if let Some(kind) = kind {
                assert(kind.spec_code() == code);
                kind.lemma_of_code();
            } else {
                assert forall|other: MessageType| #[trigger]
                    other.spec_code() != code by {}
            }
        }
        kind
    }

    /// The name of the kind.
    pub fn name(self) -> (name: &'static str)
        ensures
            name@ == self.spec_name(),
    {
        match self {
            MessageType::ConnectionRequest => "ConnectionRequest",
            MessageType::ConnectionResponse => "ConnectionResponse",
            MessageType::PrepareRequest => "PrepareRequest",
            MessageType::PrepareResponse => "PrepareResponse",
            MessageType::FetchRequest => "FetchRequest",
            MessageType::FetchResponse => "FetchResponse",
            MessageType::SendDataRequest => "SendDataRequest",
            MessageType::SuccessResponse => "SuccessResponse",
            MessageType::ErrorResponse => "ErrorResponse",
            MessageType::DisconnectMessage => "DisconnectMessage",
            MessageType::HeartbeatRequest => "HeartbeatRequest",
        }
    }
}

/// What every message carries.
#[derive(Debug, PartialEq, Eq)]
pub struct MessageHeader {
    pub message_type: MessageType,
    pub connection_id: Option<String>,
    pub client_query_id: Option<u64>,
}

/// The value of a `MessageHeader`.
pub struct MessageHeaderView {
    pub message_type: MessageType,
    pub connection_id: Option<Seq<char>>,
    pub client_query_id: Option<u64>,
}

impl View for MessageHeader {
    type V = MessageHeaderView;

    open spec fn view(&self) -> MessageHeaderView {
        MessageHeaderView {
            message_type: self.message_type,
            connection_id: option_view(self.connection_id),
            client_query_id: self.client_query_id,
        }
    }
}

impl MessageHeader {
    /// A header outside any connection.
    pub fn new(message_type: MessageType) -> (header: Self)
        ensures
            header@ == MessageHeaderView::new(message_type),
    {
        MessageHeader { message_type, connection_id: None, client_query_id: None }
    }

    /// The header, scoped to a connection.
    pub fn with_connection(self, connection_id: &str) -> (header: Self)
        ensures
            header@ == self@.with_connection(connection_id@),
    {
        MessageHeader {
            message_type: self.message_type,
            connection_id: Some(connection_id.to_owned()),
            client_query_id: self.client_query_id,
        }
    }

    /// The header, numbered within its connection.
    pub fn with_client_query_id(self, client_query_id: u64) -> (header: Self)
        ensures
            header@ == self@.with_client_query_id(client_query_id),
    {
        MessageHeader {
            message_type: self.message_type,
            connection_id: self.connection_id,
            client_query_id: Some(client_query_id),
        }
    }
}

impl MessageHeaderView {
    pub open spec fn new(message_type: MessageType) -> Self {
        MessageHeaderView { message_type, connection_id: None, client_query_id: None }
    }

    pub open spec fn with_connection(self, connection_id: Seq<char>) -> Self {
        MessageHeaderView { connection_id: Some(connection_id), ..self }
    }

    pub open spec fn with_client_query_id(self, client_query_id: u64) -> Self {
        MessageHeaderView { client_query_id: Some(client_query_id), ..self }
    }
}

/// A message.
#[derive(Debug, PartialEq, Eq)]
pub enum QuackMessage {
    ConnectionRequest {
        header: MessageHeader,
        auth_string: Option<String>,
        client_duckdb_version: Option<String>,
        client_platform: Option<String>,
        min_supported_quack_version: u64,
        max_supported_quack_version: u64,
        client_id: Option<String>,
        heartbeat_timeout_seconds: u64,
    },
    ConnectionResponse {
        header: MessageHeader,
        server_duckdb_version: Option<String>,
        server_platform: Option<String>,
        quack_version: Option<u64>,
        heartbeat_timeout_seconds: Option<u64>,
    },
    PrepareRequest {
        header: MessageHeader,
        sql: String,
        query_uuid: Option<HugeIntParts>,
        inline_rows: Option<u64>,
    },
    PrepareResponse {
        header: MessageHeader,
        result_types: Vec<LogicalType>,
        result_names: Vec<String>,
        needs_more_fetch: bool,
        results: Vec<DataChunk>,
        result_uuid: HugeIntParts,
    },
    FetchRequest {
        header: MessageHeader,
        result_uuid: HugeIntParts,
        batch_index: Option<u64>,
        ack_index: Option<u64>,
    },
    FetchResponse {
        header: MessageHeader,
        results: Vec<DataChunk>,
        total_batches: Option<u64>,
        batch_index: Option<u64>,
    },
    AppendRequest {
        header: MessageHeader,
        schema_name: Option<String>,
        table_name: String,
        append_chunk: DataChunk,
    },
    SuccessResponse { header: MessageHeader },
    ErrorResponse {
        header: MessageHeader,
        message: String,
    },
    Disconnect { header: MessageHeader },
    HeartbeatRequest { header: MessageHeader },
}

/// The value of a `QuackMessage`.
pub enum QuackMessageView {
    ConnectionRequest {
        header: MessageHeaderView,
        auth_string: Option<Seq<char>>,
        client_duckdb_version: Option<Seq<char>>,
        client_platform: Option<Seq<char>>,
        min_supported_quack_version: u64,
        max_supported_quack_version: u64,
        client_id: Option<Seq<char>>,
        heartbeat_timeout_seconds: u64,
    },
    ConnectionResponse {
        header: MessageHeaderView,
        server_duckdb_version: Option<Seq<char>>,
        server_platform: Option<Seq<char>>,
        quack_version: Option<u64>,
        heartbeat_timeout_seconds: Option<u64>,
    },
    PrepareRequest {
        header: MessageHeaderView,
        sql: Seq<char>,
        query_uuid: Option<HugeIntParts>,
        inline_rows: Option<u64>,
    },
    PrepareResponse {
        header: MessageHeaderView,
        result_types: Seq<LogicalTypeView>,
        result_names: Seq<Seq<char>>,
        needs_more_fetch: bool,
        results: Seq<DataChunkView>,
        result_uuid: HugeIntParts,
    },
    FetchRequest {
        header: MessageHeaderView,
        result_uuid: HugeIntParts,
        batch_index: Option<u64>,
        ack_index: Option<u64>,
    },
    FetchResponse {
        header: MessageHeaderView,
        results: Seq<DataChunkView>,
        total_batches: Option<u64>,
        batch_index: Option<u64>,
    },
    AppendRequest {
        header: MessageHeaderView,
        schema_name: Option<Seq<char>>,
        table_name: Seq<char>,
        append_chunk: DataChunkView,
    },
    SuccessResponse { header: MessageHeaderView },
    ErrorResponse {
        header: MessageHeaderView,
        message: Seq<char>,
    },
    Disconnect { header: MessageHeaderView },
    HeartbeatRequest { header: MessageHeaderView },
}

impl View for QuackMessage {
    type V = QuackMessageView;

    open spec fn view(&self) -> QuackMessageView {
        match self {
            QuackMessage::ConnectionRequest {
                header,
                auth_string,
                client_duckdb_version,
                client_platform,
                min_supported_quack_version,
                max_supported_quack_version,
                client_id,
                heartbeat_timeout_seconds,
            } => QuackMessageView::ConnectionRequest {
                header: header@,
                auth_string: option_view(*auth_string),
                client_duckdb_version: option_view(*client_duckdb_version),
                client_platform: option_view(*client_platform),
                min_supported_quack_version: *min_supported_quack_version,
                max_supported_quack_version: *max_supported_quack_version,
                client_id: option_view(*client_id),
                heartbeat_timeout_seconds: *heartbeat_timeout_seconds,
            },
            QuackMessage::ConnectionResponse {
                header,
                server_duckdb_version,
                server_platform,
                quack_version,
                heartbeat_timeout_seconds,
            } => QuackMessageView::ConnectionResponse {
                header: header@,
                server_duckdb_version: option_view(*server_duckdb_version),
                server_platform: option_view(*server_platform),
                quack_version: *quack_version,
                heartbeat_timeout_seconds: *heartbeat_timeout_seconds,
            },
            QuackMessage::PrepareRequest {
                header,
                sql,
                query_uuid,
                inline_rows,
            } => QuackMessageView::PrepareRequest {
                header: header@,
                sql: sql@,
                query_uuid: *query_uuid,
                inline_rows: *inline_rows,
            },
            QuackMessage::PrepareResponse {
                header,
                result_types,
                result_names,
                needs_more_fetch,
                results,
                result_uuid,
            } => QuackMessageView::PrepareResponse {
                header: header@,
                result_types: views(result_types@),
                result_names: views(result_names@),
                needs_more_fetch: *needs_more_fetch,
                results: views(results@),
                result_uuid: *result_uuid,
            },
            QuackMessage::FetchRequest {
                header,
                result_uuid,
                batch_index,
                ack_index,
            } => QuackMessageView::FetchRequest {
                header: header@,
                result_uuid: *result_uuid,
                batch_index: *batch_index,
                ack_index: *ack_index,
            },
            QuackMessage::FetchResponse {
                header,
                results,
                total_batches,
                batch_index,
            } => QuackMessageView::FetchResponse {
                header: header@,
                results: views(results@),
                total_batches: *total_batches,
                batch_index: *batch_index,
            },
            QuackMessage::AppendRequest {
                header,
                schema_name,
                table_name,
                append_chunk,
            } => QuackMessageView::AppendRequest {
                header: header@,
                schema_name: option_view(*schema_name),
                table_name: table_name@,
                append_chunk: append_chunk@,
            },
            QuackMessage::SuccessResponse { header } => QuackMessageView::SuccessResponse { header: header@ },
            QuackMessage::ErrorResponse {
                header,
                message,
            } => QuackMessageView::ErrorResponse {
                header: header@,
                message: message@,
            },
            QuackMessage::Disconnect { header } => QuackMessageView::Disconnect { header: header@ },
            QuackMessage::HeartbeatRequest { header } => QuackMessageView::HeartbeatRequest { header: header@ },
        }
    }
}

impl QuackMessageView {
    /// The kind that the body belongs to.
    pub open spec fn kind(self) -> MessageType {
        match self {
            QuackMessageView::ConnectionRequest { .. } => MessageType::ConnectionRequest,
            QuackMessageView::ConnectionResponse { .. } => MessageType::ConnectionResponse,
            QuackMessageView::PrepareRequest { .. } => MessageType::PrepareRequest,
            QuackMessageView::PrepareResponse { .. } => MessageType::PrepareResponse,
            QuackMessageView::FetchRequest { .. } => MessageType::FetchRequest,
            QuackMessageView::FetchResponse { .. } => MessageType::FetchResponse,
            QuackMessageView::AppendRequest { .. } => MessageType::SendDataRequest,
            QuackMessageView::SuccessResponse { .. } => MessageType::SuccessResponse,
            QuackMessageView::ErrorResponse { .. } => MessageType::ErrorResponse,
            QuackMessageView::Disconnect { .. } => MessageType::DisconnectMessage,
            QuackMessageView::HeartbeatRequest { .. } => MessageType::HeartbeatRequest,
        }
    }

    pub open spec fn header(self) -> MessageHeaderView {
        match self {
            QuackMessageView::ConnectionRequest { header, .. } => header,
            QuackMessageView::ConnectionResponse { header, .. } => header,
            QuackMessageView::PrepareRequest { header, .. } => header,
            QuackMessageView::PrepareResponse { header, .. } => header,
            QuackMessageView::FetchRequest { header, .. } => header,
            QuackMessageView::FetchResponse { header, .. } => header,
            QuackMessageView::AppendRequest { header, .. } => header,
            QuackMessageView::SuccessResponse { header } => header,
            QuackMessageView::ErrorResponse { header, .. } => header,
            QuackMessageView::Disconnect { header } => header,
            QuackMessageView::HeartbeatRequest { header } => header,
        }
    }
}

impl QuackMessage {
    /// The header of the message.
    pub fn header(&self) -> (header: &MessageHeader)
        ensures
            header@ == self@.header(),
    {
        match self {
            QuackMessage::ConnectionRequest { header, .. } => header,
            QuackMessage::ConnectionResponse { header, .. } => header,
            QuackMessage::PrepareRequest { header, .. } => header,
            QuackMessage::PrepareResponse { header, .. } => header,
            QuackMessage::FetchRequest { header, .. } => header,
            QuackMessage::FetchResponse { header, .. } => header,
            QuackMessage::AppendRequest { header, .. } => header,
            QuackMessage::SuccessResponse { header } => header,
            QuackMessage::ErrorResponse { header, .. } => header,
            QuackMessage::Disconnect { header } => header,
            QuackMessage::HeartbeatRequest { header } => header,
        }
    }

    /// The kind that the body belongs to.
    pub fn kind(&self) -> (kind: MessageType)
        ensures
            kind == self@.kind(),
    {
        match self {
            QuackMessage::ConnectionRequest { .. } => MessageType::ConnectionRequest,
            QuackMessage::ConnectionResponse { .. } => MessageType::ConnectionResponse,
            QuackMessage::PrepareRequest { .. } => MessageType::PrepareRequest,
            QuackMessage::PrepareResponse { .. } => MessageType::PrepareResponse,
            QuackMessage::FetchRequest { .. } => MessageType::FetchRequest,
            QuackMessage::FetchResponse { .. } => MessageType::FetchResponse,
            QuackMessage::AppendRequest { .. } => MessageType::SendDataRequest,
            QuackMessage::SuccessResponse { .. } => MessageType::SuccessResponse,
            QuackMessage::ErrorResponse { .. } => MessageType::ErrorResponse,
            QuackMessage::Disconnect { .. } => MessageType::DisconnectMessage,
            QuackMessage::HeartbeatRequest { .. } => MessageType::HeartbeatRequest,
        }
    }

    /// The kind that the header states.
    pub fn message_type(&self) -> (message_type: MessageType)
        ensures
            message_type == self@.header().message_type,
    {
        self.header().message_type
    }
}

} // verus!
