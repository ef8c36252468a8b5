//! How a client is set up, and what it learns from its server.

use vstd::prelude::*;

use crate::constants::DEFAULT_HEARTBEAT_TIMEOUT_SECS;
use crate::errors::QuackError;
use crate::errors::QuackErrorView;
use crate::text::trim_end_slashes;
use crate::text::without_end_slashes;
use crate::time::Duration;
use crate::time::NANOS_PER_SEC;
use crate::types::option_view;
use crate::uri::parse_quack_uri;
use crate::uri::server_of;

verus! {

/// The time that a request may take, unless a caller chooses otherwise.
pub const DEFAULT_QUACK_REQUEST_TIMEOUT_SECS: u64 = 300;

/// The longest time that connecting to the server may take.
pub const DEFAULT_QUACK_CONNECT_TIMEOUT_SECS: u64 = 10;

/// What a caller can choose about a client.
#[derive(Clone, Debug)]
pub struct QuackClientOptions {
    pub auth_token: Option<String>,
    pub client_duckdb_version: Option<String>,
    pub client_platform: Option<String>,
    pub min_supported_quack_version: Option<u64>,
    pub max_supported_quack_version: Option<u64>,
    pub client_id: Option<String>,
    pub heartbeat_timeout: Option<Duration>,
    pub ssl: Option<bool>,
    pub timeout: Option<Duration>,
    /// Header lines sent with every request, as names and values.
    pub headers: Vec<(String, String)>,
}

impl Default for QuackClientOptions {
    fn default() -> (options: Self)
        ensures
            options.auth_token is None,
            options.client_duckdb_version is None,
            options.client_platform is None,
            options.min_supported_quack_version is None,
            options.max_supported_quack_version is None,
            options.client_id is None,
            options.heartbeat_timeout is Some,
            options.heartbeat_timeout->Some_0.total() == DEFAULT_HEARTBEAT_TIMEOUT_SECS
                * NANOS_PER_SEC,
            options.ssl is None,
            options.timeout is Some,
            options.timeout->Some_0.total() == DEFAULT_QUACK_REQUEST_TIMEOUT_SECS * NANOS_PER_SEC,
            options.headers@.len() == 0,
    {
        QuackClientOptions {
            auth_token: None,
            client_duckdb_version: None,
            client_platform: None,
            min_supported_quack_version: None,
            max_supported_quack_version: None,
            client_id: None,
            heartbeat_timeout: Some(Duration::from_secs(DEFAULT_HEARTBEAT_TIMEOUT_SECS)),
            ssl: None,
            timeout: Some(Duration::from_secs(DEFAULT_QUACK_REQUEST_TIMEOUT_SECS)),
            headers: Vec::new(),
        }
    }
}

/// What the server reported when a connection was made.
#[derive(Clone, Debug, PartialEq, Eq)]
pub struct QuackConnectionInfo {
    pub server_duckdb_version: Option<String>,
    pub server_platform: Option<String>,
    pub quack_version: Option<u64>,
    pub heartbeat_timeout: Option<Duration>,
}

/// The value of a `QuackConnectionInfo`; the heartbeat timeout in nanoseconds.
pub struct QuackConnectionInfoView {
    pub server_duckdb_version: Option<Seq<char>>,
    pub server_platform: Option<Seq<char>>,
    pub quack_version: Option<u64>,
    pub heartbeat_timeout: Option<nat>,
}

impl View for QuackConnectionInfo {
    type V = QuackConnectionInfoView;

    open spec fn view(&self) -> QuackConnectionInfoView {
        QuackConnectionInfoView {
            server_duckdb_version: option_view(self.server_duckdb_version),
            server_platform: option_view(self.server_platform),
            quack_version: self.quack_version,
            heartbeat_timeout: match self.heartbeat_timeout {
                Some(timeout) => Some(timeout.total()),
                None => None,
            },
        }
    }
}

impl Default for QuackConnectionInfo {
    fn default() -> (info: Self)
        ensures
            info@ == (QuackConnectionInfoView {
                server_duckdb_version: None,
                server_platform: None,
                quack_version: None,
                heartbeat_timeout: None,
            }),
    {
        QuackConnectionInfo {
            server_duckdb_version: None,
            server_platform: None,
            quack_version: None,
            heartbeat_timeout: None,
        }
    }
}

/// What a caller can say about a query.
pub struct QueryMetadata {
    pub query_id: Option<String>,
}

/// The identifier that a query is logged under.
pub open spec fn logged_id(query_id: Option<Seq<char>>) -> Seq<char> {
    match query_id {
        Some(id) => id,
        None => "-"@,
    }
}

/// The identifier that a query is logged under: the caller's, or a dash.
pub fn query_id_or_dash(metadata: Option<&QueryMetadata>) -> (id: String)
    ensures
        id@ == (match metadata {
            Some(metadata) => match metadata.query_id {
                Some(id) => id@,
                None => "-"@,
            },
            None => "-"@,
        }),
        id@ == logged_id(
            match metadata {
                Some(metadata) => option_view(metadata.query_id),
                None => None,
            },
        ),
{
    match metadata {
        Some(metadata) => match &metadata.query_id {
            Some(id) => id.clone(),
            None => "-".to_owned(),
        },
        None => "-".to_owned(),
    }
}

/// Where a client sends its requests, and how long it waits for them.
#[derive(Debug)]
pub struct TransportSettings {
    pub base_url: String,
    pub timeout: Duration,
    pub connect_timeout: Duration,
}

/// The time that a request may take.
pub open spec fn request_timeout(timeout: Option<Duration>) -> nat {
    match timeout {
        Some(timeout) => timeout.total(),
        None => DEFAULT_QUACK_REQUEST_TIMEOUT_SECS as nat * NANOS_PER_SEC as nat,
    }
}

/// The time that connecting may take, of the time for a whole request.
pub open spec fn connect_limit(timeout: nat) -> nat {
    if timeout < DEFAULT_QUACK_CONNECT_TIMEOUT_SECS * NANOS_PER_SEC {
        timeout
    } else {
        DEFAULT_QUACK_CONNECT_TIMEOUT_SECS as nat * NANOS_PER_SEC as nat
    }
}

/// The transport that a URI and the options ask for. Connecting may take no
/// longer than a whole request.
pub fn transport_settings(uri: &str, options: &QuackClientOptions) -> (settings: Result<
    TransportSettings,
    QuackError,
>)
    ensures
        match settings {
            Ok(settings) => {
                &&& server_of(uri@, options.ssl) matches Ok(server)
                &&& settings.base_url@ == trim_end_slashes(server.base_url)
                &&& settings.timeout.total() == request_timeout(options.timeout)
                &&& settings.connect_timeout.total() == if request_timeout(options.timeout)
                    < DEFAULT_QUACK_CONNECT_TIMEOUT_SECS * NANOS_PER_SEC {
                    request_timeout(options.timeout)
                } else {
                    DEFAULT_QUACK_CONNECT_TIMEOUT_SECS as nat * NANOS_PER_SEC as nat
                }
                &&& settings.connect_timeout.total() == connect_limit(settings.timeout.total())
            },
            Err(error) => server_of(uri@, options.ssl) == Err::<
                crate::uri::ParsedQuackUriView,
                QuackErrorView,
            >(error@),
        },
{
    match parse_quack_uri(uri, options.ssl) {
        Err(error) => Err(error),
        Ok(parsed) => {
            let timeout = match options.timeout {
                Some(timeout) => timeout,
                None => Duration::from_secs(DEFAULT_QUACK_REQUEST_TIMEOUT_SECS),
            };
            let connect_timeout = Duration::from_secs(DEFAULT_QUACK_CONNECT_TIMEOUT_SECS).min(
                timeout,
            );
            Ok(
                TransportSettings {
                    base_url: without_end_slashes(parsed.base_url.as_str()),
                    timeout,
                    connect_timeout,
                },
            )
        },
    }
}

/// A query is logged under the caller's identifier, whatever it is, and under a
/// dash if there is none.
pub proof fn law_query_is_logged_as_named(id: Seq<char>)
    ensures
        logged_id(Some(id)) == id,
        logged_id(None) == seq!['-'],
{
    reveal_strlit("-");
    assert("-"@ =~= seq!['-']);
}

/// A request may take as long as the caller says, and five minutes if nothing is
/// said. Connecting may take the shorter of that and ten seconds.
pub proof fn law_time_limits_are_kept(timeout: Duration, total: nat)
    ensures
        request_timeout(Some(timeout)) == timeout.total(),
        request_timeout(None) == 300_000_000_000,
        connect_limit(total) <= total,
        connect_limit(total) <= 10_000_000_000,
        connect_limit(total) == total || connect_limit(total) == 10_000_000_000,
{
}

} // verus!
