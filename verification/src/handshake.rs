//! Making a connection: the protocol versions to try, the requests to send and
//! what each answer leads to.
//!
//! A client asks for one exact version at a time, the newest first. The caller
//! sends what `Handshake::request` says and hands the outcome to
//! `Handshake::step`, until that no longer answers `Retry`.

use vstd::prelude::*;

use crate::client::QuackClientOptions;
use crate::client::QuackConnectionInfo;
use crate::client::QuackConnectionInfoView;
use crate::constants::DEFAULT_HEARTBEAT_TIMEOUT_SECS;
use crate::constants::MAX_HEARTBEAT_TIMEOUT_SECS;
use crate::constants::MAX_QUACK_VERSION;
use crate::constants::MIN_QUACK_VERSION;
use crate::constants::QUACK_V1;
use crate::constants::QUACK_V3;
use crate::errors::QuackError;
use crate::errors::QuackErrorView;
use crate::messages::MessageHeader;
use crate::messages::MessageHeaderView;
use crate::messages::MessageType;
use crate::messages::QuackMessage;
use crate::messages::QuackMessageView;
use crate::text::contains_text;
use crate::text::law_decimal_notation;
use crate::text::writes_number;
use crate::text::decimal;
use crate::text::decimal_text;
use crate::text::has_text;
use crate::text::joined;
use crate::text::lemma_speaks_of;
use crate::text::lower;
use crate::text::lower_chars;
use crate::text::speaks_of;
use crate::time::Duration;
use crate::time::NANOS_PER_SEC;
use crate::types::option_view;
use crate::uri::plain_result;

verus! {

/// Whether a heartbeat timeout is one that the protocol allows.
pub open spec fn heartbeat_timeout_allowed(seconds: u64) -> bool {
    1 <= seconds <= MAX_HEARTBEAT_TIMEOUT_SECS
}

/// What is said about a heartbeat timeout that is not allowed.
pub open spec fn heartbeat_timeout_error() -> QuackErrorView {
    QuackErrorView::Protocol(
        "heartbeat timeout must be between 1 and "@ + decimal(MAX_HEARTBEAT_TIMEOUT_SECS as nat)
            + " seconds"@,
    )
}

/// What is said of a heartbeat timeout.
pub open spec fn timeout_checked(seconds: u64) -> Result<(), QuackErrorView> {
    if heartbeat_timeout_allowed(seconds) {
        Ok(())
    } else {
        Err(heartbeat_timeout_error())
    }
}

/// Accepts a heartbeat timeout that the protocol allows.
pub fn validate_heartbeat_timeout(seconds: u64) -> (result: Result<(), QuackError>)
    ensures
        plain_result(result) == if heartbeat_timeout_allowed(seconds) {
            Ok(())
        } else {
            Err(heartbeat_timeout_error())
        },
        plain_result(result) == timeout_checked(seconds),
{
    if seconds < 1 || seconds > MAX_HEARTBEAT_TIMEOUT_SECS {
        let limit = decimal_text(MAX_HEARTBEAT_TIMEOUT_SECS as u128);
        let message = joined(
            joined("heartbeat timeout must be between 1 and ", limit.as_str()).as_str(),
            " seconds",
        );
        return Err(QuackError::Protocol(message));
    }
    Ok(())
}

/// Whether a message, in lower case, reads like that of a server which does not
/// know the version it was asked for.
pub open spec fn blames_the_version(message: Seq<char>) -> bool {
    ||| contains_text(message, "quack version"@)
    ||| contains_text(message, "protocol version"@)
    ||| contains_text(message, "http request failed with 500"@)
    ||| contains_text(message, "deserialize"@)
    ||| contains_text(message, "end of object"@)
    ||| contains_text(message, "unexpected field"@)
}

/// Whether an error may come from a server that does not know the version it
/// was asked for.
pub open spec fn version_negotiation_error(error: QuackErrorView) -> bool {
    match error {
        QuackErrorView::Protocol(message) => blames_the_version(lower(message)),
        QuackErrorView::Server(message) => blames_the_version(lower(message)),
        _ => false,
    }
}

/// Whether an error may come from a server that does not know the version it
/// was asked for.
pub fn is_version_negotiation_error(error: &QuackError) -> (found: bool)
    ensures
        found == version_negotiation_error(error@),
{
    let message = match error {
        QuackError::Protocol(message) => lower_chars(message.as_str()),
        QuackError::Server(message) => lower_chars(message.as_str()),
        _ => {
            return false;
        },
    };
    has_text(&message, "quack version") || has_text(&message, "protocol version") || has_text(
        &message,
        "http request failed with 500",
    ) || has_text(&message, "deserialize") || has_text(&message, "end of object") || has_text(
        &message,
        "unexpected field",
    )
}

/// The versions to try for a range of versions, in order.
pub open spec fn versions_within(min: u64, max: u64) -> Seq<u64> {
    (if min <= QUACK_V3 <= max {
        seq![QUACK_V3]
    } else {
        seq![]
    }) + (if min <= QUACK_V1 <= max {
        seq![QUACK_V1]
    } else {
        seq![]
    })
}

/// The lowest version that the options allow.
pub open spec fn min_version(options: QuackClientOptions) -> u64 {
    match options.min_supported_quack_version {
        Some(version) => version,
        None => MIN_QUACK_VERSION,
    }
}

/// The highest version that the options allow.
pub open spec fn max_version(options: QuackClientOptions) -> u64 {
    match options.max_supported_quack_version {
        Some(version) => version,
        None => MAX_QUACK_VERSION,
    }
}

/// The lease that the options ask for, in whole seconds.
pub open spec fn requested_heartbeat_seconds(options: QuackClientOptions) -> u64 {
    match options.heartbeat_timeout {
        Some(timeout) => (timeout.total() / (NANOS_PER_SEC as nat)) as u64,
        None => DEFAULT_HEARTBEAT_TIMEOUT_SECS,
    }
}

/// A connection being made.
#[derive(Debug)]
pub struct Handshake {
    versions: Vec<u64>,
    index: usize,
    previous_error: Option<QuackError>,
    auth_string: Option<String>,
    client_duckdb_version: Option<String>,
    client_platform: String,
    client_id: Option<String>,
    heartbeat_timeout_seconds: u64,
}

/// The value of a `Handshake`.
pub struct HandshakeView {
    /// The versions to try, in order.
    pub versions: Seq<u64>,
    /// The place of the version that is being tried.
    pub index: nat,
    /// What an earlier version was refused with.
    pub previous_error: Option<QuackErrorView>,
    pub auth_string: Option<Seq<char>>,
    pub client_duckdb_version: Option<Seq<char>>,
    pub client_platform: Seq<char>,
    pub client_id: Option<Seq<char>>,
    pub heartbeat_timeout_seconds: u64,
}

impl View for Handshake {
    type V = HandshakeView;

    closed spec fn view(&self) -> HandshakeView {
        HandshakeView {
            versions: self.versions@,
            index: self.index as nat,
            previous_error: option_view(self.previous_error),
            auth_string: option_view(self.auth_string),
            client_duckdb_version: option_view(self.client_duckdb_version),
            client_platform: self.client_platform@,
            client_id: option_view(self.client_id),
            heartbeat_timeout_seconds: self.heartbeat_timeout_seconds,
        }
    }
}

/// What an answered request leads to.
pub enum HandshakeStep {
    /// Send the request of this handshake next.
    Retry(Handshake),
    /// There is no connection.
    Refused(QuackError),
    /// The connection is made.
    Connected { connection_id: String, info: QuackConnectionInfo },
}

/// The value of a `HandshakeStep`.
pub enum HandshakeStepView {
    Retry(HandshakeView),
    Refused(QuackErrorView),
    Connected { connection_id: Seq<char>, info: QuackConnectionInfoView },
}

impl View for HandshakeStep {
    type V = HandshakeStepView;

    open spec fn view(&self) -> HandshakeStepView {
        match self {
            HandshakeStep::Retry(handshake) => HandshakeStepView::Retry(handshake@),
            HandshakeStep::Refused(error) => HandshakeStepView::Refused(error@),
            HandshakeStep::Connected { connection_id, info } => HandshakeStepView::Connected {
                connection_id: connection_id@,
                info: info@,
            },
        }
    }
}

/// An optional number as shown in an error message.
pub open spec fn shown_option(value: Option<u64>) -> Seq<char> {
    match value {
        Some(n) => "Some("@ + decimal(n as nat) + ")"@,
        None => "None"@,
    }
}

fn shown_option_text(value: Option<u64>) -> (text: String)
    ensures
        text@ == shown_option(value),
{
    match value {
        Some(n) => joined(joined("Some(", decimal_text(n as u128).as_str()).as_str(), ")"),
        None => "None".to_owned(),
    }
}

/// What the options ask to begin with.
pub open spec fn handshake_for(options: QuackClientOptions) -> Result<
    HandshakeView,
    QuackErrorView,
> {
    let min = min_version(options);
    let max = max_version(options);
    let versions = versions_within(min, max);
    let seconds = requested_heartbeat_seconds(options);
    if min > max {
        Err(
            QuackErrorView::Protocol(
                "minimum Quack protocol version "@ + decimal(min as nat) + " exceeds maximum "@
                    + decimal(max as nat),
            ),
        )
    } else if versions.len() == 0 {
        Err(
            QuackErrorView::Protocol(
                "supported Quack protocol versions are "@ + decimal(QUACK_V1 as nat) + " and "@
                    + decimal(QUACK_V3 as nat) + ", requested range was "@ + decimal(min as nat)
                    + "..="@ + decimal(max as nat),
            ),
        )
    } else if versions[0] == QUACK_V3 && !heartbeat_timeout_allowed(seconds) {
        Err(heartbeat_timeout_error())
    } else {
        Ok(
            HandshakeView {
                versions,
                index: 0,
                previous_error: None,
                auth_string: option_view(options.auth_token),
                client_duckdb_version: option_view(options.client_duckdb_version),
                client_platform: match options.client_platform {
                    Some(platform) => platform@,
                    None => "quack-rust"@,
                },
                client_id: option_view(options.client_id),
                heartbeat_timeout_seconds: seconds,
            },
        )
    }
}

impl HandshakeView {
    /// The versions are known ones in their order, and the one being tried is
    /// among them.
    pub open spec fn well_formed(self) -> bool {
        &&& self.versions == seq![QUACK_V3, QUACK_V1] || self.versions == seq![QUACK_V3]
            || self.versions == seq![QUACK_V1]
        &&& self.index < self.versions.len()
    }

    /// The version being tried.
    pub open spec fn version(self) -> u64 {
        self.versions[self.index as int]
    }

    /// The request to send.
    pub open spec fn request(self) -> QuackMessageView {
        self.request_for(self.version())
    }

    /// The request for one exact version.
    pub open spec fn request_for(self, version: u64) -> QuackMessageView {
        QuackMessageView::ConnectionRequest {
            header: MessageHeaderView::new(MessageType::ConnectionRequest),
            auth_string: self.auth_string,
            client_duckdb_version: self.client_duckdb_version,
            client_platform: Some(self.client_platform),
            min_supported_quack_version: version,
            max_supported_quack_version: version,
            client_id: self.client_id,
            heartbeat_timeout_seconds: self.heartbeat_timeout_seconds,
        }
    }

    /// What a failed request leads to.
    pub open spec fn after_error(self, error: QuackErrorView) -> HandshakeStepView {
        if self.index + 1 < self.versions.len() && self.version() == QUACK_V3
            && version_negotiation_error(error) {
            HandshakeStepView::Retry(
                HandshakeView {
                    index: (self.index + 1) as nat,
                    previous_error: Some(error),
                    ..self
                },
            )
        } else {
            match self.previous_error {
                Some(previous) if version_negotiation_error(error) => HandshakeStepView::Refused(
                    previous,
                ),
                _ => HandshakeStepView::Refused(error),
            }
        }
    }

    /// What an answer leads to.
    pub open spec fn after_answer(self, answer: QuackMessageView) -> HandshakeStepView {
        match answer {
            QuackMessageView::ConnectionResponse {
                header,
                server_duckdb_version,
                server_platform,
                quack_version,
                heartbeat_timeout_seconds,
            } => match header.connection_id {
                None => refused("CONNECTION_RESPONSE did not include a connection id"@),
                Some(connection_id) => if quack_version != Some(self.version()) {
                    refused(
                        "server selected Quack protocol version "@ + shown_option(quack_version)
                            + ", expected "@ + decimal(self.version() as nat),
                    )
                } else if self.version() != QUACK_V3 {
                    HandshakeStepView::Connected {
                        connection_id,
                        info: QuackConnectionInfoView {
                            server_duckdb_version,
                            server_platform,
                            quack_version: Some(self.version()),
                            heartbeat_timeout: None,
                        },
                    }
                } else {
                    match heartbeat_timeout_seconds {
                        None => refused(
                            "protocol v3 CONNECTION_RESPONSE did not include a heartbeat timeout"@,
                        ),
                        Some(seconds) => if !heartbeat_timeout_allowed(seconds) {
                            HandshakeStepView::Refused(heartbeat_timeout_error())
                        } else {
                            HandshakeStepView::Connected {
                                connection_id,
                                info: QuackConnectionInfoView {
                                    server_duckdb_version,
                                    server_platform,
                                    quack_version: Some(self.version()),
                                    heartbeat_timeout: Some(
                                        seconds as nat * NANOS_PER_SEC as nat,
                                    ),
                                },
                            }
                        },
                    }
                },
            },
            other => refused(
                "expected CONNECTION_RESPONSE, got "@ + other.header().message_type.spec_name(),
            ),
        }
    }

    /// What the outcome of the request leads to.
    pub open spec fn step(
        self,
        outcome: Result<QuackMessageView, QuackErrorView>,
    ) -> HandshakeStepView {
        match outcome {
            Ok(answer) => self.after_answer(answer),
            Err(error) => self.after_error(error),
        }
    }
}

/// A refusal for a breach of the protocol.
pub open spec fn refused(message: Seq<char>) -> HandshakeStepView {
    HandshakeStepView::Refused(QuackErrorView::Protocol(message))
}

/// The outcome of a request, as plain values.
pub open spec fn outcome_view(outcome: Result<QuackMessage, QuackError>) -> Result<
    QuackMessageView,
    QuackErrorView,
> {
    match outcome {
        Ok(answer) => Ok(answer@),
        Err(error) => Err(error@),
    }
}

fn copied(text: &Option<String>) -> (copy: Option<String>)
    ensures
        option_view(copy) == option_view(*text),
{
    match text {
        Some(text) => Some(text.clone()),
        None => None,
    }
}

impl Handshake {
    #[verifier::type_invariant]
    closed spec fn well_formed(self) -> bool {
        self@.well_formed()
    }

    /// Begins a handshake as the options ask.
    pub fn start(options: &QuackClientOptions) -> (handshake: Result<Self, QuackError>)
        ensures
            match handshake {
                Ok(handshake) => handshake_for(*options) == Ok::<_, QuackErrorView>(handshake@)
                    && handshake@.well_formed(),
                Err(error) => handshake_for(*options) == Err::<HandshakeView, _>(error@),
            },
    {
        let min: u64 = match options.min_supported_quack_version {
            Some(version) => version,
            None => MIN_QUACK_VERSION,
        };
        let max: u64 = match options.max_supported_quack_version {
            Some(version) => version,
            None => MAX_QUACK_VERSION,
        };
        let min_text = decimal_text(min as u128);
        let max_text = decimal_text(max as u128);
        if min > max {
            let message = joined(
                joined(
                    joined("minimum Quack protocol version ", min_text.as_str()).as_str(),
                    " exceeds maximum ",
                ).as_str(),
                max_text.as_str(),
            );
            return Err(QuackError::Protocol(message));
        }
        let mut versions: Vec<u64> = Vec::new();
        if min <= QUACK_V3 && QUACK_V3 <= max {
            versions.push(QUACK_V3);
        }
        if min <= QUACK_V1 && QUACK_V1 <= max {
            versions.push(QUACK_V1);
        }
        assert(versions@ =~= versions_within(min, max));
        if versions.len() == 0 {
            let known = joined(
                joined(
                    joined(
                        "supported Quack protocol versions are ",
                        decimal_text(QUACK_V1 as u128).as_str(),
                    ).as_str(),
                    " and ",
                ).as_str(),
                decimal_text(QUACK_V3 as u128).as_str(),
            );
            let message = joined(
                joined(
                    joined(
                        joined(known.as_str(), ", requested range was ").as_str(),
                        min_text.as_str(),
                    ).as_str(),
                    "..=",
                ).as_str(),
                max_text.as_str(),
            );
            return Err(QuackError::Protocol(message));
        }
        let seconds: u64 = match options.heartbeat_timeout {
            Some(timeout) => timeout.as_secs(),
            None => DEFAULT_HEARTBEAT_TIMEOUT_SECS,
        };
        if versions[0] == QUACK_V3 {
            match validate_heartbeat_timeout(seconds) {
                Ok(_) => {},
                Err(error) => {
                    return Err(error);
                },
            }
        }
        let platform = match &options.client_platform {
            Some(platform) => platform.clone(),
            None => "quack-rust".to_owned(),
        };
        assert(versions@ =~= seq![QUACK_V3, QUACK_V1] || versions@ =~= seq![QUACK_V3] || versions@
            =~= seq![QUACK_V1]);
        Ok(
            Handshake {
                versions,
                index: 0,
                previous_error: None,
                auth_string: copied(&options.auth_token),
                client_duckdb_version: copied(&options.client_duckdb_version),
                client_platform: platform,
                client_id: copied(&options.client_id),
                heartbeat_timeout_seconds: seconds,
            },
        )
    }

    /// The version being tried.
    pub fn version(&self) -> (version: u64)
        ensures
            version == self@.version(),
            version == QUACK_V3 || version == QUACK_V1,
    {
        proof {
            use_type_invariant(self);
        }
        self.versions[self.index]
    }

    /// The request to send.
    pub fn request(&self) -> (request: QuackMessage)
        ensures
            request@ == self@.request(),
    {
        let version: u64 = self.version();
        QuackMessage::ConnectionRequest {
            header: MessageHeader::new(MessageType::ConnectionRequest),
            auth_string: copied(&self.auth_string),
            client_duckdb_version: copied(&self.client_duckdb_version),
            client_platform: Some(self.client_platform.clone()),
            min_supported_quack_version: version,
            max_supported_quack_version: version,
            client_id: copied(&self.client_id),
            heartbeat_timeout_seconds: self.heartbeat_timeout_seconds,
        }
    }

    fn after_error(self, error: QuackError) -> (step: HandshakeStep)
        ensures
            step@ == self@.after_error(error@),
    {
        proof {
            use_type_invariant(&self);
        }
        let version: u64 = self.version();
        let blames_version = is_version_negotiation_error(&error);
        if self.index + 1 < self.versions.len() && version == QUACK_V3 && blames_version {
            return HandshakeStep::Retry(
                Handshake {
                    versions: self.versions,
                    index: self.index + 1,
                    previous_error: Some(error),
                    auth_string: self.auth_string,
                    client_duckdb_version: self.client_duckdb_version,
                    client_platform: self.client_platform,
                    client_id: self.client_id,
                    heartbeat_timeout_seconds: self.heartbeat_timeout_seconds,
                },
            );
        }
        if blames_version {
            if let Some(previous) = self.previous_error {
                return HandshakeStep::Refused(previous);
            }
        }
        HandshakeStep::Refused(error)
    }

    fn after_answer(self, answer: QuackMessage) -> (step: HandshakeStep)
        ensures
            step@ == self@.after_answer(answer@),
    {
        let version: u64 = self.version();
        match answer {
            QuackMessage::ConnectionResponse {
                header,
                server_duckdb_version,
                server_platform,
                quack_version,
                heartbeat_timeout_seconds,
            } => {
                let connection_id = match header.connection_id {
                    Some(connection_id) => connection_id,
                    None => {
                        return HandshakeStep::Refused(
                            QuackError::protocol(
                                "CONNECTION_RESPONSE did not include a connection id",
                            ),
                        );
                    },
                };
                let selected = match quack_version {
                    Some(selected) => selected == version,
                    None => false,
                };
                if !selected {
                    let message = joined(
                        joined(
                            joined(
                                "server selected Quack protocol version ",
                                shown_option_text(quack_version).as_str(),
                            ).as_str(),
                            ", expected ",
                        ).as_str(),
                        decimal_text(version as u128).as_str(),
                    );
                    return HandshakeStep::Refused(QuackError::Protocol(message));
                }
                let heartbeat_timeout = if version == QUACK_V3 {
                    match heartbeat_timeout_seconds {
                        None => {
                            return HandshakeStep::Refused(
                                QuackError::protocol(
                                    "protocol v3 CONNECTION_RESPONSE did not include a heartbeat timeout",
                                ),
                            );
                        },
                        Some(seconds) => {
                            if let Err(error) = validate_heartbeat_timeout(seconds) {
                                return HandshakeStep::Refused(error);
                            }
                            Some(Duration::from_secs(seconds))
                        },
                    }
                } else {
                    None
                };
                HandshakeStep::Connected {
                    connection_id,
                    info: QuackConnectionInfo {
                        server_duckdb_version,
                        server_platform,
                        quack_version: Some(version),
                        heartbeat_timeout,
                    },
                }
            },
            other => {
                let message = joined(
                    "expected CONNECTION_RESPONSE, got ",
                    other.message_type().name(),
                );
                HandshakeStep::Refused(QuackError::Protocol(message))
            },
        }
    }

    /// What the outcome of the request leads to.
    pub fn step(self, outcome: Result<QuackMessage, QuackError>) -> (step: HandshakeStep)
        ensures
            step@ == self@.step(outcome_view(outcome)),
            step matches HandshakeStep::Retry(next) ==> next@.well_formed(),
    {
        proof {
            use_type_invariant(&self);
        }
        match outcome {
            Ok(answer) => self.after_answer(answer),
            Err(error) => self.after_error(error),
        }
    }
}

/// Where a handshake stands after the outcomes of its requests, one by one.
/// Outcomes after the last request that is sent play no part.
pub open spec fn negotiated(
    handshake: HandshakeView,
    outcomes: Seq<Result<QuackMessageView, QuackErrorView>>,
) -> HandshakeStepView
    decreases outcomes.len(),
{
    if outcomes.len() == 0 {
        HandshakeStepView::Retry(handshake)
    } else {
        match handshake.step(outcomes[0]) {
            HandshakeStepView::Retry(next) => negotiated(next, outcomes.skip(1)),
            done => done,
        }
    }
}

/// A handshake ends: it never takes more requests than there are versions to
/// try.
pub proof fn law_handshake_ends(
    handshake: HandshakeView,
    outcomes: Seq<Result<QuackMessageView, QuackErrorView>>,
)
    requires
        handshake.well_formed(),
        outcomes.len() >= handshake.versions.len() - handshake.index,
    ensures
        !(negotiated(handshake, outcomes) is Retry),
    decreases outcomes.len(),
{
    if let HandshakeStepView::Retry(next) = handshake.step(outcomes[0]) {
        law_handshake_ends(next, outcomes.skip(1));
    }
}

/// Version 3 is preferred: unless the options rule it out, it is what the
/// first request asks for.
pub proof fn law_newest_version_first(options: QuackClientOptions, handshake: HandshakeView)
    requires
        handshake_for(options) == Ok::<_, QuackErrorView>(handshake),
    ensures
        handshake.well_formed(),
        handshake.version() == if max_version(options) >= QUACK_V3 && min_version(options)
            <= QUACK_V3 {
            QUACK_V3
        } else {
            QUACK_V1
        },
{
    let versions = versions_within(min_version(options), max_version(options));
    assert(versions =~= seq![QUACK_V3, QUACK_V1] || versions =~= seq![QUACK_V3] || versions
        =~= seq![QUACK_V1] || versions.len() == 0);
}

/// An older server that turns down version 3 for its version is asked again
/// for version 1, in an otherwise equal request, unless the options rule that
/// out. Any other error ends the handshake and is what the caller gets.
pub proof fn law_older_server_is_asked_for_version_1(
    options: QuackClientOptions,
    handshake: HandshakeView,
    error: QuackErrorView,
)
    requires
        handshake_for(options) == Ok::<_, QuackErrorView>(handshake),
        handshake.version() == QUACK_V3,
    ensures
        min_version(options) <= QUACK_V1 && version_negotiation_error(error) ==> {
            &&& handshake.step(Err(error)) matches HandshakeStepView::Retry(next)
            &&& next.version() == QUACK_V1
            &&& next.request() == handshake.request_for(QUACK_V1)
        },
        min_version(options) > QUACK_V1 || !version_negotiation_error(error) ==> handshake.step(
            Err(error),
        ) == HandshakeStepView::Refused(error),
{
    let min = min_version(options);
    let max = max_version(options);
    let versions = versions_within(min, max);
    assert(versions.len() > 0 && versions[0] == QUACK_V3);
    if min <= QUACK_V1 {
        assert(versions =~= seq![QUACK_V3, QUACK_V1]);
    } else {
        assert(versions =~= seq![QUACK_V3]);
    }
}

/// Where version 3 and version 1 are both turned down for their version, the
/// caller gets what version 3 was turned down with.
pub proof fn law_first_refusal_is_reported(
    handshake: HandshakeView,
    first: QuackErrorView,
    second: QuackErrorView,
)
    requires
        handshake.well_formed(),
        handshake.versions == seq![QUACK_V3, QUACK_V1],
        handshake.index == 0,
        version_negotiation_error(first),
    ensures
        negotiated(handshake, seq![Err(first), Err(second)]) == HandshakeStepView::Refused(
            if version_negotiation_error(second) {
                first
            } else {
                second
            },
        ),
{
    let outcomes: Seq<Result<QuackMessageView, QuackErrorView>> = seq![Err(first), Err(second)];
    let next = handshake.step(outcomes[0])->Retry_0;
    assert(outcomes.skip(1)[0] == outcomes[1]);
    assert(negotiated(next, outcomes.skip(1)) == next.step(Err(second)));
}

/// Equal limits on the version require that one version: there is one request,
/// for that version, and its outcome decides.
pub proof fn law_equal_limits_require_one_version(
    options: QuackClientOptions,
    handshake: HandshakeView,
    outcome: Result<QuackMessageView, QuackErrorView>,
)
    requires
        handshake_for(options) == Ok::<_, QuackErrorView>(handshake),
        min_version(options) == max_version(options),
    ensures
        handshake.version() == min_version(options),
        !(handshake.step(outcome) is Retry),
        outcome matches Err(error) ==> handshake.step(outcome) == HandshakeStepView::Refused(error),
{
    let versions = versions_within(min_version(options), max_version(options));
    assert(versions =~= seq![QUACK_V3] || versions =~= seq![QUACK_V1] || versions.len() == 0);
}

/// A connection that is made reports the version it was asked for, which is
/// one that the handshake set out to try, and a heartbeat timeout that the
/// protocol allows with version 3 only.
pub proof fn law_connection_reports_its_version(
    handshake: HandshakeView,
    answer: QuackMessageView,
    connection_id: Seq<char>,
    info: QuackConnectionInfoView,
)
    requires
        handshake.well_formed(),
        handshake.step(Ok(answer)) == (HandshakeStepView::Connected { connection_id, info }),
    ensures
        info.quack_version == Some(handshake.version()),
        handshake.versions.contains(handshake.version()),
        answer.header().connection_id == Some(connection_id),
        info.heartbeat_timeout is Some <==> handshake.version() == QUACK_V3,
        info.heartbeat_timeout matches Some(nanos) ==> exists|seconds: u64|
            #[trigger] heartbeat_timeout_allowed(seconds) && nanos == seconds * NANOS_PER_SEC,
{
}

/// Whether a message asks for a connection of one version in the way that the
/// options say, field by field.
pub open spec fn asks_as_optioned(
    message: QuackMessageView,
    options: QuackClientOptions,
    version: u64,
) -> bool {
    message matches QuackMessageView::ConnectionRequest {
        header,
        auth_string,
        client_duckdb_version,
        client_platform,
        min_supported_quack_version,
        max_supported_quack_version,
        client_id,
        heartbeat_timeout_seconds,
    } && {
        &&& header.message_type == MessageType::ConnectionRequest
        &&& header.connection_id is None
        &&& header.client_query_id is None
        &&& auth_string is Some <==> options.auth_token is Some
        &&& options.auth_token matches Some(token) ==> auth_string == Some(token@)
        &&& client_duckdb_version is Some <==> options.client_duckdb_version is Some
        &&& options.client_duckdb_version matches Some(text) ==> client_duckdb_version == Some(
            text@,
        )
        &&& options.client_platform matches Some(platform) ==> client_platform == Some(platform@)
        &&& options.client_platform is None ==> client_platform == Some("quack-rust"@)
        &&& min_supported_quack_version == version
        &&& max_supported_quack_version == version
        &&& client_id is Some <==> options.client_id is Some
        &&& options.client_id matches Some(id) ==> client_id == Some(id@)
        &&& options.heartbeat_timeout is None ==> heartbeat_timeout_seconds == 60
        &&& options.heartbeat_timeout matches Some(timeout) ==> timeout.total()
            < 0x1_0000_0000_0000_0000 * NANOS_PER_SEC ==> heartbeat_timeout_seconds * NANOS_PER_SEC
            <= timeout.total() < (heartbeat_timeout_seconds + 1) * NANOS_PER_SEC
    }
}

/// Whether the options leave a version to be tried: it is a known one, and
/// within the limits that they set.
pub open spec fn allows_version(options: QuackClientOptions, version: u64) -> bool {
    &&& version == 1 || version == 3
    &&& options.min_supported_quack_version matches Some(min) ==> min <= version
    &&& options.max_supported_quack_version matches Some(max) ==> version <= max
}

proof fn lemma_request_is_kept(
    handshake: HandshakeView,
    outcomes: Seq<Result<QuackMessageView, QuackErrorView>>,
)
    ensures
        negotiated(handshake, outcomes) matches HandshakeStepView::Retry(now) ==> {
            &&& now.auth_string == handshake.auth_string
            &&& now.client_duckdb_version == handshake.client_duckdb_version
            &&& now.client_platform == handshake.client_platform
            &&& now.client_id == handshake.client_id
            &&& now.heartbeat_timeout_seconds == handshake.heartbeat_timeout_seconds
            &&& now.versions == handshake.versions
            &&& handshake.well_formed() ==> now.well_formed()
        },
    decreases outcomes.len(),
{
    if outcomes.len() > 0 {
        if let HandshakeStepView::Retry(next) = handshake.step(outcomes[0]) {
            lemma_request_is_kept(next, outcomes.skip(1));
        }
    }
}

proof fn lemma_started(options: QuackClientOptions, handshake: HandshakeView)
    requires
        handshake_for(options) == Ok::<_, QuackErrorView>(handshake),
    ensures
        handshake.well_formed(),
        handshake.index == 0,
        forall|version: u64|
            handshake.versions.contains(version) <==> #[trigger] allows_version(options, version),
{
    let versions = versions_within(min_version(options), max_version(options));
    assert(versions =~= seq![QUACK_V3, QUACK_V1] || versions =~= seq![QUACK_V3] || versions
        =~= seq![QUACK_V1]);
    assert forall|version: u64|
        handshake.versions.contains(version) <==> #[trigger] allows_version(options, version) by {
        if allows_version(options, version) {
            assert(versions[0] == version || versions[versions.len() - 1] == version);
        }
    }
}

/// Every request of a handshake, the first one and any retry, asks for one
/// exact version that the options allow and says all else as the options do:
/// the token, the version of DuckDB, the platform, the client and the lease.
pub proof fn law_every_request_says_what_the_options_say(
    options: QuackClientOptions,
    handshake: HandshakeView,
    outcomes: Seq<Result<QuackMessageView, QuackErrorView>>,
)
    requires
        handshake_for(options) == Ok::<_, QuackErrorView>(handshake),
    ensures
        negotiated(handshake, outcomes) matches HandshakeStepView::Retry(now) ==> allows_version(
            options,
            now.version(),
        ) && asks_as_optioned(now.request(), options, now.version()),
{
    lemma_started(options, handshake);
    lemma_request_is_kept(handshake, outcomes);
    if let HandshakeStepView::Retry(now) = negotiated(handshake, outcomes) {
        assert(now.versions.contains(now.version()));
        assert(allows_version(options, now.version()));
        if let Some(timeout) = options.heartbeat_timeout {
            let total = timeout.total() as int;
            if total < 0x1_0000_0000_0000_0000 * NANOS_PER_SEC {
                let whole = total / (NANOS_PER_SEC as int);
                assert(0 <= whole < 0x1_0000_0000_0000_0000 && whole * NANOS_PER_SEC <= total < (
                whole + 1) * NANOS_PER_SEC) by (nonlinear_arith)
                    requires
                        0 <= total < 0x1_0000_0000_0000_0000 * NANOS_PER_SEC,
                        NANOS_PER_SEC == 1_000_000_000,
                        whole == total / (NANOS_PER_SEC as int),
                ;
            }
        }
    }
}

/// A request that is sent again differs from the first one in its two version
/// fields only.
pub proof fn law_retry_changes_the_version_only(handshake: HandshakeView, error: QuackErrorView)
    requires
        handshake.well_formed(),
    ensures
        handshake.step(Err(error)) matches HandshakeStepView::Retry(next) ==> {
            &&& handshake.request() matches QuackMessageView::ConnectionRequest {
                header,
                auth_string,
                client_duckdb_version,
                client_platform,
                min_supported_quack_version,
                max_supported_quack_version,
                client_id,
                heartbeat_timeout_seconds,
            }
            &&& min_supported_quack_version == 3 && max_supported_quack_version == 3
            &&& next.request() == (QuackMessageView::ConnectionRequest {
                header,
                auth_string,
                client_duckdb_version,
                client_platform,
                min_supported_quack_version: 1,
                max_supported_quack_version: 1,
                client_id,
                heartbeat_timeout_seconds,
            })
        },
{
}

/// A handshake begins exactly if the options leave a version to be tried and,
/// where version 3 is among these, ask for a lease of one second to one hour.
/// The newest version that the options allow is tried first.
pub proof fn law_handshake_begins_within_the_limits(options: QuackClientOptions)
    requires
        options.heartbeat_timeout matches Some(timeout) ==> timeout.total()
            < 0x1_0000_0000_0000_0000 * NANOS_PER_SEC,
    ensures
        handshake_for(options) is Ok <==> {
            &&& allows_version(options, 1) || allows_version(options, 3)
            &&& allows_version(options, 3) ==> (options.heartbeat_timeout matches Some(timeout)
                ==> NANOS_PER_SEC <= timeout.total() < 3601 * NANOS_PER_SEC)
        },
        handshake_for(options) matches Ok(handshake) ==> handshake.version() == if allows_version(
            options,
            3,
        ) {
            3u64
        } else {
            1u64
        },
{
    let min = min_version(options);
    let max = max_version(options);
    let versions = versions_within(min, max);
    assert(allows_version(options, 3) ==> versions.len() > 0 && versions[0] == 3);
    assert(!allows_version(options, 3) && allows_version(options, 1) ==> versions.len() > 0
        && versions[0] == 1);
    assert(!allows_version(options, 3) && !allows_version(options, 1) ==> versions.len() == 0);
    if let Some(timeout) = options.heartbeat_timeout {
        let total = timeout.total() as int;
        let whole = total / (NANOS_PER_SEC as int);
        assert(0 <= whole < 0x1_0000_0000_0000_0000 && (1 <= whole <= 3600 <==> NANOS_PER_SEC
            <= total < 3601 * NANOS_PER_SEC)) by (nonlinear_arith)
            requires
                0 <= total < 0x1_0000_0000_0000_0000 * NANOS_PER_SEC,
                NANOS_PER_SEC == 1_000_000_000,
                whole == total / (NANOS_PER_SEC as int),
        ;
    }
}

/// An error is taken for one about the version exactly if it is a breach of the
/// protocol or an answer of the server whose message holds one of the phrases
/// that older servers and their decoders use, whatever stands around it and
/// whatever its case. A transport failure, an unknown type, a bad URL and bad
/// text never are.
pub proof fn law_errors_about_the_version(message: Seq<char>)
    ensures
        ({
            let about = speaks_of(message, "quack version"@) || speaks_of(
                message,
                "protocol version"@,
            ) || speaks_of(message, "http request failed with 500"@) || speaks_of(
                message,
                "deserialize"@,
            ) || speaks_of(message, "end of object"@) || speaks_of(message, "unexpected field"@);
            &&& version_negotiation_error(QuackErrorView::Protocol(message)) == about
            &&& version_negotiation_error(QuackErrorView::Server(message)) == about
        }),
        !version_negotiation_error(QuackErrorView::Http(message)),
        !version_negotiation_error(QuackErrorView::UnsupportedType(message)),
        !version_negotiation_error(QuackErrorView::Url(message)),
        !version_negotiation_error(QuackErrorView::Utf8(message)),
{
    reveal_strlit("quack version");
    reveal_strlit("protocol version");
    reveal_strlit("http request failed with 500");
    reveal_strlit("deserialize");
    reveal_strlit("end of object");
    reveal_strlit("unexpected field");
    lemma_speaks_of(message, "quack version"@);
    lemma_speaks_of(message, "protocol version"@);
    lemma_speaks_of(message, "http request failed with 500"@);
    lemma_speaks_of(message, "deserialize"@);
    lemma_speaks_of(message, "end of object"@);
    lemma_speaks_of(message, "unexpected field"@);
}

/// A connection is made exactly if the answer grants one of the version that
/// was asked for, under a connection id and, with version 3, with a lease of one
/// second to one hour. What the caller learns is then what the answer says.
pub proof fn law_connection_is_made_as_granted(handshake: HandshakeView, answer: QuackMessageView)
    requires
        handshake.well_formed(),
    ensures
        handshake.step(Ok(answer)) is Connected <==> (answer matches QuackMessageView::ConnectionResponse {
            header,
            quack_version,
            heartbeat_timeout_seconds,
            ..
        } && header.connection_id is Some && quack_version == Some(handshake.version()) && (
        handshake.version() == 3 ==> (heartbeat_timeout_seconds matches Some(seconds) && 1
            <= seconds <= 3600))),
        !(handshake.step(Ok(answer)) is Retry),
        handshake.step(Ok(answer)) matches HandshakeStepView::Connected { connection_id, info }
            ==> {
            &&& answer matches QuackMessageView::ConnectionResponse {
                header,
                server_duckdb_version,
                server_platform,
                quack_version,
                heartbeat_timeout_seconds,
            }
            &&& header.connection_id == Some(connection_id)
            &&& info.server_duckdb_version == server_duckdb_version
            &&& info.server_platform == server_platform
            &&& info.quack_version == quack_version
            &&& handshake.version() == 3 ==> (heartbeat_timeout_seconds matches Some(seconds)
                && info.heartbeat_timeout == Some((seconds * 1_000_000_000) as nat))
            &&& handshake.version() == 1 ==> info.heartbeat_timeout is None
        },
{
}

/// Limits that leave no version are refused before anything is sent, and told:
/// a lower limit above the upper one with both, and others with the range that
/// was asked for.
pub proof fn law_unusable_limits_are_told(options: QuackClientOptions, min: u64, max: u64)
    requires
        options.min_supported_quack_version == Some(min),
        options.max_supported_quack_version == Some(max),
    ensures
        min > max ==> (handshake_for(options) matches Err(QuackErrorView::Protocol(message))
            && exists|a: Seq<char>, b: Seq<char>| #[trigger]
            writes_number(a, min as nat) && #[trigger] writes_number(b, max as nat) && message
                == "minimum Quack protocol version "@ + a + " exceeds maximum "@ + b),
        min <= max && !allows_version(options, 1) && !allows_version(options, 3) ==> (handshake_for(
            options,
        ) matches Err(QuackErrorView::Protocol(message)) && exists|a: Seq<char>, b: Seq<char>|
            #[trigger] writes_number(a, min as nat) && #[trigger] writes_number(b, max as nat)
                && message == "supported Quack protocol versions are "@ + decimal(1) + " and "@
                + decimal(3) + ", requested range was "@ + a + "..="@ + b),
{
    law_decimal_notation(min as nat);
    law_decimal_notation(max as nat);
    let versions = versions_within(min, max);
    if min <= max && !allows_version(options, 1) && !allows_version(options, 3) {
        assert(versions.len() == 0);
    }
}

/// An answer of another version is refused with the version that it states and
/// the one that was asked for.
pub proof fn law_other_version_is_told(handshake: HandshakeView, answer: QuackMessageView)
    requires
        handshake.well_formed(),
        answer is ConnectionResponse,
        answer.header().connection_id is Some,
        answer->quack_version != Some(handshake.version()),
    ensures
        handshake.step(Ok(answer)) matches HandshakeStepView::Refused(
            QuackErrorView::Protocol(message),
        ) && match answer->quack_version {
            Some(stated) => exists|a: Seq<char>, b: Seq<char>| #[trigger]
                writes_number(a, stated as nat) && #[trigger] writes_number(
                    b,
                    handshake.version() as nat,
                ) && message == "server selected Quack protocol version "@ + ("Some("@ + a + ")"@)
                    + ", expected "@ + b,
            None => exists|b: Seq<char>| #[trigger]
                writes_number(b, handshake.version() as nat) && message
                    == "server selected Quack protocol version "@ + "None"@ + ", expected "@ + b,
        },
{
    law_decimal_notation(handshake.version() as nat);
    if let Some(stated) = answer->quack_version {
        law_decimal_notation(stated as nat);
    }
}

/// A heartbeat timeout is accepted exactly if it is one second to one hour.
pub proof fn law_timeouts_from_a_second_to_an_hour(seconds: u64)
    ensures
        timeout_checked(seconds) is Ok <==> 1 <= seconds <= 3600,
        timeout_checked(seconds) matches Err(error) ==> error is Protocol,
{
}

} // verus!
