//! One exchange with the server over HTTP: where the request goes, and what
//! the reply means.

use vstd::prelude::*;

use crate::codec::decode_message_for_version;
use crate::codec::law_message_comes_back_in_form;
use crate::codec::message_bytes;
use crate::codec::message_countable;
use crate::codec::message_form;
use crate::codec::read_message;
use crate::constants::QUACK_ENDPOINT;
use crate::errors::QuackError;
use crate::errors::QuackErrorView;
use crate::handshake::outcome_view;
use crate::handshake::version_negotiation_error;
use crate::messages::QuackMessage;
use crate::messages::QuackMessageView;
use crate::text::decimal;
use crate::text::decimal_text;
use crate::text::joined;
use crate::text::law_decimal_notation;
use crate::text::lower;
use crate::text::occurs_at;
use crate::text::writes_number;
use crate::types::option_view;
use crate::uri::plain_result;

verus! {

/// Where the requests to a server go.
pub open spec fn url_of_requests(base_url: Seq<char>) -> Seq<char> {
    base_url + QUACK_ENDPOINT@
}

/// Where the requests to a server go.
pub fn request_url(base_url: &str) -> (url: String)
    ensures
        url@ == base_url@ + QUACK_ENDPOINT@,
        url@ == url_of_requests(base_url@),
{
    joined(base_url, QUACK_ENDPOINT)
}

/// The error of a reply with a status other than success.
pub open spec fn http_failure(status: u16, reason: Seq<char>) -> QuackErrorView {
    QuackErrorView::Protocol(
        "Quack HTTP request failed with "@ + decimal(status as nat) + " "@ + reason,
    )
}

/// Whether an HTTP status means success.
pub open spec fn is_success(status: u16) -> bool {
    200 <= status < 300
}

/// What is said of a reply by its status and the phrase for it.
pub open spec fn status_checked(status: u16, reason: Seq<char>) -> Result<(), QuackErrorView> {
    if is_success(status) {
        Ok(())
    } else {
        Err(http_failure(status, reason))
    }
}

/// Accepts a reply with a status that means success. The reason is the usual
/// phrase for the status, empty if there is none.
pub fn check_status(status: u16, reason: &str) -> (result: Result<(), QuackError>)
    ensures
        plain_result(result) == if is_success(status) {
            Ok(())
        } else {
            Err(http_failure(status, reason@))
        },
        plain_result(result) == status_checked(status, reason@),
{
    if 200 <= status && status < 300 {
        return Ok(());
    }
    Err(
        QuackError::Protocol(
            joined(
                joined(
                    joined(
                        "Quack HTTP request failed with ",
                        decimal_text(status as u128).as_str(),
                    ).as_str(),
                    " ",
                ).as_str(),
                reason,
            ),
        ),
    )
}

/// The phrase that `http::StatusCode::canonical_reason` has for a status, if it
/// has one.
pub uninterp spec fn reason_phrase(status: u16) -> Option<Seq<char>>;

/// The usual phrase for an HTTP status.
///
/// Calls `canonical_reason` of `reqwest::StatusCode`, which is
/// `http::StatusCode`. The phrase is looked up in a fixed table by the status
/// alone; it is named, not spelled out. A number that is no status, which
/// `from_u16` refuses, has none.
#[verifier::external_body]
fn canonical_reason(status: u16) -> (reason: Option<String>)
    ensures
        option_view(reason) == reason_phrase(status),
{
    match reqwest::StatusCode::from_u16(status) {
        Ok(code) => code.canonical_reason().map(|reason| reason.to_string()),
        Err(_) => None,
    }
}

/// Accepts a reply with a status that means success.
pub fn check_reply(status: u16) -> (result: Result<(), QuackError>)
    ensures
        plain_result(result) == if is_success(status) {
            Ok(())
        } else {
            Err(
                http_failure(
                    status,
                    match reason_phrase(status) {
                        Some(reason) => reason,
                        None => ""@,
                    },
                ),
            )
        },
        plain_result(result) == status_checked(
            status,
            match reason_phrase(status) {
                Some(reason) => reason,
                None => ""@,
            },
        ),
{
    match canonical_reason(status) {
        Some(reason) => check_status(status, reason.as_str()),
        None => check_status(status, ""),
    }
}

/// What the body of a reply comes to: a message, or the error that it carries.
pub open spec fn answer_of(version: u64, body: Seq<u8>) -> Result<
    QuackMessageView,
    QuackErrorView,
> {
    match read_message(version, body) {
        Err(error) => Err(error),
        Ok(QuackMessageView::ErrorResponse { message, .. }) => Err(QuackErrorView::Server(message)),
        Ok(answer) => Ok(answer),
    }
}

/// Reads the body of a reply.
pub fn read_answer(version: u64, body: &[u8]) -> (answer: Result<QuackMessage, QuackError>)
    ensures
        outcome_view(answer) == answer_of(version, body@),
{
    match decode_message_for_version(body, version) {
        Err(error) => Err(error),
        Ok(QuackMessage::ErrorResponse { header: _, message }) => Err(QuackError::Server(message)),
        Ok(answer) => Ok(answer),
    }
}

/// A message that the server sends arrives in its form in the version, and an
/// error message arrives as the error that it carries.
pub proof fn law_answer_arrives(version: u64, sent: QuackMessageView)
    requires
        message_form(version, sent) is Ok,
        message_countable(message_form(version, sent)->Ok_0),
    ensures
        answer_of(version, message_bytes(version, message_form(version, sent)->Ok_0)) == match sent {
            QuackMessageView::ErrorResponse { message, .. } => Err::<
                QuackMessageView,
                QuackErrorView,
            >(QuackErrorView::Server(message)),
            _ => Ok(message_form(version, sent)->Ok_0),
        },
{
    law_message_comes_back_in_form(version, sent);
}

/// A server that fails with an internal error may be one that does not know the
/// version it was asked for.
pub proof fn law_internal_error_may_be_about_the_version(reason: Seq<char>)
    ensures
        version_negotiation_error(http_failure(500, reason)),
{
    reveal_strlit("Quack HTTP request failed with ");
    reveal_strlit(" ");
    reveal_strlit("http request failed with 500");
    reveal_with_fuel(decimal, 4);
    let message = "Quack HTTP request failed with "@ + decimal(500) + " "@ + reason;
    let needle = "http request failed with 500"@;
    assert(decimal(500) =~= seq!['5', '0', '0']);
    assert(lower(message).subrange(6, 6int + needle.len()) =~= needle);
    assert(occurs_at(lower(message), needle, 6));
}

/// The statuses from 200 to 299 mean success, and no others do. A failure is
/// told by its number in digits and the phrase for it.
pub proof fn law_statuses_that_mean_success(status: u16, reason: Seq<char>)
    ensures
        is_success(status) <==> status / 100 == 2,
        http_failure(status, reason) matches QuackErrorView::Protocol(message) && exists|
            digits: Seq<char>,
        |
            #[trigger] writes_number(digits, status as nat) && message
                == "Quack HTTP request failed with "@ + digits + " "@ + reason,
{
    law_decimal_notation(status as nat);
}

/// What the body of a reply holds reaches the caller: a message as it was read,
/// an error message as the server's error with its own text, and a body that
/// cannot be read as the error of reading it.
pub proof fn law_answer_is_what_was_read(version: u64, body: Seq<u8>)
    ensures
        match read_message(version, body) {
            Err(error) => answer_of(version, body) == Err::<QuackMessageView, _>(error),
            Ok(m) => if m is ErrorResponse {
                answer_of(version, body) == Err::<QuackMessageView, _>(
                    QuackErrorView::Server(m->message),
                )
            } else {
                answer_of(version, body) == Ok::<_, QuackErrorView>(m)
            },
        },
{
}

/// Requests go to the path of the protocol below the base of the server.
pub proof fn law_requests_go_below_the_base(base_url: Seq<char>)
    ensures
        url_of_requests(base_url) == base_url + seq!['/', 'q', 'u', 'a', 'c', 'k'],
{
    reveal_strlit("/quack");
    assert(QUACK_ENDPOINT@ =~= seq!['/', 'q', 'u', 'a', 'c', 'k']);
}

/// A reply is accepted exactly if its status is one from 200 to 299.
pub proof fn law_reply_is_accepted_by_its_status(status: u16, reason: Seq<char>)
    ensures
        status_checked(status, reason) is Ok <==> 200 <= status <= 299,
        status_checked(status, reason) matches Err(error) ==> error == http_failure(status, reason),
{
}

} // verus!
