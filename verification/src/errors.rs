//! What can go wrong between a client and a Quack server.

use vstd::prelude::*;

use crate::text::begins_with;
use crate::text::chars_of;
use crate::text::has_prefix;
use crate::text::joined;

verus! {

/// A failure of a Quack operation.
#[derive(Debug)]
pub enum QuackError {
    /// The peer did not follow the protocol, or the request cannot be made.
    Protocol(String),
    /// The server answered with an error message.
    Server(String),
    /// A logical type that has no wire form here.
    UnsupportedType(String),
    /// The HTTP transport failed; the text says how.
    Http(String),
    /// A URL could not be parsed; the text says why.
    Url(String),
    /// Bytes of a reply that should be text are not UTF-8; the text says where.
    Utf8(String),
}

/// The value of a `QuackError`.
pub enum QuackErrorView {
    Protocol(Seq<char>),
    Server(Seq<char>),
    UnsupportedType(Seq<char>),
    Http(Seq<char>),
    Url(Seq<char>),
    Utf8(Seq<char>),
}

impl View for QuackError {
    type V = QuackErrorView;

    open spec fn view(&self) -> QuackErrorView {
        match self {
            QuackError::Protocol(message) => QuackErrorView::Protocol(message@),
            QuackError::Server(message) => QuackErrorView::Server(message@),
            QuackError::UnsupportedType(message) => QuackErrorView::UnsupportedType(message@),
            QuackError::Http(message) => QuackErrorView::Http(message@),
            QuackError::Url(message) => QuackErrorView::Url(message@),
            QuackError::Utf8(message) => QuackErrorView::Utf8(message@),
        }
    }
}

/// The server messages that mean the connection id is gone. The comparison is
/// exact: SQL error text that merely contains one of them does not count.
pub open spec fn retires_connection(message: Seq<char>) -> bool {
    ||| message == "Invalid connection id"@
    ||| message == "Connection does not exist / already disconnected"@
}

/// The messages of errors that are raised before anything is sent: about the
/// arguments of a call, or about a client or pool that is closed already.
/// Protocol errors are worded by this library alone, so that their text tells.
pub open spec fn raised_off_the_wire(message: Seq<char>) -> bool {
    ||| message == "Quack client is not connected"@
    ||| message == "Quack pool is closed"@
    ||| message == "QuackPoolOptions::max_connections must be at least 1"@
    ||| message == "append is only supported by Quack protocol v1; protocol v3 uses SEND_DATA"@
    ||| message == "append_rows batch_size must be at least 1"@
    ||| message == "not enough SQL parameters"@
    ||| message == "too many SQL parameters"@
    ||| message == "columns do not have the same number of values"@
    ||| message == "column does not have one value for each row"@
    ||| message == "chunk does not have one column for each type"@
    ||| message == "Quack URI is empty"@
    ||| begins_with(message, "invalid Quack URI "@)
    ||| begins_with(message, "invalid IPv6 Quack URI host "@)
    ||| begins_with(message, "IPv6 Quack URI hosts must be enclosed in []: "@)
    ||| begins_with(message, "minimum Quack protocol version "@)
    ||| begins_with(message, "supported Quack protocol versions are "@)
    ||| begins_with(message, "unsupported Quack protocol version "@)
    ||| begins_with(message, "message header states "@)
    ||| begins_with(message, "missing SQL parameter "@)
    ||| begins_with(message, "invalid ISO date "@)
    ||| begins_with(message, "no type can be told for column "@)
    ||| begins_with(message, "value does not fit logical type "@)
}

fn is_off_the_wire(message: &String) -> (b: bool)
    ensures
        b == raised_off_the_wire(message@),
{
    let chars = chars_of(message.as_str());
    *message == "Quack client is not connected".to_owned() || *message
        == "Quack pool is closed".to_owned() || *message
        == "QuackPoolOptions::max_connections must be at least 1".to_owned() || *message
        == "append is only supported by Quack protocol v1; protocol v3 uses SEND_DATA".to_owned()
        || *message == "append_rows batch_size must be at least 1".to_owned() || *message
        == "not enough SQL parameters".to_owned() || *message
        == "too many SQL parameters".to_owned() || *message
        == "columns do not have the same number of values".to_owned() || *message
        == "column does not have one value for each row".to_owned() || *message
        == "chunk does not have one column for each type".to_owned() || *message
        == "Quack URI is empty".to_owned() || has_prefix(&chars, "invalid Quack URI ")
        || has_prefix(&chars, "invalid IPv6 Quack URI host ") || has_prefix(
        &chars,
        "IPv6 Quack URI hosts must be enclosed in []: ",
    ) || has_prefix(&chars, "minimum Quack protocol version ") || has_prefix(
        &chars,
        "supported Quack protocol versions are ",
    ) || has_prefix(&chars, "unsupported Quack protocol version ") || has_prefix(
        &chars,
        "message header states ",
    ) || has_prefix(&chars, "missing SQL parameter ") || has_prefix(&chars, "invalid ISO date ")
        || has_prefix(&chars, "no type can be told for column ") || has_prefix(
        &chars,
        "value does not fit logical type ",
    )
}

impl QuackErrorView {
    /// Whether the connection that produced the error should not be reused.
    pub open spec fn is_connection_fatal(self) -> bool {
        match self {
            QuackErrorView::Http(_) | QuackErrorView::Utf8(_) => true,
            QuackErrorView::Protocol(message) => !raised_off_the_wire(message),
            QuackErrorView::Server(message) => retires_connection(message),
            QuackErrorView::UnsupportedType(_) | QuackErrorView::Url(_) => false,
        }
    }

    /// The text shown for the error.
    pub open spec fn text(self) -> Seq<char> {
        match self {
            QuackErrorView::Protocol(message) => "quack protocol error: "@ + message,
            QuackErrorView::Server(message) => "quack server error: "@ + message,
            QuackErrorView::UnsupportedType(message) => "unsupported quack type: "@ + message,
            QuackErrorView::Http(message) => "http error: "@ + message,
            QuackErrorView::Url(message) => "url parse error: "@ + message,
            QuackErrorView::Utf8(message) => "utf-8 error: "@ + message,
        }
    }
}

impl QuackError {
    pub fn protocol(message: &str) -> (error: Self)
        ensures
            error@ == QuackErrorView::Protocol(message@),
    {
        QuackError::Protocol(message.to_owned())
    }

    pub fn server(message: &str) -> (error: Self)
        ensures
            error@ == QuackErrorView::Server(message@),
    {
        QuackError::Server(message.to_owned())
    }

    pub fn unsupported(message: &str) -> (error: Self)
        ensures
            error@ == QuackErrorView::UnsupportedType(message@),
    {
        QuackError::UnsupportedType(message.to_owned())
    }

    /// The connection that produced this error should not be reused.
    ///
    /// Transport and framing failures leave no way to tell what the server did
    /// with the request, so a pool retires the connection rather than hand it
    /// to the next caller. Errors raised without touching the wire - bad
    /// arguments, unsupported types - are not counted.
    ///
    /// This says nothing about whether the request ran: the protocol carries
    /// only an error message string, and SQL can produce the same text as a
    /// missing-connection response, so no error is safe to retry automatically.
    pub fn is_connection_fatal(&self) -> (fatal: bool)
        ensures
            fatal == self@.is_connection_fatal(),
    {
        match self {
            QuackError::Http(_) | QuackError::Utf8(_) => true,
            QuackError::Protocol(message) => !is_off_the_wire(message),
            QuackError::Server(message) => {
                *message == "Invalid connection id".to_owned() || *message
                    == "Connection does not exist / already disconnected".to_owned()
            },
            QuackError::UnsupportedType(_) | QuackError::Url(_) => false,
        }
    }

    /// The text shown for this error.
    pub fn to_text(&self) -> (text: String)
        ensures
            text@ == self@.text(),
    {
        match self {
            QuackError::Protocol(message) => joined("quack protocol error: ", message.as_str()),
            QuackError::Server(message) => joined("quack server error: ", message.as_str()),
            QuackError::UnsupportedType(message) => joined(
                "unsupported quack type: ",
                message.as_str(),
            ),
            QuackError::Http(message) => joined("http error: ", message.as_str()),
            QuackError::Url(message) => joined("url parse error: ", message.as_str()),
            QuackError::Utf8(message) => joined("utf-8 error: ", message.as_str()),
        }
    }
}

/// A transport failure and a reply whose text is not UTF-8 always retire the
/// connection, and a breach of the protocol does unless its message is one that
/// is raised before anything is sent. A type without a wire form and a URL that
/// cannot be parsed never do.
pub proof fn law_fatal_errors_touch_the_wire(message: Seq<char>)
    ensures
        QuackErrorView::Http(message).is_connection_fatal(),
        QuackErrorView::Utf8(message).is_connection_fatal(),
        QuackErrorView::Protocol(message).is_connection_fatal() <==> !raised_off_the_wire(message),
        !QuackErrorView::UnsupportedType(message).is_connection_fatal(),
        !QuackErrorView::Url(message).is_connection_fatal(),
{
}

/// A server message with anything before or after one of the two exact texts
/// leaves the connection usable.
pub proof fn law_longer_server_text_is_not_fatal(before: Seq<char>, known: Seq<char>, after: Seq<char>)
    requires
        retires_connection(known),
        before.len() + after.len() > 0,
    ensures
        !QuackErrorView::Server(before + known + after).is_connection_fatal(),
{
    reveal_strlit("Invalid connection id");
    reveal_strlit("Connection does not exist / already disconnected");
    let a = "Invalid connection id"@;
    let b = "Connection does not exist / already disconnected"@;
    let message = before + known + after;
    if message == a || message == b {
        assert(known == a && message == b);
        assert(known[0] == message[before.len() as int]);
        assert forall|k: int| 0 <= k <= b.len() - a.len() implies b[k] != 'I' by {}
    }
}

/// A server error retires the connection exactly if its message is one of the
/// two that mean the connection id is gone, letter for letter.
pub proof fn law_server_errors_that_retire(message: Seq<char>)
    ensures
        QuackErrorView::Server(message).is_connection_fatal() <==> message
            == "Invalid connection id"@ || message
            == "Connection does not exist / already disconnected"@,
{
}

/// The text of an error is what kind it is, followed by its whole message.
pub proof fn law_error_text_holds_the_message(message: Seq<char>)
    ensures
        QuackErrorView::Protocol(message).text() == "quack protocol error: "@ + message,
        QuackErrorView::Server(message).text() == "quack server error: "@ + message,
        QuackErrorView::UnsupportedType(message).text() == "unsupported quack type: "@ + message,
        QuackErrorView::Http(message).text() == "http error: "@ + message,
        QuackErrorView::Url(message).text() == "url parse error: "@ + message,
        QuackErrorView::Utf8(message).text() == "utf-8 error: "@ + message,
{
}

} // verus!
