//! Quack URIs: `localhost:9494`, `quack:host:port`, bracketed IPv6 hosts and
//! direct HTTP(S) URLs.

use vstd::prelude::*;

use crate::constants::DEFAULT_QUACK_PORT;
use crate::errors::QuackError;
use crate::errors::QuackErrorView;
use crate::text::position;
use crate::text::all_digits;
use crate::text::begins_with;
use crate::text::chars_of;
use crate::text::decimal;
use crate::text::decimal_text;
use crate::text::digits_value;
use crate::text::has_char;
use crate::text::has_prefix;
use crate::text::is_blank;
use crate::text::is_digit;
use crate::text::is_white_space;
use crate::text::joined;
use crate::text::law_decimal_notation;
use crate::text::law_trimming_leaves_the_text;
use crate::text::lemma_decimal_value;
use crate::text::lemma_digits_value_monotonic;
use crate::text::text_between;
use crate::text::trim;
use crate::text::trimmed;
use crate::text::writes_number;
use crate::types::option_view;

verus! {

/// Where a Quack server listens.
#[derive(Debug, PartialEq, Eq)]
pub struct ParsedQuackUri {
    pub base_url: String,
    pub host: String,
    pub port: u16,
    pub ssl: bool,
}

/// The value of a `ParsedQuackUri`.
pub struct ParsedQuackUriView {
    pub base_url: Seq<char>,
    pub host: Seq<char>,
    pub port: u16,
    pub ssl: bool,
}

impl View for ParsedQuackUri {
    type V = ParsedQuackUriView;

    open spec fn view(&self) -> ParsedQuackUriView {
        ParsedQuackUriView {
            base_url: self.base_url@,
            host: self.host@,
            port: self.port,
            ssl: self.ssl,
        }
    }
}

/// What the parser needs of a URL.
#[derive(Debug, PartialEq, Eq)]
pub struct UrlParts {
    pub scheme: String,
    pub host: Option<String>,
    /// The port written in the URL, or else the default port of its scheme.
    pub port: Option<u16>,
}

impl View for UrlParts {
    type V = (Seq<char>, Option<Seq<char>>, Option<u16>);

    open spec fn view(&self) -> (Seq<char>, Option<Seq<char>>, Option<u16>) {
        (self.scheme@, option_view(self.host), self.port)
    }
}

/// What `url::Url::parse` makes of a text: the scheme, the host and the port
/// (the known default where none is written) of the URL, or the text of the
/// error.
pub uninterp spec fn parsed_url(input: Seq<char>) -> Result<
    (Seq<char>, Option<Seq<char>>, Option<u16>),
    Seq<char>,
>;

/// `url::Url::parse`, with the parts read off by `scheme`, `host_str` and
/// `port_or_known_default`. The result is named, not spelled out; stated of it
/// is only that a text that begins with `http://` or `https://` and parses has
/// that scheme.
#[verifier::external_body]
fn parse_url(input: &str) -> (result: Result<UrlParts, String>)
    ensures
        match result {
            Ok(parts) => parsed_url(input@) == Ok::<_, Seq<char>>(parts@),
            Err(text) => parsed_url(input@) == Err::<
                (Seq<char>, Option<Seq<char>>, Option<u16>),
                _,
            >(text@),
        },
        result matches Ok(parts) ==> {
            &&& begins_with(input@, "http://"@) ==> parts.scheme@ == "http"@
            &&& begins_with(input@, "https://"@) ==> parts.scheme@ == "https"@
        },
{
    match url::Url::parse(input) {
        Ok(url) => Ok(
            UrlParts {
                scheme: url.scheme().to_string(),
                host: url.host_str().map(|host| host.to_string()),
                port: url.port_or_known_default(),
            },
        ),
        Err(error) => Err(error.to_string()),
    }
}

/// The `u16` that a text denotes: decimal digits, after a `+` or not.
pub open spec fn u16_value(s: Seq<char>) -> Option<u16> {
    let digits = if s.len() > 0 && s[0] == '+' {
        s.drop_first()
    } else {
        s
    };
    if digits.len() > 0 && all_digits(digits) && digits_value(digits) <= u16::MAX {
        Some(digits_value(digits) as u16)
    } else {
        None
    }
}

fn parse_u16(s: &Vec<char>) -> (value: Option<u16>)
    ensures
        value == u16_value(s@),
{
    let from: usize = if s.len() > 0 && s[0] == '+' {
        1
    } else {
        0
    };
    let ghost digits = s@.skip(from as int);
    assert(digits =~= if s@.len() > 0 && s@[0] == '+' {
        s@.drop_first()
    } else {
        s@
    });
    if s.len() == from {
        return None;
    }
    let mut value: u32 = 0;
    let mut i: usize = from;
    assert(digits.take(0) =~= Seq::empty());
    while i < s.len()
        invariant
            from <= i <= s@.len(),
            from <= 1,
            digits == s@.skip(from as int),
            digits == (if s@.len() > 0 && s@[0] == '+' {
                s@.drop_first()
            } else {
                s@
            }),
            digits.len() > 0,
            value <= u16::MAX,
            value == digits_value(digits.take(i - from)),
            all_digits(digits.take(i - from)),
        decreases s@.len() - i,
    {
        let c = s[i];
        assert(digits[i - from] == c);
        let ghost next = digits.take(i - from + 1);
        assert(next.drop_last() =~= digits.take(i - from));
        assert(next.last() == c);
        if c < '0' || c > '9' {
            assert(!is_digit(digits[i - from]));
            return None;
        }
        value = value * 10 + (c as u32 - 48);
        assert(value == digits_value(next));
        assert forall|j: int| 0 <= j < next.len() implies is_digit(#[trigger] next[j]) by {
            if j < i - from {
                assert(next[j] == digits.take(i - from)[j]);
            }
        }
        if value > 65535 {
            proof {
                if all_digits(digits) {
                    lemma_digits_value_monotonic(digits, i - from + 1);
                }
            }
            return None;
        }
        i += 1;
    }
    assert(digits.take(digits.len() as int) =~= digits);
    Some(value as u16)
}

/// The port that a text denotes: a `u16` that is not zero.
pub open spec fn port_of(value: Seq<char>) -> Result<u16, QuackErrorView> {
    match u16_value(value) {
        Some(port) if port != 0 => Ok(port),
        _ => Err(QuackErrorView::Protocol("invalid Quack URI port "@ + value)),
    }
}

/// The value of a `Result` whose success is plain.
pub open spec fn plain_result<T>(r: Result<T, QuackError>) -> Result<T, QuackErrorView> {
    match r {
        Ok(t) => Ok(t),
        Err(e) => Err(e@),
    }
}

/// The value of a `Result`.
pub open spec fn result_view<T: View>(r: Result<T, QuackError>) -> Result<T::V, QuackErrorView> {
    match r {
        Ok(t) => Ok(t@),
        Err(e) => Err(e@),
    }
}

pub fn parse_port(value: &str) -> (port: Result<u16, QuackError>)
    ensures
        plain_result(port) == port_of(value@),
{
    match parse_u16(&chars_of(value)) {
        Some(port) if port != 0 => Ok(port),
        _ => Err(QuackError::Protocol(joined("invalid Quack URI port ", value))),
    }
}

/// How often a character occurs.
pub open spec fn occurrences(s: Seq<char>, c: char) -> nat
    decreases s.len(),
{
    if s.len() == 0 {
        0
    } else {
        occurrences(s.drop_last(), c) + if s.last() == c {
            1nat
        } else {
            0
        }
    }
}

proof fn lemma_occurrences_present(s: Seq<char>, c: char)
    ensures
        occurrences(s, c) > 0 <==> s.contains(c),
    decreases s.len(),
{
    if s.len() > 0 {
        lemma_occurrences_present(s.drop_last(), c);
        if s.contains(c) {
            let i = choose|i: int| 0 <= i < s.len() && s[i] == c;
            if i < s.len() - 1 {
                assert(s.drop_last()[i] == c);
            }
        }
        if s.drop_last().contains(c) {
            let i = choose|i: int| 0 <= i < s.len() - 1 && s.drop_last()[i] == c;
            assert(s[i] == c);
        }
        if s.last() == c {
            assert(s[s.len() - 1] == c);
        }
    }
}

fn count_char(s: &Vec<char>, c: char) -> (count: usize)
    ensures
        count == occurrences(s@, c),
{
    let mut count: usize = 0;
    let mut i: usize = 0;
    assert(s@.take(0) =~= Seq::empty());
    while i < s.len()
        invariant
            i <= s@.len(),
            count <= i,
            count == occurrences(s@.take(i as int), c),
        decreases s@.len() - i,
    {
        assert(s@.take(i + 1).drop_last() =~= s@.take(i as int));
        if s[i] == c {
            count += 1;
        }
        i += 1;
    }
    assert(s@.take(i as int) =~= s@);
    count
}

/// The port that follows a bracketed host: what a leading `:` introduces, or
/// else the default.
pub open spec fn suffix_port(suffix: Seq<char>) -> Result<u16, QuackErrorView> {
    if suffix.len() > 0 && suffix[0] == ':' {
        port_of(suffix.drop_first())
    } else {
        Ok(DEFAULT_QUACK_PORT)
    }
}

/// The host and the port of the part of a URI behind its scheme.
pub open spec fn host_port_of(value: Seq<char>) -> Result<(Seq<char>, u16), QuackErrorView> {
    if value.len() > 0 && value[0] == '[' {
        let rest = value.drop_first();
        match rest.index_of_first(']') {
            None => Err(QuackErrorView::Protocol("invalid IPv6 Quack URI host "@ + value)),
            Some(end) => match suffix_port(rest.skip(end + 1)) {
                Ok(port) => Ok((rest.take(end), port)),
                Err(error) => Err(error),
            },
        }
    } else if occurrences(value, ':') == 0 {
        Ok((value, DEFAULT_QUACK_PORT))
    } else if occurrences(value, ':') == 1 {
        let at = value.index_of_first(':')->Some_0;
        if at == 0 {
            Err(QuackErrorView::Protocol("invalid Quack URI host "@ + value))
        } else {
            match port_of(value.skip(at + 1)) {
                Ok(port) => Ok((value.take(at), port)),
                Err(error) => Err(error),
            }
        }
    } else {
        Err(QuackErrorView::Protocol("IPv6 Quack URI hosts must be enclosed in []: "@ + value))
    }
}

pub fn parse_host_port(value: &str) -> (result: Result<(String, u16), QuackError>)
    ensures
        match result {
            Ok((host, port)) => host_port_of(value@) == Ok::<_, QuackErrorView>((host@, port)),
            Err(error) => host_port_of(value@) == Err::<(Seq<char>, u16), _>(error@),
        },
{
    let chars = chars_of(value);
    if chars.len() > 0 && chars[0] == '[' {
        let rest_text = text_between(&chars, 1, chars.len());
        let rest = chars_of(rest_text.as_str());
        assert(rest@ =~= value@.drop_first());
        return match position(&rest, ']') {
            None => Err(QuackError::Protocol(joined("invalid IPv6 Quack URI host ", value))),
            Some(end) => {
                let host = text_between(&rest, 0, end);
                assert(host@ =~= rest@.take(end as int));
                let ghost suffix = rest@.skip(end + 1);
                if end + 1 < rest.len() && rest[end + 1] == ':' {
                    let port_text = text_between(&rest, end + 2, rest.len());
                    assert(suffix[0] == ':');
                    assert(port_text@ =~= suffix.drop_first());
                    match parse_port(port_text.as_str()) {
                        Ok(port) => Ok((host, port)),
                        Err(error) => Err(error),
                    }
                } else {
                    assert(suffix.len() > 0 ==> suffix[0] == rest@[end + 1]);
                    Ok((host, DEFAULT_QUACK_PORT))
                }
            },
        };
    }
    let colons = count_char(&chars, ':');
    if colons == 0 {
        Ok((value.to_owned(), DEFAULT_QUACK_PORT))
    } else if colons == 1 {
        proof {
            lemma_occurrences_present(value@, ':');
            value@.index_of_first_ensures(':');
        }
        match position(&chars, ':') {
            Some(at) => {
                if at == 0 {
                    return Err(QuackError::Protocol(joined("invalid Quack URI host ", value)));
                }
                let host = text_between(&chars, 0, at);
                let port_text = text_between(&chars, at + 1, chars.len());
                assert(host@ =~= value@.take(at as int));
                assert(port_text@ =~= value@.skip(at + 1));
                match parse_port(port_text.as_str()) {
                    Ok(port) => Ok((host, port)),
                    Err(error) => Err(error),
                }
            },
            None => Err(QuackError::Protocol(joined("invalid Quack URI ", value))),
        }
    } else {
        Err(
            QuackError::Protocol(
                joined("IPv6 Quack URI hosts must be enclosed in []: ", value),
            ),
        )
    }
}

/// `[host]`.
pub open spec fn bracketed(host: Seq<char>) -> Seq<char> {
    seq!['['] + host + seq![']']
}

/// `scheme://host:port`.
pub open spec fn base_url_of(scheme: Seq<char>, host: Seq<char>, port: u16) -> Seq<char> {
    scheme + "://"@ + host + seq![':'] + decimal(port as nat)
}

fn base_url(scheme: &str, host: &str, brackets: bool, port: u16) -> (url: String)
    ensures
        url@ == base_url_of(
            scheme@,
            if brackets {
                bracketed(host@)
            } else {
                host@
            },
            port,
        ),
{
    let mut url = scheme.to_owned();
    url.append("://");
    if brackets {
        url.push('[');
        url.append(host);
        url.push(']');
    } else {
        url.append(host);
    }
    url.push(':');
    url.append(decimal_text(port as u128).as_str());
    assert(url@ =~= base_url_of(
        scheme@,
        if brackets {
            bracketed(host@)
        } else {
            host@
        },
        port,
    ));
    url
}

/// The server that a parsed HTTP(S) URL names. The path, the query and the
/// credentials of the URL play no part.
pub open spec fn server_of_url(
    input: Seq<char>,
    parts: (Seq<char>, Option<Seq<char>>, Option<u16>),
) -> Result<ParsedQuackUriView, QuackErrorView> {
    let ssl = parts.0 == "https"@;
    let port = match parts.2 {
        Some(port) => port,
        None => if ssl {
            443
        } else {
            80
        },
    };
    match parts.1 {
        None => Err(QuackErrorView::Protocol("invalid Quack URI host "@ + input)),
        Some(host) => Ok(
            ParsedQuackUriView {
                base_url: base_url_of(
                    parts.0,
                    if host.contains(':') && host[0] != '[' {
                        bracketed(host)
                    } else {
                        host
                    },
                    port,
                ),
                host,
                port,
                ssl,
            },
        ),
    }
}

/// The server that the parts of an HTTP(S) URL name; `input` is the text that
/// an error quotes.
pub fn quack_uri_from_url(input: &str, parts: UrlParts) -> (uri: Result<ParsedQuackUri, QuackError>)
    ensures
        result_view(uri) == server_of_url(input@, parts@),
{
    let ssl = parts.scheme == "https".to_owned();
    let port: u16 = match parts.port {
        Some(port) => port,
        None => if ssl {
            443
        } else {
            80
        },
    };
    match parts.host {
        None => Err(QuackError::Protocol(joined("invalid Quack URI host ", input))),
        Some(host) => {
            let chars = chars_of(host.as_str());
            let brackets = has_char(&chars, ':') && chars[0] != '[';
            let base_url = base_url(parts.scheme.as_str(), host.as_str(), brackets, port);
            Ok(ParsedQuackUri { base_url, host, port, ssl })
        },
    }
}

/// What is left of a URI behind its `quack:` or `quack://`.
pub open spec fn without_quack_scheme(uri: Seq<char>) -> Seq<char> {
    if begins_with(uri, "quack://"@) {
        uri.skip("quack://"@.len() as int)
    } else if begins_with(uri, "quack:"@) {
        uri.skip("quack:"@.len() as int)
    } else {
        uri
    }
}

/// Whether a URI is a direct HTTP(S) URL.
pub open spec fn is_http_url(uri: Seq<char>) -> bool {
    begins_with(uri, "http://"@) || begins_with(uri, "https://"@)
}

/// The server that a URI other than an HTTP(S) URL names; `input` is the text
/// that an error quotes.
pub open spec fn server_of_address(
    input: Seq<char>,
    uri: Seq<char>,
    ssl_override: Option<bool>,
) -> Result<ParsedQuackUriView, QuackErrorView> {
    let rest = without_quack_scheme(uri);
    if rest.len() == 0 {
        Err(QuackErrorView::Protocol("invalid Quack URI "@ + input))
    } else {
        match host_port_of(rest) {
            Err(error) => Err(error),
            Ok((host, port)) => {
                let ssl = ssl_override == Some(true);
                Ok(
                    ParsedQuackUriView {
                        base_url: base_url_of(
                            if ssl {
                                "https"@
                            } else {
                                "http"@
                            },
                            if host.contains(':') && host[0] != '[' {
                                bracketed(host)
                            } else {
                                host
                            },
                            port,
                        ),
                        host,
                        port,
                        ssl,
                    },
                )
            },
        }
    }
}

/// The server that a URI names.
pub open spec fn server_of(input: Seq<char>, ssl_override: Option<bool>) -> Result<
    ParsedQuackUriView,
    QuackErrorView,
> {
    let uri = trimmed(input);
    if uri.len() == 0 {
        Err(QuackErrorView::Protocol("Quack URI is empty"@))
    } else if is_http_url(uri) {
        match parsed_url(uri) {
            Ok(parts) => server_of_url(input, parts),
            Err(text) => Err(QuackErrorView::Url(text)),
        }
    } else {
        server_of_address(input, uri, ssl_override)
    }
}

fn strip_quack_scheme(uri: &Vec<char>) -> (rest: String)
    ensures
        rest@ == without_quack_scheme(uri@),
{
    proof {
        reveal_strlit("quack://");
        reveal_strlit("quack:");
    }
    if has_prefix(uri, "quack://") {
        let rest = text_between(uri, 8, uri.len());
        assert(rest@ =~= uri@.skip(8));
        rest
    } else if has_prefix(uri, "quack:") {
        let rest = text_between(uri, 6, uri.len());
        assert(rest@ =~= uri@.skip(6));
        rest
    } else {
        let rest = text_between(uri, 0, uri.len());
        assert(rest@ =~= uri@);
        rest
    }
}

/// Reads a Quack URI. `ssl_override` chooses HTTPS for every form but a direct
/// HTTP(S) URL, whose scheme decides.
pub fn parse_quack_uri(input: &str, ssl_override: Option<bool>) -> (uri: Result<
    ParsedQuackUri,
    QuackError,
>)
    ensures
        result_view(uri) == server_of(input@, ssl_override),
        is_http_url(trimmed(input@)) ==> (uri matches Ok(uri) ==> uri.ssl == begins_with(
            trimmed(input@),
            "https://"@,
        )),
{
    let uri = trim(input);
    if uri.len() == 0 {
        return Err(QuackError::protocol("Quack URI is empty"));
    }
    if has_prefix(&uri, "http://") || has_prefix(&uri, "https://") {
        let text = text_between(&uri, 0, uri.len());
        assert(text@ =~= uri@);
        proof {
            reveal_strlit("http://");
            reveal_strlit("https://");
            reveal_strlit("http");
            reveal_strlit("https");
            if begins_with(uri@, "http://"@) && begins_with(uri@, "https://"@) {
                assert(uri@.subrange(0, 7)[4] == "http://"@[4]);
                assert(uri@.subrange(0, 8)[4] == "https://"@[4]);
            }
            assert("http"@.len() != "https"@.len());
        }
        return match parse_url(text.as_str()) {
            Ok(parts) => quack_uri_from_url(input, parts),
            Err(text) => Err(QuackError::Url(text)),
        };
    }
    let rest = strip_quack_scheme(&uri);
    if rest.as_str().is_empty() {
        return Err(QuackError::Protocol(joined("invalid Quack URI ", input)));
    }
    match parse_host_port(rest.as_str()) {
        Err(error) => Err(error),
        Ok((host, port)) => {
            let ssl = match ssl_override {
                Some(ssl) => ssl,
                None => false,
            };
            let chars = chars_of(host.as_str());
            let brackets = has_char(&chars, ':') && chars[0] != '[';
            let scheme = if ssl {
                "https"
            } else {
                "http"
            };
            let base_url = base_url(scheme, host.as_str(), brackets, port);
            Ok(ParsedQuackUri { base_url, host, port, ssl })
        },
    }
}

proof fn lemma_decimal_port(port: u16)
    requires
        port != 0,
    ensures
        port_of(decimal(port as nat)) == Ok::<u16, QuackErrorView>(port),
        !decimal(port as nat).contains(':'),
{
    lemma_decimal_value(port as nat);
    assert(is_digit(decimal(port as nat)[0]));
}

proof fn lemma_first_index(before: Seq<char>, c: char, after: Seq<char>)
    requires
        !before.contains(c),
    ensures
        (before + seq![c] + after).index_of_first(c) == Some(before.len() as int),
{
    let s = before + seq![c] + after;
    s.index_of_first_ensures(c);
    assert(s[before.len() as int] == c);
    let i = s.index_of_first(c)->Some_0;
    if i < before.len() {
        assert(before[i] == c);
    }
}

proof fn lemma_occurrences_concat(a: Seq<char>, b: Seq<char>, c: char)
    ensures
        occurrences(a + b, c) == occurrences(a, c) + occurrences(b, c),
    decreases b.len(),
{
    if b.len() == 0 {
        assert(a + b =~= a);
    } else {
        assert((a + b).drop_last() =~= a + b.drop_last());
        lemma_occurrences_concat(a, b.drop_last(), c);
    }
}

/// `host:port` is read back as its host and its port.
pub proof fn law_host_port_round_trip(host: Seq<char>, port: u16)
    requires
        host.len() > 0,
        host[0] != '[',
        !host.contains(':'),
        port != 0,
    ensures
        host_port_of(host + seq![':'] + decimal(port as nat)) == Ok::<_, QuackErrorView>(
            (host, port),
        ),
{
    let digits = decimal(port as nat);
    let value = host + seq![':'] + digits;
    lemma_decimal_port(port);
    lemma_first_index(host, ':', digits);
    lemma_occurrences_concat(host + seq![':'], digits, ':');
    lemma_occurrences_concat(host, seq![':'], ':');
    lemma_occurrences_present(host, ':');
    lemma_occurrences_present(digits, ':');
    assert(seq![':'].drop_last() =~= Seq::<char>::empty());
    reveal_with_fuel(occurrences, 2);
    assert(occurrences(seq![':'], ':') == 1);
    assert(value[0] == host[0]);
    assert(value.take(host.len() as int) =~= host);
    assert(value.skip(host.len() as int + 1) =~= digits);
}

proof fn lemma_suffix_port(port: u16)
    requires
        port != 0,
    ensures
        suffix_port(seq![':'] + decimal(port as nat)) == Ok::<u16, QuackErrorView>(port),
{
    let suffix = seq![':'] + decimal(port as nat);
    assert(suffix[0] == ':');
    assert(suffix.drop_first() == decimal(port as nat)) by {
        assert(suffix.drop_first() =~= decimal(port as nat));
    }
    assert(port_of(decimal(port as nat)) == Ok::<u16, QuackErrorView>(port)) by {
        lemma_decimal_port(port);
    }
}

/// The text behind an opening bracket falls into the host and what follows the
/// closing one.
proof fn lemma_behind_bracket(host: Seq<char>, suffix: Seq<char>)
    requires
        !host.contains(']'),
    ensures
        ({
            let rest = host + seq![']'] + suffix;
            &&& rest.index_of_first(']') == Some(host.len() as int)
            &&& rest.take(host.len() as int) == host
            &&& rest.skip(host.len() as int + 1) == suffix
        }),
{
    let rest = host + seq![']'] + suffix;
    assert(rest.index_of_first(']') == Some(host.len() as int)) by {
        lemma_first_index(host, ']', suffix);
    }
    assert(rest.take(host.len() as int) =~= host);
    assert(rest.skip(host.len() as int + 1) =~= suffix);
}

/// `[host]:port` is read back as its host, without the brackets, and its port,
/// whatever colons the host holds.
pub proof fn law_bracketed_host_port_round_trip(host: Seq<char>, port: u16)
    requires
        !host.contains(']'),
        port != 0,
    ensures
        host_port_of(bracketed(host) + seq![':'] + decimal(port as nat)) == Ok::<
            _,
            QuackErrorView,
        >((host, port)),
{
    let digits = decimal(port as nat);
    let value = bracketed(host) + seq![':'] + digits;
    let suffix = seq![':'] + digits;
    let rest = host + seq![']'] + suffix;
    assert(value.len() > 0 && value[0] == '[' && value.drop_first() == rest) by {
        assert(value.drop_first() =~= rest);
    }
    lemma_behind_bracket(host, suffix);
    lemma_suffix_port(port);
}

/// An address without a port names the default port: it means the same as the
/// address with that port written out.
pub proof fn law_default_port(host: Seq<char>)
    requires
        host.len() > 0,
        host[0] != '[',
        !host.contains(':'),
    ensures
        host_port_of(host) == host_port_of(
            host + seq![':'] + decimal(DEFAULT_QUACK_PORT as nat),
        ),
{
    law_host_port_round_trip(host, DEFAULT_QUACK_PORT);
    lemma_occurrences_present(host, ':');
}

/// `quack:address` and `quack://address` mean what the bare address means.
pub proof fn law_quack_scheme_is_optional(
    input: Seq<char>,
    address: Seq<char>,
    ssl_override: Option<bool>,
)
    requires
        !begins_with(address, "quack:"@),
        !begins_with(address, "//"@),
    ensures
        server_of_address(input, "quack:"@ + address, ssl_override) == server_of_address(
            input,
            address,
            ssl_override,
        ),
        server_of_address(input, "quack://"@ + address, ssl_override) == server_of_address(
            input,
            address,
            ssl_override,
        ),
{
    reveal_strlit("quack:");
    reveal_strlit("quack://");
    reveal_strlit("//");
    let short = "quack:"@ + address;
    let long = "quack://"@ + address;
    assert(short.subrange(0, 6) =~= "quack:"@);
    assert(long.subrange(0, 8) =~= "quack://"@);
    if begins_with(short, "quack://"@) {
        assert(short.subrange(0, 8)[6] == "quack://"@[6]);
        assert(short.subrange(0, 8)[7] == "quack://"@[7]);
        assert(address.subrange(0, 2) =~= "//"@);
    }
    if begins_with(address, "quack://"@) {
        assert(address.subrange(0, 6) =~= address.subrange(0, 8).take(6));
        assert(address.subrange(0, 6) =~= "quack:"@);
    }
    assert(short.skip(6) =~= address);
    assert(long.skip(8) =~= address);
}

/// Whether a text is the base of the URLs of a server: the scheme, the host, in
/// brackets if it is a bare IPv6 address, and the port in decimal digits.
pub open spec fn is_base_of(
    url: Seq<char>,
    scheme: Seq<char>,
    host: Seq<char>,
    port: u16,
) -> bool {
    exists|shown: Seq<char>, digits: Seq<char>|
        {
            &&& #[trigger] writes_number(digits, port as nat)
            &&& #[trigger] shows_host(shown, host)
            &&& url == scheme + "://"@ + shown + seq![':'] + digits
        }
}

/// Whether a host is shown in brackets, if it is a bare IPv6 address, and else
/// as it is.
pub open spec fn shows_host(shown: Seq<char>, host: Seq<char>) -> bool {
    if host.contains(':') && host[0] != '[' {
        &&& shown.len() == host.len() + 2
        &&& shown[0] == '['
        &&& shown.last() == ']'
        &&& shown.subrange(1, shown.len() - 1) == host
    } else {
        shown == host
    }
}

proof fn lemma_base_url(scheme: Seq<char>, host: Seq<char>, port: u16)
    ensures
        is_base_of(
            base_url_of(
                scheme,
                if host.contains(':') && host[0] != '[' {
                    bracketed(host)
                } else {
                    host
                },
                port,
            ),
            scheme,
            host,
            port,
        ),
{
    let shown = if host.contains(':') && host[0] != '[' {
        bracketed(host)
    } else {
        host
    };
    assert(shows_host(shown, host)) by {
        let b = bracketed(host);
        assert(b.subrange(1, b.len() - 1) =~= host);
    }
    law_decimal_notation(port as nat);
}

/// The parts of a URL name the server: its host and its port are those of the
/// URL, whatever the scheme, with the port of the scheme where the URL has none;
/// HTTPS is used exactly for an `https` URL; and requests go to that scheme, host
/// and port. A URL without a host names none.
pub proof fn law_url_names_its_server(
    input: Seq<char>,
    scheme: Seq<char>,
    host: Option<Seq<char>>,
    port: Option<u16>,
)
    ensures
        server_of_url(input, (scheme, host, port)) is Ok <==> host is Some,
        server_of_url(input, (scheme, host, port)) matches Ok(server) ==> {
            &&& Some(server.host) == host
            &&& port matches Some(port) ==> server.port == port
            &&& port is None && scheme == "https"@ ==> server.port == 443
            &&& port is None && scheme != "https"@ ==> server.port == 80
            &&& server.ssl == (scheme == "https"@)
            &&& is_base_of(server.base_url, scheme, server.host, server.port)
        },
{
    if let Ok(server) = server_of_url(input, (scheme, host, port)) {
        lemma_base_url(scheme, server.host, server.port);
    }
}

/// A text that begins with `http://` or `https://`, with white space around it
/// or not, names the server that the parsed URL names: its scheme, its host and
/// its port, whatever the caller says about HTTPS. A text that does not parse is
/// refused for the reason that the parser gives.
pub proof fn law_direct_url_is_used_as_it_is(
    before: Seq<char>,
    rest: Seq<char>,
    after: Seq<char>,
    secure: bool,
    ssl_override: Option<bool>,
)
    requires
        is_blank(before),
        is_blank(after),
        rest.len() > 0,
        !is_white_space(rest.last()),
    ensures
        ({
            let url = if secure {
                "https://"@ + rest
            } else {
                "http://"@ + rest
            };
            let result = server_of(before + url + after, ssl_override);
            match parsed_url(url) {
                Err(reason) => result == Err::<ParsedQuackUriView, _>(QuackErrorView::Url(reason)),
                Ok((scheme, host, port)) => {
                    &&& result is Ok <==> host is Some
                    &&& result matches Ok(server) ==> {
                        &&& Some(server.host) == host
                        &&& port matches Some(port) ==> server.port == port
                        &&& server.ssl == (scheme == "https"@)
                        &&& is_base_of(server.base_url, scheme, server.host, server.port)
                    }
                },
            }
        }),
{
    reveal_strlit("http://");
    reveal_strlit("https://");
    let url = if secure {
        "https://"@ + rest
    } else {
        "http://"@ + rest
    };
    let input = before + url + after;
    assert(url.last() == rest.last());
    law_trimming_leaves_the_text(before, url, after);
    if secure {
        assert(url.subrange(0, 8) =~= "https://"@);
    } else {
        assert(url.subrange(0, 7) =~= "http://"@);
    }
    assert(is_http_url(url));
    if let Ok((scheme, host, port)) = parsed_url(url) {
        law_url_names_its_server(input, scheme, host, port);
    }
}

/// Whether a result is the server at a host and port, over HTTPS or not.
pub open spec fn is_server_at(
    result: Result<ParsedQuackUriView, QuackErrorView>,
    host: Seq<char>,
    port: u16,
    ssl: bool,
) -> bool {
    &&& result matches Ok(server)
    &&& server.host == host
    &&& server.port == port
    &&& server.ssl == ssl
    &&& is_base_of(
        server.base_url,
        if ssl {
            "https"@
        } else {
            "http"@
        },
        host,
        port,
    )
}

/// Whether a text is a way to begin a Quack URI.
pub open spec fn is_quack_scheme(scheme: Seq<char>) -> bool {
    scheme.len() == 0 || scheme == "quack:"@ || scheme == "quack://"@
}

/// Whether an address keeps its meaning behind a way to begin a URI: it does
/// not go on with the scheme, and is no HTTP(S) URL.
pub open spec fn goes_behind(address: Seq<char>, scheme: Seq<char>) -> bool {
    &&& scheme.len() == 0 ==> !begins_with(address, "quack:"@) && !begins_with(
        address,
        "http://"@,
    ) && !begins_with(address, "https://"@)
    &&& scheme == "quack:"@ ==> !begins_with(address, "//"@)
}

proof fn lemma_address(
    before: Seq<char>,
    scheme: Seq<char>,
    address: Seq<char>,
    after: Seq<char>,
    ssl_override: Option<bool>,
)
    requires
        is_blank(before),
        is_blank(after),
        is_quack_scheme(scheme),
        goes_behind(address, scheme),
        address.len() > 0,
        !is_white_space(address[0]),
        !is_white_space(address.last()),
    ensures
        ({
            let result = server_of(before + scheme + address + after, ssl_override);
            match host_port_of(address) {
                Ok((host, port)) => is_server_at(result, host, port, ssl_override == Some(true)),
                Err(error) => result == Err::<ParsedQuackUriView, _>(error),
            }
        }),
{
    reveal_strlit("quack:");
    reveal_strlit("quack://");
    reveal_strlit("http://");
    reveal_strlit("https://");
    reveal_strlit("//");
    let uri = scheme + address;
    let input = before + scheme + address + after;
    assert(before + uri + after =~= input);
    assert(uri.last() == address.last());
    assert(!is_white_space(uri[0])) by {
        if scheme.len() == 0 {
            assert(uri[0] == address[0]);
        } else {
            assert(uri[0] == 'q');
        }
    }
    law_trimming_leaves_the_text(before, uri, after);
    if scheme.len() == 0 {
        assert(uri =~= address);
        if begins_with(uri, "quack://"@) {
            assert(uri.subrange(0, 6) =~= uri.subrange(0, 8).subrange(0, 6));
            assert("quack://"@.subrange(0, 6) =~= "quack:"@);
        }
    } else {
        assert(uri[0] == 'q');
        if begins_with(uri, "http://"@) {
            assert(uri.subrange(0, 7)[0] == "http://"@[0]);
        }
        if begins_with(uri, "https://"@) {
            assert(uri.subrange(0, 8)[0] == "https://"@[0]);
        }
        if scheme == "quack:"@ {
            assert(uri.subrange(0, 6) =~= "quack:"@);
            assert(uri.skip(6) =~= address);
            if begins_with(uri, "quack://"@) {
                assert(uri.subrange(0, 8)[6] == "quack://"@[6]);
                assert(uri.subrange(0, 8)[7] == "quack://"@[7]);
                assert(address.subrange(0, 2) =~= "//"@);
            }
        } else {
            assert(uri.subrange(0, 8) =~= "quack://"@);
            assert(uri.skip(8) =~= address);
        }
    }
    assert(without_quack_scheme(uri) == address);
    if let Ok((host, port)) = host_port_of(address) {
        let ssl = ssl_override == Some(true);
        lemma_base_url(
            if ssl {
                "https"@
            } else {
                "http"@
            },
            host,
            port,
        );
    }
}

/// An address of a host and a port, bare or behind `quack:` or `quack://`, with
/// white space around it or not, names the server at that host and port; an
/// address of a host alone names the one at the default port. HTTPS is used
/// exactly if the caller says so.
pub proof fn law_address_names_its_server(
    before: Seq<char>,
    scheme: Seq<char>,
    host: Seq<char>,
    port: u16,
    after: Seq<char>,
    ssl_override: Option<bool>,
)
    requires
        is_blank(before),
        is_blank(after),
        is_quack_scheme(scheme),
        host.len() > 0,
        host[0] != '[',
        !is_white_space(host[0]),
        !is_white_space(host.last()),
        !host.contains(':'),
        port != 0,
        goes_behind(host, scheme),
        goes_behind(host + seq![':'], scheme),
    ensures
        is_server_at(
            server_of(
                before + scheme + (host + seq![':'] + decimal(port as nat)) + after,
                ssl_override,
            ),
            host,
            port,
            ssl_override == Some(true),
        ),
        is_server_at(
            server_of(before + scheme + host + after, ssl_override),
            host,
            9494,
            ssl_override == Some(true),
        ),
{
    reveal_strlit("quack:");
    reveal_strlit("http://");
    reveal_strlit("https://");
    reveal_strlit("//");
    let digits = decimal(port as nat);
    let address = host + seq![':'] + digits;
    law_decimal_notation(port as nat);
    assert(address.last() == digits.last());
    assert('0' <= digits[digits.len() - 1] <= '9');
    assert(address[0] == host[0]);
    lemma_goes_on(host, digits, scheme);
    law_host_port_round_trip(host, port);
    lemma_address(before, scheme, address, after, ssl_override);
    lemma_occurrences_present(host, ':');
    lemma_address(before, scheme, host, after, ssl_override);
}

proof fn lemma_goes_on(host: Seq<char>, digits: Seq<char>, scheme: Seq<char>)
    requires
        host.len() > 0,
        !host.contains(':'),
        digits.len() > 0,
        forall|k: int| 0 <= k < digits.len() ==> '0' <= #[trigger] digits[k] <= '9',
        goes_behind(host + seq![':'], scheme),
    ensures
        goes_behind(host + seq![':'] + digits, scheme),
{
    reveal_strlit("quack:");
    reveal_strlit("http://");
    reveal_strlit("https://");
    reveal_strlit("//");
    let front = host + seq![':'];
    let address = front + digits;
    let n = host.len() as int;
    assert forall|k: int| 0 <= k < n implies #[trigger] address[k] != ':' by {
        assert(host[k] == address[k]);
        assert(host.contains(host[k]));
    }
    if begins_with(address, "quack:"@) {
        let part = address.subrange(0, 6);
        assert(part[5] == ':');
        assert(address[5] == ':');
        if n > 5 {
            assert(address[5] != ':');
        }
        assert(front.subrange(0, 6) =~= part) by {
            if n < 5 {
                assert(address[n] == part[n]);
                assert(address[n] == ':');
            }
        }
    }
    if begins_with(address, "http://"@) {
        let part = address.subrange(0, 7);
        assert(part[4] == ':' && part[5] == '/');
        assert(address[4] == ':' && address[5] == '/');
        if n > 4 {
            assert(address[4] != ':');
        }
        assert(address[n] == ':');
        if n < 4 {
            assert(part[n] == address[n]);
        }
        assert(address[5] == digits[0]);
    }
    if begins_with(address, "https://"@) {
        let part = address.subrange(0, 8);
        assert(part[5] == ':' && part[6] == '/');
        assert(address[5] == ':' && address[6] == '/');
        if n > 5 {
            assert(address[5] != ':');
        }
        assert(address[n] == ':');
        if n < 5 {
            assert(part[n] == address[n]);
        }
        assert(address[6] == digits[0]);
    }
    if begins_with(address, "//"@) {
        let part = address.subrange(0, 2);
        assert(part[0] == '/' && part[1] == '/');
        assert(address[1] == '/');
        assert(front.subrange(0, 2) =~= part) by {
            if n == 1 {
                assert(address[1] == ':');
            }
        }
    }
}

/// A bracketed host, with a port or without, names the server at the host
/// within the brackets, whatever colons that holds.
pub proof fn law_bracketed_address_names_its_server(
    before: Seq<char>,
    scheme: Seq<char>,
    host: Seq<char>,
    port: u16,
    after: Seq<char>,
    ssl_override: Option<bool>,
)
    requires
        is_blank(before),
        is_blank(after),
        is_quack_scheme(scheme),
        !host.contains(']'),
        port != 0,
    ensures
        is_server_at(
            server_of(
                before + scheme + (seq!['['] + host + seq![']'] + seq![':'] + decimal(port as nat))
                    + after,
                ssl_override,
            ),
            host,
            port,
            ssl_override == Some(true),
        ),
        is_server_at(
            server_of(before + scheme + (seq!['['] + host + seq![']']) + after, ssl_override),
            host,
            9494,
            ssl_override == Some(true),
        ),
{
    reveal_strlit("quack:");
    reveal_strlit("http://");
    reveal_strlit("https://");
    reveal_strlit("//");
    let digits = decimal(port as nat);
    let alone = seq!['['] + host + seq![']'];
    let address = alone + seq![':'] + digits;
    law_decimal_notation(port as nat);
    assert(address.last() == digits.last());
    assert('0' <= digits[digits.len() - 1] <= '9');
    assert(alone =~= bracketed(host));
    lemma_bracket_goes_behind(address, scheme);
    lemma_bracket_goes_behind(alone, scheme);
    law_bracketed_host_port_round_trip(host, port);
    lemma_address(before, scheme, address, after, ssl_override);
    lemma_behind_bracket(host, seq![]);
    assert(alone.drop_first() =~= host + seq![']'] + seq![]);
    lemma_address(before, scheme, alone, after, ssl_override);
}

proof fn lemma_bracket_goes_behind(address: Seq<char>, scheme: Seq<char>)
    requires
        address.len() > 0,
        address[0] == '[',
    ensures
        goes_behind(address, scheme),
{
    reveal_strlit("quack:");
    reveal_strlit("http://");
    reveal_strlit("https://");
    reveal_strlit("//");
    if begins_with(address, "quack:"@) {
        assert(address.subrange(0, 6)[0] == "quack:"@[0]);
    }
    if begins_with(address, "http://"@) {
        assert(address.subrange(0, 7)[0] == "http://"@[0]);
    }
    if begins_with(address, "https://"@) {
        assert(address.subrange(0, 8)[0] == "https://"@[0]);
    }
    if begins_with(address, "//"@) {
        assert(address.subrange(0, 2)[0] == "//"@[0]);
    }
}

/// Whether text is a number in decimal digits.
pub open spec fn denotes(digits: Seq<char>, n: nat) -> bool {
    &&& digits.len() > 0
    &&& forall|k: int| 0 <= k < digits.len() ==> '0' <= #[trigger] digits[k] <= '9'
    &&& digits_value(digits) == n
}

/// A port is the number that is written: decimal digits, behind a plus sign or
/// not, that denote a number from 1 to 65535. Anything else is refused.
pub proof fn law_port_is_the_number_written(text: Seq<char>, n: nat)
    ensures
        1 <= n <= 65535 && (denotes(text, n) || text.len() > 0 && text[0] == '+' && denotes(
            text.skip(1),
            n,
        )) ==> (port_of(text) matches Ok(port) && port == n),
        port_of(text) matches Ok(port) ==> port > 0 && (denotes(text, port as nat) || text[0] == '+'
            && denotes(text.skip(1), port as nat)),
{
    let digits = if text.len() > 0 && text[0] == '+' {
        text.skip(1)
    } else {
        text
    };
    if text.len() > 0 && text[0] == '+' {
        assert(text.skip(1) =~= text.drop_first());
    }
    if all_digits(digits) {
        assert forall|k: int| 0 <= k < digits.len() implies '0' <= #[trigger] digits[k] <= '9' by {
            assert(is_digit(digits[k]));
        }
    }
    if denotes(digits, n) {
        assert(all_digits(digits)) by {
            assert forall|k: int| 0 <= k < digits.len() implies is_digit(#[trigger] digits[k]) by {}
        }
    }
    if denotes(text, n) {
        assert('0' <= text[0] <= '9');
    }
}

/// An address names no server if it is a host with several colons outside of
/// brackets, a port alone, a bracket that is never closed, or a host with what
/// is no port behind it.
pub proof fn law_unusable_addresses_are_refused(
    a: Seq<char>,
    b: Seq<char>,
    c: Seq<char>,
)
    ensures
        !(a.len() > 0 && a[0] == '[') ==> host_port_of(a + seq![':'] + b + seq![':'] + c) is Err,
        host_port_of(seq![':'] + b) is Err,
        !a.contains(']') ==> host_port_of(seq!['['] + a) is Err,
        port_of(b) is Err && !a.contains(':') && !(a.len() > 0 && a[0] == '[') ==> host_port_of(
            a + seq![':'] + b,
        ) is Err,
{
    let several = a + seq![':'] + b + seq![':'] + c;
    lemma_occurrences_concat(a + seq![':'] + b + seq![':'], c, ':');
    lemma_occurrences_concat(a + seq![':'] + b, seq![':'], ':');
    lemma_occurrences_concat(a + seq![':'], b, ':');
    lemma_occurrences_concat(a, seq![':'], ':');
    lemma_occurrences_concat(seq![':'], b, ':');
    lemma_one_colon();
    assert(several.len() > 0 && (several[0] == ':' || several[0] == a[0]));
    let alone = seq![':'] + b;
    assert(alone[0] == ':');
    alone.index_of_first_ensures(':');
    let open = seq!['['] + a;
    assert(open.drop_first() =~= a);
    a.index_of_first_ensures(']');
    if !a.contains(':') && !(a.len() > 0 && a[0] == '[') {
        let value = a + seq![':'] + b;
        lemma_first_index(a, ':', b);
        lemma_occurrences_present(a, ':');
        lemma_occurrences_present(b, ':');
        assert(value.skip(a.len() as int + 1) =~= b);
        assert(value[0] == ':' || value[0] == a[0]);
    }
}

proof fn lemma_one_colon()
    ensures
        occurrences(seq![':'], ':') == 1,
{
    assert(seq![':'].drop_last() =~= Seq::<char>::empty());
    reveal_with_fuel(occurrences, 2);
}

/// What is wrong with an address is told with the address: several colons
/// outside of brackets, a port without a host, a bracket that is not closed. A
/// port that is none is told by itself.
pub proof fn law_unusable_addresses_are_told(a: Seq<char>, b: Seq<char>, c: Seq<char>)
    ensures
        !(a.len() > 0 && a[0] == '[') ==> {
            let value = a + seq![':'] + b + seq![':'] + c;
            host_port_of(value) == Err::<(Seq<char>, u16), _>(
                QuackErrorView::Protocol(
                    "IPv6 Quack URI hosts must be enclosed in []: "@ + value,
                ),
            )
        },
        !b.contains(':') ==> host_port_of(seq![':'] + b) == Err::<(Seq<char>, u16), _>(
            QuackErrorView::Protocol("invalid Quack URI host "@ + (seq![':'] + b)),
        ),
        !a.contains(']') ==> host_port_of(seq!['['] + a) == Err::<(Seq<char>, u16), _>(
            QuackErrorView::Protocol("invalid IPv6 Quack URI host "@ + (seq!['['] + a)),
        ),
        port_of(b) is Err ==> port_of(b) == Err::<u16, _>(
            QuackErrorView::Protocol("invalid Quack URI port "@ + b),
        ),
        port_of(b) is Err && !b.contains(':') && a.len() > 0 && !a.contains(':') && a[0] != '['
            ==> host_port_of(a + seq![':'] + b) == Err::<(Seq<char>, u16), _>(
            port_of(b)->Err_0,
        ),
{
    let several = a + seq![':'] + b + seq![':'] + c;
    lemma_occurrences_concat(a + seq![':'] + b + seq![':'], c, ':');
    lemma_occurrences_concat(a + seq![':'] + b, seq![':'], ':');
    lemma_occurrences_concat(a + seq![':'], b, ':');
    lemma_occurrences_concat(a, seq![':'], ':');
    lemma_occurrences_concat(seq![':'], b, ':');
    lemma_one_colon();
    assert(several.len() > 0 && (several[0] == ':' || several[0] == a[0]));
    let alone = seq![':'] + b;
    assert(alone[0] == ':');
    alone.index_of_first_ensures(':');
    lemma_occurrences_present(b, ':');
    let open = seq!['['] + a;
    assert(open.drop_first() =~= a);
    a.index_of_first_ensures(']');
    if !a.contains(':') && a.len() > 0 && a[0] != '[' {
        let value = a + seq![':'] + b;
        lemma_first_index(a, ':', b);
        lemma_occurrences_present(a, ':');
        assert(value.skip(a.len() as int + 1) =~= b);
        assert(value[0] == a[0]);
    }
}

} // verus!
