use quack_protocol::client::query_id_or_dash;
use quack_protocol::client::transport_settings;
use quack_protocol::client::QuackClientOptions;
use quack_protocol::client::QuackConnectionInfo;
use quack_protocol::client::QueryMetadata;
use quack_protocol::errors::QuackError;
use quack_protocol::time::Duration;
use quack_protocol::uri::parse_host_port;
use quack_protocol::uri::parse_port;
use quack_protocol::uri::parse_quack_uri;
use quack_protocol::uri::quack_uri_from_url;
use quack_protocol::uri::ParsedQuackUri;
use quack_protocol::uri::UrlParts;

fn refusal(uri: &str) -> String {
    parse_quack_uri(uri, None).unwrap_err().to_text()
}

#[test]
fn urls_give_scheme_host_and_port() {
    assert_eq!(
        parse_quack_uri("  https://Example.COM/path ", None).unwrap(),
        ParsedQuackUri {
            base_url: "https://example.com:443".to_string(),
            host: "example.com".to_string(),
            port: 443,
            ssl: true,
        }
    );
    assert_eq!(
        parse_quack_uri("http://example.com", Some(true)).unwrap(),
        ParsedQuackUri {
            base_url: "http://example.com:80".to_string(),
            host: "example.com".to_string(),
            port: 80,
            ssl: false,
        }
    );
    assert_eq!(
        parse_quack_uri("http://127.0.0.1:4213", None)
            .unwrap()
            .base_url,
        "http://127.0.0.1:4213"
    );
}

#[test]
fn urls_with_ipv6_hosts_keep_their_brackets_in_the_host() {
    let parsed = parse_quack_uri("http://[::1]:9494", None).unwrap();
    assert_eq!(
        parsed,
        ParsedQuackUri {
            base_url: "http://[::1]:9494".to_string(),
            host: "[::1]".to_string(),
            port: 9494,
            ssl: false,
        }
    );
    assert_eq!(
        parse_quack_uri("https://[fe80::2]", None).unwrap().base_url,
        "https://[fe80::2]:443"
    );
}

#[test]
fn a_malformed_url_is_a_url_error() {
    let error = parse_quack_uri("http://", None).unwrap_err();
    assert!(matches!(error, QuackError::Url(_)));
    assert_eq!(error.to_text(), "url parse error: empty host");
    assert!(!error.is_connection_fatal());
}

#[test]
fn a_url_without_a_host_is_refused() {
    let parts = UrlParts {
        scheme: "http".to_string(),
        host: None,
        port: None,
    };
    assert_eq!(
        quack_uri_from_url("http:x", parts).unwrap_err().to_text(),
        "quack protocol error: invalid Quack URI host http:x"
    );
}

#[test]
fn a_url_without_a_known_port_gets_that_of_its_scheme() {
    let parts = UrlParts {
        scheme: "https".to_string(),
        host: Some("a:b".to_string()),
        port: None,
    };
    assert_eq!(
        quack_uri_from_url("https://x", parts).unwrap(),
        ParsedQuackUri {
            base_url: "https://[a:b]:443".to_string(),
            host: "a:b".to_string(),
            port: 443,
            ssl: true,
        }
    );
}

#[test]
fn the_caller_decides_about_encryption() {
    let parsed = parse_quack_uri("quack:db.example", Some(true)).unwrap();
    assert_eq!(parsed.base_url, "https://db.example:9494");
    assert!(parsed.ssl);
}

#[test]
fn unusable_uris_are_refused() {
    assert_eq!(refusal(" \t"), "quack protocol error: Quack URI is empty");
    assert_eq!(
        refusal("quack://"),
        "quack protocol error: invalid Quack URI quack://"
    );
    assert_eq!(
        refusal(":9494"),
        "quack protocol error: invalid Quack URI host :9494"
    );
    assert_eq!(
        refusal("[::1"),
        "quack protocol error: invalid IPv6 Quack URI host [::1"
    );
    assert_eq!(
        refusal("::1"),
        "quack protocol error: IPv6 Quack URI hosts must be enclosed in []: ::1"
    );
    assert_eq!(
        refusal("host:http"),
        "quack protocol error: invalid Quack URI port http"
    );
}

#[test]
fn ports_lie_between_1_and_65535() {
    assert_eq!(parse_port("1").unwrap(), 1);
    assert_eq!(parse_port("+80").unwrap(), 80);
    assert_eq!(parse_port("0000000065535").unwrap(), 65535);
    for text in ["", "0", "+", "-1", "65536", "99999999999999999999999", "8 0", "8o"] {
        assert!(parse_port(text).is_err(), "{text}");
    }
}

#[test]
fn host_and_port_round_trip() {
    for (host, port) in [("localhost", 1u16), ("db.example", 65535)] {
        let text = format!("{host}:{port}");
        assert_eq!(parse_host_port(&text).unwrap(), (host.to_string(), port));
    }
    assert_eq!(
        parse_host_port("[fe80::1]:8080").unwrap(),
        ("fe80::1".to_string(), 8080)
    );
    assert_eq!(
        parse_host_port("[fe80::1]").unwrap(),
        ("fe80::1".to_string(), 9494)
    );
    assert_eq!(
        parse_host_port("[fe80::1]ignored").unwrap(),
        ("fe80::1".to_string(), 9494)
    );
}

#[test]
fn the_quack_scheme_is_optional() {
    for rest in ["localhost", "localhost:17", "[::1]:17"] {
        let plain = parse_quack_uri(rest, None).unwrap();
        assert_eq!(parse_quack_uri(&format!("quack:{rest}"), None).unwrap(), plain);
        assert_eq!(parse_quack_uri(&format!("quack://{rest}"), None).unwrap(), plain);
    }
}

#[test]
fn a_short_request_timeout_bounds_connecting_too() {
    let mut options = QuackClientOptions::default();
    let settings = transport_settings("localhost", &options).unwrap();
    assert_eq!(settings.base_url, "http://localhost:9494");
    assert_eq!(settings.timeout, Duration::from_secs(300));
    assert_eq!(settings.connect_timeout, Duration::from_secs(10));
    options.timeout = Some(Duration::from_secs(2));
    let settings = transport_settings("localhost", &options).unwrap();
    assert_eq!(settings.timeout, Duration::from_secs(2));
    assert_eq!(settings.connect_timeout, Duration::from_secs(2));
    options.timeout = None;
    let settings = transport_settings("localhost", &options).unwrap();
    assert_eq!(settings.timeout, Duration::from_secs(300));
    assert!(transport_settings("", &options).is_err());
}

#[test]
fn a_query_without_an_id_is_a_dash() {
    let named = QueryMetadata {
        query_id: Some("q-7".to_string()),
    };
    let unnamed = QueryMetadata { query_id: None };
    assert_eq!(query_id_or_dash(Some(&named)), "q-7");
    assert_eq!(query_id_or_dash(Some(&unnamed)), "-");
    assert_eq!(query_id_or_dash(None), "-");
}

#[test]
fn nothing_is_known_of_a_connection_by_default() {
    let info = QuackConnectionInfo::default();
    assert_eq!(info.quack_version, None);
    assert_eq!(info.heartbeat_timeout, None);
    assert_eq!(info.server_platform, None);
    assert_eq!(info.server_duckdb_version, None);
}
