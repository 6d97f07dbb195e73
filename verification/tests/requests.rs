use http_profiler::config::parse_profile_count;
use http_profiler::request::{build_request, prepare_request};

#[test]
fn request_text_is_the_literal_http_10_request() {
    let req = build_request("example.com", "/foo");
    assert_eq!(
        req,
        "GET //foo HTTP/1.0\r\nHost: example.com\r\nConnection: close\r\n\r\n"
    );
}

#[test]
fn prepare_request_uses_parsed_host_and_path() {
    let (host, req) = match prepare_request("https://example.com/foo") {
        Some(p) => p,
        None => panic!("URL with a host must be accepted"),
    };
    assert_eq!(host, "example.com");
    assert_eq!(
        req,
        "GET //foo HTTP/1.0\r\nHost: example.com\r\nConnection: close\r\n\r\n"
    );
}

#[test]
fn prepare_request_on_bare_host_uses_root_path() {
    let (host, req) = match prepare_request("https://example.com") {
        Some(p) => p,
        None => panic!("URL with a host must be accepted"),
    };
    assert_eq!(host, "example.com");
    assert_eq!(
        req,
        "GET // HTTP/1.0\r\nHost: example.com\r\nConnection: close\r\n\r\n"
    );
}

#[test]
fn unparsable_url_is_rejected() {
    assert!(prepare_request("not a url").is_none());
    assert!(prepare_request("").is_none());
}

#[test]
fn url_without_host_is_rejected() {
    assert!(prepare_request("data:text/plain,x").is_none());
    assert!(prepare_request("unix:/run/foo.socket").is_none());
}

#[test]
fn profile_count_must_be_a_positive_number() {
    assert_eq!(parse_profile_count("5"), Some(5));
    assert_eq!(parse_profile_count("+3"), Some(3));
    assert_eq!(parse_profile_count("1"), Some(1));
}

#[test]
fn invalid_profile_counts_are_rejected_before_any_network_work() {
    assert_eq!(parse_profile_count("0"), None);
    assert_eq!(parse_profile_count("-1"), None);
    assert_eq!(parse_profile_count("abc"), None);
    assert_eq!(parse_profile_count(""), None);
    assert_eq!(parse_profile_count("12x"), None);
    assert_eq!(parse_profile_count(" 5"), None);
}
