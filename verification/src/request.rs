//! Building the literal HTTP/1.0 request text for a target URL.

use vstd::prelude::*;
use vstd::string::StringExecFns;

verus! {

/// The URL text parses and the URL has a host.
pub uninterp spec fn url_ok(s: Seq<char>) -> bool;

/// The host of the parsed URL, as text.
pub uninterp spec fn url_host(s: Seq<char>) -> Seq<char>;

/// The path of the parsed URL, as text.
pub uninterp spec fn url_path(s: Seq<char>) -> Seq<char>;

/// Relies on `url::Url::parse`, `Url::host_str` and `Url::path`: parsing
/// either fails or yields a URL whose host and path are functions of the
/// URL text alone (`host_str` and `path` return slices of the parsed
/// serialization). Yields the host and path when the text parses as a URL
/// with a host, and `None` otherwise.
#[verifier::external_body]
fn host_and_path(s: &str) -> (r: Option<(String, String)>)
    ensures
        r is Some <==> url_ok(s@),
        r is Some ==> (r->0).0@ == url_host(s@) && (r->0).1@ == url_path(s@),
{
    match url::Url::parse(s) {
        Ok(u) => match u.host_str() {
            Some(h) => {
                let host = h.to_string();
                let path = u.path().to_string();
                Some((host, path))
            },
            None => None,
        },
        Err(_) => None,
    }
}

/// The request text for a host and path: an HTTP/1.0 GET with a Host
/// header and `Connection: close`, so that the server closes the socket
/// when the response is complete and reading to end of stream frames it.
/// The path is pasted after the literal `GET /`, exactly as given.
pub open spec fn request_text(host: Seq<char>, path: Seq<char>) -> Seq<char> {
    "GET /"@ + path + " HTTP/1.0\r\nHost: "@ + host + "\r\nConnection: close\r\n\r\n"@
}

/// Assembles the request text from a host and a path.
pub fn build_request(host: &str, path: &str) -> (r: String)
    ensures
        r@ == request_text(host@, path@),
{
    let mut r = String::new();
    r.append("GET /");
    r.append(path);
    r.append(" HTTP/1.0\r\nHost: ");
    r.append(host);
    r.append("\r\nConnection: close\r\n\r\n");
    proof {
        assert(r@ =~= request_text(host@, path@));
    }
    r
}

/// Prepares one request from the URL text: the URL must parse and have a
/// host; the result is that host together with the full request text to
/// send it. `None` exactly when the text is not a URL with a host.
pub fn prepare_request(url_str: &str) -> (r: Option<(String, String)>)
    ensures
        r is Some <==> url_ok(url_str@),
        r is Some ==> (r->0).0@ == url_host(url_str@),
        r is Some ==> (r->0).1@ == request_text(url_host(url_str@), url_path(url_str@)),
{
    match host_and_path(url_str) {
        Some((host, path)) => {
            let req = build_request(host.as_str(), path.as_str());
            Some((host, req))
        },
        None => None,
    }
}

} // verus!
