//! Peer addresses: what a URL must look like to name a sync peer, read with
//! the `url` crate (through `reqwest::Url`).

use vstd::prelude::*;
use crate::error::TrackerError;
use crate::model::Peer;
use crate::records::cleaned_required;
use crate::text::{owned, trim, trim_end_by, trim_end_matching, trim_spec};

verus! {

/// The components of a parsed URL that the peer checks read, as texts.
pub struct UrlView {
    pub scheme: Seq<char>,
    pub host: Option<Seq<char>>,
    pub username: Seq<char>,
    pub password: Option<Seq<char>>,
    pub query: Option<Seq<char>>,
    pub fragment: Option<Seq<char>>,
    pub path: Seq<char>,
}

/// The components of a parsed URL, copied out of `reqwest::Url`.
pub struct UrlParts {
    pub scheme: String,
    pub host: Option<String>,
    pub username: String,
    pub password: Option<String>,
    pub query: Option<String>,
    pub fragment: Option<String>,
    pub path: String,
}

/// The view of an optional owned text.
pub open spec fn opt_text(value: Option<String>) -> Option<Seq<char>> {
    match value {
        Some(v) => Some(v@),
        None => None,
    }
}

impl View for UrlParts {
    type V = UrlView;

    open spec fn view(&self) -> UrlView {
        UrlView {
            scheme: self.scheme@,
            host: opt_text(self.host),
            username: self.username@,
            password: opt_text(self.password),
            query: opt_text(self.query),
            fragment: opt_text(self.fragment),
            path: self.path@,
        }
    }
}

/// Name for what `reqwest::Url::parse` gives for a text: `None` when it fails,
/// otherwise the URL's `scheme()`, `host_str()`, `username()`, `password()`,
/// `query()`, `fragment()` and `path()`.
pub uninterp spec fn url_parse(input: Seq<char>) -> Option<UrlView>;

/// Name for the serialization of the URL parsed from `input` after
/// `set_path(path)`: `None` when `input` does not parse.
pub uninterp spec fn url_with_path(input: Seq<char>, path: Seq<char>) -> Option<Seq<char>>;

/// `reqwest::Url::parse`, with the components copied out. Claims only the
/// named result.
#[verifier::external_body]
fn parse_url(input: &str) -> (res: Option<UrlParts>)
    ensures
        res is Some <==> url_parse(input@) is Some,
        res matches Some(parts) ==> url_parse(input@) == Some(parts@),
{
    match reqwest::Url::parse(input) {
        Ok(url) => Some(UrlParts {
            scheme: url.scheme().to_owned(),
            host: url.host_str().map(str::to_owned),
            username: url.username().to_owned(),
            password: url.password().map(str::to_owned),
            query: url.query().map(str::to_owned),
            fragment: url.fragment().map(str::to_owned),
            path: url.path().to_owned(),
        }),
        Err(_) => None,
    }
}

/// `reqwest::Url::parse`, then `set_path`, then the serialization. Claims the
/// named result, and that it exists exactly when the text parses
/// (`set_path` itself cannot fail).
#[verifier::external_body]
fn replace_url_path(input: &str, path: &str) -> (res: Option<String>)
    ensures
        res is Some <==> url_parse(input@) is Some,
        res matches Some(text) ==> url_with_path(input@, path@) == Some(text@),
{
    match reqwest::Url::parse(input) {
        Ok(mut url) => {
            url.set_path(path);
            Some(String::from(url))
        },
        Err(_) => None,
    }
}

/// Whether a URL scheme is one that sync speaks.
pub open spec fn is_http_scheme(scheme: Seq<char>) -> bool {
    scheme == "http"@ || scheme == "https"@
}

fn http_scheme(scheme: &str) -> (res: bool)
    ensures
        res == is_http_scheme(scheme@),
{
    let s = owned(scheme);
    let http = owned("http");
    let https = owned("https");
    s == http || s == https
}

/// The text of a manually configured peer URL as it is stored: trimmed, and
/// without trailing slashes.
pub open spec fn stored_peer_url(url: Seq<char>) -> Seq<char> {
    trim_end_by(trim_spec(url), |c: char| c == '/')
}

/// Why a parsed URL cannot be stored as a peer's: a scheme other than `http`
/// or `https`, or no host.
pub open spec fn peer_url_problem(u: UrlView) -> Option<TrackerError> {
    if !is_http_scheme(u.scheme) {
        Some(TrackerError::UrlSchemeNotHttp)
    } else if u.host is None {
        Some(TrackerError::UrlMissingHost)
    } else {
        None
    }
}

/// Checks a parsed URL for storage as a peer's URL.
pub fn check_peer_url(parts: &UrlParts) -> (res: Option<TrackerError>)
    ensures
        res == peer_url_problem(parts@),
{
    if !http_scheme(parts.scheme.as_str()) {
        return Some(TrackerError::UrlSchemeNotHttp);
    }
    if parts.host.is_none() {
        return Some(TrackerError::UrlMissingHost);
    }
    None
}

/// The error, if any, with which a peer's name and URL are refused, in the
/// order they are checked.
pub open spec fn peer_refusal(name: Seq<char>, url: Seq<char>) -> Option<TrackerError> {
    let stored = stored_peer_url(url);
    if trim_spec(name).len() == 0 {
        Some(TrackerError::EmptyValue { label: arbitrary() })
    } else {
        match url_parse(stored) {
            None => Some(TrackerError::UrlUnparsable),
            Some(u) => peer_url_problem(u),
        }
    }
}

/// A sync peer from a name and a URL: the name is required; the URL, stored
/// trimmed and without trailing slashes, must parse, use `http` or `https`
/// and have a host.
pub fn peer_from_input(name: &str, url: &str) -> (res: Result<Peer, TrackerError>)
    ensures
        res is Ok <==> peer_refusal(name@, url@) is None,
        res matches Ok(p) ==> p.name@ == trim_spec(name@) && p.url@ == stored_peer_url(url@),
        res matches Err(e) ==> match peer_refusal(name@, url@) {
            Some(TrackerError::EmptyValue { .. }) => e matches TrackerError::EmptyValue { label } && label@ == "peer name"@,
            Some(expected) => e == expected,
            None => false,
        },
{
    let name = cleaned_required("peer name", name)?;
    let url = owned(trim_end_matching(trim(url), '/'));
    let parts = match parse_url(url.as_str()) {
        Some(parts) => parts,
        None => return Err(TrackerError::UrlUnparsable),
    };
    if let Some(problem) = check_peer_url(&parts) {
        return Err(problem);
    }
    Ok(Peer { name, url })
}

/// The path of the versioned sync endpoint.
pub open spec fn sync_path() -> Seq<char> {
    "/v1/sync"@
}

/// Why a parsed URL is not a sync peer's origin, in the order the checks run:
/// a scheme other than `http` or `https`, no host, credentials, a query or
/// fragment, or a path beyond `/`.
pub open spec fn origin_problem(u: UrlView) -> Option<TrackerError> {
    if !is_http_scheme(u.scheme) {
        Some(TrackerError::UrlSchemeNotHttp)
    } else if u.host is None {
        Some(TrackerError::UrlMissingHost)
    } else if u.username.len() > 0 || u.password is Some {
        Some(TrackerError::UrlHasCredentials)
    } else if u.query is Some || u.fragment is Some {
        Some(TrackerError::UrlHasQueryOrFragment)
    } else if !(u.path.len() == 0 || u.path == "/"@) {
        Some(TrackerError::UrlHasPath)
    } else {
        None
    }
}

/// Checks a parsed URL as a sync peer's origin.
pub fn check_origin(parts: &UrlParts) -> (res: Option<TrackerError>)
    ensures
        res == origin_problem(parts@),
{
    if !http_scheme(parts.scheme.as_str()) {
        return Some(TrackerError::UrlSchemeNotHttp);
    }
    if parts.host.is_none() {
        return Some(TrackerError::UrlMissingHost);
    }
    if parts.username.as_str().unicode_len() > 0 || parts.password.is_some() {
        return Some(TrackerError::UrlHasCredentials);
    }
    if parts.query.is_some() || parts.fragment.is_some() {
        return Some(TrackerError::UrlHasQueryOrFragment);
    }
    let slash = owned("/");
    if !(parts.path.as_str().unicode_len() == 0 || parts.path == slash) {
        return Some(TrackerError::UrlHasPath);
    }
    None
}

/// The error, if any, with which a peer origin is refused for sync, in the
/// order the checks run.
pub open spec fn endpoint_refusal(peer: Seq<char>) -> Option<TrackerError> {
    match url_parse(peer) {
        None => Some(TrackerError::UrlUnparsable),
        Some(u) => origin_problem(u),
    }
}

/// The sync endpoint of a peer: the peer must be an `http` or `https` origin
/// with a host, without credentials, query, fragment or path; the endpoint is
/// that URL with the path `/v1/sync`.
pub fn sync_endpoint(peer: &str) -> (res: Result<String, TrackerError>)
    ensures
        res is Ok <==> endpoint_refusal(peer@) is None,
        res matches Ok(endpoint) ==> url_with_path(peer@, sync_path()) == Some(endpoint@),
        res matches Err(e) ==> endpoint_refusal(peer@) == Some(e),
{
    let parts = match parse_url(peer) {
        Some(parts) => parts,
        None => return Err(TrackerError::UrlUnparsable),
    };
    if let Some(problem) = check_origin(&parts) {
        return Err(problem);
    }
    match replace_url_path(peer, "/v1/sync") {
        Some(endpoint) => Ok(endpoint),
        None => Err(TrackerError::UrlUnparsable),
    }
}

} // verus!
