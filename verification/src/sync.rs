//! The rules at the edge of the sync protocol: which tokens are accepted, who
//! is authorized, how large bodies may be, and which probed devices run a
//! tracker.

use vstd::prelude::*;
use vstd::utf8::{encode_utf8, encode_utf8_decode_utf8};
use crate::error::TrackerError;
use crate::sorting::{Named, named, sort_by_name, sorted_by_name, views};
use crate::tailscale::{dotted, push_dotted, TailscalePeer};
use crate::text::{bytes_equal, chars_of, decimal, is_control, is_control_char, owned, push_char, push_decimal, push_str};

verus! {

/// The largest request or response body that sync accepts, in bytes.
pub const MAX_SYNC_BYTES: usize = 16 * 1024 * 1024;

/// The largest error body read from a peer, in bytes.
pub const MAX_ERROR_BYTES: usize = 64 * 1024;

/// The largest health body read from a probed device, in bytes.
pub const MAX_HEALTH_BYTES: usize = 128;

/// The shortest sync token accepted, in bytes.
pub const MIN_TOKEN_BYTES: usize = 32;

/// The longest sync token accepted, in bytes.
pub const MAX_TOKEN_BYTES: usize = 4 * 1024;

/// The body with which a tracker's health endpoint answers.
pub open spec fn health_marker() -> Seq<char> {
    "tracker-sync-v1"@
}

/// The body with which a tracker's health endpoint answers.
pub fn health_response() -> (res: &'static str)
    ensures
        res@ == health_marker(),
{
    "tracker-sync-v1"
}

/// A probed device that answered as a tracker.
#[derive(Clone, Debug, PartialEq, Eq)]
pub struct ReachablePeer {
    pub name: String,
    pub url: String,
}

impl View for ReachablePeer {
    type V = (Seq<char>, Seq<char>);

    open spec fn view(&self) -> (Seq<char>, Seq<char>) {
        (self.name@, self.url@)
    }
}

impl Named for ReachablePeer {
    open spec fn name_view(&self) -> Seq<char> {
        self.name@
    }

    fn name_text(&self) -> (res: &str) {
        self.name.as_str()
    }
}

/// The error, if any, with which a sync token is refused.
pub open spec fn token_refusal(token: Option<Seq<char>>) -> Option<TrackerError> {
    match token {
        None => None,
        Some(t) => if encode_utf8(t).len() < MIN_TOKEN_BYTES {
            Some(TrackerError::TokenTooShort)
        } else if encode_utf8(t).len() > MAX_TOKEN_BYTES {
            Some(TrackerError::TokenTooLong)
        } else if exists|i: int| 0 <= i < t.len() && is_control(#[trigger] t[i]) {
            Some(TrackerError::TokenHasControlCharacter)
        } else {
            None
        },
    }
}

/// Checks an optional sync token: at least 32 and at most 4096 bytes, and no
/// control characters.
pub fn validate_token(token: Option<&str>) -> (res: Result<(), TrackerError>)
    ensures
        res is Ok <==> token_refusal(crate::records::opt_view(token)) is None,
        res matches Err(e) ==> token_refusal(crate::records::opt_view(token)) == Some(e),
{
    match token {
        None => Ok(()),
        Some(t) => {
            let byte_len = t.as_bytes().len();
            if byte_len < MIN_TOKEN_BYTES {
                return Err(TrackerError::TokenTooShort);
            }
            if byte_len > MAX_TOKEN_BYTES {
                return Err(TrackerError::TokenTooLong);
            }
            let cs = chars_of(t);
            let mut i: usize = 0;
            while i < cs.len()
                invariant
                    cs@ == t@,
                    i <= cs.len(),
                    MIN_TOKEN_BYTES <= encode_utf8(t@).len() <= MAX_TOKEN_BYTES,
                    crate::records::opt_view(token) == Some(t@),
                    forall|k: int| 0 <= k < i ==> !is_control(#[trigger] t@[k]),
                decreases cs.len() - i,
            {
                if is_control_char(cs[i]) {
                    assert(is_control(t@[i as int]));
                    return Err(TrackerError::TokenHasControlCharacter);
                }
                i = i + 1;
            }
            Ok(())
        },
    }
}

/// `subtle::ConstantTimeEq::ct_eq` on byte slices, as a `bool`. Claims what
/// subtle's source computes: equal lengths and equal bytes.
#[verifier::external_body]
fn constant_time_equal(a: &[u8], b: &[u8]) -> (res: bool)
    ensures
        res == (a@ == b@),
{
    bool::from(subtle::ConstantTimeEq::ct_eq(a, b))
}

/// The `Authorization` header value that a server with this token expects.
pub open spec fn expected_authorization(token: Seq<char>) -> Seq<char> {
    "Bearer "@ + token
}

/// Whether a request may proceed: always without a configured token;
/// otherwise only when the supplied `Authorization` value is exactly
/// `Bearer <token>`, compared in constant time.
pub fn authorized(token: Option<&str>, supplied: &str) -> (res: bool)
    ensures
        res == match token {
            None => true,
            Some(t) => supplied@ == expected_authorization(t@),
        },
{
    match token {
        None => true,
        Some(t) => {
            let mut expected = owned("Bearer ");
            push_str(&mut expected, t);
            let same_length = supplied.len() == expected.as_str().len();
            let matches = same_length && constant_time_equal(supplied.as_bytes(), expected.as_str().as_bytes());
            proof {
                encode_utf8_decode_utf8(supplied@);
                encode_utf8_decode_utf8(expected@);
            }
            matches
        },
    }
}

/// The port on which a tracker serves sync.
pub const DEFAULT_SYNC_PORT: u16 = 7789;

/// Where the server may listen: the automatic Tailscale address always; a
/// manually given address only when it is loopback or a token is configured.
pub fn check_bind(manual: bool, loopback: bool, has_token: bool) -> (res: Result<(), TrackerError>)
    ensures
        res is Ok <==> (!manual || loopback || has_token),
        res matches Err(e) ==> e is ManualBindNeedsToken,
{
    if manual && !loopback && !has_token {
        Err(TrackerError::ManualBindNeedsToken)
    } else {
        Ok(())
    }
}

/// Refuses a serialized sync body larger than the protocol allows.
pub fn check_sync_body(len: usize) -> (res: Result<(), TrackerError>)
    ensures
        res is Ok <==> len <= MAX_SYNC_BYTES,
        res matches Err(e) ==> e is PayloadTooLarge,
{
    if len > MAX_SYNC_BYTES {
        Err(TrackerError::PayloadTooLarge)
    } else {
        Ok(())
    }
}

/// A response body being read under a byte limit.
pub struct LimitedBody {
    received: usize,
    limit: usize,
}

impl LimitedBody {
    #[verifier::type_invariant]
    spec fn within_limit(self) -> bool {
        self.received <= self.limit
    }

    /// Bytes accepted so far.
    pub closed spec fn received_spec(self) -> nat {
        self.received as nat
    }

    /// The limit, in bytes.
    pub closed spec fn limit_spec(self) -> nat {
        self.limit as nat
    }

    /// Begins reading a response whose declared length is `content_length`:
    /// refused when it declares more than the limit; otherwise the capacity to
    /// reserve is the declared length (when it fits a `usize`, else zero),
    /// capped at the limit.
    pub fn start(content_length: Option<u64>, limit: usize) -> (res: Result<(LimitedBody, usize), TrackerError>)
        ensures
            res is Err <==> (content_length matches Some(n) && n > limit),
            res matches Err(e) ==> e matches TrackerError::ResponseTooLarge { limit: l } && l == limit,
            res matches Ok((body, capacity)) ==> {
                &&& body.received_spec() == 0
                &&& body.limit_spec() == limit
                &&& capacity == match content_length {
                    Some(n) => if n <= usize::MAX && n < limit { n as int } else { limit as int },
                    None => 0,
                }
            },
    {
        match content_length {
            Some(n) => {
                if n > limit as u64 {
                    return Err(TrackerError::ResponseTooLarge { limit });
                }
                let capacity = if n < limit as u64 { n as usize } else { limit };
                Ok((LimitedBody { received: 0, limit }, capacity))
            },
            None => Ok((LimitedBody { received: 0, limit }, 0)),
        }
    }

    /// Accepts the next chunk of the body, or refuses it when the body would
    /// then exceed the limit (the running total saturating at `usize::MAX`).
    pub fn accept(&mut self, chunk_len: usize) -> (res: Result<(), TrackerError>)
        requires
            old(self).received_spec() + chunk_len <= usize::MAX || old(self).limit_spec() < usize::MAX,
        ensures
            res is Err <==> old(self).received_spec() + chunk_len > old(self).limit_spec(),
            res matches Err(e) ==> e matches TrackerError::ResponseTooLarge { limit: l } && l == old(self).limit_spec(),
            res is Ok ==> final(self).received_spec() == old(self).received_spec() + chunk_len,
            res is Err ==> final(self).received_spec() == old(self).received_spec(),
            final(self).limit_spec() == old(self).limit_spec(),
    {
        proof {
            use_type_invariant(&*self);
        }
        let total = self.received.saturating_add(chunk_len);
        if total > self.limit {
            return Err(TrackerError::ResponseTooLarge { limit: self.limit });
        }
        self.received = total;
        Ok(())
    }
}

/// The base URL under which a probed device would serve sync.
pub open spec fn probe_url_spec(ip: crate::tailscale::Ipv4Address, port: u16) -> Seq<char> {
    "http://"@ + dotted(ip) + seq![':'] + decimal(port as nat)
}

/// The base URL under which a probed device would serve sync:
/// `http://<address>:<port>`.
pub fn probe_url(ip: crate::tailscale::Ipv4Address, port: u16) -> (res: String)
    ensures
        res@ == probe_url_spec(ip, port),
{
    let mut url = owned("http://");
    push_dotted(&mut url, ip);
    push_char(&mut url, ':');
    push_decimal(&mut url, port as u64);
    assert(url@ =~= probe_url_spec(ip, port));
    url
}

/// What a health probe of a candidate found: a tracker peer when the
/// response succeeded and its body is exactly the health marker.
pub fn probe_result(candidate: TailscalePeer, port: u16, success: bool, body: &[u8]) -> (res: Option<ReachablePeer>)
    ensures
        res is Some <==> (success && body@ == encode_utf8(health_marker())),
        res matches Some(p) ==> p.name@ == candidate.name@ && p.url@ == probe_url_spec(candidate.ip, port),
{
    if !success {
        return None;
    }
    let marker = health_response();
    if bytes_equal(body, marker.as_bytes()) {
        Some(ReachablePeer { name: candidate.name, url: probe_url(candidate.ip, port) })
    } else {
        None
    }
}

/// The tracker peers found by probing, listed by name; peers with the same
/// name stay in the order in which they were found.
pub fn sorted_peers(peers: Vec<ReachablePeer>) -> (res: Vec<ReachablePeer>)
    ensures
        sorted_by_name(res@),
        views(res@).to_multiset() == views(peers@).to_multiset(),
        forall|name: Seq<char>| #[trigger] named(res@, name) == named(peers@, name),
{
    sort_by_name(peers)
}

} // verus!
