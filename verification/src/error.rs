//! The ways in which the library's operations refuse their input.

use vstd::prelude::*;
use crate::time::Timestamp;

verus! {

/// Why an operation of the library refused its input.
#[derive(Clone, Debug)]
pub enum TrackerError {
    /// A required value (named by the label, such as "task name") was empty
    /// once surrounding white space was removed.
    EmptyValue { label: String },
    /// A value (named by the label, such as "tag") contains a control
    /// character.
    ControlCharacter { label: String },
    /// A timer is already running, with the name of its task and when it began.
    AlreadyTracking { task_name: String, started_at: Timestamp },
    /// No timer is running.
    NoTimerRunning,
    /// The peer address is not a URL.
    UrlUnparsable,
    /// The peer URL uses a scheme other than `http` or `https`.
    UrlSchemeNotHttp,
    /// The peer URL has no host.
    UrlMissingHost,
    /// The peer URL carries a user name or a password.
    UrlHasCredentials,
    /// The peer URL carries a query or a fragment.
    UrlHasQueryOrFragment,
    /// The peer URL has a path beyond `/`.
    UrlHasPath,
    /// The sync token is shorter than the minimum number of bytes.
    TokenTooShort,
    /// The sync token is longer than the maximum number of bytes.
    TokenTooLong,
    /// The sync token contains a control character.
    TokenHasControlCharacter,
    /// Tailscale reports a backend state other than `Running`.
    TailscaleNotRunning { state: String },
    /// This device has no Tailscale IPv4 address.
    NoTailscaleIpv4,
    /// The day count of a `Nd` report start is not a number.
    DayCountInvalid,
    /// The day count of a `Nd` report start spans more than chrono can hold.
    DayCountTooLarge,
    /// The report start is neither `today`, `Nd` nor an RFC 3339 instant.
    SinceUnparsable,
    /// A serialized sync body is larger than the protocol allows.
    PayloadTooLarge,
    /// A response is larger than the limit given, in bytes.
    ResponseTooLarge { limit: usize },
    /// A list of tags could not be written as JSON.
    TagEncoding,
    /// A sync payload breaks the rules for exchanged records.
    InvalidSyncPayload,
    /// A manual bind address that is not loopback was given without a token.
    ManualBindNeedsToken,
}

} // verus!
