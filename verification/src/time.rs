//! Instants in UTC, held as a Unix timestamp and its sub-second nanoseconds,
//! and the calls into `chrono` that format, read and subtract them.

use vstd::prelude::*;

verus! {

/// Whether `chrono::DateTime::<Utc>::from_timestamp(secs, nanos)` returns
/// `Some`: the day lies between January 1 of the year -262143 and December 31
/// of the year 262142 (chrono's range of dates), the nanoseconds are below two
/// seconds, and one second or more of them only in the last second of a
/// minute (a leap second).
pub open spec fn utc_datetime_exists(secs: i64, nanos: u32) -> bool {
    &&& -8_334_601_228_800 <= secs <= 8_210_266_876_799
    &&& nanos < 2_000_000_000
    &&& (nanos >= 1_000_000_000 ==> secs % 60 == 59)
}

/// Name for the text that chrono's `to_rfc3339_opts(SecondsFormat::Nanos, true)`
/// writes for the instant `DateTime::<Utc>::from_timestamp(secs, nanos)`.
pub uninterp spec fn rfc3339_nanos(secs: i64, nanos: u32) -> Seq<char>;

/// Name for what chrono's `FromStr` for `DateTime<Utc>` reads from a text:
/// `None` when parsing fails, otherwise the instant's `timestamp()` and
/// `timestamp_subsec_nanos()`.
pub uninterp spec fn utc_parse(text: Seq<char>) -> Option<(i64, u32)>;

/// The one-second correction that chrono applies when exactly one of two
/// times of day lies inside a leap second (`nanos >= 1_000_000_000`).
pub open spec fn leap_adjustment(end_secs: i64, end_nanos: u32, start_secs: i64, start_nanos: u32) -> int {
    let end_of_day = end_secs % 86_400;
    let start_of_day = start_secs % 86_400;
    if end_of_day > start_of_day && start_nanos >= 1_000_000_000 {
        1
    } else if end_of_day < start_of_day && end_nanos >= 1_000_000_000 {
        -1
    } else {
        0
    }
}

/// The signed number of nanoseconds from the start instant to the end instant.
pub open spec fn nanos_between(end_secs: i64, end_nanos: u32, start_secs: i64, start_nanos: u32) -> int {
    (end_secs - start_secs + leap_adjustment(end_secs, end_nanos, start_secs, start_nanos))
        * 1_000_000_000 + end_nanos - start_nanos
}

/// Whole seconds in a span of nanoseconds, rounded toward zero.
pub open spec fn whole_seconds(nanos: int) -> int {
    if nanos >= 0 {
        nanos / 1_000_000_000
    } else {
        -((-nanos) / 1_000_000_000)
    }
}

/// The largest number of seconds that chrono's `TimeDelta` can hold.
pub open spec fn max_delta_secs() -> int {
    9_223_372_036_854_775
}

/// `chrono::DateTime::<Utc>::from_timestamp`: whether an instant with these
/// parts exists. Claims what chrono's source checks: the day number
/// (`secs.div_euclid(86_400)`) within the range of `NaiveDate`, and the
/// nanoseconds as `NaiveTime::from_num_seconds_from_midnight_opt` takes them.
#[verifier::external_body]
fn datetime_exists(secs: i64, nanos: u32) -> (res: bool)
    ensures
        res == utc_datetime_exists(secs, nanos),
{
    chrono::DateTime::from_timestamp(secs, nanos).is_some()
}

/// `chrono::DateTime::to_rfc3339_opts` with nanosecond digits and a `Z`
/// suffix, for the instant built by `DateTime::from_timestamp`. Claims only
/// that the text is the named one.
#[verifier::external_body]
fn rfc3339_text(secs: i64, nanos: u32) -> (res: String)
    requires
        utc_datetime_exists(secs, nanos),
    ensures
        res@ == rfc3339_nanos(secs, nanos),
{
    chrono::DateTime::from_timestamp(secs, nanos)
        .expect("the instant exists")
        .to_rfc3339_opts(chrono::SecondsFormat::Nanos, true)
}

/// `str::parse::<chrono::DateTime<Utc>>`, giving the instant's timestamp and
/// sub-second nanoseconds. Claims the named result, and that a parsed instant
/// can be built again from those two parts (chrono documents `timestamp` as
/// the reverse of `from_timestamp`).
#[verifier::external_body]
fn parse_utc_text(text: &str) -> (res: Option<(i64, u32)>)
    ensures
        res == utc_parse(text@),
        res matches Some(parts) ==> utc_datetime_exists(parts.0, parts.1),
{
    match text.parse::<chrono::DateTime<chrono::Utc>>() {
        Ok(instant) => Some((instant.timestamp(), instant.timestamp_subsec_nanos())),
        Err(_) => None,
    }
}

/// `DateTime::signed_duration_since` followed by `TimeDelta::num_seconds`.
/// Claims what chrono's source computes: the nanoseconds between the two
/// instants (with its leap-second correction), in whole seconds rounded
/// toward zero.
#[verifier::external_body]
fn seconds_since(end_secs: i64, end_nanos: u32, start_secs: i64, start_nanos: u32) -> (res: i64)
    requires
        utc_datetime_exists(end_secs, end_nanos),
        utc_datetime_exists(start_secs, start_nanos),
    ensures
        res == whole_seconds(nanos_between(end_secs, end_nanos, start_secs, start_nanos)),
{
    let end = chrono::DateTime::from_timestamp(end_secs, end_nanos).expect("the instant exists");
    let start = chrono::DateTime::from_timestamp(start_secs, start_nanos).expect("the instant exists");
    end.signed_duration_since(start).num_seconds()
}

/// `chrono::Duration::from_std` on a whole number of seconds: whether chrono
/// accepts the span. Claims the bound that chrono's source checks.
#[verifier::external_body]
fn delta_accepts_secs(secs: u64) -> (res: bool)
    ensures
        res == (secs <= max_delta_secs()),
{
    chrono::Duration::from_std(std::time::Duration::from_secs(secs)).is_ok()
}

/// Whether chrono can hold a span of this many seconds.
pub fn span_fits(secs: u64) -> (res: bool)
    ensures
        res == (secs <= max_delta_secs()),
{
    delta_accepts_secs(secs)
}

/// An instant in UTC: seconds since the Unix epoch and the nanoseconds into
/// that second (one second more during a leap second), always one that chrono
/// can represent.
#[derive(Clone, Copy, Debug, PartialEq, Eq, Structural)]
pub struct Timestamp {
    secs: i64,
    nanos: u32,
}

impl Timestamp {
    #[verifier::type_invariant]
    spec fn representable(self) -> bool {
        utc_datetime_exists(self.secs, self.nanos)
    }

    /// Seconds since the Unix epoch.
    pub closed spec fn unix_secs(self) -> i64 {
        self.secs
    }

    /// Nanoseconds into the second.
    pub closed spec fn subsec_nanos(self) -> u32 {
        self.nanos
    }

    /// The RFC 3339 text of this instant, with nanoseconds and a `Z`.
    pub open spec fn text(self) -> Seq<char> {
        rfc3339_nanos(self.unix_secs(), self.subsec_nanos())
    }

    /// The instant with these parts, if there is one.
    pub fn from_unix(secs: i64, nanos: u32) -> (res: Option<Timestamp>)
        ensures
            res is Some <==> utc_datetime_exists(secs, nanos),
            res matches Some(t) ==> t.unix_secs() == secs && t.subsec_nanos() == nanos,
    {
        if datetime_exists(secs, nanos) {
            Some(Timestamp { secs, nanos })
        } else {
            None
        }
    }

    /// Seconds since the Unix epoch.
    pub fn secs(&self) -> (res: i64)
        ensures
            res == self.unix_secs(),
    {
        self.secs
    }

    /// Nanoseconds into the second.
    pub fn nanos(&self) -> (res: u32)
        ensures
            res == self.subsec_nanos(),
    {
        self.nanos
    }

}

/// The text under which an instant is stored and compared: RFC 3339 with nine
/// fractional digits and a `Z`.
pub fn format_time(value: Timestamp) -> (res: String)
    ensures
        res@ == value.text(),
{
    proof {
        use_type_invariant(value);
    }
    rfc3339_text(value.secs, value.nanos)
}

/// Reads an instant written in RFC 3339 (as chrono's `DateTime<Utc>` parser
/// accepts it); `None` when the text is not one.
pub fn parse_time(value: &str) -> (res: Option<Timestamp>)
    ensures
        res is Some <==> utc_parse(value@) is Some,
        res matches Some(t) ==> utc_parse(value@) == Some((t.unix_secs(), t.subsec_nanos())),
{
    match parse_utc_text(value) {
        Some(parts) => Timestamp::from_unix(parts.0, parts.1),
        None => None,
    }
}

/// Whole seconds from `start` to `end` (negative when `end` is earlier),
/// rounded toward zero, as chrono counts them.
pub fn seconds_between(end: Timestamp, start: Timestamp) -> (res: i64)
    ensures
        res == whole_seconds(
            nanos_between(end.unix_secs(), end.subsec_nanos(), start.unix_secs(), start.subsec_nanos()),
        ),
{
    proof {
        use_type_invariant(end);
        use_type_invariant(start);
    }
    seconds_since(end.secs, end.nanos, start.secs, start.nanos)
}

} // verus!
