use tracker::time::{format_time, parse_time, seconds_between, span_fits, Timestamp};

#[test]
fn formats_and_reads_instants() {
    let t = Timestamp::from_unix(1_704_164_645, 123_000_000).unwrap();
    assert_eq!(format_time(t), "2024-01-02T03:04:05.123000000Z");
    assert_eq!(parse_time("2024-01-02T03:04:05.123000000Z"), Some(t));
    assert_eq!(parse_time("2024-01-02 04:04:05+01:00").unwrap().secs(), 1_704_164_645);
    assert_eq!(parse_time("yesterday"), None);
    assert!(Timestamp::from_unix(0, 2_000_000_000).is_none());
    assert!(Timestamp::from_unix(i64::MAX, 0).is_none());
}

#[test]
fn counts_whole_seconds_toward_zero() {
    let a = Timestamp::from_unix(10, 900_000_000).unwrap();
    let b = Timestamp::from_unix(12, 100_000_000).unwrap();
    assert_eq!(seconds_between(b, a), 1);
    assert_eq!(seconds_between(a, b), -1);
    assert_eq!(seconds_between(a, a), 0);
}

#[test]
fn bounds_day_spans() {
    assert!(span_fits(9_223_372_036_854_775));
    assert!(!span_fits(9_223_372_036_854_776));
}

#[test]
fn builds_instants_within_chronos_range() {
    assert!(Timestamp::from_unix(8_210_266_876_799, 999_999_999).is_some());
    assert!(Timestamp::from_unix(8_210_266_876_800, 0).is_none());
    assert!(Timestamp::from_unix(-8_334_601_228_800, 0).is_some());
    assert!(Timestamp::from_unix(-8_334_601_228_801, 999_999_999).is_none());
    assert!(Timestamp::from_unix(59, 1_500_000_000).is_some());
    assert!(Timestamp::from_unix(58, 1_000_000_000).is_none());
    assert!(Timestamp::from_unix(59, 2_000_000_000).is_none());
    assert!(Timestamp::from_unix(-1, 1_000_000_000).is_some());
}
