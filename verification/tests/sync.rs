use tracker::error::TrackerError;
use tracker::sync::{
    authorized, check_bind, check_sync_body, probe_result, probe_url, sorted_peers, validate_token,
    LimitedBody, ReachablePeer, MAX_SYNC_BYTES, MAX_TOKEN_BYTES,
};
use tracker::tailscale::{Ipv4Address, TailscalePeer};
use tracker::urls::{peer_from_input, sync_endpoint};

#[test]
fn constructs_a_versioned_sync_endpoint() {
    assert_eq!(
        sync_endpoint("https://peer.example:7789").unwrap().as_str(),
        "https://peer.example:7789/v1/sync"
    );
}

#[test]
fn rejects_credentialed_or_ambiguous_peer_urls() {
    assert!(sync_endpoint("file:///tmp/tracker").is_err());
    assert!(sync_endpoint("http://token@peer.example").is_err());
    assert!(sync_endpoint("http://peer.example/redirect").is_err());
    assert!(sync_endpoint("http://peer.example?next=internal").is_err());
}

#[test]
fn names_each_refused_peer_url() {
    assert!(matches!(sync_endpoint("not a url"), Err(TrackerError::UrlUnparsable)));
    assert!(matches!(sync_endpoint("ftp://peer.example"), Err(TrackerError::UrlSchemeNotHttp)));
    assert!(matches!(sync_endpoint("http://user:pw@peer.example"), Err(TrackerError::UrlHasCredentials)));
    assert!(matches!(sync_endpoint("http://peer.example/#x"), Err(TrackerError::UrlHasQueryOrFragment)));
    assert!(matches!(sync_endpoint("http://peer.example/a"), Err(TrackerError::UrlHasPath)));
    assert_eq!(sync_endpoint("http://100.64.0.2:7789/").unwrap(), "http://100.64.0.2:7789/v1/sync");
}

#[test]
fn rejects_unsafe_tokens() {
    assert!(validate_token(Some("short")).is_err());
    assert!(validate_token(Some(&"x".repeat(MAX_TOKEN_BYTES + 1))).is_err());
    assert!(validate_token(Some(&format!("{}\n", "x".repeat(32)))).is_err());
    assert!(validate_token(Some(&"x".repeat(32))).is_ok());
}

#[test]
fn token_limits_count_bytes() {
    assert!(validate_token(None).is_ok());
    assert!(matches!(validate_token(Some(&"é".repeat(15))), Err(TrackerError::TokenTooShort)));
    assert!(validate_token(Some(&"é".repeat(16))).is_ok());
    assert!(matches!(validate_token(Some(&"x".repeat(4097))), Err(TrackerError::TokenTooLong)));
    assert!(matches!(
        validate_token(Some(&format!("{}\u{85}", "x".repeat(40)))),
        Err(TrackerError::TokenHasControlCharacter)
    ));
}

#[test]
fn authorizes_only_the_exact_bearer_token() {
    let token = "t".repeat(32);
    assert!(authorized(None, ""));
    assert!(authorized(Some(&token), &format!("Bearer {token}")));
    assert!(!authorized(Some(&token), &format!("bearer {token}")));
    assert!(!authorized(Some(&token), &token));
    assert!(!authorized(Some(&token), ""));
}

#[test]
fn limits_bodies() {
    assert!(check_sync_body(MAX_SYNC_BYTES).is_ok());
    assert!(matches!(check_sync_body(MAX_SYNC_BYTES + 1), Err(TrackerError::PayloadTooLarge)));
    assert!(matches!(LimitedBody::start(Some(129), 128), Err(TrackerError::ResponseTooLarge { limit: 128 })));
    let (mut body, capacity) = LimitedBody::start(Some(100), 128).ok().unwrap();
    assert_eq!(capacity, 100);
    assert!(body.accept(100).is_ok());
    assert!(body.accept(28).is_ok());
    assert!(matches!(body.accept(1), Err(TrackerError::ResponseTooLarge { limit: 128 })));
    let (_, capacity) = LimitedBody::start(None, 128).ok().unwrap();
    assert_eq!(capacity, 0);
}

#[test]
fn manual_binds_need_a_token_unless_loopback() {
    assert!(check_bind(false, false, false).is_ok());
    assert!(check_bind(true, true, false).is_ok());
    assert!(check_bind(true, false, true).is_ok());
    assert!(matches!(check_bind(true, false, false), Err(TrackerError::ManualBindNeedsToken)));
}

#[test]
fn recognizes_tracker_health_responses() {
    let candidate = || TailscalePeer { name: "macbook".to_string(), ip: Ipv4Address(100, 64, 0, 2) };
    assert_eq!(probe_url(Ipv4Address(100, 64, 0, 2), 7789), "http://100.64.0.2:7789");
    let found = probe_result(candidate(), 7789, true, b"tracker-sync-v1").unwrap();
    assert_eq!(found, ReachablePeer { name: "macbook".to_string(), url: "http://100.64.0.2:7789".to_string() });
    assert!(probe_result(candidate(), 7789, false, b"tracker-sync-v1").is_none());
    assert!(probe_result(candidate(), 7789, true, b"tracker-sync-v2").is_none());
}

#[test]
fn lists_found_peers_by_name() {
    let peer = |n: &str| ReachablePeer { name: n.to_string(), url: format!("http://{n}") };
    let sorted = sorted_peers(vec![peer("nas"), peer("Mac"), peer("laptop")]);
    let names: Vec<&str> = sorted.iter().map(|p| p.name.as_str()).collect();
    assert_eq!(names, ["Mac", "laptop", "nas"]);
}

#[test]
fn cleans_manual_peers() {
    let peer = peer_from_input("laptop", "https://laptop.example.ts.net/").unwrap();
    assert_eq!(peer.name, "laptop");
    assert_eq!(peer.url, "https://laptop.example.ts.net");
    let peer = peer_from_input("  nas ", " http://nas:7789// ").unwrap();
    assert_eq!(peer.name, "nas");
    assert_eq!(peer.url, "http://nas:7789");
    assert!(matches!(peer_from_input(" ", "http://nas"), Err(TrackerError::EmptyValue { .. })));
    assert!(matches!(peer_from_input("x", "nas"), Err(TrackerError::UrlUnparsable)));
    assert!(matches!(peer_from_input("x", "ftp://nas"), Err(TrackerError::UrlSchemeNotHttp)));
    assert!(matches!(peer_from_input("x", "mailto:a@b"), Err(TrackerError::UrlSchemeNotHttp)));
}

#[test]
fn peers_with_the_same_name_keep_their_order() {
    let peer = |n: &str, u: &str| ReachablePeer { name: n.to_string(), url: u.to_string() };
    let sorted = sorted_peers(vec![
        peer("nas", "http://a"),
        peer("mac", "http://b"),
        peer("nas", "http://c"),
        peer("mac", "http://d"),
    ]);
    assert_eq!(
        sorted,
        vec![peer("mac", "http://b"), peer("mac", "http://d"), peer("nas", "http://a"), peer("nas", "http://c")]
    );
}
