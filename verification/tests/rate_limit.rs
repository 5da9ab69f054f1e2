use omnivore::server::rate_limit::{client_key, max_requests, RateLimiter, DEFAULT_MAX_REQUESTS, WINDOW_MS};

#[test]
fn allows_traffic_under_the_limit() {
    let mut limiter = RateLimiter::new();
    let limit = max_requests(None);
    let client = "test-under-limit";
    for _ in 0..5 {
        assert!(limiter.check(client, limit, 1_000).is_ok());
    }
}

#[test]
fn blocks_traffic_over_the_limit() {
    let mut limiter = RateLimiter::new();
    let limit = max_requests(Some("3"));
    let client = "test-over-limit";
    assert!(limiter.check(client, limit, 1_000).is_ok());
    assert!(limiter.check(client, limit, 1_001).is_ok());
    assert!(limiter.check(client, limit, 1_002).is_ok());
    let blocked = limiter.check(client, limit, 1_003);
    assert!(blocked.is_err());
    assert_eq!(blocked.unwrap_err().0, 429);
}

#[test]
fn a_zero_limit_disables_the_check() {
    let mut limiter = RateLimiter::new();
    let limit = max_requests(Some("0"));
    let client = "test-disabled";
    for _ in 0..1000 {
        assert!(limiter.check(client, limit, 5).is_ok());
    }
}

#[test]
fn prefers_forwarded_for_over_peer_address() {
    assert_eq!(client_key(Some("203.0.113.7, 10.0.0.1"), Some("10.0.0.1")), "203.0.113.7");
}

#[test]
fn falls_back_to_peer_address() {
    assert_eq!(client_key(None, Some("198.51.100.4")), "198.51.100.4");
}

#[test]
fn unknown_client_without_header_or_peer() {
    assert_eq!(client_key(None, None), "unknown");
    assert_eq!(client_key(Some("  , 1.2.3.4"), Some("9.9.9.9")), "9.9.9.9");
}

#[test]
fn the_limit_setting_is_trimmed_and_defaults() {
    assert_eq!(max_requests(Some(" 7 ")), 7);
    assert_eq!(max_requests(Some("lots")), DEFAULT_MAX_REQUESTS);
    assert_eq!(max_requests(None), 60);
}

#[test]
fn a_new_window_admits_again_and_clients_are_separate() {
    let mut limiter = RateLimiter::new();
    assert!(limiter.check("a", 1, 0).is_ok());
    let refused = limiter.check("a", 1, 10).unwrap_err();
    assert_eq!(refused.1, "Rate limit exceeded: more than 1 uploads per minute");
    assert!(limiter.check("b", 1, 10).is_ok());
    assert!(limiter.check("a", 1, WINDOW_MS + 1).is_ok());
}
