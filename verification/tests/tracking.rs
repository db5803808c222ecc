use llmao::rate_limit::RateLimitTracker;

const NOW: u64 = 5_000_000;

fn headers(pairs: &[(&str, &str)]) -> Vec<(String, String)> {
    pairs.iter().map(|(k, v)| (k.to_string(), v.to_string())).collect()
}

#[test]
fn test_is_rate_limit_error() {
    assert!(RateLimitTracker::is_rate_limit_error(429, ""));
    assert!(RateLimitTracker::is_rate_limit_error(400, "rate limit exceeded"));
    assert!(RateLimitTracker::is_rate_limit_error(403, "Too Many Requests"));
    assert!(!RateLimitTracker::is_rate_limit_error(200, "success"));
    assert!(!RateLimitTracker::is_rate_limit_error(500, "internal error"));
}

#[test]
fn test_rate_limit_tracker() {
    let mut tracker = RateLimitTracker::new();

    assert!(tracker.should_wait("test", NOW).is_none());

    let hs = headers(&[("retry-after", "5")]);
    let duration = tracker.update_from_rate_limit_error("test", &hs, None, NOW);
    assert_eq!(duration, 5_000);

    assert!(tracker.should_wait("test", NOW).is_some());
}

#[test]
fn test_wait_hint_transitions() {
    // positive remaining leaves no wait hint; a rate-limit error sets one
    let mut tracker = RateLimitTracker::new();

    let hs = headers(&[("x-ratelimit-remaining-requests", "42")]);
    tracker.update_from_response("acme", &hs, None, None, NOW);
    assert_eq!(tracker.should_wait("acme", NOW), None);

    let d = tracker.update_from_rate_limit_error("acme", &headers(&[]), None, NOW);
    assert_eq!(tracker.should_wait("acme", NOW), Some(d));
}

#[test]
fn test_default_cooldown_sixty_seconds() {
    // HTTP 429 with no retry-after header yields a 60-second cooldown
    let mut tracker = RateLimitTracker::new();
    assert!(RateLimitTracker::is_rate_limit_error(429, ""));
    let d = tracker.update_from_rate_limit_error("acme", &headers(&[]), None, NOW);
    assert_eq!(d, 60_000);
    assert_eq!(tracker.should_wait("acme", NOW), Some(60_000));
}

#[test]
fn test_zero_remaining_waits_until_reset() {
    let mut tracker = RateLimitTracker::new();
    let hs = headers(&[
        ("x-ratelimit-remaining-requests", "0"),
        ("x-ratelimit-reset-requests", "30"),
    ]);
    tracker.update_from_response("acme", &hs, None, None, NOW);
    assert_eq!(tracker.should_wait("acme", NOW), Some(30_000));
    // once the deadline has passed, no wait is advised
    assert_eq!(tracker.should_wait("acme", NOW + 31_000), None);
}

#[test]
fn test_custom_header_names() {
    let mut tracker = RateLimitTracker::new();
    let hs = headers(&[("x-acme-left", "0"), ("x-acme-reset", "1m30s")]);
    tracker.update_from_response("acme", &hs, Some("x-acme-left"), Some("x-acme-reset"), NOW);
    assert_eq!(tracker.should_wait("acme", NOW), Some(90_000));
}

#[test]
fn test_unparseable_headers_leave_state() {
    let mut tracker = RateLimitTracker::new();
    let hs = headers(&[("x-ratelimit-remaining-requests", "0")]);
    tracker.update_from_response("acme", &hs, None, None, NOW);
    // garbage on a later response leaves the prior remaining count
    let garbage = headers(&[("x-ratelimit-remaining-requests", "lots")]);
    tracker.update_from_response("acme", &garbage, None, None, NOW);
    let hs2 = headers(&[("x-ratelimit-reset-requests", "10")]);
    tracker.update_from_response("acme", &hs2, None, None, NOW);
    assert_eq!(tracker.should_wait("acme", NOW), Some(10_000));
}

#[test]
fn test_clear_forgets_provider() {
    let mut tracker = RateLimitTracker::new();
    tracker.update_from_rate_limit_error("acme", &headers(&[]), None, NOW);
    assert!(tracker.should_wait("acme", NOW).is_some());
    tracker.clear("acme");
    assert!(tracker.should_wait("acme", NOW).is_none());
}

#[test]
fn test_retry_after_duration_string() {
    let mut tracker = RateLimitTracker::new();
    let hs = headers(&[("retry-after", "1m30s")]);
    let d = tracker.update_from_rate_limit_error("acme", &hs, None, NOW);
    assert_eq!(d, 90_000);
}
