use llmao::error::{classify_transport_error, LlmaoError};
use llmao::rate_limit::RateLimitTracker;
use llmao::text::u64_to_string;
use llmao::transport::{
    backoff_delay_ms, classify_response, response_parse_error, ResponseClass, RetryPolicy,
    RetrySession, RetryStep,
};

const NOW: u64 = 9_000_000;

#[test]
fn test_classify_response() {
    assert_eq!(classify_response(200, "ok"), ResponseClass::Success);
    assert_eq!(classify_response(429, ""), ResponseClass::RateLimit);
    assert_eq!(classify_response(403, "rate limit exceeded"), ResponseClass::RateLimit);
    assert_eq!(classify_response(401, "nope"), ResponseClass::AuthFailure);
    assert_eq!(classify_response(403, "forbidden"), ResponseClass::AuthFailure);
    assert_eq!(classify_response(500, "boom"), ResponseClass::Failure);
}

#[test]
fn test_backoff_delay_doubles_and_caps() {
    let policy = RetryPolicy::standard(10);
    assert_eq!(backoff_delay_ms(&policy, 0), 500);
    assert_eq!(backoff_delay_ms(&policy, 1), 1_000);
    assert_eq!(backoff_delay_ms(&policy, 2), 2_000);
    // 500 * 2^10 = 512000 exceeds the 30-second cap
    assert_eq!(backoff_delay_ms(&policy, 10), 30_000);
}

#[test]
fn test_session_retries_rate_limit_then_gives_up() {
    let mut session = RetrySession::new(1);
    let mut tracker = RateLimitTracker::new();
    let headers: Vec<(String, String)> = Vec::new();

    let step1 = session.on_response(
        &mut tracker,
        "acme",
        429,
        "slow down".to_string(),
        &headers,
        None,
        None,
        None,
        NOW,
    );
    match step1 {
        RetryStep::Retry { wait_ms } => assert_eq!(wait_ms, 60_000),
        _ => panic!("expected a retry"),
    }

    let step2 = session.on_response(
        &mut tracker,
        "acme",
        429,
        "slow down".to_string(),
        &headers,
        None,
        None,
        None,
        NOW,
    );
    match step2 {
        RetryStep::GiveUp { error } => match error {
            LlmaoError::RateLimited { provider, retry_after } => {
                assert_eq!(provider, "acme");
                assert_eq!(retry_after, Some(60_000));
            }
            _ => panic!("expected a rate-limited error"),
        },
        _ => panic!("expected to give up"),
    }
}

#[test]
fn test_session_delivers_success() {
    let mut session = RetrySession::new(3);
    let mut tracker = RateLimitTracker::new();
    let headers: Vec<(String, String)> = Vec::new();
    let step = session.on_response(
        &mut tracker,
        "acme",
        200,
        "{\"ok\":true}".to_string(),
        &headers,
        None,
        None,
        None,
        NOW,
    );
    match step {
        RetryStep::Deliver { body } => assert_eq!(body, "{\"ok\":true}"),
        _ => panic!("expected delivery"),
    }
}

#[test]
fn test_session_auth_fails_immediately() {
    let mut session = RetrySession::new(3);
    let mut tracker = RateLimitTracker::new();
    let headers: Vec<(String, String)> = Vec::new();
    let step = session.on_response(
        &mut tracker,
        "acme",
        401,
        "bad key".to_string(),
        &headers,
        None,
        None,
        None,
        NOW,
    );
    match step {
        RetryStep::GiveUp { error } => {
            let msg = error.message();
            assert!(msg.starts_with("Authentication failed: bad key"));
        }
        _ => panic!("expected to give up"),
    }
}

#[test]
fn test_session_other_status_fails_with_status() {
    let mut session = RetrySession::new(3);
    let mut tracker = RateLimitTracker::new();
    let headers: Vec<(String, String)> = Vec::new();
    let step = session.on_response(
        &mut tracker,
        "acme",
        500,
        "boom".to_string(),
        &headers,
        None,
        None,
        None,
        NOW,
    );
    match step {
        RetryStep::GiveUp { error } => {
            assert_eq!(error.message(), "Request failed: Request failed with status 500: boom");
        }
        _ => panic!("expected to give up"),
    }
}

#[test]
fn test_transport_failure_backoff() {
    let mut session = RetrySession::new(3);
    let step = session.on_transport_failure(false, true, false, "refused".to_string(), 0);
    match step {
        RetryStep::Retry { wait_ms } => assert_eq!(wait_ms, 1_000),
        _ => panic!("expected a retry"),
    }
    // a decode failure is never retried
    let step2 = session.on_transport_failure(false, false, true, "bad utf8".to_string(), 0);
    assert!(matches!(step2, RetryStep::GiveUp { .. }));
}

#[test]
fn test_timeout_classification() {
    let err = classify_transport_error(true, false, false, "deadline".to_string());
    assert_eq!(err.message(), "Request timeout: deadline");
    let err2 = classify_transport_error(false, true, false, "refused".to_string());
    assert_eq!(err2.message(), "Request failed: Connection failed: refused");
}

#[test]
fn test_parse_error_truncates_body() {
    let body = "x".repeat(600);
    let err = response_parse_error("expected value", &body);
    let msg = err.message();
    assert!(msg.starts_with("Response error: Failed to parse response: expected value. Body: "));
    assert!(msg.len() < 600 + 100);
}

#[test]
fn test_u64_rendering() {
    assert_eq!(u64_to_string(0), "0");
    assert_eq!(u64_to_string(7), "7");
    assert_eq!(u64_to_string(12034), "12034");
    assert_eq!(u64_to_string(u64::MAX), "18446744073709551615");
}

#[test]
fn test_error_messages() {
    assert_eq!(
        LlmaoError::Config("bad".to_string()).message(),
        "Configuration error: bad"
    );
    assert_eq!(
        LlmaoError::RateLimited { provider: "acme".to_string(), retry_after: Some(1500) }
            .message(),
        "Rate limited by 'acme', retry after 1500 ms"
    );
    let nokeys = LlmaoError::NoKeysAvailable("groq".to_string()).message();
    assert!(nokeys.contains("GROQ_API_KEY"));
    let stream_err = LlmaoError::Stream("lost".to_string()).message();
    assert_eq!(stream_err, "Streaming error: lost");
}
