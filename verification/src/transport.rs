//! The retrying transport's decision machine: response classification,
//! exponential backoff, and the per-request retry session that turns
//! each HTTP outcome into the next action. The I/O itself happens
//! outside; every outcome is handed in as plain values.

use crate::error::{classify_transport_error, spec_transport_error, LlmaoError};
use crate::rate_limit::{
    info_or_unknown, spec_is_rate_limit_signal, spec_retry_duration, spec_update_error,
    spec_update_response, RateLimitTracker,
};
use crate::text::{all_digits, digits_val, u64_to_string};
use vstd::prelude::*;
use vstd::string::StrSliceExecFns;
use vstd::string::StringExecFns;

verus! {

/// How a completed HTTP exchange is classified.
#[derive(Debug, Clone, Copy, PartialEq, Eq, Structural)]
pub enum ResponseClass {
    /// A 2xx status: the body is the payload.
    Success,

    /// A rate-limit signal: HTTP 429, or a throttling marker in the body.
    RateLimit,

    /// 401 or 403: authentication failed, never retried.
    AuthFailure,

    /// Any other status: a final request error.
    Failure,
}

/// The classification of a status and body: success for 2xx; otherwise
/// a rate-limit signal takes precedence (some providers throttle with
/// 400 or 403 and a textual reason); then authentication failures; then
/// everything else.
pub open spec fn spec_classify(status: u16, body: Seq<char>) -> ResponseClass {
    if 200 <= status < 300 {
        ResponseClass::Success
    } else if spec_is_rate_limit_signal(status, body) {
        ResponseClass::RateLimit
    } else if status == 401 || status == 403 {
        ResponseClass::AuthFailure
    } else {
        ResponseClass::Failure
    }
}

/// Classify a completed HTTP exchange.
pub fn classify_response(status: u16, body: &str) -> (r: ResponseClass)
    ensures
        r == spec_classify(status, body@),
{
    if 200 <= status && status < 300 {
        ResponseClass::Success
    } else if RateLimitTracker::is_rate_limit_error(status, body) {
        ResponseClass::RateLimit
    } else if status == 401 || status == 403 {
        ResponseClass::AuthFailure
    } else {
        ResponseClass::Failure
    }
}

/// Retry timing configuration: the delay of attempt `n` is the base
/// delay doubled `n` times, capped by the maximum interval; retrying
/// stops after `max_retries` attempts or once the elapsed ceiling
/// would be exceeded.
#[derive(Debug, Clone, Copy, PartialEq, Eq, Structural)]
pub struct RetryPolicy {
    /// How many retries may follow the first attempt.
    pub max_retries: u32,

    /// Base delay (milliseconds) before the first retry.
    pub initial_interval_ms: u64,

    /// Cap (milliseconds) on any single backoff delay.
    pub max_interval_ms: u64,

    /// Ceiling (milliseconds) on the total time spent retrying.
    pub max_elapsed_ms: u64,
}

impl RetryPolicy {
    /// The stock policy: half a second base delay, 30-second interval
    /// cap, two-minute overall ceiling.
    pub fn standard(max_retries: u32) -> (r: RetryPolicy)
        ensures
            r == (RetryPolicy {
                max_retries,
                initial_interval_ms: 500,
                max_interval_ms: 30000,
                max_elapsed_ms: 120000,
            }),
    {
        RetryPolicy {
            max_retries,
            initial_interval_ms: 500,
            max_interval_ms: 30000,
            max_elapsed_ms: 120000,
        }
    }
}

/// Two to the power `n`.
pub open spec fn pow2(n: nat) -> int
    decreases n,
{
    if n == 0 {
        1
    } else {
        2 * pow2((n - 1) as nat)
    }
}

/// The backoff delay of retry number `n`: the base delay doubled `n`
/// times, capped by the maximum interval.
pub open spec fn spec_backoff_delay(policy: RetryPolicy, n: nat) -> u64 {
    if policy.initial_interval_ms * pow2(n) > policy.max_interval_ms {
        policy.max_interval_ms
    } else {
        (policy.initial_interval_ms * pow2(n)) as u64
    }
}

proof fn lemma_pow2_pos(n: nat)
    ensures
        pow2(n) >= 1,
    decreases n,
{
    if n > 0 {
        lemma_pow2_pos((n - 1) as nat);
    }
}

/// The delay before retry number `retries` under `policy`.
pub fn backoff_delay_ms(policy: &RetryPolicy, retries: u32) -> (r: u64)
    ensures
        r == spec_backoff_delay(*policy, retries as nat),
{
    let mut d = policy.initial_interval_ms;
    let mut i: u32 = 0;
    proof {
        lemma_pow2_pos(retries as nat);
    }
    while i < retries && d <= policy.max_interval_ms
        invariant
            i <= retries,
            d == if policy.initial_interval_ms * pow2(i as nat) > u64::MAX {
                u64::MAX
            } else {
                (policy.initial_interval_ms * pow2(i as nat)) as u64
            },
        decreases retries - i,
    {
        let ghost d_pre: int = d as int;
        let ghost p_pre: int = policy.initial_interval_ms * pow2(i as nat);
        let ghost p_next: int = policy.initial_interval_ms * pow2((i + 1) as nat);
        d = d.checked_mul(2).unwrap_or(u64::MAX);
        proof {
            assert(pow2((i + 1) as nat) == 2 * pow2(i as nat));
            assert(p_next == 2 * p_pre) by (nonlinear_arith)
                requires
                    p_pre == policy.initial_interval_ms * pow2(i as nat),
                    p_next == policy.initial_interval_ms * pow2((i + 1) as nat),
                    pow2((i + 1) as nat) == 2 * pow2(i as nat),
            ;
            lemma_pow2_pos(i as nat);
            if p_pre > u64::MAX {
                assert(d_pre == u64::MAX);
                assert(p_next > u64::MAX);
                assert(d == u64::MAX);
            } else {
                assert(d_pre == p_pre);
                if 2 * p_pre > u64::MAX {
                    assert(d == u64::MAX);
                } else {
                    assert(d == p_next);
                }
            }
        }
        i += 1;
    }
    if d > policy.max_interval_ms {
        proof {
            let pi = policy.initial_interval_ms * pow2(i as nat);
            lemma_pow2_pos(i as nat);
            assert(pi >= 0) by (nonlinear_arith)
                requires
                    pi == policy.initial_interval_ms * pow2(i as nat),
                    policy.initial_interval_ms >= 0,
                    pow2(i as nat) >= 1,
            ;
            if pi > u64::MAX {
                assert(d == u64::MAX);
                assert(pi > policy.max_interval_ms);
            } else {
                assert(pi == d);
            }
            if i < retries {
                lemma_backoff_mono(policy.initial_interval_ms as int, i as nat, retries as nat);
            }
            assert(policy.initial_interval_ms * pow2(retries as nat) >= pi);
            assert(policy.initial_interval_ms * pow2(retries as nat) > policy.max_interval_ms);
        }
        policy.max_interval_ms
    } else {
        proof {
            assert(i == retries);
        }
        d
    }
}

proof fn lemma_backoff_mono(base: int, a: nat, b: nat)
    requires
        base >= 0,
        a <= b,
    ensures
        base * pow2(a) <= base * pow2(b),
    decreases b - a,
{
    if a < b {
        lemma_backoff_mono(base, a, (b - 1) as nat);
        lemma_pow2_pos((b - 1) as nat);
        assert(base * pow2(b) == 2 * (base * pow2((b - 1) as nat))) by (nonlinear_arith)
            requires
                pow2(b) == 2 * pow2((b - 1) as nat),
        ;
        assert(base * pow2((b - 1) as nat) >= 0) by (nonlinear_arith)
            requires
                base >= 0,
                pow2((b - 1) as nat) >= 1,
        ;
    }
}

/// What the transport should do next after one attempt.
#[derive(Debug)]
pub enum RetryStep {
    /// The exchange succeeded: hand the body to the caller for parsing.
    Deliver { body: String },

    /// Wait this long (milliseconds), then send again.
    Retry { wait_ms: u64 },

    /// Stop with this error.
    GiveUp { error: LlmaoError },
}

/// The retry state of one request: how many retries have been spent
/// against the policy's budget.
#[derive(Debug)]
pub struct RetrySession {
    /// Timing and budget configuration.
    pub policy: RetryPolicy,

    /// Retries spent so far.
    pub retries: u32,
}

impl RetrySession {
    /// A fresh session under the stock policy with the given retry
    /// budget.
    pub fn new(max_retries: u32) -> (r: RetrySession)
        ensures
            r.policy == RetryPolicy::standard_spec(max_retries),
            r.retries == 0,
    {
        RetrySession { policy: RetryPolicy::standard(max_retries), retries: 0 }
    }

    /// Decide what follows a completed HTTP exchange, recording its
    /// headers into the rate-limit tracker first: a 2xx body is
    /// delivered; a rate-limit signal is recorded and retried after the
    /// advertised delay until the budget is spent, then surfaced as a
    /// rate-limited error naming the provider; 401/403 fail at once as
    /// authentication errors; anything else fails with status and body.
    pub fn on_response(
        &mut self,
        tracker: &mut RateLimitTracker,
        provider: &str,
        status: u16,
        body: String,
        headers: &Vec<(String, String)>,
        retry_after_header: Option<&str>,
        remaining_header: Option<&str>,
        reset_header: Option<&str>,
        now: u64,
    ) -> (r: RetryStep)
        requires
            old(tracker).wf(),
            old(self).retries < u32::MAX,
        ensures
            final(tracker).wf(),
            final(self).policy == old(self).policy,
            ({
                let cls = spec_classify(status, body@);
                let rk = match remaining_header {
                    Some(h) => h@,
                    None => "x-ratelimit-remaining-requests"@,
                };
                let resk = match reset_header {
                    Some(h) => h@,
                    None => "x-ratelimit-reset-requests"@,
                };
                let rak = match retry_after_header {
                    Some(h) => h@,
                    None => "retry-after"@,
                };
                let after_resp = spec_update_response(
                    info_or_unknown(old(tracker).entries@, provider@),
                    headers@,
                    rk,
                    resk,
                    now,
                );
                let d = spec_retry_duration(headers@, rak);
                &&& forall|q: Seq<char>|
                    q != provider@ ==> #[trigger] crate::rate_limit::find_info(
                        final(tracker).entries@,
                        q,
                    ) == crate::rate_limit::find_info(old(tracker).entries@, q)
                &&& match cls {
                    ResponseClass::Success => {
                        &&& r matches RetryStep::Deliver { body: b } && b == body
                        &&& final(self).retries == old(self).retries
                        &&& crate::rate_limit::find_info(final(tracker).entries@, provider@)
                            == Some(after_resp)
                    },
                    ResponseClass::RateLimit => {
                        &&& final(self).retries == old(self).retries + 1
                        &&& crate::rate_limit::find_info(final(tracker).entries@, provider@)
                            == Some(spec_update_error(after_resp, d, now))
                        &&& if old(self).retries + 1 > old(self).policy.max_retries {
                            r matches RetryStep::GiveUp { error } && error matches
                                LlmaoError::RateLimited { provider: p, retry_after } && p@
                                == provider@ && retry_after == Some(d)
                        } else {
                            r matches RetryStep::Retry { wait_ms } && wait_ms == d
                        }
                    },
                    ResponseClass::AuthFailure => {
                        &&& final(self).retries == old(self).retries
                        &&& crate::rate_limit::find_info(final(tracker).entries@, provider@)
                            == Some(after_resp)
                        &&& r matches RetryStep::GiveUp { error } && error matches
                            LlmaoError::Auth(m) && m@ == body@
                    },
                    ResponseClass::Failure => {
                        &&& final(self).retries == old(self).retries
                        &&& crate::rate_limit::find_info(final(tracker).entries@, provider@)
                            == Some(after_resp)
                        &&& r matches RetryStep::GiveUp { error } && error matches
                            LlmaoError::Request(m) && exists|ds: Seq<char>|
                            all_digits(ds) && digits_val(ds) == status && m@
                                == "Request failed with status "@ + ds + ": "@ + body@
                    },
                }
            }),
    {
        tracker.update_from_response(provider, headers, remaining_header, reset_header, now);
        let cls = classify_response(status, body.as_str());
        match cls {
            ResponseClass::Success => RetryStep::Deliver { body },
            ResponseClass::RateLimit => {
                let d = tracker.update_from_rate_limit_error(
                    provider,
                    headers,
                    retry_after_header,
                    now,
                );
                if self.retries >= self.policy.max_retries {
                    self.retries = self.retries + 1;
                    let mut p = String::new();
                    p.append(provider);
                    RetryStep::GiveUp {
                        error: LlmaoError::RateLimited { provider: p, retry_after: Some(d) },
                    }
                } else {
                    self.retries = self.retries + 1;
                    RetryStep::Retry { wait_ms: d }
                }
            }
            ResponseClass::AuthFailure => {
                RetryStep::GiveUp { error: LlmaoError::Auth(body) }
            }
            ResponseClass::Failure => {
                let mut m = String::from_str("Request failed with status ");
                let st = u64_to_string(status as u64);
                m.append(st.as_str());
                m.append(": ");
                m.append(body.as_str());
                RetryStep::GiveUp { error: LlmaoError::Request(m) }
            }
        }
    }

    /// Decide what follows a transport-level failure: connection and
    /// timeout failures are retried with exponential backoff while the
    /// budget and the elapsed ceiling allow; anything else, or an
    /// exhausted budget, stops with the classified transport error.
    pub fn on_transport_failure(
        &mut self,
        is_timeout: bool,
        is_connect: bool,
        is_decode: bool,
        text: String,
        elapsed_ms: u64,
    ) -> (r: RetryStep)
        requires
            old(self).retries < u32::MAX,
        ensures
            final(self).policy == old(self).policy,
            final(self).retries == old(self).retries + 1,
            ({
                let wait = spec_backoff_delay(old(self).policy, (old(self).retries + 1) as nat);
                if old(self).retries + 1 > old(self).policy.max_retries || !(is_connect
                    || is_timeout) || elapsed_ms + wait > old(self).policy.max_elapsed_ms {
                    r matches RetryStep::GiveUp { error } && spec_transport_error(
                        error,
                        is_timeout,
                        is_connect,
                        is_decode,
                        text@,
                    )
                } else {
                    r matches RetryStep::Retry { wait_ms } && wait_ms == wait
                }
            }),
    {
        if self.retries >= self.policy.max_retries {
            self.retries = self.retries + 1;
            return RetryStep::GiveUp {
                error: classify_transport_error(is_timeout, is_connect, is_decode, text),
            };
        }
        self.retries = self.retries + 1;
        if is_connect || is_timeout {
            let wait = backoff_delay_ms(&self.policy, self.retries);
            if elapsed_ms > u64::MAX - wait || elapsed_ms + wait > self.policy.max_elapsed_ms {
                RetryStep::GiveUp {
                    error: classify_transport_error(is_timeout, is_connect, is_decode, text),
                }
            } else {
                RetryStep::Retry { wait_ms: wait }
            }
        } else {
            RetryStep::GiveUp {
                error: classify_transport_error(is_timeout, is_connect, is_decode, text),
            }
        }
    }
}

impl RetryPolicy {
    /// The stock policy as a specification value.
    pub open spec fn standard_spec(max_retries: u32) -> RetryPolicy {
        RetryPolicy {
            max_retries,
            initial_interval_ms: 500,
            max_interval_ms: 30000,
            max_elapsed_ms: 120000,
        }
    }
}

/// The error reported when a successful response's body cannot be
/// parsed: final, never retried, carrying the reason and the first
/// 500 characters of the body for diagnosis.
pub fn response_parse_error(detail: &str, body: &str) -> (r: LlmaoError)
    ensures
        r matches LlmaoError::Response(m) && m@ == "Failed to parse response: "@ + detail@
            + ". Body: "@ + body@.subrange(
            0,
            if body@.len() < 500 {
                body@.len() as int
            } else {
                500
            },
        ),
{
    let mut m = String::from_str("Failed to parse response: ");
    m.append(detail);
    m.append(". Body: ");
    let n = body.unicode_len();
    let cut = if n < 500 {
        n
    } else {
        500
    };
    let snippet = body.substring_char(0, cut);
    m.append(snippet);
    LlmaoError::Response(m)
}

} // verus!
