//! Per-provider rate-limit tracking: remaining quota and reset deadlines
//! read from response headers, retry-after handling on throttled
//! responses, and the wait hint consulted before each send.
//!
//! Headers enter as plain name/value pairs and time as an explicit
//! instant in milliseconds.

use crate::duration::{clamp_u64, parse_duration_string, spec_parse_duration_ms};
use crate::text::{
    contains_ascii_ci, contains_ci, lower_code, parse_u64_seq, parse_u64_str, seq_eq_ci, str_eq,
    str_eq_ci,
};
use vstd::pervasive::VecAdditionalExecFns;
use vstd::prelude::*;
use vstd::string::StringExecFns;

verus! {

/// Rate-limit knowledge about one provider.
#[derive(Debug, Clone, Copy, PartialEq, Eq, Structural)]
pub struct ProviderRateLimit {
    /// Remaining requests in the current window, when a header said so.
    pub requests_remaining: Option<u64>,

    /// Remaining tokens in the current window, when a header said so.
    pub tokens_remaining: Option<u64>,

    /// The instant (milliseconds) the limit resets, when known.
    pub reset_at: Option<u64>,

    /// The last known retry-after duration (milliseconds).
    pub retry_after: Option<u64>,
}

impl Default for ProviderRateLimit {
    /// Before any response is seen, nothing is known.
    fn default() -> (r: Self)
        ensures
            r == ProviderRateLimit::unknown(),
    {
        ProviderRateLimit {
            requests_remaining: None,
            tokens_remaining: None,
            reset_at: None,
            retry_after: None,
        }
    }
}

impl ProviderRateLimit {
    /// The state with nothing known.
    pub open spec fn unknown() -> ProviderRateLimit {
        ProviderRateLimit {
            requests_remaining: None,
            tokens_remaining: None,
            reset_at: None,
            retry_after: None,
        }
    }
}

/// One provider's entry in the tracker.
#[derive(Debug)]
pub struct RateLimitEntry {
    /// Provider name.
    pub provider: String,

    /// What is known about its rate limits.
    pub info: ProviderRateLimit,
}

/// The value of the first header whose name matches `name`, ASCII
/// case-insensitively.
pub open spec fn header_value(headers: Seq<(String, String)>, name: Seq<char>) -> Option<Seq<char>>
    decreases headers.len(),
{
    if headers.len() == 0 {
        None
    } else if seq_eq_ci(headers[0].0@, name) {
        Some(headers[0].1@)
    } else {
        header_value(headers.drop_first(), name)
    }
}

/// How the tracker's knowledge of one provider changes on an ordinary
/// response: a parseable remaining-count header replaces the remaining
/// count, a parseable reset header (a number of seconds, or a duration
/// string) replaces the reset deadline, and anything absent or
/// unparseable leaves the prior state untouched.
pub open spec fn spec_update_response(
    info: ProviderRateLimit,
    headers: Seq<(String, String)>,
    remaining_key: Seq<char>,
    reset_key: Seq<char>,
    now: u64,
) -> ProviderRateLimit {
    let info1 = match header_value(headers, remaining_key) {
        Some(v) => match parse_u64_seq(v) {
            Some(n) => ProviderRateLimit { requests_remaining: Some(n), ..info },
            None => info,
        },
        None => info,
    };
    match header_value(headers, reset_key) {
        Some(v) => match parse_u64_seq(v) {
            Some(secs) => ProviderRateLimit {
                reset_at: Some(clamp_u64(now + secs * 1000)),
                ..info1
            },
            None => match spec_parse_duration_ms(v) {
                Some(d) => ProviderRateLimit { reset_at: Some(clamp_u64(now + d)), ..info1 },
                None => info1,
            },
        },
        None => info1,
    }
}

/// The retry-after duration (milliseconds) a throttled response
/// advertises: the header value read as seconds, or as a duration
/// string; 60 seconds when the header is absent or unreadable.
pub open spec fn spec_retry_duration(headers: Seq<(String, String)>, retry_key: Seq<char>) -> u64 {
    match header_value(headers, retry_key) {
        Some(v) => match parse_u64_seq(v) {
            Some(secs) => clamp_u64(secs * 1000),
            None => match spec_parse_duration_ms(v) {
                Some(d) => d,
                None => 60000,
            },
        },
        None => 60000,
    }
}

/// How the tracker's knowledge changes on a throttled response: the
/// chosen duration becomes both the last known retry-after and the new
/// reset deadline.
pub open spec fn spec_update_error(info: ProviderRateLimit, d: u64, now: u64)
    -> ProviderRateLimit {
    ProviderRateLimit { retry_after: Some(d), reset_at: Some(clamp_u64(now + d)), ..info }
}

/// The wait the tracker advises before calling a provider at instant
/// `now`: the time to the reset deadline when the remaining count is
/// exactly zero and the deadline lies ahead; otherwise, when a
/// retry-after is pending, the time to its deadline (or the raw
/// retry-after when no deadline is known); otherwise nothing.
pub open spec fn spec_should_wait(info: ProviderRateLimit, now: u64) -> Option<u64> {
    if info.requests_remaining == Some(0u64) && info.reset_at is Some && now < info.reset_at->0 {
        Some((info.reset_at->0 - now) as u64)
    } else if info.retry_after is Some {
        match info.reset_at {
            Some(r) => if now < r {
                Some((r - now) as u64)
            } else {
                None
            },
            None => Some(info.retry_after->0),
        }
    } else {
        None
    }
}

/// Whether a response signals rate limiting: HTTP 429 unconditionally,
/// or any status whose body carries a throttling marker.
pub open spec fn spec_is_rate_limit_signal(status: u16, body: Seq<char>) -> bool {
    ||| status == 429
    ||| contains_ci(body, "rate limit"@)
    ||| contains_ci(body, "rate_limit"@)
    ||| contains_ci(body, "too many requests"@)
    ||| contains_ci(body, "quota exceeded"@)
}

/// The index of the entry for `p`, scanning from `i`.
pub open spec fn find_from(entries: Seq<RateLimitEntry>, p: Seq<char>, i: int) -> Option<int>
    decreases entries.len() - i,
{
    if i < 0 || i >= entries.len() {
        None
    } else if entries[i].provider@ == p {
        Some(i)
    } else {
        find_from(entries, p, i + 1)
    }
}

/// What the tracker knows about provider `p`, if anything.
pub open spec fn find_info(entries: Seq<RateLimitEntry>, p: Seq<char>) -> Option<ProviderRateLimit> {
    match find_from(entries, p, 0) {
        Some(i) => Some(entries[i].info),
        None => None,
    }
}

/// What the tracker knows about provider `p`, read as nothing-known for
/// an absent entry.
pub open spec fn info_or_unknown(entries: Seq<RateLimitEntry>, p: Seq<char>) -> ProviderRateLimit {
    match find_info(entries, p) {
        Some(info) => info,
        None => ProviderRateLimit::unknown(),
    }
}

/// Tracks rate-limit state per provider.
#[derive(Debug)]
pub struct RateLimitTracker {
    /// One entry per provider that has been seen.
    pub entries: Vec<RateLimitEntry>,
}

impl RateLimitTracker {
    /// Entries name distinct providers.
    pub open spec fn wf(self) -> bool {
        forall|i: int, j: int|
            0 <= i < j < self.entries@.len() ==> #[trigger] self.entries@[i].provider@
                != #[trigger] self.entries@[j].provider@
    }

    /// An empty tracker.
    pub fn new() -> (r: RateLimitTracker)
        ensures
            r.entries@.len() == 0,
            r.wf(),
    {
        RateLimitTracker { entries: Vec::new() }
    }

    /// The index of the entry for `provider`, if one exists.
    fn find_index(&self, provider: &str) -> (r: Option<usize>)
        ensures
            match r {
                Some(i) => find_from(self.entries@, provider@, 0) == Some(i as int) && i
                    < self.entries@.len(),
                None => find_from(self.entries@, provider@, 0) is None,
            },
    {
        let len = self.entries.len();
        let mut i: usize = 0;
        while i < len
            invariant
                len == self.entries@.len(),
                i <= len,
                find_from(self.entries@, provider@, 0) == find_from(
                    self.entries@,
                    provider@,
                    i as int,
                ),
            decreases len - i,
        {
            if str_eq(self.entries[i].provider.as_str(), provider) {
                return Some(i);
            }
            i += 1;
        }
        None
    }

    /// Record the rate-limit headers of an ordinary response for
    /// `provider`: the entry becomes `spec_update_response` of what was
    /// known before (nothing, for a provider seen for the first time).
    pub fn update_from_response(
        &mut self,
        provider: &str,
        headers: &Vec<(String, String)>,
        remaining_header: Option<&str>,
        reset_header: Option<&str>,
        now: u64,
    )
        requires
            old(self).wf(),
        ensures
            final(self).wf(),
            ({
                let rk = match remaining_header {
                    Some(h) => h@,
                    None => "x-ratelimit-remaining-requests"@,
                };
                let resk = match reset_header {
                    Some(h) => h@,
                    None => "x-ratelimit-reset-requests"@,
                };
                let prior = match find_info(old(self).entries@, provider@) {
                    Some(info) => info,
                    None => ProviderRateLimit::unknown(),
                };
                let updated = spec_update_response(prior, headers@, rk, resk, now);
                &&& find_info(final(self).entries@, provider@) == Some(updated)
                &&& forall|q: Seq<char>|
                    q != provider@ ==> #[trigger] find_info(final(self).entries@, q) == find_info(
                        old(self).entries@,
                        q,
                    )
            }),
    {
        let ghost old_entries = self.entries@;
        let rk: &str = match remaining_header {
            Some(h) => h,
            None => "x-ratelimit-remaining-requests",
        };
        let resk: &str = match reset_header {
            Some(h) => h,
            None => "x-ratelimit-reset-requests",
        };
        let (idx, prior) = self.lookup_or_unknown(provider);
        let mut info = prior;
        match find_header(headers, rk) {
            Some(v) => {
                match parse_u64_str(v.as_str()) {
                    Some(n) => {
                        info.requests_remaining = Some(n);
                    }
                    None => {}
                }
            }
            None => {}
        }
        match find_header(headers, resk) {
            Some(v) => {
                match parse_u64_str(v.as_str()) {
                    Some(secs) => {
                        info.reset_at = Some(now.saturating_add(secs.checked_mul(1000).unwrap_or(
                            u64::MAX,
                        )));
                        proof {
                            assert(now.saturating_add(
                                if secs * 1000 > u64::MAX {
                                    u64::MAX
                                } else {
                                    (secs * 1000) as u64
                                },
                            ) == clamp_u64(now + secs * 1000));
                        }
                    }
                    None => {
                        match parse_duration_string(v.as_str()) {
                            Some(d) => {
                                info.reset_at = Some(now.saturating_add(d));
                            }
                            None => {}
                        }
                    }
                }
            }
            None => {}
        }
        proof {
            assert(info == spec_update_response(prior, headers@, rk@, resk@, now));
        }
        self.store(provider, idx, info);
    }

    /// Record a throttled response for `provider` and return the
    /// retry-after duration (milliseconds) to honour: the advertised
    /// one, or 60 seconds when none is advertised.
    pub fn update_from_rate_limit_error(
        &mut self,
        provider: &str,
        headers: &Vec<(String, String)>,
        retry_after_header: Option<&str>,
        now: u64,
    ) -> (r: u64)
        requires
            old(self).wf(),
        ensures
            final(self).wf(),
            ({
                let rk = match retry_after_header {
                    Some(h) => h@,
                    None => "retry-after"@,
                };
                let prior = match find_info(old(self).entries@, provider@) {
                    Some(info) => info,
                    None => ProviderRateLimit::unknown(),
                };
                &&& r == spec_retry_duration(headers@, rk)
                &&& find_info(final(self).entries@, provider@) == Some(
                    spec_update_error(prior, r, now),
                )
                &&& forall|q: Seq<char>|
                    q != provider@ ==> #[trigger] find_info(final(self).entries@, q) == find_info(
                        old(self).entries@,
                        q,
                    )
            }),
    {
        let rk: &str = match retry_after_header {
            Some(h) => h,
            None => "retry-after",
        };
        let (idx, prior) = self.lookup_or_unknown(provider);
        let d: u64 = match find_header(headers, rk) {
            Some(v) => {
                match parse_u64_str(v.as_str()) {
                    Some(secs) => {
                        let ms = secs.checked_mul(1000).unwrap_or(u64::MAX);
                        proof {
                            assert(ms == clamp_u64(secs * 1000));
                        }
                        ms
                    }
                    None => {
                        match parse_duration_string(v.as_str()) {
                            Some(dd) => dd,
                            None => 60000,
                        }
                    }
                }
            }
            None => 60000,
        };
        let mut info = prior;
        info.retry_after = Some(d);
        info.reset_at = Some(now.saturating_add(d));
        proof {
            assert(info == spec_update_error(prior, d, now));
        }
        self.store(provider, idx, info);
        d
    }

    /// The wait the tracker advises before calling `provider` at `now`.
    pub fn should_wait(&self, provider: &str, now: u64) -> (r: Option<u64>)
        ensures
            r == match find_info(self.entries@, provider@) {
                Some(info) => spec_should_wait(info, now),
                None => None::<u64>,
            },
    {
        match self.find_index(provider) {
            Some(i) => {
                let info = self.entries[i].info;
                if matches!(info.requests_remaining, Some(0)) {
                    if let Some(reset) = info.reset_at {
                        if now < reset {
                            return Some(reset - now);
                        }
                    }
                }
                if let Some(retry) = info.retry_after {
                    match info.reset_at {
                        Some(reset) => {
                            if now < reset {
                                return Some(reset - now);
                            }
                        }
                        None => {
                            return Some(retry);
                        }
                    }
                }
                None
            }
            None => None,
        }
    }

    /// Forget everything about `provider`.
    pub fn clear(&mut self, provider: &str)
        requires
            old(self).wf(),
        ensures
            final(self).wf(),
            find_info(final(self).entries@, provider@) is None,
            forall|q: Seq<char>|
                q != provider@ ==> #[trigger] find_info(final(self).entries@, q) == find_info(
                    old(self).entries@,
                    q,
                ),
    {
        match self.find_index(provider) {
            Some(i) => {
                proof {
                    lemma_find_from_props(self.entries@, provider@, 0);
                }
                let ghost pre = self.entries@;
                self.entries.remove(i);
                proof {
                    lemma_remove_keeps_lookups(pre, i as int, provider@);
                    assert forall|i2: int, j2: int|
                        0 <= i2 < j2 < self.entries@.len() implies #[trigger] self.entries@[i2]
                        .provider@ != #[trigger] self.entries@[j2].provider@ by {
                        if j2 < i {
                            assert(self.entries@[i2] == pre[i2]);
                            assert(self.entries@[j2] == pre[j2]);
                        } else if i2 < i {
                            assert(self.entries@[i2] == pre[i2]);
                            assert(self.entries@[j2] == pre[j2 + 1]);
                        } else {
                            assert(self.entries@[i2] == pre[i2 + 1]);
                            assert(self.entries@[j2] == pre[j2 + 1]);
                        }
                    }
                }
            }
            None => {
                proof {
                    lemma_find_from_props(self.entries@, provider@, 0);
                }
            }
        }
    }

    /// Whether a response signals rate limiting: HTTP 429, or a body
    /// carrying a throttling marker at any status.
    pub fn is_rate_limit_error(status: u16, body: &str) -> (r: bool)
        ensures
            r == spec_is_rate_limit_signal(status, body@),
    {
        if status == 429 {
            return true;
        }
        contains_ascii_ci(body, "rate limit") || contains_ascii_ci(body, "rate_limit")
            || contains_ascii_ci(body, "too many requests") || contains_ascii_ci(
            body,
            "quota exceeded",
        )
    }

    /// The entry index for `provider` and what is known there, or
    /// nothing-known for a provider without an entry.
    fn lookup_or_unknown(&self, provider: &str) -> (r: (Option<usize>, ProviderRateLimit))
        ensures
            match r.0 {
                Some(i) => find_from(self.entries@, provider@, 0) == Some(i as int) && i
                    < self.entries@.len() && r.1 == self.entries@[i as int].info,
                None => find_from(self.entries@, provider@, 0) is None && r.1
                    == ProviderRateLimit::unknown(),
            },
    {
        match self.find_index(provider) {
            Some(i) => (Some(i), self.entries[i].info),
            None => (
                None,
                ProviderRateLimit {
                    requests_remaining: None,
                    tokens_remaining: None,
                    reset_at: None,
                    retry_after: None,
                },
            ),
        }
    }

    /// Write `info` back: in place at `idx`, or as a new entry.
    fn store(&mut self, provider: &str, idx: Option<usize>, info: ProviderRateLimit)
        requires
            old(self).wf(),
            match idx {
                Some(i) => find_from(old(self).entries@, provider@, 0) == Some(i as int) && i
                    < old(self).entries@.len(),
                None => find_from(old(self).entries@, provider@, 0) is None,
            },
        ensures
            final(self).wf(),
            find_info(final(self).entries@, provider@) == Some(info),
            forall|q: Seq<char>|
                q != provider@ ==> #[trigger] find_info(final(self).entries@, q) == find_info(
                    old(self).entries@,
                    q,
                ),
    {
        let ghost pre = self.entries@;
        match idx {
            Some(i) => {
                proof {
                    lemma_find_from_props(pre, provider@, 0);
                }
                let name = self.entries[i].provider.clone();
                self.entries.set(i, RateLimitEntry { provider: name, info });
                proof {
                    assert(self.entries@[i as int].provider@ == provider@);
                    assert forall|q: Seq<char>| q != provider@ implies #[trigger] find_info(
                        self.entries@,
                        q,
                    ) == find_info(pre, q) by {
                        lemma_update_keeps_lookups(pre, i as int, self.entries@[i as int], q);
                    }
                    lemma_found_value(self.entries@, provider@, i as int);
                }
            }
            None => {
                let mut name = String::new();
                name.append(provider);
                self.entries.push(RateLimitEntry { provider: name, info });
                proof {
                    assert(self.entries@ =~= pre.push(self.entries@[pre.len() as int]));
                    lemma_find_from_props(pre, provider@, 0);
                    assert forall|i2: int, j2: int|
                        0 <= i2 < j2 < self.entries@.len() implies #[trigger] self.entries@[i2]
                        .provider@ != #[trigger] self.entries@[j2].provider@ by {
                        if j2 < pre.len() {
                            assert(self.entries@[i2] == pre[i2]);
                            assert(self.entries@[j2] == pre[j2]);
                        } else {
                            assert(self.entries@[i2] == pre[i2]);
                            assert(self.entries@[j2].provider@ == provider@);
                        }
                    }
                    lemma_push_keeps_lookups(pre, self.entries@[pre.len() as int]);
                    lemma_found_value(self.entries@, provider@, pre.len() as int);
                }
            }
        }
    }
}

proof fn lemma_find_from_props(entries: Seq<RateLimitEntry>, p: Seq<char>, i: int)
    requires
        0 <= i,
    ensures
        match find_from(entries, p, i) {
            Some(j) => i <= j < entries.len() && entries[j].provider@ == p && forall|l: int|
                i <= l < j ==> entries[l].provider@ != p,
            None => forall|l: int| i <= l < entries.len() ==> entries[l].provider@ != p,
        },
    decreases entries.len() - i,
{
    if i < entries.len() && entries[i].provider@ != p {
        lemma_find_from_props(entries, p, i + 1);
    }
}

proof fn lemma_found_value(entries: Seq<RateLimitEntry>, p: Seq<char>, j: int)
    requires
        0 <= j < entries.len(),
        entries[j].provider@ == p,
        forall|l: int| 0 <= l < j ==> entries[l].provider@ != p,
    ensures
        find_from(entries, p, 0) == Some(j),
        find_info(entries, p) == Some(entries[j].info),
{
    lemma_find_skip(entries, p, 0, j);
}

proof fn lemma_find_skip(entries: Seq<RateLimitEntry>, p: Seq<char>, i: int, j: int)
    requires
        0 <= i <= j < entries.len(),
        entries[j].provider@ == p,
        forall|l: int| i <= l < j ==> entries[l].provider@ != p,
    ensures
        find_from(entries, p, i) == Some(j),
    decreases j - i,
{
    if i < j {
        lemma_find_skip(entries, p, i + 1, j);
    }
}

proof fn lemma_update_keeps_lookups(
    entries: Seq<RateLimitEntry>,
    i: int,
    e: RateLimitEntry,
    q: Seq<char>,
)
    requires
        0 <= i < entries.len(),
        e.provider@ == entries[i].provider@,
        q != entries[i].provider@,
    ensures
        find_info(entries.update(i, e), q) == find_info(entries, q),
{
    lemma_find_update_scan(entries, i, e, q, 0);
    lemma_find_from_props(entries, q, 0);
    let upd = entries.update(i, e);
    match find_from(entries, q, 0) {
        Some(j) => {
            assert(j != i);
            assert(upd[j].info == entries[j].info);
        }
        None => {}
    }
}

proof fn lemma_find_update_scan(
    entries: Seq<RateLimitEntry>,
    i: int,
    e: RateLimitEntry,
    q: Seq<char>,
    a: int,
)
    requires
        0 <= i < entries.len(),
        e.provider@ == entries[i].provider@,
        q != entries[i].provider@,
        0 <= a,
    ensures
        find_from(entries.update(i, e), q, a) == find_from(entries, q, a),
    decreases entries.len() - a,
{
    if a < entries.len() {
        lemma_find_update_scan(entries, i, e, q, a + 1);
    }
}

proof fn lemma_push_keeps_lookups(entries: Seq<RateLimitEntry>, e: RateLimitEntry)
    ensures
        forall|q: Seq<char>|
            q != e.provider@ ==> #[trigger] find_info(entries.push(e), q) == find_info(entries, q),
{
    assert forall|q: Seq<char>| q != e.provider@ implies #[trigger] find_info(entries.push(e), q)
        == find_info(entries, q) by {
        lemma_find_push_scan(entries, e, q, 0);
        lemma_find_from_props(entries, q, 0);
        let pu = entries.push(e);
        match find_from(entries, q, 0) {
            Some(j) => {
                assert(pu[j].info == entries[j].info);
            }
            None => {}
        }
    }
}

proof fn lemma_find_push_scan(entries: Seq<RateLimitEntry>, e: RateLimitEntry, q: Seq<char>, a: int)
    requires
        q != e.provider@,
        0 <= a,
    ensures
        find_from(entries.push(e), q, a) == find_from(entries, q, a),
    decreases entries.len() + 1 - a,
{
    let pu = entries.push(e);
    if a < entries.len() {
        assert(pu[a] == entries[a]);
        lemma_find_push_scan(entries, e, q, a + 1);
    } else if a == entries.len() {
        assert(pu[a] == e);
        assert(find_from(pu, q, a + 1) is None);
        assert(find_from(entries, q, a) is None);
    } else {
        assert(find_from(pu, q, a) is None);
        assert(find_from(entries, q, a) is None);
    }
}

proof fn lemma_remove_keeps_lookups(entries: Seq<RateLimitEntry>, i: int, p: Seq<char>)
    requires
        0 <= i < entries.len(),
        entries[i].provider@ == p,
        forall|i2: int, j2: int|
            0 <= i2 < j2 < entries.len() ==> #[trigger] entries[i2].provider@
                != #[trigger] entries[j2].provider@,
    ensures
        find_info(entries.remove(i), p) is None,
        forall|q: Seq<char>|
            q != p ==> #[trigger] find_info(entries.remove(i), q) == find_info(entries, q),
{
    let rem = entries.remove(i);
    assert forall|l: int| 0 <= l < rem.len() implies rem[l].provider@ != p by {
        if l < i {
            assert(rem[l] == entries[l]);
        } else {
            assert(rem[l] == entries[l + 1]);
        }
    }
    lemma_find_none_when_absent(rem, p, 0);
    assert forall|q: Seq<char>| q != p implies #[trigger] find_info(rem, q) == find_info(
        entries,
        q,
    ) by {
        lemma_find_remove_scan(entries, i, q);
    }
}

proof fn lemma_find_none_when_absent(entries: Seq<RateLimitEntry>, p: Seq<char>, a: int)
    requires
        0 <= a,
        forall|l: int| 0 <= l < entries.len() ==> entries[l].provider@ != p,
    ensures
        find_from(entries, p, a) is None,
    decreases entries.len() - a,
{
    if a < entries.len() {
        lemma_find_none_when_absent(entries, p, a + 1);
    }
}

proof fn lemma_find_remove_scan(entries: Seq<RateLimitEntry>, i: int, q: Seq<char>)
    requires
        0 <= i < entries.len(),
        q != entries[i].provider@,
    ensures
        find_info(entries.remove(i), q) == find_info(entries, q),
{
    let rem = entries.remove(i);
    lemma_find_from_props(entries, q, 0);
    lemma_find_from_props(rem, q, 0);
    match find_from(entries, q, 0) {
        Some(j) => {
            if j < i {
                assert(rem[j] == entries[j]);
                assert forall|l: int| 0 <= l < j implies rem[l].provider@ != q by {
                    assert(rem[l] == entries[l]);
                }
                lemma_find_skip(rem, q, 0, j);
            } else {
                assert(j != i);
                assert(rem[j - 1] == entries[j]);
                assert forall|l: int| 0 <= l < j - 1 implies rem[l].provider@ != q by {
                    if l < i {
                        assert(rem[l] == entries[l]);
                    } else {
                        assert(rem[l] == entries[l + 1]);
                    }
                }
                lemma_find_skip(rem, q, 0, j - 1);
            }
        }
        None => {
            assert forall|l: int| 0 <= l < rem.len() implies rem[l].provider@ != q by {
                if l < i {
                    assert(rem[l] == entries[l]);
                } else {
                    assert(rem[l] == entries[l + 1]);
                }
            }
            lemma_find_none_when_absent(rem, q, 0);
        }
    }
}

/// The value of the first header named `name` (ASCII case-insensitive).
fn find_header<'a>(headers: &'a Vec<(String, String)>, name: &str) -> (r: Option<&'a String>)
    ensures
        match r {
            Some(v) => header_value(headers@, name@) == Some(v@),
            None => header_value(headers@, name@) is None,
        },
{
    let len = headers.len();
    proof {
        assert(headers@.subrange(0, len as int) =~= headers@);
    }
    let mut i: usize = 0;
    while i < len
        invariant
            len == headers@.len(),
            i <= len,
            header_value(headers@, name@) == header_value(
                headers@.subrange(i as int, len as int),
                name@,
            ),
        decreases len - i,
    {
        proof {
            assert(headers@.subrange(i as int, len as int)[0] == headers@[i as int]);
            assert(headers@.subrange(i as int, len as int).drop_first() =~= headers@.subrange(
                i + 1,
                len as int,
            ));
        }
        if str_eq_ci(headers[i].0.as_str(), name) {
            return Some(&headers[i].1);
        }
        i += 1;
    }
    proof {
        assert(headers@.subrange(len as int, len as int).len() == 0);
    }
    None
}

/// Law: a wait hint is never advised while no retry-after is pending and
/// the remaining count is not exactly zero; in particular, recording an
/// ordinary response that says "remaining > 0" leaves no wait hint.
pub proof fn lemma_no_wait_after_positive_remaining(info: ProviderRateLimit, now: u64)
    requires
        info.retry_after is None,
        info.requests_remaining != Some(0u64),
    ensures
        spec_should_wait(info, now) is None,
{
}

/// Law: an ordinary response whose remaining-count header reads a
/// positive number leaves no wait hint, as long as no retry-after was
/// pending: the update touches only the remaining count and the reset
/// deadline, and a positive remaining count advises no wait.
pub proof fn lemma_no_wait_after_remaining_response(
    info: ProviderRateLimit,
    headers: Seq<(String, String)>,
    remaining_key: Seq<char>,
    reset_key: Seq<char>,
    now: u64,
    at: u64,
)
    requires
        info.retry_after is None,
        header_value(headers, remaining_key) matches Some(v) && parse_u64_seq(v) matches Some(n)
            && n > 0,
    ensures
        spec_should_wait(spec_update_response(info, headers, remaining_key, reset_key, now), at)
            is None,
{
    let updated = spec_update_response(info, headers, remaining_key, reset_key, now);
    assert(updated.retry_after is None);
    assert(updated.requests_remaining != Some(0u64));
}

/// Law: recording a throttled response advises a wait: immediately after
/// `spec_update_error` with a positive duration whose deadline does not
/// overflow the clock, the wait hint is exactly that duration — now
/// plus the hint is the stored reset deadline.
pub proof fn lemma_wait_after_rate_limit_error(info: ProviderRateLimit, d: u64, now: u64)
    requires
        d > 0,
        now + d <= u64::MAX,
    ensures
        spec_should_wait(spec_update_error(info, d, now), now) == Some(d),
        spec_update_error(info, d, now).reset_at == Some((now + d) as u64),
{
}

/// Law: a remaining count of exactly zero together with a reset
/// deadline still ahead always advises a positive wait.
pub proof fn lemma_zero_remaining_future_reset_waits(info: ProviderRateLimit, now: u64)
    requires
        info.requests_remaining == Some(0u64),
        info.reset_at matches Some(r) && now < r,
    ensures
        spec_should_wait(info, now) matches Some(w) && w > 0,
{
}

} // verus!
