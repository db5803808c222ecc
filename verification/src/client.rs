//! The dispatch engine: resolves a route to a provider, selects a
//! credential, and decides how a request proceeds across rate-limited
//! credentials until its attempt budget is spent. The HTTP exchange
//! itself happens outside; its outcomes are handed back in as plain
//! values.

use crate::assoc::{assoc_get, assoc_map, unique_keys};
use crate::config::{
    spec_api_keys, ConfigLoader, KeyPoolConfig, ProviderConfig, ProvidersConfig,
};
use crate::error::LlmaoError;
use crate::json::{json_bool_of, json_bool_value, json_string_of, json_string_value};
use crate::key_pool::{marked_pool, KeyPool};
use crate::rate_limit::RateLimitTracker;
use vstd::prelude::*;
use vstd::string::StrSliceExecFns;
use vstd::string::StringExecFns;

verus! {

/// The index of the pool for provider `p`, scanning from `i`.
pub open spec fn pool_index(pools: Seq<KeyPool>, p: Seq<char>, i: int) -> Option<int>
    decreases pools.len() - i,
{
    if i < 0 || i >= pools.len() {
        None
    } else if pools[i].provider@ == p {
        Some(i)
    } else {
        pool_index(pools, p, i + 1)
    }
}

/// The key-pool configurations that actually hold keys, in order.
pub open spec fn nonempty_pools(cfgs: Seq<(String, KeyPoolConfig)>, n: int) -> Seq<
    (String, KeyPoolConfig),
>
    decreases n,
{
    if n <= 0 {
        Seq::empty()
    } else {
        let prev = nonempty_pools(cfgs, n - 1);
        if cfgs[n - 1].1.keys@.len() > 0 {
            prev.push(cfgs[n - 1])
        } else {
            prev
        }
    }
}

proof fn lemma_nonempty_pools_distinct(cfgs: Seq<(String, KeyPoolConfig)>, n: int)
    requires
        unique_keys(cfgs),
        n <= cfgs.len(),
    ensures
        forall|j: int|
            0 <= j < nonempty_pools(cfgs, n).len() ==> exists|i: int|
                0 <= i < n && #[trigger] nonempty_pools(cfgs, n)[j].0@ == cfgs[i].0@,
        forall|j1: int, j2: int|
            0 <= j1 < j2 < nonempty_pools(cfgs, n).len() ==> #[trigger] nonempty_pools(
                cfgs,
                n,
            )[j1].0@ != #[trigger] nonempty_pools(cfgs, n)[j2].0@,
    decreases n,
{
    if n > 0 {
        lemma_nonempty_pools_distinct(cfgs, n - 1);
        let prev = nonempty_pools(cfgs, n - 1);
        let cur = nonempty_pools(cfgs, n);
        if cfgs[n - 1].1.keys@.len() > 0 {
            assert forall|j: int| 0 <= j < cur.len() implies exists|i: int|
                0 <= i < n && #[trigger] cur[j].0@ == cfgs[i].0@ by {
                if j < prev.len() {
                    assert(cur[j] == prev[j]);
                    let i = choose|i: int| 0 <= i < n - 1 && #[trigger] prev[j].0@ == cfgs[i].0@;
                    assert(cur[j].0@ == cfgs[i].0@);
                } else {
                    assert(cur[j] == cfgs[n - 1]);
                    assert(cur[j].0@ == cfgs[n - 1].0@);
                }
            }
            assert forall|j1: int, j2: int| 0 <= j1 < j2 < cur.len() implies #[trigger] cur[j1].0@
                != #[trigger] cur[j2].0@ by {
                if j2 < prev.len() {
                    assert(cur[j1] == prev[j1] && cur[j2] == prev[j2]);
                } else {
                    assert(cur[j1] == prev[j1] && cur[j2] == cfgs[n - 1]);
                    let i = choose|i: int| 0 <= i < n - 1 && #[trigger] prev[j1].0@ == cfgs[i].0@;
                    assert(cfgs[i].0@ != cfgs[n - 1].0@);
                }
            }
        }
    }
}

proof fn lemma_nonempty_pools_nonempty(cfgs: Seq<(String, KeyPoolConfig)>, n: int)
    ensures
        forall|j: int|
            0 <= j < nonempty_pools(cfgs, n).len() ==> (#[trigger] nonempty_pools(
                cfgs,
                n,
            )[j]).1.keys@.len() > 0,
    decreases n,
{
    if n > 0 {
        lemma_nonempty_pools_nonempty(cfgs, n - 1);
        let prev = nonempty_pools(cfgs, n - 1);
        let cur = nonempty_pools(cfgs, n);
        if cfgs[n - 1].1.keys@.len() > 0 {
            assert forall|j: int| 0 <= j < cur.len() implies (#[trigger] cur[j]).1.keys@.len()
                > 0 by {
                if j < prev.len() {
                    assert(cur[j] == prev[j]);
                } else {
                    assert(cur[j] == cfgs[n - 1]);
                }
            }
        }
    }
}

/// The main client: the provider registry, one credential pool per
/// provider that has keys, and the rate-limit tracker shared by all
/// requests.
#[derive(Debug)]
pub struct LlmClient {
    /// Provider configurations by name.
    pub providers: Vec<(String, ProviderConfig)>,

    /// Credential pools; each is non-empty and providers are distinct.
    pub key_pools: Vec<KeyPool>,

    /// Rate-limit knowledge per provider.
    pub tracker: RateLimitTracker,
}

impl LlmClient {
    /// Providers are unique, pools name distinct providers and are
    /// never empty, and the tracker is well-formed.
    pub open spec fn wf(self) -> bool {
        &&& unique_keys(self.providers@)
        &&& self.tracker.wf()
        &&& forall|i: int, j: int|
            0 <= i < j < self.key_pools@.len() ==> #[trigger] self.key_pools@[i].provider@
                != #[trigger] self.key_pools@[j].provider@
        &&& forall|i: int|
            0 <= i < self.key_pools@.len() ==> #[trigger] self.key_pools@[i].keys@.len() > 0
    }

    /// Build a client from loaded configuration: the providers carry
    /// over unchanged, and every key-pool configuration that holds keys
    /// becomes a fresh round-robin-cursor pool over exactly those keys.
    pub fn from_loader(loader: ConfigLoader) -> (r: LlmClient)
        requires
            loader.config.wf(),
        ensures
            r.wf(),
            r.providers@ == loader.config.providers@,
            r.tracker.entries@.len() == 0,
            ({
                let expected = nonempty_pools(
                    loader.config.key_pools@,
                    loader.config.key_pools@.len() as int,
                );
                &&& r.key_pools@.len() == expected.len()
                &&& forall|j: int|
                    0 <= j < expected.len() ==> {
                        let pool = #[trigger] r.key_pools@[j];
                        &&& pool.provider == expected[j].0
                        &&& pool.strategy == expected[j].1.rotation_strategy
                        &&& pool.current_index == 0
                        &&& pool.keys@.len() == expected[j].1.keys@.len()
                        &&& forall|k: int|
                            0 <= k < pool.keys@.len() ==> (#[trigger] pool.keys@[k]).value
                                == expected[j].1.keys@[k] && pool.keys@[k].rate_limited_until
                                is None
                    }
            }),
    {
        let ghost cfg_pools = loader.config.key_pools@;
        let ProvidersConfig { providers, key_pools } = loader.into_config();
        let mut pools: Vec<KeyPool> = Vec::new();
        let mut rem = key_pools;
        let n = rem.len();
        let mut i: usize = 0;
        while i < n
            invariant
                n == cfg_pools.len(),
                rem@ =~= cfg_pools.subrange(i as int, n as int),
                i <= n,
                pools@.len() == nonempty_pools(cfg_pools, i as int).len(),
                forall|j: int|
                    0 <= j < pools@.len() ==> {
                        let pool = #[trigger] pools@[j];
                        let expected = nonempty_pools(cfg_pools, i as int);
                        &&& pool.provider == expected[j].0
                        &&& pool.strategy == expected[j].1.rotation_strategy
                        &&& pool.current_index == 0
                        &&& pool.keys@.len() == expected[j].1.keys@.len()
                        &&& forall|k: int|
                            0 <= k < pool.keys@.len() ==> (#[trigger] pool.keys@[k]).value
                                == expected[j].1.keys@[k] && pool.keys@[k].rate_limited_until
                                is None
                    },
            decreases n - i,
        {
            let (name, kp_cfg) = rem.remove(0);
            proof {
                assert((name, kp_cfg) == cfg_pools[i as int]);
                assert(rem@ =~= cfg_pools.subrange(i as int + 1, n as int));
            }
            let ghost pools_pre = pools@;
            if kp_cfg.keys.len() > 0 {
                let pool = KeyPool::new(name, kp_cfg.keys, kp_cfg.rotation_strategy);
                pools.push(pool);
                proof {
                    let expected = nonempty_pools(cfg_pools, i as int + 1);
                    assert(expected =~= nonempty_pools(cfg_pools, i as int).push(
                        cfg_pools[i as int],
                    ));
                    assert forall|j: int| 0 <= j < pools@.len() implies {
                        let p2 = #[trigger] pools@[j];
                        &&& p2.provider == expected[j].0
                        &&& p2.strategy == expected[j].1.rotation_strategy
                        &&& p2.current_index == 0
                        &&& p2.keys@.len() == expected[j].1.keys@.len()
                        &&& forall|k: int|
                            0 <= k < p2.keys@.len() ==> (#[trigger] p2.keys@[k]).value
                                == expected[j].1.keys@[k] && p2.keys@[k].rate_limited_until
                                is None
                    } by {
                        if j < pools_pre.len() {
                            assert(pools@[j] == pools_pre[j]);
                            assert(expected[j] == nonempty_pools(cfg_pools, i as int)[j]);
                        } else {
                            assert(pools@[j] == pool);
                            assert(expected[j] == cfg_pools[i as int]);
                        }
                    }
                }
            }
            i += 1;
        }
        proof {
            lemma_nonempty_pools_distinct(cfg_pools, n as int);
            lemma_nonempty_pools_nonempty(cfg_pools, n as int);
        }
        let r = LlmClient { providers, key_pools: pools, tracker: RateLimitTracker::new() };
        proof {
            let expected = nonempty_pools(cfg_pools, n as int);
            assert forall|i2: int, j2: int|
                0 <= i2 < j2 < r.key_pools@.len() implies #[trigger] r.key_pools@[i2].provider@
                != #[trigger] r.key_pools@[j2].provider@ by {
                assert(r.key_pools@[i2].provider == expected[i2].0);
                assert(r.key_pools@[j2].provider == expected[j2].0);
            }
        }
        r
    }

    /// The index of the pool for `provider`, if one exists.
    fn find_pool(&self, provider: &str) -> (r: Option<usize>)
        ensures
            match r {
                Some(i) => pool_index(self.key_pools@, provider@, 0) == Some(i as int) && i
                    < self.key_pools@.len(),
                None => pool_index(self.key_pools@, provider@, 0) is None,
            },
    {
        let len = self.key_pools.len();
        let mut i: usize = 0;
        while i < len
            invariant
                len == self.key_pools@.len(),
                i <= len,
                pool_index(self.key_pools@, provider@, 0) == pool_index(
                    self.key_pools@,
                    provider@,
                    i as int,
                ),
            decreases len - i,
        {
            if crate::text::str_eq(self.key_pools[i].provider(), provider) {
                return Some(i);
            }
            i += 1;
        }
        None
    }

    /// The configuration of `provider`, or a provider-not-found error
    /// naming it.
    pub fn get_provider(&self, name: &str) -> (r: Result<&ProviderConfig, LlmaoError>)
        requires
            self.wf(),
        ensures
            r is Ok <==> assoc_map(self.providers@).dom().contains(name@),
            r matches Ok(c) ==> *c == assoc_map(self.providers@)[name@],
            r matches Err(e) ==> e matches LlmaoError::ProviderNotFound(n) && n@ == name@,
    {
        match assoc_get(&self.providers, name) {
            Some(c) => Ok(c),
            None => Err(LlmaoError::ProviderNotFound(name.to_owned())),
        }
    }

    /// A credential for `provider` at instant `now`: the pool's
    /// selection where a pool exists (never nothing, since pools are
    /// non-empty); otherwise the first key the provider's configuration
    /// yields from the environment; otherwise a no-keys error naming
    /// the provider.
    pub fn get_api_key(
        &mut self,
        provider: &str,
        now: u64,
        rand: u64,
        env: &Vec<(String, String)>,
    ) -> (r: Result<String, LlmaoError>)
        requires
            old(self).wf(),
        ensures
            final(self).wf(),
            final(self).providers == old(self).providers,
            final(self).tracker == old(self).tracker,
            final(self).key_pools@.len() == old(self).key_pools@.len(),
            ({
                match pool_index(old(self).key_pools@, provider@, 0) {
                    Some(pi) => {
                        let pool = old(self).key_pools@[pi];
                        &&& forall|l: int|
                            0 <= l < old(self).key_pools@.len() && l != pi
                                ==> #[trigger] final(self).key_pools@[l] == old(self).key_pools@[l]
                        &&& final(self).key_pools@[pi].keys@ == pool.keys@
                        &&& final(self).key_pools@[pi].provider == pool.provider
                        &&& final(self).key_pools@[pi].strategy == pool.strategy
                        &&& r matches Ok(k) && pool.spec_select(now, rand) matches Some(sel)
                            && k@ == pool.keys@[sel].value@
                    },
                    None => {
                        &&& final(self).key_pools@ == old(self).key_pools@
                        &&& if !assoc_map(old(self).providers@).dom().contains(provider@) {
                            r matches Err(e) && e matches LlmaoError::ProviderNotFound(n) && n@
                                == provider@
                        } else {
                            let keys = spec_api_keys(
                                assoc_map(old(self).providers@)[provider@],
                                env@,
                            );
                            if keys.len() > 0 {
                                r matches Ok(k) && k@ == keys[0]
                            } else {
                                r matches Err(e) && e matches LlmaoError::NoKeysAvailable(n)
                                    && n@ == provider@
                            }
                        }
                    },
                }
            }),
    {
        match self.find_pool(provider) {
            Some(pi) => {
                let sel = self.key_pools[pi].get_key(now, rand);
                match sel {
                    Some(i) => {
                        let k = self.key_pools[pi].key_at(i).value().to_owned();
                        Ok(k)
                    }
                    None => {
                        // unreachable: pools are never empty
                        assert(false);
                        Err(LlmaoError::NoKeysAvailable(provider.to_owned()))
                    }
                }
            }
            None => {
                match assoc_get(&self.providers, provider) {
                    Some(cfg) => {
                        let keys = cfg.get_api_keys(env);
                        if keys.len() > 0 {
                            proof {
                                assert(keys@.map_values(|s: String| s@)[0] == keys@[0]@);
                            }
                            Ok(keys[0].clone())
                        } else {
                            Err(LlmaoError::NoKeysAvailable(provider.to_owned()))
                        }
                    }
                    None => Err(LlmaoError::ProviderNotFound(provider.to_owned())),
                }
            }
        }
    }

    /// Cool a credential of `provider` down for `duration_ms`; nothing
    /// changes for a provider without a pool.
    pub fn mark_key_rate_limited(&mut self, provider: &str, key: &str, now: u64, duration_ms: u64)
        requires
            old(self).wf(),
        ensures
            final(self).wf(),
            final(self).providers == old(self).providers,
            final(self).tracker == old(self).tracker,
            final(self).key_pools@.len() == old(self).key_pools@.len(),
            match pool_index(old(self).key_pools@, provider@, 0) {
                Some(pi) => marked_pool(
                    old(self).key_pools@[pi],
                    final(self).key_pools@[pi],
                    key@,
                    now,
                    duration_ms,
                ) && forall|l: int|
                    0 <= l < old(self).key_pools@.len() && l != pi ==> #[trigger] final(self).key_pools@[l] == old(self).key_pools@[l],
                None => final(self).key_pools@ == old(self).key_pools@,
            },
    {
        match self.find_pool(provider) {
            Some(pi) => {
                proof {
                    lemma_pool_index_props(self.key_pools@, provider@, 0);
                }
                self.key_pools[pi].mark_rate_limited(key, now, duration_ms);
            }
            None => {}
        }
    }
}

proof fn lemma_pool_index_props(pools: Seq<KeyPool>, p: Seq<char>, i: int)
    requires
        0 <= i,
    ensures
        match pool_index(pools, p, i) {
            Some(j) => i <= j < pools.len() && pools[j].provider@ == p,
            None => true,
        },
    decreases pools.len() - i,
{
    if 0 <= i < pools.len() && pools[i].provider@ != p {
        lemma_pool_index_props(pools, p, i + 1);
    }
}

/// What one dispatch attempt should do next.
#[derive(Debug)]
pub enum DispatchStep {
    /// Send with this credential.
    UseKey(String),

    /// Stop with this error.
    Fail(LlmaoError),
}

/// The dispatch state of one request: which provider it is for, how
/// many attempts are left, and what rate limiting has been seen.
#[derive(Debug)]
pub struct DispatchState {
    /// The provider the request is routed to.
    pub provider: String,

    /// Attempts left in the budget (one per credential, or one when no
    /// pool is configured).
    pub attempts_left: usize,

    /// The retry-after (milliseconds) of the last rate-limited attempt.
    pub last_retry_after: Option<u64>,

    /// Whether any attempt was rate limited.
    pub saw_rate_limit: bool,
}

impl LlmClient {
    /// Open a dispatch for `provider`: the attempt budget equals the
    /// provider's pool size, or one when no pool is configured.
    pub fn begin_dispatch(&self, provider: &str) -> (st: DispatchState)
        ensures
            st.provider@ == provider@,
            !st.saw_rate_limit,
            st.last_retry_after is None,
            st.attempts_left == match pool_index(self.key_pools@, provider@, 0) {
                Some(pi) => self.key_pools@[pi].keys@.len(),
                None => 1nat,
            },
    {
        let n = match self.find_pool(provider) {
            Some(pi) => self.key_pools[pi].len(),
            None => 1,
        };
        DispatchState {
            provider: provider.to_owned(),
            attempts_left: n,
            last_retry_after: None,
            saw_rate_limit: false,
        }
    }

    /// Take the next dispatch step: with budget left, select a
    /// credential (consuming one attempt); with the budget spent,
    /// surface the last rate-limit error naming the provider, or a
    /// no-keys error if no attempt was ever rate limited.
    pub fn dispatch_select(
        &mut self,
        st: &mut DispatchState,
        now: u64,
        rand: u64,
        env: &Vec<(String, String)>,
    ) -> (r: DispatchStep)
        requires
            old(self).wf(),
        ensures
            final(self).wf(),
            final(st).provider == old(st).provider,
            final(st).saw_rate_limit == old(st).saw_rate_limit,
            final(st).last_retry_after == old(st).last_retry_after,
            old(st).attempts_left == 0 ==> {
                &&& *final(self) == *old(self)
                &&& final(st).attempts_left == 0
                &&& r matches DispatchStep::Fail(e) && if old(st).saw_rate_limit {
                    e matches LlmaoError::RateLimited { provider: p, retry_after } && p@ == old(st).provider@ && retry_after == old(st).last_retry_after
                } else {
                    e matches LlmaoError::NoKeysAvailable(p) && p@ == old(st).provider@
                }
            },
            old(st).attempts_left > 0 ==> {
                &&& final(st).attempts_left == old(st).attempts_left - 1
                &&& match r {
                    DispatchStep::UseKey(k) => match pool_index(
                        old(self).key_pools@,
                        old(st).provider@,
                        0,
                    ) {
                        Some(pi) => old(self).key_pools@[pi].spec_select(now, rand) matches Some(
                            sel,
                        ) && k@ == old(self).key_pools@[pi].keys@[sel].value@,
                        None => assoc_map(old(self).providers@).dom().contains(old(st).provider@)
                            && k@ == spec_api_keys(
                            assoc_map(old(self).providers@)[old(st).provider@],
                            env@,
                        )[0],
                    },
                    DispatchStep::Fail(e) => pool_index(
                        old(self).key_pools@,
                        old(st).provider@,
                        0,
                    ) is None,
                }
            },
    {
        if st.attempts_left == 0 {
            if st.saw_rate_limit {
                return DispatchStep::Fail(
                    LlmaoError::RateLimited {
                        provider: st.provider.clone(),
                        retry_after: st.last_retry_after,
                    },
                );
            }
            return DispatchStep::Fail(LlmaoError::NoKeysAvailable(st.provider.clone()));
        }
        st.attempts_left = st.attempts_left - 1;
        match self.get_api_key(st.provider.as_str(), now, rand, env) {
            Ok(k) => DispatchStep::UseKey(k),
            Err(e) => DispatchStep::Fail(e),
        }
    }

    /// Record that the attempt with `key` was rate limited: the key is
    /// cooled down for the advertised delay (60 seconds when none was
    /// advertised) and the dispatch remembers the rate limit.
    pub fn dispatch_rate_limited(
        &mut self,
        st: &mut DispatchState,
        key: &str,
        retry_after_ms: Option<u64>,
        now: u64,
    )
        requires
            old(self).wf(),
        ensures
            final(self).wf(),
            final(st).provider == old(st).provider,
            final(st).attempts_left == old(st).attempts_left,
            final(st).saw_rate_limit,
            final(st).last_retry_after == retry_after_ms,
            final(self).providers == old(self).providers,
            final(self).tracker == old(self).tracker,
            final(self).key_pools@.len() == old(self).key_pools@.len(),
            match pool_index(old(self).key_pools@, old(st).provider@, 0) {
                Some(pi) => marked_pool(
                    old(self).key_pools@[pi],
                    final(self).key_pools@[pi],
                    key@,
                    now,
                    match retry_after_ms {
                        Some(d) => d,
                        None => 60000u64,
                    },
                ) && forall|l: int|
                    0 <= l < old(self).key_pools@.len() && l != pi ==> #[trigger] final(self).key_pools@[l] == old(self).key_pools@[l],
                None => final(self).key_pools@ == old(self).key_pools@,
            },
    {
        let dur: u64 = match retry_after_ms {
            Some(d) => d,
            None => 60000,
        };
        self.mark_key_rate_limited(st.provider.as_str(), key, now, dur);
        st.saw_rate_limit = true;
        st.last_retry_after = retry_after_ms;
    }
}

/// `s` without its trailing '/' characters.
pub open spec fn trim_trailing_slashes(s: Seq<char>) -> Seq<char>
    decreases s.len(),
{
    if s.len() > 0 && s[s.len() - 1] == '/' {
        trim_trailing_slashes(s.drop_last())
    } else {
        s
    }
}

proof fn lemma_trim_slashes_skip(s: Seq<char>, i: int)
    requires
        0 <= i <= s.len(),
        forall|k: int| i <= k < s.len() ==> s[k] == '/',
    ensures
        trim_trailing_slashes(s) == trim_trailing_slashes(s.subrange(0, i)),
    decreases s.len() - i,
{
    if i < s.len() {
        lemma_trim_slashes_skip(s.drop_last(), i);
        assert(s.drop_last().subrange(0, i) =~= s.subrange(0, i));
    } else {
        assert(s.subrange(0, s.len() as int) =~= s);
    }
}

/// The chat-completions URL under a base URL: trailing slashes are
/// dropped, then the fixed path is appended.
pub fn completion_url(base: &str) -> (r: String)
    ensures
        r@ == trim_trailing_slashes(base@) + "/chat/completions"@,
{
    let n = base.unicode_len();
    let mut e = n;
    while e > 0 && base.get_char(e - 1) == '/'
        invariant
            e <= n,
            n == base@.len(),
            forall|k: int| e <= k < n ==> base@[k] == '/',
        decreases e,
    {
        e -= 1;
    }
    proof {
        lemma_trim_slashes_skip(base@, e as int);
        if e > 0 {
            assert(base@.subrange(0, e as int)[e - 1] != '/');
        }
        assert(trim_trailing_slashes(base@) == base@.subrange(0, e as int));
    }
    let mut r = base.substring_char(0, e).to_owned();
    r.append("/chat/completions");
    r
}

/// Prepare an outgoing body: write the model identifier (and, for a
/// streaming request, the stream flag) into it, then apply the
/// provider's parameter renamings.
pub fn prepare_request_body(
    cfg: &ProviderConfig,
    model_id: String,
    stream: bool,
    body: &mut Vec<(String, serde_json::Value)>,
)
    requires
        unique_keys(old(body)@),
    ensures
        unique_keys(final(body)@),
        assoc_map(final(body)@) == crate::config::spec_apply_mappings(
            if stream {
                assoc_map(old(body)@).insert("model"@, json_string_of(model_id@)).insert(
                    "stream"@,
                    json_bool_of(true),
                )
            } else {
                assoc_map(old(body)@).insert("model"@, json_string_of(model_id@))
            },
            cfg.param_mappings@,
            cfg.param_mappings@.len() as int,
        ),
{
    let mv = json_string_value(model_id);
    crate::assoc::assoc_upsert(body, String::from_str("model"), mv);
    if stream {
        let sv = json_bool_value(true);
        crate::assoc::assoc_upsert(body, String::from_str("stream"), sv);
    }
    cfg.apply_param_mappings(body);
}


/// The headers of one request: the JSON content type, the bearer
/// credential, and the provider's extra headers written over them —
/// explicit headers take precedence on a name collision, with the last
/// entry for a repeated name winning.
pub fn request_headers(api_key: &str, extra: &Vec<(String, String)>) -> (r: Vec<(String, String)>)
    ensures
        unique_keys(r@),
        assoc_map(r@).dom().contains("content-type"@),
        assoc_map(r@).dom().contains("authorization"@),
        (forall|l: int| 0 <= l < extra@.len() ==> (#[trigger] extra@[l]).0@ != "content-type"@)
            ==> assoc_map(r@)["content-type"@]@ == "application/json"@,
        (forall|l: int| 0 <= l < extra@.len() ==> (#[trigger] extra@[l]).0@ != "authorization"@)
            ==> assoc_map(r@)["authorization"@]@ == "Bearer "@ + api_key@,
        forall|j: int|
            0 <= j < extra@.len() && (forall|l: int|
                j < l < extra@.len() ==> (#[trigger] extra@[l]).0@ != extra@[j].0@)
                ==> assoc_map(r@).dom().contains((#[trigger] extra@[j]).0@) && assoc_map(
                r@,
            )[extra@[j].0@]@ == extra@[j].1@,
{
    proof {
        reveal_strlit("content-type");
        reveal_strlit("authorization");
    }
    let mut r: Vec<(String, String)> = Vec::new();
    let ct = (String::from_str("content-type"), String::from_str("application/json"));
    proof {
        crate::assoc::lemma_assoc_push(r@, ct);
    }
    r.push(ct);
    let mut bearer = String::from_str("Bearer ");
    bearer.append(api_key);
    let auth = (String::from_str("authorization"), bearer);
    proof {
        assert(r@[0].0@ == "content-type"@);
        assert("content-type"@.len() == 12);
        assert("authorization"@.len() == 13);
        crate::assoc::lemma_assoc_push(r@, auth);
    }
    r.push(auth);
    let ghost base = assoc_map(r@);
    proof {
        crate::assoc::lemma_assoc_value_at(r@, 0);
        crate::assoc::lemma_assoc_value_at(r@, 1);
    }
    let ghost base_ct: Seq<char> = base["content-type"@]@;
    let ghost base_auth: Seq<char> = base["authorization"@]@;
    let n = extra.len();
    let mut i: usize = 0;
    while i < n
        invariant
            n == extra@.len(),
            i <= n,
            unique_keys(r@),
            assoc_map(r@) == crate::config::merged_map(base, extra@, i as int),
            base.dom().contains("content-type"@),
            base.dom().contains("authorization"@),
            base["content-type"@]@ == base_ct,
            base["authorization"@]@ == base_auth,
            base_ct == "application/json"@,
            base_auth == "Bearer "@ + api_key@,
        decreases n - i,
    {
        let k = extra[i].0.clone();
        let v = extra[i].1.clone();
        crate::assoc::assoc_upsert(&mut r, k, v);
        i += 1;
    }
    proof {
        crate::config::lemma_merged_dom_grows(base, extra@, n as int, "content-type"@);
        crate::config::lemma_merged_dom_grows(base, extra@, n as int, "authorization"@);
        if forall|l: int| 0 <= l < extra@.len() ==> (#[trigger] extra@[l]).0@ != "content-type"@ {
            crate::config::lemma_merged_absent(base, extra@, n as int, "content-type"@);
        }
        if forall|l: int| 0 <= l < extra@.len() ==> (#[trigger] extra@[l]).0@
            != "authorization"@ {
            crate::config::lemma_merged_absent(base, extra@, n as int, "authorization"@);
        }
        assert forall|j: int|
            0 <= j < extra@.len() && (forall|l: int|
                j < l < extra@.len() ==> (#[trigger] extra@[l]).0@ != extra@[j].0@)
            implies assoc_map(r@).dom().contains((#[trigger] extra@[j]).0@) && assoc_map(
            r@,
        )[extra@[j].0@]@ == extra@[j].1@ by {
            crate::config::lemma_merged_last(base, extra@, n as int, j);
        }
    }
    r
}

/// Information about one configured provider.
#[derive(Debug)]
pub struct ProviderInfo {
    /// Provider name.
    pub name: String,

    /// Base URL of its API.
    pub base_url: String,

    /// Models it offers.
    pub models: Vec<String>,

    /// Whether a credential pool is configured for it.
    pub has_keys: bool,
}

impl LlmClient {
    /// The names of all configured providers, in registry order.
    pub fn providers(&self) -> (r: Vec<String>)
        ensures
            r@.len() == self.providers@.len(),
            forall|i: int| 0 <= i < r@.len() ==> (#[trigger] r@[i])@ == self.providers@[i].0@,
    {
        let mut out: Vec<String> = Vec::new();
        let len = self.providers.len();
        let mut i: usize = 0;
        while i < len
            invariant
                len == self.providers@.len(),
                i <= len,
                out@.len() == i,
                forall|l: int| 0 <= l < i ==> (#[trigger] out@[l])@ == self.providers@[l].0@,
            decreases len - i,
        {
            out.push(self.providers[i].0.clone());
            i += 1;
        }
        out
    }

    /// What is known about `name`: its configuration and whether keys
    /// are pooled for it; nothing for an unconfigured provider.
    pub fn provider_info(&self, name: &str) -> (r: Option<ProviderInfo>)
        requires
            self.wf(),
        ensures
            r is Some <==> assoc_map(self.providers@).dom().contains(name@),
            r matches Some(info) ==> {
                let cfg = assoc_map(self.providers@)[name@];
                &&& info.name@ == name@
                &&& info.base_url@ == cfg.base_url@
                &&& info.models@.len() == cfg.models@.len()
                &&& info.has_keys == (pool_index(self.key_pools@, name@, 0) is Some)
            },
    {
        match assoc_get(&self.providers, name) {
            Some(cfg) => {
                let has_keys = match self.find_pool(name) {
                    Some(_) => true,
                    None => false,
                };
                Some(
                    ProviderInfo {
                        name: name.to_owned(),
                        base_url: cfg.base_url.clone(),
                        models: cfg.models.clone(),
                        has_keys,
                    },
                )
            }
            None => None,
        }
    }
}

} // verus!
