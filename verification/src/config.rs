//! Provider configuration: the schema of the provider registry, the
//! per-provider quirk flags, and the loader that merges configuration
//! sources.

use crate::assoc::{
    assoc_get, assoc_map, assoc_remove_entry, assoc_upsert, lemma_assoc_push, unique_keys,
};
use crate::text::str_eq;
use vstd::map::*;
use vstd::prelude::*;
use vstd::string::StringExecFns;

verus! {

/// Strategy for rotating credentials in a key pool.
#[derive(Debug, Clone, Copy, PartialEq, Eq, Structural)]
pub enum RotationStrategy {
    /// Rotate through keys sequentially.
    RoundRobin,

    /// Use the least recently used key.
    LeastRecentlyUsed,

    /// Random selection among the usable keys.
    Random,
}

impl Default for RotationStrategy {
    /// The default rotation strategy is round-robin.
    fn default() -> (r: Self)
        ensures
            r == RotationStrategy::RoundRobin,
    {
        RotationStrategy::RoundRobin
    }
}

/// Special handling flags for provider-specific quirks.
#[derive(Debug, Clone, Copy, PartialEq, Eq, Structural)]
pub struct SpecialHandling {
    /// Collapse multimodal content arrays to plain strings.
    pub convert_content_list_to_string: bool,

    /// Inject placeholder text into tool-call-only assistant turns.
    pub add_text_to_tool_calls: bool,

    /// Use the legacy completion endpoint instead of chat.
    pub use_legacy_completions: bool,
}

impl Default for SpecialHandling {
    /// By default no special handling applies.
    fn default() -> (r: Self)
        ensures
            r == (SpecialHandling {
                convert_content_list_to_string: false,
                add_text_to_tool_calls: false,
                use_legacy_completions: false,
            }),
    {
        SpecialHandling {
            convert_content_list_to_string: false,
            add_text_to_tool_calls: false,
            use_legacy_completions: false,
        }
    }
}

impl SpecialHandling {
    /// Whether every flag has its default (disabled) value.
    pub fn is_default(&self) -> (r: bool)
        ensures
            r == (!self.convert_content_list_to_string && !self.add_text_to_tool_calls
                && !self.use_legacy_completions),
    {
        !self.convert_content_list_to_string && !self.add_text_to_tool_calls
            && !self.use_legacy_completions
    }
}

/// Rate-limit configuration for one provider: static quotas and the
/// names of the headers it uses.
#[derive(Debug)]
pub struct RateLimitConfig {
    /// Maximum requests per minute, when the provider documents one.
    pub requests_per_minute: Option<u32>,

    /// Maximum tokens per minute, when documented.
    pub tokens_per_minute: Option<u32>,

    /// Header carrying the retry-after delay (default "retry-after").
    pub retry_after_header: Option<String>,

    /// Header carrying the remaining request count.
    pub remaining_requests_header: Option<String>,

    /// Header carrying the reset time.
    pub reset_header: Option<String>,
}

/// Key pool configuration for multi-key support.
#[derive(Debug)]
pub struct KeyPoolConfig {
    /// Environment variable names holding keys (resolved outside and
    /// merged into `keys` before the pool is built).
    pub keys_env: Vec<String>,

    /// Literal key values.
    pub keys: Vec<String>,

    /// How keys rotate.
    pub rotation_strategy: RotationStrategy,
}

/// Configuration of one provider.
#[derive(Debug)]
pub struct ProviderConfig {
    /// Base URL of the API.
    pub base_url: String,

    /// Environment variable naming the API key.
    pub api_key_env: Option<String>,

    /// Environment variables naming further keys.
    pub api_keys_env: Option<Vec<String>>,

    /// Environment variable overriding the base URL.
    pub api_base_env: Option<String>,

    /// Models the provider offers (documentation only).
    pub models: Vec<String>,

    /// Parameter renamings applied to outgoing bodies.
    pub param_mappings: Vec<(String, String)>,

    /// Extra static headers sent with each request.
    pub headers: Vec<(String, String)>,

    /// Rate-limit configuration.
    pub rate_limit: Option<RateLimitConfig>,

    /// Provider-specific quirk flags.
    pub special_handling: SpecialHandling,
}

/// The value of the first environment entry named `name` (exact match).
pub open spec fn env_value(env: Seq<(String, String)>, name: Seq<char>) -> Option<Seq<char>>
    decreases env.len(),
{
    if env.len() == 0 {
        None
    } else if env[0].0@ == name {
        Some(env[0].1@)
    } else {
        env_value(env.drop_first(), name)
    }
}

/// The value of the first environment entry named `name`.
fn env_lookup<'a>(env: &'a Vec<(String, String)>, name: &str) -> (r: Option<&'a String>)
    ensures
        match r {
            Some(v) => env_value(env@, name@) == Some(v@),
            None => env_value(env@, name@) is None,
        },
{
    let len = env.len();
    proof {
        assert(env@.subrange(0, len as int) =~= env@);
    }
    let mut i: usize = 0;
    while i < len
        invariant
            len == env@.len(),
            i <= len,
            env_value(env@, name@) == env_value(env@.subrange(i as int, len as int), name@),
        decreases len - i,
    {
        proof {
            assert(env@.subrange(i as int, len as int)[0] == env@[i as int]);
            assert(env@.subrange(i as int, len as int).drop_first() =~= env@.subrange(
                i + 1,
                len as int,
            ));
        }
        if str_eq(env[i].0.as_str(), name) {
            return Some(&env[i].1);
        }
        i += 1;
    }
    proof {
        assert(env@.subrange(len as int, len as int).len() == 0);
    }
    None
}

/// The credential values `cfg` yields from an environment: the single
/// key variable's value first, then each of the list's values that is
/// not already present.
pub open spec fn spec_api_keys(cfg: ProviderConfig, env: Seq<(String, String)>) -> Seq<Seq<char>> {
    let first = match cfg.api_key_env {
        Some(name) => match env_value(env, name@) {
            Some(v) => seq![v],
            None => Seq::empty(),
        },
        None => Seq::empty(),
    };
    match cfg.api_keys_env {
        Some(names) => keys_from_envs(first, names@, env, names@.len() as int),
        None => first,
    }
}

/// `init` extended with the values of the first `n` named environment
/// variables, skipping absent variables and duplicates.
pub open spec fn keys_from_envs(
    init: Seq<Seq<char>>,
    names: Seq<String>,
    env: Seq<(String, String)>,
    n: int,
) -> Seq<Seq<char>>
    decreases n,
{
    if n <= 0 {
        init
    } else {
        let prev = keys_from_envs(init, names, env, n - 1);
        match env_value(env, names[n - 1]@) {
            Some(v) => if prev.contains(v) {
                prev
            } else {
                prev.push(v)
            },
            None => prev,
        }
    }
}

impl ProviderConfig {
    /// The effective base URL: the environment's override when the
    /// provider names an override variable and the environment carries
    /// it, otherwise the configured URL.
    pub fn get_base_url(&self, env: &Vec<(String, String)>) -> (r: String)
        ensures
            r@ == match self.api_base_env {
                Some(name) => match env_value(env@, name@) {
                    Some(v) => v,
                    None => self.base_url@,
                },
                None => self.base_url@,
            },
    {
        match &self.api_base_env {
            Some(name) => match env_lookup(env, name.as_str()) {
                Some(v) => v.clone(),
                None => self.base_url.clone(),
            },
            None => self.base_url.clone(),
        }
    }

    /// All credential values the provider yields from an environment,
    /// in order and without duplicates.
    pub fn get_api_keys(&self, env: &Vec<(String, String)>) -> (r: Vec<String>)
        ensures
            r@.map_values(|s: String| s@) == spec_api_keys(*self, env@),
    {
        let mut keys: Vec<String> = Vec::new();
        match &self.api_key_env {
            Some(name) => {
                match env_lookup(env, name.as_str()) {
                    Some(v) => {
                        keys.push(v.clone());
                        proof {
                            assert(keys@.map_values(|s: String| s@) =~= seq![v@]);
                        }
                    }
                    None => {
                        proof {
                            assert(keys@.map_values(|s: String| s@) =~= Seq::<Seq<char>>::empty());
                        }
                    }
                }
            }
            None => {
                proof {
                    assert(keys@.map_values(|s: String| s@) =~= Seq::<Seq<char>>::empty());
                }
            }
        }
        let ghost first = keys@.map_values(|s: String| s@);
        match &self.api_keys_env {
            Some(names) => {
                let ghost ns = names@;
                let n = names.len();
                let mut i: usize = 0;
                while i < n
                    invariant
                        n == ns.len(),
                        names@ == ns,
                        i <= n,
                        keys@.map_values(|s: String| s@) == keys_from_envs(
                            first,
                            ns,
                            env@,
                            i as int,
                        ),
                    decreases n - i,
                {
                    let ghost pre = keys@.map_values(|s: String| s@);
                    match env_lookup(env, names[i].as_str()) {
                        Some(v) => {
                            let dup = contains_string(&keys, v.as_str());
                            if !dup {
                                keys.push(v.clone());
                                proof {
                                    assert(keys@.map_values(|s: String| s@) =~= pre.push(v@));
                                }
                            }
                        }
                        None => {}
                    }
                    i += 1;
                }
            }
            None => {}
        }
        keys
    }

    /// Rename body parameters as the provider's mapping table demands:
    /// for each (from, to) pair in order, a present `from` entry moves
    /// its value under `to`; absent entries change nothing.
    pub fn apply_param_mappings(&self, body: &mut Vec<(String, serde_json::Value)>)
        requires
            unique_keys(old(body)@),
        ensures
            unique_keys(final(body)@),
            assoc_map(final(body)@) == spec_apply_mappings(
                assoc_map(old(body)@),
                self.param_mappings@,
                self.param_mappings@.len() as int,
            ),
    {
        let ghost maps = self.param_mappings@;
        let n = self.param_mappings.len();
        let mut i: usize = 0;
        while i < n
            invariant
                n == maps.len(),
                maps == self.param_mappings@,
                i <= n,
                unique_keys(body@),
                assoc_map(body@) == spec_apply_mappings(
                    assoc_map(old(body)@),
                    maps,
                    i as int,
                ),
            decreases n - i,
        {
            let from = &self.param_mappings[i].0;
            let to = &self.param_mappings[i].1;
            match assoc_remove_entry(body, from.as_str()) {
                Some(v) => {
                    assoc_upsert(body, to.clone(), v);
                }
                None => {}
            }
            i += 1;
        }
    }
}

/// Whether `keys` holds a string whose characters equal `v`.
fn contains_string(keys: &Vec<String>, v: &str) -> (r: bool)
    ensures
        r == keys@.map_values(|s: String| s@).contains(v@),
{
    let len = keys.len();
    let mut i: usize = 0;
    while i < len
        invariant
            len == keys@.len(),
            i <= len,
            forall|l: int| 0 <= l < i ==> #[trigger] keys@[l]@ != v@,
        decreases len - i,
    {
        if str_eq(keys[i].as_str(), v) {
            proof {
                let m = keys@.map_values(|s: String| s@);
                assert(m[i as int] == v@);
                assert(m.contains(v@));
            }
            return true;
        }
        i += 1;
    }
    proof {
        let m = keys@.map_values(|s: String| s@);
        assert forall|l: int| 0 <= l < m.len() implies #[trigger] m[l] != v@ by {
            assert(m[l] == keys@[l]@);
        }
        assert(!m.contains(v@));
    }
    false
}

/// One renaming applied to the body map: a present `from` key moves its
/// value under `to`.
pub open spec fn spec_apply_one(
    m: Map<Seq<char>, serde_json::Value>,
    from: Seq<char>,
    to: Seq<char>,
) -> Map<Seq<char>, serde_json::Value> {
    if m.dom().contains(from) {
        m.remove(from).insert(to, m[from])
    } else {
        m
    }
}

/// The first `n` renamings applied in order.
pub open spec fn spec_apply_mappings(
    m: Map<Seq<char>, serde_json::Value>,
    maps: Seq<(String, String)>,
    n: int,
) -> Map<Seq<char>, serde_json::Value>
    decreases n,
{
    if n <= 0 {
        m
    } else {
        spec_apply_one(spec_apply_mappings(m, maps, n - 1), maps[n - 1].0@, maps[n - 1].1@)
    }
}

/// The whole provider configuration: providers and key pools by name.
#[derive(Debug)]
pub struct ProvidersConfig {
    /// Provider configurations by provider name.
    pub providers: Vec<(String, ProviderConfig)>,

    /// Key pool configurations by provider name.
    pub key_pools: Vec<(String, KeyPoolConfig)>,
}

impl ProvidersConfig {
    /// Both tables carry unique names.
    pub open spec fn wf(self) -> bool {
        unique_keys(self.providers@) && unique_keys(self.key_pools@)
    }

    /// An empty configuration.
    pub fn empty() -> (r: ProvidersConfig)
        ensures
            r.providers@.len() == 0,
            r.key_pools@.len() == 0,
            r.wf(),
    {
        ProvidersConfig { providers: Vec::new(), key_pools: Vec::new() }
    }
}

/// Loads and merges provider configuration: later sources override
/// earlier ones, provider by provider. Reading files and the
/// environment happens outside; parsed configurations are merged here.
#[derive(Debug)]
pub struct ConfigLoader {
    /// The configuration merged so far.
    pub config: ProvidersConfig,
}

impl ConfigLoader {
    /// A loader primed with the built-in provider registry.
    pub fn new() -> (r: ConfigLoader)
        ensures
            r.config.wf(),
            r.config.providers@.len() > 0,
            r.config.key_pools@.len() == 0,
    {
        proof {
            reveal_strlit("openai");
            reveal_strlit("anthropic");
            reveal_strlit("groq");
            reveal_strlit("mistral");
        }
        let mut providers: Vec<(String, ProviderConfig)> = Vec::new();
        push_builtin(
            &mut providers,
            "openai",
            "https://api.openai.com/v1",
            "OPENAI_API_KEY",
        );
        push_builtin(
            &mut providers,
            "anthropic",
            "https://api.anthropic.com/v1",
            "ANTHROPIC_API_KEY",
        );
        push_builtin(
            &mut providers,
            "groq",
            "https://api.groq.com/openai/v1",
            "GROQ_API_KEY",
        );
        push_builtin(
            &mut providers,
            "mistral",
            "https://api.mistral.ai/v1",
            "MISTRAL_API_KEY",
        );
        proof {
            assert(providers@[0].0@ == "openai"@);
            assert(providers@[1].0@ == "anthropic"@);
            assert(providers@[2].0@ == "groq"@);
            assert(providers@[3].0@ == "mistral"@);
            assert forall|i: int, j: int|
                0 <= i < j < providers@.len() implies #[trigger] providers@[i].0@
                != #[trigger] providers@[j].0@ by {
                assert(providers@[i].0@.len() != providers@[j].0@.len());
            }
        }
        ConfigLoader { config: ProvidersConfig { providers, key_pools: Vec::new() } }
    }

    /// A loader holding exactly the given configuration.
    pub fn from_config(config: ProvidersConfig) -> (r: ConfigLoader)
        requires
            config.wf(),
        ensures
            r.config == config,
    {
        ConfigLoader { config }
    }

    /// Merge another configuration in: its providers and key pools
    /// override entries of the same name and add the rest.
    pub fn merge_config(&mut self, other: ProvidersConfig)
        requires
            old(self).config.wf(),
        ensures
            final(self).config.wf(),
            assoc_map(final(self).config.providers@) == merged_map(
                assoc_map(old(self).config.providers@),
                other.providers@,
                other.providers@.len() as int,
            ),
            assoc_map(final(self).config.key_pools@) == merged_map(
                assoc_map(old(self).config.key_pools@),
                other.key_pools@,
                other.key_pools@.len() as int,
            ),
    {
        let ProvidersConfig { providers, key_pools } = other;
        merge_entries(&mut self.config.providers, providers);
        merge_entries(&mut self.config.key_pools, key_pools);
    }

    /// The loaded configuration.
    pub fn config(&self) -> (r: &ProvidersConfig)
        ensures
            r == self.config,
    {
        &self.config
    }

    /// Take ownership of the loaded configuration.
    pub fn into_config(self) -> (r: ProvidersConfig)
        ensures
            r == self.config,
    {
        self.config
    }
}

/// `base` with the first `n` entries of `entries` written over it in
/// order.
pub open spec fn merged_map<V>(
    base: Map<Seq<char>, V>,
    entries: Seq<(String, V)>,
    n: int,
) -> Map<Seq<char>, V>
    decreases n,
{
    if n <= 0 {
        base
    } else {
        merged_map(base, entries, n - 1).insert(entries[n - 1].0@, entries[n - 1].1)
    }
}

/// Write each entry of `other` into `target`, later entries overriding
/// earlier ones of the same name.
fn merge_entries<V>(target: &mut Vec<(String, V)>, other: Vec<(String, V)>)
    requires
        unique_keys(old(target)@),
    ensures
        unique_keys(final(target)@),
        assoc_map(final(target)@) == merged_map(
            assoc_map(old(target)@),
            other@,
            other@.len() as int,
        ),
{
    let ghost os = other@;
    let n = other.len();
    let mut rem = other;
    let mut i: usize = 0;
    while i < n
        invariant
            n == os.len(),
            rem@ =~= os.subrange(i as int, n as int),
            i <= n,
            unique_keys(target@),
            assoc_map(target@) == merged_map(assoc_map(old(target)@), os, i as int),
        decreases n - i,
    {
        let ghost rem_pre = rem@;
        let (k, v) = rem.remove(0);
        proof {
            assert((k, v) == os[i as int]);
            assert(rem@ =~= os.subrange(i as int + 1, n as int));
        }
        assoc_upsert(target, k, v);
        i += 1;
    }
}

fn push_builtin(
    providers: &mut Vec<(String, ProviderConfig)>,
    name: &str,
    base_url: &str,
    key_env: &str,
)
    ensures
        final(providers)@.len() == old(providers)@.len() + 1,
        final(providers)@.last().0@ == name@,
        final(providers)@.last().1.base_url@ == base_url@,
        final(providers)@.last().1.api_key_env matches Some(k) && k@ == key_env@,
        forall|i: int|
            0 <= i < old(providers)@.len() ==> final(providers)@[i] == old(providers)@[i],
{
    let cfg = ProviderConfig {
        base_url: String::from_str(base_url),
        api_key_env: Some(String::from_str(key_env)),
        api_keys_env: None,
        api_base_env: None,
        models: Vec::new(),
        param_mappings: Vec::new(),
        headers: Vec::new(),
        rate_limit: None,
        special_handling: SpecialHandling {
            convert_content_list_to_string: false,
            add_text_to_tool_calls: false,
            use_legacy_completions: false,
        },
    };
    let key = String::from_str(name);
    providers.push((key, cfg));
}


/// Law: merging writes later entries over earlier ones — the merged map
/// carries the value of the last entry for each name that the merged-in
/// entries mention.
pub proof fn lemma_merged_last<V>(base: Map<Seq<char>, V>, e: Seq<(String, V)>, n: int, j: int)
    requires
        0 <= j < n <= e.len(),
        forall|l: int| j < l < n ==> e[l].0@ != e[j].0@,
    ensures
        merged_map(base, e, n).dom().contains(e[j].0@),
        merged_map(base, e, n)[e[j].0@] == e[j].1,
    decreases n,
{
    if j < n - 1 {
        lemma_merged_last(base, e, n - 1, j);
    }
}

/// Law: merging leaves names untouched that the merged-in entries do
/// not mention.
pub proof fn lemma_merged_absent<V>(base: Map<Seq<char>, V>, e: Seq<(String, V)>, n: int, k: Seq<char>)
    requires
        0 <= n <= e.len(),
        forall|l: int| 0 <= l < n ==> e[l].0@ != k,
    ensures
        merged_map(base, e, n).dom().contains(k) <==> base.dom().contains(k),
        base.dom().contains(k) ==> merged_map(base, e, n)[k] == base[k],
    decreases n,
{
    if n > 0 {
        lemma_merged_absent(base, e, n - 1, k);
    }
}

/// Law: merging never removes a name — whatever the base map holds is
/// still held afterwards (possibly with an overridden value).
pub proof fn lemma_merged_dom_grows<V>(
    base: Map<Seq<char>, V>,
    e: Seq<(String, V)>,
    n: int,
    k: Seq<char>,
)
    requires
        0 <= n <= e.len(),
        base.dom().contains(k),
    ensures
        merged_map(base, e, n).dom().contains(k),
    decreases n,
{
    if n > 0 {
        lemma_merged_dom_grows(base, e, n - 1, k);
    }
}

} // verus!
