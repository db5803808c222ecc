//! Credential pools: per-provider sets of API keys with cooldown
//! tracking, usage counters, and a rotation policy.
//!
//! Time enters every operation as an explicit instant in milliseconds,
//! and random rotation draws from an explicit number, so that selection
//! is a function of its arguments.

use crate::config::RotationStrategy;
use crate::text::str_eq;
use vstd::arithmetic::div_mod::{lemma_fundamental_div_mod, lemma_fundamental_div_mod_converse};
use vstd::pervasive::VecAdditionalExecFns;
use vstd::prelude::*;

verus! {

/// A single credential with usage tracking.
#[derive(Debug, Clone)]
pub struct ApiKey {
    /// The secret value of the key.
    pub value: String,

    /// The instant (milliseconds) until which the key is cooled down,
    /// if any.
    pub rate_limited_until: Option<u64>,

    /// Total number of requests made with this key.
    pub request_count: u64,

    /// The instant (milliseconds) the key was last used.
    pub last_used: u64,
}

impl ApiKey {
    /// Whether the key is cooled down at instant `now`.
    pub open spec fn spec_limited(self, now: u64) -> bool {
        match self.rate_limited_until {
            Some(t) => now < t,
            None => false,
        }
    }

    /// How long the key remains cooled down at instant `now`, if it is.
    pub open spec fn spec_remaining(self, now: u64) -> Option<u64> {
        match self.rate_limited_until {
            Some(t) => if now < t {
                Some((t - now) as u64)
            } else {
                None
            },
            None => None,
        }
    }

    /// A fresh, usable key holding `value`.
    pub fn new(value: String) -> (r: ApiKey)
        ensures
            r == (ApiKey { value, rate_limited_until: None, request_count: 0, last_used: 0 }),
    {
        ApiKey { value, rate_limited_until: None, request_count: 0, last_used: 0 }
    }

    /// The secret value of the key.
    pub fn value(&self) -> (r: &str)
        ensures
            r@ == self.value@,
    {
        self.value.as_str()
    }

    /// Whether the key is cooled down at instant `now`.
    pub fn is_rate_limited(&self, now: u64) -> (r: bool)
        ensures
            r == self.spec_limited(now),
    {
        match self.rate_limited_until {
            Some(t) => now < t,
            None => false,
        }
    }

    /// The remaining cooldown at instant `now`, if any.
    pub fn rate_limit_remaining(&self, now: u64) -> (r: Option<u64>)
        ensures
            r == self.spec_remaining(now),
    {
        match self.rate_limited_until {
            Some(t) => if now < t {
                Some(t - now)
            } else {
                None
            },
            None => None,
        }
    }

    /// Cool the key down for `duration_ms` from instant `now`.
    pub fn mark_rate_limited(&mut self, now: u64, duration_ms: u64)
        ensures
            *final(self) == (ApiKey {
                rate_limited_until: Some(now.saturating_add(duration_ms)),
                ..*old(self)
            }),
    {
        self.rate_limited_until = Some(now.saturating_add(duration_ms));
    }

    /// Clear the cooldown.
    pub fn clear_rate_limit(&mut self)
        ensures
            *final(self) == (ApiKey { rate_limited_until: None, ..*old(self) }),
    {
        self.rate_limited_until = None;
    }

    /// Record one use of the key at instant `now`.
    pub fn record_usage(&mut self, now: u64)
        ensures
            *final(self) == (ApiKey {
                request_count: old(self).request_count.saturating_add(1),
                last_used: now,
                ..*old(self)
            }),
    {
        self.request_count = self.request_count.saturating_add(1);
        self.last_used = now;
    }

    /// The number of requests recorded against the key.
    pub fn request_count(&self) -> (r: u64)
        ensures
            r == self.request_count,
    {
        self.request_count
    }

    /// The instant the key was last used.
    pub fn last_used(&self) -> (r: u64)
        ensures
            r == self.last_used,
    {
        self.last_used
    }
}

/// The remaining cooldown of a key at `now`, read as zero for a usable
/// key.
pub open spec fn rem0(k: ApiKey, now: u64) -> int {
    match k.spec_remaining(now) {
        Some(d) => d as int,
        None => 0,
    }
}

/// The index of the first minimum of `rem0` among the first `n` keys.
pub open spec fn first_min_rem_upto(keys: Seq<ApiKey>, now: u64, n: int) -> int
    decreases n,
{
    if n <= 1 {
        0
    } else {
        let b = first_min_rem_upto(keys, now, n - 1);
        if rem0(keys[n - 1], now) < rem0(keys[b], now) {
            n - 1
        } else {
            b
        }
    }
}

/// The index of the key whose cooldown expires soonest (first of equals).
pub open spec fn soonest_idx(keys: Seq<ApiKey>, now: u64) -> int {
    first_min_rem_upto(keys, now, keys.len() as int)
}

/// The round-robin choice: the first usable key at or after attempt `a`,
/// probing indices (c0 + a) % len, (c0 + a + 1) % len, ...
pub open spec fn rr_search(keys: Seq<ApiKey>, c0: int, now: u64, a: int) -> Option<int>
    decreases keys.len() - a,
{
    if a >= keys.len() {
        None
    } else {
        let idx = (c0 + a) % (keys.len() as int);
        if !keys[idx].spec_limited(now) {
            Some(idx)
        } else {
            rr_search(keys, c0, now, a + 1)
        }
    }
}

/// The least-recently-used choice among the first `n` keys: the first
/// usable key with the smallest `last_used`.
pub open spec fn lru_upto(keys: Seq<ApiKey>, now: u64, n: int) -> Option<int>
    decreases n,
{
    if n <= 0 {
        None
    } else {
        let p = lru_upto(keys, now, n - 1);
        if keys[n - 1].spec_limited(now) {
            p
        } else {
            match p {
                None => Some(n - 1),
                Some(b) => if keys[n - 1].last_used < keys[b].last_used {
                    Some(n - 1)
                } else {
                    Some(b)
                },
            }
        }
    }
}

/// The indices of the usable keys among the first `n`, in order.
pub open spec fn usable_upto(keys: Seq<ApiKey>, now: u64, n: int) -> Seq<int>
    decreases n,
{
    if n <= 0 {
        Seq::empty()
    } else if !keys[n - 1].spec_limited(now) {
        usable_upto(keys, now, n - 1).push(n - 1)
    } else {
        usable_upto(keys, now, n - 1)
    }
}

/// A pool of credentials for one provider, with a rotation policy.
#[derive(Debug)]
pub struct KeyPool {
    /// Provider name this pool belongs to.
    pub provider: String,

    /// The credentials.
    pub keys: Vec<ApiKey>,

    /// Rotation cursor for round-robin selection.
    pub current_index: usize,

    /// Rotation strategy.
    pub strategy: RotationStrategy,
}

impl KeyPool {
    /// The selection the pool makes at instant `now` with random draw
    /// `rand`: nothing from an empty pool; otherwise the key its
    /// rotation policy picks, falling back to the soonest-expiring key
    /// when every key is cooled down.
    pub open spec fn spec_select(self, now: u64, rand: u64) -> Option<int> {
        let keys = self.keys@;
        if keys.len() == 0 {
            None
        } else {
            match self.strategy {
                RotationStrategy::RoundRobin => match rr_search(
                    keys,
                    (self.current_index as int) % (keys.len() as int),
                    now,
                    0,
                ) {
                    Some(j) => Some(j),
                    None => Some(soonest_idx(keys, now)),
                },
                RotationStrategy::LeastRecentlyUsed => match lru_upto(
                    keys,
                    now,
                    keys.len() as int,
                ) {
                    Some(j) => Some(j),
                    None => Some(soonest_idx(keys, now)),
                },
                RotationStrategy::Random => {
                    let us = usable_upto(keys, now, keys.len() as int);
                    if us.len() > 0 {
                        Some(us[(rand as int) % (us.len() as int)])
                    } else {
                        Some(soonest_idx(keys, now))
                    }
                },
            }
        }
    }

    /// Build a pool over `keys` for `provider`.
    pub fn new(provider: String, keys: Vec<String>, strategy: RotationStrategy) -> (r: KeyPool)
        ensures
            r.provider == provider,
            r.strategy == strategy,
            r.current_index == 0,
            r.keys@.len() == keys@.len(),
            forall|j: int|
                0 <= j < keys@.len() ==> r.keys@[j] == (ApiKey {
                    value: keys@[j],
                    rate_limited_until: None,
                    request_count: 0,
                    last_used: 0,
                }),
    {
        let mut ks: Vec<ApiKey> = Vec::new();
        let n = keys.len();
        for i in 0..n
            invariant
                n == keys@.len(),
                ks@.len() == i,
                forall|j: int|
                    0 <= j < i ==> ks@[j] == (ApiKey {
                        value: keys@[j],
                        rate_limited_until: None,
                        request_count: 0,
                        last_used: 0,
                    }),
        {
            ks.push(ApiKey::new(keys[i].clone()));
        }
        KeyPool { provider, keys: ks, current_index: 0, strategy }
    }

    /// The provider this pool belongs to.
    pub fn provider(&self) -> (r: &str)
        ensures
            r@ == self.provider@,
    {
        self.provider.as_str()
    }

    /// Whether the pool holds no keys.
    pub fn is_empty(&self) -> (r: bool)
        ensures
            r == (self.keys@.len() == 0),
    {
        self.keys.len() == 0
    }

    /// The number of keys in the pool.
    pub fn len(&self) -> (r: usize)
        ensures
            r == self.keys@.len(),
    {
        self.keys.len()
    }

    /// The key at index `i`.
    pub fn key_at(&self, i: usize) -> (r: &ApiKey)
        requires
            i < self.keys@.len(),
        ensures
            r == self.keys@[i as int],
    {
        &self.keys[i]
    }

    /// Select a key at instant `now`, drawing `rand` for random
    /// rotation: the index of `spec_select`, which exists exactly when
    /// the pool is non-empty and never names a cooled-down key while a
    /// usable one exists.
    pub fn get_key(&mut self, now: u64, rand: u64) -> (r: Option<usize>)
        ensures
            final(self).provider == old(self).provider,
            final(self).keys@ == old(self).keys@,
            final(self).strategy == old(self).strategy,
            r is Some <==> old(self).keys@.len() > 0,
            match r {
                Some(i) => old(self).spec_select(now, rand) == Some(i as int) && i
                    < old(self).keys@.len(),
                None => old(self).spec_select(now, rand) is None,
            },
            ({
                // under round-robin the cursor moves past a found usable
                // key; in every other case it stays, so consecutive
                // selections probe consecutive positions
                let keys = old(self).keys@;
                let len = keys.len() as int;
                if old(self).strategy == RotationStrategy::RoundRobin && len > 0 {
                    match rr_search(keys, (old(self).current_index as int) % len, now, 0) {
                        Some(j) => final(self).current_index as int == (j + 1) % len,
                        None => final(self).current_index == old(self).current_index,
                    }
                } else {
                    final(self).current_index == old(self).current_index
                }
            }),
    {
        if self.keys.len() == 0 {
            return None;
        }
        match self.strategy {
            RotationStrategy::RoundRobin => {
                let i = self.get_round_robin(now);
                Some(i)
            }
            RotationStrategy::LeastRecentlyUsed => {
                let i = self.get_lru(now);
                Some(i)
            }
            RotationStrategy::Random => {
                let i = self.get_random(now, rand);
                Some(i)
            }
        }
    }

    /// Round-robin selection: probe from the cursor, skip cooled-down
    /// keys, advance the cursor past the chosen key; fall back to the
    /// soonest-expiring key after one full fruitless cycle.
    fn get_round_robin(&mut self, now: u64) -> (r: usize)
        requires
            old(self).keys@.len() > 0,
        ensures
            final(self).provider == old(self).provider,
            final(self).keys@ == old(self).keys@,
            final(self).strategy == old(self).strategy,
            r < old(self).keys@.len(),
            ({
                let keys = old(self).keys@;
                let c0 = (old(self).current_index as int) % (keys.len() as int);
                match rr_search(keys, c0, now, 0) {
                    Some(j) => r == j && final(self).current_index as int == (j + 1) % (
                    keys.len() as int),
                    None => r == soonest_idx(keys, now) && final(self).current_index == old(
                        self,
                    ).current_index,
                }
            }),
    {
        let len = self.keys.len();
        let c0 = self.current_index % len;
        let ghost keys = self.keys@;
        let mut idx = c0;
        let mut a: usize = 0;
        proof {
            lemma_fundamental_div_mod_converse(c0 as int, len as int, 0, c0 as int);
        }
        while a < len
            invariant
                len == keys.len(),
                len > 0,
                keys == old(self).keys@,
                self.keys@ == keys,
                self.provider == old(self).provider,
                self.strategy == old(self).strategy,
                self.current_index == old(self).current_index,
                c0 == (old(self).current_index as int) % (len as int),
                a <= len,
                idx < len,
                idx as int == (c0 + a) % (len as int),
                rr_search(keys, c0 as int, now, 0) == rr_search(keys, c0 as int, now, a as int),
            decreases len - a,
        {
            if !self.keys[idx].is_rate_limited(now) {
                self.current_index = if idx + 1 == len {
                    0
                } else {
                    idx + 1
                };
                proof {
                    assert(rr_search(keys, c0 as int, now, a as int) == Some(idx as int));
                    if idx + 1 == len {
                        lemma_fundamental_div_mod_converse(idx as int + 1, len as int, 1, 0);
                    } else {
                        lemma_fundamental_div_mod_converse(
                            idx as int + 1,
                            len as int,
                            0,
                            idx as int + 1,
                        );
                    }
                }
                return idx;
            }
            proof {
                lemma_mod_succ(c0 + a, len as int);
            }
            idx = if idx + 1 == len {
                0
            } else {
                idx + 1
            };
            a += 1;
        }
        self.get_soonest_available(now)
    }

    /// The first usable key with the smallest last-used instant, or the
    /// soonest-expiring key when all are cooled down.
    fn get_lru(&self, now: u64) -> (r: usize)
        requires
            self.keys@.len() > 0,
        ensures
            r < self.keys@.len(),
            ({
                let keys = self.keys@;
                match lru_upto(keys, now, keys.len() as int) {
                    Some(j) => r == j,
                    None => r == soonest_idx(keys, now),
                }
            }),
    {
        let ghost keys = self.keys@;
        let len = self.keys.len();
        let mut best: Option<usize> = None;
        let mut j: usize = 0;
        while j < len
            invariant
                len == keys.len(),
                keys == self.keys@,
                j <= len,
                match best {
                    Some(b) => b < len && lru_upto(keys, now, j as int) == Some(b as int),
                    None => lru_upto(keys, now, j as int) is None,
                },
            decreases len - j,
        {
            if !self.keys[j].is_rate_limited(now) {
                match best {
                    None => {
                        best = Some(j);
                    }
                    Some(b) => {
                        if self.keys[j].last_used() < self.keys[b].last_used() {
                            best = Some(j);
                        }
                    }
                }
            }
            j += 1;
        }
        match best {
            Some(b) => b,
            None => self.get_soonest_available(now),
        }
    }

    /// Uniform choice among the usable keys, driven by the draw `rand`;
    /// the soonest-expiring key when none is usable.
    fn get_random(&self, now: u64, rand: u64) -> (r: usize)
        requires
            self.keys@.len() > 0,
        ensures
            r < self.keys@.len(),
            ({
                let keys = self.keys@;
                let us = usable_upto(keys, now, keys.len() as int);
                if us.len() > 0 {
                    r == us[(rand as int) % (us.len() as int)]
                } else {
                    r == soonest_idx(keys, now)
                }
            }),
    {
        let ghost keys = self.keys@;
        let len = self.keys.len();
        let mut avail: Vec<usize> = Vec::new();
        let mut j: usize = 0;
        while j < len
            invariant
                len == keys.len(),
                keys == self.keys@,
                j <= len,
                avail@.map_values(|x: usize| x as int) =~= usable_upto(keys, now, j as int),
                forall|k: int| 0 <= k < avail@.len() ==> avail@[k] < len,
            decreases len - j,
        {
            let ghost pre = avail@;
            if !self.keys[j].is_rate_limited(now) {
                avail.push(j);
                proof {
                    assert(avail@ =~= pre.push(j));
                    assert(avail@.map_values(|x: usize| x as int) =~= pre.map_values(
                        |x: usize| x as int,
                    ).push(j as int));
                    assert(avail@.map_values(|x: usize| x as int) =~= usable_upto(
                        keys,
                        now,
                        j + 1,
                    ));
                }
            } else {
                proof {
                    assert(avail@.map_values(|x: usize| x as int) =~= usable_upto(
                        keys,
                        now,
                        j + 1,
                    ));
                }
            }
            j += 1;
        }
        if avail.len() == 0 {
            return self.get_soonest_available(now);
        }
        let count = avail.len() as u64;
        let pick = (rand % count) as usize;
        proof {
            assert(usable_upto(keys, now, len as int).len() == avail@.len());
            assert((rand as int) % (avail@.len() as int) == pick as int);
        }
        avail[pick]
    }

    /// The key whose remaining cooldown is smallest (a usable key counts
    /// as zero), first of equals.
    fn get_soonest_available(&self, now: u64) -> (r: usize)
        requires
            self.keys@.len() > 0,
        ensures
            r < self.keys@.len(),
            r as int == soonest_idx(self.keys@, now),
    {
        let ghost keys = self.keys@;
        let len = self.keys.len();
        let mut best: usize = 0;
        let mut j: usize = 1;
        while j < len
            invariant
                len == keys.len(),
                keys == self.keys@,
                1 <= j <= len,
                best < j,
                best as int == first_min_rem_upto(keys, now, j as int),
            decreases len - j,
        {
            let rj = self.remaining_or_zero(j, now);
            let rb = self.remaining_or_zero(best, now);
            if rj < rb {
                best = j;
            }
            j += 1;
        }
        best
    }

    /// The remaining cooldown of the key at `i`, zero when usable.
    fn remaining_or_zero(&self, i: usize, now: u64) -> (r: u64)
        requires
            i < self.keys@.len(),
        ensures
            r as int == rem0(self.keys@[i as int], now),
    {
        match self.keys[i].rate_limit_remaining(now) {
            Some(d) => d,
            None => 0,
        }
    }

    /// Cool down the first key holding `key_value` for `duration_ms`
    /// from `now`; a value no key holds changes nothing.
    pub fn mark_rate_limited(&mut self, key_value: &str, now: u64, duration_ms: u64)
        ensures
            marked_pool(*old(self), *final(self), key_value@, now, duration_ms),
    {
        let ghost keys = self.keys@;
        let len = self.keys.len();
        let mut j: usize = 0;
        while j < len
            invariant
                len == keys.len(),
                keys == old(self).keys@,
                self.keys@ == keys,
                self.provider == old(self).provider,
                self.strategy == old(self).strategy,
                self.current_index == old(self).current_index,
                j <= len,
                forall|l: int| 0 <= l < j ==> keys[l].value@ != key_value@,
            decreases len - j,
        {
            if str_eq(self.keys[j].value(), key_value) {
                proof {
                    assert(exists|j2: int|
                        0 <= j2 < keys.len() && keys[j2].value@ == key_value@) by {
                        assert(keys[j as int].value@ == key_value@);
                    }
                    lemma_first_with_value(keys, key_value@, j as int);
                }
                let v = self.keys[j].value.clone();
                let rc = self.keys[j].request_count;
                let lu = self.keys[j].last_used;
                self.keys.set(
                    j,
                    ApiKey {
                        value: v,
                        rate_limited_until: Some(now.saturating_add(duration_ms)),
                        request_count: rc,
                        last_used: lu,
                    },
                );
                return ;
            }
            j += 1;
        }
        proof {
            assert(!(exists|j2: int| 0 <= j2 < keys.len() && keys[j2].value@ == key_value@)) by {
                assert(forall|l: int| 0 <= l < keys.len() ==> keys[l].value@ != key_value@);
            }
        }
    }

    /// Whether every key in the pool is cooled down at `now`.
    pub fn all_rate_limited(&self, now: u64) -> (r: bool)
        ensures
            r == forall|j: int| 0 <= j < self.keys@.len() ==> self.keys@[j].spec_limited(now),
    {
        let len = self.keys.len();
        let mut j: usize = 0;
        while j < len
            invariant
                len == self.keys@.len(),
                j <= len,
                forall|l: int| 0 <= l < j ==> self.keys@[l].spec_limited(now),
            decreases len - j,
        {
            if !self.keys[j].is_rate_limited(now) {
                return false;
            }
            j += 1;
        }
        true
    }

    /// The smallest remaining cooldown among the cooled-down keys, if
    /// any key is cooled down.
    pub fn min_wait_time(&self, now: u64) -> (r: Option<u64>)
        ensures
            r is None <==> forall|j: int|
                0 <= j < self.keys@.len() ==> !self.keys@[j].spec_limited(now),
            r matches Some(m) ==> {
                &&& exists|j: int|
                    0 <= j < self.keys@.len() && self.keys@[j].spec_remaining(now) == Some(m)
                &&& forall|j: int|
                    0 <= j < self.keys@.len() && self.keys@[j].spec_limited(now)
                        ==> m <= self.keys@[j].spec_remaining(now)->0
            },
    {
        let len = self.keys.len();
        let mut best: Option<u64> = None;
        let ghost mut witness: int = 0;
        let mut j: usize = 0;
        while j < len
            invariant
                len == self.keys@.len(),
                j <= len,
                best is None ==> forall|l: int| 0 <= l < j ==> !self.keys@[l].spec_limited(now),
                best matches Some(m) ==> {
                    &&& 0 <= witness < j
                    &&& self.keys@[witness].spec_remaining(now) == Some(m)
                    &&& forall|l: int|
                        0 <= l < j && self.keys@[l].spec_limited(now) ==> m <= self.keys@[l]
                            .spec_remaining(now)->0
                },
            decreases len - j,
        {
            match self.keys[j].rate_limit_remaining(now) {
                Some(d) => {
                    match best {
                        None => {
                            best = Some(d);
                            proof {
                                witness = j as int;
                            }
                        }
                        Some(m) => {
                            if d < m {
                                best = Some(d);
                                proof {
                                    witness = j as int;
                                }
                            }
                        }
                    }
                }
                None => {}
            }
            j += 1;
        }
        best
    }

    /// Statistics about the pool at instant `now`.
    pub fn stats(&self, now: u64) -> (r: KeyPoolStats)
        ensures
            r.total_keys == self.keys@.len(),
            r.rate_limited_keys == count_limited(self.keys@, now, self.keys@.len() as int),
            r.available_keys == self.keys@.len() - count_limited(
                self.keys@,
                now,
                self.keys@.len() as int,
            ),
            r.total_requests as int == sum_requests_clamped(
                self.keys@,
                self.keys@.len() as int,
            ),
    {
        let ghost keys = self.keys@;
        let len = self.keys.len();
        let mut limited: usize = 0;
        let mut requests: u64 = 0;
        let mut j: usize = 0;
        while j < len
            invariant
                len == keys.len(),
                keys == self.keys@,
                j <= len,
                limited as int == count_limited(keys, now, j as int),
                limited <= j,
                requests as int == sum_requests_clamped(keys, j as int),
            decreases len - j,
        {
            if self.keys[j].is_rate_limited(now) {
                limited += 1;
            }
            requests = requests.saturating_add(self.keys[j].request_count());
            j += 1;
        }
        KeyPoolStats {
            total_keys: len,
            available_keys: len - limited,
            rate_limited_keys: limited,
            total_requests: requests,
        }
    }
}

/// How a pool changes when the first key holding `key_value` is cooled
/// down for `duration_ms` from `now`: that key's cooldown deadline is
/// set, everything else is untouched; a value no key holds changes
/// nothing.
pub open spec fn marked_pool(
    old_pool: KeyPool,
    new_pool: KeyPool,
    key_value: Seq<char>,
    now: u64,
    duration_ms: u64,
) -> bool {
    &&& new_pool.provider == old_pool.provider
    &&& new_pool.strategy == old_pool.strategy
    &&& new_pool.current_index == old_pool.current_index
    &&& new_pool.keys@.len() == old_pool.keys@.len()
    &&& {
        let keys = old_pool.keys@;
        if exists|j: int| 0 <= j < keys.len() && keys[j].value@ == key_value {
            let j = first_with_value(keys, key_value);
            &&& new_pool.keys@[j] == (ApiKey {
                rate_limited_until: Some(now.saturating_add(duration_ms)),
                ..keys[j]
            })
            &&& forall|l: int| 0 <= l < keys.len() && l != j ==> new_pool.keys@[l] == keys[l]
        } else {
            new_pool.keys@ == keys
        }
    }
}

/// The number of cooled-down keys among the first `n`.
pub open spec fn count_limited(keys: Seq<ApiKey>, now: u64, n: int) -> int
    decreases n,
{
    if n <= 0 {
        0
    } else {
        count_limited(keys, now, n - 1) + if keys[n - 1].spec_limited(now) {
            1int
        } else {
            0int
        }
    }
}

/// The requests recorded across the first `n` keys, saturating at the
/// `u64` maximum as the running sum does.
pub open spec fn sum_requests_clamped(keys: Seq<ApiKey>, n: int) -> int
    decreases n,
{
    if n <= 0 {
        0
    } else {
        let prev = sum_requests_clamped(keys, n - 1);
        if prev + keys[n - 1].request_count > u64::MAX {
            u64::MAX as int
        } else {
            prev + keys[n - 1].request_count
        }
    }
}

/// The index of the first key holding `value`.
pub open spec fn first_with_value(keys: Seq<ApiKey>, value: Seq<char>) -> int {
    choose|j: int|
        0 <= j < keys.len() && keys[j].value@ == value && forall|l: int|
            0 <= l < j ==> keys[l].value@ != value
}

proof fn lemma_first_with_value(keys: Seq<ApiKey>, value: Seq<char>, j: int)
    requires
        0 <= j < keys.len(),
        keys[j].value@ == value,
        forall|l: int| 0 <= l < j ==> keys[l].value@ != value,
    ensures
        first_with_value(keys, value) == j,
{
    assert(exists|j2: int|
        0 <= j2 < keys.len() && keys[j2].value@ == value && forall|l: int|
            0 <= l < j2 ==> keys[l].value@ != value) by {
        assert(0 <= j < keys.len() && keys[j].value@ == value && forall|l: int|
            0 <= l < j ==> keys[l].value@ != value);
    }
    let w = first_with_value(keys, value);
    if w < j {
        assert(keys[w].value@ != value);
        assert(false);
    }
    if j < w {
        assert(keys[j].value@ != value);
        assert(false);
    }
}

proof fn lemma_mod_succ(x: int, len: int)
    requires
        len > 0,
        x >= 0,
    ensures
        (x + 1) % len == if x % len + 1 == len {
            0int
        } else {
            x % len + 1
        },
{
    lemma_fundamental_div_mod(x, len);
    let q = x / len;
    let m = x % len;
    if m + 1 == len {
        assert(x + 1 == (q + 1) * len + 0) by (nonlinear_arith)
            requires
                x == len * q + m,
                m + 1 == len,
        ;
        lemma_fundamental_div_mod_converse(x + 1, len, q + 1, 0);
    } else {
        assert(x + 1 == q * len + (m + 1)) by (nonlinear_arith)
            requires
                x == len * q + m,
        ;
        lemma_fundamental_div_mod_converse(x + 1, len, q, m + 1);
    }
}

proof fn lemma_first_min_props(keys: Seq<ApiKey>, now: u64, n: int)
    requires
        1 <= n <= keys.len(),
    ensures
        0 <= first_min_rem_upto(keys, now, n) < n,
        forall|j: int|
            0 <= j < n ==> rem0(keys[first_min_rem_upto(keys, now, n)], now) <= rem0(
                #[trigger] keys[j],
                now,
            ),
    decreases n,
{
    if n > 1 {
        lemma_first_min_props(keys, now, n - 1);
    }
}

proof fn lemma_rr_none_all_limited(keys: Seq<ApiKey>, c0: int, now: u64, a: int)
    requires
        keys.len() > 0,
        c0 >= 0,
        0 <= a,
        rr_search(keys, c0, now, a) is None,
    ensures
        forall|b: int|
            a <= b < keys.len() ==> keys[#[trigger] ((c0 + b) % (keys.len() as int))].spec_limited(
                now,
            ),
    decreases keys.len() - a,
{
    if a < keys.len() {
        lemma_rr_none_all_limited(keys, c0, now, a + 1);
    }
}

proof fn lemma_rr_some_usable(keys: Seq<ApiKey>, c0: int, now: u64, a: int)
    requires
        keys.len() > 0,
        c0 >= 0,
        0 <= a,
        rr_search(keys, c0, now, a) is Some,
    ensures
        0 <= rr_search(keys, c0, now, a)->0 < keys.len(),
        !keys[rr_search(keys, c0, now, a)->0].spec_limited(now),
    decreases keys.len() - a,
{
    vstd::arithmetic::div_mod::lemma_mod_pos_bound(c0 + a, keys.len() as int);
    if a < keys.len() && keys[(c0 + a) % (keys.len() as int)].spec_limited(now) {
        lemma_rr_some_usable(keys, c0, now, a + 1);
    }
}

proof fn lemma_mod_coverage(c0: int, j: int, len: int)
    requires
        len > 0,
        c0 >= 0,
        0 <= j < len,
    ensures
        exists|b: int| 0 <= b < len && #[trigger] ((c0 + b) % len) == j,
{
    lemma_fundamental_div_mod(c0, len);
    let q = c0 / len;
    let m = c0 % len;
    let b: int = if j >= m {
        j - m
    } else {
        j + len - m
    };
    if j >= m {
        assert(c0 + b == q * len + j) by (nonlinear_arith)
            requires
                c0 == len * q + m,
                b == j - m,
        ;
        lemma_fundamental_div_mod_converse(c0 + b, len, q, j);
    } else {
        assert(c0 + b == (q + 1) * len + j) by (nonlinear_arith)
            requires
                c0 == len * q + m,
                b == j + len - m,
        ;
        lemma_fundamental_div_mod_converse(c0 + b, len, q + 1, j);
    }
    assert(0 <= b < len && (c0 + b) % len == j);
}

proof fn lemma_lru_props(keys: Seq<ApiKey>, now: u64, n: int)
    requires
        n <= keys.len(),
    ensures
        match lru_upto(keys, now, n) {
            Some(b) => 0 <= b < n && !keys[b].spec_limited(now),
            None => forall|j: int| 0 <= j < n ==> keys[j].spec_limited(now),
        },
    decreases n,
{
    if n > 0 {
        lemma_lru_props(keys, now, n - 1);
    }
}

proof fn lemma_usable_props(keys: Seq<ApiKey>, now: u64, n: int)
    requires
        n <= keys.len(),
    ensures
        forall|k: int|
            0 <= k < usable_upto(keys, now, n).len() ==> {
                let i = #[trigger] usable_upto(keys, now, n)[k];
                0 <= i < n && !keys[i].spec_limited(now)
            },
        (usable_upto(keys, now, n).len() == 0 <==> forall|j: int|
            0 <= j < n ==> keys[j].spec_limited(now)),
    decreases n,
{
    if n > 0 {
        lemma_usable_props(keys, now, n - 1);
        let prev = usable_upto(keys, now, n - 1);
        let cur = usable_upto(keys, now, n);
        if !keys[n - 1].spec_limited(now) {
            assert forall|k: int| 0 <= k < cur.len() implies 0 <= #[trigger] cur[k] < n
                && !keys[cur[k]].spec_limited(now) by {
                if k < prev.len() {
                    assert(cur[k] == prev[k]);
                } else {
                    assert(cur[k] == n - 1);
                }
            }
        }
    }
}

/// Law: in a non-empty round-robin pool with no credential cooled down,
/// selection picks exactly the credential at the cursor (modulo the pool
/// size). Together with the cursor advancing by one per selection and
/// `lemma_round_robin_distinct`, consecutive selections visit every
/// credential exactly once before repeating.
pub proof fn lemma_round_robin_picks_cursor(pool: KeyPool, now: u64, rand: u64)
    requires
        pool.strategy == RotationStrategy::RoundRobin,
        pool.keys@.len() > 0,
        forall|j: int| 0 <= j < pool.keys@.len() ==> !pool.keys@[j].spec_limited(now),
    ensures
        pool.spec_select(now, rand) == Some(
            (pool.current_index as int) % (pool.keys@.len() as int),
        ),
{
    let keys = pool.keys@;
    let len = keys.len() as int;
    let c0 = (pool.current_index as int) % len;
    vstd::arithmetic::div_mod::lemma_mod_pos_bound(pool.current_index as int, len);
    lemma_fundamental_div_mod_converse(c0, len, 0, c0);
    assert((c0 + 0) % len == c0);
    assert(rr_search(keys, c0, now, 0) == Some(c0));
}

/// Law: two consecutive round-robin selections within one full cycle
/// pick distinct credentials: the cursor positions `c0 + j1` and
/// `c0 + j2` name different keys whenever `j1` and `j2` differ by less
/// than the pool size.
pub proof fn lemma_round_robin_distinct(len: int, c0: int, j1: int, j2: int)
    requires
        len > 0,
        c0 >= 0,
        0 <= j1 < j2,
        j2 - j1 < len,
    ensures
        (c0 + j1) % len != (c0 + j2) % len,
{
    lemma_fundamental_div_mod(c0 + j1, len);
    lemma_fundamental_div_mod(c0 + j2, len);
    let q1 = (c0 + j1) / len;
    let q2 = (c0 + j2) / len;
    if (c0 + j1) % len == (c0 + j2) % len {
        assert(false) by (nonlinear_arith)
            requires
                c0 + j1 == len * q1 + (c0 + j1) % len,
                c0 + j2 == len * q2 + (c0 + j2) % len,
                (c0 + j1) % len == (c0 + j2) % len,
                0 < j2 - j1 < len,
        ;
    }
}

/// Law: selection never picks a cooled-down credential while a usable
/// one exists; the chosen index is always in bounds.
pub proof fn lemma_select_prefers_usable(pool: KeyPool, now: u64, rand: u64)
    requires
        pool.keys@.len() > 0,
        exists|j: int| 0 <= j < pool.keys@.len() && !pool.keys@[j].spec_limited(now),
    ensures
        pool.spec_select(now, rand) matches Some(i) && 0 <= i < pool.keys@.len()
            && !pool.keys@[i].spec_limited(now),
{
    let keys = pool.keys@;
    let len = keys.len() as int;
    let j = choose|j: int| 0 <= j < len && !keys[j].spec_limited(now);
    match pool.strategy {
        RotationStrategy::RoundRobin => {
            let c0 = (pool.current_index as int) % len;
            vstd::arithmetic::div_mod::lemma_mod_pos_bound(pool.current_index as int, len);
            match rr_search(keys, c0, now, 0) {
                Some(i) => {
                    lemma_rr_some_usable(keys, c0, now, 0);
                }
                None => {
                    lemma_rr_none_all_limited(keys, c0, now, 0);
                    lemma_mod_coverage(c0, j, len);
                    let b = choose|b: int| 0 <= b < len && #[trigger] ((c0 + b) % len) == j;
                    assert(keys[(c0 + b) % len].spec_limited(now));
                    assert(false);
                }
            }
        }
        RotationStrategy::LeastRecentlyUsed => {
            lemma_lru_props(keys, now, len);
            match lru_upto(keys, now, len) {
                Some(b) => {}
                None => {
                    assert(keys[j].spec_limited(now));
                    assert(false);
                }
            }
        }
        RotationStrategy::Random => {
            lemma_usable_props(keys, now, len);
            let us = usable_upto(keys, now, len);
            if us.len() == 0 {
                assert(keys[j].spec_limited(now));
                assert(false);
            } else {
                vstd::arithmetic::div_mod::lemma_mod_pos_bound(rand as int, us.len() as int);
                assert(0 <= (rand as int) % (us.len() as int) < us.len());
            }
        }
    }
}

/// Law: when every credential in a non-empty pool is cooled down,
/// selection still returns a credential — the one whose cooldown
/// expires soonest — never nothing.
pub proof fn lemma_all_cooled_down_selects_soonest(pool: KeyPool, now: u64, rand: u64)
    requires
        pool.keys@.len() > 0,
        forall|j: int| 0 <= j < pool.keys@.len() ==> pool.keys@[j].spec_limited(now),
    ensures
        pool.spec_select(now, rand) == Some(soonest_idx(pool.keys@, now)),
        0 <= soonest_idx(pool.keys@, now) < pool.keys@.len(),
        forall|j: int|
            0 <= j < pool.keys@.len() ==> rem0(pool.keys@[soonest_idx(pool.keys@, now)], now)
                <= rem0(#[trigger] pool.keys@[j], now),
{
    let keys = pool.keys@;
    let len = keys.len() as int;
    lemma_first_min_props(keys, now, len);
    match pool.strategy {
        RotationStrategy::RoundRobin => {
            let c0 = (pool.current_index as int) % len;
            vstd::arithmetic::div_mod::lemma_mod_pos_bound(pool.current_index as int, len);
            match rr_search(keys, c0, now, 0) {
                Some(i) => {
                    lemma_rr_some_usable(keys, c0, now, 0);
                    assert(false);
                }
                None => {}
            }
        }
        RotationStrategy::LeastRecentlyUsed => {
            lemma_lru_props(keys, now, len);
            match lru_upto(keys, now, len) {
                Some(b) => {
                    assert(false);
                }
                None => {}
            }
        }
        RotationStrategy::Random => {
            lemma_usable_props(keys, now, len);
            let us = usable_upto(keys, now, len);
            if us.len() > 0 {
                let i = us[(rand as int) % (us.len() as int)];
                vstd::arithmetic::div_mod::lemma_mod_pos_bound(rand as int, us.len() as int);
                assert(!keys[i].spec_limited(now));
                assert(false);
            }
        }
    }
}

/// Statistics about a key pool.
#[derive(Debug, Clone, PartialEq, Eq, Structural)]
pub struct KeyPoolStats {
    /// Number of keys in the pool.
    pub total_keys: usize,

    /// Keys currently usable.
    pub available_keys: usize,

    /// Keys currently cooled down.
    pub rate_limited_keys: usize,

    /// Requests recorded across all keys.
    pub total_requests: u64,
}

} // verus!
