//! The key-value store: byte values under string keys, with times to live,
//! memory accounting against a limit, eviction, counters, an optional L1
//! cache in front, and the string commands (APPEND, GETRANGE, ...).
//!
//! Each operation is stated as a transition of the plain state of
//! `kv_model`. The operations that read the clock come in two forms: one
//! that takes the time (`_at`), and one that reads it.

use vstd::prelude::*;
use crate::cache_layer::{CacheLayer, CacheStats, opt_bytes};
use crate::clock::unix_time_secs;
use crate::error::{Result, SynapError};
use crate::kv_model::{
    KVCounters, KVState, Ent, Val, present, pos, lookup, uniq, swap_rm, put_entry, t32, live, expired,
    remaining, entry_size, charge, fits, nonneg, cap32, cache_expiry, get_answer, get_state, delete_state,
    eligible, rank, eligible_count, sampled, is_victim, victim, sample_size, evicted, room, set_ok,
    set_state, state_wf, expiry_secs, live_at, set_opts_answer, set_opts_state, incr_answer, incr_state,
    ttl_answer, rettl, appended, append_state, strlen_counters, getset_answer, getset_state,
    getrange_answer, getrange_counters, range_start, range_end, overwrite, setranged, setrange_state,
    data_charge, group_size, mset_writes, mset_refused, mset_state, mget_state, mget_answer, mdel_state,
    mdel_count, any_live, msetnx_writes, msetnx_state, prefixed, live_pairs, stale_keys, sweep_sample,
    take_out, sweep, cleanup_state, cache_clear,
};
use crate::partition::copy_bytes;
use crate::text::{same_text, owned, parse_i64, decimal_bytes, chars_of, starts_with, has_prefix};
use crate::types::{StoredValue, KVConfig, KVStats, EvictionPolicy};

verus! {

/// When a value written by SET with options expires.
#[derive(Debug, Clone, Copy, PartialEq, Eq, Structural)]
pub enum Expiry {
    /// EX: seconds from now.
    Seconds(u64),
    /// PX: milliseconds from now.
    Milliseconds(u64),
    /// EXAT: a Unix time in seconds.
    UnixSeconds(u64),
    /// PXAT: a Unix time in milliseconds.
    UnixMilliseconds(u64),
}

/// The options of SET.
#[derive(Debug, Clone, Copy, PartialEq, Eq, Structural)]
pub struct SetOptions {
    /// NX: write only when the key is absent.
    pub if_absent: bool,
    /// XX: write only when the key is present.
    pub if_present: bool,
    /// KEEPTTL: keep the expiry of the value replaced.
    pub keep_ttl: bool,
    /// GET: answer the value replaced.
    pub return_old: bool,
}

impl Default for SetOptions {
    fn default() -> (r: Self)
        ensures
            !r.if_absent && !r.if_present && !r.keep_ttl && !r.return_old,
    {
        SetOptions { if_absent: false, if_present: false, keep_ttl: false, return_old: false }
    }
}

/// What SET with options did.
#[derive(Debug, Clone)]
pub struct SetResult {
    /// Whether the value was written.
    pub written: bool,
    /// The value replaced, when asked for.
    pub old_value: Option<Vec<u8>>,
}

/// The plain view of stored entries.
pub open spec fn view_of(s: Seq<(String, StoredValue)>) -> Seq<Ent> {
    s.map_values(|p: (String, StoredValue)| (p.0@, p.1.parts()))
}

fn entry_size_of(key: &str, data_len: usize) -> (r: usize)
    ensures
        r == entry_size(key@, data_len as nat),
{
    let kl = key.len();
    let sz = std::mem::size_of::<StoredValue>();
    if kl > usize::MAX - data_len {
        usize::MAX
    } else {
        let a = kl + data_len;
        if a > usize::MAX - sz {
            usize::MAX
        } else {
            a + sz
        }
    }
}

fn fits_in(current: i64, size: usize, max_mb: usize) -> (r: bool)
    ensures
        r == fits(current, size, max_mb),
{
    (current as i128) + (size as i128) <= (max_mb as i128) * 1048576
}

/// A copy of the bytes of a stored value.
fn copy_bytes_of(v: &StoredValue) -> (r: Vec<u8>)
    ensures
        r@ == v.bytes(),
        r@ == v.parts().0,
{
    match v {
        StoredValue::Persistent(d) => copy_bytes(d),
        StoredValue::Expiring { data, .. } => copy_bytes(data),
    }
}

fn is_candidate(v: &StoredValue, p: EvictionPolicy) -> (r: bool)
    ensures
        r == eligible(v.parts(), p),
{
    match p {
        EvictionPolicy::Ttl => match v {
            StoredValue::Expiring { .. } => true,
            StoredValue::Persistent(_) => false,
        },
        _ => true,
    }
}

fn rank_of(v: &StoredValue, p: EvictionPolicy) -> (r: u64)
    ensures
        r == rank(v.parts(), p),
{
    match v {
        StoredValue::Expiring { expires_at, last_access, .. } => match p {
            EvictionPolicy::Ttl => *expires_at as u64,
            _ => *last_access as u64,
        },
        StoredValue::Persistent(_) => 0,
    }
}

proof fn lemma_count_step(s: Seq<Ent>, p: EvictionPolicy, i: int)
    requires
        0 <= i < s.len(),
    ensures
        eligible_count(s.take(i + 1), p) == eligible_count(s.take(i), p) + if eligible(s[i].1, p) { 1nat } else { 0nat },
{
    assert(s.take(i + 1).drop_last() =~= s.take(i));
    assert(s.take(i + 1).last() == s[i]);
}

proof fn lemma_count_mono(s: Seq<Ent>, p: EvictionPolicy, i: int, j: int)
    requires
        0 <= i <= j <= s.len(),
    ensures
        eligible_count(s.take(i), p) <= eligible_count(s.take(j), p),
    decreases j - i,
{
    if i < j {
        lemma_count_mono(s, p, i, j - 1);
        lemma_count_step(s, p, j - 1);
    }
}

/// The Unix second at which `e` expires, seen at `now`.
fn expiry_at(e: Expiry, now: u64) -> (r: u64)
    ensures
        r == expiry_secs(e, now),
{
    match e {
        Expiry::Seconds(s) => now.wrapping_add(s),
        Expiry::Milliseconds(ms) => now.wrapping_add(ms / 1000),
        Expiry::UnixSeconds(s) => s,
        Expiry::UnixMilliseconds(ms) => ms / 1000,
    }
}

/// A stored value of `data` with expiry and access times `meta`.
fn with_meta(data: Vec<u8>, meta: Option<(u32, u32)>) -> (r: StoredValue)
    ensures
        r.parts() == (data@, meta),
{
    match meta {
        Some((e, a)) => StoredValue::Expiring { data, expires_at: e, last_access: a },
        None => StoredValue::Persistent(data),
    }
}

/// The bytes of a stored value and its expiry and access times.
fn into_parts(v: StoredValue) -> (r: (Vec<u8>, Option<(u32, u32)>))
    ensures
        (r.0@, r.1) == v.parts(),
{
    match v {
        StoredValue::Persistent(d) => (d, None),
        StoredValue::Expiring { data, expires_at, last_access } => (data, Some((expires_at, last_access))),
    }
}

/// `d` followed by `v`.
fn append_bytes(d: &mut Vec<u8>, v: &[u8])
    ensures
        final(d)@ == old(d)@ + v@,
{
    let ghost d0 = d@;
    let mut i: usize = 0;
    while i < v.len()
        invariant
            i <= v@.len(),
            d@ == d0 + v@.take(i as int),
        decreases v@.len() - i,
    {
        d.push(v[i]);
        i = i + 1;
        proof {
            assert(d@ =~= d0 + v@.take(i as int));
        }
    }
    proof {
        assert(v@.take(v@.len() as int) =~= v@);
    }
}

/// The bytes of `d` from `from` up to `to`.
fn sub_bytes(d: &[u8], from: usize, to: usize) -> (r: Vec<u8>)
    requires
        from <= to <= d@.len(),
    ensures
        r@ == d@.subrange(from as int, to as int),
{
    let mut out: Vec<u8> = Vec::new();
    let mut i: usize = from;
    while i < to
        invariant
            from <= i <= to,
            to <= d@.len(),
            out@ == d@.subrange(from as int, i as int),
        decreases to - i,
    {
        out.push(d[i]);
        i = i + 1;
        proof {
            assert(out@ =~= d@.subrange(from as int, i as int));
        }
    }
    out
}

/// `d` with `v` written from `offset`, zero-padded as needed.
fn overwrite_bytes(d: &[u8], offset: usize, v: &[u8]) -> (r: Vec<u8>)
    requires
        offset + v@.len() <= usize::MAX,
    ensures
        r@ == overwrite(d@, offset as nat, v@),
{
    let end = offset + v.len();
    let n = if d.len() < end { end } else { d.len() };
    let mut out: Vec<u8> = Vec::new();
    let mut i: usize = 0;
    while i < n
        invariant
            i <= n,
            end == offset + v@.len(),
            n == (if d@.len() < end { end as int } else { d@.len() as int }),
            out@.len() == i,
            forall|j: int| 0 <= j < i ==> #[trigger] out@[j] == overwrite(d@, offset as nat, v@)[j],
        decreases n - i,
    {
        let b: u8 = if offset <= i && i < end {
            v[i - offset]
        } else if i < d.len() {
            d[i]
        } else {
            0
        };
        out.push(b);
        i = i + 1;
    }
    proof {
        assert(out@ =~= overwrite(d@, offset as nat, v@));
    }
    out
}

/// The plain view of key and value pairs.
pub open spec fn pairs_view(p: Seq<(String, Vec<u8>)>) -> Seq<(Seq<char>, Seq<u8>)> {
    p.map_values(|x: (String, Vec<u8>)| (x.0@, x.1@))
}

/// The plain view of keys.
pub open spec fn keys_view(k: Seq<String>) -> Seq<Seq<char>> {
    k.map_values(|x: String| x@)
}

/// The plain view of optional byte vectors.
pub open spec fn answers_view(v: Seq<Option<Vec<u8>>>) -> Seq<Option<Seq<u8>>> {
    v.map_values(|x: Option<Vec<u8>>| opt_bytes(x))
}

/// The charge a multi-set counts for a replaced value.
fn data_charge_of(len: usize) -> (r: usize)
    ensures
        forall|v: Val| v.0.len() == len ==> r == #[trigger] data_charge(v),
{
    let sz = std::mem::size_of::<StoredValue>();
    if len > usize::MAX - sz { usize::MAX } else { len + sz }
}

proof fn lemma_stale_len(s: Seq<Ent>, now: u64)
    ensures
        stale_keys(s, now).len() <= s.len(),
    decreases s.len(),
{
    if s.len() > 0 {
        lemma_stale_len(s.drop_last(), now);
    }
}

/// The key-value store.
#[derive(Debug)]
pub struct KVStore {
    entries: Vec<(String, StoredValue)>,
    counters: KVCounters,
    config: KVConfig,
    cache: Option<CacheLayer>,
}

impl KVStore {
    /// The state of the store.
    pub closed spec fn state(&self) -> KVState {
        KVState {
            entries: view_of(self.entries@),
            counters: self.counters,
            cache: match self.cache {
                Some(c) => Some(c.state()),
                None => None,
            },
        }
    }

    /// The configuration.
    pub closed spec fn settings(&self) -> KVConfig {
        self.config
    }

    /// The invariant: no key twice, and a well-formed cache.
    pub closed spec fn wf(&self) -> bool {
        &&& uniq(view_of(self.entries@))
        &&& (self.cache matches Some(c) ==> c.wf())
    }

    /// A well-formed store has a well-formed state.
    pub proof fn lemma_wf(&self)
        requires
            self.wf(),
        ensures
            state_wf(self.state()),
    {
    }

    /// An empty store without a cache.
    pub fn new(config: KVConfig) -> (r: Self)
        ensures
            r.wf(),
            r.state() == (KVState { entries: Seq::empty(), counters: KVCounters::zero(), cache: None }),
            r.settings() == config,
    {
        let r = Self::new_with_cache(config, None);
        assert(r.state().entries =~= Seq::<Ent>::empty());
        r
    }

    /// An empty store, with a cache of `cache_size` entries when given.
    pub fn new_with_cache(config: KVConfig, cache_size: Option<usize>) -> (r: Self)
        ensures
            r.wf(),
            r.state().entries.len() == 0,
            r.state().counters == KVCounters::zero(),
            r.settings() == config,
            match cache_size {
                Some(n) => r.state().cache matches Some(c) && c.items.len() == 0
                    && c.counters == CacheStats::default_value() && c.capacity == n,
                None => r.state().cache is None,
            },
    {
        let cache = match cache_size {
            Some(n) => Some(CacheLayer::new(n)),
            None => None,
        };
        let r = KVStore {
            entries: Vec::new(),
            counters: KVCounters { total_keys: 0, total_memory_bytes: 0, gets: 0, sets: 0, dels: 0, hits: 0, misses: 0 },
            config,
            cache,
        };
        assert(view_of(r.entries@) =~= Seq::<Ent>::empty());
        r
    }

    /// The configuration.
    pub fn config(&self) -> (r: &KVConfig)
        ensures
            *r == self.settings(),
    {
        &self.config
    }

    /// The counters as statistics; negative counts read as 0.
    pub fn stats(&self) -> (r: KVStats)
        ensures
            r.total_keys == nonneg(self.state().counters.total_keys),
            r.total_memory_bytes == nonneg(self.state().counters.total_memory_bytes),
            r.gets == self.state().counters.gets && r.sets == self.state().counters.sets,
            r.dels == self.state().counters.dels,
            r.hits == self.state().counters.hits && r.misses == self.state().counters.misses,
    {
        let c = self.counters;
        KVStats {
            total_keys: if c.total_keys < 0 { 0 } else { c.total_keys as usize },
            total_memory_bytes: if c.total_memory_bytes < 0 { 0 } else { c.total_memory_bytes as usize },
            gets: c.gets,
            sets: c.sets,
            dels: c.dels,
            hits: c.hits,
            misses: c.misses,
        }
    }

    /// DBSIZE: the key count as the counters have it.
    pub fn dbsize(&self) -> (r: Result<usize>)
        ensures
            r matches Ok(n) && n == nonneg(self.state().counters.total_keys),
    {
        Ok(if self.counters.total_keys < 0 { 0 } else { self.counters.total_keys as usize })
    }

    // -- entries ------------------------------------------------------------

    /// The position of `key`.
    fn find(&self, key: &str) -> (r: Option<usize>)
        requires
            self.wf(),
        ensures
            match r {
                Some(i) => i < self.entries@.len() && present(self.state().entries, key@)
                    && i == pos(self.state().entries, key@) && self.entries@[i as int].0@ == key@,
                None => !present(self.state().entries, key@),
            },
    {
        let ghost s = view_of(self.entries@);
        let mut i: usize = 0;
        while i < self.entries.len()
            invariant
                s == view_of(self.entries@),
                uniq(s),
                i <= self.entries@.len(),
                forall|j: int| 0 <= j < i ==> (#[trigger] self.entries@[j]).0@ != key@,
            decreases self.entries@.len() - i,
        {
            if same_text(self.entries[i].0.as_str(), key) {
                proof {
                    assert(s[i as int].0 == key@);
                    let w = pos(s, key@);
                    assert(s[w].0 == key@);
                }
                return Some(i);
            }
            i = i + 1;
        }
        proof {
            if present(s, key@) {
                let w = choose|w: int| 0 <= w < s.len() && (#[trigger] s[w]).0 == key@;
                assert(self.entries@[w].0@ == key@);
            }
        }
        None
    }

    /// Put `v` under `key`: in place when the key is there, else at the end.
    fn put(&mut self, key: String, v: StoredValue)
        requires
            old(self).wf(),
        ensures
            final(self).wf(),
            final(self).state() == (KVState { entries: put_entry(old(self).state().entries, key@, v.parts()), ..old(self).state() }),
            final(self).config == old(self).config,
    {
        let ghost s0 = view_of(self.entries@);
        let ghost k = key@;
        let ghost vp = v.parts();
        proof {
            crate::kv_model::lemma_put_entry(s0, k, vp);
        }
        match self.find(key.as_str()) {
            Some(i) => {
                self.entries.set(i, (key, v));
                proof {
                    assert(view_of(self.entries@) =~= s0.update(i as int, (k, vp)));
                }
            },
            None => {
                self.entries.push((key, v));
                proof {
                    assert(view_of(self.entries@) =~= s0.push((k, vp)));
                }
            },
        }
    }

    /// Take the entry at `i` out; the last entry moves into its place.
    fn remove_at(&mut self, i: usize) -> (r: (String, StoredValue))
        requires
            old(self).wf(),
            i < old(self).entries@.len(),
        ensures
            final(self).wf(),
            final(self).state() == (KVState { entries: swap_rm(old(self).state().entries, i as int), ..old(self).state() }),
            r == old(self).entries@[i as int],
            (r.0@, r.1.parts()) == old(self).state().entries[i as int],
            final(self).config == old(self).config,
    {
        let ghost s0 = view_of(self.entries@);
        proof {
            crate::kv_model::lemma_swap_rm(s0, i as int);
        }
        let r = self.entries.swap_remove(i);
        proof {
            assert(view_of(self.entries@) =~= swap_rm(s0, i as int));
        }
        r
    }

    /// Put `v` at position `i`, keeping its key; answers the value there.
    fn replace_at(&mut self, i: usize, v: StoredValue) -> (r: StoredValue)
        requires
            old(self).wf(),
            i < old(self).entries@.len(),
        ensures
            final(self).wf(),
            final(self).state() == (KVState {
                entries: old(self).state().entries.update(i as int, (old(self).state().entries[i as int].0, v.parts())),
                ..old(self).state()
            }),
            r == old(self).entries@[i as int].1,
            final(self).entries@[i as int].0 == old(self).entries@[i as int].0,
            final(self).entries@.len() == old(self).entries@.len(),
            final(self).config == old(self).config,
    {
        let ghost s0 = view_of(self.entries@);
        let k = self.entries[i].0.clone();
        let mut pair = (k, v);
        self.entries.set_and_swap(i, &mut pair);
        let (_k, old_v) = pair;
        proof {
            let t = view_of(self.entries@);
            assert(t =~= s0.update(i as int, (s0[i as int].0, v.parts())));
            assert forall|a: int, b: int| 0 <= a < t.len() && 0 <= b < t.len() && a != b
                implies (#[trigger] t[a]).0 != (#[trigger] t[b]).0 by {
                assert(t[a].0 == s0[a].0 && t[b].0 == s0[b].0);
            }
        }
        old_v
    }

    // -- the cache ----------------------------------------------------------

    fn cache_get_at(&mut self, key: &str, now: u64) -> (r: Option<Vec<u8>>)
        requires
            old(self).wf(),
        ensures
            final(self).wf(),
            final(self).state() == (KVState {
                cache: crate::kv_model::cache_got(old(self).state().cache, key@, now),
                ..old(self).state()
            }),
            opt_bytes(r) == crate::kv_model::cache_hit(old(self).state().cache, key@, now),
            final(self).config == old(self).config,
    {
        match self.cache.take() {
            Some(mut c) => {
                let r = c.get_at(key, now);
                self.cache = Some(c);
                r
            },
            None => None,
        }
    }

    fn cache_put_at(&mut self, key: String, value: Vec<u8>, ttl: Option<u64>, now: u64)
        requires
            old(self).wf(),
        ensures
            final(self).wf(),
            final(self).state() == (KVState {
                cache: crate::kv_model::cache_put(old(self).state().cache, key@, value@, ttl, now),
                ..old(self).state()
            }),
            final(self).config == old(self).config,
    {
        match self.cache.take() {
            Some(mut c) => {
                c.put_at(key, value, ttl, now);
                self.cache = Some(c);
            },
            None => {},
        }
    }

    fn cache_delete(&mut self, key: &str)
        requires
            old(self).wf(),
        ensures
            final(self).wf(),
            final(self).state() == (KVState {
                cache: crate::kv_model::cache_del(old(self).state().cache, key@),
                ..old(self).state()
            }),
            final(self).config == old(self).config,
    {
        match self.cache.take() {
            Some(mut c) => {
                c.delete(key);
                self.cache = Some(c);
            },
            None => {},
        }
    }

    fn cache_clear_all(&mut self)
        requires
            old(self).wf(),
        ensures
            final(self).wf(),
            final(self).state() == (KVState {
                cache: crate::kv_model::cache_clear(old(self).state().cache),
                ..old(self).state()
            }),
            final(self).config == old(self).config,
    {
        match self.cache.take() {
            Some(mut c) => {
                c.invalidate_all();
                self.cache = Some(c);
            },
            None => {},
        }
    }

    // -- GET, DELETE, EXISTS ------------------------------------------------

    /// GET at time `now` (see `kv_model::get_state`).
    pub fn get_at(&mut self, key: &str, now: u64) -> (r: Result<Option<Vec<u8>>>)
        requires
            old(self).wf(),
        ensures
            final(self).wf(),
            final(self).settings() == old(self).settings(),
            final(self).state() == get_state(old(self).state(), key@, now),
            r matches Ok(v) && opt_bytes(v) == get_answer(old(self).state(), key@, now),
    {
        let ghost st0 = self.state();
        let cached = self.cache_get_at(key, now);
        if let Some(v) = cached {
            self.counters.gets = self.counters.gets.wrapping_add(1);
            self.counters.hits = self.counters.hits.wrapping_add(1);
            return Ok(Some(v));
        }
        self.counters.gets = self.counters.gets.wrapping_add(1);
        match self.find(key) {
            None => {
                self.counters.misses = self.counters.misses.wrapping_add(1);
                Ok(None)
            },
            Some(i) => {
                let t = now as u32;
                if !self.entries[i].1.is_expired_at(t) {
                    let mut v = self.replace_at(i, StoredValue::Persistent(Vec::new()));
                    v.update_access_at(t);
                    let d = copy_bytes_of(&v);
                    let ttl = v.remaining_ttl_secs_at(t);
                    let _placeholder = self.replace_at(i, v);
                    self.counters.hits = self.counters.hits.wrapping_add(1);
                    let k = self.entries[i].0.clone();
                    let d2 = copy_bytes(&d);
                    self.cache_put_at(k, d2, ttl, now);
                    proof {
                        assert(self.state().entries =~= get_state(st0, key@, now).entries);
                    }
                    Ok(Some(d))
                } else {
                    let (_k, gone) = self.remove_at(i);
                    let size = entry_size_of(key, gone.data().len());
                    self.counters.total_keys = self.counters.total_keys.wrapping_sub(1);
                    self.counters.total_memory_bytes = self.counters.total_memory_bytes.wrapping_sub(size as i64);
                    self.counters.misses = self.counters.misses.wrapping_add(1);
                    Ok(None)
                }
            },
        }
    }

    /// GET now.
    pub fn get(&mut self, key: &str) -> (r: Result<Option<Vec<u8>>>)
        requires
            old(self).wf(),
        ensures
            final(self).wf(),
            final(self).settings() == old(self).settings(),
            exists|now: u64| final(self).state() == #[trigger] get_state(old(self).state(), key@, now)
                && (r matches Ok(v) && opt_bytes(v) == get_answer(old(self).state(), key@, now)),
    {
        let now = unix_time_secs();
        self.get_at(key, now)
    }

    /// DELETE: drop `key` from the cache and the store; answers whether the
    /// store had it.
    pub fn delete(&mut self, key: &str) -> (r: Result<bool>)
        requires
            old(self).wf(),
        ensures
            final(self).wf(),
            final(self).settings() == old(self).settings(),
            final(self).state() == delete_state(old(self).state(), key@),
            r matches Ok(b) && b == present(old(self).state().entries, key@),
    {
        self.cache_delete(key);
        match self.find(key) {
            Some(i) => {
                let (_k, gone) = self.remove_at(i);
                let size = entry_size_of(key, gone.data().len());
                self.counters.dels = self.counters.dels.wrapping_add(1);
                self.counters.total_keys = self.counters.total_keys.wrapping_sub(1);
                self.counters.total_memory_bytes = self.counters.total_memory_bytes.wrapping_sub(size as i64);
                Ok(true)
            },
            None => Ok(false),
        }
    }

    /// EXISTS at time `now`: whether `key` holds a live value.
    pub fn key_exists_at(&self, key: &str, now: u64) -> (r: Result<bool>)
        requires
            self.wf(),
        ensures
            r matches Ok(b) && b == (present(self.state().entries, key@)
                && live(lookup(self.state().entries, key@), now)),
    {
        match self.find(key) {
            Some(i) => Ok(!self.entries[i].1.is_expired_at(now as u32)),
            None => Ok(false),
        }
    }

    /// EXISTS now.
    pub fn key_exists(&self, key: &str) -> (r: Result<bool>)
        requires
            self.wf(),
        ensures
            r matches Ok(b) && (b ==> present(self.state().entries, key@)),
            present(self.state().entries, key@) && lookup(self.state().entries, key@).1 is None
                ==> r matches Ok(true),
    {
        let now = unix_time_secs();
        self.key_exists_at(key, now)
    }

    // -- eviction -----------------------------------------------------------

    /// The entry to evict under policy `p` among the first `n` eligible.
    fn find_victim(&self, p: EvictionPolicy, n: usize) -> (r: Option<usize>)
        requires
            self.wf(),
            n >= 1,
        ensures
            match r {
                Some(j) => j < self.entries@.len() && victim(self.state().entries, p, n as nat) == Some(j as int),
                None => victim(self.state().entries, p, n as nat) is None,
            },
    {
        let ghost s = view_of(self.entries@);
        let len = self.entries.len();
        let mut i: usize = 0;
        let mut taken: usize = 0;
        let mut best: Option<(usize, u64)> = None;
        proof {
            assert(s.take(0) =~= Seq::<Ent>::empty());
        }
        while i < len && taken < n
            invariant
                s == view_of(self.entries@),
                len == s.len(),
                i <= len,
                taken <= n,
                taken == eligible_count(s.take(i as int), p),
                match best {
                    Some((b, sc)) => b < i && sampled(s, p, n as nat, b as int) && sc == rank(s[b as int].1, p)
                        && forall|q: int| 0 <= q < i && #[trigger] sampled(s, p, n as nat, q)
                            ==> sc < rank(s[q].1, p) || (sc == rank(s[q].1, p) && b <= q),
                    None => forall|q: int| 0 <= q < i ==> !#[trigger] sampled(s, p, n as nat, q),
                },
            decreases len - i,
        {
            proof {
                lemma_count_step(s, p, i as int);
            }
            let v = &self.entries[i].1;
            if is_candidate(v, p) {
                let sc = rank_of(v, p);
                match best {
                    None => {
                        best = Some((i, sc));
                    },
                    Some((_b, bs)) => {
                        if sc < bs {
                            best = Some((i, sc));
                        }
                    },
                }
                taken = taken + 1;
            }
            i = i + 1;
        }
        proof {
            assert forall|q: int| i <= q && #[trigger] sampled(s, p, n as nat, q) implies false by {
                lemma_count_mono(s, p, i as int, q);
            }
        }
        match best {
            Some((b, _)) => {
                proof {
                    assert(is_victim(s, p, n as nat, b as int));
                    let c = choose|j: int| is_victim(s, p, n as nat, j);
                    assert(is_victim(s, p, n as nat, c));
                    assert(sampled(s, p, n as nat, c));
                    assert(c == b);
                }
                Some(b)
            },
            None => {
                proof {
                    if exists|j: int| is_victim(s, p, n as nat, j) {
                        let c = choose|j: int| is_victim(s, p, n as nat, j);
                        assert(sampled(s, p, n as nat, c));
                    }
                }
                None
            },
        }
    }

    /// Evict entries until `needed` more bytes fit or nothing is left to
    /// evict (see `kv_model::evicted`).
    fn evict_until_free(&mut self, needed: usize)
        requires
            old(self).wf(),
        ensures
            final(self).wf(),
            final(self).state() == evicted(old(self).state(), old(self).settings(), needed),
            final(self).config == old(self).config,
    {
        let ghost goal = evicted(self.state(), self.config, needed);
        let p = self.config.eviction_policy;
        let n: usize = if self.config.eviction_sample_size < 1 { 1 } else { self.config.eviction_sample_size };
        let max_mb = self.config.max_memory_mb;
        loop
            invariant
                self.wf(),
                self.config == old(self).config,
                p == self.config.eviction_policy,
                n as nat == sample_size(self.config),
                max_mb == self.config.max_memory_mb,
                evicted(self.state(), self.config, needed) == goal,
            ensures
                self.wf(),
                self.config == old(self).config,
                self.state() == goal,
            decreases self.entries@.len(),
        {
            if fits_in(self.counters.total_memory_bytes, needed, max_mb) || p == EvictionPolicy::NoEviction {
                break;
            }
            match self.find_victim(p, n) {
                None => {
                    break;
                },
                Some(j) => {
                    let ghost before = self.state();
                    let (k, v) = self.remove_at(j);
                    let size = entry_size_of(k.as_str(), v.data().len());
                    self.counters.total_keys = self.counters.total_keys.wrapping_sub(1);
                    self.counters.total_memory_bytes = self.counters.total_memory_bytes.wrapping_sub(size as i64);
                    proof {
                        assert(self.state().entries == swap_rm(before.entries, j as int));
                    }
                },
            }
        }
    }

    // -- SET ----------------------------------------------------------------

    /// Make room for `size` bytes (see `kv_model::room`); answers whether
    /// they fit then.
    fn make_room(&mut self, size: usize) -> (ok: bool)
        requires
            old(self).wf(),
        ensures
            final(self).wf(),
            final(self).config == old(self).config,
            final(self).state() == room(old(self).state(), old(self).config, size),
            ok == fits(final(self).state().counters.total_memory_bytes, size, old(self).config.max_memory_mb),
    {
        let ghost st0 = self.state();
        let max_mb = self.config.max_memory_mb;
        if !fits_in(self.counters.total_memory_bytes, size, max_mb) {
            if self.config.eviction_policy == EvictionPolicy::NoEviction {
                proof {
                    assert(evicted(st0, self.config, size) == st0);
                }
                return false;
            }
            self.evict_until_free(size);
            return fits_in(self.counters.total_memory_bytes, size, max_mb);
        }
        true
    }

    /// SET at time `now`: put `value` under `key`, with a time to live of
    /// `ttl_secs` when given (see `kv_model::set_state`). When the entry
    /// does not fit under the memory limit, eviction makes room unless the
    /// policy forbids it; a write that still does not fit is refused.
    pub fn set_at(&mut self, key: String, value: Vec<u8>, ttl_secs: Option<u64>, now: u64) -> (r: Result<()>)
        requires
            old(self).wf(),
        ensures
            final(self).wf(),
            final(self).settings() == old(self).settings(),
            final(self).state() == set_state(old(self).state(), old(self).settings(), key@, value@, ttl_secs, now),
            set_ok(old(self).state(), old(self).settings(), key@, value@) <==> r is Ok,
            r is Err ==> r matches Err(SynapError::MemoryLimitExceeded),
    {
        let stored = StoredValue::new_at(copy_bytes(&value), ttl_secs, now as u32);
        let size = entry_size_of(key.as_str(), value.len());
        if !self.make_room(size) {
            return Err(SynapError::MemoryLimitExceeded);
        }
        let old_size: Option<usize> = match self.find(key.as_str()) {
            Some(i) => Some(entry_size_of(key.as_str(), self.entries[i].1.data().len())),
            None => None,
        };
        let cache_key: Option<String> = if self.cache.is_some() { Some(key.clone()) } else { None };
        self.put(key, stored);
        self.counters.sets = self.counters.sets.wrapping_add(1);
        match old_size {
            None => {
                self.counters.total_keys = self.counters.total_keys.wrapping_add(1);
                self.counters.total_memory_bytes = self.counters.total_memory_bytes.wrapping_add(size as i64);
            },
            Some(os) => {
                self.counters.total_memory_bytes =
                    self.counters.total_memory_bytes.wrapping_add((size as i64).wrapping_sub(os as i64));
            },
        }
        if let Some(k) = cache_key {
            let cache_ttl: Option<u64> = match ttl_secs {
                Some(secs) => Some(now.wrapping_add(secs)),
                None => None,
            };
            self.cache_put_at(k, value, cache_ttl, now);
        }
        Ok(())
    }

    /// SET now.
    pub fn set(&mut self, key: String, value: Vec<u8>, ttl_secs: Option<u64>) -> (r: Result<()>)
        requires
            old(self).wf(),
        ensures
            final(self).wf(),
            final(self).settings() == old(self).settings(),
            exists|now: u64| final(self).state() == #[trigger] set_state(old(self).state(), old(self).settings(), key@, value@, ttl_secs, now),
            set_ok(old(self).state(), old(self).settings(), key@, value@) <==> r is Ok,
    {
        let now = unix_time_secs();
        self.set_at(key, value, ttl_secs, now)
    }

    /// SET with options at time `now` (see `kv_model::set_opts_state`).
    /// Times are kept in whole seconds: a millisecond expiry is rounded
    /// down to its second.
    pub fn set_with_opts_at(&mut self, key: &str, value: Vec<u8>, expiry: Option<Expiry>, opts: SetOptions, now: u64) -> (r: Result<SetResult>)
        requires
            old(self).wf(),
        ensures
            final(self).wf(),
            final(self).settings() == old(self).settings(),
            final(self).state() == set_opts_state(old(self).state(), old(self).settings(), key@, value@, expiry, opts, now),
            match set_opts_answer(old(self).state(), old(self).settings(), key@, value@, opts, now) {
                None => r matches Err(SynapError::MemoryLimitExceeded),
                Some((w, o)) => r matches Ok(res) && res.written == w && opt_bytes(res.old_value) == o,
            },
    {
        let size = entry_size_of(key, value.len());
        if !self.make_room(size) {
            return Err(SynapError::MemoryLimitExceeded);
        }
        let ghost st1 = self.state();
        let t = now as u32;
        let found = self.find(key);
        let (key_live, old_bytes, old_meta, old_charge): (bool, Option<Vec<u8>>, Option<(u32, u32)>, usize) = match found {
            Some(i) => {
                let v = &self.entries[i].1;
                if v.is_expired_at(t) {
                    (false, None, None, 0)
                } else {
                    let m: Option<(u32, u32)> = match v {
                        StoredValue::Expiring { expires_at, .. } => Some((*expires_at, t)),
                        StoredValue::Persistent(_) => None,
                    };
                    (true, Some(copy_bytes_of(v)), m, entry_size_of(key, v.data().len()))
                }
            },
            None => (false, None, None, 0),
        };
        if opts.if_absent && key_live {
            let old_value = if opts.return_old { old_bytes } else { None };
            return Ok(SetResult { written: false, old_value });
        }
        if opts.if_present && !key_live {
            return Ok(SetResult { written: false, old_value: None });
        }
        let old_value = if opts.return_old && key_live { old_bytes } else { None };
        let meta: Option<(u32, u32)> = if opts.keep_ttl {
            if key_live { old_meta } else { None }
        } else {
            match expiry {
                Some(e) => {
                    let a = expiry_at(e, now);
                    Some((if a > 4294967295u64 { 4294967295u32 } else { a as u32 }, t))
                },
                None => None,
            }
        };
        let stored = with_meta(copy_bytes(&value), meta);
        self.put(owned(key), stored);
        self.counters.sets = self.counters.sets.wrapping_add(1);
        if key_live {
            self.counters.total_memory_bytes =
                self.counters.total_memory_bytes.wrapping_add((size as i64).wrapping_sub(old_charge as i64));
        } else {
            self.counters.total_keys = self.counters.total_keys.wrapping_add(1);
            self.counters.total_memory_bytes = self.counters.total_memory_bytes.wrapping_add(size as i64);
        }
        if self.cache.is_some() {
            let cache_ttl: Option<u64> = match expiry {
                Some(e) => Some(expiry_at(e, now)),
                None => None,
            };
            self.cache_put_at(owned(key), value, cache_ttl, now);
        }
        Ok(SetResult { written: true, old_value })
    }

    /// SET with options now.
    pub fn set_with_opts(&mut self, key: &str, value: Vec<u8>, expiry: Option<Expiry>, opts: SetOptions) -> (r: Result<SetResult>)
        requires
            old(self).wf(),
        ensures
            final(self).wf(),
            final(self).settings() == old(self).settings(),
            exists|now: u64| final(self).state() == #[trigger] set_opts_state(old(self).state(), old(self).settings(), key@, value@, expiry, opts, now)
                && match set_opts_answer(old(self).state(), old(self).settings(), key@, value@, opts, now) {
                    None => r matches Err(SynapError::MemoryLimitExceeded),
                    Some((w, o)) => r matches Ok(res) && res.written == w && opt_bytes(res.old_value) == o,
                },
    {
        let now = unix_time_secs();
        self.set_with_opts_at(key, value, expiry, opts, now)
    }

    // -- INCR, DECR ---------------------------------------------------------

    /// INCR by `amount` at time `now` (see `kv_model::incr_state`): the live
    /// value must be the decimal text of an `i64`; the time to live is kept.
    pub fn incr_at(&mut self, key: &str, amount: i64, now: u64) -> (r: Result<i64>)
        requires
            old(self).wf(),
        ensures
            final(self).wf(),
            final(self).settings() == old(self).settings(),
            final(self).state() == incr_state(old(self).state(), key@, amount, now),
            match incr_answer(old(self).state(), key@, amount, now) {
                Some(n) => r == Ok::<i64, SynapError>(n),
                None => r matches Err(SynapError::InvalidValue(_)),
            },
    {
        let t = now as u32;
        let mut cur: i64 = 0;
        let mut ttl: Option<u64> = None;
        match self.find(key) {
            Some(i) => {
                if !self.entries[i].1.is_expired_at(t) {
                    match parse_i64(self.entries[i].1.data()) {
                        Some(x) => {
                            cur = x;
                            ttl = self.entries[i].1.remaining_ttl_secs_at(t);
                        },
                        None => {
                            return Err(SynapError::InvalidValue(owned("Value is not a valid integer")));
                        },
                    }
                }
            },
            None => {},
        }
        let n = match cur.checked_add(amount) {
            Some(n) => n,
            None => {
                return Err(SynapError::InvalidValue(owned("Integer overflow on INCR/DECR")));
            },
        };
        let data = decimal_bytes(n);
        self.put(owned(key), StoredValue::new_at(data, ttl, t));
        self.counters.sets = self.counters.sets.wrapping_add(1);
        Ok(n)
    }

    /// INCR now.
    pub fn incr(&mut self, key: &str, amount: i64) -> (r: Result<i64>)
        requires
            old(self).wf(),
        ensures
            final(self).wf(),
            exists|now: u64| final(self).state() == #[trigger] incr_state(old(self).state(), key@, amount, now)
                && match incr_answer(old(self).state(), key@, amount, now) {
                    Some(n) => r == Ok::<i64, SynapError>(n),
                    None => r matches Err(SynapError::InvalidValue(_)),
                },
    {
        let now = unix_time_secs();
        self.incr_at(key, amount, now)
    }

    /// DECR by `amount` at time `now`: INCR by `-amount`.
    pub fn decr_at(&mut self, key: &str, amount: i64, now: u64) -> (r: Result<i64>)
        requires
            old(self).wf(),
            amount != i64::MIN,
        ensures
            final(self).wf(),
            final(self).state() == incr_state(old(self).state(), key@, -amount as i64, now),
            match incr_answer(old(self).state(), key@, -amount as i64, now) {
                Some(n) => r == Ok::<i64, SynapError>(n),
                None => r matches Err(SynapError::InvalidValue(_)),
            },
    {
        self.incr_at(key, -amount, now)
    }

    /// DECR now.
    pub fn decr(&mut self, key: &str, amount: i64) -> (r: Result<i64>)
        requires
            old(self).wf(),
            amount != i64::MIN,
        ensures
            final(self).wf(),
            exists|now: u64| final(self).state() == #[trigger] incr_state(old(self).state(), key@, -amount as i64, now)
                && match incr_answer(old(self).state(), key@, -amount as i64, now) {
                    Some(n) => r == Ok::<i64, SynapError>(n),
                    None => r matches Err(SynapError::InvalidValue(_)),
                },
    {
        let now = unix_time_secs();
        self.decr_at(key, amount, now)
    }

    // -- TTL, EXPIRE, PERSIST -----------------------------------------------

    /// TTL at time `now`: the seconds left (none without an expiry, 0 once
    /// expired); an error for an absent key.
    pub fn ttl_at(&self, key: &str, now: u64) -> (r: Result<Option<u64>>)
        requires
            self.wf(),
        ensures
            present(self.state().entries, key@) ==> r == Ok::<Option<u64>, SynapError>(ttl_answer(self.state().entries, key@, now)),
            !present(self.state().entries, key@) ==> (r matches Err(SynapError::KeyNotFound(m)) && m@ == key@),
    {
        match self.find(key) {
            Some(i) => {
                let t = now as u32;
                let v = &self.entries[i].1;
                if v.is_expired_at(t) {
                    Ok(Some(0))
                } else {
                    Ok(v.remaining_ttl_secs_at(t))
                }
            },
            None => Err(SynapError::KeyNotFound(owned(key))),
        }
    }

    /// TTL now.
    pub fn ttl(&self, key: &str) -> (r: Result<Option<u64>>)
        requires
            self.wf(),
        ensures
            present(self.state().entries, key@) ==> r is Ok,
            !present(self.state().entries, key@) ==> (r matches Err(SynapError::KeyNotFound(m)) && m@ == key@),
            exists|now: u64| present(self.state().entries, key@)
                ==> r == Ok::<Option<u64>, SynapError>(#[trigger] ttl_answer(self.state().entries, key@, now)),
    {
        let now = unix_time_secs();
        self.ttl_at(key, now)
    }

    /// Write the value of `key` back with time to live `ttl`; answers
    /// whether the key was there.
    fn rewrite_ttl(&mut self, key: &str, ttl: Option<u64>, now: u64) -> (r: bool)
        requires
            old(self).wf(),
        ensures
            final(self).wf(),
            final(self).config == old(self).config,
            r == present(old(self).state().entries, key@),
            r ==> final(self).state() == (KVState { entries: rettl(old(self).state().entries, key@, ttl, now), ..old(self).state() }),
            !r ==> final(self).state() == old(self).state(),
    {
        let ghost s0 = self.state().entries;
        match self.find(key) {
            Some(i) => {
                proof {
                    crate::kv_model::lemma_swap_rm(s0, i as int);
                }
                let (k, v) = self.remove_at(i);
                let (d, _meta) = into_parts(v);
                self.put(k, StoredValue::new_at(d, ttl, now as u32));
                true
            },
            None => false,
        }
    }

    /// EXPIRE at time `now`: give `key` a time to live of `ttl_secs`.
    pub fn expire_at(&mut self, key: &str, ttl_secs: u64, now: u64) -> (r: Result<bool>)
        requires
            old(self).wf(),
        ensures
            final(self).wf(),
            r == Ok::<bool, SynapError>(present(old(self).state().entries, key@)),
            present(old(self).state().entries, key@) ==> final(self).state()
                == (KVState { entries: rettl(old(self).state().entries, key@, Some(ttl_secs), now), ..old(self).state() }),
            !present(old(self).state().entries, key@) ==> final(self).state() == old(self).state(),
    {
        Ok(self.rewrite_ttl(key, Some(ttl_secs), now))
    }

    /// EXPIRE now.
    pub fn expire(&mut self, key: &str, ttl_secs: u64) -> (r: Result<bool>)
        requires
            old(self).wf(),
        ensures
            final(self).wf(),
            r == Ok::<bool, SynapError>(present(old(self).state().entries, key@)),
    {
        let now = unix_time_secs();
        self.expire_at(key, ttl_secs, now)
    }

    /// PERSIST at time `now`: take the time to live of `key` away.
    pub fn persist_at(&mut self, key: &str, now: u64) -> (r: Result<bool>)
        requires
            old(self).wf(),
        ensures
            final(self).wf(),
            r == Ok::<bool, SynapError>(present(old(self).state().entries, key@)),
            present(old(self).state().entries, key@) ==> final(self).state()
                == (KVState { entries: rettl(old(self).state().entries, key@, None, now), ..old(self).state() }),
            !present(old(self).state().entries, key@) ==> final(self).state() == old(self).state(),
    {
        Ok(self.rewrite_ttl(key, None, now))
    }

    /// PERSIST now.
    pub fn persist(&mut self, key: &str) -> (r: Result<bool>)
        requires
            old(self).wf(),
        ensures
            final(self).wf(),
            r == Ok::<bool, SynapError>(present(old(self).state().entries, key@)),
            present(old(self).state().entries, key@) ==> final(self).state().entries
                == rettl(old(self).state().entries, key@, None, 0),
    {
        let now = unix_time_secs();
        self.persist_at(key, now)
    }

    // -- string commands ----------------------------------------------------

    /// APPEND at time `now` (see `kv_model::append_state`); answers the new
    /// length.
    pub fn append_at(&mut self, key: &str, value: Vec<u8>, now: u64) -> (r: Result<usize>)
        requires
            old(self).wf(),
        ensures
            final(self).wf(),
            final(self).state() == append_state(old(self).state(), key@, value@, now),
            r matches Ok(n) && n == appended(old(self).state().entries, key@, value@, now).0.len(),
    {
        let t = now as u32;
        let ghost s0 = self.state().entries;
        let n = match self.find(key) {
            Some(i) => {
                if self.entries[i].1.is_expired_at(t) {
                    let n = value.len();
                    let _gone = self.replace_at(i, StoredValue::Persistent(copy_bytes(&value)));
                    n
                } else {
                    let mut v = self.replace_at(i, StoredValue::Persistent(Vec::new()));
                    v.update_access_at(t);
                    let (mut d, meta) = into_parts(v);
                    append_bytes(&mut d, value.as_slice());
                    let n = d.len();
                    let _placeholder = self.replace_at(i, with_meta(d, meta));
                    n
                }
            },
            None => {
                let n = value.len();
                self.put(owned(key), StoredValue::Persistent(copy_bytes(&value)));
                n
            },
        };
        proof {
            assert(self.state().entries =~= put_entry(s0, key@, appended(s0, key@, value@, now)));
        }
        self.counters.sets = self.counters.sets.wrapping_add(1);
        self.cache_delete(key);
        Ok(n)
    }

    /// APPEND now.
    pub fn append(&mut self, key: &str, value: Vec<u8>) -> (r: Result<usize>)
        requires
            old(self).wf(),
        ensures
            final(self).wf(),
            exists|now: u64| final(self).state() == #[trigger] append_state(old(self).state(), key@, value@, now)
                && (r matches Ok(n) && n == appended(old(self).state().entries, key@, value@, now).0.len()),
    {
        let now = unix_time_secs();
        self.append_at(key, value, now)
    }

    /// GETRANGE at time `now`: the bytes from `start` to `end`, both
    /// included, negative bounds counted from the end.
    pub fn getrange_at(&mut self, key: &str, start: isize, end: isize, now: u64) -> (r: Result<Vec<u8>>)
        requires
            old(self).wf(),
        ensures
            final(self).wf(),
            final(self).state() == (KVState {
                counters: getrange_counters(old(self).state(), key@, start as int, end as int, now),
                ..old(self).state()
            }),
            r matches Ok(v) && v@ == getrange_answer(old(self).state().entries, key@, start as int, end as int, now),
    {
        match self.find(key) {
            None => {
                self.counters.gets = self.counters.gets.wrapping_add(1);
                self.counters.misses = self.counters.misses.wrapping_add(1);
                Ok(Vec::new())
            },
            Some(i) => {
                if self.entries[i].1.is_expired_at(now as u32) {
                    return Ok(Vec::new());
                }
                let len = self.entries[i].1.data().len();
                let ln = len as i128;
                let st = start as i128;
                let en = end as i128;
                let s_idx: i128 = if st < 0 {
                    if ln + st < 0 { 0 } else { ln + st }
                } else if st < ln {
                    st
                } else {
                    ln
                };
                let e_idx: i128 = if en < 0 {
                    if ln + en + 1 < 0 { 0 } else { ln + en + 1 }
                } else if en + 1 < ln {
                    en + 1
                } else {
                    ln
                };
                if s_idx >= e_idx || s_idx >= ln {
                    return Ok(Vec::new());
                }
                self.counters.gets = self.counters.gets.wrapping_add(1);
                self.counters.hits = self.counters.hits.wrapping_add(1);
                Ok(sub_bytes(self.entries[i].1.data(), s_idx as usize, e_idx as usize))
            },
        }
    }

    /// GETRANGE now.
    pub fn getrange(&mut self, key: &str, start: isize, end: isize) -> (r: Result<Vec<u8>>)
        requires
            old(self).wf(),
        ensures
            final(self).wf(),
            exists|now: u64| (r matches Ok(v) && v@ == #[trigger] getrange_answer(old(self).state().entries, key@, start as int, end as int, now)),
    {
        let now = unix_time_secs();
        self.getrange_at(key, start, end, now)
    }

    /// SETRANGE at time `now` (see `kv_model::setrange_state`); answers the
    /// new length.
    pub fn setrange_at(&mut self, key: &str, offset: usize, value: Vec<u8>, now: u64) -> (r: Result<usize>)
        requires
            old(self).wf(),
            offset + value@.len() <= usize::MAX,
        ensures
            final(self).wf(),
            final(self).state() == setrange_state(old(self).state(), key@, offset as nat, value@, now),
            r matches Ok(n) && n == setranged(old(self).state().entries, key@, offset as nat, value@, now).0.len(),
    {
        let t = now as u32;
        let ghost s0 = self.state().entries;
        let empty: Vec<u8> = Vec::new();
        let n = match self.find(key) {
            Some(i) => {
                if self.entries[i].1.is_expired_at(t) {
                    let d = overwrite_bytes(empty.as_slice(), offset, value.as_slice());
                    let n = d.len();
                    let _gone = self.replace_at(i, StoredValue::Persistent(d));
                    n
                } else {
                    let mut v = self.replace_at(i, StoredValue::Persistent(Vec::new()));
                    v.update_access_at(t);
                    let (d0, meta) = into_parts(v);
                    let d = overwrite_bytes(d0.as_slice(), offset, value.as_slice());
                    let n = d.len();
                    let _placeholder = self.replace_at(i, with_meta(d, meta));
                    n
                }
            },
            None => {
                let d = overwrite_bytes(empty.as_slice(), offset, value.as_slice());
                let n = d.len();
                self.put(owned(key), StoredValue::Persistent(d));
                n
            },
        };
        proof {
            assert(self.state().entries =~= put_entry(s0, key@, setranged(s0, key@, offset as nat, value@, now)));
        }
        self.counters.sets = self.counters.sets.wrapping_add(1);
        self.cache_delete(key);
        Ok(n)
    }

    /// SETRANGE now.
    pub fn setrange(&mut self, key: &str, offset: usize, value: Vec<u8>) -> (r: Result<usize>)
        requires
            old(self).wf(),
            offset + value@.len() <= usize::MAX,
        ensures
            final(self).wf(),
            exists|now: u64| final(self).state() == #[trigger] setrange_state(old(self).state(), key@, offset as nat, value@, now)
                && (r matches Ok(n) && n == setranged(old(self).state().entries, key@, offset as nat, value@, now).0.len()),
    {
        let now = unix_time_secs();
        self.setrange_at(key, offset, value, now)
    }

    /// STRLEN at time `now`: the length of the live value, 0 otherwise.
    pub fn strlen_at(&mut self, key: &str, now: u64) -> (r: Result<usize>)
        requires
            old(self).wf(),
        ensures
            final(self).wf(),
            final(self).state() == (KVState { counters: strlen_counters(old(self).state(), key@, now), ..old(self).state() }),
            r matches Ok(n) && n == (if live_at(old(self).state().entries, key@, now) {
                lookup(old(self).state().entries, key@).0.len()
            } else {
                0
            }),
    {
        self.counters.gets = self.counters.gets.wrapping_add(1);
        match self.find(key) {
            Some(i) => {
                if self.entries[i].1.is_expired_at(now as u32) {
                    self.counters.misses = self.counters.misses.wrapping_add(1);
                    Ok(0)
                } else {
                    self.counters.hits = self.counters.hits.wrapping_add(1);
                    Ok(self.entries[i].1.data().len())
                }
            },
            None => {
                self.counters.misses = self.counters.misses.wrapping_add(1);
                Ok(0)
            },
        }
    }

    /// STRLEN now.
    pub fn strlen(&mut self, key: &str) -> (r: Result<usize>)
        requires
            old(self).wf(),
        ensures
            final(self).wf(),
            !present(old(self).state().entries, key@) ==> r == Ok::<usize, SynapError>(0),
            exists|now: u64| {
                &&& final(self).state() == (KVState { counters: #[trigger] strlen_counters(old(self).state(), key@, now), ..old(self).state() })
                &&& r matches Ok(n) && n == (if live_at(old(self).state().entries, key@, now) {
                    lookup(old(self).state().entries, key@).0.len()
                } else {
                    0
                })
            },
    {
        let now = unix_time_secs();
        self.strlen_at(key, now)
    }

    /// GETSET at time `now`: write `value` without expiry and answer the
    /// old bytes (empty once expired), none for an absent key.
    pub fn getset_at(&mut self, key: &str, value: Vec<u8>, now: u64) -> (r: Result<Option<Vec<u8>>>)
        requires
            old(self).wf(),
        ensures
            final(self).wf(),
            final(self).state() == getset_state(old(self).state(), key@, value@),
            r matches Ok(o) && opt_bytes(o) == getset_answer(old(self).state().entries, key@, now),
    {
        let ghost s0 = self.state().entries;
        let old_value: Option<Vec<u8>> = match self.find(key) {
            Some(i) => {
                proof {
                    crate::kv_model::lemma_swap_rm(s0, i as int);
                }
                let (_k, v) = self.remove_at(i);
                Some(if v.is_expired_at(now as u32) { Vec::new() } else { copy_bytes_of(&v) })
            },
            None => None,
        };
        self.put(owned(key), StoredValue::Persistent(value));
        self.counters.gets = self.counters.gets.wrapping_add(1);
        self.counters.sets = self.counters.sets.wrapping_add(1);
        if old_value.is_some() {
            self.counters.hits = self.counters.hits.wrapping_add(1);
        } else {
            self.counters.misses = self.counters.misses.wrapping_add(1);
            self.counters.total_keys = self.counters.total_keys.wrapping_add(1);
        }
        self.cache_delete(key);
        proof {
            assert(opt_bytes(old_value) =~= getset_answer(s0, key@, now));
        }
        Ok(old_value)
    }

    /// GETSET now.
    pub fn getset(&mut self, key: &str, value: Vec<u8>) -> (r: Result<Option<Vec<u8>>>)
        requires
            old(self).wf(),
        ensures
            final(self).wf(),
            final(self).state() == getset_state(old(self).state(), key@, value@),
            !present(old(self).state().entries, key@) ==> r matches Ok(None),
            exists|now: u64| r matches Ok(o) && opt_bytes(o) == #[trigger] getset_answer(old(self).state().entries, key@, now),
    {
        let now = unix_time_secs();
        self.getset_at(key, value, now)
    }

    // -- multi-key commands -------------------------------------------------

    /// MSET: write all pairs without a time to live (see
    /// `kv_model::mset_state`). The cache is left alone.
    pub fn mset(&mut self, pairs: Vec<(String, Vec<u8>)>) -> (r: Result<()>)
        requires
            old(self).wf(),
        ensures
            final(self).wf(),
            final(self).settings() == old(self).settings(),
            final(self).state() == mset_state(old(self).state(), old(self).settings(), pairs_view(pairs@)),
            mset_refused(old(self).state(), old(self).settings(), pairs_view(pairs@)) <==> r is Err,
            r is Err ==> r matches Err(SynapError::MemoryLimitExceeded),
    {
        let ghost pv = pairs_view(pairs@);
        let ghost st0 = self.state();
        if pairs.len() == 0 {
            return Ok(());
        }
        let mut gs: usize = 0;
        let mut i: usize = 0;
        proof {
            assert(pv.take(0) =~= Seq::<(Seq<char>, Seq<u8>)>::empty());
        }
        while i < pairs.len()
            invariant
                pv == pairs_view(pairs@),
                i <= pairs@.len(),
                gs == group_size(pv.take(i as int)),
            decreases pairs@.len() - i,
        {
            let sz = entry_size_of(pairs[i].0.as_str(), pairs[i].1.len());
            proof {
                assert(pv.take(i + 1).drop_last() =~= pv.take(i as int));
                assert(pv.take(i + 1).last() == pv[i as int]);
            }
            gs = if gs > usize::MAX - sz { usize::MAX } else { gs + sz };
            i = i + 1;
        }
        proof {
            assert(pv.take(pairs@.len() as int) =~= pv);
        }
        if !fits_in(self.counters.total_memory_bytes, gs, self.config.max_memory_mb) {
            if self.config.eviction_policy == EvictionPolicy::NoEviction {
                return Err(SynapError::MemoryLimitExceeded);
            }
            self.evict_until_free(gs);
        }
        let ghost st1 = self.state();
        proof {
            assert(st1 == room(st0, self.config, gs));
            assert(pv.take(0) =~= Seq::<(Seq<char>, Seq<u8>)>::empty());
        }
        let mut j: usize = 0;
        while j < pairs.len()
            invariant
                self.wf(),
                self.config == old(self).config,
                pv == pairs_view(pairs@),
                j <= pairs@.len(),
                self.state() == mset_writes(st1, pv.take(j as int)),
            decreases pairs@.len() - j,
        {
            proof {
                assert(pv.take(j + 1).drop_last() =~= pv.take(j as int));
                assert(pv.take(j + 1).last() == pv[j as int]);
            }
            let k = pairs[j].0.clone();
            let v = copy_bytes(&pairs[j].1);
            let size = entry_size_of(k.as_str(), v.len());
            let old_charge: Option<usize> = match self.find(k.as_str()) {
                Some(q) => Some(data_charge_of(self.entries[q].1.data().len())),
                None => None,
            };
            self.put(k, StoredValue::Persistent(v));
            self.counters.sets = self.counters.sets.wrapping_add(1);
            match old_charge {
                Some(oc) => {
                    self.counters.total_memory_bytes =
                        self.counters.total_memory_bytes.wrapping_add((size as i64).wrapping_sub(oc as i64));
                },
                None => {
                    self.counters.total_keys = self.counters.total_keys.wrapping_add(1);
                    self.counters.total_memory_bytes = self.counters.total_memory_bytes.wrapping_add(size as i64);
                },
            }
            j = j + 1;
        }
        proof {
            assert(pv.take(pairs@.len() as int) =~= pv);
        }
        Ok(())
    }

    /// MGET at time `now`: GET of each key in turn.
    pub fn mget_at(&mut self, keys: &[String], now: u64) -> (r: Result<Vec<Option<Vec<u8>>>>)
        requires
            old(self).wf(),
        ensures
            final(self).wf(),
            final(self).state() == mget_state(old(self).state(), keys_view(keys@), now),
            r matches Ok(v) && answers_view(v@) == mget_answer(old(self).state(), keys_view(keys@), now),
    {
        let ghost kv = keys_view(keys@);
        let ghost st0 = self.state();
        let mut out: Vec<Option<Vec<u8>>> = Vec::new();
        let mut i: usize = 0;
        proof {
            assert(kv.take(0) =~= Seq::<Seq<char>>::empty());
            assert(answers_view(out@) =~= Seq::<Option<Seq<u8>>>::empty());
        }
        while i < keys.len()
            invariant
                self.wf(),
                self.config == old(self).config,
                kv == keys_view(keys@),
                i <= keys@.len(),
                self.state() == mget_state(st0, kv.take(i as int), now),
                answers_view(out@) == mget_answer(st0, kv.take(i as int), now),
            decreases keys@.len() - i,
        {
            proof {
                assert(kv.take(i + 1).drop_last() =~= kv.take(i as int));
                assert(kv.take(i + 1).last() == kv[i as int]);
            }
            let ghost before = out@;
            let a = self.get_at(keys[i].as_str(), now);
            match a {
                Ok(v) => {
                    out.push(v);
                },
                Err(e) => {
                    return Err(e);
                },
            }
            proof {
                assert(answers_view(out@) =~= answers_view(before).push(opt_bytes(out@.last())));
            }
            i = i + 1;
        }
        proof {
            assert(kv.take(keys@.len() as int) =~= kv);
        }
        Ok(out)
    }

    /// MGET now.
    pub fn mget(&mut self, keys: &[String]) -> (r: Result<Vec<Option<Vec<u8>>>>)
        requires
            old(self).wf(),
        ensures
            final(self).wf(),
            exists|now: u64| final(self).state() == #[trigger] mget_state(old(self).state(), keys_view(keys@), now)
                && (r matches Ok(v) && answers_view(v@) == mget_answer(old(self).state(), keys_view(keys@), now)),
    {
        let now = unix_time_secs();
        self.mget_at(keys, now)
    }

    /// MDEL: DELETE of each key in turn; answers how many were there.
    pub fn mdel(&mut self, keys: &[String]) -> (r: Result<usize>)
        requires
            old(self).wf(),
        ensures
            final(self).wf(),
            final(self).state() == mdel_state(old(self).state(), keys_view(keys@)),
            r matches Ok(n) && n == mdel_count(old(self).state(), keys_view(keys@)),
    {
        let ghost kv = keys_view(keys@);
        let ghost st0 = self.state();
        let mut count: usize = 0;
        let mut i: usize = 0;
        proof {
            assert(kv.take(0) =~= Seq::<Seq<char>>::empty());
        }
        while i < keys.len()
            invariant
                self.wf(),
                self.config == old(self).config,
                kv == keys_view(keys@),
                i <= keys@.len(),
                count <= i,
                self.state() == mdel_state(st0, kv.take(i as int)),
                count == mdel_count(st0, kv.take(i as int)),
            decreases keys@.len() - i,
        {
            proof {
                assert(kv.take(i + 1).drop_last() =~= kv.take(i as int));
                assert(kv.take(i + 1).last() == kv[i as int]);
            }
            match self.delete(keys[i].as_str()) {
                Ok(true) => {
                    count = count + 1;
                },
                Ok(false) => {},
                Err(e) => {
                    return Err(e);
                },
            }
            i = i + 1;
        }
        proof {
            assert(kv.take(keys@.len() as int) =~= kv);
        }
        Ok(count)
    }

    /// MSETNX at time `now`: write all pairs without a time to live when
    /// none of their keys holds a live value; answers whether it wrote.
    pub fn msetnx_at(&mut self, pairs: Vec<(String, Vec<u8>)>, now: u64) -> (r: Result<bool>)
        requires
            old(self).wf(),
        ensures
            final(self).wf(),
            final(self).state() == msetnx_state(old(self).state(), pairs_view(pairs@), now),
            r == Ok::<bool, SynapError>(pairs@.len() == 0 || !any_live(old(self).state().entries, pairs_view(pairs@), now)),
    {
        let ghost pv = pairs_view(pairs@);
        let ghost st0 = self.state();
        if pairs.len() == 0 {
            return Ok(true);
        }
        let mut i: usize = 0;
        while i < pairs.len()
            invariant
                self.wf(),
                self.state() == st0,
                st0 == old(self).state(),
                pairs@.len() > 0,
                pv == pairs_view(pairs@),
                i <= pairs@.len(),
                forall|q: int| 0 <= q < i ==> !live_at(st0.entries, (#[trigger] pv[q]).0, now),
            decreases pairs@.len() - i,
        {
            match self.find(pairs[i].0.as_str()) {
                Some(j) => {
                    if !self.entries[j].1.is_expired_at(now as u32) {
                        proof {
                            assert(live_at(st0.entries, pv[i as int].0, now));
                            assert(any_live(st0.entries, pv, now));
                        }
                        return Ok(false);
                    }
                },
                None => {},
            }
            i = i + 1;
        }
        proof {
            assert(!any_live(st0.entries, pv, now));
        }
        let mut j: usize = 0;
        proof {
            assert(pv.take(0) =~= Seq::<(Seq<char>, Seq<u8>)>::empty());
        }
        while j < pairs.len()
            invariant
                self.wf(),
                self.config == old(self).config,
                pv == pairs_view(pairs@),
                j <= pairs@.len(),
                self.state() == msetnx_writes(st0, pv.take(j as int)),
                self.counters == st0.counters,
            decreases pairs@.len() - j,
        {
            proof {
                assert(pv.take(j + 1).drop_last() =~= pv.take(j as int));
                assert(pv.take(j + 1).last() == pv[j as int]);
            }
            let k = pairs[j].0.clone();
            let v = copy_bytes(&pairs[j].1);
            self.put(k, StoredValue::Persistent(v));
            self.cache_delete(pairs[j].0.as_str());
            j = j + 1;
        }
        proof {
            assert(pv.take(pairs@.len() as int) =~= pv);
        }
        self.counters.sets = self.counters.sets.wrapping_add(pairs.len() as u64);
        Ok(true)
    }

    /// MSETNX now.
    pub fn msetnx(&mut self, pairs: Vec<(String, Vec<u8>)>) -> (r: Result<bool>)
        requires
            old(self).wf(),
        ensures
            final(self).wf(),
            exists|now: u64| final(self).state() == #[trigger] msetnx_state(old(self).state(), pairs_view(pairs@), now)
                && r == Ok::<bool, SynapError>(pairs@.len() == 0 || !any_live(old(self).state().entries, pairs_view(pairs@), now)),
    {
        let now = unix_time_secs();
        self.msetnx_at(pairs, now)
    }

    // -- listings -----------------------------------------------------------

    /// KEYS: every key, in storage order (expired ones too).
    pub fn keys(&self) -> (r: Result<Vec<String>>)
        requires
            self.wf(),
        ensures
            r matches Ok(v) && keys_view(v@) == self.state().entries.map_values(|e: Ent| e.0),
    {
        let mut out: Vec<String> = Vec::new();
        let mut i: usize = 0;
        while i < self.entries.len()
            invariant
                i <= self.entries@.len(),
                keys_view(out@) == view_of(self.entries@).take(i as int).map_values(|e: Ent| e.0),
            decreases self.entries@.len() - i,
        {
            let ghost before = out@;
            let ghost s = view_of(self.entries@);
            out.push(self.entries[i].0.clone());
            proof {
                assert(s[i as int].0 == self.entries@[i as int].0@);
                assert(keys_view(out@) =~= keys_view(before).push(s[i as int].0));
                assert(s.take(i + 1).map_values(|e: Ent| e.0) =~= s.take(i as int).map_values(|e: Ent| e.0).push(s[i as int].0));
            }
            i = i + 1;
        }
        proof {
            assert(view_of(self.entries@).take(self.entries@.len() as int) =~= view_of(self.entries@));
        }
        Ok(out)
    }

    /// SCAN: the keys that start with `prefix` (all keys without one), in
    /// storage order, at most `limit` of them.
    pub fn scan(&self, prefix: Option<&str>, limit: usize) -> (r: Result<Vec<String>>)
        requires
            self.wf(),
        ensures
            r matches Ok(v) && ({
                let all = match prefix {
                    Some(p) => prefixed(self.state().entries, p@),
                    None => self.state().entries.map_values(|e: Ent| e.0),
                };
                keys_view(v@) == all.take(if limit < all.len() { limit as int } else { all.len() as int })
            }),
    {
        let ghost s = view_of(self.entries@);
        let pchars: Vec<char> = match prefix {
            Some(p) => chars_of(p),
            None => Vec::new(),
        };
        let mut out: Vec<String> = Vec::new();
        let mut i: usize = 0;
        proof {
            assert(s.take(0) =~= Seq::<Ent>::empty());
            assert(keys_view(out@) =~= Seq::<Seq<char>>::empty());
        }
        while i < self.entries.len()
            invariant
                s == view_of(self.entries@),
                i <= self.entries@.len(),
                prefix matches Some(p) ==> pchars@ == p@,
                keys_view(out@) == match prefix {
                    Some(p) => prefixed(s.take(i as int), p@),
                    None => s.take(i as int).map_values(|e: Ent| e.0),
                },
            decreases self.entries@.len() - i,
        {
            proof {
                assert(s.take(i + 1).drop_last() =~= s.take(i as int));
                assert(s.take(i + 1).last() == s[i as int]);
            }
            let ghost before = out@;
            let keep = match prefix {
                Some(_p) => {
                    let kc = chars_of(self.entries[i].0.as_str());
                    starts_with(&kc, &pchars)
                },
                None => true,
            };
            if keep {
                out.push(self.entries[i].0.clone());
            }
            proof {
                assert(s[i as int].0 == self.entries@[i as int].0@);
                if keep {
                    assert(keys_view(out@) =~= keys_view(before).push(s[i as int].0));
                } else {
                    assert(keys_view(out@) =~= keys_view(before));
                }
                assert(s.take(i + 1).map_values(|e: Ent| e.0) =~= s.take(i as int).map_values(|e: Ent| e.0).push(s[i as int].0));
            }
            i = i + 1;
            proof {
                match prefix {
                    Some(p) => {
                        assert(keys_view(out@) =~= prefixed(s.take(i as int), p@));
                    },
                    None => {
                        assert(keys_view(out@) =~= s.take(i as int).map_values(|e: Ent| e.0));
                    },
                }
            }
        }
        proof {
            assert(s.take(self.entries@.len() as int) =~= s);
        }
        let ghost full = keys_view(out@);
        if limit < out.len() {
            out.truncate(limit);
        }
        proof {
            assert(keys_view(out@) =~= full.take(if limit < full.len() { limit as int } else { full.len() as int }));
        }
        Ok(out)
    }

    /// DUMP at time `now`: the live entries as key and bytes, in storage
    /// order.
    pub fn dump_at(&self, now: u64) -> (r: Result<Vec<(String, Vec<u8>)>>)
        requires
            self.wf(),
        ensures
            r matches Ok(v) && pairs_view(v@) == live_pairs(self.state().entries, now),
    {
        let ghost s = view_of(self.entries@);
        let mut out: Vec<(String, Vec<u8>)> = Vec::new();
        let mut i: usize = 0;
        proof {
            assert(s.take(0) =~= Seq::<Ent>::empty());
            assert(pairs_view(out@) =~= Seq::<(Seq<char>, Seq<u8>)>::empty());
        }
        while i < self.entries.len()
            invariant
                s == view_of(self.entries@),
                i <= self.entries@.len(),
                pairs_view(out@) == live_pairs(s.take(i as int), now),
            decreases self.entries@.len() - i,
        {
            proof {
                assert(s.take(i + 1).drop_last() =~= s.take(i as int));
                assert(s.take(i + 1).last() == s[i as int]);
            }
            if !self.entries[i].1.is_expired_at(now as u32) {
                let k = self.entries[i].0.clone();
                let d = copy_bytes_of(&self.entries[i].1);
                out.push((k, d));
            }
            i = i + 1;
            proof {
                assert(pairs_view(out@) =~= live_pairs(s.take(i as int), now));
            }
        }
        proof {
            assert(s.take(self.entries@.len() as int) =~= s);
        }
        Ok(out)
    }

    /// DUMP now.
    pub fn dump(&self) -> (r: Result<Vec<(String, Vec<u8>)>>)
        requires
            self.wf(),
        ensures
            r matches Ok(v) && exists|now: u64| pairs_view(v@) == #[trigger] live_pairs(self.state().entries, now),
    {
        let now = unix_time_secs();
        self.dump_at(now)
    }

    // -- flush --------------------------------------------------------------

    /// FLUSHDB: drop every key and clear the cache, when the configuration
    /// allows flushing; answers the key count as the counters had it.
    pub fn flushdb(&mut self) -> (r: Result<usize>)
        requires
            old(self).wf(),
        ensures
            final(self).wf(),
            final(self).settings() == old(self).settings(),
            !old(self).settings().allow_flush_commands ==> (r matches Err(SynapError::InvalidRequest(_)))
                && final(self).state() == old(self).state(),
            old(self).settings().allow_flush_commands ==> r == Ok::<usize, SynapError>(nonneg(old(self).state().counters.total_keys))
                && final(self).state() == (KVState {
                    entries: Seq::empty(),
                    counters: KVCounters { total_keys: 0, total_memory_bytes: 0, ..old(self).state().counters },
                    cache: cache_clear(old(self).state().cache),
                }),
    {
        if !self.config.allow_flush_commands {
            return Err(SynapError::InvalidRequest(owned(
                "FLUSHDB is disabled. Set 'allow_flush_commands: true' in config to enable this dangerous command",
            )));
        }
        let count: usize = if self.counters.total_keys < 0 { 0 } else { self.counters.total_keys as usize };
        self.cache_clear_all();
        self.entries = Vec::new();
        self.counters.total_keys = 0;
        self.counters.total_memory_bytes = 0;
        proof {
            assert(view_of(self.entries@) =~= Seq::<Ent>::empty());
        }
        Ok(count)
    }

    /// FLUSHALL: FLUSHDB, there being one database.
    pub fn flushall(&mut self) -> (r: Result<usize>)
        requires
            old(self).wf(),
        ensures
            final(self).wf(),
            !old(self).settings().allow_flush_commands ==> (r matches Err(SynapError::InvalidRequest(_)))
                && final(self).state() == old(self).state(),
            old(self).settings().allow_flush_commands ==> r == Ok::<usize, SynapError>(nonneg(old(self).state().counters.total_keys))
                && final(self).state().entries.len() == 0,
    {
        if !self.config.allow_flush_commands {
            return Err(SynapError::InvalidRequest(owned(
                "FLUSHALL is disabled. Set 'allow_flush_commands: true' in config to enable this dangerous command",
            )));
        }
        self.flushdb()
    }

    // -- the expiry sweep ---------------------------------------------------

    /// The keys among the first 20 entries whose values have expired.
    fn sampled_stale_keys(&self, now: u64) -> (r: Vec<String>)
        requires
            self.wf(),
        ensures
            keys_view(r@) == stale_keys(sweep_sample(self.state().entries), now),
            r@.len() <= 20,
    {
        let ghost s = view_of(self.entries@);
        let n: usize = if self.entries.len() <= 20 { self.entries.len() } else { 20 };
        let mut out: Vec<String> = Vec::new();
        let mut i: usize = 0;
        proof {
            assert(s.take(0) =~= Seq::<Ent>::empty());
            assert(keys_view(out@) =~= Seq::<Seq<char>>::empty());
        }
        while i < n
            invariant
                s == view_of(self.entries@),
                n <= self.entries@.len(),
                i <= n,
                keys_view(out@) == stale_keys(s.take(i as int), now),
            decreases n - i,
        {
            proof {
                assert(s.take(i + 1).drop_last() =~= s.take(i as int));
                assert(s.take(i + 1).last() == s[i as int]);
            }
            let ghost before = out@;
            if self.entries[i].1.is_expired_at(now as u32) {
                out.push(self.entries[i].0.clone());
                proof {
                    assert(keys_view(out@) =~= keys_view(before).push(s[i as int].0));
                }
            }
            i = i + 1;
        }
        proof {
            if s.len() <= 20 {
                assert(s.take(n as int) =~= s);
            }
            lemma_stale_len(sweep_sample(s), now);
        }
        out
    }

    /// Take out each key of `ks` that is present, freeing its charge;
    /// answers how many were.
    fn take_out_keys(&mut self, ks: &Vec<String>) -> (n: usize)
        requires
            old(self).wf(),
        ensures
            final(self).wf(),
            final(self).config == old(self).config,
            (final(self).state(), n as nat) == take_out(old(self).state(), keys_view(ks@)),
            n <= ks@.len(),
    {
        let ghost kv = keys_view(ks@);
        let ghost st0 = self.state();
        let mut count: usize = 0;
        let mut q: usize = 0;
        proof {
            assert(kv.take(0) =~= Seq::<Seq<char>>::empty());
        }
        while q < ks.len()
            invariant
                self.wf(),
                self.config == old(self).config,
                kv == keys_view(ks@),
                q <= ks@.len(),
                count <= q,
                (self.state(), count as nat) == take_out(st0, kv.take(q as int)),
            decreases ks@.len() - q,
        {
            proof {
                assert(kv.take(q + 1).drop_last() =~= kv.take(q as int));
                assert(kv.take(q + 1).last() == kv[q as int]);
            }
            match self.find(ks[q].as_str()) {
                Some(i) => {
                    let (_k, gone) = self.remove_at(i);
                    let size = entry_size_of(ks[q].as_str(), gone.data().len());
                    self.counters.total_memory_bytes = self.counters.total_memory_bytes.wrapping_sub(size as i64);
                    count = count + 1;
                },
                None => {},
            }
            q = q + 1;
        }
        proof {
            assert(kv.take(ks@.len() as int) =~= kv);
        }
        count
    }

    /// The expiry sweep at time `now` (see `kv_model::cleanup_state`).
    pub fn cleanup_expired_at(&mut self, now: u64)
        requires
            old(self).wf(),
        ensures
            final(self).wf(),
            final(self).settings() == old(self).settings(),
            final(self).state() == cleanup_state(old(self).state(), now),
    {
        let ghost st0 = self.state();
        let mut total: usize = 0;
        let mut round: usize = 0;
        let mut stop = false;
        while round < 16 && !stop
            invariant
                self.wf(),
                self.config == old(self).config,
                round <= 16,
                total <= 20 * round,
                sweep(st0, now, 16) == (if stop {
                    (self.state(), total as nat)
                } else {
                    (sweep(self.state(), now, (16 - round) as nat).0, (total + sweep(self.state(), now, (16 - round) as nat).1) as nat)
                }),
            decreases 16 - round, if stop { 0int } else { 1int },
        {
            let ks = self.sampled_stale_keys(now);
            let n = self.take_out_keys(&ks);
            total = total + n;
            round = round + 1;
            if ks.len() < 5 {
                stop = true;
            }
        }
        self.counters.total_keys = self.counters.total_keys.wrapping_sub(total as i64);
    }

    /// The expiry sweep now.
    pub fn cleanup_expired(&mut self)
        requires
            old(self).wf(),
        ensures
            final(self).wf(),
            exists|now: u64| final(self).state() == #[trigger] cleanup_state(old(self).state(), now),
    {
        let now = unix_time_secs();
        self.cleanup_expired_at(now)
    }
}

} // verus!
