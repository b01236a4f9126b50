//! The key-value store as plain values: its state, what each operation does
//! to it, and the laws that relate the operations.
//!
//! A state holds the entries in storage order (no key twice), the counters
//! and, when the store has one, the state of its L1 cache. Times are Unix
//! seconds; stored values keep their low 32 bits.

use vstd::prelude::*;
use crate::cache_layer::{
    CacheState, CachedItem, CacheStats, got_state, got_value, put_state, deleted_state, cleared_state,
    has_key, key_index, keys_distinct, stale, evict_count,
};
use crate::text::{has_prefix, parsed_i64, signed_ascii};
use crate::types::{StoredValue, KVConfig, EvictionPolicy};
use crate::kv_store::{Expiry, SetOptions};

verus! {

/// A stored value as plain values: its bytes and, for an expiring value,
/// its expiry and last access times.
pub type Val = (Seq<u8>, Option<(u32, u32)>);

/// An entry: a key and its value.
pub type Ent = (Seq<char>, Val);

/// The counters of the store.
#[derive(Debug, Clone, Copy)]
pub struct KVCounters {
    pub total_keys: i64,
    pub total_memory_bytes: i64,
    pub gets: u64,
    pub sets: u64,
    pub dels: u64,
    pub hits: u64,
    pub misses: u64,
}

impl KVCounters {
    /// All counters at zero.
    pub open spec fn zero() -> KVCounters {
        KVCounters { total_keys: 0, total_memory_bytes: 0, gets: 0, sets: 0, dels: 0, hits: 0, misses: 0 }
    }
}

/// The state of a store.
pub struct KVState {
    /// The entries, in storage order.
    pub entries: Seq<Ent>,
    pub counters: KVCounters,
    /// The state of the cache, when the store has one.
    pub cache: Option<CacheState>,
}

// ---------------------------------------------------------------------------
// Entries
// ---------------------------------------------------------------------------

/// Whether some entry has key `k`.
pub open spec fn present(s: Seq<Ent>, k: Seq<char>) -> bool {
    exists|i: int| 0 <= i < s.len() && (#[trigger] s[i]).0 == k
}

/// The position of key `k` (meaningful when `has`).
pub open spec fn pos(s: Seq<Ent>, k: Seq<char>) -> int {
    choose|i: int| 0 <= i < s.len() && (#[trigger] s[i]).0 == k
}

/// The value under `k` (meaningful when `has`).
pub open spec fn lookup(s: Seq<Ent>, k: Seq<char>) -> Val {
    s[pos(s, k)].1
}

/// Whether no key occurs twice.
pub open spec fn uniq(s: Seq<Ent>) -> bool {
    forall|i: int, j: int| 0 <= i < s.len() && 0 <= j < s.len() && i != j ==> (#[trigger] s[i]).0 != (#[trigger] s[j]).0
}

/// `s` with its last item moved into position `i`, one shorter.
pub open spec fn swap_rm<A>(s: Seq<A>, i: int) -> Seq<A> {
    s.update(i, s.last()).drop_last()
}

/// `s` with `v` under `k`: in place when `k` is there, else at the end.
pub open spec fn put_entry(s: Seq<Ent>, k: Seq<char>, v: Val) -> Seq<Ent> {
    if present(s, k) { s.update(pos(s, k), (k, v)) } else { s.push((k, v)) }
}

/// `s` without key `k`.
pub open spec fn drop_key(s: Seq<Ent>, k: Seq<char>) -> Seq<Ent> {
    if present(s, k) { swap_rm(s, pos(s, k)) } else { s }
}

/// The values by key.
pub open spec fn as_map(s: Seq<Ent>) -> Map<Seq<char>, Val> {
    Map::new(|k: Seq<char>| present(s, k), |k: Seq<char>| lookup(s, k))
}

// ---------------------------------------------------------------------------
// Values, times and sizes
// ---------------------------------------------------------------------------

/// The low 32 bits of a time, as a stored value keeps it.
pub open spec fn t32(now: u64) -> u32 {
    now as u32
}

/// Whether `v` has expired at `now` (32 bits).
pub open spec fn expired(v: Val, now: u32) -> bool {
    match v.1 {
        Some((e, _)) => now >= e,
        None => false,
    }
}

/// Whether `v` is alive at `now`.
pub open spec fn live(v: Val, now: u64) -> bool {
    !expired(v, t32(now))
}

/// Seconds left at `now`: none without an expiry, 0 once expired.
pub open spec fn remaining(v: Val, now: u32) -> Option<u64> {
    match v.1 {
        Some((e, _)) => Some(if now >= e { 0 } else { (e - now) as u64 }),
        None => None,
    }
}

/// The bytes of a key in UTF-8, as `str::len` counts them.
pub open spec fn key_bytes(k: Seq<char>) -> usize {
    vstd::utf8::encode_utf8(k).len() as usize
}

/// The memory charged for an entry: its key's bytes, its value's bytes and
/// the size of a stored value, held at the maximum.
pub open spec fn entry_size(k: Seq<char>, data_len: nat) -> usize {
    let n = key_bytes(k) + data_len + vstd::layout::size_of::<StoredValue>();
    if n > usize::MAX { usize::MAX } else { n as usize }
}

/// The memory charged for value `v` under `k`.
pub open spec fn charge(k: Seq<char>, v: Val) -> usize {
    entry_size(k, v.0.len())
}

/// Whether `size` more bytes fit, with `current` in use, under a limit of
/// `max_mb` megabytes.
pub open spec fn fits(current: i64, size: usize, max_mb: usize) -> bool {
    current + size <= max_mb * 1048576
}

/// A count held at 0 from below.
pub open spec fn nonneg(x: i64) -> usize {
    if x < 0 { 0 } else { x as usize }
}

/// `x` held to 32 bits.
pub open spec fn cap32(x: u64) -> u32 {
    if x > u32::MAX { u32::MAX } else { x as u32 }
}

/// The absolute expiry that the cache is given for a write with a time to
/// live of `ttl` seconds at `now`.
pub open spec fn cache_expiry(ttl: Option<u64>, now: u64) -> Option<u64> {
    match ttl {
        Some(s) => Some(now.wrapping_add(s)),
        None => None,
    }
}

// ---------------------------------------------------------------------------
// The cache, when there is one
// ---------------------------------------------------------------------------

pub open spec fn cache_got(c: Option<CacheState>, k: Seq<char>, now: u64) -> Option<CacheState> {
    match c {
        Some(st) => Some(got_state(st, k, now)),
        None => None,
    }
}

pub open spec fn cache_hit(c: Option<CacheState>, k: Seq<char>, now: u64) -> Option<Seq<u8>> {
    match c {
        Some(st) => got_value(st, k, now),
        None => None,
    }
}

pub open spec fn cache_put(c: Option<CacheState>, k: Seq<char>, v: Seq<u8>, ttl: Option<u64>, now: u64) -> Option<CacheState> {
    match c {
        Some(st) => Some(put_state(st, k, v, ttl, now)),
        None => None,
    }
}

pub open spec fn cache_del(c: Option<CacheState>, k: Seq<char>) -> Option<CacheState> {
    match c {
        Some(st) => Some(deleted_state(st, k)),
        None => None,
    }
}

pub open spec fn cache_clear(c: Option<CacheState>) -> Option<CacheState> {
    match c {
        Some(st) => Some(cleared_state(st)),
        None => None,
    }
}

/// Whether a state is well formed: no key twice in the store or the cache.
pub open spec fn state_wf(st: KVState) -> bool {
    &&& uniq(st.entries)
    &&& (st.cache matches Some(c) ==> keys_distinct(c.items))
}

// ---------------------------------------------------------------------------
// GET and DELETE
// ---------------------------------------------------------------------------

/// What GET of `k` at `now` answers: the cache's value when it has one,
/// else the store's live value.
pub open spec fn get_answer(st: KVState, k: Seq<char>, now: u64) -> Option<Seq<u8>> {
    let hit = cache_hit(st.cache, k, now);
    if hit is Some {
        hit
    } else if present(st.entries, k) && live(lookup(st.entries, k), now) {
        Some(lookup(st.entries, k).0)
    } else {
        None
    }
}

/// The state after GET of `k` at `now`. A live value found in the store
/// is stamped as accessed and copied into the cache, with its remaining
/// seconds as the cache's expiry stamp; an expired one is dropped.
pub open spec fn get_state(st: KVState, k: Seq<char>, now: u64) -> KVState {
    let c0 = st.counters;
    let c1 = cache_got(st.cache, k, now);
    if cache_hit(st.cache, k, now) is Some {
        KVState { cache: c1, counters: KVCounters { gets: c0.gets.wrapping_add(1), hits: c0.hits.wrapping_add(1), ..c0 }, ..st }
    } else if !present(st.entries, k) {
        KVState { cache: c1, counters: KVCounters { gets: c0.gets.wrapping_add(1), misses: c0.misses.wrapping_add(1), ..c0 }, ..st }
    } else {
        let i = pos(st.entries, k);
        let v = st.entries[i].1;
        if live(v, now) {
            KVState {
                entries: st.entries.update(i, (k, StoredValue::accessed(v, t32(now)))),
                cache: cache_put(c1, k, v.0, remaining(v, t32(now)), now),
                counters: KVCounters { gets: c0.gets.wrapping_add(1), hits: c0.hits.wrapping_add(1), ..c0 },
            }
        } else {
            KVState {
                entries: swap_rm(st.entries, i),
                cache: c1,
                counters: KVCounters {
                    gets: c0.gets.wrapping_add(1),
                    misses: c0.misses.wrapping_add(1),
                    total_keys: c0.total_keys.wrapping_sub(1),
                    total_memory_bytes: c0.total_memory_bytes.wrapping_sub(charge(k, v) as i64),
                    ..c0
                },
            }
        }
    }
}

/// The state after DELETE of `k`.
pub open spec fn delete_state(st: KVState, k: Seq<char>) -> KVState {
    let c0 = st.counters;
    let c1 = cache_del(st.cache, k);
    if present(st.entries, k) {
        KVState {
            entries: swap_rm(st.entries, pos(st.entries, k)),
            cache: c1,
            counters: KVCounters {
                dels: c0.dels.wrapping_add(1),
                total_keys: c0.total_keys.wrapping_sub(1),
                total_memory_bytes: c0.total_memory_bytes.wrapping_sub(charge(k, lookup(st.entries, k)) as i64),
                ..c0
            },
        }
    } else {
        KVState { cache: c1, ..st }
    }
}

// ---------------------------------------------------------------------------
// Eviction
// ---------------------------------------------------------------------------

/// Whether eviction under policy `p` may pick `v`: the TTL policy picks
/// only values with an expiry.
pub open spec fn eligible(v: Val, p: EvictionPolicy) -> bool {
    p == EvictionPolicy::Ttl ==> v.1 is Some
}

/// How a candidate ranks, lower first: by expiry time under the TTL
/// policy, otherwise by last access time (0 for a value without expiry).
pub open spec fn rank(v: Val, p: EvictionPolicy) -> u64 {
    match v.1 {
        Some((e, a)) => if p == EvictionPolicy::Ttl { e as u64 } else { a as u64 },
        None => 0,
    }
}

/// How many entries of `s` are eligible.
pub open spec fn eligible_count(s: Seq<Ent>, p: EvictionPolicy) -> nat
    decreases s.len(),
{
    if s.len() == 0 {
        0
    } else {
        eligible_count(s.drop_last(), p) + if eligible(s.last().1, p) { 1nat } else { 0nat }
    }
}

/// Whether entry `i` is among the first `n` eligible entries.
pub open spec fn sampled(s: Seq<Ent>, p: EvictionPolicy, n: nat, i: int) -> bool {
    0 <= i < s.len() && eligible(s[i].1, p) && eligible_count(s.take(i), p) < n
}

/// Whether entry `j` is the one to evict: the sampled entry of lowest rank,
/// the first of equals.
pub open spec fn is_victim(s: Seq<Ent>, p: EvictionPolicy, n: nat, j: int) -> bool {
    &&& sampled(s, p, n, j)
    &&& forall|i: int| #[trigger] sampled(s, p, n, i) ==> rank(s[j].1, p) < rank(s[i].1, p)
        || (rank(s[j].1, p) == rank(s[i].1, p) && j <= i)
}

/// The entry to evict, if any.
pub open spec fn victim(s: Seq<Ent>, p: EvictionPolicy, n: nat) -> Option<int> {
    if exists|j: int| is_victim(s, p, n, j) {
        Some(choose|j: int| is_victim(s, p, n, j))
    } else {
        None
    }
}

/// The sample size a configuration asks for, at least 1.
pub open spec fn sample_size(cfg: KVConfig) -> nat {
    if cfg.eviction_sample_size < 1 { 1 } else { cfg.eviction_sample_size as nat }
}

/// The state after eviction makes room for `needed` bytes: victims go one
/// by one until the bytes fit or nothing is left to evict.
pub open spec fn evicted(st: KVState, cfg: KVConfig, needed: usize) -> KVState
    decreases st.entries.len(),
{
    let c0 = st.counters;
    if fits(c0.total_memory_bytes, needed, cfg.max_memory_mb) || cfg.eviction_policy == EvictionPolicy::NoEviction {
        st
    } else {
        match victim(st.entries, cfg.eviction_policy, sample_size(cfg)) {
            Some(j) => if 0 <= j < st.entries.len() {
                let e = st.entries[j];
                evicted(
                    KVState {
                        entries: swap_rm(st.entries, j),
                        counters: KVCounters {
                            total_keys: c0.total_keys.wrapping_sub(1),
                            total_memory_bytes: c0.total_memory_bytes.wrapping_sub(charge(e.0, e.1) as i64),
                            ..c0
                        },
                        ..st
                    },
                    cfg,
                    needed,
                )
            } else {
                st
            },
            None => st,
        }
    }
}

/// The state after a write of `size` bytes makes room: unchanged when the
/// bytes fit, else evicted.
pub open spec fn room(st: KVState, cfg: KVConfig, size: usize) -> KVState {
    if fits(st.counters.total_memory_bytes, size, cfg.max_memory_mb) { st } else { evicted(st, cfg, size) }
}

// ---------------------------------------------------------------------------
// SET
// ---------------------------------------------------------------------------

/// Whether SET of `v` under `k` is accepted: after making room, the entry
/// fits under the limit.
pub open spec fn set_ok(st: KVState, cfg: KVConfig, k: Seq<char>, v: Seq<u8>) -> bool {
    let size = entry_size(k, v.len());
    fits(room(st, cfg, size).counters.total_memory_bytes, size, cfg.max_memory_mb)
}

/// The counters after `val` of `size` bytes is written under `k` in `s`:
/// a new key is counted and charged; a replaced value's charge is swapped
/// for the new one.
pub open spec fn written_counters(c: KVCounters, s: Seq<Ent>, k: Seq<char>, size: usize) -> KVCounters {
    if present(s, k) {
        KVCounters {
            sets: c.sets.wrapping_add(1),
            total_memory_bytes: c.total_memory_bytes.wrapping_add((size as i64).wrapping_sub(charge(k, lookup(s, k)) as i64)),
            ..c
        }
    } else {
        KVCounters {
            sets: c.sets.wrapping_add(1),
            total_keys: c.total_keys.wrapping_add(1),
            total_memory_bytes: c.total_memory_bytes.wrapping_add(size as i64),
            ..c
        }
    }
}

/// The state after SET of `v` under `k` with a time to live of `ttl`
/// seconds at `now`: refused when it does not fit (the eviction stays).
pub open spec fn set_state(st: KVState, cfg: KVConfig, k: Seq<char>, v: Seq<u8>, ttl: Option<u64>, now: u64) -> KVState {
    let size = entry_size(k, v.len());
    let r = room(st, cfg, size);
    if !set_ok(st, cfg, k, v) {
        r
    } else {
        KVState {
            entries: put_entry(r.entries, k, StoredValue::made_at(v, ttl, t32(now))),
            counters: written_counters(r.counters, r.entries, k, size),
            cache: cache_put(r.cache, k, v, cache_expiry(ttl, now), now),
        }
    }
}

// ---------------------------------------------------------------------------
// SET with options
// ---------------------------------------------------------------------------

/// The Unix second at which `e` expires, seen at `now`.
pub open spec fn expiry_secs(e: Expiry, now: u64) -> u64 {
    match e {
        Expiry::Seconds(s) => now.wrapping_add(s),
        Expiry::Milliseconds(ms) => now.wrapping_add(ms / 1000),
        Expiry::UnixSeconds(s) => s,
        Expiry::UnixMilliseconds(ms) => ms / 1000,
    }
}

/// The absolute expiry the cache is given for a write with `expiry`.
pub open spec fn cache_opt_expiry(expiry: Option<Expiry>, now: u64) -> Option<u64> {
    match expiry {
        Some(e) => Some(expiry_secs(e, now)),
        None => None,
    }
}

/// The expiry time of a value (0 without one).
pub open spec fn expiry_of(v: Val) -> u32 {
    match v.1 {
        Some((e, _)) => e,
        None => 0,
    }
}

/// The bytes of a value.
pub open spec fn val_bytes(v: Val) -> Seq<u8> {
    v.0
}

/// Whether `k` holds a live value at `now`.
pub open spec fn live_at(s: Seq<Ent>, k: Seq<char>, now: u64) -> bool {
    present(s, k) && live(lookup(s, k), now)
}

/// The value SET with options writes: with KEEPTTL, `v` with the expiry
/// of the live value replaced (none when it had none); otherwise `v` with
/// `expiry` (held to 32 bits) when given.
pub open spec fn opts_val(s: Seq<Ent>, k: Seq<char>, v: Seq<u8>, expiry: Option<Expiry>, opts: SetOptions, now: u64) -> Val {
    if opts.keep_ttl {
        if live_at(s, k, now) && lookup(s, k).1 is Some {
            (v, Some((expiry_of(lookup(s, k)), t32(now))))
        } else {
            (v, None)
        }
    } else {
        match expiry {
            Some(e) => (v, Some((cap32(expiry_secs(e, now)), t32(now)))),
            None => (v, None),
        }
    }
}

/// What SET with options answers: none when refused for memory; else
/// whether it wrote, and the value replaced when asked for.
pub open spec fn set_opts_answer(
    st: KVState, cfg: KVConfig, k: Seq<char>, v: Seq<u8>, opts: SetOptions, now: u64,
) -> Option<(bool, Option<Seq<u8>>)> {
    let size = entry_size(k, v.len());
    let r = room(st, cfg, size);
    let alive = live_at(r.entries, k, now);
    if !fits(r.counters.total_memory_bytes, size, cfg.max_memory_mb) {
        None
    } else if opts.if_absent && alive {
        Some((false, if opts.return_old { Some(lookup(r.entries, k).0) } else { None }))
    } else if opts.if_present && !alive {
        Some((false, None))
    } else {
        Some((true, if opts.return_old && alive { Some(lookup(r.entries, k).0) } else { None }))
    }
}

/// The state after SET with options (see `set_opts_answer`). A write over
/// an expired value counts as a new key.
pub open spec fn set_opts_state(
    st: KVState, cfg: KVConfig, k: Seq<char>, v: Seq<u8>, expiry: Option<Expiry>, opts: SetOptions, now: u64,
) -> KVState {
    let size = entry_size(k, v.len());
    let r = room(st, cfg, size);
    let c = r.counters;
    match set_opts_answer(st, cfg, k, v, opts, now) {
        Some((true, _)) => KVState {
            entries: put_entry(r.entries, k, opts_val(r.entries, k, v, expiry, opts, now)),
            counters: if live_at(r.entries, k, now) {
                KVCounters {
                    sets: c.sets.wrapping_add(1),
                    total_memory_bytes: c.total_memory_bytes.wrapping_add((size as i64).wrapping_sub(charge(k, lookup(r.entries, k)) as i64)),
                    ..c
                }
            } else {
                KVCounters {
                    sets: c.sets.wrapping_add(1),
                    total_keys: c.total_keys.wrapping_add(1),
                    total_memory_bytes: c.total_memory_bytes.wrapping_add(size as i64),
                    ..c
                }
            },
            cache: cache_put(r.cache, k, v, cache_opt_expiry(expiry, now), now),
        },
        _ => r,
    }
}

// ---------------------------------------------------------------------------
// MSET, MGET, MDEL, MSETNX
// ---------------------------------------------------------------------------

/// The charge a multi-set counts for a value replaced: its bytes and the
/// size of a stored value (not its key), held at the maximum.
pub open spec fn data_charge(v: Val) -> usize {
    let n = v.0.len() + vstd::layout::size_of::<StoredValue>();
    if n > usize::MAX { usize::MAX } else { n as usize }
}

/// The bytes a multi-set needs, added up and held at the maximum.
pub open spec fn group_size(pairs: Seq<(Seq<char>, Seq<u8>)>) -> usize
    decreases pairs.len(),
{
    if pairs.len() == 0 {
        0
    } else {
        let a = group_size(pairs.drop_last());
        let b = entry_size(pairs.last().0, pairs.last().1.len());
        if a + b > usize::MAX { usize::MAX } else { (a + b) as usize }
    }
}

/// The state after the pairs are written one by one, without a time to
/// live; the cache is left alone.
pub open spec fn mset_writes(st: KVState, pairs: Seq<(Seq<char>, Seq<u8>)>) -> KVState
    decreases pairs.len(),
{
    if pairs.len() == 0 {
        st
    } else {
        let r = mset_writes(st, pairs.drop_last());
        let (k, v) = pairs.last();
        let size = entry_size(k, v.len());
        let c = r.counters;
        KVState {
            entries: put_entry(r.entries, k, (v, None)),
            counters: if present(r.entries, k) {
                KVCounters {
                    sets: c.sets.wrapping_add(1),
                    total_memory_bytes: c.total_memory_bytes.wrapping_add((size as i64).wrapping_sub(data_charge(lookup(r.entries, k)) as i64)),
                    ..c
                }
            } else {
                KVCounters {
                    sets: c.sets.wrapping_add(1),
                    total_keys: c.total_keys.wrapping_add(1),
                    total_memory_bytes: c.total_memory_bytes.wrapping_add(size as i64),
                    ..c
                }
            },
            ..r
        }
    }
}

/// Whether MSET is refused: the pairs do not fit and the policy forbids
/// eviction.
pub open spec fn mset_refused(st: KVState, cfg: KVConfig, pairs: Seq<(Seq<char>, Seq<u8>)>) -> bool {
    pairs.len() > 0 && !fits(st.counters.total_memory_bytes, group_size(pairs), cfg.max_memory_mb)
        && cfg.eviction_policy == EvictionPolicy::NoEviction
}

/// The state after MSET: eviction makes room for all the pairs at once,
/// then they are written whether they fit or not.
pub open spec fn mset_state(st: KVState, cfg: KVConfig, pairs: Seq<(Seq<char>, Seq<u8>)>) -> KVState {
    if pairs.len() == 0 || mset_refused(st, cfg, pairs) {
        st
    } else {
        mset_writes(room(st, cfg, group_size(pairs)), pairs)
    }
}

/// The state after GET of each key in turn.
pub open spec fn mget_state(st: KVState, keys: Seq<Seq<char>>, now: u64) -> KVState
    decreases keys.len(),
{
    if keys.len() == 0 { st } else { get_state(mget_state(st, keys.drop_last(), now), keys.last(), now) }
}

/// What MGET answers: each GET's answer in turn.
pub open spec fn mget_answer(st: KVState, keys: Seq<Seq<char>>, now: u64) -> Seq<Option<Seq<u8>>>
    decreases keys.len(),
{
    if keys.len() == 0 {
        Seq::empty()
    } else {
        mget_answer(st, keys.drop_last(), now).push(get_answer(mget_state(st, keys.drop_last(), now), keys.last(), now))
    }
}

/// The state after DELETE of each key in turn.
pub open spec fn mdel_state(st: KVState, keys: Seq<Seq<char>>) -> KVState
    decreases keys.len(),
{
    if keys.len() == 0 { st } else { delete_state(mdel_state(st, keys.drop_last()), keys.last()) }
}

/// How many of the deletes found their key.
pub open spec fn mdel_count(st: KVState, keys: Seq<Seq<char>>) -> nat
    decreases keys.len(),
{
    if keys.len() == 0 {
        0
    } else {
        mdel_count(st, keys.drop_last()) + if present(mdel_state(st, keys.drop_last()).entries, keys.last()) { 1nat } else { 0nat }
    }
}

/// Whether some key of the pairs holds a live value.
pub open spec fn any_live(s: Seq<Ent>, pairs: Seq<(Seq<char>, Seq<u8>)>, now: u64) -> bool {
    exists|i: int| 0 <= i < pairs.len() && live_at(s, (#[trigger] pairs[i]).0, now)
}

/// The entries and cache after the pairs are written without a time to
/// live, each key dropped from the cache.
pub open spec fn msetnx_writes(st: KVState, pairs: Seq<(Seq<char>, Seq<u8>)>) -> KVState
    decreases pairs.len(),
{
    if pairs.len() == 0 {
        st
    } else {
        let r = msetnx_writes(st, pairs.drop_last());
        KVState {
            entries: put_entry(r.entries, pairs.last().0, (pairs.last().1, None)),
            cache: cache_del(r.cache, pairs.last().0),
            ..r
        }
    }
}

/// The state after MSETNX: all pairs written when no key holds a live
/// value, with SET counted once per pair; else unchanged.
pub open spec fn msetnx_state(st: KVState, pairs: Seq<(Seq<char>, Seq<u8>)>, now: u64) -> KVState {
    if pairs.len() == 0 || any_live(st.entries, pairs, now) {
        st
    } else {
        let r = msetnx_writes(st, pairs);
        KVState { counters: KVCounters { sets: st.counters.sets.wrapping_add(pairs.len() as u64), ..st.counters }, ..r }
    }
}

// ---------------------------------------------------------------------------
// INCR and the expiry commands
// ---------------------------------------------------------------------------

/// The number INCR starts from and the seconds left to keep: the live
/// value's number and remaining time, or 0 and none when the key is absent
/// or expired; none at all when the live value is not an integer.
pub open spec fn incr_base(s: Seq<Ent>, k: Seq<char>, now: u64) -> Option<(i64, Option<u64>)> {
    if live_at(s, k, now) {
        match parsed_i64(lookup(s, k).0) {
            Some(x) => Some((x, remaining(lookup(s, k), t32(now)))),
            None => None,
        }
    } else {
        Some((0, None))
    }
}

/// The seconds left that INCR keeps.
pub open spec fn incr_ttl(s: Seq<Ent>, k: Seq<char>, now: u64) -> Option<u64> {
    match incr_base(s, k, now) {
        Some((_x, t)) => t,
        None => None,
    }
}

/// What INCR by `amount` answers: the new number, or none when the value
/// is not an integer or the sum leaves the range of `i64`.
pub open spec fn incr_answer(st: KVState, k: Seq<char>, amount: i64, now: u64) -> Option<i64> {
    match incr_base(st.entries, k, now) {
        Some((x, _)) => if i64::MIN <= x + amount <= i64::MAX { Some((x + amount) as i64) } else { None },
        None => None,
    }
}

/// The state after INCR: the new number's decimal text, with the time to
/// live kept; one SET counted. Unchanged when refused.
pub open spec fn incr_state(st: KVState, k: Seq<char>, amount: i64, now: u64) -> KVState {
    match incr_answer(st, k, amount, now) {
        Some(n) => KVState {
            entries: put_entry(st.entries, k, StoredValue::made_at(signed_ascii(n as int), incr_ttl(st.entries, k, now), t32(now))),
            counters: KVCounters { sets: st.counters.sets.wrapping_add(1), ..st.counters },
            ..st
        },
        None => st,
    }
}

/// What TTL answers for a present key: 0 once expired, else the seconds
/// left (none without an expiry).
pub open spec fn ttl_answer(s: Seq<Ent>, k: Seq<char>, now: u64) -> Option<u64> {
    if expired(lookup(s, k), t32(now)) { Some(0) } else { remaining(lookup(s, k), t32(now)) }
}

/// The entries after the value of `k` is taken out and written back with a
/// new time to live (none for PERSIST): the entry moves to the end.
pub open spec fn rettl(s: Seq<Ent>, k: Seq<char>, ttl: Option<u64>, now: u64) -> Seq<Ent> {
    swap_rm(s, pos(s, k)).push((k, StoredValue::made_at(lookup(s, k).0, ttl, t32(now))))
}

// ---------------------------------------------------------------------------
// String commands
// ---------------------------------------------------------------------------

/// The value after APPEND of `v` at `now`, and the new length: a live
/// value is stamped as accessed and grows; an expired or absent one is
/// replaced by `v` without expiry.
pub open spec fn appended(s: Seq<Ent>, k: Seq<char>, v: Seq<u8>, now: u64) -> Val {
    if live_at(s, k, now) {
        let a = StoredValue::accessed(lookup(s, k), t32(now));
        (a.0 + v, a.1)
    } else {
        (v, None)
    }
}

/// The state after APPEND: one SET counted, the key dropped from the cache.
pub open spec fn append_state(st: KVState, k: Seq<char>, v: Seq<u8>, now: u64) -> KVState {
    KVState {
        entries: put_entry(st.entries, k, appended(st.entries, k, v, now)),
        counters: KVCounters { sets: st.counters.sets.wrapping_add(1), ..st.counters },
        cache: cache_del(st.cache, k),
    }
}

/// The byte range GETRANGE takes from a value of `len` bytes: inclusive
/// bounds, negative ones counted from the end, clamped to the value.
pub open spec fn range_start(len: int, start: int) -> int {
    if start < 0 { if len + start < 0 { 0 } else { len + start } } else { if start < len { start } else { len } }
}

pub open spec fn range_end(len: int, end: int) -> int {
    if end < 0 { if len + end + 1 < 0 { 0 } else { len + end + 1 } } else { if end + 1 < len { end + 1 } else { len } }
}

/// Whether GETRANGE finds a live value and a range that is not empty.
pub open spec fn range_found(s: Seq<Ent>, k: Seq<char>, start: int, end: int, now: u64) -> bool {
    let len = lookup(s, k).0.len() as int;
    live_at(s, k, now) && range_start(len, start) < range_end(len, end) && range_start(len, start) < len
}

/// What GETRANGE answers.
pub open spec fn getrange_answer(s: Seq<Ent>, k: Seq<char>, start: int, end: int, now: u64) -> Seq<u8> {
    let d = lookup(s, k).0;
    if range_found(s, k, start, end, now) {
        d.subrange(range_start(d.len() as int, start), range_end(d.len() as int, end))
    } else {
        Seq::empty()
    }
}

/// The counters after GETRANGE: a hit when a range is found, a miss when
/// the key is absent, nothing otherwise.
pub open spec fn getrange_counters(st: KVState, k: Seq<char>, start: int, end: int, now: u64) -> KVCounters {
    let c = st.counters;
    if !present(st.entries, k) {
        KVCounters { gets: c.gets.wrapping_add(1), misses: c.misses.wrapping_add(1), ..c }
    } else if range_found(st.entries, k, start, end, now) {
        KVCounters { gets: c.gets.wrapping_add(1), hits: c.hits.wrapping_add(1), ..c }
    } else {
        c
    }
}

/// `d` with `v` written from `offset`, zero-padded as needed.
pub open spec fn overwrite(d: Seq<u8>, offset: nat, v: Seq<u8>) -> Seq<u8> {
    let n = if d.len() < offset + v.len() { offset + v.len() } else { d.len() };
    Seq::new(n, |i: int| if offset <= i < offset + v.len() { v[i - offset] } else if i < d.len() { d[i] } else { 0u8 })
}

/// The value after SETRANGE: a live value is stamped as accessed and
/// overwritten; an expired or absent one becomes the zero-padded `v`.
pub open spec fn setranged(s: Seq<Ent>, k: Seq<char>, offset: nat, v: Seq<u8>, now: u64) -> Val {
    if live_at(s, k, now) {
        let a = StoredValue::accessed(lookup(s, k), t32(now));
        (overwrite(a.0, offset, v), a.1)
    } else {
        (overwrite(Seq::empty(), offset, v), None)
    }
}

/// The state after SETRANGE.
pub open spec fn setrange_state(st: KVState, k: Seq<char>, offset: nat, v: Seq<u8>, now: u64) -> KVState {
    KVState {
        entries: put_entry(st.entries, k, setranged(st.entries, k, offset, v, now)),
        counters: KVCounters { sets: st.counters.sets.wrapping_add(1), ..st.counters },
        cache: cache_del(st.cache, k),
    }
}

/// The counters after STRLEN: a hit for a live value, else a miss.
pub open spec fn strlen_counters(st: KVState, k: Seq<char>, now: u64) -> KVCounters {
    let c = st.counters;
    if live_at(st.entries, k, now) {
        KVCounters { gets: c.gets.wrapping_add(1), hits: c.hits.wrapping_add(1), ..c }
    } else {
        KVCounters { gets: c.gets.wrapping_add(1), misses: c.misses.wrapping_add(1), ..c }
    }
}

/// What GETSET answers: the old bytes (empty once expired), none when the
/// key is absent.
pub open spec fn getset_answer(s: Seq<Ent>, k: Seq<char>, now: u64) -> Option<Seq<u8>> {
    if !present(s, k) {
        None
    } else if expired(lookup(s, k), t32(now)) {
        Some(Seq::empty())
    } else {
        Some(lookup(s, k).0)
    }
}

/// The state after GETSET: the old entry taken out and `v` written at the
/// end without expiry; a new key is counted; the key is dropped from the
/// cache.
pub open spec fn getset_state(st: KVState, k: Seq<char>, v: Seq<u8>) -> KVState {
    let c = st.counters;
    KVState {
        entries: if present(st.entries, k) { swap_rm(st.entries, pos(st.entries, k)).push((k, (v, None))) } else { st.entries.push((k, (v, None))) },
        counters: if present(st.entries, k) {
            KVCounters { gets: c.gets.wrapping_add(1), sets: c.sets.wrapping_add(1), hits: c.hits.wrapping_add(1), ..c }
        } else {
            KVCounters {
                gets: c.gets.wrapping_add(1),
                sets: c.sets.wrapping_add(1),
                misses: c.misses.wrapping_add(1),
                total_keys: c.total_keys.wrapping_add(1),
                ..c
            }
        },
        cache: cache_del(st.cache, k),
    }
}

// ---------------------------------------------------------------------------
// Listings, flush and the expiry sweep
// ---------------------------------------------------------------------------

/// The keys of `s` that start with `p`, in order.
pub open spec fn prefixed(s: Seq<Ent>, p: Seq<char>) -> Seq<Seq<char>>
    decreases s.len(),
{
    if s.len() == 0 {
        Seq::empty()
    } else {
        let r = prefixed(s.drop_last(), p);
        if has_prefix(s.last().0, p) { r.push(s.last().0) } else { r }
    }
}

/// The live entries of `s` at `now`, as key and bytes, in order.
pub open spec fn live_pairs(s: Seq<Ent>, now: u64) -> Seq<(Seq<char>, Seq<u8>)>
    decreases s.len(),
{
    if s.len() == 0 {
        Seq::empty()
    } else {
        let r = live_pairs(s.drop_last(), now);
        if live(s.last().1, now) { r.push((s.last().0, val_bytes(s.last().1))) } else { r }
    }
}

/// The keys among `s` whose values have expired at `now`, in order.
pub open spec fn stale_keys(s: Seq<Ent>, now: u64) -> Seq<Seq<char>>
    decreases s.len(),
{
    if s.len() == 0 {
        Seq::empty()
    } else {
        let r = stale_keys(s.drop_last(), now);
        if expired(s.last().1, t32(now)) { r.push(s.last().0) } else { r }
    }
}

/// How many entries one round of the sweep looks at.
pub open spec fn sweep_sample(s: Seq<Ent>) -> Seq<Ent> {
    if s.len() <= 20 { s } else { s.take(20) }
}

/// The state after each key of `ks` that is present is taken out (its
/// charge freed), and how many were.
pub open spec fn take_out(st: KVState, ks: Seq<Seq<char>>) -> (KVState, nat)
    decreases ks.len(),
{
    if ks.len() == 0 {
        (st, 0)
    } else {
        let (r, n) = take_out(st, ks.drop_last());
        let k = ks.last();
        if present(r.entries, k) {
            (
                KVState {
                    entries: swap_rm(r.entries, pos(r.entries, k)),
                    counters: KVCounters {
                        total_memory_bytes: r.counters.total_memory_bytes.wrapping_sub(charge(k, lookup(r.entries, k)) as i64),
                        ..r.counters
                    },
                    ..r
                },
                n + 1,
            )
        } else {
            (r, n)
        }
    }
}

/// Up to `rounds` rounds of the sweep: each takes out the expired keys
/// among the first 20 entries, and the sweep stops after a round that
/// found fewer than 5.
pub open spec fn sweep(st: KVState, now: u64, rounds: nat) -> (KVState, nat)
    decreases rounds,
{
    if rounds == 0 {
        (st, 0)
    } else {
        let ks = stale_keys(sweep_sample(st.entries), now);
        let (r, n) = take_out(st, ks);
        if ks.len() < 5 {
            (r, n)
        } else {
            let (r2, n2) = sweep(r, now, (rounds - 1) as nat);
            (r2, n + n2)
        }
    }
}

/// The state after the expiry sweep: sixteen rounds at most, then the key
/// count lowered by the number taken out.
pub open spec fn cleanup_state(st: KVState, now: u64) -> KVState {
    let (r, n) = sweep(st, now, 16);
    KVState { counters: KVCounters { total_keys: r.counters.total_keys.wrapping_sub(n as i64), ..r.counters }, ..r }
}

// ---------------------------------------------------------------------------
// Laws
// ---------------------------------------------------------------------------

pub proof fn lemma_pos(s: Seq<Ent>, i: int)
    requires
        uniq(s),
        0 <= i < s.len(),
    ensures
        present(s, s[i].0),
        pos(s, s[i].0) == i,
{
    let k = s[i].0;
    assert(s[i].0 == k);
    let j = pos(s, k);
    assert(s[j].0 == k);
}

pub proof fn lemma_swap_rm(s: Seq<Ent>, i: int)
    requires
        uniq(s),
        0 <= i < s.len(),
    ensures
        uniq(swap_rm(s, i)),
        !present(swap_rm(s, i), s[i].0),
        forall|k: Seq<char>| k != s[i].0 ==> (#[trigger] present(swap_rm(s, i), k) == present(s, k)),
        forall|k: Seq<char>| k != s[i].0 && present(s, k) ==> #[trigger] lookup(swap_rm(s, i), k) == lookup(s, k),
{
    let t = swap_rm(s, i);
    let last = s.len() - 1;
    assert forall|a: int| 0 <= a < t.len() implies #[trigger] t[a] == s[if a == i { last } else { a }] by {}
    assert forall|a: int, b: int| 0 <= a < t.len() && 0 <= b < t.len() && a != b implies (#[trigger] t[a]).0 != (#[trigger] t[b]).0 by {
        let a2 = if a == i { last } else { a };
        let b2 = if b == i { last } else { b };
        assert(t[a] == s[a2] && t[b] == s[b2]);
    }
    if present(t, s[i].0) {
        let w = choose|w: int| 0 <= w < t.len() && (#[trigger] t[w]).0 == s[i].0;
        let w2 = if w == i { last } else { w };
        assert(t[w] == s[w2]);
    }
    assert forall|k: Seq<char>| k != s[i].0 implies (#[trigger] present(t, k) == present(s, k)) by {
        if present(s, k) {
            let w = choose|w: int| 0 <= w < s.len() && (#[trigger] s[w]).0 == k;
            if w == last {
                assert(t[i].0 == k);
            } else {
                assert(t[w].0 == k);
            }
        }
        if present(t, k) {
            let w = choose|w: int| 0 <= w < t.len() && (#[trigger] t[w]).0 == k;
            let w2 = if w == i { last } else { w };
            assert(s[w2].0 == k);
        }
    }
    assert forall|k: Seq<char>| k != s[i].0 && present(s, k) implies #[trigger] lookup(t, k) == lookup(s, k) by {
        let w = pos(s, k);
        assert(s[w].0 == k);
        let w2 = if w == last { i } else { w };
        assert(t[w2] == s[w]);
        lemma_pos(t, w2);
        lemma_pos(s, w);
    }
}

pub proof fn lemma_put_entry(s: Seq<Ent>, k: Seq<char>, v: Val)
    requires
        uniq(s),
    ensures
        uniq(put_entry(s, k, v)),
        present(put_entry(s, k, v), k),
        lookup(put_entry(s, k, v), k) == v,
        forall|q: Seq<char>| q != k ==> (#[trigger] present(put_entry(s, k, v), q) == present(s, q)),
        forall|q: Seq<char>| q != k && present(s, q) ==> #[trigger] lookup(put_entry(s, k, v), q) == lookup(s, q),
{
    let t = put_entry(s, k, v);
    if present(s, k) {
        let i = pos(s, k);
        assert(s[i].0 == k);
        assert forall|a: int, b: int| 0 <= a < t.len() && 0 <= b < t.len() && a != b implies (#[trigger] t[a]).0 != (#[trigger] t[b]).0 by {
            assert(t[a].0 == s[a].0 && t[b].0 == s[b].0);
        }
        lemma_pos(t, i);
        assert forall|q: Seq<char>| q != k implies (#[trigger] present(t, q) == present(s, q)) by {
            if present(s, q) {
                let w = choose|w: int| 0 <= w < s.len() && (#[trigger] s[w]).0 == q;
                assert(t[w].0 == q);
            }
            if present(t, q) {
                let w = choose|w: int| 0 <= w < t.len() && (#[trigger] t[w]).0 == q;
                assert(s[w].0 == q);
            }
        }
        assert forall|q: Seq<char>| q != k && present(s, q) implies #[trigger] lookup(t, q) == lookup(s, q) by {
            let w = pos(s, q);
            assert(s[w].0 == q);
            assert(w != i);
            assert(t[w] == s[w]);
            lemma_pos(t, w);
        }
    } else {
        let n = s.len() as int;
        assert forall|a: int, b: int| 0 <= a < t.len() && 0 <= b < t.len() && a != b implies (#[trigger] t[a]).0 != (#[trigger] t[b]).0 by {
            if a == n {
                assert(t[b] == s[b]);
            } else if b == n {
                assert(t[a] == s[a]);
            } else {
                assert(t[a] == s[a] && t[b] == s[b]);
            }
        }
        lemma_pos(t, n);
        assert forall|q: Seq<char>| q != k implies (#[trigger] present(t, q) == present(s, q)) by {
            if present(s, q) {
                let w = choose|w: int| 0 <= w < s.len() && (#[trigger] s[w]).0 == q;
                assert(t[w].0 == q);
            }
            if present(t, q) {
                let w = choose|w: int| 0 <= w < t.len() && (#[trigger] t[w]).0 == q;
                assert(w != n);
                assert(s[w].0 == q);
            }
        }
        assert forall|q: Seq<char>| q != k && present(s, q) implies #[trigger] lookup(t, q) == lookup(s, q) by {
            let w = pos(s, q);
            assert(s[w].0 == q);
            assert(t[w] == s[w]);
            lemma_pos(t, w);
        }
    }
}

/// Eviction keeps a state well formed.
pub proof fn lemma_evicted_wf(st: KVState, cfg: KVConfig, needed: usize)
    requires
        state_wf(st),
    ensures
        state_wf(evicted(st, cfg, needed)),
        evicted(st, cfg, needed).cache == st.cache,
    decreases st.entries.len(),
{
    let c0 = st.counters;
    if fits(c0.total_memory_bytes, needed, cfg.max_memory_mb) || cfg.eviction_policy == EvictionPolicy::NoEviction {
    } else {
        match victim(st.entries, cfg.eviction_policy, sample_size(cfg)) {
            Some(j) => if 0 <= j < st.entries.len() {
                let e = st.entries[j];
                let next = KVState {
                    entries: swap_rm(st.entries, j),
                    counters: KVCounters {
                        total_keys: c0.total_keys.wrapping_sub(1),
                        total_memory_bytes: c0.total_memory_bytes.wrapping_sub(charge(e.0, e.1) as i64),
                        ..c0
                    },
                    ..st
                };
                lemma_swap_rm(st.entries, j);
                lemma_evicted_wf(next, cfg, needed);
            },
            None => {},
        }
    }
}

/// What a read gives back of a write: after an accepted SET of `v` under
/// `k` without a time to live, GET of `k` at any time answers `v`.
pub proof fn lemma_get_after_set(st: KVState, cfg: KVConfig, k: Seq<char>, v: Seq<u8>, now: u64, later: u64)
    requires
        state_wf(st),
        set_ok(st, cfg, k, v),
    ensures
        get_answer(set_state(st, cfg, k, v, None, now), k, later) == Some(v),
{
    let size = entry_size(k, v.len());
    let r = room(st, cfg, size);
    if !fits(st.counters.total_memory_bytes, size, cfg.max_memory_mb) {
        lemma_evicted_wf(st, cfg, size);
    }
    assert(state_wf(r));
    let st2 = set_state(st, cfg, k, v, None, now);
    lemma_put_entry(r.entries, k, StoredValue::made_at(v, None, t32(now)));
    match r.cache {
        Some(c) => {
            crate::cache_layer::lemma_put_state(c, k, v, None, now);
        },
        None => {},
    }
}

/// A deleted key is gone: after DELETE of `k`, GET of `k` answers nothing.
pub proof fn lemma_get_after_delete(st: KVState, k: Seq<char>, now: u64)
    requires
        state_wf(st),
    ensures
        get_answer(delete_state(st, k), k, now) is None,
{
    if present(st.entries, k) {
        let i = pos(st.entries, k);
        let w = choose|w: int| 0 <= w < st.entries.len() && (#[trigger] st.entries[w]).0 == k;
        assert(st.entries[i].0 == k);
        lemma_swap_rm(st.entries, i);
    }
    match st.cache {
        Some(c) => {
            crate::cache_layer::lemma_deleted_state(c, k);
        },
        None => {},
    }
}

} // verus!
