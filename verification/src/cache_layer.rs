//! The L1 cache in front of the key-value store: a least-recently-used
//! cache of byte values, each with an optional absolute expiry time.
//!
//! The entries are kept in one vector, least recently used first; no key
//! occurs twice. That vector is both the map of the cache and its LRU order.

use vstd::prelude::*;
use crate::clock::unix_time_secs;
use crate::partition::copy_bytes;
use crate::text::same_text;

verus! {

/// A cached value.
#[derive(Debug)]
struct CacheEntry {
    value: Vec<u8>,
    /// Absolute expiry time (Unix seconds), if any.
    ttl: Option<u64>,
    last_accessed: u64,
    size: usize,
}

/// What one entry of the cache holds.
pub struct CachedItem {
    pub value: Seq<u8>,
    pub ttl: Option<u64>,
    pub last_accessed: u64,
    pub size: usize,
}

/// The whole state of a cache: its entries (least recently used first),
/// its counters and its capacity.
pub struct CacheState {
    pub items: Seq<(Seq<char>, CachedItem)>,
    pub counters: CacheStats,
    pub capacity: usize,
}

/// Counters of the cache.
#[derive(Debug, Clone, Copy)]
pub struct CacheStats {
    pub l1_hits: u64,
    pub l1_misses: u64,
    pub l1_evictions: u64,
    /// The capacity, as of the last write.
    pub l1_size: usize,
    /// The number of entries, as of the last write or delete.
    pub l1_entries: usize,
    /// Bytes of cached values.
    pub total_bytes: usize,
}

impl Default for CacheStats {
    fn default() -> (r: Self)
        ensures
            r.l1_hits == 0 && r.l1_misses == 0 && r.l1_evictions == 0,
            r.l1_size == 0 && r.l1_entries == 0 && r.total_bytes == 0,
    {
        CacheStats { l1_hits: 0, l1_misses: 0, l1_evictions: 0, l1_size: 0, l1_entries: 0, total_bytes: 0 }
    }
}

/// `a - b`, held at 0.
pub open spec fn sat_sub(a: usize, b: usize) -> usize {
    if a >= b { (a - b) as usize } else { 0 }
}

/// `x` after `n` wrapping increments.
pub open spec fn bumped(x: u64, n: nat) -> u64
    decreases n,
{
    if n == 0 { x } else { bumped(x, (n - 1) as nat).wrapping_add(1) }
}

/// `t` after the sizes of `s` are taken off one by one, each held at 0.
pub open spec fn less_sizes(t: usize, s: Seq<(Seq<char>, CachedItem)>) -> usize
    decreases s.len(),
{
    if s.len() == 0 { t } else { sat_sub(less_sizes(t, s.drop_last()), s.last().1.size) }
}

/// How many entries a write evicts: with `n` entries in the order and
/// `extra` more in the map (the entry being replaced), the oldest go while
/// the map is at `max` or more and the order is not empty.
pub open spec fn evict_count(n: nat, extra: nat, max: nat) -> nat {
    if n + extra >= max {
        if n <= n + extra + 1 - max { n } else { (n + extra + 1 - max) as nat }
    } else {
        0
    }
}

/// Whether some entry of `s` has key `k`.
pub open spec fn has_key(s: Seq<(Seq<char>, CachedItem)>, k: Seq<char>) -> bool {
    exists|i: int| 0 <= i < s.len() && (#[trigger] s[i]).0 == k
}

/// The position of key `k` in `s` (meaningful when `has_key`).
pub open spec fn key_index(s: Seq<(Seq<char>, CachedItem)>, k: Seq<char>) -> int {
    choose|i: int| 0 <= i < s.len() && (#[trigger] s[i]).0 == k
}

/// Whether no key occurs twice in `s`.
pub open spec fn keys_distinct(s: Seq<(Seq<char>, CachedItem)>) -> bool {
    forall|i: int, j: int| 0 <= i < s.len() && 0 <= j < s.len() && i != j ==> (#[trigger] s[i]).0 != (#[trigger] s[j]).0
}

/// Whether an entry has expired at `now`.
pub open spec fn stale(e: CachedItem, now: u64) -> bool {
    e.ttl matches Some(t) && now > t
}

/// `st` after a lookup of `k` at `now`: a miss is counted when the key is
/// absent or expired (an expired entry is dropped); a hit moves the entry
/// to the most recent end with `now` as its access time.
pub open spec fn got_state(st: CacheState, k: Seq<char>, now: u64) -> CacheState {
    if !has_key(st.items, k) {
        CacheState { counters: CacheStats { l1_misses: st.counters.l1_misses.wrapping_add(1), ..st.counters }, ..st }
    } else {
        let i = key_index(st.items, k);
        let e = st.items[i];
        if stale(e.1, now) {
            CacheState {
                items: st.items.remove(i),
                counters: CacheStats { l1_misses: st.counters.l1_misses.wrapping_add(1), ..st.counters },
                ..st
            }
        } else {
            CacheState {
                items: st.items.remove(i).push((e.0, CachedItem { last_accessed: now, ..e.1 })),
                counters: CacheStats { l1_hits: st.counters.l1_hits.wrapping_add(1), ..st.counters },
                ..st
            }
        }
    }
}

/// What a lookup of `k` at `now` answers.
pub open spec fn got_value(st: CacheState, k: Seq<char>, now: u64) -> Option<Seq<u8>> {
    if has_key(st.items, k) && !stale(st.items[key_index(st.items, k)].1, now) {
        Some(st.items[key_index(st.items, k)].1.value)
    } else {
        None
    }
}

/// `st` after `v` is put under `k` at `now` with absolute expiry `ttl`.
pub open spec fn put_state(st: CacheState, k: Seq<char>, v: Seq<u8>, ttl: Option<u64>, now: u64) -> CacheState {
    let s0 = st.items;
    let has = has_key(s0, k);
    let i = key_index(s0, k);
    let s1 = if has { s0.remove(i) } else { s0 };
    let t0 = if has { sat_sub(st.counters.total_bytes, s0[i].1.size) } else { st.counters.total_bytes };
    let n = evict_count(s1.len(), if has { 1 } else { 0 }, st.capacity as nat);
    let item = CachedItem { value: v, ttl, last_accessed: now, size: v.len() as usize };
    let items = s1.skip(n as int).push((k, item));
    CacheState {
        items,
        counters: CacheStats {
            l1_evictions: bumped(st.counters.l1_evictions, n),
            l1_size: st.capacity,
            l1_entries: items.len() as usize,
            total_bytes: less_sizes(t0, s1.take(n as int)).wrapping_add(v.len() as usize),
            ..st.counters
        },
        ..st
    }
}

/// `st` after the entry for `k`, if any, is dropped.
pub open spec fn deleted_state(st: CacheState, k: Seq<char>) -> CacheState {
    if has_key(st.items, k) {
        let i = key_index(st.items, k);
        let items = st.items.remove(i);
        CacheState {
            items,
            counters: CacheStats {
                l1_entries: items.len() as usize,
                total_bytes: sat_sub(st.counters.total_bytes, st.items[i].1.size),
                ..st.counters
            },
            ..st
        }
    } else {
        st
    }
}

/// `st` with every entry dropped.
pub open spec fn cleared_state(st: CacheState) -> CacheState {
    CacheState {
        items: Seq::empty(),
        counters: CacheStats { l1_entries: 0, total_bytes: 0, ..st.counters },
        ..st
    }
}

/// The view of an optional byte vector.
pub open spec fn opt_bytes(r: Option<Vec<u8>>) -> Option<Seq<u8>> {
    match r {
        Some(v) => Some(v@),
        None => None,
    }
}

spec fn item_of(e: CacheEntry) -> CachedItem {
    CachedItem { value: e.value@, ttl: e.ttl, last_accessed: e.last_accessed, size: e.size }
}

spec fn pair_view(p: (String, CacheEntry)) -> (Seq<char>, CachedItem) {
    (p.0@, item_of(p.1))
}

/// The least-recently-used cache.
#[derive(Debug)]
pub struct CacheLayer {
    /// Least recently used first.
    entries: Vec<(String, CacheEntry)>,
    max_size: usize,
    stats: CacheStats,
}

impl CacheLayer {
    /// The entries, least recently used first.
    pub closed spec fn items(&self) -> Seq<(Seq<char>, CachedItem)> {
        self.entries@.map_values(|p: (String, CacheEntry)| pair_view(p))
    }

    /// The capacity.
    pub closed spec fn capacity(&self) -> usize {
        self.max_size
    }

    /// The counters.
    pub closed spec fn counters(&self) -> CacheStats {
        self.stats
    }

    /// The whole state.
    pub open spec fn state(&self) -> CacheState {
        CacheState { items: self.items(), counters: self.counters(), capacity: self.capacity() }
    }

    /// The invariant: no key twice.
    pub open spec fn wf(&self) -> bool {
        keys_distinct(self.items())
    }

    /// An empty cache of `l1_max_size` entries at most.
    pub fn new(l1_max_size: usize) -> (r: Self)
        ensures
            r.wf(),
            r.items().len() == 0,
            r.capacity() == l1_max_size,
            r.counters() == CacheStats::default_value(),
    {
        let r = CacheLayer { entries: Vec::new(), max_size: l1_max_size, stats: CacheStats::default() };
        assert(r.items() =~= Seq::<(Seq<char>, CachedItem)>::empty());
        r
    }

    /// The position of `key`.
    fn find(&self, key: &str) -> (r: Option<usize>)
        requires
            self.wf(),
        ensures
            match r {
                Some(i) => i < self.items().len() && self.items()[i as int].0 == key@
                    && has_key(self.items(), key@) && key_index(self.items(), key@) == i,
                None => !has_key(self.items(), key@),
            },
    {
        let mut i: usize = 0;
        while i < self.entries.len()
            invariant
                self.wf(),
                i <= self.entries@.len(),
                forall|j: int| 0 <= j < i ==> (#[trigger] self.entries@[j]).0@ != key@,
            decreases self.entries@.len() - i,
        {
            if same_text(self.entries[i].0.as_str(), key) {
                proof {
                    let s = self.items();
                    assert(s[i as int].0 == key@);
                    let w = key_index(s, key@);
                    assert(s[w].0 == key@);
                    assert(w == i);
                }
                return Some(i);
            }
            i = i + 1;
        }
        proof {
            if has_key(self.items(), key@) {
                let w = choose|w: int| 0 <= w < self.items().len() && (#[trigger] self.items()[w]).0 == key@;
                assert(self.entries@[w].0@ == key@);
            }
        }
        None
    }

    /// Look `key` up at time `now`. A hit moves the entry to the most
    /// recent end and stamps its access time; an expired entry is dropped
    /// and counts as a miss.
    pub fn get_at(&mut self, key: &str, now: u64) -> (r: Option<Vec<u8>>)
        requires
            old(self).wf(),
        ensures
            final(self).wf(),
            final(self).state() == got_state(old(self).state(), key@, now),
            opt_bytes(r) == got_value(old(self).state(), key@, now),
    {
        let ghost s0 = self.items();
        match self.find(key) {
            None => {
                self.stats.l1_misses = self.stats.l1_misses.wrapping_add(1);
                None
            },
            Some(i) => {
                let (k, mut e) = self.entries.remove(i);
                proof {
                    assert(self.items() =~= s0.remove(i as int));
                    lemma_remove_distinct(s0, i as int);
                }
                let expired = match e.ttl {
                    Some(t) => now > t,
                    None => false,
                };
                if expired {
                    self.stats.l1_misses = self.stats.l1_misses.wrapping_add(1);
                    None
                } else {
                    e.last_accessed = now;
                    let v = copy_bytes(&e.value);
                    proof {
                        lemma_removed_key_gone(s0, i as int);
                    }
                    let ghost s1 = self.items();
                    self.entries.push((k, e));
                    proof {
                        assert(self.items() =~= s1.push(pair_view((k, e))));
                        lemma_push_distinct(s1, pair_view((k, e)));
                    }
                    self.stats.l1_hits = self.stats.l1_hits.wrapping_add(1);
                    Some(v)
                }
            },
        }
    }

    /// Look `key` up now (see `get_at`).
    pub fn get(&mut self, key: &str) -> (r: Option<Vec<u8>>)
        requires
            old(self).wf(),
        ensures
            final(self).wf(),
            exists|now: u64| final(self).state() == #[trigger] got_state(old(self).state(), key@, now)
                && opt_bytes(r) == got_value(old(self).state(), key@, now),
    {
        let now = unix_time_secs();
        self.get_at(key, now)
    }

    /// Put `value` under `key` at time `now`, with absolute expiry `ttl`.
    /// An existing entry for the key is replaced; while the map of the cache
    /// is at capacity, the least recently used entries are evicted first.
    pub fn put_at(&mut self, key: String, value: Vec<u8>, ttl: Option<u64>, now: u64)
        requires
            old(self).wf(),
        ensures
            final(self).wf(),
            final(self).state() == put_state(old(self).state(), key@, value@, ttl, now),
    {
        let ghost s0 = self.items();
        let entry_size = value.len();
        let mut extra: usize = 0;
        let len_all = self.entries.len();
        match self.find(key.as_str()) {
            Some(i) => {
                let (_k, gone) = self.entries.remove(i);
                proof {
                    assert(self.items() =~= s0.remove(i as int));
                    lemma_remove_distinct(s0, i as int);
                }
                self.stats.total_bytes = if self.stats.total_bytes >= gone.size {
                    self.stats.total_bytes - gone.size
                } else {
                    0
                };
                extra = 1;
            },
            None => {},
        }
        let ghost s1 = self.items();
        let ghost t0 = self.stats.total_bytes;
        let ghost e0 = self.stats.l1_evictions;
        let ghost n = s1.len();
        proof {
            assert(s1.len() == self.entries@.len());
            assert(self.entries@.len() + extra <= len_all);
        }
        let mut j: usize = 0;
        while self.entries.len() + extra >= self.max_size && self.entries.len() > 0
            invariant
                extra <= 1,
                self.entries@.len() + extra <= usize::MAX,
                j <= n,
                j == 0 || j <= n + extra + 1 - self.max_size,
                self.items() == s1.skip(j as int),
                keys_distinct(s1),
                self.stats.l1_evictions == bumped(e0, j as nat),
                self.stats.total_bytes == less_sizes(t0, s1.take(j as int)),
                self.stats.l1_hits == old(self).stats.l1_hits,
                self.stats.l1_misses == old(self).stats.l1_misses,
                self.stats.l1_size == old(self).stats.l1_size,
                self.stats.l1_entries == old(self).stats.l1_entries,
                self.max_size == old(self).max_size,
                n == s1.len(),
                n <= usize::MAX,
            decreases self.entries@.len(),
        {
            let ghost before = self.items();
            proof {
                assert(before.len() == self.entries@.len());
                assert(j < n);
            }
            let (_k, ev) = self.entries.remove(0);
            proof {
                assert(self.items() =~= before.remove(0));
                assert(before.remove(0) =~= s1.skip(j + 1));
                assert(s1.take(j + 1).drop_last() =~= s1.take(j as int));
                assert(s1.take(j + 1).last() == s1[j as int]);
                assert(before[0] == s1[j as int]);
            }
            self.stats.l1_evictions = self.stats.l1_evictions.wrapping_add(1);
            self.stats.total_bytes = if self.stats.total_bytes >= ev.size {
                self.stats.total_bytes - ev.size
            } else {
                0
            };
            j = j + 1;
        }
        let ghost s2 = self.items();
        proof {
            assert(j == evict_count(n, extra as nat, self.max_size as nat));
            lemma_skip_distinct(s1, j as int);
        }
        let entry = CacheEntry { value, ttl, last_accessed: now, size: entry_size };
        let ghost pv = pair_view((key, entry));
        proof {
            if has_key(s2, key@) {
                let w = choose|w: int| 0 <= w < s2.len() && (#[trigger] s2[w]).0 == key@;
                assert(s1[w + j] == s2[w]);
                if extra == 1 {
                    assert(!has_key(s1, key@)) by {
                        lemma_removed_key_gone(s0, key_index(s0, key@));
                    }
                }
                assert(has_key(s1, key@));
            }
        }
        self.entries.push((key, entry));
        proof {
            assert(self.items() =~= s2.push(pv));
            lemma_push_distinct(s2, pv);
        }
        self.stats.l1_entries = self.entries.len();
        self.stats.l1_size = self.max_size;
        self.stats.total_bytes = self.stats.total_bytes.wrapping_add(entry_size);
    }

    /// Put `value` under `key` now (see `put_at`).
    pub fn put(&mut self, key: String, value: Vec<u8>, ttl: Option<u64>)
        requires
            old(self).wf(),
        ensures
            final(self).wf(),
            exists|now: u64| final(self).state() == #[trigger] put_state(old(self).state(), key@, value@, ttl, now),
    {
        let now = unix_time_secs();
        self.put_at(key, value, ttl, now)
    }

    /// Drop the entry for `key`, if any.
    pub fn delete(&mut self, key: &str)
        requires
            old(self).wf(),
        ensures
            final(self).wf(),
            final(self).state() == deleted_state(old(self).state(), key@),
    {
        let ghost s0 = self.items();
        match self.find(key) {
            Some(i) => {
                let (_k, gone) = self.entries.remove(i);
                proof {
                    assert(self.items() =~= s0.remove(i as int));
                    lemma_remove_distinct(s0, i as int);
                }
                self.stats.l1_entries = self.entries.len();
                self.stats.total_bytes = if self.stats.total_bytes >= gone.size {
                    self.stats.total_bytes - gone.size
                } else {
                    0
                };
            },
            None => {},
        }
    }

    /// Drop every entry.
    pub fn invalidate_all(&mut self)
        ensures
            final(self).wf(),
            final(self).state() == cleared_state(old(self).state()),
    {
        self.entries = Vec::new();
        self.stats.l1_entries = 0;
        self.stats.total_bytes = 0;
        assert(self.items() =~= Seq::<(Seq<char>, CachedItem)>::empty());
    }

    /// The counters.
    pub fn get_stats(&self) -> (r: CacheStats)
        ensures
            r == self.counters(),
    {
        self.stats
    }
}

impl Default for CacheLayer {
    /// A cache of 10,000 entries.
    fn default() -> (r: Self)
        ensures
            r.wf(),
            r.items().len() == 0,
            r.capacity() == 10_000,
    {
        Self::new(10_000)
    }
}

impl CacheStats {
    /// All counters at zero.
    pub open spec fn default_value() -> CacheStats {
        CacheStats { l1_hits: 0, l1_misses: 0, l1_evictions: 0, l1_size: 0, l1_entries: 0, total_bytes: 0 }
    }
}

proof fn lemma_remove_distinct(s: Seq<(Seq<char>, CachedItem)>, i: int)
    requires
        keys_distinct(s),
        0 <= i < s.len(),
    ensures
        keys_distinct(s.remove(i)),
{
    let t = s.remove(i);
    assert forall|a: int, b: int| 0 <= a < t.len() && 0 <= b < t.len() && a != b implies (#[trigger] t[a]).0 != (#[trigger] t[b]).0 by {
        let a2 = if a < i { a } else { a + 1 };
        let b2 = if b < i { b } else { b + 1 };
        assert(t[a] == s[a2] && t[b] == s[b2]);
    }
}

proof fn lemma_removed_key_gone(s: Seq<(Seq<char>, CachedItem)>, i: int)
    requires
        keys_distinct(s),
        0 <= i < s.len(),
    ensures
        !has_key(s.remove(i), s[i].0),
{
    let t = s.remove(i);
    if has_key(t, s[i].0) {
        let w = choose|w: int| 0 <= w < t.len() && (#[trigger] t[w]).0 == s[i].0;
        let w2 = if w < i { w } else { w + 1 };
        assert(t[w] == s[w2]);
    }
}

proof fn lemma_skip_distinct(s: Seq<(Seq<char>, CachedItem)>, j: int)
    requires
        keys_distinct(s),
        0 <= j <= s.len(),
    ensures
        keys_distinct(s.skip(j)),
{
    let t = s.skip(j);
    assert forall|a: int, b: int| 0 <= a < t.len() && 0 <= b < t.len() && a != b implies (#[trigger] t[a]).0 != (#[trigger] t[b]).0 by {
        assert(t[a] == s[a + j] && t[b] == s[b + j]);
    }
}

proof fn lemma_push_distinct(s: Seq<(Seq<char>, CachedItem)>, p: (Seq<char>, CachedItem))
    requires
        keys_distinct(s),
        !has_key(s, p.0),
    ensures
        keys_distinct(s.push(p)),
{
    let t = s.push(p);
    assert forall|a: int, b: int| 0 <= a < t.len() && 0 <= b < t.len() && a != b implies (#[trigger] t[a]).0 != (#[trigger] t[b]).0 by {
        if a == s.len() {
            assert(t[b] == s[b]);
        } else if b == s.len() {
            assert(t[a] == s[a]);
        }
    }
}

/// After a write of `v` under `k`, the entry for `k` is the most recent
/// one and holds `v`; no key occurs twice.
pub proof fn lemma_put_state(st: CacheState, k: Seq<char>, v: Seq<u8>, ttl: Option<u64>, now: u64)
    requires
        keys_distinct(st.items),
    ensures
        keys_distinct(put_state(st, k, v, ttl, now).items),
        has_key(put_state(st, k, v, ttl, now).items, k),
        key_index(put_state(st, k, v, ttl, now).items, k) == put_state(st, k, v, ttl, now).items.len() - 1,
        put_state(st, k, v, ttl, now).items.last().1 == (CachedItem { value: v, ttl, last_accessed: now, size: v.len() as usize }),
{
    let s0 = st.items;
    let has = has_key(s0, k);
    let i = key_index(s0, k);
    let s1 = if has { s0.remove(i) } else { s0 };
    if has {
        let w = choose|w: int| 0 <= w < s0.len() && (#[trigger] s0[w]).0 == k;
        assert(s0[i].0 == k);
        lemma_remove_distinct(s0, i);
        lemma_removed_key_gone(s0, i);
    }
    assert(keys_distinct(s1));
    assert(!has_key(s1, k));
    let n = evict_count(s1.len(), if has { 1 } else { 0 }, st.capacity as nat);
    let s2 = s1.skip(n as int);
    lemma_skip_distinct(s1, n as int);
    if has_key(s2, k) {
        let w = choose|w: int| 0 <= w < s2.len() && (#[trigger] s2[w]).0 == k;
        assert(s1[w + n] == s2[w]);
    }
    let item = CachedItem { value: v, ttl, last_accessed: now, size: v.len() as usize };
    let t = s2.push((k, item));
    lemma_push_distinct(s2, (k, item));
    assert(t[t.len() - 1].0 == k);
    let j = key_index(t, k);
    assert(t[j].0 == k);
}

/// After a delete of `k`, the cache holds no entry for `k`; no key occurs
/// twice.
pub proof fn lemma_deleted_state(st: CacheState, k: Seq<char>)
    requires
        keys_distinct(st.items),
    ensures
        keys_distinct(deleted_state(st, k).items),
        !has_key(deleted_state(st, k).items, k),
{
    if has_key(st.items, k) {
        let i = key_index(st.items, k);
        let w = choose|w: int| 0 <= w < st.items.len() && (#[trigger] st.items[w]).0 == k;
        assert(st.items[i].0 == k);
        lemma_remove_distinct(st.items, i);
        lemma_removed_key_gone(st.items, i);
    }
}

} // verus!
