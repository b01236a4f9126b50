//! A cache that runs one of three eviction strategies (LRU, LFU, ARC),
//! counts hits, misses, evictions and inserts per strategy, and can switch
//! strategy, carrying the LRU entries over. Which strategy to switch to is
//! judged from hit rates, which are floating point; that judgement is left
//! to the caller (`evaluation_due` says when, `adapt` applies it).

use vstd::prelude::*;
use vstd::laws_eq::obeys_concrete_eq;
use crate::arc::{ArcCache, ArcState, distinct_keys, holds_key, key_at, lemma_after_insert_wf, lemma_key_at_unique};
use crate::cache::CacheStrategy;
use crate::lfu::{LfuCache, least_frequent, lfu_has};

verus! {

/// Counters of one strategy.
#[derive(Debug, Clone, Copy, PartialEq, Eq, Structural)]
pub struct CacheStats {
    pub hits: u64,
    pub misses: u64,
    pub evictions: u64,
    pub inserts: u64,
}

/// Counters at zero.
pub open spec fn zero_stats() -> CacheStats {
    CacheStats { hits: 0, misses: 0, evictions: 0, inserts: 0 }
}

impl CacheStats {
    /// Counters at zero.
    pub fn new() -> (r: Self)
        ensures
            r == zero_stats(),
    {
        CacheStats { hits: 0, misses: 0, evictions: 0, inserts: 0 }
    }

    /// Count a hit.
    pub fn record_hit(&mut self)
        ensures
            *final(self) == (CacheStats { hits: old(self).hits.wrapping_add(1), ..*old(self) }),
    {
        self.hits = self.hits.wrapping_add(1);
    }

    /// Count a miss.
    pub fn record_miss(&mut self)
        ensures
            *final(self) == (CacheStats { misses: old(self).misses.wrapping_add(1), ..*old(self) }),
    {
        self.misses = self.misses.wrapping_add(1);
    }

    /// Count an eviction.
    pub fn record_eviction(&mut self)
        ensures
            *final(self) == (CacheStats { evictions: old(self).evictions.wrapping_add(1), ..*old(self) }),
    {
        self.evictions = self.evictions.wrapping_add(1);
    }

    /// Count an insert.
    pub fn record_insert(&mut self)
        ensures
            *final(self) == (CacheStats { inserts: old(self).inserts.wrapping_add(1), ..*old(self) }),
    {
        self.inserts = self.inserts.wrapping_add(1);
    }

    /// Reset every counter.
    pub fn reset(&mut self)
        ensures
            *final(self) == zero_stats(),
    {
        *self = Self::new();
    }
}

impl Default for CacheStats {
    fn default() -> (r: Self)
        ensures
            r == zero_stats(),
    {
        Self::new()
    }
}

/// The LRU entries (least recent first) after a read of `k`: a stored key
/// moves to the back.
pub open spec fn lru_after_get<K, V>(s: Seq<(K, V)>, k: K) -> Seq<(K, V)> {
    if holds_key(s, k) {
        let i = key_at(s, k);
        s.remove(i).push(s[i])
    } else {
        s
    }
}

/// Whether storing `k` evicts the least recent entry: a new key when the
/// cache holds `cap` entries or more.
pub open spec fn lru_evicts<K, V>(s: Seq<(K, V)>, k: K, cap: usize) -> bool {
    !holds_key(s, k) && s.len() >= cap && s.len() > 0
}

/// The LRU entries after storing `v` under `k`: the value goes to the back,
/// replacing any entry of `k`, after the eviction `lru_evicts` calls for.
pub open spec fn lru_after_insert<K, V>(s: Seq<(K, V)>, k: K, v: V, cap: usize) -> Seq<(K, V)> {
    if holds_key(s, k) {
        s.remove(key_at(s, k)).push((k, v))
    } else if lru_evicts(s, k, cap) {
        s.drop_first().push((k, v))
    } else {
        s.push((k, v))
    }
}

/// Whether an LFU read of `k` may count one more use (no count at its maximum).
pub open spec fn lfu_room<K, V>(e: Seq<(K, V, u64)>, k: K) -> bool {
    forall|i: int| 0 <= i < e.len() && (#[trigger] e[i]).0 == k ==> e[i].2 < u64::MAX
}

/// What an LFU read of `k` does (see `LfuCache::get`).
pub open spec fn lfu_got<K, V: Clone>(before: Seq<(K, V, u64)>, after: Seq<(K, V, u64)>, k: K, r: Option<V>) -> bool {
    &&& !lfu_has(before, k) ==> r is None && after == before
    &&& forall|i: int| 0 <= i < before.len() && (#[trigger] before[i]).0 == k ==> {
        &&& r matches Some(v) && cloned::<V>(before[i].1, v)
        &&& after == before.update(i, (before[i].0, before[i].1, (before[i].2 + 1) as u64))
    }
}

/// What an LFU write of `v` under `k` does (see `LfuCache::insert`).
pub open spec fn lfu_put<K, V>(e: Seq<(K, V, u64)>, after: Seq<(K, V, u64)>, k: K, v: V, cap: usize) -> bool {
    if lfu_has(e, k) {
        exists|i: int| 0 <= i < e.len() && (#[trigger] e[i]).0 == k && after == e.update(i, (k, v, (e[i].2 + 1) as u64))
    } else if e.len() >= cap && e.len() > 0 {
        exists|i: int| least_frequent(e, i) && after == e.remove(i).push((k, v, 1u64))
    } else {
        after == e.push((k, v, 1u64))
    }
}

/// The ARC state after storing the entries of `s` in order.
pub open spec fn arc_filled<K, V>(st: ArcState<K, V>, s: Seq<(K, V)>) -> ArcState<K, V>
    decreases s.len(),
{
    if s.len() == 0 {
        st
    } else {
        arc_filled(st, s.drop_last()).after_insert(s.last().0, s.last().1)
    }
}

/// The LRU entries as LFU entries used once each.
pub open spec fn used_once<K, V>(s: Seq<(K, V)>) -> Seq<(K, V, u64)> {
    s.map_values(|e: (K, V)| (e.0, e.1, 1u64))
}

/// A cache of one of three strategies, with counters per strategy.
pub struct AdaptiveCache<K, V> {
    current_strategy: CacheStrategy,
    capacity: usize,
    lru: Vec<(K, V)>,
    lfu_cache: Option<LfuCache<K, V>>,
    arc_cache: Option<ArcCache<K, V>>,
    lru_stats: CacheStats,
    lfu_stats: CacheStats,
    arc_stats: CacheStats,
    evaluation_window: u64,
}

impl<K: PartialEq + Clone, V: Clone> AdaptiveCache<K, V> {
    /// The strategy in use.
    pub closed spec fn strategy(&self) -> CacheStrategy {
        self.current_strategy
    }

    /// The capacity.
    pub closed spec fn cap(&self) -> usize {
        self.capacity
    }

    /// The LRU entries, least recent first.
    pub closed spec fn lru_entries(&self) -> Seq<(K, V)> {
        self.lru@
    }

    /// The LFU cache, when there is one.
    pub closed spec fn lfu_part(&self) -> Option<LfuCache<K, V>> {
        self.lfu_cache
    }

    /// The ARC cache, when there is one.
    pub closed spec fn arc_part(&self) -> Option<ArcCache<K, V>> {
        self.arc_cache
    }

    /// The counters of strategy `s`.
    pub closed spec fn stats_for(&self, s: CacheStrategy) -> CacheStats {
        match s {
            CacheStrategy::Lru => self.lru_stats,
            CacheStrategy::Lfu => self.lfu_stats,
            CacheStrategy::Arc => self.arc_stats,
        }
    }

    /// How many reads the strategies are judged over.
    pub closed spec fn window(&self) -> u64 {
        self.evaluation_window
    }

    /// Reads counted over all strategies.
    pub open spec fn total_ops(&self) -> int {
        let a = self.stats_for(CacheStrategy::Lru);
        let b = self.stats_for(CacheStrategy::Lfu);
        let c = self.stats_for(CacheStrategy::Arc);
        a.hits + a.misses + b.hits + b.misses + c.hits + c.misses
    }

    /// The invariant: LRU keys distinct and within the capacity (one entry
    /// when the capacity is zero), and the cache of the strategy in use
    /// present and well formed.
    pub closed spec fn wf(&self) -> bool {
        &&& distinct_keys(self.lru@)
        &&& self.lru@.len() <= (if self.capacity > 0 { self.capacity as int } else { 1 })
        &&& self.current_strategy == CacheStrategy::Lfu ==> (self.lfu_cache matches Some(c) && c.wf()
            && c.cap() == self.capacity)
        &&& self.current_strategy == CacheStrategy::Arc ==> (self.arc_cache matches Some(c) && c@.wf()
            && c@.capacity == self.capacity as nat)
    }

    /// An empty cache of `capacity` entries running `initial_strategy`,
    /// judged every 10000 reads.
    pub fn new(capacity: usize, initial_strategy: CacheStrategy) -> (r: Self)
        ensures
            r.wf(),
            r.strategy() == initial_strategy,
            r.cap() == capacity,
            r.window() == 10000,
            r.lru_entries().len() == 0,
            initial_strategy == CacheStrategy::Lfu ==> (r.lfu_part() matches Some(c) && c.entries().len() == 0),
            initial_strategy != CacheStrategy::Lfu ==> r.lfu_part() is None,
            initial_strategy == CacheStrategy::Arc ==> (r.arc_part() matches Some(c)
                && c@ == ArcState::<K, V>::fresh(capacity as nat)),
            initial_strategy != CacheStrategy::Arc ==> r.arc_part() is None,
            forall|s: CacheStrategy| #[trigger] r.stats_for(s) == zero_stats(),
    {
        let lfu_cache = match initial_strategy {
            CacheStrategy::Lfu => Some(LfuCache::new(capacity)),
            _ => None,
        };
        let arc_cache = match initial_strategy {
            CacheStrategy::Arc => Some(ArcCache::new(capacity)),
            _ => None,
        };
        AdaptiveCache {
            current_strategy: initial_strategy,
            capacity,
            lru: Vec::new(),
            lfu_cache,
            arc_cache,
            lru_stats: CacheStats::new(),
            lfu_stats: CacheStats::new(),
            arc_stats: CacheStats::new(),
            evaluation_window: 10000,
        }
    }

    /// The position of `key` among the LRU entries.
    fn lru_position(&self, key: &K) -> (r: Option<usize>)
        requires
            obeys_concrete_eq::<K>(),
            distinct_keys(self.lru@),
        ensures
            match r {
                Some(i) => i < self.lru@.len() && self.lru@[i as int].0 == *key && key_at(self.lru@, *key) == i,
                None => !holds_key(self.lru@, *key),
            },
    {
        proof {
            reveal(obeys_concrete_eq);
        }
        let mut i: usize = 0;
        while i < self.lru.len()
            invariant
                i <= self.lru@.len(),
                obeys_concrete_eq::<K>(),
                distinct_keys(self.lru@),
                forall|j: int| 0 <= j < i ==> (#[trigger] self.lru@[j]).0 != *key,
            decreases self.lru@.len() - i,
        {
            proof {
                reveal(obeys_concrete_eq);
            }
            if self.lru[i].0 == *key {
                proof {
                    lemma_key_at_unique(self.lru@, *key, i as int);
                }
                return Some(i);
            }
            i = i + 1;
        }
        None
    }

    /// LRU read: a stored key's value, its entry moved to the back.
    fn get_lru(&mut self, key: &K) -> (r: Option<V>)
        requires
            old(self).wf(),
            obeys_concrete_eq::<K>(),
        ensures
            final(self).wf(),
            final(self).lru@ == lru_after_get(old(self).lru@, *key),
            holds_key(old(self).lru@, *key) ==> (r matches Some(v)
                && cloned::<V>(old(self).lru@[key_at(old(self).lru@, *key)].1, v)),
            !holds_key(old(self).lru@, *key) ==> r is None,
            final(self).current_strategy == old(self).current_strategy,
            final(self).capacity == old(self).capacity,
            final(self).lfu_cache == old(self).lfu_cache,
            final(self).arc_cache == old(self).arc_cache,
            final(self).lru_stats == old(self).lru_stats,
            final(self).lfu_stats == old(self).lfu_stats,
            final(self).arc_stats == old(self).arc_stats,
            final(self).evaluation_window == old(self).evaluation_window,
    {
        match self.lru_position(key) {
            Some(i) => {
                let ghost s = self.lru@;
                let e = self.lru.remove(i);
                let v = e.1.clone();
                self.lru.push(e);
                proof {
                    assert(self.lru@ =~= s.remove(i as int).push(s[i as int]));
                    let t = self.lru@;
                    assert forall|a: int, b: int| 0 <= a < t.len() && 0 <= b < t.len() && a != b
                        implies (#[trigger] t[a]).0 != (#[trigger] t[b]).0 by {
                        let a2 = if a == t.len() - 1 { i as int } else if a < i { a } else { a + 1 };
                        let b2 = if b == t.len() - 1 { i as int } else if b < i { b } else { b + 1 };
                        assert(t[a] == s[a2]);
                        assert(t[b] == s[b2]);
                    }
                }
                Some(v)
            },
            None => None,
        }
    }

    /// LRU write (see `lru_after_insert`); answers whether it evicted.
    fn insert_lru(&mut self, key: K, value: V) -> (evicted: bool)
        requires
            old(self).wf(),
            obeys_concrete_eq::<K>(),
        ensures
            final(self).wf(),
            final(self).lru@ == lru_after_insert(old(self).lru@, key, value, old(self).capacity),
            evicted == lru_evicts(old(self).lru@, key, old(self).capacity),
            final(self).current_strategy == old(self).current_strategy,
            final(self).capacity == old(self).capacity,
            final(self).lfu_cache == old(self).lfu_cache,
            final(self).arc_cache == old(self).arc_cache,
            final(self).lru_stats == old(self).lru_stats,
            final(self).lfu_stats == old(self).lfu_stats,
            final(self).arc_stats == old(self).arc_stats,
            final(self).evaluation_window == old(self).evaluation_window,
    {
        let ghost s = self.lru@;
        match self.lru_position(&key) {
            Some(i) => {
                let _stale = self.lru.remove(i);
                self.lru.push((key, value));
                proof {
                    assert(self.lru@ =~= s.remove(i as int).push((key, value)));
                    let t = self.lru@;
                    assert forall|a: int, b: int| 0 <= a < t.len() && 0 <= b < t.len() && a != b
                        implies (#[trigger] t[a]).0 != (#[trigger] t[b]).0 by {
                        if a < t.len() - 1 && b < t.len() - 1 {
                            let a2 = if a < i { a } else { a + 1 };
                            let b2 = if b < i { b } else { b + 1 };
                            assert(t[a] == s[a2]);
                            assert(t[b] == s[b2]);
                        } else if a == t.len() - 1 {
                            let b2 = if b < i { b } else { b + 1 };
                            assert(t[b] == s[b2]);
                            assert(s[i as int].0 == key);
                        } else {
                            let a2 = if a < i { a } else { a + 1 };
                            assert(t[a] == s[a2]);
                            assert(s[i as int].0 == key);
                        }
                    }
                }
                false
            },
            None => {
                let evict = self.lru.len() >= self.capacity && self.lru.len() > 0;
                if evict {
                    let _gone = self.lru.remove(0);
                }
                let ghost mid = self.lru@;
                proof {
                    if evict {
                        assert(mid =~= s.drop_first());
                    }
                }
                self.lru.push((key, value));
                proof {
                    let t = self.lru@;
                    assert forall|a: int, b: int| 0 <= a < t.len() && 0 <= b < t.len() && a != b
                        implies (#[trigger] t[a]).0 != (#[trigger] t[b]).0 by {
                        let d: int = if evict { 1 } else { 0 };
                        if a < t.len() - 1 && b < t.len() - 1 {
                            assert(t[a] == s[a + d]);
                            assert(t[b] == s[b + d]);
                        } else if a == t.len() - 1 {
                            assert(t[b] == s[b + d]);
                        } else {
                            assert(t[a] == s[a + d]);
                        }
                    }
                }
                evict
            },
        }
    }

    /// Read `key` with the strategy in use, counting a hit or a miss for it.
    pub fn get(&mut self, key: &K) -> (r: Option<V>)
        requires
            old(self).wf(),
            obeys_concrete_eq::<K>(),
            old(self).strategy() == CacheStrategy::Lfu ==> lfu_room(old(self).lfu_part()->0.entries(), *key),
        ensures
            final(self).wf(),
            final(self).strategy() == old(self).strategy(),
            final(self).cap() == old(self).cap(),
            final(self).window() == old(self).window(),
            match old(self).strategy() {
                CacheStrategy::Lru => {
                    let s = old(self).lru_entries();
                    &&& final(self).lru_entries() == lru_after_get(s, *key)
                    &&& holds_key(s, *key) ==> (r matches Some(v) && cloned::<V>(s[key_at(s, *key)].1, v))
                    &&& !holds_key(s, *key) ==> r is None
                    &&& final(self).lfu_part() == old(self).lfu_part()
                    &&& final(self).arc_part() == old(self).arc_part()
                },
                CacheStrategy::Lfu => {
                    &&& final(self).lfu_part() matches Some(c)
                    &&& lfu_got(old(self).lfu_part()->0.entries(), c.entries(), *key, r)
                    &&& c.wf() && c.cap() == old(self).cap()
                    &&& final(self).lru_entries() == old(self).lru_entries()
                    &&& final(self).arc_part() == old(self).arc_part()
                },
                CacheStrategy::Arc => {
                    let a = old(self).arc_part()->0@;
                    &&& final(self).arc_part() matches Some(c)
                    &&& c@ == a.after_get(*key)
                    &&& match a.lookup(*key) {
                        Some(v) => r matches Some(x) && cloned::<V>(v, x),
                        None => r is None,
                    }
                    &&& final(self).lru_entries() == old(self).lru_entries()
                    &&& final(self).lfu_part() == old(self).lfu_part()
                },
            },
            ({
                let cur = old(self).strategy();
                let st = old(self).stats_for(cur);
                &&& r is Some ==> final(self).stats_for(cur) == (CacheStats { hits: st.hits.wrapping_add(1), ..st })
                &&& r is None ==> final(self).stats_for(cur) == (CacheStats { misses: st.misses.wrapping_add(1), ..st })
                &&& forall|t: CacheStrategy| t != cur ==> #[trigger] final(self).stats_for(t) == old(self).stats_for(t)
            }),
    {
        let result = match self.current_strategy {
            CacheStrategy::Lru => self.get_lru(key),
            CacheStrategy::Lfu => {
                let mut c = self.lfu_cache.take().unwrap();
                let r = c.get(key);
                self.lfu_cache = Some(c);
                r
            },
            CacheStrategy::Arc => {
                let mut c = self.arc_cache.take().unwrap();
                let r = c.get(key);
                self.arc_cache = Some(c);
                r
            },
        };
        let hit = result.is_some();
        match self.current_strategy {
            CacheStrategy::Lru => if hit { self.lru_stats.record_hit() } else { self.lru_stats.record_miss() },
            CacheStrategy::Lfu => if hit { self.lfu_stats.record_hit() } else { self.lfu_stats.record_miss() },
            CacheStrategy::Arc => if hit { self.arc_stats.record_hit() } else { self.arc_stats.record_miss() },
        }
        result
    }

    /// Store `value` under `key` with the strategy in use, counting an
    /// insert for it (and, for LRU, an eviction when one happened).
    pub fn insert(&mut self, key: K, value: V)
        requires
            old(self).wf(),
            obeys_concrete_eq::<K>(),
            old(self).strategy() == CacheStrategy::Lfu ==> lfu_room(old(self).lfu_part()->0.entries(), key),
            old(self).strategy() == CacheStrategy::Arc ==> old(self).arc_part()->0@.size() < usize::MAX,
        ensures
            final(self).wf(),
            final(self).strategy() == old(self).strategy(),
            final(self).cap() == old(self).cap(),
            final(self).window() == old(self).window(),
            match old(self).strategy() {
                CacheStrategy::Lru => {
                    let s = old(self).lru_entries();
                    let st = old(self).stats_for(CacheStrategy::Lru);
                    let st2 = CacheStats { inserts: st.inserts.wrapping_add(1), ..st };
                    &&& final(self).lru_entries() == lru_after_insert(s, key, value, old(self).cap())
                    &&& final(self).stats_for(CacheStrategy::Lru) == if lru_evicts(s, key, old(self).cap()) {
                        CacheStats { evictions: st2.evictions.wrapping_add(1), ..st2 }
                    } else {
                        st2
                    }
                    &&& final(self).lfu_part() == old(self).lfu_part()
                    &&& final(self).arc_part() == old(self).arc_part()
                },
                CacheStrategy::Lfu => {
                    let st = old(self).stats_for(CacheStrategy::Lfu);
                    &&& final(self).lfu_part() matches Some(c)
                    &&& lfu_put(old(self).lfu_part()->0.entries(), c.entries(), key, value, old(self).cap())
                    &&& c.wf() && c.cap() == old(self).cap()
                    &&& final(self).stats_for(CacheStrategy::Lfu) == (CacheStats { inserts: st.inserts.wrapping_add(1), ..st })
                    &&& final(self).lru_entries() == old(self).lru_entries()
                    &&& final(self).arc_part() == old(self).arc_part()
                },
                CacheStrategy::Arc => {
                    let st = old(self).stats_for(CacheStrategy::Arc);
                    &&& final(self).arc_part() matches Some(c)
                    &&& c@ == old(self).arc_part()->0@.after_insert(key, value)
                    &&& final(self).stats_for(CacheStrategy::Arc) == (CacheStats { inserts: st.inserts.wrapping_add(1), ..st })
                    &&& final(self).lru_entries() == old(self).lru_entries()
                    &&& final(self).lfu_part() == old(self).lfu_part()
                },
            },
            forall|t: CacheStrategy| t != old(self).strategy() ==> #[trigger] final(self).stats_for(t) == old(self).stats_for(t),
    {
        match self.current_strategy {
            CacheStrategy::Lru => {
                let evicted = self.insert_lru(key, value);
                if evicted {
                    self.lru_stats.record_eviction();
                }
                self.lru_stats.record_insert();
                proof {
                    let st = old(self).lru_stats;
                    let st2 = CacheStats { inserts: st.inserts.wrapping_add(1), ..st };
                    if evicted {
                        assert(self.lru_stats == (CacheStats { evictions: st2.evictions.wrapping_add(1), ..st2 }));
                    }
                }
            },
            CacheStrategy::Lfu => {
                let mut c = self.lfu_cache.take().unwrap();
                c.insert(key, value);
                self.lfu_cache = Some(c);
                self.lfu_stats.record_insert();
            },
            CacheStrategy::Arc => {
                let mut c = self.arc_cache.take().unwrap();
                c.insert(key, value);
                self.arc_cache = Some(c);
                self.arc_stats.record_insert();
            },
        }
    }

    /// Whether enough reads were counted to judge the strategies.
    pub fn evaluation_due(&self) -> (r: bool)
        ensures
            r == (self.total_ops() >= self.window()),
    {
        let total: u128 = self.lru_stats.hits as u128 + self.lru_stats.misses as u128
            + self.lfu_stats.hits as u128 + self.lfu_stats.misses as u128
            + self.arc_stats.hits as u128 + self.arc_stats.misses as u128;
        total >= self.evaluation_window as u128
    }

    /// Switch to `new_strategy`. To LRU: the LFU and ARC caches are dropped
    /// and the LRU entries kept. To LFU or ARC: a new cache of that kind
    /// receives the LRU entries, least recent first, and the LRU entries
    /// are dropped.
    fn switch_strategy(&mut self, new_strategy: CacheStrategy)
        requires
            old(self).wf(),
            obeys_concrete_eq::<K>(),
        ensures
            final(self).wf(),
            final(self).current_strategy == new_strategy,
            final(self).capacity == old(self).capacity,
            final(self).evaluation_window == old(self).evaluation_window,
            final(self).lru_stats == old(self).lru_stats,
            final(self).lfu_stats == old(self).lfu_stats,
            final(self).arc_stats == old(self).arc_stats,
            new_strategy == CacheStrategy::Lru ==> {
                &&& final(self).lru@ == old(self).lru@
                &&& final(self).lfu_cache is None && final(self).arc_cache is None
            },
            new_strategy == CacheStrategy::Lfu ==> {
                &&& final(self).lru@.len() == 0
                &&& final(self).lfu_cache matches Some(c) && c.entries() == used_once(old(self).lru@)
                &&& final(self).arc_cache == old(self).arc_cache
            },
            new_strategy == CacheStrategy::Arc ==> {
                &&& final(self).lru@.len() == 0
                &&& final(self).arc_cache matches Some(c)
                    && c@ == arc_filled(ArcState::<K, V>::fresh(old(self).capacity as nat), old(self).lru@)
                &&& final(self).lfu_cache == old(self).lfu_cache
            },
    {
        let ghost s = self.lru@;
        let cap = self.capacity;
        match new_strategy {
            CacheStrategy::Lru => {
                self.current_strategy = CacheStrategy::Lru;
                self.lfu_cache = None;
                self.arc_cache = None;
            },
            CacheStrategy::Lfu => {
                let mut entries: Vec<(K, V)> = Vec::new();
                std::mem::swap(&mut entries, &mut self.lru);
                let mut c: LfuCache<K, V> = LfuCache::new(cap);
                let n = entries.len();
                let mut j: usize = 0;
                while j < n
                    invariant
                        obeys_concrete_eq::<K>(),
                        n == s.len(),
                        j <= n,
                        entries@ == s.skip(j as int),
                        distinct_keys(s),
                        s.len() <= (if cap > 0 { cap as int } else { 1 }),
                        c.wf(),
                        c.cap() == cap,
                        c.entries() == used_once(s.take(j as int)),
                    decreases n - j,
                {
                    let (k, v) = entries.remove(0);
                    proof {
                        assert(s[j as int] == (k, v));
                        assert forall|m: int| 0 <= m < c.entries().len() implies (#[trigger] c.entries()[m]).0 != k by {
                            assert(c.entries()[m].0 == s[m].0);
                        }
                        assert(!lfu_has(c.entries(), k));
                    }
                    c.insert(k, v);
                    j = j + 1;
                    proof {
                        assert(entries@ =~= s.skip(j as int));
                        assert(c.entries() =~= used_once(s.take(j as int)));
                    }
                }
                proof {
                    assert(s.take(n as int) =~= s);
                }
                self.lfu_cache = Some(c);
                self.current_strategy = CacheStrategy::Lfu;
            },
            CacheStrategy::Arc => {
                let mut entries: Vec<(K, V)> = Vec::new();
                std::mem::swap(&mut entries, &mut self.lru);
                let mut c: ArcCache<K, V> = ArcCache::new(cap);
                let n = entries.len();
                let mut j: usize = 0;
                while j < n
                    invariant
                        obeys_concrete_eq::<K>(),
                        n == s.len(),
                        j <= n,
                        entries@ == s.skip(j as int),
                        c@.wf(),
                        c@.capacity == cap as nat,
                        c@.size() <= j,
                        c@ == arc_filled(ArcState::<K, V>::fresh(cap as nat), s.take(j as int)),
                    decreases n - j,
                {
                    let (k, v) = entries.remove(0);
                    proof {
                        assert(s[j as int] == (k, v));
                        lemma_after_insert_wf(c@, k, v);
                        assert(s.take(j + 1).drop_last() =~= s.take(j as int));
                    }
                    c.insert(k, v);
                    j = j + 1;
                    proof {
                        assert(entries@ =~= s.skip(j as int));
                    }
                }
                proof {
                    assert(s.take(n as int) =~= s);
                }
                self.arc_cache = Some(c);
                self.current_strategy = CacheStrategy::Arc;
            },
        }
    }

    /// Apply the judgement of the strategies: switch to `switch_to` when it
    /// names another strategy (see `switch_strategy`), then reset every
    /// counter for the next window.
    pub fn adapt(&mut self, switch_to: Option<CacheStrategy>)
        requires
            old(self).wf(),
            obeys_concrete_eq::<K>(),
        ensures
            final(self).wf(),
            final(self).cap() == old(self).cap(),
            final(self).window() == old(self).window(),
            forall|t: CacheStrategy| #[trigger] final(self).stats_for(t) == zero_stats(),
            match switch_to {
                Some(s) if s != old(self).strategy() => {
                    &&& final(self).strategy() == s
                    &&& s == CacheStrategy::Lru ==> final(self).lru_entries() == old(self).lru_entries()
                        && final(self).lfu_part() is None && final(self).arc_part() is None
                    &&& s == CacheStrategy::Lfu ==> final(self).lru_entries().len() == 0
                        && (final(self).lfu_part() matches Some(c) && c.entries() == used_once(old(self).lru_entries()))
                        && final(self).arc_part() == old(self).arc_part()
                    &&& s == CacheStrategy::Arc ==> final(self).lru_entries().len() == 0
                        && (final(self).arc_part() matches Some(c)
                            && c@ == arc_filled(ArcState::<K, V>::fresh(old(self).cap() as nat), old(self).lru_entries()))
                        && final(self).lfu_part() == old(self).lfu_part()
                },
                _ => {
                    &&& final(self).strategy() == old(self).strategy()
                    &&& final(self).lru_entries() == old(self).lru_entries()
                    &&& final(self).lfu_part() == old(self).lfu_part()
                    &&& final(self).arc_part() == old(self).arc_part()
                },
            },
    {
        match switch_to {
            Some(s) => {
                if s != self.current_strategy {
                    self.switch_strategy(s);
                }
            },
            None => {},
        }
        self.lru_stats.reset();
        self.lfu_stats.reset();
        self.arc_stats.reset();
    }

    /// The counters of the strategy in use.
    pub fn get_stats(&self) -> (r: CacheStats)
        ensures
            r == self.stats_for(self.strategy()),
    {
        match self.current_strategy {
            CacheStrategy::Lru => self.lru_stats,
            CacheStrategy::Lfu => self.lfu_stats,
            CacheStrategy::Arc => self.arc_stats,
        }
    }

    /// The counters of every strategy.
    pub fn get_all_stats(&self) -> (r: Vec<(CacheStrategy, CacheStats)>)
        ensures
            r@ == seq![
                (CacheStrategy::Lru, self.stats_for(CacheStrategy::Lru)),
                (CacheStrategy::Lfu, self.stats_for(CacheStrategy::Lfu)),
                (CacheStrategy::Arc, self.stats_for(CacheStrategy::Arc)),
            ],
    {
        let mut r = Vec::new();
        r.push((CacheStrategy::Lru, self.lru_stats));
        r.push((CacheStrategy::Lfu, self.lfu_stats));
        r.push((CacheStrategy::Arc, self.arc_stats));
        r
    }

    /// The strategy in use.
    pub fn current_strategy(&self) -> (r: CacheStrategy)
        ensures
            r == self.strategy(),
    {
        self.current_strategy
    }
}

} // verus!
