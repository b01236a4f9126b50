//! Values of the key-value store, its configuration and its counters.

use vstd::prelude::*;
use crate::clock::unix_time_secs;

verus! {

/// A stored value: its bytes, and for an expiring value its expiry time and
/// last access time (Unix seconds, 32 bits).
#[derive(Debug, Clone)]
pub enum StoredValue {
    /// A value without a time to live.
    Persistent(Vec<u8>),
    /// A value with a time to live and an access time for LRU eviction.
    Expiring { data: Vec<u8>, expires_at: u32, last_access: u32 },
}

/// The current time as 32-bit Unix seconds (truncated, as the store keeps it).
pub fn current_timestamp() -> u32 {
    let t = unix_time_secs();
    t as u32
}

/// `a + b` in 32 bits, held at the maximum.
pub open spec fn sat_add32(a: u32, b: u32) -> u32 {
    if a + b > u32::MAX { u32::MAX } else { (a + b) as u32 }
}

impl StoredValue {
    /// The bytes, whatever the variant.
    pub open spec fn bytes(self) -> Seq<u8> {
        match self {
            StoredValue::Persistent(d) => d@,
            StoredValue::Expiring { data, .. } => data@,
        }
    }

    /// Whether the value has expired at time `now`.
    pub open spec fn expired_at(self, now: u32) -> bool {
        match self {
            StoredValue::Persistent(_) => false,
            StoredValue::Expiring { expires_at, .. } => now >= expires_at,
        }
    }

    /// The value made at time `now`: persistent without a time to live,
    /// else expiring `ttl` seconds (taken as 32 bits) after `now`.
    pub open spec fn made_at(data: Seq<u8>, ttl_secs: Option<u64>, now: u32) -> (Seq<u8>, Option<(u32, u32)>) {
        match ttl_secs {
            None => (data, None),
            Some(secs) => (data, Some((sat_add32(now, secs as u32), now))),
        }
    }

    /// The bytes and, for an expiring value, its expiry and access times.
    pub open spec fn parts(self) -> (Seq<u8>, Option<(u32, u32)>) {
        match self {
            StoredValue::Persistent(d) => (d@, None),
            StoredValue::Expiring { data, expires_at, last_access } => (data@, Some((expires_at, last_access))),
        }
    }

    /// `parts` after an access at time `now`: an expiring value takes `now`
    /// as its access time.
    pub open spec fn accessed(parts: (Seq<u8>, Option<(u32, u32)>), now: u32) -> (Seq<u8>, Option<(u32, u32)>) {
        match parts {
            (d, None) => (d, None),
            (d, Some((e, _a))) => (d, Some((e, now))),
        }
    }

    /// Seconds left at time `now`: none for a persistent value, 0 once
    /// expired.
    pub open spec fn remaining_at(self, now: u32) -> Option<u64> {
        match self {
            StoredValue::Persistent(_) => None,
            StoredValue::Expiring { expires_at, .. } => Some(
                if now >= expires_at { 0 } else { (expires_at - now) as u64 },
            ),
        }
    }

    /// A value made at time `now`.
    pub fn new_at(data: Vec<u8>, ttl_secs: Option<u64>, now: u32) -> (r: Self)
        ensures
            r.parts() == Self::made_at(data@, ttl_secs, now),
    {
        match ttl_secs {
            None => StoredValue::Persistent(data),
            Some(secs) => {
                let s = secs as u32;
                StoredValue::Expiring { data, expires_at: now.saturating_add(s), last_access: now }
            },
        }
    }

    /// A value made now.
    pub fn new(data: Vec<u8>, ttl_secs: Option<u64>) -> (r: Self)
        ensures
            exists|now: u32| r.parts() == #[trigger] Self::made_at(data@, ttl_secs, now),
    {
        let now = current_timestamp();
        Self::new_at(data, ttl_secs, now)
    }

    /// Whether the value has expired at time `now`.
    pub fn is_expired_at(&self, now: u32) -> (r: bool)
        ensures
            r == self.expired_at(now),
    {
        match self {
            StoredValue::Persistent(_) => false,
            StoredValue::Expiring { expires_at, .. } => now >= *expires_at,
        }
    }

    /// Whether the value has expired now.
    pub fn is_expired(&self) -> (r: bool)
        ensures
            self is Persistent ==> !r,
            exists|now: u32| r == #[trigger] self.expired_at(now),
    {
        let now = current_timestamp();
        self.is_expired_at(now)
    }

    /// Record an access at time `now` (expiring values only).
    pub fn update_access_at(&mut self, now: u32)
        ensures
            final(self).parts() == Self::accessed(old(self).parts(), now),
    {
        match self {
            StoredValue::Persistent(_) => {},
            StoredValue::Expiring { data, expires_at, last_access } => {
                *last_access = now;
            },
        }
    }

    /// Record an access now.
    pub fn update_access(&mut self)
        ensures
            exists|now: u32| final(self).parts() == #[trigger] Self::accessed(old(self).parts(), now),
    {
        let now = current_timestamp();
        self.update_access_at(now)
    }

    /// Seconds left at time `now`: none for a persistent value, 0 once expired.
    pub fn remaining_ttl_secs_at(&self, now: u32) -> (r: Option<u64>)
        ensures
            r == self.remaining_at(now),
    {
        match self {
            StoredValue::Persistent(_) => None,
            StoredValue::Expiring { expires_at, .. } => {
                if now >= *expires_at {
                    Some(0)
                } else {
                    Some((*expires_at - now) as u64)
                }
            },
        }
    }

    /// Seconds left now: none for a persistent value, 0 once expired.
    pub fn remaining_ttl_secs(&self) -> (r: Option<u64>)
        ensures
            self is Persistent <==> r is None,
            match *self {
                StoredValue::Persistent(_) => true,
                StoredValue::Expiring { expires_at, .. } => r matches Some(s) && s <= expires_at,
            },
            exists|now: u32| r == #[trigger] self.remaining_at(now),
    {
        let now = current_timestamp();
        self.remaining_ttl_secs_at(now)
    }

    /// The bytes.
    pub fn data(&self) -> (r: &[u8])
        ensures
            r@ == self.bytes(),
    {
        match self {
            StoredValue::Persistent(data) => data.as_slice(),
            StoredValue::Expiring { data, .. } => data.as_slice(),
        }
    }

    /// The bytes, for change in place.
    pub fn data_mut(&mut self) -> (r: &mut Vec<u8>)
        ensures
            r@ == old(self).bytes(),
            final(self).parts() == match old(self).parts() {
                (_d, meta) => (final(r)@, meta),
            },
    {
        match self {
            StoredValue::Persistent(data) => data,
            StoredValue::Expiring { data, .. } => data,
        }
    }

    /// The last access time; 0 for a persistent value.
    pub fn last_access(&self) -> (r: u32)
        ensures
            r == match *self {
                StoredValue::Persistent(_) => 0,
                StoredValue::Expiring { last_access, .. } => last_access,
            },
    {
        match self {
            StoredValue::Persistent(_) => 0,
            StoredValue::Expiring { last_access, .. } => *last_access,
        }
    }
}

/// What the store does when its memory limit is reached.
#[derive(Debug, Clone, Copy, PartialEq, Eq, Structural)]
pub enum EvictionPolicy {
    /// No eviction: a write that does not fit fails.
    NoEviction,
    /// Evict the least recently used keys.
    Lru,
    /// Evict the least frequently used keys.
    Lfu,
    /// Evict the keys closest to expiry.
    Ttl,
}

impl Default for EvictionPolicy {
    fn default() -> (r: Self)
        ensures
            r == EvictionPolicy::Lru,
    {
        EvictionPolicy::Lru
    }
}

/// Configuration of the key-value store.
#[derive(Debug, Clone)]
pub struct KVConfig {
    /// Memory limit in MB.
    pub max_memory_mb: usize,
    /// What happens at the memory limit.
    pub eviction_policy: EvictionPolicy,
    /// Interval of the expiry sweep, in milliseconds.
    pub ttl_cleanup_interval_ms: u64,
    /// Whether FLUSHDB and FLUSHALL are allowed.
    pub allow_flush_commands: bool,
    /// Largest value accepted by a write, in bytes; no limit when absent.
    pub max_value_size_bytes: Option<usize>,
    /// How many keys eviction looks at to pick each victim.
    pub eviction_sample_size: usize,
}

impl Default for KVConfig {
    fn default() -> (r: Self)
        ensures
            r.max_memory_mb == 4096,
            r.eviction_policy == EvictionPolicy::Lru,
            r.ttl_cleanup_interval_ms == 100,
            !r.allow_flush_commands,
            r.max_value_size_bytes is None,
            r.eviction_sample_size == 5,
    {
        KVConfig {
            max_memory_mb: 4096,
            eviction_policy: EvictionPolicy::Lru,
            ttl_cleanup_interval_ms: 100,
            allow_flush_commands: false,
            max_value_size_bytes: None,
            eviction_sample_size: 5,
        }
    }
}

/// Counters of the key-value store.
#[derive(Debug, Clone)]
pub struct KVStats {
    /// Number of keys.
    pub total_keys: usize,
    /// Estimated memory in use, in bytes.
    pub total_memory_bytes: usize,
    /// GET operations.
    pub gets: u64,
    /// SET operations.
    pub sets: u64,
    /// DELETE operations.
    pub dels: u64,
    /// Reads that found their key.
    pub hits: u64,
    /// Reads that did not.
    pub misses: u64,
}

impl Default for KVStats {
    fn default() -> (r: Self)
        ensures
            r.total_keys == 0 && r.total_memory_bytes == 0,
            r.gets == 0 && r.sets == 0 && r.dels == 0 && r.hits == 0 && r.misses == 0,
    {
        KVStats { total_keys: 0, total_memory_bytes: 0, gets: 0, sets: 0, dels: 0, hits: 0, misses: 0 }
    }
}

} // verus!
