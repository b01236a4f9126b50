//! Cache strategies and the settings of the disk cache.

use vstd::prelude::*;
use crate::text::owned;

verus! {

/// How an adaptive cache evicts.
#[derive(Debug, Clone, Copy, PartialEq, Eq, Structural, Hash)]
pub enum CacheStrategy {
    /// Least recently used.
    Lru,
    /// Least frequently used.
    Lfu,
    /// Adaptive replacement.
    Arc,
}

/// Settings of the disk cache.
#[derive(Debug, Clone)]
pub struct L2CacheConfig {
    /// Directory of the cache files.
    pub directory: String,
    /// Size limit in MB.
    pub max_size_mb: usize,
    /// Most entries.
    pub max_entries: usize,
}

impl Default for L2CacheConfig {
    fn default() -> (r: Self)
        ensures
            r.directory@ == "./data/cache/l2"@,
            r.max_size_mb == 1024,
            r.max_entries == 100000,
    {
        L2CacheConfig { directory: owned("./data/cache/l2"), max_size_mb: 1024, max_entries: 100000 }
    }
}

} // verus!
