//! LFU cache: evicts the least frequently used entry.

use vstd::prelude::*;
use vstd::laws_eq::obeys_concrete_eq;

verus! {

/// Whether some entry of `s` has key `k`.
pub open spec fn lfu_has<K, V>(s: Seq<(K, V, u64)>, k: K) -> bool {
    exists|i: int| 0 <= i < s.len() && (#[trigger] s[i]).0 == k
}

/// Whether no two entries of `s` share a key.
pub open spec fn lfu_distinct<K, V>(s: Seq<(K, V, u64)>) -> bool {
    forall|i: int, j: int| 0 <= i < s.len() && 0 <= j < s.len() && i != j ==> (#[trigger] s[i]).0 != (#[trigger] s[j]).0
}

/// Whether entry `i` of `s` has the least frequency.
pub open spec fn least_frequent<K, V>(s: Seq<(K, V, u64)>, i: int) -> bool {
    0 <= i < s.len() && forall|j: int| 0 <= j < s.len() ==> s[i].2 <= (#[trigger] s[j]).2
}

/// A cache that evicts the least frequently used entry when full.
pub struct LfuCache<K, V> {
    capacity: usize,
    cache: Vec<(K, V, u64)>,
}

impl<K: PartialEq + Clone, V: Clone> LfuCache<K, V> {
    /// The entries: key, value and use count, in storage order.
    pub closed spec fn entries(&self) -> Seq<(K, V, u64)> {
        self.cache@
    }

    /// The capacity.
    pub closed spec fn cap(&self) -> usize {
        self.capacity
    }

    /// Well-formedness: keys are distinct.
    pub closed spec fn wf(&self) -> bool {
        lfu_distinct(self.cache@)
    }

    /// An empty cache of the given capacity.
    pub fn new(capacity: usize) -> (r: Self)
        ensures
            r.wf(),
            r.entries().len() == 0,
            r.cap() == capacity,
    {
        LfuCache { capacity, cache: Vec::new() }
    }

    /// The position of `key`.
    fn position(&self, key: &K) -> (r: Option<usize>)
        requires
            obeys_concrete_eq::<K>(),
        ensures
            match r {
                Some(i) => i < self.cache@.len() && self.cache@[i as int].0 == *key,
                None => !lfu_has(self.cache@, *key),
            },
    {
        proof {
            reveal(obeys_concrete_eq);
        }
        let mut i: usize = 0;
        while i < self.cache.len()
            invariant
                i <= self.cache@.len(),
                obeys_concrete_eq::<K>(),
                forall|j: int| 0 <= j < i ==> (#[trigger] self.cache@[j]).0 != *key,
            decreases self.cache@.len() - i,
        {
            proof {
                reveal(obeys_concrete_eq);
            }
            if self.cache[i].0 == *key {
                return Some(i);
            }
            i = i + 1;
        }
        None
    }

    /// The value under `key`, counting one more use of it.
    pub fn get(&mut self, key: &K) -> (r: Option<V>)
        requires
            old(self).wf(),
            obeys_concrete_eq::<K>(),
            forall|i: int| 0 <= i < old(self).entries().len() && (#[trigger] old(self).entries()[i]).0 == *key
                ==> old(self).entries()[i].2 < u64::MAX,
        ensures
            final(self).wf(),
            final(self).cap() == old(self).cap(),
            !lfu_has(old(self).entries(), *key) ==> r is None && final(self).entries() == old(self).entries(),
            forall|i: int| 0 <= i < old(self).entries().len() && (#[trigger] old(self).entries()[i]).0 == *key ==> {
                let e = old(self).entries()[i];
                &&& r matches Some(v) && cloned::<V>(e.1, v)
                &&& final(self).entries() == old(self).entries().update(i, (e.0, e.1, (e.2 + 1) as u64))
            },
    {
        match self.position(key) {
            Some(i) => {
                let ghost old_entries = self.cache@;
                assert(old(self).entries()[i as int].0 == *key);
                let v = self.cache[i].1.clone();
                let f = self.cache[i].2 + 1;
                let (k0, v0, _f0) = self.cache.remove(i);
                self.cache.insert(i, (k0, v0, f));
                proof {
                    assert(self.cache@ =~= old_entries.update(i as int, (old_entries[i as int].0, old_entries[i as int].1, f)));
                    assert forall|a: int| 0 <= a < old_entries.len() && (#[trigger] old_entries[a]).0 == *key implies a == i by {
                        if a != i {
                            assert(old_entries[a].0 != old_entries[i as int].0);
                        }
                    }
                }
                Some(v)
            },
            None => None,
        }
    }

    /// Insert or update `key`. A new key into a full cache first evicts an
    /// entry of least use count; an existing key gets the value and one
    /// more use, a new one starts at one use.
    pub fn insert(&mut self, key: K, value: V)
        requires
            old(self).wf(),
            obeys_concrete_eq::<K>(),
            forall|i: int| 0 <= i < old(self).entries().len() && (#[trigger] old(self).entries()[i]).0 == key
                ==> old(self).entries()[i].2 < u64::MAX,
        ensures
            final(self).wf(),
            final(self).cap() == old(self).cap(),
            ({
                let e = old(self).entries();
                if lfu_has(e, key) {
                    exists|i: int| 0 <= i < e.len() && (#[trigger] e[i]).0 == key
                        && final(self).entries() == e.update(i, (key, value, (e[i].2 + 1) as u64))
                } else if e.len() >= old(self).cap() && e.len() > 0 {
                    exists|i: int| least_frequent(e, i)
                        && final(self).entries() == e.remove(i).push((key, value, 1u64))
                } else {
                    final(self).entries() == e.push((key, value, 1u64))
                }
            }),
    {
        let ghost e = self.cache@;
        match self.position(&key) {
            Some(i) => {
                assert(old(self).entries()[i as int].0 == key);
                let f = self.cache[i].2 + 1;
                let _old = self.cache.remove(i);
                self.cache.insert(i, (key, value, f));
                proof {
                    assert(self.cache@ =~= e.update(i as int, (key, value, f)));
                    assert(e[i as int].0 == key);
                    assert forall|a: int, b: int| 0 <= a < self.cache@.len() && 0 <= b < self.cache@.len() && a != b
                        implies (#[trigger] self.cache@[a]).0 != (#[trigger] self.cache@[b]).0 by {
                        assert(e[a].0 != e[b].0);
                    }
                }
            },
            None => {
                if self.cache.len() >= self.capacity && self.cache.len() > 0 {
                    let i = self.evict_lfu();
                    proof {
                        assert(least_frequent(e, i as int));
                    }
                }
                let ghost mid = self.cache@;
                self.cache.push((key, value, 1));
                proof {
                    assert forall|a: int, b: int| 0 <= a < self.cache@.len() && 0 <= b < self.cache@.len() && a != b
                        implies (#[trigger] self.cache@[a]).0 != (#[trigger] self.cache@[b]).0 by {
                        let n = mid.len() as int;
                        if a < n && b < n {
                            assert(mid[a].0 != mid[b].0);
                        } else if a == n {
                            assert(self.cache@[b] == mid[b]);
                        } else {
                            assert(self.cache@[a] == mid[a]);
                        }
                    }
                }
            },
        }
    }

    /// Remove an entry of least use count; answers its position.
    fn evict_lfu(&mut self) -> (idx: usize)
        requires
            old(self).wf(),
            old(self).cache@.len() > 0,
        ensures
            final(self).wf(),
            final(self).capacity == old(self).capacity,
            least_frequent(old(self).cache@, idx as int),
            final(self).cache@ == old(self).cache@.remove(idx as int),
    {
        let mut min_freq = u64::MAX;
        let mut evict_idx: usize = 0;
        let mut found = false;
        let mut i: usize = 0;
        while i < self.cache.len()
            invariant
                self.cache@ == old(self).cache@,
                self.capacity == old(self).capacity,
                old(self).wf(),
                self.cache@.len() > 0,
                i <= self.cache@.len(),
                evict_idx < self.cache@.len(),
                found ==> evict_idx < i && self.cache@[evict_idx as int].2 == min_freq,
                !found ==> evict_idx == 0 && min_freq == u64::MAX,
                forall|j: int| 0 <= j < i ==> min_freq <= (#[trigger] self.cache@[j]).2,
            decreases self.cache@.len() - i,
        {
            if self.cache[i].2 < min_freq {
                min_freq = self.cache[i].2;
                evict_idx = i;
                found = true;
            }
            i = i + 1;
        }
        // When every count is at the maximum, the first entry is taken.
        let ghost before = self.cache@;
        let _removed = self.cache.remove(evict_idx);
        proof {
            assert forall|a: int, b: int| 0 <= a < self.cache@.len() && 0 <= b < self.cache@.len() && a != b
                implies (#[trigger] self.cache@[a]).0 != (#[trigger] self.cache@[b]).0 by {
                let a2 = if a < evict_idx { a } else { a + 1 };
                let b2 = if b < evict_idx { b } else { b + 1 };
                assert(self.cache@[a] == before[a2]);
                assert(self.cache@[b] == before[b2]);
            }
        }
        evict_idx
    }

    /// Number of entries.
    pub fn len(&self) -> (n: usize)
        ensures
            n == self.entries().len(),
    {
        self.cache.len()
    }

    /// Whether the cache holds nothing.
    pub fn is_empty(&self) -> (r: bool)
        ensures
            r == (self.entries().len() == 0),
    {
        self.cache.len() == 0
    }
}

} // verus!
