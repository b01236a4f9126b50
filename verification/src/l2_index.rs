//! The index of the disk cache behind the memory cache: where each value
//! lies in the data file, how often it was read, and which entry goes when
//! the cache is full. The file itself is read and written around it.

use vstd::prelude::*;
use crate::keyed::Keyed;

verus! {

/// Where a cached value lies in the data file, and its use.
#[derive(Debug, Clone, Copy, PartialEq, Eq)]
pub struct L2Entry {
    /// Byte offset of the value in the data file.
    pub offset: u64,
    /// Length of the value in bytes.
    pub size: u64,
    /// When it was written (Unix seconds).
    pub timestamp: u64,
    /// How many times it was written or read.
    pub frequency: u32,
}

/// The index loaded from `pairs`, a later pair under a key replacing an
/// earlier one.
pub open spec fn loaded(pairs: Seq<(String, L2Entry)>) -> Map<Seq<char>, L2Entry>
    decreases pairs.len(),
{
    if pairs.len() == 0 {
        Map::empty()
    } else {
        loaded(pairs.drop_last()).insert(pairs.last().0@, pairs.last().1)
    }
}

/// Whether `k` is an entry of `m` of least frequency.
pub open spec fn least_used(m: Map<Seq<char>, L2Entry>, k: Seq<char>) -> bool {
    &&& m.contains_key(k)
    &&& forall|j: Seq<char>| #[trigger] m.contains_key(j) ==> m[k].frequency <= m[j].frequency
}

/// The index of the disk cache.
pub struct L2Index {
    index: Keyed<L2Entry>,
    current_offset: u64,
    current_size: u64,
    max_size_bytes: u64,
    max_entries: usize,
}

impl L2Index {
    /// The entries by key.
    pub closed spec fn entries(&self) -> Map<Seq<char>, L2Entry> {
        self.index@
    }

    /// Where the next value is written.
    pub closed spec fn offset(&self) -> u64 {
        self.current_offset
    }

    /// The bytes counted as held.
    pub closed spec fn size_bytes(&self) -> u64 {
        self.current_size
    }

    /// The most bytes the cache holds before it evicts.
    pub closed spec fn max_bytes(&self) -> u64 {
        self.max_size_bytes
    }

    /// The most entries the cache holds before it evicts.
    pub closed spec fn entry_limit(&self) -> usize {
        self.max_entries
    }

    /// The invariant: no key twice.
    pub closed spec fn wf(&self) -> bool {
        self.index.wf()
    }

    /// Whether writing `size` more bytes first evicts an entry: the bytes
    /// would pass the limit, or the entries are at their limit.
    pub open spec fn full_for(&self, size: u64) -> bool {
        self.size_bytes() + size > self.max_bytes() || self.entries().len() >= self.entry_limit()
    }

    /// An index over a data file of `file_len` bytes with the entries
    /// `pairs` read back from disk; the limits are `max_size_mb` megabytes
    /// and `max_entries` entries.
    pub fn new(max_size_mb: usize, max_entries: usize, file_len: u64, pairs: Vec<(String, L2Entry)>) -> (r: Self)
        requires
            max_size_mb * 1048576 <= usize::MAX,
        ensures
            r.wf(),
            r.entries() == loaded(pairs@),
            r.offset() == file_len,
            r.size_bytes() == file_len,
            r.max_bytes() == max_size_mb * 1048576,
            r.entry_limit() == max_entries,
    {
        let mut index: Keyed<L2Entry> = Keyed::new();
        let mut i: usize = 0;
        while i < pairs.len()
            invariant
                i <= pairs@.len(),
                index.wf(),
                index@ == loaded(pairs@.take(i as int)),
            decreases pairs@.len() - i,
        {
            let (k, e) = &pairs[i];
            index.insert(k.clone(), *e);
            proof {
                assert(pairs@.take(i + 1).drop_last() =~= pairs@.take(i as int));
            }
            i = i + 1;
        }
        proof {
            assert(pairs@.take(pairs@.len() as int) =~= pairs@);
        }
        L2Index {
            index,
            current_offset: file_len,
            current_size: file_len,
            max_size_bytes: (max_size_mb * 1048576) as u64,
            max_entries,
        }
    }

    /// Where the value under `key` lies: its offset and size.
    pub fn lookup(&self, key: &str) -> (r: Option<(u64, u64)>)
        requires
            self.wf(),
        ensures
            self.entries().contains_key(key@) ==> r == Some((self.entries()[key@].offset, self.entries()[key@].size)),
            !self.entries().contains_key(key@) ==> r is None,
    {
        match self.index.get(key) {
            Some(e) => Some((e.offset, e.size)),
            None => None,
        }
    }

    /// How often the value under `key` was used.
    pub fn frequency_of(&self, key: &str) -> (r: Option<u32>)
        requires
            self.wf(),
        ensures
            self.entries().contains_key(key@) ==> r == Some(self.entries()[key@].frequency),
            !self.entries().contains_key(key@) ==> r is None,
    {
        match self.index.get(key) {
            Some(e) => Some(e.frequency),
            None => None,
        }
    }

    /// Count a read of `key`.
    pub fn record_hit(&mut self, key: &str)
        requires
            old(self).wf(),
            old(self).entries().contains_key(key@) ==> old(self).entries()[key@].frequency < u32::MAX,
        ensures
            final(self).wf(),
            final(self).offset() == old(self).offset(),
            final(self).size_bytes() == old(self).size_bytes(),
            final(self).max_bytes() == old(self).max_bytes(),
            final(self).entry_limit() == old(self).entry_limit(),
            old(self).entries().contains_key(key@) ==> final(self).entries() == old(self).entries().insert(key@,
                L2Entry { frequency: (old(self).entries()[key@].frequency + 1) as u32, ..old(self).entries()[key@] }),
            !old(self).entries().contains_key(key@) ==> final(self).entries() == old(self).entries(),
    {
        proof {
            self.index.lemma_entries();
        }
        match self.index.index_of(key) {
            Some(i) => {
                let (_k, e) = self.index.entry_at(i);
                proof {
                    assert(self.index@[self.index.entries()[i as int].0@] == self.index.entries()[i as int].1);
                }
                let bumped = L2Entry { frequency: e.frequency + 1, ..*e };
                let _old = self.index.replace_at(i, bumped);
            },
            None => {},
        }
    }

    /// Whether writing `size` more bytes first evicts an entry.
    pub fn needs_eviction(&self, size: u64) -> (r: bool)
        requires
            self.wf(),
            self.size_bytes() + size <= u64::MAX,
        ensures
            r == self.full_for(size),
    {
        self.current_size + size > self.max_size_bytes || self.index.len() >= self.max_entries
    }

    /// Evict an entry of least frequency, if there is one; its bytes stop
    /// counting.
    pub fn evict_lfu(&mut self)
        requires
            old(self).wf(),
        ensures
            final(self).wf(),
            final(self).offset() == old(self).offset(),
            final(self).max_bytes() == old(self).max_bytes(),
            final(self).entry_limit() == old(self).entry_limit(),
            old(self).entries().len() == 0 ==> final(self).entries() == old(self).entries()
                && final(self).size_bytes() == old(self).size_bytes(),
            old(self).entries().len() > 0 ==> exists|k: Seq<char>| {
                &&& #[trigger] least_used(old(self).entries(), k)
                &&& final(self).entries() == old(self).entries().remove(k)
                &&& final(self).size_bytes() == if old(self).size_bytes() >= old(self).entries()[k].size {
                    (old(self).size_bytes() - old(self).entries()[k].size) as u64
                } else {
                    0
                }
            },
    {
        proof {
            self.index.lemma_entries();
        }
        let n = self.index.len();
        if n == 0 {
            return;
        }
        let mut best: usize = 0;
        let mut i: usize = 1;
        while i < n
            invariant
                self.index.wf(),
                n == self.index.entries().len(),
                0 <= best < n,
                1 <= i <= n,
                forall|j: int| 0 <= j < i ==> self.index.entries()[best as int].1.frequency
                    <= (#[trigger] self.index.entries()[j]).1.frequency,
            decreases n - i,
        {
            let (_k, e) = self.index.entry_at(i);
            let (_b, eb) = self.index.entry_at(best);
            if e.frequency < eb.frequency {
                best = i;
            }
            i = i + 1;
        }
        let ghost m = self.index@;
        let ghost k = self.index.entries()[best as int].0@;
        proof {
            self.index.lemma_entries();
            assert(self.index@.contains_key(self.index.entries()[best as int].0@));
            assert(m[k] == self.index.entries()[best as int].1);
            assert forall|j: Seq<char>| #[trigger] m.contains_key(j) implies m[k].frequency <= m[j].frequency by {
                let x = choose|x: int| 0 <= x < self.index.entries().len() && self.index.entries()[x].0@ == j;
                assert(m[j] == self.index.entries()[x].1);
            }
            assert(least_used(m, k));
        }
        let (_key, gone) = self.index.remove_at(best);
        self.current_size = if self.current_size >= gone.size { self.current_size - gone.size } else { 0 };
    }

    /// The first half of a write of `size` bytes: evict when full, and
    /// answer where the value is to be written.
    pub fn prepare_insert(&mut self, size: u64) -> (r: u64)
        requires
            old(self).wf(),
            old(self).size_bytes() + size <= u64::MAX,
        ensures
            final(self).wf(),
            r == old(self).offset(),
            final(self).offset() == old(self).offset(),
            final(self).max_bytes() == old(self).max_bytes(),
            final(self).entry_limit() == old(self).entry_limit(),
            !old(self).full_for(size) || old(self).entries().len() == 0 ==> final(self).entries() == old(self).entries()
                && final(self).size_bytes() == old(self).size_bytes(),
            old(self).full_for(size) && old(self).entries().len() > 0 ==> exists|k: Seq<char>| {
                &&& #[trigger] least_used(old(self).entries(), k)
                &&& final(self).entries() == old(self).entries().remove(k)
                &&& final(self).size_bytes() == if old(self).size_bytes() >= old(self).entries()[k].size {
                    (old(self).size_bytes() - old(self).entries()[k].size) as u64
                } else {
                    0
                }
            },
    {
        if self.needs_eviction(size) {
            self.evict_lfu();
        }
        self.current_offset
    }

    /// The second half of a write: the value of `size` bytes now lies at
    /// `offset`, written at `timestamp`; the file and the counted bytes
    /// grow by `size`. Answers whether the index is due to be saved (every
    /// hundredth entry).
    pub fn commit_insert(&mut self, key: String, offset: u64, size: u64, timestamp: u64) -> (r: bool)
        requires
            old(self).wf(),
            old(self).offset() + size <= u64::MAX,
            old(self).size_bytes() + size <= u64::MAX,
        ensures
            final(self).wf(),
            final(self).offset() == old(self).offset() + size,
            final(self).size_bytes() == old(self).size_bytes() + size,
            final(self).max_bytes() == old(self).max_bytes(),
            final(self).entry_limit() == old(self).entry_limit(),
            final(self).entries() == old(self).entries().insert(key@, L2Entry { offset, size, timestamp, frequency: 1 }),
            r == (final(self).entries().len() % 100 == 0),
    {
        self.current_offset = self.current_offset + size;
        self.current_size = self.current_size + size;
        self.index.insert(key, L2Entry { offset, size, timestamp, frequency: 1 });
        self.index.len() % 100 == 0
    }

    /// Forget every entry; the file starts over.
    pub fn clear(&mut self)
        ensures
            final(self).wf(),
            final(self).entries() == Map::<Seq<char>, L2Entry>::empty(),
            final(self).offset() == 0,
            final(self).size_bytes() == 0,
            final(self).max_bytes() == old(self).max_bytes(),
            final(self).entry_limit() == old(self).entry_limit(),
    {
        self.index = Keyed::new();
        self.current_offset = 0;
        self.current_size = 0;
    }

    /// The number of entries and the counted bytes.
    pub fn stats(&self) -> (r: (usize, u64))
        requires
            self.wf(),
        ensures
            r == (self.entries().len() as usize, self.size_bytes()),
    {
        (self.index.len(), self.current_size)
    }

    /// The entries with their keys, to be saved.
    pub fn pairs(&self) -> (r: Vec<(String, L2Entry)>)
        requires
            self.wf(),
        ensures
            loaded(r@) == self.entries(),
            r@.len() == self.entries().len(),
    {
        proof {
            self.index.lemma_entries();
            self.index.lemma_distinct();
        }
        let n = self.index.len();
        let mut out: Vec<(String, L2Entry)> = Vec::new();
        let mut i: usize = 0;
        while i < n
            invariant
                self.index.wf(),
                n == self.index.entries().len(),
                i <= n,
                out@.len() == i,
                forall|j: int| 0 <= j < i ==> (#[trigger] out@[j]).0@ == self.index.entries()[j].0@
                    && out@[j].1 == self.index.entries()[j].1,
            decreases n - i,
        {
            let (k, e) = self.index.entry_at(i);
            out.push((k.clone(), *e));
            i = i + 1;
        }
        proof {
            let es = self.index.entries();
            assert forall|x: int, y: int| 0 <= x < out@.len() && 0 <= y < out@.len() && x != y
                implies (#[trigger] out@[x]).0@ != (#[trigger] out@[y]).0@ by {
                assert(es[x].0@ != es[y].0@);
            }
            lemma_loaded(out@);
            let m = loaded(out@);
            assert forall|k: Seq<char>| #[trigger] m.contains_key(k) == self.index@.contains_key(k) by {
                if m.contains_key(k) {
                    let j = choose|j: int| 0 <= j < out@.len() && out@[j].0@ == k;
                    assert(self.index@.contains_key(es[j].0@));
                }
                if self.index@.contains_key(k) {
                    let j = choose|j: int| 0 <= j < es.len() && es[j].0@ == k;
                    assert(out@[j].0@ == k);
                }
            }
            assert forall|k: Seq<char>| m.contains_key(k) implies #[trigger] m[k] == self.index@[k] by {
                let j = choose|j: int| 0 <= j < out@.len() && out@[j].0@ == k;
                assert(m[out@[j].0@] == out@[j].1);
                assert(self.index@[es[j].0@] == es[j].1);
            }
            assert(m =~= self.index@);
        }
        out
    }
}

/// Loading pairs whose keys are distinct: each key is held, with its value.
proof fn lemma_loaded(out: Seq<(String, L2Entry)>)
    requires
        forall|x: int, y: int| 0 <= x < out.len() && 0 <= y < out.len() && x != y ==> (#[trigger] out[x]).0@ != (#[trigger] out[y]).0@,
    ensures
        forall|k: Seq<char>| #[trigger] loaded(out).contains_key(k) <==> exists|j: int| 0 <= j < out.len() && out[j].0@ == k,
        forall|j: int| 0 <= j < out.len() ==> loaded(out)[(#[trigger] out[j]).0@] == out[j].1,
    decreases out.len(),
{
    if out.len() > 0 {
        let d = out.drop_last();
        assert forall|x: int, y: int| 0 <= x < d.len() && 0 <= y < d.len() && x != y implies (#[trigger] d[x]).0@ != (#[trigger] d[y]).0@ by {
            assert(d[x] == out[x] && d[y] == out[y]);
        }
        lemma_loaded(d);
        assert forall|k: Seq<char>| #[trigger] loaded(out).contains_key(k) <==> exists|j: int| 0 <= j < out.len() && out[j].0@ == k by {
            if loaded(out).contains_key(k) && k != out.last().0@ {
                assert(loaded(d).contains_key(k));
                let j = choose|j: int| 0 <= j < d.len() && d[j].0@ == k;
                assert(out[j] == d[j]);
            }
            if loaded(out).contains_key(k) && k == out.last().0@ {
                assert(out[out.len() - 1].0@ == k);
            }
            if exists|j: int| 0 <= j < out.len() && out[j].0@ == k {
                let j = choose|j: int| 0 <= j < out.len() && out[j].0@ == k;
                if j < d.len() {
                    assert(d[j] == out[j]);
                }
            }
        }
        assert forall|j: int| 0 <= j < out.len() implies loaded(out)[(#[trigger] out[j]).0@] == out[j].1 by {
            if j < d.len() {
                assert(d[j] == out[j]);
                assert(out[j].0@ != out[out.len() - 1].0@);
            }
        }
    }
}

} // verus!
