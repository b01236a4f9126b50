//! A map from string keys to values, kept as a vector of entries with
//! distinct keys. The stores of named values are built on it.

use vstd::prelude::*;

verus! {

/// Entries keyed by strings, no key twice.
#[derive(Debug)]
pub struct Keyed<V> {
    entries: Vec<(String, V)>,
}

/// Whether no two entries share a key.
pub open spec fn distinct_keys<V>(s: Seq<(String, V)>) -> bool {
    forall|i: int, j: int| 0 <= i < s.len() && 0 <= j < s.len() && i != j ==> #[trigger] s[i].0@ != #[trigger] s[j].0@
}

/// Whether some entry has key `k`.
pub open spec fn has_key<V>(s: Seq<(String, V)>, k: Seq<char>) -> bool {
    exists|i: int| 0 <= i < s.len() && #[trigger] s[i].0@ == k
}

/// The value of the entry with key `k`.
pub open spec fn value_of<V>(s: Seq<(String, V)>, k: Seq<char>) -> V {
    s[choose|i: int| 0 <= i < s.len() && #[trigger] s[i].0@ == k].1
}

/// The position of the entry with key `k` (meaningful when `has_key`).
pub open spec fn key_pos<V>(s: Seq<(String, V)>, k: Seq<char>) -> int {
    choose|i: int| 0 <= i < s.len() && #[trigger] s[i].0@ == k
}

/// `s` with its last entry moved into position `i`, one shorter.
pub open spec fn swap_removed<V>(s: Seq<(String, V)>, i: int) -> Seq<(String, V)> {
    s.update(i, s.last()).drop_last()
}

proof fn lemma_key_pos<V>(s: Seq<(String, V)>, i: int)
    requires
        distinct_keys(s),
        0 <= i < s.len(),
    ensures
        key_pos(s, s[i].0@) == i,
        has_key(s, s[i].0@),
{
    let k = s[i].0@;
    assert(s[i].0@ == k);
    let j = key_pos(s, k);
    assert(s[j].0@ == k);
}

/// The map that the entries hold.
pub open spec fn entries_map<V>(s: Seq<(String, V)>) -> Map<Seq<char>, V> {
    Map::new(|k: Seq<char>| has_key(s, k), |k: Seq<char>| value_of(s, k))
}

proof fn lemma_value_at<V>(s: Seq<(String, V)>, i: int)
    requires
        distinct_keys(s),
        0 <= i < s.len(),
    ensures
        has_key(s, s[i].0@),
        value_of(s, s[i].0@) == s[i].1,
{
    let k = s[i].0@;
    assert(s[i].0@ == k);
    let j = choose|j: int| 0 <= j < s.len() && #[trigger] s[j].0@ == k;
    assert(j == i);
}

impl<V> Keyed<V> {
    /// The map held.
    pub closed spec fn view(&self) -> Map<Seq<char>, V> {
        entries_map(self.entries@)
    }

    /// The entries, in storage order.
    pub closed spec fn entries(&self) -> Seq<(String, V)> {
        self.entries@
    }

    /// Well-formedness: keys are distinct.
    pub closed spec fn wf(&self) -> bool {
        distinct_keys(self.entries@)
    }

    /// No two entries share a key.
    pub proof fn lemma_distinct(&self)
        requires
            self.wf(),
        ensures
            distinct_keys(self.entries()),
    {
    }

    /// The entries are exactly the map's pairs.
    pub proof fn lemma_entries(&self)
        requires
            self.wf(),
        ensures
            forall|i: int| 0 <= i < self.entries().len() ==> #[trigger] self@.contains_key(self.entries()[i].0@)
                && self@[self.entries()[i].0@] == self.entries()[i].1,
            forall|k: Seq<char>| #[trigger] self@.contains_key(k) ==> exists|i: int| 0 <= i < self.entries().len()
                && self.entries()[i].0@ == k,
            self@.dom().finite(),
            self@.dom().len() == self.entries().len(),
    {
        assert forall|i: int| 0 <= i < self.entries().len() implies #[trigger] self@.contains_key(self.entries()[i].0@)
            && self@[self.entries()[i].0@] == self.entries()[i].1 by {
            lemma_value_at(self.entries@, i);
        }
        assert forall|k: Seq<char>| #[trigger] self@.contains_key(k) implies exists|i: int| 0 <= i < self.entries().len()
            && self.entries()[i].0@ == k by {
            assert(has_key(self.entries@, k));
            let j = choose|j: int| 0 <= j < self.entries@.len() && #[trigger] self.entries@[j].0@ == k;
            assert(self.entries()[j].0@ == k);
        }
        lemma_dom_len(self.entries@);
    }

    /// The map is the one its entries hold.
    pub proof fn lemma_view(&self)
        ensures
            self@ == entries_map(self.entries()),
    {
    }

    /// An empty map.
    pub fn new() -> (r: Self)
        ensures
            r.wf(),
            r@ == Map::<Seq<char>, V>::empty(),
            r.entries().len() == 0,
    {
        let r = Keyed { entries: Vec::new() };
        assert(r@ =~= Map::<Seq<char>, V>::empty());
        r
    }

    /// Number of entries.
    pub fn len(&self) -> (n: usize)
        requires
            self.wf(),
        ensures
            n == self@.len(),
            n == self.entries().len(),
    {
        proof {
            self.lemma_entries();
        }
        self.entries.len()
    }

    /// The position of the entry with key `key`.
    pub fn index_of(&self, key: &str) -> (r: Option<usize>)
        requires
            self.wf(),
        ensures
            match r {
                Some(i) => i < self.entries().len() && self.entries()[i as int].0@ == key@
                    && i == key_pos(self.entries(), key@),
                None => !self@.contains_key(key@),
            },
            r is Some <==> self@.contains_key(key@),
            self@.contains_key(key@) == has_key(self.entries(), key@),
    {
        let k = crate::text::owned(key);
        let mut i: usize = 0;
        while i < self.entries.len()
            invariant
                i <= self.entries@.len(),
                distinct_keys(self.entries@),
                k@ == key@,
                forall|j: int| 0 <= j < i ==> #[trigger] self.entries@[j].0@ != key@,
            decreases self.entries@.len() - i,
        {
            if self.entries[i].0 == k {
                proof {
                    lemma_value_at(self.entries@, i as int);
                    lemma_key_pos(self.entries@, i as int);
                }
                return Some(i);
            }
            i = i + 1;
        }
        None
    }

    /// The value under `key`, if any.
    pub fn get(&self, key: &str) -> (r: Option<&V>)
        requires
            self.wf(),
        ensures
            match r {
                Some(v) => self@.contains_key(key@) && *v == self@[key@],
                None => !self@.contains_key(key@),
            },
    {
        match self.index_of(key) {
            Some(i) => {
                proof {
                    lemma_value_at(self.entries@, i as int);
                }
                Some(&self.entries[i].1)
            },
            None => None,
        }
    }

    /// The entry at position `i`.
    pub fn entry_at(&self, i: usize) -> (r: (&String, &V))
        requires
            i < self.entries().len(),
        ensures
            *r.0 == self.entries()[i as int].0,
            *r.1 == self.entries()[i as int].1,
    {
        (&self.entries[i].0, &self.entries[i].1)
    }

    /// Put `value` under `key`, replacing any value there.
    pub fn insert(&mut self, key: String, value: V)
        requires
            old(self).wf(),
        ensures
            final(self).wf(),
            final(self)@ == old(self)@.insert(key@, value),
            has_key(old(self).entries(), key@) ==> final(self).entries()
                == old(self).entries().update(key_pos(old(self).entries(), key@), (key, value)),
            !has_key(old(self).entries(), key@) ==> final(self).entries() == old(self).entries().push((key, value)),
    {
        let ghost k = key@;
        match self.index_of(key.as_str()) {
            Some(i) => {
                let ghost old_entries = self.entries@;
                self.entries.set(i, (key, value));
                proof {
                    let s = self.entries@;
                    assert(distinct_keys(s)) by {
                        assert forall|a: int, b: int| 0 <= a < s.len() && 0 <= b < s.len() && a != b implies
                            #[trigger] s[a].0@ != #[trigger] s[b].0@ by {
                            assert(old_entries[a].0@ != old_entries[b].0@);
                        }
                    }
                    assert forall|q: Seq<char>| #[trigger] has_key(s, q) == (has_key(old_entries, q) || q == k) by {
                        assert(s[i as int].0@ == k);
                        assert(old_entries[i as int].0@ == k);
                        if has_key(old_entries, q) {
                            let j = choose|j: int| 0 <= j < old_entries.len() && #[trigger] old_entries[j].0@ == q;
                            if j != i {
                                assert(s[j] == old_entries[j]);
                            }
                            assert(has_key(s, q));
                        }
                        if q == k {
                            assert(has_key(s, q));
                        }
                        if has_key(s, q) {
                            let j = choose|j: int| 0 <= j < s.len() && #[trigger] s[j].0@ == q;
                            if j != i {
                                assert(s[j] == old_entries[j]);
                                assert(has_key(old_entries, q));
                            }
                        }
                    }
                    assert forall|q: Seq<char>| has_key(s, q) implies #[trigger] value_of(s, q)
                        == (if q == k { value } else { value_of(old_entries, q) }) by {
                        let j = choose|j: int| 0 <= j < s.len() && #[trigger] s[j].0@ == q;
                        lemma_value_at(s, j);
                        if q != k {
                            assert(j != i);
                            lemma_value_at(old_entries, j);
                        } else {
                            lemma_value_at(s, i as int);
                        }
                    }
                    assert(self@ =~= old(self)@.insert(k, value));
                }
            },
            None => {
                let ghost old_entries = self.entries@;
                self.entries.push((key, value));
                proof {
                    let s = self.entries@;
                    let n = old_entries.len() as int;
                    assert(distinct_keys(s)) by {
                        assert forall|a: int, b: int| 0 <= a < s.len() && 0 <= b < s.len() && a != b implies
                            #[trigger] s[a].0@ != #[trigger] s[b].0@ by {
                            if a == n {
                                assert(old_entries[b].0@ == s[b].0@);
                            } else if b == n {
                                assert(old_entries[a].0@ == s[a].0@);
                            } else {
                                assert(old_entries[a].0@ != old_entries[b].0@);
                            }
                        }
                    }
                    assert forall|q: Seq<char>| #[trigger] has_key(s, q) == (has_key(old_entries, q) || q == k) by {
                        if has_key(old_entries, q) {
                            let j = choose|j: int| 0 <= j < old_entries.len() && #[trigger] old_entries[j].0@ == q;
                            assert(s[j].0@ == q);
                        }
                        if has_key(s, q) {
                            let j = choose|j: int| 0 <= j < s.len() && #[trigger] s[j].0@ == q;
                            assert(old_entries[j].0@ == q || j == n);
                        }
                        assert(s[n].0@ == k);
                    }
                    assert forall|q: Seq<char>| has_key(s, q) implies #[trigger] value_of(s, q)
                        == (if q == k { value } else { value_of(old_entries, q) }) by {
                        let j = choose|j: int| 0 <= j < s.len() && #[trigger] s[j].0@ == q;
                        lemma_value_at(s, j);
                        if q != k {
                            assert(j != n);
                            assert(old_entries[j] == s[j]);
                            lemma_value_at(old_entries, j);
                        } else {
                            lemma_value_at(s, n);
                        }
                    }
                    assert(self@ =~= old(self)@.insert(k, value));
                }
            },
        }
    }

    /// Put `value` in place of the value at position `i`, keeping its key
    /// and its place; answers the value that was there.
    pub fn replace_at(&mut self, i: usize, value: V) -> (r: V)
        requires
            old(self).wf(),
            i < old(self).entries().len(),
        ensures
            final(self).wf(),
            r == old(self).entries()[i as int].1,
            final(self).entries() == old(self).entries().update(i as int, (old(self).entries()[i as int].0, value)),
            final(self)@ == old(self)@.insert(old(self).entries()[i as int].0@, value),
    {
        let ghost s0 = self.entries@;
        let k = self.entries[i].0.clone();
        let mut pair = (k, value);
        self.entries.set_and_swap(i, &mut pair);
        let (_k, v) = pair;
        proof {
            lemma_update_value(s0, i as int, value);
        }
        v
    }

    /// Take the entry at position `i` out; the last entry moves into its place.
    pub fn remove_at(&mut self, i: usize) -> (r: (String, V))
        requires
            old(self).wf(),
            i < old(self).entries().len(),
        ensures
            final(self).wf(),
            r == old(self).entries()[i as int],
            final(self).entries() == swap_removed(old(self).entries(), i as int),
            final(self)@ == old(self)@.remove(old(self).entries()[i as int].0@),
    {
        let ghost s0 = self.entries@;
        proof {
            lemma_key_pos(s0, i as int);
        }
        let k = self.entries[i].0.clone();
        let r = self.remove(k.as_str());
        match r {
            Some(v) => (k, v),
            None => {
                proof {
                    assert(false);
                }
                self.entries.swap_remove(i)
            },
        }
    }

    /// Take the value under `key` out of the map.
    pub fn remove(&mut self, key: &str) -> (r: Option<V>)
        requires
            old(self).wf(),
        ensures
            final(self).wf(),
            final(self)@ == old(self)@.remove(key@),
            match r {
                Some(v) => old(self)@.contains_key(key@) && v == old(self)@[key@],
                None => !old(self)@.contains_key(key@),
            },
            has_key(old(self).entries(), key@) ==> final(self).entries()
                == swap_removed(old(self).entries(), key_pos(old(self).entries(), key@)),
            !has_key(old(self).entries(), key@) ==> final(self).entries() == old(self).entries(),
    {
        match self.index_of(key) {
            Some(i) => {
                let ghost old_entries = self.entries@;
                proof {
                    lemma_value_at(old_entries, i as int);
                }
                let (_k, v) = self.entries.swap_remove(i);
                proof {
                    let s = self.entries@;
                    let last = old_entries.len() - 1;
                    // s is old_entries with position i holding the old last entry, shortened by one
                    assert forall|a: int| 0 <= a < s.len() implies #[trigger] s[a] == old_entries[if a == i { last } else { a }] by {}
                    assert(distinct_keys(s)) by {
                        assert forall|a: int, b: int| 0 <= a < s.len() && 0 <= b < s.len() && a != b implies
                            #[trigger] s[a].0@ != #[trigger] s[b].0@ by {
                            let a2 = if a == i { last } else { a };
                            let b2 = if b == i { last } else { b };
                            assert(s[a] == old_entries[a2]);
                            assert(s[b] == old_entries[b2]);
                        }
                    }
                    assert forall|q: Seq<char>| #[trigger] has_key(s, q) == (has_key(old_entries, q) && q != key@) by {
                        if has_key(old_entries, q) && q != key@ {
                            let j = choose|j: int| 0 <= j < old_entries.len() && #[trigger] old_entries[j].0@ == q;
                            assert(j != i);
                            if j == last {
                                assert(s[i as int] == old_entries[last]);
                                assert(s[i as int].0@ == q);
                            } else {
                                assert(s[j] == old_entries[j]);
                                assert(s[j].0@ == q);
                            }
                        }
                        if has_key(s, q) {
                            let j = choose|j: int| 0 <= j < s.len() && #[trigger] s[j].0@ == q;
                            let j2 = if j == i { last } else { j };
                            assert(s[j] == old_entries[j2]);
                            assert(old_entries[j2].0@ == q);
                            assert(j2 != i);
                        }
                    }
                    assert forall|q: Seq<char>| has_key(s, q) implies #[trigger] value_of(s, q) == value_of(old_entries, q) by {
                        let j = choose|j: int| 0 <= j < s.len() && #[trigger] s[j].0@ == q;
                        lemma_value_at(s, j);
                        let j2 = if j == i { last } else { j };
                        assert(s[j] == old_entries[j2]);
                        lemma_value_at(old_entries, j2);
                    }
                    assert(self@ =~= old(self)@.remove(key@));
                }
                Some(v)
            },
            None => {
                assert(self@ =~= old(self)@.remove(key@));
                None
            },
        }
    }
}

proof fn lemma_update_value<V>(s: Seq<(String, V)>, i: int, v: V)
    requires
        distinct_keys(s),
        0 <= i < s.len(),
    ensures
        distinct_keys(s.update(i, (s[i].0, v))),
        entries_map(s.update(i, (s[i].0, v))) == entries_map(s).insert(s[i].0@, v),
{
    let t = s.update(i, (s[i].0, v));
    let k = s[i].0@;
    assert forall|a: int, b: int| 0 <= a < t.len() && 0 <= b < t.len() && a != b implies
        #[trigger] t[a].0@ != #[trigger] t[b].0@ by {
        assert(t[a].0 == s[a].0 && t[b].0 == s[b].0);
    }
    assert forall|q: Seq<char>| #[trigger] has_key(t, q) == (has_key(s, q) || q == k) by {
        if has_key(t, q) {
            let j = choose|j: int| 0 <= j < t.len() && #[trigger] t[j].0@ == q;
            assert(s[j].0@ == q);
        }
        if has_key(s, q) {
            let j = choose|j: int| 0 <= j < s.len() && #[trigger] s[j].0@ == q;
            assert(t[j].0@ == q);
        }
        if q == k {
            assert(t[i].0@ == q);
        }
    }
    assert forall|q: Seq<char>| has_key(t, q) implies #[trigger] value_of(t, q) == (if q == k { v } else { value_of(s, q) }) by {
        let j = choose|j: int| 0 <= j < t.len() && #[trigger] t[j].0@ == q;
        lemma_value_at(t, j);
        if q != k {
            assert(j != i);
            assert(t[j] == s[j]);
            lemma_value_at(s, j);
        } else {
            assert(j == i);
        }
    }
    assert(entries_map(t) =~= entries_map(s).insert(k, v));
}

proof fn lemma_dom_len<V>(s: Seq<(String, V)>)
    requires
        distinct_keys(s),
    ensures
        entries_map(s).dom().finite(),
        entries_map(s).dom().len() == s.len(),
    decreases s.len(),
{
    if s.len() == 0 {
        assert(entries_map(s).dom() =~= Set::<Seq<char>>::empty());
    } else {
        let t = s.drop_last();
        let k = s.last().0@;
        assert(distinct_keys(t)) by {
            assert forall|a: int, b: int| 0 <= a < t.len() && 0 <= b < t.len() && a != b implies
                #[trigger] t[a].0@ != #[trigger] t[b].0@ by {
                assert(t[a] == s[a] && t[b] == s[b]);
            }
        }
        lemma_dom_len(t);
        assert(!has_key(t, k)) by {
            if has_key(t, k) {
                let j = choose|j: int| 0 <= j < t.len() && #[trigger] t[j].0@ == k;
                assert(s[j].0@ == s[s.len() - 1].0@);
            }
        }
        assert forall|q: Seq<char>| #[trigger] has_key(s, q) == (has_key(t, q) || q == k) by {
            if has_key(s, q) {
                let j = choose|j: int| 0 <= j < s.len() && #[trigger] s[j].0@ == q;
                if j < t.len() {
                    assert(t[j].0@ == q);
                }
            }
            if has_key(t, q) {
                let j = choose|j: int| 0 <= j < t.len() && #[trigger] t[j].0@ == q;
                assert(s[j].0@ == q);
            }
            assert(s[s.len() - 1].0@ == k);
        }
        assert(entries_map(s).dom() =~= entries_map(t).dom().insert(k));
    }
}

impl<V: Copy> Keyed<V> {
    /// A copy of the map, entry for entry.
    pub fn copied(&self) -> (r: Self)
        requires
            self.wf(),
        ensures
            r.wf(),
            r.entries() == self.entries(),
            r@ == self@,
    {
        let mut out: Vec<(String, V)> = Vec::new();
        let mut i: usize = 0;
        while i < self.entries.len()
            invariant
                i <= self.entries@.len(),
                out@ == self.entries@.take(i as int),
            decreases self.entries@.len() - i,
        {
            let k = self.entries[i].0.clone();
            let v = self.entries[i].1;
            out.push((k, v));
            proof {
                assert(out@ =~= self.entries@.take(i + 1));
            }
            i = i + 1;
        }
        proof {
            assert(out@ =~= self.entries@);
        }
        Keyed { entries: out }
    }
}

} // verus!
