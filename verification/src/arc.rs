//! ARC cache: balances recency (list T1) against frequency (list T2), and
//! adapts the share of T1 from the keys it recently evicted (ghost lists
//! B1 and B2, keys only).

use vstd::prelude::*;
use vstd::laws_eq::obeys_concrete_eq;

verus! {

/// The abstract state of an ARC cache. Each list runs from its oldest entry
/// (index 0) to its newest.
#[verifier::ext_equal]
pub struct ArcState<K, V> {
    pub capacity: nat,
    pub target: nat,
    pub t1: Seq<(K, V)>,
    pub t2: Seq<(K, V)>,
    pub b1: Seq<K>,
    pub b2: Seq<K>,
}

/// Whether some entry of `s` has key `k`.
pub open spec fn holds_key<K, V>(s: Seq<(K, V)>, k: K) -> bool {
    exists|i: int| 0 <= i < s.len() && (#[trigger] s[i]).0 == k
}

/// An index of an entry of `s` with key `k` (the only one where keys are distinct).
pub open spec fn key_at<K, V>(s: Seq<(K, V)>, k: K) -> int {
    choose|i: int| 0 <= i < s.len() && (#[trigger] s[i]).0 == k
}

/// Whether no two entries of `s` share a key.
pub open spec fn distinct_keys<K, V>(s: Seq<(K, V)>) -> bool {
    forall|i: int, j: int|
        0 <= i < s.len() && 0 <= j < s.len() && i != j ==> (#[trigger] s[i]).0 != (#[trigger] s[j]).0
}

/// `s` with every occurrence of `k` taken out, the rest in order.
pub open spec fn without<K>(s: Seq<K>, k: K) -> Seq<K>
    decreases s.len(),
{
    if s.len() == 0 {
        s
    } else if s.last() == k {
        without(s.drop_last(), k)
    } else {
        without(s.drop_last(), k).push(s.last())
    }
}

impl<K, V> ArcState<K, V> {
    /// A fresh cache: nothing stored, T1's share half the capacity.
    pub open spec fn fresh(capacity: nat) -> Self {
        ArcState {
            capacity,
            target: capacity / 2,
            t1: Seq::empty(),
            t2: Seq::empty(),
            b1: Seq::empty(),
            b2: Seq::empty(),
        }
    }

    /// The most entries the cache holds: its capacity, and one for a cache
    /// of capacity 0 (which still keeps the entry last written).
    pub open spec fn room(self) -> nat {
        if self.capacity == 0 { 1 } else { self.capacity }
    }

    /// The invariant: T1's share within the capacity, keys distinct over T1
    /// and T2 together, and no more entries than the room.
    pub open spec fn wf(self) -> bool {
        &&& self.target <= self.capacity
        &&& distinct_keys(self.t1)
        &&& distinct_keys(self.t2)
        &&& forall|i: int, j: int|
            0 <= i < self.t1.len() && 0 <= j < self.t2.len() ==> (#[trigger] self.t1[i]).0
                != (#[trigger] self.t2[j]).0
        &&& self.t1.len() + self.t2.len() <= self.room()
        &&& self.t1.len() + self.t2.len() <= usize::MAX
    }

    /// The number of stored entries.
    pub open spec fn size(self) -> nat {
        self.t1.len() + self.t2.len()
    }

    /// The value stored under `k`, if any.
    pub open spec fn lookup(self, k: K) -> Option<V> {
        if holds_key(self.t1, k) {
            Some(self.t1[key_at(self.t1, k)].1)
        } else if holds_key(self.t2, k) {
            Some(self.t2[key_at(self.t2, k)].1)
        } else {
            None
        }
    }

    /// The state after a read of `k`: a key found in T1 moves to the back of
    /// T2, one found in T2 moves to its back.
    pub open spec fn after_get(self, k: K) -> Self {
        if holds_key(self.t1, k) {
            let i = key_at(self.t1, k);
            ArcState { t1: self.t1.remove(i), t2: self.t2.push(self.t1[i]), ..self }
        } else if holds_key(self.t2, k) {
            let i = key_at(self.t2, k);
            ArcState { t2: self.t2.remove(i).push(self.t2[i]), ..self }
        } else {
            self
        }
    }

    /// A key remembered in B1 raises T1's share by one (up to the capacity);
    /// one remembered in B2 lowers it by one (down to zero). Either way the
    /// key is forgotten from that list.
    pub open spec fn adapted(self, k: K) -> Self {
        if self.b1.contains(k) {
            ArcState {
                target: if self.target + 1 <= self.capacity { self.target + 1 } else { self.capacity },
                b1: without(self.b1, k),
                ..self
            }
        } else if self.b2.contains(k) {
            ArcState {
                target: if self.target > 0 { (self.target - 1) as nat } else { 0 },
                b2: without(self.b2, k),
                ..self
            }
        } else {
            self
        }
    }

    /// `s` with `k` appended, its oldest key dropped beyond `capacity` keys.
    pub open spec fn remember(s: Seq<K>, k: K, capacity: nat) -> Seq<K> {
        if s.push(k).len() > capacity {
            s.push(k).drop_first()
        } else {
            s.push(k)
        }
    }

    /// One eviction: the oldest entry of T1 when T1 is over its share or T2
    /// is empty, else the oldest of T2; its key goes to B1 or B2. Only an
    /// empty cache evicts nothing.
    pub open spec fn evicted(self) -> Self {
        if self.t1.len() > self.target || (self.t2.len() == 0 && self.t1.len() > 0) {
            ArcState {
                t1: self.t1.drop_first(),
                b1: Self::remember(self.b1, self.t1[0].0, self.capacity),
                ..self
            }
        } else if self.t2.len() > 0 {
            ArcState {
                t2: self.t2.drop_first(),
                b2: Self::remember(self.b2, self.t2[0].0, self.capacity),
                ..self
            }
        } else {
            self
        }
    }

    /// The state after storing `v` under `k`. A stored key takes the value
    /// and moves to the back of T2. A new key adapts T1's share, makes room
    /// when the cache is full, and goes to the back of T1.
    pub open spec fn after_insert(self, k: K, v: V) -> Self {
        if holds_key(self.t1, k) {
            ArcState { t1: self.t1.remove(key_at(self.t1, k)), t2: self.t2.push((k, v)), ..self }
        } else if holds_key(self.t2, k) {
            ArcState { t2: self.t2.remove(key_at(self.t2, k)).push((k, v)), ..self }
        } else {
            let a = self.adapted(k);
            let e = if a.size() >= a.capacity { a.evicted() } else { a };
            ArcState { t1: e.t1.push((k, v)), ..e }
        }
    }
}

/// Where keys are distinct, the entry with key `k` is the one `key_at` names.
pub proof fn lemma_key_at_unique<K, V>(s: Seq<(K, V)>, k: K, i: int)
    requires
        distinct_keys(s),
        0 <= i < s.len(),
        s[i].0 == k,
    ensures
        key_at(s, k) == i,
{
    let j = key_at(s, k);
    assert(0 <= j < s.len() && s[j].0 == k);
}

/// A cache that adapts between recency and frequency.
pub struct ArcCache<K, V> {
    capacity: usize,
    target_t1: usize,
    t1: Vec<(K, V)>,
    t2: Vec<(K, V)>,
    b1: Vec<K>,
    b2: Vec<K>,
}

impl<K, V> View for ArcCache<K, V> {
    type V = ArcState<K, V>;

    closed spec fn view(&self) -> ArcState<K, V> {
        ArcState {
            capacity: self.capacity as nat,
            target: self.target_t1 as nat,
            t1: self.t1@,
            t2: self.t2@,
            b1: self.b1@,
            b2: self.b2@,
        }
    }
}

/// The first index of an entry of `v` with key `key`.
fn find_key<K: PartialEq, V>(v: &Vec<(K, V)>, key: &K) -> (r: Option<usize>)
    requires
        obeys_concrete_eq::<K>(),
    ensures
        match r {
            Some(i) => i < v@.len() && v@[i as int].0 == *key,
            None => !holds_key(v@, *key),
        },
{
    proof {
        reveal(obeys_concrete_eq);
    }
    let mut i: usize = 0;
    while i < v.len()
        invariant
            i <= v@.len(),
            obeys_concrete_eq::<K>(),
            forall|j: int| 0 <= j < i ==> (#[trigger] v@[j]).0 != *key,
        decreases v@.len() - i,
    {
        proof {
            reveal(obeys_concrete_eq);
        }
        if v[i].0 == *key {
            return Some(i);
        }
        i = i + 1;
    }
    None
}

/// Whether `v` holds `key`.
fn list_contains<K: PartialEq>(v: &Vec<K>, key: &K) -> (r: bool)
    requires
        obeys_concrete_eq::<K>(),
    ensures
        r == v@.contains(*key),
{
    proof {
        reveal(obeys_concrete_eq);
    }
    let mut i: usize = 0;
    while i < v.len()
        invariant
            i <= v@.len(),
            obeys_concrete_eq::<K>(),
            forall|j: int| 0 <= j < i ==> v@[j] != *key,
        decreases v@.len() - i,
    {
        proof {
            reveal(obeys_concrete_eq);
        }
        if v[i] == *key {
            assert(v@[i as int] == *key);
            return true;
        }
        i = i + 1;
    }
    false
}


/// One step of `without` over a growing prefix of `s`.
proof fn lemma_without_step<K>(s: Seq<K>, k: K, n: int)
    requires
        0 <= n < s.len(),
    ensures
        without(s.take(n + 1), k) == if s[n] == k {
            without(s.take(n), k)
        } else {
            without(s.take(n), k).push(s[n])
        },
{
    assert(s.take(n + 1).drop_last() =~= s.take(n));
    assert(s.take(n + 1).last() == s[n]);
}

/// Take every occurrence of `key` out of `v`, keeping the rest in order.
fn strip<K: PartialEq>(v: &mut Vec<K>, key: &K)
    requires
        obeys_concrete_eq::<K>(),
    ensures
        final(v)@ == without(old(v)@, *key),
{
    proof {
        reveal(obeys_concrete_eq);
    }
    let ghost orig = v@;
    let ghost mut n: int = 0;
    let mut i: usize = 0;
    proof {
        assert(orig.take(0) =~= Seq::<K>::empty());
        assert(v@ =~= without(orig.take(0), *key) + orig.skip(0));
    }
    while i < v.len()
        invariant
            obeys_concrete_eq::<K>(),
            0 <= n <= orig.len(),
            i == without(orig.take(n), *key).len(),
            v@ == without(orig.take(n), *key) + orig.skip(n),
        decreases orig.len() - n,
    {
        proof {
            reveal(obeys_concrete_eq);
            assert(v@[i as int] == orig[n]);
            lemma_without_step(orig, *key, n);
        }
        if v[i] == *key {
            let _gone = v.remove(i);
            proof {
                assert(v@ =~= without(orig.take(n + 1), *key) + orig.skip(n + 1));
                n = n + 1;
            }
        } else {
            i = i + 1;
            proof {
                assert(v@ =~= without(orig.take(n + 1), *key) + orig.skip(n + 1));
                n = n + 1;
            }
        }
    }
    proof {
        assert(orig.take(n) =~= orig);
        assert(v@ =~= without(orig, *key));
    }
}

/// A read keeps the invariant.
pub proof fn lemma_after_get_wf<K, V>(st: ArcState<K, V>, k: K)
    requires
        st.wf(),
    ensures
        st.after_get(k).wf(),
        st.after_get(k).size() == st.size(),
{
    let r = st.after_get(k);
    if holds_key(st.t1, k) {
        let i = key_at(st.t1, k);
        assert forall|a: int, b: int| 0 <= a < r.t2.len() && 0 <= b < r.t2.len() && a != b
            implies (#[trigger] r.t2[a]).0 != (#[trigger] r.t2[b]).0 by {
            if a == st.t2.len() as int {
                assert(r.t2[b] == st.t2[b]);
            } else if b == st.t2.len() as int {
                assert(r.t2[a] == st.t2[a]);
            }
        }
        assert forall|a: int, b: int| 0 <= a < r.t1.len() && 0 <= b < r.t1.len() && a != b
            implies (#[trigger] r.t1[a]).0 != (#[trigger] r.t1[b]).0 by {
            let a2 = if a < i { a } else { a + 1 };
            let b2 = if b < i { b } else { b + 1 };
            assert(r.t1[a] == st.t1[a2]);
            assert(r.t1[b] == st.t1[b2]);
        }
        assert forall|a: int, b: int| 0 <= a < r.t1.len() && 0 <= b < r.t2.len()
            implies (#[trigger] r.t1[a]).0 != (#[trigger] r.t2[b]).0 by {
            let a2 = if a < i { a } else { a + 1 };
            assert(r.t1[a] == st.t1[a2]);
            if b == st.t2.len() as int {
                assert(r.t2[b] == st.t1[i]);
            } else {
                assert(r.t2[b] == st.t2[b]);
            }
        }
    } else if holds_key(st.t2, k) {
        let i = key_at(st.t2, k);
        let m = st.t2.remove(i);
        assert forall|a: int, b: int| 0 <= a < r.t2.len() && 0 <= b < r.t2.len() && a != b
            implies (#[trigger] r.t2[a]).0 != (#[trigger] r.t2[b]).0 by {
            let last = m.len() as int;
            let a2 = if a == last { i } else if a < i { a } else { a + 1 };
            let b2 = if b == last { i } else if b < i { b } else { b + 1 };
            assert(r.t2[a] == st.t2[a2]);
            assert(r.t2[b] == st.t2[b2]);
        }
        assert forall|a: int, b: int| 0 <= a < r.t1.len() && 0 <= b < r.t2.len()
            implies (#[trigger] r.t1[a]).0 != (#[trigger] r.t2[b]).0 by {
            let last = m.len() as int;
            let b2 = if b == last { i } else if b < i { b } else { b + 1 };
            assert(r.t2[b] == st.t2[b2]);
        }
    }
}

/// A write keeps the invariant; a new key grows the cache by at most one
/// entry, a stored one leaves its size as it was.
pub proof fn lemma_after_insert_wf<K, V>(st: ArcState<K, V>, k: K, v: V)
    requires
        st.wf(),
        st.size() < usize::MAX,
    ensures
        st.after_insert(k, v).wf(),
        st.after_insert(k, v).size() <= st.size() + 1,
        holds_key(st.t1, k) || holds_key(st.t2, k) ==> st.after_insert(k, v).size() == st.size(),
{
    let r = st.after_insert(k, v);
    if holds_key(st.t1, k) {
        let i = key_at(st.t1, k);
        assert forall|a: int, b: int| 0 <= a < r.t2.len() && 0 <= b < r.t2.len() && a != b
            implies (#[trigger] r.t2[a]).0 != (#[trigger] r.t2[b]).0 by {
            if a == st.t2.len() as int {
                assert(r.t2[b] == st.t2[b]);
                assert(st.t1[i].0 == k);
            } else if b == st.t2.len() as int {
                assert(r.t2[a] == st.t2[a]);
                assert(st.t1[i].0 == k);
            }
        }
        assert forall|a: int, b: int| 0 <= a < r.t1.len() && 0 <= b < r.t1.len() && a != b
            implies (#[trigger] r.t1[a]).0 != (#[trigger] r.t1[b]).0 by {
            let a2 = if a < i { a } else { a + 1 };
            let b2 = if b < i { b } else { b + 1 };
            assert(r.t1[a] == st.t1[a2]);
            assert(r.t1[b] == st.t1[b2]);
        }
        assert forall|a: int, b: int| 0 <= a < r.t1.len() && 0 <= b < r.t2.len()
            implies (#[trigger] r.t1[a]).0 != (#[trigger] r.t2[b]).0 by {
            let a2 = if a < i { a } else { a + 1 };
            assert(r.t1[a] == st.t1[a2]);
            if b == st.t2.len() as int {
                assert(st.t1[i].0 == k);
            } else {
                assert(r.t2[b] == st.t2[b]);
            }
        }
    } else if holds_key(st.t2, k) {
        let i = key_at(st.t2, k);
        let m = st.t2.remove(i);
        assert forall|a: int, b: int| 0 <= a < r.t2.len() && 0 <= b < r.t2.len() && a != b
            implies (#[trigger] r.t2[a]).0 != (#[trigger] r.t2[b]).0 by {
            let last = m.len() as int;
            let a2 = if a == last { i } else if a < i { a } else { a + 1 };
            let b2 = if b == last { i } else if b < i { b } else { b + 1 };
            assert(st.t2[i].0 == k);
            if a != last {
                assert(r.t2[a] == st.t2[a2]);
            }
            if b != last {
                assert(r.t2[b] == st.t2[b2]);
            }
        }
        assert forall|a: int, b: int| 0 <= a < r.t1.len() && 0 <= b < r.t2.len()
            implies (#[trigger] r.t1[a]).0 != (#[trigger] r.t2[b]).0 by {
            let last = m.len() as int;
            let b2 = if b == last { i } else if b < i { b } else { b + 1 };
            assert(st.t2[i].0 == k);
            if b != last {
                assert(r.t2[b] == st.t2[b2]);
            }
        }
    } else {
        let a = st.adapted(k);
        let e = if a.size() >= a.capacity { a.evicted() } else { a };
        assert(a.t1 == st.t1 && a.t2 == st.t2 && a.target <= a.capacity);
        assert(e.t1.len() <= a.t1.len() && e.t2.len() <= a.t2.len());
        assert(e.capacity == st.capacity);
        let from_t1 = a.t1.len() > a.target || (a.t2.len() == 0 && a.t1.len() > 0);
        let d1: int = if a.size() >= a.capacity && from_t1 { 1 } else { 0 };
        let d2: int = if a.size() >= a.capacity && !from_t1 && a.t2.len() > 0 {
            1
        } else {
            0
        };
        assert(e.t1.len() + d1 == st.t1.len());
        assert(e.t2.len() + d2 == st.t2.len());
        assert forall|x: int| 0 <= x < e.t1.len() implies #[trigger] e.t1[x] == st.t1[x + d1] by {}
        assert forall|x: int| 0 <= x < e.t2.len() implies #[trigger] e.t2[x] == st.t2[x + d2] by {}
        assert forall|a1: int, b1: int| 0 <= a1 < r.t1.len() && 0 <= b1 < r.t1.len() && a1 != b1
            implies (#[trigger] r.t1[a1]).0 != (#[trigger] r.t1[b1]).0 by {
            let n = e.t1.len() as int;
            if a1 == n {
                assert(r.t1[b1] == e.t1[b1]);
                assert(st.t1[b1 + d1].0 != k);
            } else if b1 == n {
                assert(r.t1[a1] == e.t1[a1]);
                assert(st.t1[a1 + d1].0 != k);
            } else {
                assert(r.t1[a1] == e.t1[a1] && r.t1[b1] == e.t1[b1]);
                assert(st.t1[a1 + d1].0 != st.t1[b1 + d1].0);
            }
        }
        assert forall|a1: int, b1: int| 0 <= a1 < r.t2.len() && 0 <= b1 < r.t2.len() && a1 != b1
            implies (#[trigger] r.t2[a1]).0 != (#[trigger] r.t2[b1]).0 by {
            assert(st.t2[a1 + d2].0 != st.t2[b1 + d2].0);
        }
        assert forall|a1: int, b1: int| 0 <= a1 < r.t1.len() && 0 <= b1 < r.t2.len()
            implies (#[trigger] r.t1[a1]).0 != (#[trigger] r.t2[b1]).0 by {
            assert(r.t2[b1] == e.t2[b1]);
            if a1 == e.t1.len() as int {
                assert(st.t2[b1 + d2].0 != k);
            } else {
                assert(r.t1[a1] == e.t1[a1]);
                assert(st.t1[a1 + d1].0 != st.t2[b1 + d2].0);
            }
        }
    }
}

/// Where keys are distinct, the entry at `i` is what `key_at` finds for its key.
proof fn lemma_found_at<K, V>(s: Seq<(K, V)>, i: int)
    requires
        distinct_keys(s),
        0 <= i < s.len(),
    ensures
        holds_key(s, s[i].0),
        s[key_at(s, s[i].0)] == s[i],
{
    lemma_key_at_unique(s, s[i].0, i);
}

/// After a write of `v` under `k`, a lookup of `k` finds `v`.
pub proof fn lemma_lookup_after_insert<K, V>(st: ArcState<K, V>, k: K, v: V)
    requires
        st.wf(),
        st.size() < usize::MAX,
    ensures
        st.after_insert(k, v).lookup(k) == Some(v),
{
    lemma_after_insert_wf(st, k, v);
    let r = st.after_insert(k, v);
    if holds_key(st.t1, k) {
        let i = key_at(st.t1, k);
        assert forall|x: int| 0 <= x < r.t1.len() implies (#[trigger] r.t1[x]).0 != k by {
            let x2 = if x < i { x } else { x + 1 };
            assert(r.t1[x] == st.t1[x2]);
        }
        lemma_found_at(r.t2, r.t2.len() - 1);
    } else if holds_key(st.t2, k) {
        lemma_found_at(r.t2, r.t2.len() - 1);
    } else {
        lemma_found_at(r.t1, r.t1.len() - 1);
    }
}

/// A read changes no stored value: every key looks up as before.
pub proof fn lemma_get_keeps_lookup<K, V>(st: ArcState<K, V>, k: K, k2: K)
    requires
        st.wf(),
    ensures
        st.after_get(k).lookup(k2) == st.lookup(k2),
{
    lemma_after_get_wf(st, k);
    let r = st.after_get(k);
    if holds_key(st.t1, k) {
        let i = key_at(st.t1, k);
        if k2 == k {
            assert forall|x: int| 0 <= x < r.t1.len() implies (#[trigger] r.t1[x]).0 != k by {
                let x2 = if x < i { x } else { x + 1 };
                assert(r.t1[x] == st.t1[x2]);
            }
            lemma_found_at(r.t2, r.t2.len() - 1);
            lemma_found_at(st.t1, i);
        } else if holds_key(st.t1, k2) {
            let j = key_at(st.t1, k2);
            let j2 = if j < i { j } else { j - 1 };
            assert(r.t1[j2] == st.t1[j]);
            lemma_found_at(r.t1, j2);
            lemma_found_at(st.t1, j);
        } else {
            assert forall|x: int| 0 <= x < r.t1.len() implies (#[trigger] r.t1[x]).0 != k2 by {
                let x2 = if x < i { x } else { x + 1 };
                assert(r.t1[x] == st.t1[x2]);
            }
            if holds_key(st.t2, k2) {
                let j = key_at(st.t2, k2);
                assert(r.t2[j] == st.t2[j]);
                lemma_found_at(r.t2, j);
                lemma_found_at(st.t2, j);
            } else {
                assert forall|x: int| 0 <= x < r.t2.len() implies (#[trigger] r.t2[x]).0 != k2 by {
                    if x < st.t2.len() {
                        assert(r.t2[x] == st.t2[x]);
                    }
                }
            }
        }
    } else if holds_key(st.t2, k) {
        let i = key_at(st.t2, k);
        let last = r.t2.len() - 1;
        if holds_key(st.t1, k2) {
        } else if k2 == k {
            lemma_found_at(r.t2, last);
            lemma_found_at(st.t2, i);
        } else if holds_key(st.t2, k2) {
            let j = key_at(st.t2, k2);
            let j2 = if j < i { j } else { j - 1 };
            assert(r.t2[j2] == st.t2[j]);
            lemma_found_at(r.t2, j2);
            lemma_found_at(st.t2, j);
        } else {
            assert forall|x: int| 0 <= x < r.t2.len() implies (#[trigger] r.t2[x]).0 != k2 by {
                let x2 = if x == last { i } else if x < i { x } else { x + 1 };
                assert(r.t2[x] == st.t2[x2]);
            }
        }
    }
}

impl<K: PartialEq, V: Clone> ArcCache<K, V> {
    /// An empty cache of the given capacity; T1's share starts at half of it.
    pub fn new(capacity: usize) -> (r: Self)
        ensures
            r@ == ArcState::<K, V>::fresh(capacity as nat),
            r@.wf(),
    {
        ArcCache {
            capacity,
            target_t1: capacity / 2,
            t1: Vec::new(),
            t2: Vec::new(),
            b1: Vec::new(),
            b2: Vec::new(),
        }
    }

    /// The value under `key`. A hit in T1 promotes the entry to the back
    /// of T2; a hit in T2 moves it to the back of T2.
    pub fn get(&mut self, key: &K) -> (r: Option<V>)
        requires
            old(self)@.wf(),
            obeys_concrete_eq::<K>(),
        ensures
            final(self)@ == old(self)@.after_get(*key),
            final(self)@.wf(),
            match old(self)@.lookup(*key) {
                Some(v) => r matches Some(x) && cloned::<V>(v, x),
                None => r is None,
            },
    {
        proof {
            lemma_after_get_wf(self@, *key);
        }
        let ghost st = self@;
        match find_key(&self.t1, key) {
            Some(i) => {
                proof {
                    lemma_key_at_unique(st.t1, *key, i as int);
                }
                let (k, v) = self.t1.remove(i);
                let out = v.clone();
                self.t2.push((k, v));
                proof {
                    assert(self@ =~= st.after_get(*key));
                }
                return Some(out);
            },
            None => {},
        }
        match find_key(&self.t2, key) {
            Some(i) => {
                proof {
                    lemma_key_at_unique(st.t2, *key, i as int);
                }
                let e = self.t2.remove(i);
                let out = e.1.clone();
                self.t2.push(e);
                proof {
                    assert(self@ =~= st.after_get(*key));
                }
                Some(out)
            },
            None => None,
        }
    }

    /// Store `value` under `key` (see `ArcState::after_insert`).
    pub fn insert(&mut self, key: K, value: V)
        requires
            old(self)@.wf(),
            obeys_concrete_eq::<K>(),
            old(self)@.size() < usize::MAX,
        ensures
            final(self)@ == old(self)@.after_insert(key, value),
            final(self)@.wf(),
            old(self)@.capacity >= 1 ==> final(self)@.size() <= old(self)@.capacity,
    {
        proof {
            lemma_after_insert_wf(self@, key, value);
        }
        let ghost st = self@;
        match find_key(&self.t1, &key) {
            Some(i) => {
                proof {
                    lemma_key_at_unique(st.t1, key, i as int);
                }
                let _stale = self.t1.remove(i);
                self.t2.push((key, value));
                proof {
                    assert(self@ =~= st.after_insert(key, value));
                }
                return;
            },
            None => {},
        }
        match find_key(&self.t2, &key) {
            Some(i) => {
                proof {
                    lemma_key_at_unique(st.t2, key, i as int);
                }
                let _stale = self.t2.remove(i);
                self.t2.push((key, value));
                proof {
                    assert(self@ =~= st.after_insert(key, value));
                }
                return;
            },
            None => {},
        }
        if list_contains(&self.b1, &key) {
            self.target_t1 = if self.target_t1 < self.capacity {
                self.target_t1 + 1
            } else {
                self.capacity
            };
            strip(&mut self.b1, &key);
        } else if list_contains(&self.b2, &key) {
            self.target_t1 = if self.target_t1 > 0 {
                self.target_t1 - 1
            } else {
                0
            };
            strip(&mut self.b2, &key);
        }
        proof {
            assert(self@ =~= st.adapted(key));
        }
        let ghost a = self@;
        if self.t1.len() + self.t2.len() >= self.capacity {
            self.evict();
        }
        proof {
            assert(self@ =~= (if a.size() >= a.capacity { a.evicted() } else { a }));
        }
        self.t1.push((key, value));
        proof {
            assert(self@ =~= st.after_insert(key, value));
        }
    }

    /// One eviction (see `ArcState::evicted`).
    fn evict(&mut self)
        ensures
            final(self)@ == old(self)@.evicted(),
    {
        let ghost st = self@;
        if self.t1.len() > self.target_t1 || (self.t2.len() == 0 && self.t1.len() > 0) {
            let (k, _v) = self.t1.remove(0);
            self.b1.push(k);
            if self.b1.len() > self.capacity {
                let _oldest = self.b1.remove(0);
            }
            proof {
                assert(self.t1@ =~= st.t1.drop_first());
                assert(self.b1@ =~= ArcState::<K, V>::remember(st.b1, st.t1[0].0, st.capacity));
                assert(self@ =~= st.evicted());
            }
        } else if self.t2.len() > 0 {
            let (k, _v) = self.t2.remove(0);
            self.b2.push(k);
            if self.b2.len() > self.capacity {
                let _oldest = self.b2.remove(0);
            }
            proof {
                assert(self.t2@ =~= st.t2.drop_first());
                assert(self.b2@ =~= ArcState::<K, V>::remember(st.b2, st.t2[0].0, st.capacity));
                assert(self@ =~= st.evicted());
            }
        }
    }

    /// Number of stored entries.
    pub fn len(&self) -> (n: usize)
        requires
            self@.wf(),
        ensures
            n == self@.size(),
    {
        self.t1.len() + self.t2.len()
    }

    /// Whether nothing is stored.
    pub fn is_empty(&self) -> (r: bool)
        ensures
            r == (self@.size() == 0),
    {
        self.t1.len() == 0 && self.t2.len() == 0
    }
}

} // verus!
