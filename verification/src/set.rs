//! Sets of byte strings (SADD, SREM, SISMEMBER, SMEMBERS, SPOP,
//! SRANDMEMBER) with a time to live for the whole set.

use vstd::prelude::*;
use crate::clock::unix_time_secs;
use crate::partition::copy_bytes;
use crate::error::{Result, SynapError};
use crate::keyed::Keyed;
use crate::text::owned;

verus! {

/// The views of a list of byte strings.
pub open spec fn byte_views(v: Seq<Vec<u8>>) -> Seq<Seq<u8>> {
    v.map_values(|b: Vec<u8>| b@)
}

/// Whether no byte string occurs twice.
pub open spec fn distinct_bytes(v: Seq<Vec<u8>>) -> bool {
    forall|i: int, j: int| 0 <= i < v.len() && 0 <= j < v.len() && i != j ==> (#[trigger] v[i])@ != (#[trigger] v[j])@
}

/// Whether two byte strings are equal.
pub fn same_bytes(a: &[u8], b: &[u8]) -> (r: bool)
    ensures
        r == (a@ == b@),
{
    if a.len() != b.len() {
        return false;
    }
    let mut i: usize = 0;
    while i < a.len()
        invariant
            a@.len() == b@.len(),
            i <= a@.len(),
            forall|j: int| 0 <= j < i ==> a@[j] == b@[j],
        decreases a@.len() - i,
    {
        if a[i] != b[i] {
            return false;
        }
        i = i + 1;
    }
    proof {
        assert(a@ =~= b@);
    }
    true
}

/// `v` in a random order: `rand`'s `SliceRandom::shuffle` with the thread
/// generator. What is promised is only that the items stay the same, each
/// as often; the order is random.
#[verifier::external_body]
fn shuffle_all(v: &mut Vec<Vec<u8>>)
    ensures
        final(v)@.to_multiset() == old(v)@.to_multiset(),
{
    let mut rng = rand::thread_rng();
    rand::seq::SliceRandom::shuffle(v.as_mut_slice(), &mut rng);
}

/// The members of one key.
#[derive(Debug)]
pub struct SetValue {
    /// The members, no one twice.
    pub members: Vec<Vec<u8>>,
    /// Time to live of the whole set, in seconds.
    pub ttl_secs: Option<u64>,
    /// Creation time (Unix seconds).
    pub created_at: u64,
    /// Time of the last change (Unix seconds).
    pub updated_at: u64,
}

impl SetValue {
    /// The members, in storage order.
    pub open spec fn items(&self) -> Seq<Seq<u8>> {
        byte_views(self.members@)
    }

    /// The members as a set.
    pub open spec fn member_set(&self) -> Set<Seq<u8>> {
        self.items().to_set()
    }

    /// The invariant: no member twice.
    pub open spec fn wf(&self) -> bool {
        distinct_bytes(self.members@)
    }

    /// An empty set made at `now`.
    pub fn new_at(ttl_secs: Option<u64>, now: u64) -> (r: Self)
        ensures
            r.wf(),
            r.items().len() == 0,
            r.ttl_secs == ttl_secs,
            r.created_at == now && r.updated_at == now,
    {
        SetValue { members: Vec::new(), ttl_secs, created_at: now, updated_at: now }
    }

    /// An empty set made now.
    pub fn new(ttl_secs: Option<u64>) -> (r: Self)
        ensures
            r.wf(),
            r.items().len() == 0,
            r.ttl_secs == ttl_secs,
            r.created_at == r.updated_at,
    {
        let now = unix_time_secs();
        Self::new_at(ttl_secs, now)
    }

    /// Whether the set has expired at `now`: its time to live has run out.
    pub open spec fn expired_at(&self, now: u64) -> bool {
        match self.ttl_secs {
            Some(t) => now >= self.created_at + t,
            None => false,
        }
    }

    /// Whether the set has expired at `now`.
    pub fn is_expired_at(&self, now: u64) -> (r: bool)
        requires
            self.ttl_secs matches Some(t) ==> self.created_at + t <= u64::MAX,
        ensures
            r == self.expired_at(now),
    {
        match self.ttl_secs {
            Some(ttl) => now >= self.created_at + ttl,
            None => false,
        }
    }

    /// Whether the set has expired now.
    pub fn is_expired(&self) -> (r: bool)
        requires
            self.ttl_secs matches Some(t) ==> self.created_at + t <= u64::MAX,
        ensures
            self.ttl_secs is None ==> !r,
            exists|now: u64| r == #[trigger] self.expired_at(now),
    {
        let now = unix_time_secs();
        self.is_expired_at(now)
    }

    /// Number of members.
    pub fn len(&self) -> (n: usize)
        ensures
            n == self.items().len(),
    {
        self.members.len()
    }

    /// Whether there is no member.
    pub fn is_empty(&self) -> (r: bool)
        ensures
            r == (self.items().len() == 0),
    {
        self.members.len() == 0
    }

    /// The position of `member`.
    fn position(&self, member: &[u8]) -> (r: Option<usize>)
        requires
            self.wf(),
        ensures
            match r {
                Some(i) => i < self.items().len() && self.items()[i as int] == member@,
                None => !self.member_set().contains(member@),
            },
    {
        let mut i: usize = 0;
        while i < self.members.len()
            invariant
                i <= self.members@.len(),
                forall|j: int| 0 <= j < i ==> (#[trigger] self.members@[j])@ != member@,
            decreases self.members@.len() - i,
        {
            if same_bytes(self.members[i].as_slice(), member) {
                return Some(i);
            }
            i = i + 1;
        }
        proof {
            if self.member_set().contains(member@) {
                let w = choose|w: int| 0 <= w < self.items().len() && self.items()[w] == member@;
                assert(self.members@[w]@ == member@);
            }
        }
        None
    }

    /// Whether `member` is in the set.
    pub fn is_member(&self, member: &[u8]) -> (r: bool)
        requires
            self.wf(),
        ensures
            r == self.member_set().contains(member@),
    {
        self.position(member).is_some()
    }

    /// Add each of `members` at time `now`; answers how many were new.
    pub fn add_at(&mut self, members: Vec<Vec<u8>>, now: u64) -> (added: usize)
        requires
            old(self).wf(),
        ensures
            final(self).wf(),
            final(self).member_set() == old(self).member_set().union(byte_views(members@).to_set()),
            added == final(self).items().len() - old(self).items().len(),
            final(self).updated_at == now,
            final(self).ttl_secs == old(self).ttl_secs,
            final(self).created_at == old(self).created_at,
    {
        self.updated_at = now;
        let mut members = members;
        let ghost all = byte_views(members@);
        let ghost start = self.member_set();
        proof {
            assert(self.items().len() == self.members@.len());
        }
        let n0 = self.members.len();
        let mut i: usize = 0;
        let mut incoming: Vec<Vec<u8>> = Vec::new();
        std::mem::swap(&mut incoming, &mut members);
        let ghost src = incoming@;
        proof {
            assert(byte_views(src.take(0)).to_set() =~= Set::<Seq<u8>>::empty());
            assert(start.union(Set::<Seq<u8>>::empty()) =~= start);
        }
        while i < incoming.len()
            invariant
                self.wf(),
                all == byte_views(src),
                incoming@.len() == src.len(),
                forall|j: int| i <= j < src.len() ==> (#[trigger] incoming@[j])@ == src[j]@,
                i <= src.len(),
                self.member_set() == start.union(byte_views(src.take(i as int)).to_set()),
                n0 <= self.items().len(),
                n0 == old(self).items().len(),
                self.updated_at == now,
                self.ttl_secs == old(self).ttl_secs,
                self.created_at == old(self).created_at,
            decreases src.len() - i,
        {
            let mut m: Vec<u8> = Vec::new();
            incoming.set_and_swap(i, &mut m);
            let ghost before = self.member_set();
            proof {
                assert(m@ == src[i as int]@);
                let t1 = byte_views(src.take(i as int));
                let t2 = byte_views(src.take(i + 1));
                assert(t2 =~= t1.push(m@));
                assert(t2.to_set() =~= t1.to_set().insert(m@)) by {
                    assert forall|x: Seq<u8>| t2.to_set().contains(x) <==> t1.to_set().insert(m@).contains(x) by {
                        if t2.to_set().contains(x) {
                            let w = choose|w: int| 0 <= w < t2.len() && t2[w] == x;
                            if w < t1.len() {
                                assert(t1[w] == x);
                            }
                        }
                        if t1.to_set().contains(x) {
                            let w = choose|w: int| 0 <= w < t1.len() && t1[w] == x;
                            assert(t2[w] == x);
                        }
                        if x == m@ {
                            assert(t2[i as int] == x);
                        }
                    }
                }
            }
            if self.position(m.as_slice()).is_none() {
                let ghost old_members = self.members@;
                self.members.push(m);
                proof {
                    assert(self.items() =~= byte_views(old_members).push(self.members@.last()@));
                    assert forall|a: int, b: int| 0 <= a < self.members@.len() && 0 <= b < self.members@.len() && a != b
                        implies (#[trigger] self.members@[a])@ != (#[trigger] self.members@[b])@ by {
                        let n = old_members.len() as int;
                        if a < n && b < n {
                        } else if a == n {
                            assert(byte_views(old_members)[b] == old_members[b]@);
                        } else {
                            assert(byte_views(old_members)[a] == old_members[a]@);
                        }
                    }
                    assert(self.member_set() =~= before.insert(self.members@.last()@)) by {
                        let it = self.items();
                        let ot = byte_views(old_members);
                        assert forall|x: Seq<u8>| it.to_set().contains(x) <==> ot.to_set().insert(it.last()).contains(x) by {
                            if it.to_set().contains(x) {
                                let w = choose|w: int| 0 <= w < it.len() && it[w] == x;
                                if w < ot.len() {
                                    assert(ot[w] == x);
                                }
                            }
                            if ot.to_set().contains(x) {
                                let w = choose|w: int| 0 <= w < ot.len() && ot[w] == x;
                                assert(it[w] == x);
                            }
                            if x == it.last() {
                                assert(it[it.len() - 1] == x);
                            }
                        }
                    }
                }
            } else {
                proof {
                    assert(before.insert(m@) =~= before);
                }
            }
            proof {
                assert(src.take(i + 1).len() == i + 1);
            }
            i = i + 1;
        }
        proof {
            assert(src.take(src.len() as int) =~= src);
        }
        self.members.len() - n0
    }

    /// Add each of `members` now; answers how many were new.
    pub fn add(&mut self, members: Vec<Vec<u8>>) -> (added: usize)
        requires
            old(self).wf(),
        ensures
            final(self).wf(),
            final(self).member_set() == old(self).member_set().union(byte_views(members@).to_set()),
            added == final(self).items().len() - old(self).items().len(),
            final(self).ttl_secs == old(self).ttl_secs,
            final(self).created_at == old(self).created_at,
    {
        let now = unix_time_secs();
        self.add_at(members, now)
    }

    /// Remove each of `members` at time `now`; answers how many were there.
    pub fn remove_at(&mut self, members: &[Vec<u8>], now: u64) -> (removed: usize)
        requires
            old(self).wf(),
        ensures
            final(self).wf(),
            final(self).member_set() == old(self).member_set().difference(byte_views(members@).to_set()),
            removed == old(self).items().len() - final(self).items().len(),
            final(self).updated_at == now,
            final(self).ttl_secs == old(self).ttl_secs,
            final(self).created_at == old(self).created_at,
    {
        self.updated_at = now;
        let n0 = self.members.len();
        let ghost start = self.member_set();
        let mut i: usize = 0;
        proof {
            assert(byte_views(members@.take(0)).to_set() =~= Set::<Seq<u8>>::empty());
            assert(start.difference(Set::<Seq<u8>>::empty()) =~= start);
            assert(self.items().len() == self.members@.len());
        }
        while i < members.len()
            invariant
                self.wf(),
                i <= members@.len(),
                self.member_set() == start.difference(byte_views(members@.take(i as int)).to_set()),
                self.members@.len() <= n0,
                n0 == old(self).items().len(),
                self.updated_at == now,
                self.ttl_secs == old(self).ttl_secs,
                self.created_at == old(self).created_at,
            decreases members@.len() - i,
        {
            let ghost before = self.member_set();
            let ghost m = members@[i as int]@;
            proof {
                let t1 = byte_views(members@.take(i as int));
                let t2 = byte_views(members@.take(i + 1));
                assert(t2 =~= t1.push(m));
                assert(t2.to_set() =~= t1.to_set().insert(m)) by {
                    assert forall|x: Seq<u8>| t2.to_set().contains(x) <==> t1.to_set().insert(m).contains(x) by {
                        if t2.to_set().contains(x) {
                            let w = choose|w: int| 0 <= w < t2.len() && t2[w] == x;
                            if w < t1.len() {
                                assert(t1[w] == x);
                            }
                        }
                        if t1.to_set().contains(x) {
                            let w = choose|w: int| 0 <= w < t1.len() && t1[w] == x;
                            assert(t2[w] == x);
                        }
                        if x == m {
                            assert(t2[i as int] == x);
                        }
                    }
                }
            }
            match self.position(members[i].as_slice()) {
                Some(p) => {
                    let ghost old_members = self.members@;
                    let _gone = self.members.remove(p);
                    proof {
                        let ot = byte_views(old_members);
                        let it = self.items();
                        assert forall|a: int, b: int| 0 <= a < self.members@.len() && 0 <= b < self.members@.len() && a != b
                            implies (#[trigger] self.members@[a])@ != (#[trigger] self.members@[b])@ by {
                            let a2 = if a < p { a } else { a + 1 };
                            let b2 = if b < p { b } else { b + 1 };
                            assert(self.members@[a] == old_members[a2]);
                            assert(self.members@[b] == old_members[b2]);
                        }
                        assert(it.to_set() =~= ot.to_set().remove(m)) by {
                            assert forall|x: Seq<u8>| it.to_set().contains(x) <==> ot.to_set().remove(m).contains(x) by {
                                if it.to_set().contains(x) {
                                    let w = choose|w: int| 0 <= w < it.len() && it[w] == x;
                                    let w2 = if w < p { w } else { w + 1 };
                                    assert(ot[w2] == x);
                                    assert(old_members[w2]@ != old_members[p as int]@);
                                }
                                if ot.to_set().contains(x) && x != m {
                                    let w = choose|w: int| 0 <= w < ot.len() && ot[w] == x;
                                    assert(w != p);
                                    let w2 = if w < p { w } else { w - 1 };
                                    assert(it[w2] == x);
                                }
                            }
                        }
                        assert(before.difference(set![m]) =~= before.remove(m));
                    }
                },
                None => {
                    proof {
                        assert(before.remove(m) =~= before);
                    }
                },
            }
            proof {
                assert(start.difference(byte_views(members@.take(i + 1)).to_set())
                    =~= start.difference(byte_views(members@.take(i as int)).to_set()).remove(m));
            }
            i = i + 1;
        }
        proof {
            assert(members@.take(members@.len() as int) =~= members@);
        }
        n0 - self.members.len()
    }

    /// Remove each of `members` now; answers how many were there.
    pub fn remove(&mut self, members: &[Vec<u8>]) -> (removed: usize)
        requires
            old(self).wf(),
        ensures
            final(self).wf(),
            final(self).member_set() == old(self).member_set().difference(byte_views(members@).to_set()),
            removed == old(self).items().len() - final(self).items().len(),
            final(self).ttl_secs == old(self).ttl_secs,
            final(self).created_at == old(self).created_at,
    {
        let now = unix_time_secs();
        self.remove_at(members, now)
    }

    /// Copies of all members, in storage order.
    pub fn members(&self) -> (r: Vec<Vec<u8>>)
        ensures
            byte_views(r@) == self.items(),
    {
        let mut out: Vec<Vec<u8>> = Vec::new();
        let mut i: usize = 0;
        while i < self.members.len()
            invariant
                i <= self.members@.len(),
                byte_views(out@) == byte_views(self.members@.take(i as int)),
            decreases self.members@.len() - i,
        {
            let b = copy_bytes(&self.members[i]);
            let ghost old_out = out@;
            out.push(b);
            proof {
                assert(byte_views(out@) =~= byte_views(old_out).push(b@));
                assert(byte_views(self.members@.take(i + 1)) =~= byte_views(self.members@.take(i as int)).push(self.members@[i as int]@));
            }
            i = i + 1;
        }
        proof {
            assert(self.members@.take(self.members@.len() as int) =~= self.members@);
        }
        out
    }

    /// Take out up to `count` members at time `now`: the first ones in
    /// storage order.
    pub fn pop_at(&mut self, count: usize, now: u64) -> (r: Vec<Vec<u8>>)
        requires
            old(self).wf(),
        ensures
            final(self).wf(),
            byte_views(r@) == old(self).items().take(
                if count <= old(self).items().len() { count as int } else { old(self).items().len() as int }),
            final(self).items() == old(self).items().skip(
                if count <= old(self).items().len() { count as int } else { old(self).items().len() as int }),
            final(self).updated_at == now,
            final(self).ttl_secs == old(self).ttl_secs,
            final(self).created_at == old(self).created_at,
    {
        self.updated_at = now;
        let ghost orig = self.members@;
        let mut out: Vec<Vec<u8>> = Vec::new();
        let mut k: usize = 0;
        proof {
            assert(orig.skip(0) =~= orig);
        }
        while k < count && self.members.len() > 0
            invariant
                k <= count,
                k <= orig.len(),
                self.members@ == orig.skip(k as int),
                out@ == orig.take(k as int),
                distinct_bytes(orig),
                self.updated_at == now,
                self.ttl_secs == old(self).ttl_secs,
                self.created_at == old(self).created_at,
            decreases count - k,
        {
            let m = self.members.remove(0);
            out.push(m);
            proof {
                assert(self.members@ =~= orig.skip(k + 1));
                assert(out@ =~= orig.take(k + 1));
            }
            k = k + 1;
        }
        proof {
            let c: int = if count <= orig.len() { count as int } else { orig.len() as int };
            assert(k == c);
            assert(byte_views(out@) =~= byte_views(orig).take(c));
            assert(self.items() =~= byte_views(orig).skip(c));
            assert forall|a: int, b: int| 0 <= a < self.members@.len() && 0 <= b < self.members@.len() && a != b
                implies (#[trigger] self.members@[a])@ != (#[trigger] self.members@[b])@ by {
                assert(self.members@[a] == orig[a + c]);
                assert(self.members@[b] == orig[b + c]);
            }
        }
        out
    }

    /// Take out up to `count` members now (see `pop_at`).
    pub fn pop(&mut self, count: usize) -> (r: Vec<Vec<u8>>)
        requires
            old(self).wf(),
        ensures
            final(self).wf(),
            byte_views(r@) == old(self).items().take(
                if count <= old(self).items().len() { count as int } else { old(self).items().len() as int }),
            final(self).items() == old(self).items().skip(
                if count <= old(self).items().len() { count as int } else { old(self).items().len() as int }),
            final(self).ttl_secs == old(self).ttl_secs,
            final(self).created_at == old(self).created_at,
    {
        let now = unix_time_secs();
        self.pop_at(count, now)
    }

    /// Up to `count` members picked at random, none removed: all of them
    /// when `count` covers the set.
    pub fn random_members(&self, count: usize) -> (r: Vec<Vec<u8>>)
        ensures
            count >= self.items().len() ==> byte_views(r@) == self.items(),
            count < self.items().len() ==> r@.len() == count
                && forall|i: int| 0 <= i < r@.len() ==> self.member_set().contains((#[trigger] r@[i])@),
    {
        let mut all = self.members();
        if count >= all.len() {
            return all;
        }
        let ghost before = all@;
        shuffle_all(&mut all);
        let ghost shuffled = all@;
        proof {
            vstd::seq_lib::to_multiset_len(shuffled);
            vstd::seq_lib::to_multiset_len(before);
        }
        all.truncate(count);
        proof {
            assert forall|i: int| 0 <= i < all@.len() implies self.member_set().contains((#[trigger] all@[i])@) by {
                let x = shuffled[i];
                assert(shuffled.contains(x));
                assert(shuffled.to_multiset().count(x) > 0) by {
                    vstd::seq_lib::to_multiset_contains(shuffled, x);
                }
                assert(before.contains(x)) by {
                    vstd::seq_lib::to_multiset_contains(before, x);
                }
                let w = choose|w: int| 0 <= w < before.len() && before[w] == x;
                assert(byte_views(before)[w] == x@);
                assert(self.items()[w] == x@);
            }
        }
        all
    }

}

/// Counters of the set store.
#[derive(Debug, Clone)]
pub struct SetStats {
    pub total_sets: usize,
    pub total_members: usize,
    pub sadd_count: u64,
    pub srem_count: u64,
    pub sismember_count: u64,
    pub smembers_count: u64,
    pub scard_count: u64,
    pub spop_count: u64,
    pub srandmember_count: u64,
    pub smove_count: u64,
    pub sinter_count: u64,
    pub sunion_count: u64,
    pub sdiff_count: u64,
}

impl Default for SetStats {
    fn default() -> (r: Self)
        ensures
            r.total_sets == 0 && r.total_members == 0,
            r.sadd_count == 0 && r.srem_count == 0 && r.sismember_count == 0 && r.smembers_count == 0,
            r.scard_count == 0 && r.spop_count == 0 && r.srandmember_count == 0 && r.smove_count == 0,
            r.sinter_count == 0 && r.sunion_count == 0 && r.sdiff_count == 0,
    {
        SetStats {
            total_sets: 0,
            total_members: 0,
            sadd_count: 0,
            srem_count: 0,
            sismember_count: 0,
            smembers_count: 0,
            scard_count: 0,
            spop_count: 0,
            srandmember_count: 0,
            smove_count: 0,
            sinter_count: 0,
            sunion_count: 0,
            sdiff_count: 0,
        }
    }
}

// ---------------------------------------------------------------------------
// Set algebra over member lists
// ---------------------------------------------------------------------------

/// The members of a list, as a set.
pub open spec fn bytes_set(v: Seq<Vec<u8>>) -> Set<Seq<u8>> {
    byte_views(v).to_set()
}

/// A prefix one longer holds one more member.
proof fn lemma_prefix_set(v: Seq<Vec<u8>>, i: int)
    requires
        0 <= i < v.len(),
    ensures
        bytes_set(v.take(i + 1)) == bytes_set(v.take(i)).insert(v[i]@),
{
    let a = byte_views(v.take(i + 1));
    let b = byte_views(v.take(i));
    assert(a =~= b.push(v[i]@));
    assert forall|x: Seq<u8>| a.to_set().contains(x) <==> b.to_set().insert(v[i]@).contains(x) by {
        if a.to_set().contains(x) {
            let w = choose|w: int| 0 <= w < a.len() && a[w] == x;
            if w < b.len() {
                assert(b[w] == x);
            }
        }
        if b.to_set().contains(x) {
            let w = choose|w: int| 0 <= w < b.len() && b[w] == x;
            assert(a[w] == x);
        }
        if x == v[i]@ {
            assert(a[i] == x);
        }
    }
    assert(a.to_set() =~= b.to_set().insert(v[i]@));
}

/// In a list without repeats, a member is not in the prefix before it.
proof fn lemma_not_before(v: Seq<Vec<u8>>, i: int)
    requires
        distinct_bytes(v),
        0 <= i < v.len(),
    ensures
        !bytes_set(v.take(i)).contains(v[i]@),
{
    if bytes_set(v.take(i)).contains(v[i]@) {
        let b = byte_views(v.take(i));
        let w = choose|w: int| 0 <= w < b.len() && b[w] == v[i]@;
        assert(v[w]@ == v[i]@);
    }
}

/// Pushing a member not yet there keeps a list without repeats.
proof fn lemma_push_distinct(v: Seq<Vec<u8>>, x: Vec<u8>)
    requires
        distinct_bytes(v),
        !bytes_set(v).contains(x@),
    ensures
        distinct_bytes(v.push(x)),
        bytes_set(v.push(x)) == bytes_set(v).insert(x@),
{
    let n = v.len() as int;
    assert forall|a: int, b: int| 0 <= a < v.push(x).len() && 0 <= b < v.push(x).len() && a != b
        implies (#[trigger] v.push(x)[a])@ != (#[trigger] v.push(x)[b])@ by {
        if a == n {
            assert(byte_views(v)[b] == v[b]@);
        } else if b == n {
            assert(byte_views(v)[a] == v[a]@);
        }
    }
    assert(v.push(x).take(n) =~= v);
    assert(v.push(x).take(n + 1) =~= v.push(x));
    lemma_prefix_set(v.push(x), n);
}

/// A list with the same views as a list without repeats has none either.
proof fn lemma_copies_distinct(r: Seq<Vec<u8>>, v: Seq<Vec<u8>>)
    requires
        byte_views(r) == byte_views(v),
        distinct_bytes(v),
    ensures
        distinct_bytes(r),
{
    assert forall|a: int, b: int| 0 <= a < r.len() && 0 <= b < r.len() && a != b
        implies (#[trigger] r[a])@ != (#[trigger] r[b])@ by {
        assert(byte_views(r).len() == r.len());
        assert(byte_views(r)[a] == r[a]@);
        assert(byte_views(r)[b] == r[b]@);
        assert(byte_views(v)[a] == v[a]@);
        assert(byte_views(v)[b] == v[b]@);
    }
}

/// A list of one byte string holds just that one.
proof fn lemma_single(v: Seq<Vec<u8>>, x: Seq<u8>)
    requires
        v.len() == 1,
        v[0]@ == x,
    ensures
        bytes_set(v) == set![x],
{
    let b = byte_views(v);
    assert(b[0] == x);
    assert forall|y: Seq<u8>| b.to_set().contains(y) <==> set![x].contains(y) by {
        if b.to_set().contains(y) {
            let w = choose|w: int| 0 <= w < b.len() && b[w] == y;
            assert(w == 0);
        }
        if y == x {
            assert(b.contains(y));
        }
    }
    assert(b.to_set() =~= set![x]);
}

/// Whether `m` is in the list `v`.
fn list_has(v: &Vec<Vec<u8>>, m: &[u8]) -> (r: bool)
    ensures
        r == bytes_set(v@).contains(m@),
{
    let mut i: usize = 0;
    while i < v.len()
        invariant
            i <= v@.len(),
            forall|j: int| 0 <= j < i ==> (#[trigger] v@[j])@ != m@,
        decreases v@.len() - i,
    {
        if same_bytes(v[i].as_slice(), m) {
            proof {
                assert(byte_views(v@)[i as int] == m@);
            }
            return true;
        }
        i = i + 1;
    }
    proof {
        if bytes_set(v@).contains(m@) {
            let w = choose|w: int| 0 <= w < byte_views(v@).len() && byte_views(v@)[w] == m@;
            assert(v@[w]@ == m@);
        }
    }
    false
}

/// The members of `v` that `keep` says to keep, as copies.
fn filter_members(v: &Vec<Vec<u8>>, other: &Vec<Vec<u8>>, keep_common: bool) -> (r: Vec<Vec<u8>>)
    requires
        distinct_bytes(v@),
    ensures
        distinct_bytes(r@),
        keep_common ==> bytes_set(r@) == bytes_set(v@).intersect(bytes_set(other@)),
        !keep_common ==> bytes_set(r@) == bytes_set(v@).difference(bytes_set(other@)),
{
    let mut out: Vec<Vec<u8>> = Vec::new();
    let mut i: usize = 0;
    proof {
        assert(bytes_set(out@) =~= Set::<Seq<u8>>::empty());
        assert(bytes_set(v@.take(0)) =~= Set::<Seq<u8>>::empty());
    }
    while i < v.len()
        invariant
            distinct_bytes(v@),
            i <= v@.len(),
            distinct_bytes(out@),
            bytes_set(out@).subset_of(bytes_set(v@.take(i as int))),
            keep_common ==> bytes_set(out@) == bytes_set(v@.take(i as int)).intersect(bytes_set(other@)),
            !keep_common ==> bytes_set(out@) == bytes_set(v@.take(i as int)).difference(bytes_set(other@)),
        decreases v@.len() - i,
    {
        proof {
            lemma_prefix_set(v@, i as int);
            lemma_not_before(v@, i as int);
        }
        let has = list_has(other, v[i].as_slice());
        if has == keep_common {
            let c = copy_bytes(&v[i]);
            proof {
                lemma_push_distinct(out@, c);
            }
            out.push(c);
        }
        proof {
            let s0 = bytes_set(v@.take(i as int));
            let s1 = bytes_set(v@.take(i + 1));
            if keep_common {
                assert(bytes_set(out@) =~= s1.intersect(bytes_set(other@)));
            } else {
                assert(bytes_set(out@) =~= s1.difference(bytes_set(other@)));
            }
        }
        i = i + 1;
    }
    proof {
        assert(v@.take(v@.len() as int) =~= v@);
    }
    out
}

/// Add copies of the members of `other` that `v` lacks.
fn add_members(v: &mut Vec<Vec<u8>>, other: &Vec<Vec<u8>>)
    requires
        distinct_bytes(old(v)@),
    ensures
        distinct_bytes(final(v)@),
        bytes_set(final(v)@) == bytes_set(old(v)@).union(bytes_set(other@)),
{
    let ghost start = bytes_set(v@);
    let mut i: usize = 0;
    proof {
        assert(bytes_set(other@.take(0)) =~= Set::<Seq<u8>>::empty());
        assert(start.union(Set::<Seq<u8>>::empty()) =~= start);
    }
    while i < other.len()
        invariant
            i <= other@.len(),
            distinct_bytes(v@),
            bytes_set(v@) == start.union(bytes_set(other@.take(i as int))),
        decreases other@.len() - i,
    {
        proof {
            lemma_prefix_set(other@, i as int);
        }
        if !list_has(v, other[i].as_slice()) {
            let c = copy_bytes(&other[i]);
            proof {
                lemma_push_distinct(v@, c);
            }
            v.push(c);
        }
        proof {
            assert(bytes_set(v@) =~= start.union(bytes_set(other@.take(i + 1))));
        }
        i = i + 1;
    }
    proof {
        assert(other@.take(other@.len() as int) =~= other@);
    }
}

// ---------------------------------------------------------------------------
// The store of sets
// ---------------------------------------------------------------------------

/// The members of key `k` in `m`; none when the key is absent.
pub open spec fn members_of(m: Map<Seq<char>, SetValue>, k: Seq<char>) -> Set<Seq<u8>> {
    if m.contains_key(k) { m[k].member_set() } else { Set::empty() }
}

/// Whether every key of `keys` names a set in `m`.
pub open spec fn all_present(m: Map<Seq<char>, SetValue>, keys: Seq<String>) -> bool {
    forall|i: int| 0 <= i < keys.len() ==> m.contains_key((#[trigger] keys[i])@)
}

/// Whether every key of `keys` after the first names a set in `m`.
pub open spec fn later_present(m: Map<Seq<char>, SetValue>, keys: Seq<String>) -> bool {
    forall|i: int| 1 <= i < keys.len() ==> m.contains_key((#[trigger] keys[i])@)
}

/// The members common to the sets of `keys` (all of which exist).
pub open spec fn common_members(m: Map<Seq<char>, SetValue>, keys: Seq<String>) -> Set<Seq<u8>>
    decreases keys.len(),
{
    if keys.len() <= 1 {
        if keys.len() == 1 { members_of(m, keys[0]@) } else { Set::empty() }
    } else {
        common_members(m, keys.drop_last()).intersect(members_of(m, keys.last()@))
    }
}

/// The members of any of the sets of `keys`.
pub open spec fn any_members(m: Map<Seq<char>, SetValue>, keys: Seq<String>) -> Set<Seq<u8>>
    decreases keys.len(),
{
    if keys.len() == 0 {
        Set::empty()
    } else {
        any_members(m, keys.drop_last()).union(members_of(m, keys.last()@))
    }
}

/// The members of the first set of `keys` in none of the others.
pub open spec fn first_only_members(m: Map<Seq<char>, SetValue>, keys: Seq<String>) -> Set<Seq<u8>>
    decreases keys.len(),
{
    if keys.len() <= 1 {
        if keys.len() == 1 { members_of(m, keys[0]@) } else { Set::empty() }
    } else {
        first_only_members(m, keys.drop_last()).difference(members_of(m, keys.last()@))
    }
}

/// The sizes of the sets of `s`, added up and held at the maximum.
pub open spec fn total_members(s: Seq<(String, SetValue)>) -> usize
    decreases s.len(),
{
    if s.len() == 0 {
        0
    } else {
        let before = total_members(s.drop_last());
        let n = s.last().1.items().len();
        if before + n > usize::MAX { usize::MAX } else { (before + n) as usize }
    }
}

/// Sets of byte strings by key.
pub struct SetStore {
    sets: Keyed<SetValue>,
    stats: SetStats,
}

impl SetStore {
    /// The sets by key.
    pub closed spec fn sets(&self) -> Map<Seq<char>, SetValue> {
        self.sets@
    }

    /// The counters.
    pub closed spec fn counters(&self) -> SetStats {
        self.stats
    }

    /// The invariant: every set well formed and without a time to live (the
    /// store gives none, so none expires).
    pub closed spec fn wf(&self) -> bool {
        &&& self.sets.wf()
        &&& forall|k: Seq<char>| #[trigger] self.sets@.contains_key(k) ==> self.sets@[k].wf() && self.sets@[k].ttl_secs is None
    }

    /// No sets.
    pub fn new() -> (r: Self)
        ensures
            r.wf(),
            r.sets() == Map::<Seq<char>, SetValue>::empty(),
    {
        SetStore { sets: Keyed::new(), stats: SetStats::default() }
    }

    /// Take the set under `key` out of the store.
    fn take(&mut self, key: &str) -> (r: Option<SetValue>)
        requires
            old(self).wf(),
        ensures
            final(self).wf(),
            final(self).sets() == old(self).sets().remove(key@),
            final(self).counters() == old(self).counters(),
            match r {
                Some(v) => old(self).sets().contains_key(key@) && v == old(self).sets()[key@] && v.wf() && v.ttl_secs is None,
                None => !old(self).sets().contains_key(key@),
            },
    {
        let r = self.sets.remove(key);
        proof {
            assert forall|k: Seq<char>| #[trigger] self.sets@.contains_key(k) implies self.sets@[k].wf() && self.sets@[k].ttl_secs is None by {
                assert(old(self).sets@.contains_key(k));
            }
        }
        r
    }

    /// Put `v` under `key`.
    fn put(&mut self, key: &str, v: SetValue)
        requires
            old(self).wf(),
            v.wf(),
            v.ttl_secs is None,
        ensures
            final(self).wf(),
            final(self).sets() == old(self).sets().insert(key@, v),
            final(self).counters() == old(self).counters(),
    {
        self.sets.insert(owned(key), v);
        proof {
            assert forall|k: Seq<char>| #[trigger] self.sets@.contains_key(k) implies self.sets@[k].wf() && self.sets@[k].ttl_secs is None by {
                if k != key@ {
                    assert(old(self).sets@.contains_key(k));
                }
            }
        }
    }

    /// SADD at time `now`: add `members` to the set `key` (made when
    /// missing); answers how many were new.
    pub fn sadd_at(&mut self, key: &str, members: Vec<Vec<u8>>, now: u64) -> (r: Result<usize>)
        requires
            old(self).wf(),
        ensures
            final(self).wf(),
            final(self).sets().dom() == old(self).sets().dom().insert(key@),
            members_of(final(self).sets(), key@) == members_of(old(self).sets(), key@).union(byte_views(members@).to_set()),
            forall|k: Seq<char>| k != key@ ==> #[trigger] members_of(final(self).sets(), k) == members_of(old(self).sets(), k),
            r matches Ok(n) && n == final(self).sets()[key@].items().len()
                - (if old(self).sets().contains_key(key@) { old(self).sets()[key@].items().len() } else { 0 }),
            final(self).counters() == (SetStats { sadd_count: old(self).counters().sadd_count.wrapping_add(1), ..old(self).counters() }),
    {
        let mut v = match self.take(key) {
            Some(v) => v,
            None => SetValue::new_at(None, now),
        };
        proof {
            assert(v.items().len() == 0 ==> v.member_set() =~= Set::<Seq<u8>>::empty());
        }
        let added = v.add_at(members, now);
        self.put(key, v);
        self.stats.sadd_count = self.stats.sadd_count.wrapping_add(1);
        Ok(added)
    }

    /// SADD now.
    pub fn sadd(&mut self, key: &str, members: Vec<Vec<u8>>) -> (r: Result<usize>)
        requires
            old(self).wf(),
        ensures
            final(self).wf(),
            final(self).sets().dom() == old(self).sets().dom().insert(key@),
            members_of(final(self).sets(), key@) == members_of(old(self).sets(), key@).union(byte_views(members@).to_set()),
            forall|k: Seq<char>| k != key@ ==> #[trigger] members_of(final(self).sets(), k) == members_of(old(self).sets(), k),
            r matches Ok(n) && n == final(self).sets()[key@].items().len()
                - (if old(self).sets().contains_key(key@) { old(self).sets()[key@].items().len() } else { 0 }),
            final(self).counters() == (SetStats { sadd_count: old(self).counters().sadd_count.wrapping_add(1), ..old(self).counters() }),
    {
        let now = unix_time_secs();
        self.sadd_at(key, members, now)
    }

    /// SREM at time `now`: remove `members` from the set `key`, dropping the
    /// key when the set becomes empty; answers how many were there.
    pub fn srem_at(&mut self, key: &str, members: Vec<Vec<u8>>, now: u64) -> (r: Result<usize>)
        requires
            old(self).wf(),
        ensures
            final(self).wf(),
            !old(self).sets().contains_key(key@) ==> (r matches Err(SynapError::NotFound)) && final(self).sets() == old(self).sets(),
            old(self).sets().contains_key(key@) ==> {
                let after = old(self).sets()[key@].member_set().difference(byte_views(members@).to_set());
                &&& r matches Ok(n) && n == old(self).sets()[key@].items().len() - members_of(final(self).sets(), key@).len()
                &&& members_of(final(self).sets(), key@) == after
                &&& final(self).sets().contains_key(key@) <==> !after.is_empty()
                &&& forall|k: Seq<char>| k != key@ ==> #[trigger] final(self).sets().contains_key(k) == old(self).sets().contains_key(k)
                    && members_of(final(self).sets(), k) == members_of(old(self).sets(), k)
            },
    {
        let mut v = match self.take(key) {
            Some(v) => v,
            None => {
                return Err(SynapError::NotFound);
            },
        };
        if v.is_expired_at(now) {
            return Err(SynapError::KeyExpired);
        }
        let removed = v.remove_at(members.as_slice(), now);
        self.stats.srem_count = self.stats.srem_count.wrapping_add(1);
        if !v.is_empty() {
            self.put(key, v);
        }
        proof {
            lemma_set_len(v);
        }
        Ok(removed)
    }

    /// SISMEMBER: whether `member` is in the set `key`.
    pub fn sismember(&mut self, key: &str, member: Vec<u8>) -> (r: Result<bool>)
        requires
            old(self).wf(),
        ensures
            final(self).wf(),
            final(self).sets() == old(self).sets(),
            !old(self).sets().contains_key(key@) ==> (r matches Err(SynapError::NotFound)),
            old(self).sets().contains_key(key@) ==> (r matches Ok(b) && b == old(self).sets()[key@].member_set().contains(member@)),
            final(self).counters() == (if old(self).sets().contains_key(key@) {
                SetStats { sismember_count: old(self).counters().sismember_count.wrapping_add(1), ..old(self).counters() }
            } else {
                old(self).counters()
            }),
    {
        match self.sets.get(key) {
            Some(v) => {
                if v.is_expired() {
                    return Err(SynapError::KeyExpired);
                }
                let b = v.is_member(member.as_slice());
                self.stats.sismember_count = self.stats.sismember_count.wrapping_add(1);
                Ok(b)
            },
            None => Err(SynapError::NotFound),
        }
    }

    /// SMEMBERS: copies of the members of the set `key`.
    pub fn smembers(&mut self, key: &str) -> (r: Result<Vec<Vec<u8>>>)
        requires
            old(self).wf(),
        ensures
            final(self).wf(),
            final(self).sets() == old(self).sets(),
            !old(self).sets().contains_key(key@) ==> (r matches Err(SynapError::NotFound)),
            old(self).sets().contains_key(key@) ==> (r matches Ok(v) && byte_views(v@) == old(self).sets()[key@].items()),
            final(self).counters() == (if old(self).sets().contains_key(key@) {
                SetStats { smembers_count: old(self).counters().smembers_count.wrapping_add(1), ..old(self).counters() }
            } else {
                old(self).counters()
            }),
    {
        match self.sets.get(key) {
            Some(v) => {
                if v.is_expired() {
                    return Err(SynapError::KeyExpired);
                }
                let m = v.members();
                self.stats.smembers_count = self.stats.smembers_count.wrapping_add(1);
                Ok(m)
            },
            None => Err(SynapError::NotFound),
        }
    }

    /// SCARD: the number of members of the set `key`.
    pub fn scard(&mut self, key: &str) -> (r: Result<usize>)
        requires
            old(self).wf(),
        ensures
            final(self).wf(),
            final(self).sets() == old(self).sets(),
            !old(self).sets().contains_key(key@) ==> (r matches Err(SynapError::NotFound)),
            old(self).sets().contains_key(key@) ==> (r matches Ok(n) && n == old(self).sets()[key@].member_set().len()),
            final(self).counters() == (if old(self).sets().contains_key(key@) {
                SetStats { scard_count: old(self).counters().scard_count.wrapping_add(1), ..old(self).counters() }
            } else {
                old(self).counters()
            }),
    {
        match self.sets.get(key) {
            Some(v) => {
                if v.is_expired() {
                    return Err(SynapError::KeyExpired);
                }
                proof {
                    lemma_set_len(*v);
                }
                let n = v.len();
                self.stats.scard_count = self.stats.scard_count.wrapping_add(1);
                Ok(n)
            },
            None => Err(SynapError::NotFound),
        }
    }

    /// SPOP at time `now`: take out `count` (default 1) members of the set
    /// `key`, the first in storage order; an emptied set is dropped.
    pub fn spop_at(&mut self, key: &str, count: Option<usize>, now: u64) -> (r: Result<Vec<Vec<u8>>>)
        requires
            old(self).wf(),
        ensures
            final(self).wf(),
            !old(self).sets().contains_key(key@) ==> (r matches Err(SynapError::NotFound)) && final(self).sets() == old(self).sets(),
            old(self).sets().contains_key(key@) ==> {
                let items = old(self).sets()[key@].items();
                let c = match count { Some(c) => c, None => 1 };
                let k: int = if c <= items.len() { c as int } else { items.len() as int };
                &&& r matches Ok(v) && byte_views(v@) == items.take(k)
                &&& k < items.len() ==> final(self).sets().contains_key(key@) && final(self).sets()[key@].items() == items.skip(k)
                &&& k == items.len() ==> !final(self).sets().contains_key(key@)
                &&& forall|j: Seq<char>| j != key@ ==> #[trigger] final(self).sets().contains_key(j) == old(self).sets().contains_key(j)
                    && (final(self).sets().contains_key(j) ==> final(self).sets()[j] == old(self).sets()[j])
            },
    {
        let mut v = match self.take(key) {
            Some(v) => v,
            None => {
                return Err(SynapError::NotFound);
            },
        };
        if v.is_expired_at(now) {
            return Err(SynapError::KeyExpired);
        }
        let c = match count {
            Some(c) => c,
            None => 1,
        };
        let out = v.pop_at(c, now);
        self.stats.spop_count = self.stats.spop_count.wrapping_add(1);
        if !v.is_empty() {
            self.put(key, v);
        }
        Ok(out)
    }

    /// SPOP now.
    pub fn spop(&mut self, key: &str, count: Option<usize>) -> (r: Result<Vec<Vec<u8>>>)
        requires
            old(self).wf(),
        ensures
            final(self).wf(),
            !old(self).sets().contains_key(key@) ==> (r matches Err(SynapError::NotFound)) && final(self).sets() == old(self).sets(),
            old(self).sets().contains_key(key@) ==> {
                let items = old(self).sets()[key@].items();
                let c = match count { Some(c) => c, None => 1 };
                let k: int = if c <= items.len() { c as int } else { items.len() as int };
                &&& r matches Ok(v) && byte_views(v@) == items.take(k)
                &&& k < items.len() ==> final(self).sets().contains_key(key@) && final(self).sets()[key@].items() == items.skip(k)
                &&& k == items.len() ==> !final(self).sets().contains_key(key@)
                &&& forall|j: Seq<char>| j != key@ ==> #[trigger] final(self).sets().contains_key(j) == old(self).sets().contains_key(j)
                    && (final(self).sets().contains_key(j) ==> final(self).sets()[j] == old(self).sets()[j])
            },
    {
        let now = unix_time_secs();
        self.spop_at(key, count, now)
    }

    /// SRANDMEMBER: `count` (default 1) members of the set `key` picked at
    /// random (see `SetValue::random_members`).
    pub fn srandmember(&mut self, key: &str, count: Option<usize>) -> (r: Result<Vec<Vec<u8>>>)
        requires
            old(self).wf(),
        ensures
            final(self).wf(),
            final(self).sets() == old(self).sets(),
            !old(self).sets().contains_key(key@) ==> (r matches Err(SynapError::NotFound)),
            old(self).sets().contains_key(key@) ==> {
                let v = old(self).sets()[key@];
                let c = match count { Some(c) => c, None => 1 };
                &&& c >= v.items().len() ==> (r matches Ok(x) && byte_views(x@) == v.items())
                &&& c < v.items().len() ==> (r matches Ok(x) && x@.len() == c
                    && forall|i: int| 0 <= i < x@.len() ==> v.member_set().contains((#[trigger] x@[i])@))
            },
            final(self).counters() == (if old(self).sets().contains_key(key@) {
                SetStats { srandmember_count: old(self).counters().srandmember_count.wrapping_add(1), ..old(self).counters() }
            } else {
                old(self).counters()
            }),
    {
        match self.sets.get(key) {
            Some(v) => {
                if v.is_expired() {
                    return Err(SynapError::KeyExpired);
                }
                let c = match count {
                    Some(c) => c,
                    None => 1,
                };
                let out = v.random_members(c);
                self.stats.srandmember_count = self.stats.srandmember_count.wrapping_add(1);
                Ok(out)
            },
            None => Err(SynapError::NotFound),
        }
    }

    /// SMOVE at time `now`: move `member` from the set `source` to the set
    /// `destination` (made when missing); an emptied source is dropped.
    /// Answers whether the member was in the source.
    pub fn smove_at(&mut self, source: &str, destination: &str, member: Vec<u8>, now: u64) -> (r: Result<bool>)
        requires
            old(self).wf(),
        ensures
            final(self).wf(),
            !old(self).sets().contains_key(source@) ==> (r matches Err(SynapError::NotFound)) && final(self).sets() == old(self).sets(),
            old(self).sets().contains_key(source@) && !old(self).sets()[source@].member_set().contains(member@)
                ==> (r matches Ok(false)) && final(self).sets() == old(self).sets(),
            old(self).sets().contains_key(source@) && old(self).sets()[source@].member_set().contains(member@) ==> {
                let left = old(self).sets()[source@].member_set().remove(member@);
                &&& r matches Ok(true)
                &&& final(self).sets().contains_key(destination@)
                &&& members_of(final(self).sets(), destination@) == (if source@ == destination@ {
                        left
                    } else {
                        members_of(old(self).sets(), destination@)
                    }).insert(member@)
                &&& source@ != destination@ ==> members_of(final(self).sets(), source@) == left
                    && (final(self).sets().contains_key(source@) <==> !left.is_empty())
                &&& forall|k: Seq<char>| k != source@ && k != destination@ ==>
                    #[trigger] final(self).sets().contains_key(k) == old(self).sets().contains_key(k)
                    && (final(self).sets().contains_key(k) ==> final(self).sets()[k] == old(self).sets()[k])
            },
    {
        let ghost st = self.sets();
        let mut v = match self.take(source) {
            Some(v) => v,
            None => {
                return Err(SynapError::NotFound);
            },
        };
        if v.is_expired_at(now) {
            return Err(SynapError::KeyExpired);
        }
        if !v.is_member(member.as_slice()) {
            self.put(source, v);
            proof {
                assert(self.sets() =~= st);
            }
            return Ok(false);
        }
        let ghost before_v = v.member_set();
        let mut one: Vec<Vec<u8>> = Vec::new();
        one.push(copy_bytes(&member));
        proof {
            lemma_single(one@, member@);
        }
        let _n = v.remove_at(one.as_slice(), now);
        proof {
            assert(v.member_set() =~= before_v.remove(member@));
            lemma_set_len(v);
        }
        if !v.is_empty() {
            self.put(source, v);
        }
        let mut d = match self.take(destination) {
            Some(d) => d,
            None => SetValue::new_at(None, now),
        };
        proof {
            assert(d.items().len() == 0 ==> d.member_set() =~= Set::<Seq<u8>>::empty());
        }
        let ghost mv = member@;
        let mut incoming: Vec<Vec<u8>> = Vec::new();
        incoming.push(member);
        proof {
            lemma_single(incoming@, mv);
        }
        let _a = d.add_at(incoming, now);
        self.put(destination, d);
        self.stats.smove_count = self.stats.smove_count.wrapping_add(1);
        Ok(true)
    }

    /// SMOVE now.
    pub fn smove(&mut self, source: &str, destination: &str, member: Vec<u8>) -> (r: Result<bool>)
        requires
            old(self).wf(),
        ensures
            final(self).wf(),
            !old(self).sets().contains_key(source@) ==> (r matches Err(SynapError::NotFound)) && final(self).sets() == old(self).sets(),
            old(self).sets().contains_key(source@) && !old(self).sets()[source@].member_set().contains(member@)
                ==> (r matches Ok(false)) && final(self).sets() == old(self).sets(),
            old(self).sets().contains_key(source@) && old(self).sets()[source@].member_set().contains(member@) ==> {
                let left = old(self).sets()[source@].member_set().remove(member@);
                &&& r matches Ok(true)
                &&& final(self).sets().contains_key(destination@)
                &&& members_of(final(self).sets(), destination@) == (if source@ == destination@ {
                        left
                    } else {
                        members_of(old(self).sets(), destination@)
                    }).insert(member@)
                &&& source@ != destination@ ==> members_of(final(self).sets(), source@) == left
                    && (final(self).sets().contains_key(source@) <==> !left.is_empty())
                &&& forall|k: Seq<char>| k != source@ && k != destination@ ==>
                    #[trigger] final(self).sets().contains_key(k) == old(self).sets().contains_key(k)
                    && (final(self).sets().contains_key(k) ==> final(self).sets()[k] == old(self).sets()[k])
            },
    {
        let now = unix_time_secs();
        self.smove_at(source, destination, member, now)
    }

    /// SINTER: the members common to the sets of `keys`; none when `keys` is
    /// empty or names a missing set.
    pub fn sinter(&mut self, keys: &[String]) -> (r: Result<Vec<Vec<u8>>>)
        requires
            old(self).wf(),
        ensures
            final(self).wf(),
            final(self).sets() == old(self).sets(),
            r matches Ok(v) && distinct_bytes(v@) && bytes_set(v@) == (
                if keys@.len() > 0 && all_present(old(self).sets(), keys@) {
                    common_members(old(self).sets(), keys@)
                } else {
                    Set::empty()
                }),
            final(self).counters() == (if keys@.len() > 0 && later_present(old(self).sets(), keys@) {
                SetStats { sinter_count: old(self).counters().sinter_count.wrapping_add(1), ..old(self).counters() }
            } else {
                old(self).counters()
            }),
    {
        if keys.len() == 0 {
            return Ok(Vec::new());
        }
        let mut result: Vec<Vec<u8>> = match self.sets.get(keys[0].as_str()) {
            Some(v) => v.members(),
            None => Vec::new(),
        };
        let ghost m = self.sets();
        let ghost first_present = m.contains_key(keys@[0]@);
        proof {
            assert(keys@.take(1) =~= seq![keys@[0]]);
            if first_present {
                let v = m[keys@[0]@];
                assert(self.sets@.contains_key(keys@[0]@));
                assert(bytes_set(result@) =~= v.member_set());
                lemma_copies_distinct(result@, v.members@);
            } else {
                assert(bytes_set(result@) =~= Set::<Seq<u8>>::empty());
            }
        }
        let mut i: usize = 1;
        while i < keys.len()
            invariant
                self.wf(),
                m == self.sets(),
                1 <= i <= keys@.len(),
                distinct_bytes(result@),
                first_present == m.contains_key(keys@[0]@),
                all_present(m, keys@.take(i as int)) ==> bytes_set(result@) == common_members(m, keys@.take(i as int)),
                !first_present ==> bytes_set(result@) == Set::<Seq<u8>>::empty(),
                first_present ==> all_present(m, keys@.take(i as int)),
                later_present(m, keys@.take(i as int)),
                self.counters() == old(self).counters(),
            decreases keys@.len() - i,
        {
            proof {
                assert(keys@.take(i + 1).drop_last() =~= keys@.take(i as int));
                assert(keys@.take(i + 1).last() == keys@[i as int]);
            }
            match self.sets.get(keys[i].as_str()) {
                Some(v) => {
                    let next = filter_members(&result, &v.members, true);
                    proof {
                        assert(bytes_set(v.members@) == v.member_set());
                        if first_present {
                            assert forall|j: int| 0 <= j < i + 1 implies m.contains_key((#[trigger] keys@.take(i + 1)[j])@) by {
                                if j < i {
                                    assert(keys@.take(i + 1)[j] == keys@.take(i as int)[j]);
                                }
                            }
                        } else {
                            assert(bytes_set(next@) =~= Set::<Seq<u8>>::empty());
                        }
                        assert forall|j: int| 1 <= j < i + 1 implies m.contains_key((#[trigger] keys@.take(i + 1)[j])@) by {
                            if j < i {
                                assert(keys@.take(i + 1)[j] == keys@.take(i as int)[j]);
                            }
                        }
                    }
                    result = next;
                },
                None => {
                    proof {
                        assert(!all_present(m, keys@)) by {
                            assert(!m.contains_key(keys@[i as int]@));
                        }
                        assert(!later_present(m, keys@)) by {
                            assert(!m.contains_key(keys@[i as int]@));
                        }
                    }
                    return Ok(Vec::new());
                },
            }
            i = i + 1;
        }
        self.stats.sinter_count = self.stats.sinter_count.wrapping_add(1);
        proof {
            assert(keys@.take(keys@.len() as int) =~= keys@);
            if !first_present {
                assert(!all_present(m, keys@)) by {
                    assert(!m.contains_key(keys@[0]@));
                }
            }
        }
        Ok(result)
    }

    /// SUNION: the members of any of the sets of `keys` (missing ones count
    /// as empty).
    pub fn sunion(&mut self, keys: &[String]) -> (r: Result<Vec<Vec<u8>>>)
        requires
            old(self).wf(),
        ensures
            final(self).wf(),
            final(self).sets() == old(self).sets(),
            r matches Ok(v) && distinct_bytes(v@) && bytes_set(v@) == any_members(old(self).sets(), keys@),
            final(self).counters() == (if keys@.len() == 0 {
                old(self).counters()
            } else {
                SetStats { sunion_count: old(self).counters().sunion_count.wrapping_add(1), ..old(self).counters() }
            }),
    {
        let mut result: Vec<Vec<u8>> = Vec::new();
        proof {
            assert(bytes_set(result@) =~= Set::<Seq<u8>>::empty());
            assert(keys@.take(0) =~= Seq::<String>::empty());
        }
        if keys.len() == 0 {
            return Ok(result);
        }
        let ghost m = self.sets();
        let mut i: usize = 0;
        while i < keys.len()
            invariant
                self.wf(),
                m == self.sets(),
                self.counters() == old(self).counters(),
                i <= keys@.len(),
                distinct_bytes(result@),
                bytes_set(result@) == any_members(m, keys@.take(i as int)),
            decreases keys@.len() - i,
        {
            proof {
                assert(keys@.take(i + 1).drop_last() =~= keys@.take(i as int));
                assert(keys@.take(i + 1).last() == keys@[i as int]);
            }
            match self.sets.get(keys[i].as_str()) {
                Some(v) => {
                    add_members(&mut result, &v.members);
                },
                None => {
                    proof {
                        assert(bytes_set(result@).union(Set::<Seq<u8>>::empty()) =~= bytes_set(result@));
                    }
                },
            }
            i = i + 1;
        }
        proof {
            assert(keys@.take(keys@.len() as int) =~= keys@);
        }
        self.stats.sunion_count = self.stats.sunion_count.wrapping_add(1);
        Ok(result)
    }

    /// SDIFF: the members of the first set of `keys` in none of the others
    /// (missing ones count as empty).
    pub fn sdiff(&mut self, keys: &[String]) -> (r: Result<Vec<Vec<u8>>>)
        requires
            old(self).wf(),
        ensures
            final(self).wf(),
            final(self).sets() == old(self).sets(),
            r matches Ok(v) && distinct_bytes(v@) && bytes_set(v@) == first_only_members(old(self).sets(), keys@),
            final(self).counters() == (if keys@.len() == 0 {
                old(self).counters()
            } else {
                SetStats { sdiff_count: old(self).counters().sdiff_count.wrapping_add(1), ..old(self).counters() }
            }),
    {
        if keys.len() == 0 {
            let empty: Vec<Vec<u8>> = Vec::new();
            proof {
                assert(bytes_set(empty@) =~= Set::<Seq<u8>>::empty());
            }
            return Ok(empty);
        }
        let ghost m = self.sets();
        let mut result: Vec<Vec<u8>> = match self.sets.get(keys[0].as_str()) {
            Some(v) => v.members(),
            None => Vec::new(),
        };
        proof {
            assert(keys@.take(1) =~= seq![keys@[0]]);
            if m.contains_key(keys@[0]@) {
                let v = m[keys@[0]@];
                assert(self.sets@.contains_key(keys@[0]@));
                assert(bytes_set(result@) =~= v.member_set());
                lemma_copies_distinct(result@, v.members@);
            } else {
                assert(bytes_set(result@) =~= Set::<Seq<u8>>::empty());
            }
        }
        let mut i: usize = 1;
        while i < keys.len()
            invariant
                self.wf(),
                m == self.sets(),
                self.counters() == old(self).counters(),
                1 <= i <= keys@.len(),
                distinct_bytes(result@),
                bytes_set(result@) == first_only_members(m, keys@.take(i as int)),
            decreases keys@.len() - i,
        {
            proof {
                assert(keys@.take(i + 1).drop_last() =~= keys@.take(i as int));
                assert(keys@.take(i + 1).last() == keys@[i as int]);
            }
            match self.sets.get(keys[i].as_str()) {
                Some(v) => {
                    let next = filter_members(&result, &v.members, false);
                    result = next;
                },
                None => {
                    proof {
                        assert(bytes_set(result@).difference(Set::<Seq<u8>>::empty()) =~= bytes_set(result@));
                    }
                },
            }
            i = i + 1;
        }
        proof {
            assert(keys@.take(keys@.len() as int) =~= keys@);
        }
        self.stats.sdiff_count = self.stats.sdiff_count.wrapping_add(1);
        Ok(result)
    }

    /// Put a new set of `members` under `destination`, replacing what was
    /// there; answers its size.
    fn store_members(&mut self, destination: &str, members: Vec<Vec<u8>>) -> (n: usize)
        requires
            old(self).wf(),
            distinct_bytes(members@),
        ensures
            final(self).wf(),
            final(self).sets() == old(self).sets().insert(destination@, final(self).sets()[destination@]),
            final(self).sets()[destination@].member_set() == bytes_set(members@),
            n == bytes_set(members@).len(),
            final(self).counters() == old(self).counters(),
    {
        let mut v = SetValue::new(None);
        v.members = members;
        proof {
            lemma_set_len(v);
        }
        let n = v.len();
        self.put(destination, v);
        n
    }

    /// SINTERSTORE: store the intersection of the sets of `keys` (see
    /// `sinter`) under `destination`; answers its size.
    pub fn sinterstore(&mut self, destination: &str, keys: &[String]) -> (r: Result<usize>)
        requires
            old(self).wf(),
        ensures
            final(self).wf(),
            ({
                let s: Set<Seq<u8>> = if keys@.len() > 0 && all_present(old(self).sets(), keys@) {
                    common_members(old(self).sets(), keys@)
                } else {
                    Set::empty()
                };
                &&& r matches Ok(n) && n == s.len()
                &&& final(self).sets() == old(self).sets().insert(destination@, final(self).sets()[destination@])
                &&& final(self).sets()[destination@].member_set() == s
            }),
    {
        match self.sinter(keys) {
            Ok(members) => Ok(self.store_members(destination, members)),
            Err(e) => Err(e),
        }
    }

    /// SUNIONSTORE: store the union of the sets of `keys` under
    /// `destination`; answers its size.
    pub fn sunionstore(&mut self, destination: &str, keys: &[String]) -> (r: Result<usize>)
        requires
            old(self).wf(),
        ensures
            final(self).wf(),
            r matches Ok(n) && n == any_members(old(self).sets(), keys@).len(),
            final(self).sets() == old(self).sets().insert(destination@, final(self).sets()[destination@]),
            final(self).sets()[destination@].member_set() == any_members(old(self).sets(), keys@),
    {
        match self.sunion(keys) {
            Ok(members) => Ok(self.store_members(destination, members)),
            Err(e) => Err(e),
        }
    }

    /// SDIFFSTORE: store the difference of the sets of `keys` under
    /// `destination`; answers its size.
    pub fn sdiffstore(&mut self, destination: &str, keys: &[String]) -> (r: Result<usize>)
        requires
            old(self).wf(),
        ensures
            final(self).wf(),
            r matches Ok(n) && n == first_only_members(old(self).sets(), keys@).len(),
            final(self).sets() == old(self).sets().insert(destination@, final(self).sets()[destination@]),
            final(self).sets()[destination@].member_set() == first_only_members(old(self).sets(), keys@),
    {
        match self.sdiff(keys) {
            Ok(members) => Ok(self.store_members(destination, members)),
            Err(e) => Err(e),
        }
    }

    /// The entries of the store, in storage order.
    pub closed spec fn entries(&self) -> Seq<(String, SetValue)> {
        self.sets.entries()
    }

    /// The counters, with the number of sets and of members filled in.
    pub fn stats(&self) -> (r: SetStats)
        requires
            self.wf(),
        ensures
            r.total_sets == self.sets().len(),
            r.total_members == total_members(self.entries()),
            r == (SetStats { total_sets: r.total_sets, total_members: r.total_members, ..self.counters() }),
    {
        let n = self.sets.len();
        let mut total: usize = 0;
        let mut i: usize = 0;
        while i < n
            invariant
                self.wf(),
                n == self.sets.entries().len(),
                i <= n,
                total == total_members(self.sets.entries().take(i as int)),
            decreases n - i,
        {
            let (_k, v) = self.sets.entry_at(i);
            let c = v.len();
            proof {
                let t = self.sets.entries().take(i + 1);
                assert(t.drop_last() =~= self.sets.entries().take(i as int));
                assert(t.last() == self.sets.entries()[i as int]);
            }
            if c > usize::MAX - total {
                total = usize::MAX;
            } else {
                total = total + c;
            }
            i = i + 1;
        }
        proof {
            assert(self.sets.entries().take(n as int) =~= self.sets.entries());
        }
        SetStats {
            total_sets: n,
            total_members: total,
            sadd_count: self.stats.sadd_count,
            srem_count: self.stats.srem_count,
            sismember_count: self.stats.sismember_count,
            smembers_count: self.stats.smembers_count,
            scard_count: self.stats.scard_count,
            spop_count: self.stats.spop_count,
            srandmember_count: self.stats.srandmember_count,
            smove_count: self.stats.smove_count,
            sinter_count: self.stats.sinter_count,
            sunion_count: self.stats.sunion_count,
            sdiff_count: self.stats.sdiff_count,
        }
    }

    /// Drop the set `key`; answers whether it was there.
    pub fn delete(&mut self, key: &str) -> (r: Result<bool>)
        requires
            old(self).wf(),
        ensures
            final(self).wf(),
            r matches Ok(b) && b == old(self).sets().contains_key(key@),
            final(self).sets() == old(self).sets().remove(key@),
    {
        Ok(self.take(key).is_some())
    }

    /// Whether the set `key` exists.
    pub fn key_exists(&self, key: &str) -> (r: bool)
        requires
            self.wf(),
        ensures
            r == self.sets().contains_key(key@),
    {
        match self.sets.get(key) {
            Some(v) => {
                proof {
                    assert(self.sets@.contains_key(key@));
                }
                !v.is_expired()
            },
            None => false,
        }
    }

    /// SREM now (see `srem_at`).
    pub fn srem(&mut self, key: &str, members: Vec<Vec<u8>>) -> (r: Result<usize>)
        requires
            old(self).wf(),
        ensures
            final(self).wf(),
            !old(self).sets().contains_key(key@) ==> (r matches Err(SynapError::NotFound)) && final(self).sets() == old(self).sets(),
            old(self).sets().contains_key(key@) ==> {
                let after = old(self).sets()[key@].member_set().difference(byte_views(members@).to_set());
                &&& r matches Ok(n) && n == old(self).sets()[key@].items().len() - members_of(final(self).sets(), key@).len()
                &&& members_of(final(self).sets(), key@) == after
                &&& final(self).sets().contains_key(key@) <==> !after.is_empty()
                &&& forall|k: Seq<char>| k != key@ ==> #[trigger] final(self).sets().contains_key(k) == old(self).sets().contains_key(k)
                    && members_of(final(self).sets(), k) == members_of(old(self).sets(), k)
            },
    {
        let now = unix_time_secs();
        self.srem_at(key, members, now)
    }

}

/// The number of members of a set is its number of items, and an empty set
/// has no items.
pub proof fn lemma_set_len(v: SetValue)
    requires
        v.wf(),
    ensures
        v.member_set().len() == v.items().len(),
        v.member_set().is_empty() <==> v.items().len() == 0,
{
    let it = v.items();
    assert forall|i: int, j: int| 0 <= i < it.len() && 0 <= j < it.len() && i != j implies it[i] != it[j] by {
        assert(it[i] == v.members@[i]@ && it[j] == v.members@[j]@);
    }
    assert(it.no_duplicates());
    it.unique_seq_to_set();
    if it.len() > 0 {
        assert(v.member_set().contains(it[0]));
    }
}

} // verus!
