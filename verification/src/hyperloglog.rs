//! HyperLogLog sketches and their store: PFADD and PFMERGE over 16384
//! registers, times to live, and the counters of the store. (The
//! cardinality estimate itself is floating point and lives with the server
//! around this library: the store answers the registers it is computed from.)

use vstd::prelude::*;
use vstd::std_specs::bits::u64_leading_zeros;
use crate::clock::unix_time_secs;
use crate::error::{Result, SynapError};
use crate::keyed::Keyed;

verus! {

/// Number of index bits of a hash.
pub const HLL_P: u8 = 14;

/// Number of registers.
pub const HLL_REGISTER_COUNT: usize = 16384;

/// The 64-bit hash that `std`'s `DefaultHasher::new()` gives a byte slice
/// (fixed keys, so the same bytes hash the same way in every process).
pub uninterp spec fn default_hash_of(bytes: Seq<u8>) -> u64;

/// Hash `element` as the sketch does: `DefaultHasher::new()`, the slice's
/// `Hash` impl, then `finish`. The result is named `default_hash_of`.
#[verifier::external_body]
fn hash_element(element: &[u8]) -> (r: u64)
    ensures
        r == default_hash_of(element@),
{
    let mut hasher = std::collections::hash_map::DefaultHasher::new();
    std::hash::Hash::hash(element, &mut hasher);
    std::hash::Hasher::finish(&hasher)
}

/// The register a hash goes to: its low 14 bits.
pub open spec fn register_of(hash: u64) -> int {
    (hash & 16383u64) as int
}

/// The rank a hash gives its register: one more than the leading zeros of
/// the hash shifted right by 14 (50 when nothing is left).
pub open spec fn rank_of(hash: u64) -> int {
    let w = hash >> 14u64;
    (if w == 0 { 50 } else { u64_leading_zeros(w) }) + 1
}

/// The registers after one hash: its register takes its rank if larger.
pub open spec fn with_hash(regs: Seq<u8>, hash: u64) -> Seq<u8> {
    let j = register_of(hash);
    if regs[j] < rank_of(hash) { regs.update(j, rank_of(hash) as u8) } else { regs }
}

/// The registers after the hashes of `elements`, in order.
pub open spec fn with_elements(regs: Seq<u8>, elements: Seq<Seq<u8>>) -> Seq<u8>
    decreases elements.len(),
{
    if elements.len() == 0 {
        regs
    } else {
        with_hash(with_elements(regs, elements.drop_last()), default_hash_of(elements.last()))
    }
}

/// How many of the hashes of `elements` raised a register.
pub open spec fn raises(regs: Seq<u8>, elements: Seq<Seq<u8>>) -> nat
    decreases elements.len(),
{
    if elements.len() == 0 {
        0
    } else {
        let before = with_elements(regs, elements.drop_last());
        let h = default_hash_of(elements.last());
        raises(regs, elements.drop_last()) + if before[register_of(h)] < rank_of(h) { 1nat } else { 0nat }
    }
}

/// The register-wise maximum of two sketches.
pub open spec fn merged(a: Seq<u8>, b: Seq<u8>) -> Seq<u8> {
    Seq::new(a.len(), |i: int| if b[i] > a[i] { b[i] } else { a[i] })
}

/// A sketch is 16384 registers.
pub proof fn lemma_register_in_range(hash: u64)
    ensures
        0 <= register_of(hash) < 16384,
        1 <= rank_of(hash) <= 65,
{
    assert(hash & 16383u64 <= 16383u64) by (bit_vector);
    vstd::std_specs::bits::axiom_u64_leading_zeros(hash >> 14u64);
}

proof fn lemma_with_elements_grows(regs: Seq<u8>, es: Seq<Seq<u8>>)
    requires
        regs.len() == HLL_REGISTER_COUNT,
    ensures
        with_elements(regs, es).len() == HLL_REGISTER_COUNT,
        forall|i: int| 0 <= i < HLL_REGISTER_COUNT ==> #[trigger] with_elements(regs, es)[i] >= regs[i],
        forall|k: int| 0 <= k < es.len() ==> with_elements(regs, es)[register_of(default_hash_of(#[trigger] es[k]))]
            >= rank_of(default_hash_of(es[k])),
    decreases es.len(),
{
    if es.len() > 0 {
        let before = with_elements(regs, es.drop_last());
        lemma_with_elements_grows(regs, es.drop_last());
        let h = default_hash_of(es.last());
        lemma_register_in_range(h);
        let after = with_elements(regs, es);
        assert(after == with_hash(before, h));
        assert forall|i: int| 0 <= i < HLL_REGISTER_COUNT implies #[trigger] after[i] >= before[i] by {}
        assert forall|k: int| 0 <= k < es.len() implies after[register_of(default_hash_of(#[trigger] es[k]))]
            >= rank_of(default_hash_of(es[k])) by {
            if k < es.len() - 1 {
                assert(es[k] == es.drop_last()[k]);
                lemma_register_in_range(default_hash_of(es[k]));
            }
        }
    }
}

proof fn lemma_no_raise(regs: Seq<u8>, es: Seq<Seq<u8>>)
    requires
        regs.len() == HLL_REGISTER_COUNT,
        forall|k: int| 0 <= k < es.len() ==> regs[register_of(default_hash_of(#[trigger] es[k]))]
            >= rank_of(default_hash_of(es[k])),
    ensures
        with_elements(regs, es) == regs,
        raises(regs, es) == 0,
    decreases es.len(),
{
    if es.len() > 0 {
        assert forall|k: int| 0 <= k < es.drop_last().len() implies regs[register_of(default_hash_of(#[trigger] es.drop_last()[k]))]
            >= rank_of(default_hash_of(es.drop_last()[k])) by {
            assert(es.drop_last()[k] == es[k]);
        }
        lemma_no_raise(regs, es.drop_last());
        assert(es.last() == es[es.len() - 1]);
    }
}

/// Adding the same elements again changes no register and reports that
/// none was raised.
pub proof fn lemma_pfadd_idempotent(regs: Seq<u8>, es: Seq<Seq<u8>>)
    requires
        regs.len() == HLL_REGISTER_COUNT,
    ensures
        with_elements(with_elements(regs, es), es) == with_elements(regs, es),
        raises(with_elements(regs, es), es) == 0,
{
    lemma_with_elements_grows(regs, es);
    lemma_no_raise(with_elements(regs, es), es);
}

/// A HyperLogLog sketch under one key.
#[derive(Debug, Clone)]
pub struct HyperLogLogValue {
    /// The registers.
    pub registers: Vec<u8>,
    /// Time to live of the sketch, in seconds.
    pub ttl_secs: Option<u64>,
    /// Creation time (Unix seconds); the time to live counts from here.
    pub created_at: u64,
    /// Time of the last change (Unix seconds).
    pub updated_at: u64,
}

impl HyperLogLogValue {
    /// The invariant: 16384 registers.
    pub open spec fn wf(&self) -> bool {
        self.registers@.len() == HLL_REGISTER_COUNT
    }

    /// An empty sketch made at `now`.
    pub fn new_at(ttl_secs: Option<u64>, now: u64) -> (r: Self)
        ensures
            r.wf(),
            forall|i: int| 0 <= i < HLL_REGISTER_COUNT ==> r.registers@[i] == 0,
            r.ttl_secs == ttl_secs,
            r.created_at == now && r.updated_at == now,
    {
        let mut registers: Vec<u8> = Vec::new();
        let mut i: usize = 0;
        while i < HLL_REGISTER_COUNT
            invariant
                i <= HLL_REGISTER_COUNT,
                registers@.len() == i,
                forall|j: int| 0 <= j < i ==> registers@[j] == 0,
            decreases HLL_REGISTER_COUNT - i,
        {
            registers.push(0);
            i = i + 1;
        }
        HyperLogLogValue { registers, ttl_secs, created_at: now, updated_at: now }
    }

    /// An empty sketch made now.
    pub fn new(ttl_secs: Option<u64>) -> (r: Self)
        ensures
            r.wf(),
            forall|i: int| 0 <= i < HLL_REGISTER_COUNT ==> r.registers@[i] == 0,
            r.ttl_secs == ttl_secs,
            r.created_at == r.updated_at,
    {
        let now = unix_time_secs();
        Self::new_at(ttl_secs, now)
    }

    /// Set a new time to live, counted from `now`.
    pub fn set_ttl_at(&mut self, ttl_secs: Option<u64>, now: u64)
        ensures
            final(self).registers@ == old(self).registers@,
            final(self).ttl_secs == ttl_secs,
            final(self).created_at == now && final(self).updated_at == now,
    {
        self.ttl_secs = ttl_secs;
        self.created_at = now;
        self.updated_at = now;
    }

    /// Set a new time to live, counted from now.
    pub fn set_ttl(&mut self, ttl_secs: Option<u64>)
        ensures
            final(self).registers@ == old(self).registers@,
            final(self).ttl_secs == ttl_secs,
            final(self).created_at == final(self).updated_at,
    {
        let now = unix_time_secs();
        self.set_ttl_at(ttl_secs, now)
    }

    /// Whether the sketch has expired at `now`.
    pub fn is_expired_at(&self, now: u64) -> (r: bool)
        ensures
            r == match self.ttl_secs {
                Some(t) => now >= self.created_at + t,
                None => false,
            },
    {
        match self.ttl_secs {
            Some(ttl) => now >= self.created_at && now - self.created_at >= ttl,
            None => false,
        }
    }

    /// Whether the sketch has expired now.
    pub fn is_expired(&self) -> (r: bool)
        ensures
            self.ttl_secs is None ==> !r,
            exists|now: u64| r == #[trigger] sketch_expired(*self, now),
    {
        let now = unix_time_secs();
        let r = self.is_expired_at(now);
        assert(r == sketch_expired(*self, now));
        r
    }

    /// The rank of a hash (see `rank_of`).
    fn rank(hash: u64) -> (r: u8)
        ensures
            r == rank_of(hash),
    {
        let w = hash >> 14;
        proof {
            vstd::std_specs::bits::axiom_u64_leading_zeros(w);
        }
        let lz: u8 = if w == 0 { 50 } else { w.leading_zeros() as u8 };
        lz + 1
    }

    /// PFADD at time `now`: each element's hash raises its register to its
    /// rank; answers how many raised one.
    pub fn pfadd_at(&mut self, elements: Vec<Vec<u8>>, now: u64) -> (added: usize)
        requires
            old(self).wf(),
        ensures
            final(self).wf(),
            final(self).registers@ == with_elements(old(self).registers@, elements@.map_values(|e: Vec<u8>| e@)),
            added == raises(old(self).registers@, elements@.map_values(|e: Vec<u8>| e@)),
            final(self).updated_at == now,
            final(self).ttl_secs == old(self).ttl_secs,
            final(self).created_at == old(self).created_at,
    {
        self.updated_at = now;
        let ghost start = self.registers@;
        let ghost es = elements@.map_values(|e: Vec<u8>| e@);
        let mut added: usize = 0;
        let mut i: usize = 0;
        while i < elements.len()
            invariant
                es == elements@.map_values(|e: Vec<u8>| e@),
                i <= elements@.len(),
                added <= i,
                self.registers@.len() == HLL_REGISTER_COUNT,
                self.registers@ == with_elements(start, es.take(i as int)),
                added == raises(start, es.take(i as int)),
                self.updated_at == now,
                self.ttl_secs == old(self).ttl_secs,
                self.created_at == old(self).created_at,
            decreases elements@.len() - i,
        {
            let hash = hash_element(elements[i].as_slice());
            proof {
                lemma_register_in_range(hash);
                assert(es.take(i + 1).drop_last() =~= es.take(i as int));
                assert(es.take(i + 1).last() == elements@[i as int]@);
            }
            let j = (hash & 16383) as usize;
            let rho = Self::rank(hash);
            if self.registers[j] < rho {
                self.registers.set(j, rho);
                added = added + 1;
            }
            i = i + 1;
        }
        proof {
            assert(es.take(es.len() as int) =~= es);
        }
        added
    }

    /// PFADD now (see `pfadd_at`).
    pub fn pfadd(&mut self, elements: Vec<Vec<u8>>) -> (added: usize)
        requires
            old(self).wf(),
        ensures
            final(self).wf(),
            final(self).registers@ == with_elements(old(self).registers@, elements@.map_values(|e: Vec<u8>| e@)),
            added == raises(old(self).registers@, elements@.map_values(|e: Vec<u8>| e@)),
            final(self).ttl_secs == old(self).ttl_secs,
            final(self).created_at == old(self).created_at,
    {
        let now = unix_time_secs();
        self.pfadd_at(elements, now)
    }

    /// PFMERGE at time `now`: each register takes the larger of the two.
    pub fn merge_at(&mut self, other: &HyperLogLogValue, now: u64)
        requires
            old(self).wf(),
            other.wf(),
        ensures
            final(self).wf(),
            final(self).registers@ == merged(old(self).registers@, other.registers@),
            final(self).updated_at == now,
            final(self).ttl_secs == old(self).ttl_secs,
            final(self).created_at == old(self).created_at,
    {
        self.updated_at = now;
        let ghost start = self.registers@;
        let mut i: usize = 0;
        while i < HLL_REGISTER_COUNT
            invariant
                i <= HLL_REGISTER_COUNT,
                other.registers@.len() == HLL_REGISTER_COUNT,
                start.len() == HLL_REGISTER_COUNT,
                self.registers@.len() == HLL_REGISTER_COUNT,
                forall|j: int| 0 <= j < i ==> self.registers@[j] == merged(start, other.registers@)[j],
                forall|j: int| i <= j < HLL_REGISTER_COUNT ==> self.registers@[j] == start[j],
                self.updated_at == now,
                self.ttl_secs == old(self).ttl_secs,
                self.created_at == old(self).created_at,
            decreases HLL_REGISTER_COUNT - i,
        {
            if other.registers[i] > self.registers[i] {
                self.registers.set(i, other.registers[i]);
            }
            i = i + 1;
        }
        proof {
            assert(self.registers@ =~= merged(start, other.registers@));
        }
    }

    /// PFMERGE now (see `merge_at`).
    pub fn merge(&mut self, other: &HyperLogLogValue)
        requires
            old(self).wf(),
            other.wf(),
        ensures
            final(self).wf(),
            final(self).registers@ == merged(old(self).registers@, other.registers@),
            final(self).ttl_secs == old(self).ttl_secs,
            final(self).created_at == old(self).created_at,
    {
        let now = unix_time_secs();
        self.merge_at(other, now)
    }
}

/// Merging is commutative and idempotent, and never lowers a register.
pub proof fn lemma_merge_laws(a: Seq<u8>, b: Seq<u8>)
    requires
        a.len() == b.len(),
    ensures
        merged(a, b) == merged(b, a),
        merged(a, a) == a,
        forall|i: int| 0 <= i < a.len() ==> merged(a, b)[i] >= a[i] && merged(a, b)[i] >= b[i],
{
    assert(merged(a, b) =~= merged(b, a));
    assert(merged(a, a) =~= a);
}

/// Counters of the sketch store.
#[derive(Debug, Clone)]
pub struct HyperLogLogStats {
    pub total_hlls: usize,
    pub pfadd_count: u64,
    pub pfcount_count: u64,
    pub pfmerge_count: u64,
    pub total_cardinality: u64,
}

impl Default for HyperLogLogStats {
    fn default() -> (r: Self)
        ensures
            r.total_hlls == 0 && r.pfadd_count == 0 && r.pfcount_count == 0,
            r.pfmerge_count == 0 && r.total_cardinality == 0,
    {
        HyperLogLogStats { total_hlls: 0, pfadd_count: 0, pfcount_count: 0, pfmerge_count: 0, total_cardinality: 0 }
    }
}

impl HyperLogLogStats {
    /// Reset every counter to zero.
    pub fn reset(&mut self)
        ensures
            final(self).total_hlls == 0 && final(self).pfadd_count == 0,
            final(self).pfcount_count == 0 && final(self).pfmerge_count == 0,
            final(self).total_cardinality == 0,
    {
        *self = Self::default();
    }
}

/// Registers that are all zero.
pub open spec fn empty_registers() -> Seq<u8> {
    Seq::new(HLL_REGISTER_COUNT as nat, |i: int| 0u8)
}

/// Whether sketch `v` has expired at `now`.
pub open spec fn sketch_expired(v: HyperLogLogValue, now: u64) -> bool {
    match v.ttl_secs {
        Some(t) => now >= v.created_at + t,
        None => false,
    }
}

/// A sketch the store can hold: 16384 registers.
pub open spec fn sketch_ok(v: HyperLogLogValue) -> bool {
    v.wf()
}

/// Whether `v` holds `regs` with time to live `ttl` counted from `created`.
pub open spec fn sketch_is(v: HyperLogLogValue, regs: Seq<u8>, ttl: Option<u64>, created: u64, updated: u64) -> bool {
    v.registers@ == regs && v.ttl_secs == ttl && v.created_at == created && v.updated_at == updated
}

/// What PFADD at `now` starts from under a key: a live sketch (with the new
/// time to live, counted from `now`, when one is given), else an empty
/// sketch with the given time to live, made at `now`.
pub open spec fn pfadd_base(m: Map<Seq<char>, HyperLogLogValue>, key: Seq<char>, ttl: Option<u64>, now: u64) -> (Seq<u8>, Option<u64>, u64) {
    if m.contains_key(key) && !sketch_expired(m[key], now) {
        match ttl {
            Some(t) => (m[key].registers@, Some(t), now),
            None => (m[key].registers@, m[key].ttl_secs, m[key].created_at),
        }
    } else {
        (empty_registers(), ttl, now)
    }
}

/// What PFMERGE at `now` starts from under the destination key: a live
/// sketch; an empty one keeping the time to live of an expired one, made
/// at `now`; or an empty one without time to live, made at `now`.
pub open spec fn pfmerge_base(m: Map<Seq<char>, HyperLogLogValue>, key: Seq<char>, now: u64) -> (Seq<u8>, Option<u64>, u64) {
    if !m.contains_key(key) {
        (empty_registers(), None, now)
    } else if sketch_expired(m[key], now) {
        (empty_registers(), m[key].ttl_secs, now)
    } else {
        (m[key].registers@, m[key].ttl_secs, m[key].created_at)
    }
}

/// The registers after merging, in order, the live sketches of the
/// `sources` other than `dest`; missing and expired sources add nothing.
pub open spec fn merged_sources(
    m: Map<Seq<char>, HyperLogLogValue>,
    regs: Seq<u8>,
    dest: Seq<char>,
    sources: Seq<Seq<char>>,
    now: u64,
) -> Seq<u8>
    decreases sources.len(),
{
    if sources.len() == 0 {
        regs
    } else {
        let before = merged_sources(m, regs, dest, sources.drop_last(), now);
        let k = sources.last();
        if k != dest && m.contains_key(k) && !sketch_expired(m[k], now) {
            merged(before, m[k].registers@)
        } else {
            before
        }
    }
}

/// The keys of `s` whose sketches in `m` are live at `now`, in order.
pub open spec fn live_keys(s: Seq<(String, HyperLogLogValue)>, now: u64) -> Seq<Seq<u8>>
    decreases s.len(),
{
    if s.len() == 0 {
        Seq::empty()
    } else {
        let r = live_keys(s.drop_last(), now);
        if sketch_expired(s.last().1, now) { r } else { r.push(s.last().1.registers@) }
    }
}

fn copy_registers(v: &Vec<u8>) -> (r: Vec<u8>)
    ensures
        r@ == v@,
{
    let mut out: Vec<u8> = Vec::new();
    let mut i: usize = 0;
    while i < v.len()
        invariant
            i <= v@.len(),
            out@ == v@.take(i as int),
        decreases v@.len() - i,
    {
        out.push(v[i]);
        i = i + 1;
        proof {
            assert(out@ =~= v@.take(i as int));
        }
    }
    proof {
        assert(v@.take(v@.len() as int) =~= v@);
    }
    out
}

/// HyperLogLog sketches by key, with counters of the operations.
pub struct HyperLogLogStore {
    sketches: Keyed<HyperLogLogValue>,
    stats: HyperLogLogStats,
}

impl HyperLogLogStore {
    /// The sketches by key.
    pub closed spec fn sketches(&self) -> Map<Seq<char>, HyperLogLogValue> {
        self.sketches@
    }

    /// The sketches in storage order.
    pub closed spec fn sketch_entries(&self) -> Seq<(String, HyperLogLogValue)> {
        self.sketches.entries()
    }

    /// The counters.
    pub closed spec fn counters(&self) -> HyperLogLogStats {
        self.stats
    }

    /// The invariant: every sketch is one the store can hold.
    pub closed spec fn wf(&self) -> bool {
        &&& self.sketches.wf()
        &&& forall|k: Seq<char>| #[trigger] self.sketches@.contains_key(k) ==> sketch_ok(self.sketches@[k])
    }

    /// No sketches, and counters at zero.
    pub fn new() -> (r: Self)
        ensures
            r.wf(),
            r.sketches() == Map::<Seq<char>, HyperLogLogValue>::empty(),
            r.counters().pfadd_count == 0 && r.counters().pfcount_count == 0,
            r.counters().pfmerge_count == 0,
    {
        HyperLogLogStore { sketches: Keyed::new(), stats: HyperLogLogStats::default() }
    }

    /// Take the sketch under `key` out of the store.
    fn take(&mut self, key: &str) -> (r: Option<HyperLogLogValue>)
        requires
            old(self).wf(),
        ensures
            final(self).wf(),
            final(self).sketches() == old(self).sketches().remove(key@),
            final(self).counters() == old(self).counters(),
            match r {
                Some(v) => old(self).sketches().contains_key(key@) && v == old(self).sketches()[key@],
                None => !old(self).sketches().contains_key(key@),
            },
    {
        self.sketches.remove(key)
    }

    /// Put `v` under `key`.
    fn put(&mut self, key: &str, v: HyperLogLogValue)
        requires
            old(self).wf(),
            sketch_ok(v),
        ensures
            final(self).wf(),
            final(self).sketches() == old(self).sketches().insert(key@, v),
            final(self).counters() == old(self).counters(),
    {
        self.sketches.insert(key.to_string(), v);
    }

    /// PFADD at `now`: add `elements` to the sketch under `key` (see
    /// `pfadd_base`) and answer how many raised a register.
    pub fn pfadd_at(&mut self, key: &str, elements: Vec<Vec<u8>>, ttl_secs: Option<u64>, now: u64) -> (r: Result<usize>)
        requires
            old(self).wf(),
        ensures
            final(self).wf(),
            ({
                let (regs, ttl, created) = pfadd_base(old(self).sketches(), key@, ttl_secs, now);
                let es = elements@.map_values(|e: Vec<u8>| e@);
                &&& final(self).sketches().contains_key(key@)
                &&& sketch_is(final(self).sketches()[key@], with_elements(regs, es), ttl, created, now)
                &&& final(self).sketches().remove(key@) == old(self).sketches().remove(key@)
                &&& r matches Ok(n) && n == raises(regs, es)
            }),
            final(self).counters() == (HyperLogLogStats {
                pfadd_count: old(self).counters().pfadd_count.wrapping_add(1),
                ..old(self).counters()
            }),
    {
        let existing = self.take(key);
        let mut v = match existing {
            Some(v) => {
                if v.is_expired_at(now) {
                    HyperLogLogValue::new_at(ttl_secs, now)
                } else {
                    let mut v = v;
                    if let Some(t) = ttl_secs {
                        v.set_ttl_at(Some(t), now);
                    }
                    v
                }
            },
            None => HyperLogLogValue::new_at(ttl_secs, now),
        };
        proof {
            assert(v.registers@ =~= pfadd_base(old(self).sketches(), key@, ttl_secs, now).0);
        }
        let added = v.pfadd_at(elements, now);
        self.put(key, v);
        proof {
            assert(self.sketches().remove(key@) =~= old(self).sketches().remove(key@));
        }
        self.stats.pfadd_count = self.stats.pfadd_count.wrapping_add(1);
        Ok(added)
    }

    /// PFADD now.
    pub fn pfadd(&mut self, key: &str, elements: Vec<Vec<u8>>, ttl_secs: Option<u64>) -> (r: Result<usize>)
        requires
            old(self).wf(),
        ensures
            final(self).wf(),
            final(self).sketches().contains_key(key@),
            final(self).sketches().remove(key@) == old(self).sketches().remove(key@),
            r is Ok,
            exists|now: u64| #![trigger pfadd_base(old(self).sketches(), key@, ttl_secs, now)] {
                let (regs, ttl, created) = pfadd_base(old(self).sketches(), key@, ttl_secs, now);
                let es = elements@.map_values(|e: Vec<u8>| e@);
                &&& sketch_is(final(self).sketches()[key@], with_elements(regs, es), ttl, created, now)
                &&& r matches Ok(n) && n == raises(regs, es)
            },
            final(self).counters() == (HyperLogLogStats {
                pfadd_count: old(self).counters().pfadd_count.wrapping_add(1),
                ..old(self).counters()
            }),
    {
        let now = unix_time_secs();
        self.pfadd_at(key, elements, ttl_secs, now)
    }

    /// Whether `after` and `r` are what PFCOUNT's registers read of `key`
    /// at `now` makes of `before` (see `pfcount_sketch_at`).
    pub open spec fn counted_at(before: Self, after: Self, key: Seq<char>, now: u64, r: Result<Vec<u8>>) -> bool {
        let m = before.sketches();
        if !m.contains_key(key) {
            &&& r matches Err(SynapError::NotFound)
            &&& after.sketches() == m && after.counters() == before.counters()
        } else if sketch_expired(m[key], now) {
            &&& r matches Err(SynapError::KeyExpired)
            &&& after.sketches() == m.remove(key) && after.counters() == before.counters()
        } else {
            &&& r matches Ok(regs) && regs@ == m[key].registers@
            &&& after.sketches() == m
            &&& after.counters() == (HyperLogLogStats {
                pfcount_count: before.counters().pfcount_count.wrapping_add(1),
                ..before.counters()
            })
        }
    }

    /// The registers that PFCOUNT estimates from, at `now`: `NotFound`
    /// without a sketch under `key`; an expired sketch is removed and gives
    /// `KeyExpired`; a live one counts as a PFCOUNT.
    pub fn pfcount_sketch_at(&mut self, key: &str, now: u64) -> (r: Result<Vec<u8>>)
        requires
            old(self).wf(),
        ensures
            final(self).wf(),
            Self::counted_at(*old(self), *final(self), key@, now, r),
    {
        let regs = match self.sketches.get(key) {
            None => return Err(SynapError::NotFound),
            Some(v) => {
                if v.is_expired_at(now) {
                    None
                } else {
                    Some(copy_registers(&v.registers))
                }
            },
        };
        match regs {
            None => {
                let _gone = self.take(key);
                Err(SynapError::KeyExpired)
            },
            Some(regs) => {
                self.stats.pfcount_count = self.stats.pfcount_count.wrapping_add(1);
                Ok(regs)
            },
        }
    }

    /// The registers that PFCOUNT estimates from, now.
    pub fn pfcount_sketch(&mut self, key: &str) -> (r: Result<Vec<u8>>)
        requires
            old(self).wf(),
        ensures
            final(self).wf(),
            !old(self).sketches().contains_key(key@) ==> (r matches Err(SynapError::NotFound)),
            r matches Ok(regs) ==> (old(self).sketches().contains_key(key@)
                && regs@ == old(self).sketches()[key@].registers@),
            exists|now: u64| #[trigger] Self::counted_at(*old(self), *final(self), key@, now, r),
    {
        let now = unix_time_secs();
        self.pfcount_sketch_at(key, now)
    }

    /// PFMERGE at `now`: merge the live sketches of `source_keys` (other
    /// than `dest_key`) into the destination (see `pfmerge_base`), and
    /// answer its registers, which PFCOUNT then estimates from.
    pub fn pfmerge_sketch_at(&mut self, dest_key: &str, source_keys: Vec<String>, now: u64) -> (r: Result<Vec<u8>>)
        requires
            old(self).wf(),
        ensures
            final(self).wf(),
            ({
                let m = old(self).sketches();
                let (regs, ttl, created) = pfmerge_base(m, dest_key@, now);
                let srcs = source_keys@.map_values(|k: String| k@);
                let result = merged_sources(m, regs, dest_key@, srcs, now);
                &&& final(self).sketches().contains_key(dest_key@)
                &&& final(self).sketches()[dest_key@].registers@ == result
                &&& final(self).sketches()[dest_key@].ttl_secs == ttl
                &&& final(self).sketches()[dest_key@].created_at == created
                &&& final(self).sketches().remove(dest_key@) == m.remove(dest_key@)
                &&& r matches Ok(out) && out@ == result
            }),
            final(self).counters() == (HyperLogLogStats {
                pfmerge_count: old(self).counters().pfmerge_count.wrapping_add(1),
                ..old(self).counters()
            }),
    {
        let ghost m = self.sketches();
        let ghost srcs = source_keys@.map_values(|k: String| k@);
        let mut dest = match self.take(dest_key) {
            None => HyperLogLogValue::new_at(None, now),
            Some(v) => {
                if v.is_expired_at(now) {
                    HyperLogLogValue::new_at(v.ttl_secs, now)
                } else {
                    v
                }
            },
        };
        proof {
            assert(dest.registers@ =~= pfmerge_base(m, dest_key@, now).0);
        }
        let mut i: usize = 0;
        while i < source_keys.len()
            invariant
                self.wf(),
                self.sketches() == m.remove(dest_key@),
                self.counters() == old(self).counters(),
                srcs == source_keys@.map_values(|k: String| k@),
                i <= source_keys@.len(),
                sketch_ok(dest),
                dest.registers@ == merged_sources(m, pfmerge_base(m, dest_key@, now).0, dest_key@, srcs.take(i as int), now),
                dest.ttl_secs == pfmerge_base(m, dest_key@, now).1,
                dest.created_at == pfmerge_base(m, dest_key@, now).2,
                forall|k: Seq<char>| #[trigger] m.contains_key(k) ==> sketch_ok(m[k]),
            decreases source_keys@.len() - i,
        {
            proof {
                assert(srcs.take(i + 1).drop_last() =~= srcs.take(i as int));
                assert(srcs.take(i + 1).last() == source_keys@[i as int]@);
            }
            let k = &source_keys[i];
            if !crate::text::same_text(k.as_str(), dest_key) {
                match self.sketches.get(k.as_str()) {
                    Some(src) => {
                        if !src.is_expired_at(now) {
                            dest.merge_at(src, now);
                        }
                    },
                    None => {},
                }
            }
            i = i + 1;
        }
        proof {
            assert(srcs.take(srcs.len() as int) =~= srcs);
        }
        let out = copy_registers(&dest.registers);
        self.put(dest_key, dest);
        proof {
            assert(self.sketches().remove(dest_key@) =~= m.remove(dest_key@));
        }
        self.stats.pfmerge_count = self.stats.pfmerge_count.wrapping_add(1);
        Ok(out)
    }

    /// PFMERGE now.
    pub fn pfmerge_sketch(&mut self, dest_key: &str, source_keys: Vec<String>) -> (r: Result<Vec<u8>>)
        requires
            old(self).wf(),
        ensures
            final(self).wf(),
            final(self).sketches().contains_key(dest_key@),
            final(self).sketches().remove(dest_key@) == old(self).sketches().remove(dest_key@),
            r matches Ok(out) && out@ == final(self).sketches()[dest_key@].registers@,
            exists|now: u64| #![trigger pfmerge_base(old(self).sketches(), dest_key@, now)] {
                let m = old(self).sketches();
                let (regs, ttl, created) = pfmerge_base(m, dest_key@, now);
                let srcs = source_keys@.map_values(|k: String| k@);
                &&& final(self).sketches()[dest_key@].registers@ == merged_sources(m, regs, dest_key@, srcs, now)
                &&& final(self).sketches()[dest_key@].ttl_secs == ttl
                &&& final(self).sketches()[dest_key@].created_at == created
            },
            final(self).counters() == (HyperLogLogStats {
                pfmerge_count: old(self).counters().pfmerge_count.wrapping_add(1),
                ..old(self).counters()
            }),
    {
        let now = unix_time_secs();
        self.pfmerge_sketch_at(dest_key, source_keys, now)
    }

    /// The registers of every live sketch at `now`, in storage order: what
    /// the store's statistics count and estimate.
    pub fn live_sketches_at(&self, now: u64) -> (r: Vec<Vec<u8>>)
        requires
            self.wf(),
        ensures
            r@.map_values(|v: Vec<u8>| v@) == live_keys(self.sketch_entries(), now),
    {
        proof {
            self.sketches.lemma_entries();
            assert forall|j: int| 0 <= j < self.sketch_entries().len() implies sketch_ok(#[trigger] self.sketch_entries()[j].1) by {
                assert(self.sketches@.contains_key(self.sketch_entries()[j].0@));
            }
        }
        let n = self.sketches.len();
        let mut out: Vec<Vec<u8>> = Vec::new();
        let mut i: usize = 0;
        while i < n
            invariant
                self.wf(),
                n == self.sketch_entries().len(),
                i <= n,
                out@.map_values(|v: Vec<u8>| v@) == live_keys(self.sketch_entries().take(i as int), now),
                forall|j: int| 0 <= j < self.sketch_entries().len() ==> sketch_ok(#[trigger] self.sketch_entries()[j].1),
            decreases n - i,
        {
            let (_k, v) = self.sketches.entry_at(i);
            proof {
                assert(self.sketch_entries().take(i + 1).drop_last() =~= self.sketch_entries().take(i as int));
                assert(sketch_ok(self.sketch_entries()[i as int].1));
            }
            if !v.is_expired_at(now) {
                out.push(copy_registers(&v.registers));
            }
            i = i + 1;
            proof {
                assert(out@.map_values(|v: Vec<u8>| v@) =~= live_keys(self.sketch_entries().take(i as int), now));
            }
        }
        proof {
            assert(self.sketch_entries().take(n as int) =~= self.sketch_entries());
        }
        out
    }

    /// The registers of every live sketch now.
    pub fn live_sketches(&self) -> (r: Vec<Vec<u8>>)
        requires
            self.wf(),
        ensures
            exists|now: u64| r@.map_values(|v: Vec<u8>| v@) == #[trigger] live_keys(self.sketch_entries(), now),
    {
        let now = unix_time_secs();
        self.live_sketches_at(now)
    }

    /// A copy of the counters of operations.
    pub fn stats_counters(&self) -> (r: HyperLogLogStats)
        ensures
            r == self.counters(),
    {
        HyperLogLogStats {
            total_hlls: self.stats.total_hlls,
            pfadd_count: self.stats.pfadd_count,
            pfcount_count: self.stats.pfcount_count,
            pfmerge_count: self.stats.pfmerge_count,
            total_cardinality: self.stats.total_cardinality,
        }
    }

    /// Reset the counters.
    pub fn reset_stats(&mut self)
        requires
            old(self).wf(),
        ensures
            final(self).wf(),
            final(self).sketches() == old(self).sketches(),
            final(self).counters().pfadd_count == 0 && final(self).counters().pfcount_count == 0,
            final(self).counters().pfmerge_count == 0,
    {
        self.stats.reset();
    }
}

impl Default for HyperLogLogStore {
    fn default() -> (r: Self)
        ensures
            r.wf(),
            r.sketches() == Map::<Seq<char>, HyperLogLogValue>::empty(),
    {
        Self::new()
    }
}

} // verus!
