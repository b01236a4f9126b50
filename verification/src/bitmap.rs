//! Bitmaps: SETBIT, GETBIT, BITCOUNT, BITPOS, BITOP and BITFIELD over a
//! byte vector, and a store of named bitmaps.
//!
//! SETBIT, GETBIT, BITCOUNT and BITPOS number the bits from the most
//! significant bit of the first byte; BITFIELD numbers them from the least
//! significant bit of each byte.

use vstd::prelude::*;
use vstd::arithmetic::power2::*;
use crate::clock::unix_time_secs;
use crate::error::{Result, SynapError};
use crate::text::owned;

verus! {

// ---------------------------------------------------------------------------
// Model
// ---------------------------------------------------------------------------

/// Bit `offset` in SETBIT order: the bits of byte `offset / 8`, most
/// significant first. Bits past the end read as 0.
pub open spec fn bit_at(data: Seq<u8>, offset: int) -> u8 {
    if 0 <= offset && offset / 8 < data.len() {
        (data[offset / 8] >> ((7 - offset % 8) as u8)) & 1u8
    } else {
        0
    }
}

/// Bit `pos` in BITFIELD order: the bits of byte `pos / 8`, least
/// significant first. Bits past the end read as 0.
pub open spec fn field_bit(data: Seq<u8>, pos: int) -> u8 {
    if 0 <= pos && pos / 8 < data.len() {
        (data[pos / 8] >> ((pos % 8) as u8)) & 1u8
    } else {
        0
    }
}

/// `data` extended with zero bytes to at least `n` bytes.
pub open spec fn padded(data: Seq<u8>, n: int) -> Seq<u8> {
    if n <= data.len() {
        data
    } else {
        data + Seq::new((n - data.len()) as nat, |_i: int| 0u8)
    }
}

/// The bytes after SETBIT of `value` (0 or 1) at `offset`.
pub open spec fn with_bit(data: Seq<u8>, offset: int, value: u8) -> Seq<u8> {
    let p = padded(data, offset / 8 + 1);
    let i = offset / 8;
    let mask = 1u8 << ((7 - offset % 8) as u8);
    p.update(i, if value == 1 { p[i] | mask } else { p[i] & !mask })
}

/// Number of bits equal to 1 at offsets `lo..hi` (SETBIT order).
pub open spec fn ones_in(data: Seq<u8>, lo: int, hi: int) -> nat
    decreases hi - lo,
{
    if hi <= lo {
        0
    } else {
        ones_in(data, lo, hi - 1) + bit_at(data, hi - 1) as nat
    }
}

/// What BITCOUNT answers: the set bits in the inclusive range
/// `[start, end]`, which defaults to the whole bitmap and is cut at its end.
pub open spec fn bitcount_of(data: Seq<u8>, start: Option<usize>, end: Option<usize>) -> nat {
    if data.len() == 0 {
        0
    } else {
        let s: int = match start { Some(s) => s as int, None => 0 };
        let e: int = match end { Some(e) => e as int, None => 8 * data.len() - 1 };
        if s > e {
            0
        } else {
            ones_in(data, s, if e + 1 < 8 * data.len() { e + 1 } else { 8 * data.len() as int })
        }
    }
}

/// The unsigned number held by `width` bits from `offset` in BITFIELD
/// order, the bit at `offset` being the least significant.
pub open spec fn field_bits(data: Seq<u8>, offset: int, width: nat) -> nat
    decreases width,
{
    if width == 0 {
        0
    } else {
        field_bits(data, offset, (width - 1) as nat)
            + field_bit(data, offset + width - 1) as nat * pow2((width - 1) as nat)
    }
}

/// An unsigned number of 64 bits read back as an `i64`.
pub open spec fn as_i64(u: int) -> int {
    if u >= pow2(63) { u - pow2(64) } else { u }
}

/// What BITFIELD GET answers: the field read as unsigned, or sign-extended
/// from its top bit when `signed`, then taken as an `i64`.
pub open spec fn field_value(data: Seq<u8>, offset: int, width: nat, signed: bool) -> int {
    field_number(field_bits(data, offset, width) as int, width, signed)
}

/// The number a field of `width` bits holding the unsigned number `u`
/// stands for.
pub open spec fn field_number(u: int, width: nat, signed: bool) -> int {
    if signed && u >= pow2((width - 1) as nat) {
        u - pow2(width)
    } else {
        as_i64(u)
    }
}

/// Bit `i` of a `u64`.
pub open spec fn u64_bit(v: u64, i: nat) -> u8 {
    ((v >> (i as u64)) & 1u64) as u8
}

/// BITFIELD GET would fail on a panic of the shift that extends the sign of
/// a 64-bit signed field whose top bit is set.
pub open spec fn field_get_panics(data: Seq<u8>, offset: int, width: nat, signed: bool) -> bool {
    signed && width == 64 && (offset + 63) / 8 < data.len() && field_bit(data, offset + 63) == 1
}

/// The range of a field of `width` bits: `[min, max]`.
pub open spec fn field_min(width: nat, signed: bool) -> int {
    if signed { -pow2((width - 1) as nat) } else { 0 }
}

pub open spec fn field_max(width: nat, signed: bool) -> int {
    if signed { pow2((width - 1) as nat) - 1 } else { pow2(width) - 1 }
}

// ---------------------------------------------------------------------------
// Lemmas on bytes
// ---------------------------------------------------------------------------

proof fn lemma_byte_set_bit(b: u8, k: u8, j: u8)
    requires
        k < 8,
        j < 8,
    ensures
        ((b | (1u8 << k)) >> j) & 1u8 == if j == k { 1u8 } else { (b >> j) & 1u8 },
        ((b & !(1u8 << k)) >> j) & 1u8 == if j == k { 0u8 } else { (b >> j) & 1u8 },
{
    assert(((b | (1u8 << k)) >> j) & 1u8 == if j == k { 1u8 } else { (b >> j) & 1u8 })
        by (bit_vector)
        requires k < 8, j < 8;
    assert(((b & !(1u8 << k)) >> j) & 1u8 == if j == k { 0u8 } else { (b >> j) & 1u8 })
        by (bit_vector)
        requires k < 8, j < 8;
}

proof fn lemma_bit_is_01(b: u8, j: u8)
    ensures
        (b >> j) & 1u8 == 0u8 || (b >> j) & 1u8 == 1u8,
{
    assert((b >> j) & 1u8 == 0u8 || (b >> j) & 1u8 == 1u8) by (bit_vector);
}

proof fn lemma_zero_byte_bits(j: u8)
    ensures
        (0u8 >> j) & 1u8 == 0u8,
{
    assert((0u8 >> j) & 1u8 == 0u8) by (bit_vector);
}

/// The offsets in `[lo, hi)` whose bit is set.
pub open spec fn set_bits(data: Seq<u8>, lo: int, hi: int) -> Set<int> {
    Set::new(|o: int| lo <= o < hi && bit_at(data, o) == 1)
}

/// `ones_in` counts the set bits of its range.
pub proof fn lemma_ones_in_counts(data: Seq<u8>, lo: int, hi: int)
    ensures
        set_bits(data, lo, hi).finite(),
        ones_in(data, lo, hi) == set_bits(data, lo, hi).len(),
    decreases hi - lo,
{
    if hi <= lo {
        assert(set_bits(data, lo, hi) =~= Set::<int>::empty());
    } else {
        lemma_ones_in_counts(data, lo, hi - 1);
        let p = hi - 1;
        if 0 <= p && p / 8 < data.len() {
            lemma_bit_is_01(data[p / 8], (7 - p % 8) as u8);
        }
        if bit_at(data, p) == 1 {
            assert(set_bits(data, lo, hi) =~= set_bits(data, lo, p).insert(p));
            assert(!set_bits(data, lo, p).contains(p));
        } else {
            assert(set_bits(data, lo, hi) =~= set_bits(data, lo, p));
        }
    }
}

/// BITCOUNT counts the offsets from `start` to `end` (inclusive, by
/// default the whole bitmap) that lie in the bitmap and whose bit is set.
pub proof fn lemma_bitcount_counts(data: Seq<u8>, start: Option<usize>, end: Option<usize>)
    ensures
        ({
            let s: int = match start { Some(s) => s as int, None => 0 };
            let e: int = match end { Some(e) => e as int, None => 8 * data.len() - 1 };
            let bits = Set::new(|o: int| s <= o <= e && o < 8 * data.len() && bit_at(data, o) == 1);
            &&& bits.finite()
            &&& bitcount_of(data, start, end) == bits.len()
        }),
{
    let s: int = match start { Some(s) => s as int, None => 0 };
    let e: int = match end { Some(e) => e as int, None => 8 * data.len() - 1 };
    let bits = Set::new(|o: int| s <= o <= e && o < 8 * data.len() && bit_at(data, o) == 1);
    let hi: int = if e + 1 < 8 * data.len() { e + 1 } else { 8 * data.len() as int };
    if data.len() == 0 || s > e {
        assert(bits =~= Set::<int>::empty());
    } else {
        lemma_ones_in_counts(data, s, hi);
        assert(bits =~= set_bits(data, s, hi));
    }
}

/// A byte whose eight bits all read 0 is 0.
proof fn lemma_byte_of_zero_bits(b: u8)
    requires
        (b >> 7u8) & 1u8 == 0u8, (b >> 6u8) & 1u8 == 0u8, (b >> 5u8) & 1u8 == 0u8, (b >> 4u8) & 1u8 == 0u8,
        (b >> 3u8) & 1u8 == 0u8, (b >> 2u8) & 1u8 == 0u8, (b >> 1u8) & 1u8 == 0u8, (b >> 0u8) & 1u8 == 0u8,
    ensures
        b == 0,
{
    assert(b == 0) by (bit_vector)
        requires
            (b >> 7u8) & 1u8 == 0u8, (b >> 6u8) & 1u8 == 0u8, (b >> 5u8) & 1u8 == 0u8, (b >> 4u8) & 1u8 == 0u8,
            (b >> 3u8) & 1u8 == 0u8, (b >> 2u8) & 1u8 == 0u8, (b >> 1u8) & 1u8 == 0u8, (b >> 0u8) & 1u8 == 0u8;
}

/// No set bit in `[lo, hi)` exactly when every bit there reads 0.
proof fn lemma_ones_in_zero(data: Seq<u8>, lo: int, hi: int)
    ensures
        ones_in(data, lo, hi) == 0 <==> forall|o: int| lo <= o < hi ==> #[trigger] bit_at(data, o) == 0,
    decreases hi - lo,
{
    if hi > lo {
        lemma_ones_in_zero(data, lo, hi - 1);
        let p = hi - 1;
        if 0 <= p && p / 8 < data.len() {
            lemma_bit_is_01(data[p / 8], (7 - p % 8) as u8);
        }
    }
}

/// A bitmap is empty (every byte 0) exactly when BITCOUNT over the whole
/// of it counts nothing, and exactly when every bit reads 0.
pub proof fn lemma_empty_bitmap(data: Seq<u8>)
    ensures
        (forall|i: int| 0 <= i < data.len() ==> data[i] == 0) <==> bitcount_of(data, None, None) == 0,
        (forall|i: int| 0 <= i < data.len() ==> data[i] == 0) <==> forall|o: int| #[trigger] bit_at(data, o) == 0,
{
    lemma_ones_in_zero(data, 0, 8 * data.len() as int);
    if forall|i: int| 0 <= i < data.len() ==> data[i] == 0 {
        assert forall|o: int| #[trigger] bit_at(data, o) == 0 by {
            if 0 <= o && o / 8 < data.len() {
                assert(data[o / 8] == 0);
                lemma_zero_byte_bits((7 - o % 8) as u8);
            }
        }
    }
    if forall|o: int| #[trigger] bit_at(data, o) == 0 {
        assert forall|i: int| 0 <= i < data.len() implies data[i] == 0 by {
            let b = data[i];
            assert(bit_at(data, 8 * i) == 0 && bit_at(data, 8 * i + 1) == 0 && bit_at(data, 8 * i + 2) == 0
                && bit_at(data, 8 * i + 3) == 0 && bit_at(data, 8 * i + 4) == 0 && bit_at(data, 8 * i + 5) == 0
                && bit_at(data, 8 * i + 6) == 0 && bit_at(data, 8 * i + 7) == 0);
            assert((8 * i) / 8 == i && (8 * i) % 8 == 0);
            assert((8 * i + 1) / 8 == i && (8 * i + 1) % 8 == 1);
            assert((8 * i + 2) / 8 == i && (8 * i + 2) % 8 == 2);
            assert((8 * i + 3) / 8 == i && (8 * i + 3) % 8 == 3);
            assert((8 * i + 4) / 8 == i && (8 * i + 4) % 8 == 4);
            assert((8 * i + 5) / 8 == i && (8 * i + 5) % 8 == 5);
            assert((8 * i + 6) / 8 == i && (8 * i + 6) % 8 == 6);
            assert((8 * i + 7) / 8 == i && (8 * i + 7) % 8 == 7);
            lemma_byte_of_zero_bits(b);
        }
    }
    if bitcount_of(data, None, None) == 0 && data.len() > 0 {
        assert forall|o: int| #[trigger] bit_at(data, o) == 0 by {
            if 0 <= o && o / 8 < data.len() {
                assert(0 <= o < 8 * data.len());
            }
        }
    }
}

/// Padding with zero bytes changes no bit.
pub proof fn lemma_padded_bits(data: Seq<u8>, n: int, offset: int)
    ensures
        bit_at(padded(data, n), offset) == bit_at(data, offset),
        field_bit(padded(data, n), offset) == field_bit(data, offset),
        padded(data, n).len() == if n <= data.len() { data.len() as int } else { n },
{
    if n > data.len() && 0 <= offset && data.len() <= offset / 8 < n {
        lemma_zero_byte_bits((7 - offset % 8) as u8);
        lemma_zero_byte_bits((offset % 8) as u8);
    }
}

/// SETBIT then GETBIT: the bit written reads back, and every other bit is
/// as it was.
pub proof fn lemma_with_bit(data: Seq<u8>, offset: int, value: u8, other: int)
    requires
        0 <= offset,
        value == 0 || value == 1,
    ensures
        bit_at(with_bit(data, offset, value), offset) == value,
        other != offset ==> bit_at(with_bit(data, offset, value), other) == bit_at(data, other),
        with_bit(data, offset, value).len() == if offset / 8 < data.len() { data.len() as int } else { offset / 8 + 1 },
{
    let p = padded(data, offset / 8 + 1);
    lemma_padded_bits(data, offset / 8 + 1, other);
    lemma_padded_bits(data, offset / 8 + 1, offset);
    let k = (7 - offset % 8) as u8;
    lemma_byte_set_bit(p[offset / 8], k, k);
    if 0 <= other && other / 8 == offset / 8 {
        lemma_byte_set_bit(p[offset / 8], k, (7 - other % 8) as u8);
    }
}

/// A field of `width` bits holds a number below `2^width`.
pub proof fn lemma_field_bits_bound(data: Seq<u8>, offset: int, width: nat)
    ensures
        field_bits(data, offset, width) < pow2(width),
    decreases width,
{
    if width == 0 {
        lemma2_to64();
    } else {
        lemma_field_bits_bound(data, offset, (width - 1) as nat);
        lemma_pow2_unfold(width);
        let p = offset + width - 1;
        if 0 <= p && p / 8 < data.len() {
            lemma_bit_is_01(data[p / 8], (p % 8) as u8);
        }
        let b = field_bit(data, p) as nat;
        assert(b == 0 || b == 1);
        if b == 1 {
            assert(b * pow2((width - 1) as nat) == pow2((width - 1) as nat));
        } else {
            assert(b * pow2((width - 1) as nat) == 0);
        }
    }
}

// ---------------------------------------------------------------------------
// BitmapValue
// ---------------------------------------------------------------------------

/// A bitmap stored under one key. Bits live in `data`, eight to a byte.
#[derive(Debug, Clone)]
pub struct BitmapValue {
    /// The bits, eight per byte.
    pub data: Vec<u8>,
    /// Time to live of the whole bitmap, in seconds.
    pub ttl_secs: Option<u64>,
    /// Creation time (Unix seconds); the time to live counts from here.
    pub created_at: u64,
    /// Time of the last change (Unix seconds).
    pub updated_at: u64,
}

/// Whether a value created at `created_at` with time to live `ttl` has
/// expired at time `now`.
pub open spec fn expired_at(ttl: Option<u64>, created_at: u64, now: u64) -> bool {
    match ttl {
        Some(t) => now >= created_at + t,
        None => false,
    }
}

impl BitmapValue {
    /// An empty bitmap with the given time to live.
    pub fn new(ttl_secs: Option<u64>) -> (r: Self)
        ensures
            r.data@.len() == 0,
            r.ttl_secs == ttl_secs,
            r.created_at == r.updated_at,
    {
        let now = unix_time_secs();
        BitmapValue { data: Vec::new(), ttl_secs, created_at: now, updated_at: now }
    }

    /// Set a new time to live, counted from now.
    pub fn set_ttl(&mut self, ttl_secs: Option<u64>)
        ensures
            final(self).ttl_secs == ttl_secs,
            final(self).data@ == old(self).data@,
            final(self).created_at == final(self).updated_at,
    {
        self.ttl_secs = ttl_secs;
        let now = unix_time_secs();
        self.created_at = now;
        self.updated_at = now;
    }

    /// Whether the bitmap has expired at time `now`.
    pub fn is_expired_at(&self, now: u64) -> (r: bool)
        requires
            self.ttl_secs matches Some(t) ==> self.created_at + t <= u64::MAX,
        ensures
            r == expired_at(self.ttl_secs, self.created_at, now),
    {
        match self.ttl_secs {
            Some(ttl) => now >= self.created_at + ttl,
            None => false,
        }
    }

    /// Whether the bitmap has expired now.
    pub fn is_expired(&self) -> (r: bool)
        requires
            self.ttl_secs matches Some(t) ==> self.created_at + t <= u64::MAX,
        ensures
            self.ttl_secs is None ==> !r,
            exists|now: u64| r == #[trigger] expired_at(self.ttl_secs, self.created_at, now),
    {
        let now = unix_time_secs();
        self.is_expired_at(now)
    }

    /// Grow the bytes with zeros so that bit `offset` exists.
    fn ensure_capacity(&mut self, offset: usize)
        ensures
            final(self).data@ == padded(old(self).data@, offset as int / 8 + 1),
            final(self).ttl_secs == old(self).ttl_secs,
            final(self).created_at == old(self).created_at,
            final(self).updated_at == old(self).updated_at,
    {
        grow_to(&mut self.data, offset / 8 + 1);
    }

    /// SETBIT: set the bit at `offset` to `value` and answer the bit it had.
    /// A value other than 0 or 1 is refused.
    pub fn setbit(&mut self, offset: usize, value: u8) -> (r: Result<u8>)
        ensures
            value != 0 && value != 1 ==> (r matches Err(SynapError::InvalidValue(m))
                && m@ == "Bit value must be 0 or 1"@
                && final(self).data@ == old(self).data@),
            value == 0 || value == 1 ==> (r matches Ok(b) && b == bit_at(old(self).data@, offset as int)
                && final(self).data@ == with_bit(old(self).data@, offset as int, value)
                && final(self).data@.len() == if offset / 8 < old(self).data@.len() {
                    old(self).data@.len() as int
                } else {
                    offset / 8 + 1
                }),
            final(self).ttl_secs == old(self).ttl_secs,
            final(self).created_at == old(self).created_at,
    {
        if value != 0 && value != 1 {
            return Err(SynapError::InvalidValue(owned("Bit value must be 0 or 1")));
        }
        self.ensure_capacity(offset);
        self.updated_at = unix_time_secs();
        let byte_index = offset / 8;
        let bit_index = (7 - offset % 8) as u8;
        let byte = self.data[byte_index];
        let old_bit = (byte >> bit_index) & 1;
        proof {
            lemma_padded_bits(old(self).data@, offset as int / 8 + 1, offset as int);
        }
        if value == 1 {
            self.data.set(byte_index, byte | (1u8 << bit_index));
        } else {
            self.data.set(byte_index, byte & !(1u8 << bit_index));
        }
        proof {
            lemma_with_bit(old(self).data@, offset as int, value, offset as int);
        }
        Ok(old_bit)
    }

    /// GETBIT: the bit at `offset`; 0 past the end.
    pub fn getbit(&self, offset: usize) -> (r: u8)
        ensures
            r == bit_at(self.data@, offset as int),
    {
        let byte_index = offset / 8;
        if byte_index >= self.data.len() {
            return 0;
        }
        let bit_index = (7 - offset % 8) as u8;
        (self.data[byte_index] >> bit_index) & 1
    }

    /// BITCOUNT: the number of set bits in `[start, end]` (bit offsets,
    /// inclusive), the whole bitmap by default.
    pub fn bitcount(&self, start: Option<usize>, end: Option<usize>) -> (r: usize)
        requires
            self.data@.len() * 8 <= usize::MAX,
        ensures
            r == bitcount_of(self.data@, start, end),
    {
        let len = self.data.len();
        if len == 0 {
            return 0;
        }
        let s = match start { Some(s) => s, None => 0 };
        let e = match end { Some(e) => e, None => len * 8 - 1 };
        if s > e {
            return 0;
        }
        let last = if e < len * 8 - 1 { e } else { len * 8 - 1 };
        if s > last {
            proof {
                assert(ones_in(self.data@, s as int, last + 1) == 0);
            }
            return 0;
        }
        let mut count: usize = 0;
        let mut o = s;
        while o <= last
            invariant
                len == self.data@.len(),
                len * 8 <= usize::MAX,
                s <= o <= last + 1,
                last < len * 8,
                count == ones_in(self.data@, s as int, o as int),
                count <= o - s,
            decreases last + 1 - o,
        {
            let b = self.getbit(o);
            proof {
                lemma_bit_is_01(self.data@[o as int / 8], (7 - o % 8) as u8);
            }
            count = count + b as usize;
            o = o + 1;
        }
        count
    }

    /// BITPOS: the first offset in `[start, end]` whose bit equals `value`.
    /// The range defaults to the whole bitmap (none at all for an empty
    /// one); past the end bits read as 0. A value other than 0 or 1 finds
    /// nothing.
    pub fn bitpos(&self, value: u8, start: Option<usize>, end: Option<usize>) -> (r: Option<usize>)
        requires
            self.data@.len() * 8 <= usize::MAX,
        ensures
            ({
                let s: int = match start { Some(s) => s as int, None => 0 };
                let e: int = match end { Some(e) => e as int, None => 8 * self.data@.len() - 1 };
                match r {
                    Some(p) => (value == 0 || value == 1) && s <= p <= e
                        && bit_at(self.data@, p as int) == value
                        && forall|q: int| s <= q < p ==> bit_at(self.data@, q) != value,
                    None => (value != 0 && value != 1)
                        || forall|q: int| s <= q <= e ==> bit_at(self.data@, q) != value,
                }
            }),
    {
        if value != 0 && value != 1 {
            return None;
        }
        let len = self.data.len();
        if len == 0 && end.is_none() {
            return None;
        }
        let s = match start { Some(s) => s, None => 0 };
        let e = match end { Some(e) => e, None => len * 8 - 1 };
        if s > e {
            return None;
        }
        let mut o = s;
        loop
            invariant
                len == self.data@.len(),
                len * 8 <= usize::MAX,
                s <= o <= e,
                s == match start { Some(x) => x, None => 0 },
                e == match end { Some(x) => x as int, None => 8 * self.data@.len() - 1 },
                value == 0 || value == 1,
                forall|q: int| s <= q < o ==> bit_at(self.data@, q) != value,
            decreases e - o,
        {
            if o >= len * 8 {
                // Past the end every bit reads as 0.
                if value == 0 {
                    assert(bit_at(self.data@, o as int) == 0);
                    assert(s <= o <= e);
                    return Some(o);
                } else {
                    return None;
                }
            }
            let b = self.getbit(o);
            if b == value {
                return Some(o);
            }
            if o == e {
                return None;
            }
            o = o + 1;
        }
    }

    /// Length of the bitmap in bytes.
    pub fn len_bytes(&self) -> (r: usize)
        ensures
            r == self.data@.len(),
    {
        self.data.len()
    }

    /// Whether no bit is set (which includes having no bytes).
    pub fn is_empty(&self) -> (r: bool)
        ensures
            r == forall|i: int| 0 <= i < self.data@.len() ==> self.data@[i] == 0,
    {
        let mut i: usize = 0;
        while i < self.data.len()
            invariant
                i <= self.data@.len(),
                forall|j: int| 0 <= j < i ==> self.data@[j] == 0,
            decreases self.data@.len() - i,
        {
            if self.data[i] != 0 {
                return false;
            }
            i = i + 1;
        }
        true
    }
}


/// What BITFIELD GET answers for a valid width: the field's value, the
/// bits past the last byte reading as 0.
pub open spec fn field_get(data: Seq<u8>, offset: int, width: nat, signed: bool) -> int {
    field_value(data, offset, width, signed)
}

/// `new` is `old` after writing the low `width` bits of `v` at `offset` in
/// BITFIELD order, the bytes grown with zeros to hold the field.
pub open spec fn field_written(old: Seq<u8>, new: Seq<u8>, offset: int, width: nat, v: u64) -> bool {
    &&& new.len() == if (offset + width - 1) / 8 < old.len() { old.len() as int } else { (offset + width - 1) / 8 + 1 }
    &&& forall|p: int| #[trigger] field_bit(new, p) == if offset <= p < offset + width {
            u64_bit(v, (p - offset) as nat)
        } else {
            field_bit(old, p)
        }
}

/// Overflow behaviour of BITFIELD INCRBY.
#[derive(Debug, Clone, Copy, PartialEq, Eq)]
pub enum BitfieldOverflow {
    /// Wrap around on overflow (the default).
    Wrap,
    /// Saturate at the field's minimum or maximum.
    Sat,
    /// Refuse the increment.
    Fail,
}

/// Saturation of an integer into the range of `i64`.
pub open spec fn sat_i64(x: int) -> int {
    if x > i64::MAX { i64::MAX as int } else if x < i64::MIN { i64::MIN as int } else { x }
}

/// The new value BITFIELD INCRBY computes from the field's `current`
/// value, or `None` when `Fail` refuses it. `Wrap` reduces the sum modulo
/// `2^width` into the field's range.
pub open spec fn incrby_value(current: int, increment: int, width: nat, signed: bool, overflow: BitfieldOverflow) -> Option<int> {
    let max = field_max(width, signed);
    let min = field_min(width, signed);
    match overflow {
        BitfieldOverflow::Wrap => Some(min + (current + increment - min) % (max - min + 1)),
        BitfieldOverflow::Sat => {
            let r = sat_i64(current + increment);
            Some(if r < min { min } else if r > max { max } else { r })
        },
        BitfieldOverflow::Fail => {
            let r = current + increment;
            if r > max || r < min { None } else { Some(r) }
        },
    }
}

/// The widths at which BITFIELD INCRBY can compute its range: every width
/// for which `2^width - 1` (unsigned) or `2^(width-1)` (signed) fits an `i64`.
pub open spec fn incr_width_ok(width: nat, signed: bool) -> bool {
    if signed { width <= 63 } else { width <= 62 }
}

/// The top bit of a field decides whether its number reaches half its range.
pub proof fn lemma_field_top_bit(data: Seq<u8>, offset: int, width: nat)
    requires
        width >= 1,
    ensures
        field_bits(data, offset, width) >= pow2((width - 1) as nat)
            <==> field_bit(data, offset + width - 1) == 1,
{
    lemma_field_bits_bound(data, offset, (width - 1) as nat);
    let p = offset + width - 1;
    if 0 <= p && p / 8 < data.len() {
        lemma_bit_is_01(data[p / 8], (p % 8) as u8);
    }
    let b = field_bit(data, p) as nat;
    if b == 1 {
        assert(b * pow2((width - 1) as nat) == pow2((width - 1) as nat));
    } else {
        assert(b * pow2((width - 1) as nat) == 0);
    }
}

/// `2^n` for `n < 64`.
fn pow2_u64(n: usize) -> (r: u64)
    requires
        n < 64,
    ensures
        r == pow2(n as nat),
{
    let mut r: u64 = 1;
    let mut i: usize = 0;
    proof {
        lemma2_to64();
    }
    while i < n
        invariant
            i <= n < 64,
            r == pow2(i as nat),
        decreases n - i,
    {
        proof {
            lemma_pow2_unfold((i + 1) as nat);
            lemma_pow2_strictly_increases((i + 1) as nat, 64);
            lemma2_to64();
        }
        r = r * 2;
        i = i + 1;
    }
    r
}

impl BitmapValue {
    /// BITFIELD GET: the integer of `width` bits at bit `offset`, read as
    /// signed or unsigned; bits past the last byte read as 0. A width
    /// outside `1..=64` is refused.
    pub fn bitfield_get(&self, offset: usize, width: usize, signed: bool) -> (r: Result<i64>)
        requires
            1 <= width <= 64 ==> offset + width - 1 <= usize::MAX
                && !field_get_panics(self.data@, offset as int, width as nat, signed),
        ensures
            (width == 0 || width > 64) ==> (r matches Err(SynapError::InvalidValue(m))
                && m@ == "Bit width must be between 1 and 64"@),
            1 <= width <= 64 ==> (r matches Ok(v)
                && v == field_get(self.data@, offset as int, width as nat, signed)),
    {
        if width == 0 || width > 64 {
            return Err(SynapError::InvalidValue(owned("Bit width must be between 1 and 64")));
        }
        let mut value: u64 = 0;
        let mut mult: u64 = 1;
        let mut i: usize = 0;
        proof {
            lemma2_to64();
            lemma2_to64_rest();
        }
        while i < width
            invariant
                i <= width <= 64,
                offset + width - 1 <= usize::MAX,
                i < width ==> mult == pow2(i as nat),
                value == field_bits(self.data@, offset as int, i as nat),
                value < pow2(i as nat),
                pow2(64) == 0x1_0000_0000_0000_0000,
            decreases width - i,
        {
            let bit_pos = offset + i;
            let byte_idx = bit_pos / 8;
            let bit = if byte_idx < self.data.len() {
                (self.data[byte_idx] >> ((bit_pos % 8) as u8)) & 1
            } else {
                0
            };
            proof {
                if byte_idx < self.data.len() {
                    lemma_bit_is_01(self.data@[byte_idx as int], (bit_pos % 8) as u8);
                }
                lemma_pow2_unfold((i + 1) as nat);
                assert(field_bit(self.data@, bit_pos as int) == bit);
                assert(bit == 0 || bit == 1);
                if bit == 1 {
                    assert(bit as nat * pow2(i as nat) == pow2(i as nat));
                } else {
                    assert(bit as nat * pow2(i as nat) == 0);
                }
                if i + 1 < 64 {
                    lemma_pow2_strictly_increases((i + 1) as nat, 64);
                }
            }
            value = value + (bit as u64) * mult;
            if i + 1 < width {
                mult = mult * 2;
            }
            i = i + 1;
        }
        proof {
            lemma_field_top_bit(self.data@, offset as int, width as nat);
        }
        if signed && width < 64 && value >= pow2_u64(width - 1) {
            let full = pow2_u64(width - 1) as i128 * 2;
            proof {
                lemma_pow2_unfold(width as nat);
                lemma_pow2_strictly_increases(width as nat, 64);
            }
            Ok((value as i128 - full) as i64)
        } else if value >= 0x8000_0000_0000_0000u64 {
            Ok((value as i128 - 0x1_0000_0000_0000_0000i128) as i64)
        } else {
            Ok(value as i64)
        }
    }

    /// BITFIELD SET: write the low `width` bits of `value` at bit `offset`,
    /// growing the bitmap as needed, and answer the field's previous value.
    /// A width outside `1..=64` is refused.
    pub fn bitfield_set(&mut self, offset: usize, width: usize, signed: bool, value: i64) -> (r: Result<i64>)
        requires
            1 <= width <= 64 ==> offset + width - 1 <= usize::MAX
                && !field_get_panics(old(self).data@, offset as int, width as nat, signed),
        ensures
            (width == 0 || width > 64) ==> (r matches Err(SynapError::InvalidValue(m))
                && m@ == "Bit width must be between 1 and 64"@
                && final(self).data@ == old(self).data@),
            1 <= width <= 64 ==> (r matches Ok(v)
                && v == field_get(old(self).data@, offset as int, width as nat, signed)
                && field_written(old(self).data@, final(self).data@, offset as int, width as nat, value as u64)
                && final(self).data@ == write_field(old(self).data@, offset as int, width as nat, value as u64)),
            final(self).ttl_secs == old(self).ttl_secs,
            final(self).created_at == old(self).created_at,
    {
        let old_value = self.bitfield_get(offset, width, signed);
        let old_value = match old_value {
            Ok(v) => v,
            Err(e) => return Err(e),
        };
        let end_byte = (offset + (width - 1)) / 8;
        grow_to(&mut self.data, end_byte + 1);
        self.updated_at = unix_time_secs();
        let ghost padded_data = self.data@;
        proof {
            assert forall|p: int| #[trigger] field_bit(padded_data, p) == field_bit(old(self).data@, p) by {
                lemma_padded_bits(old(self).data@, end_byte + 1, p);
            }
        }
        let v = value as u64;
        let mut i: usize = 0;
        while i < width
            invariant
                i <= width <= 64,
                offset + width - 1 <= usize::MAX,
                end_byte == (offset + width - 1) / 8,
                self.ttl_secs == old(self).ttl_secs,
                self.created_at == old(self).created_at,
                self.data@.len() == padded_data.len(),
                padded_data.len() > end_byte,
                forall|p: int| #[trigger] field_bit(padded_data, p) == field_bit(old(self).data@, p),
                forall|p: int| #[trigger] field_bit(self.data@, p) == if offset <= p < offset + i {
                    u64_bit(v, (p - offset) as nat)
                } else {
                    field_bit(padded_data, p)
                },
            decreases width - i,
        {
            let bit_pos = offset + i;
            let byte_idx = bit_pos / 8;
            let k = (bit_pos % 8) as u8;
            let bit = ((v >> (i as u64)) & 1) as u8;
            let b = self.data[byte_idx];
            let ghost before = self.data@;
            assert(((v >> (i as u64)) & 1u64) == 0u64 || ((v >> (i as u64)) & 1u64) == 1u64) by (bit_vector);
            if bit == 1 {
                self.data.set(byte_idx, b | (1u8 << k));
            } else {
                self.data.set(byte_idx, b & !(1u8 << k));
            }
            proof {
                assert forall|p: int| #[trigger] field_bit(self.data@, p) == if offset <= p < offset + i + 1 {
                    u64_bit(v, (p - offset) as nat)
                } else {
                    field_bit(padded_data, p)
                } by {
                    if 0 <= p && p / 8 == byte_idx {
                        lemma_byte_set_bit(b, k, (p % 8) as u8);
                        assert(field_bit(before, p) == (b >> ((p % 8) as u8)) & 1u8);
                    } else {
                        assert(field_bit(self.data@, p) == field_bit(before, p));
                    }
                }
            }
            i = i + 1;
        }
        proof {
            lemma_padded_bits(old(self).data@, end_byte + 1, 0);
            lemma_field_written_is_write_field(old(self).data@, self.data@, offset as int, width as nat, v);
        }
        Ok(old_value)
    }
}


/// The number formed by the low `k` bits of `v`.
pub open spec fn low_bits_sum(v: u64, k: nat) -> nat
    decreases k,
{
    if k == 0 {
        0
    } else {
        low_bits_sum(v, (k - 1) as nat) + u64_bit(v, (k - 1) as nat) as nat * pow2((k - 1) as nat)
    }
}

/// The low `k` bits of `v` form `v mod 2^k`.
pub proof fn lemma_low_bits_sum(v: u64, k: nat)
    requires
        k <= 64,
    ensures
        low_bits_sum(v, k) == v as nat % pow2(k),
    decreases k,
{
    if k == 0 {
        lemma2_to64();
    } else {
        let j = (k - 1) as nat;
        lemma_low_bits_sum(v, j);
        lemma_pow2_pos(j);
        lemma_pow2_unfold(k);
        vstd::bits::lemma_u64_shr_is_div(v, j as u64);
        let q = v >> (j as u64);
        assert(q & 1u64 == q % 2) by (bit_vector);
        assert(u64_bit(v, j) as nat == (v as nat / pow2(j)) % 2);
        vstd::arithmetic::div_mod::lemma_mod_breakdown(v as int, pow2(j) as int, 2);
        assert(pow2(j) * 2 == pow2(k));
        vstd::arithmetic::mul::lemma_mul_is_commutative(u64_bit(v, j) as int, pow2(j) as int);
    }
}

/// The field written with `v` holds the low `width` bits of `v`.
pub proof fn lemma_written_field_bits(old: Seq<u8>, new: Seq<u8>, offset: int, width: nat, v: u64, k: nat)
    requires
        field_written(old, new, offset, width, v),
        k <= width,
    ensures
        field_bits(new, offset, k) == low_bits_sum(v, k),
    decreases k,
{
    if k > 0 {
        lemma_written_field_bits(old, new, offset, width, v, (k - 1) as nat);
        assert(field_bit(new, offset + k - 1) == u64_bit(v, (k - 1) as nat));
    }
}

/// BITFIELD SET then GET with the same width: the field reads back the
/// low `width` bits of the value written, taken as signed or unsigned.
pub proof fn lemma_bitfield_set_get(old: Seq<u8>, new: Seq<u8>, offset: int, width: nat, signed: bool, value: i64)
    requires
        1 <= width <= 64,
        0 <= offset,
        field_written(old, new, offset, width, value as u64),
    ensures
        field_get(new, offset, width, signed)
            == field_number(((value as u64) as nat % pow2(width)) as int, width, signed),
{
    lemma_written_field_bits(old, new, offset, width, value as u64, width);
    lemma_low_bits_sum(value as u64, width);
}

/// BITFIELD SET then GET with the same width and signedness gives the
/// value back when it lies in the field's range.
pub proof fn lemma_bitfield_roundtrip(old: Seq<u8>, new: Seq<u8>, offset: int, width: nat, signed: bool, value: i64)
    requires
        1 <= width <= 64,
        0 <= offset,
        field_written(old, new, offset, width, value as u64),
        signed ==> field_min(width, signed) <= value <= field_max(width, signed),
        !signed ==> 0 <= value <= field_max(width, signed),
    ensures
        field_get(new, offset, width, signed) == value,
{
    lemma_bitfield_set_get(old, new, offset, width, signed, value);
    lemma2_to64();
    lemma2_to64_rest();
    lemma_pow2_pos(width);
    lemma_pow2_pos((width - 1) as nat);
    if width < 64 {
        lemma_pow2_unfold(width);
    }
    let u = (value as u64) as nat;
    if value >= 0 {
        assert(u == value);
        if width < 64 {
            lemma_pow2_strictly_increases(width, 64);
        }
        vstd::arithmetic::div_mod::lemma_small_mod(u, pow2(width));
        if width == 64 {
            assert(pow2(64) == 2 * pow2(63)) by { lemma_pow2_unfold(64); }
        } else {
            lemma_pow2_strictly_increases((width - 1) as nat, 63);
        }
    } else {
        // signed and negative: the bits are those of value + 2^width
        assert((value as u64) as int == value + 0x1_0000_0000_0000_0000) by (bit_vector)
            requires value < 0;
        assert(u == value + pow2(64));
        let m = pow2(width);
        lemma_pow2_adds(width, (64 - width) as nat);
        assert(pow2(64) == m * pow2((64 - width) as nat));
        vstd::arithmetic::div_mod::lemma_mod_multiples_vanish(pow2((64 - width) as nat) as int - 1, value + m, m as int);
        vstd::arithmetic::mul::lemma_mul_is_distributive_sub(m as int, pow2((64 - width) as nat) as int, 1);
        assert(value + m >= 0);
        assert(value + m < m);
        vstd::arithmetic::div_mod::lemma_small_mod((value + m) as nat, m);
        assert(u as int % m as int == value + m);
    }
}

impl BitmapValue {
    /// BITFIELD INCRBY: add `increment` to the field of `width` bits at
    /// `offset`, handle overflow as `overflow` asks, store the result and
    /// answer it. A width outside `1..=64` is refused, and so is an overflow
    /// under `Fail`.
    pub fn bitfield_incrby(
        &mut self,
        offset: usize,
        width: usize,
        signed: bool,
        increment: i64,
        overflow: BitfieldOverflow,
    ) -> (r: Result<i64>)
        requires
            1 <= width <= 64 ==> offset + width - 1 <= usize::MAX && incr_width_ok(width as nat, signed),
            1 <= width <= 64 && overflow == BitfieldOverflow::Fail ==> i64::MIN
                <= field_get(old(self).data@, offset as int, width as nat, signed) + increment <= i64::MAX,
        ensures
            (width == 0 || width > 64) ==> (r matches Err(SynapError::InvalidValue(m))
                && m@ == "Bit width must be between 1 and 64"@
                && final(self).data@ == old(self).data@),
            1 <= width <= 64 ==> ({
                let current = field_get(old(self).data@, offset as int, width as nat, signed);
                match incrby_value(current, increment as int, width as nat, signed, overflow) {
                    Some(nv) => r matches Ok(v) && v == nv
                        && field_written(old(self).data@, final(self).data@, offset as int, width as nat, v as u64)
                        && final(self).data@ == write_field(old(self).data@, offset as int, width as nat, v as u64)
                        && field_get(final(self).data@, offset as int, width as nat, signed) == v,
                    None => r matches Err(SynapError::InvalidValue(m))
                        && m@ == "Overflow: value "@ + crate::text::decimal_text(current + increment)
                            + " would exceed range ["@ + crate::text::decimal_text(field_min(width as nat, signed))
                            + ", "@ + crate::text::decimal_text(field_max(width as nat, signed)) + "]"@
                        && final(self).data@ == old(self).data@,
                }
            }),
            final(self).ttl_secs == old(self).ttl_secs,
            final(self).created_at == old(self).created_at,
    {
        let current = match self.bitfield_get(offset, width, signed) {
            Ok(v) => v,
            Err(e) => return Err(e),
        };
        proof {
            lemma_field_get_range(self.data@, offset as int, width as nat, signed);
            lemma2_to64();
            lemma2_to64_rest();
        }
        let min_value: i64;
        let max_value: i64;
        if signed {
            let h = pow2_u64(width - 1);
            proof {
                lemma_pow2_strictly_increases((width - 1) as nat, 63);
            }
            min_value = -(h as i64);
            max_value = h as i64 - 1;
        } else {
            let f = pow2_u64(width);
            proof {
                lemma_pow2_strictly_increases(width as nat, 63);
                lemma_pow2_pos(width as nat);
            }
            min_value = 0;
            max_value = (f - 1) as i64;
        }
        let new_value: i64 = match overflow {
            BitfieldOverflow::Wrap => {
                // The sum, shifted by 2^64 (a multiple of the span) to be
                // nonnegative, then reduced modulo the span 2^width.
                let span: u128 = (max_value as i128 - min_value as i128 + 1) as u128;
                let t: i128 = current as i128 + increment as i128;
                let a: u128 = (t - min_value as i128 + 0x1_0000_0000_0000_0000i128) as u128;
                let red: u128 = a % span;
                proof {
                    lemma_wrap_reduction(current as int, increment as int, min_value as int, max_value as int, width as nat, signed);
                }
                (min_value as i128 + red as i128) as i64
            },
            BitfieldOverflow::Sat => {
                let result = match current.checked_add(increment) {
                    Some(x) => x,
                    None => if increment > 0 { i64::MAX } else { i64::MIN },
                };
                if result < min_value {
                    min_value
                } else if result > max_value {
                    max_value
                } else {
                    result
                }
            },
            BitfieldOverflow::Fail => {
                let result = current + increment;
                if result > max_value || result < min_value {
                    let a = crate::text::concat("Overflow: value ", crate::text::i64_text(result).as_str());
                    let b = crate::text::concat(a.as_str(), " would exceed range [");
                    let c = crate::text::concat(b.as_str(), crate::text::i64_text(min_value).as_str());
                    let d = crate::text::concat(c.as_str(), ", ");
                    let e = crate::text::concat(d.as_str(), crate::text::i64_text(max_value).as_str());
                    let f = crate::text::concat(e.as_str(), "]");
                    return Err(SynapError::InvalidValue(f));
                }
                result
            },
        };
        match self.bitfield_set(offset, width, signed, new_value) {
            Ok(_) => {},
            Err(e) => return Err(e),
        }
        proof {
            lemma_bitfield_roundtrip(old(self).data@, self.data@, offset as int, width as nat, signed, new_value);
        }
        Ok(new_value)
    }
}

/// The arithmetic behind BITFIELD INCRBY's wrap: the field's span is
/// `2^width`, and shifting the sum by `2^64` keeps it nonnegative without
/// changing its remainder modulo the span.
pub proof fn lemma_wrap_reduction(current: int, increment: int, min: int, max: int, width: nat, signed: bool)
    requires
        1 <= width <= 64,
        incr_width_ok(width, signed),
        min == field_min(width, signed),
        max == field_max(width, signed),
        min <= current <= max,
        i64::MIN <= increment <= i64::MAX,
    ensures
        max - min + 1 == pow2(width),
        0 < pow2(width) <= pow2(63),
        pow2(63) == 0x8000_0000_0000_0000,
        0 <= current + increment - min + 0x1_0000_0000_0000_0000 <= 0x3_0000_0000_0000_0000,
        (current + increment - min + 0x1_0000_0000_0000_0000) % (pow2(width) as int)
            == (current + increment - min) % (pow2(width) as int),
{
    lemma2_to64();
    lemma2_to64_rest();
    lemma_pow2_pos(width);
    lemma_pow2_pos((width - 1) as nat);
    lemma_pow2_unfold(width);
    lemma_pow2_strictly_increases((width - 1) as nat, 63);
    if width < 63 {
        lemma_pow2_strictly_increases(width, 63);
    }
    let m = pow2(width);
    lemma_pow2_adds(width, (64 - width) as nat);
    assert(pow2(64) == m * pow2((64 - width) as nat));
    vstd::arithmetic::div_mod::lemma_mod_multiples_vanish(pow2((64 - width) as nat) as int,
        current + increment - min, m as int);
}

/// The value BITFIELD GET answers lies in the field's range.
pub proof fn lemma_field_get_range(data: Seq<u8>, offset: int, width: nat, signed: bool)
    requires
        1 <= width <= 64,
        incr_width_ok(width, signed),
    ensures
        field_min(width, signed) <= field_get(data, offset, width, signed) <= field_max(width, signed),
{
    lemma_field_bits_bound(data, offset, width);
    lemma2_to64();
    lemma2_to64_rest();
    lemma_pow2_pos((width - 1) as nat);
    lemma_pow2_unfold(width);
    if width < 64 {
        lemma_pow2_strictly_increases(width, 64);
    }
    if width < 63 {
        lemma_pow2_strictly_increases(width, 63);
    }
}


/// Bit `j` of byte `i` after writing the low `width` bits of `v` at
/// `offset` (BITFIELD order) into a byte that held `ob`.
pub open spec fn new_bit(ob: u8, i: int, j: int, offset: int, width: nat, v: u64) -> u8 {
    let pos = 8 * i + j;
    if offset <= pos < offset + width {
        u64_bit(v, (pos - offset) as nat)
    } else {
        (ob >> (j as u8)) & 1u8
    }
}

/// The byte whose bits, least significant first, are `c0` to `c7`.
pub open spec fn byte_of_bits(c0: u8, c1: u8, c2: u8, c3: u8, c4: u8, c5: u8, c6: u8, c7: u8) -> u8 {
    c0 | (c1 << 1u8) | (c2 << 2u8) | (c3 << 3u8) | (c4 << 4u8) | (c5 << 5u8) | (c6 << 6u8) | (c7 << 7u8)
}

/// Byte `i` after writing the field.
pub open spec fn rebuilt_byte(ob: u8, i: int, offset: int, width: nat, v: u64) -> u8 {
    byte_of_bits(
        new_bit(ob, i, 0, offset, width, v),
        new_bit(ob, i, 1, offset, width, v),
        new_bit(ob, i, 2, offset, width, v),
        new_bit(ob, i, 3, offset, width, v),
        new_bit(ob, i, 4, offset, width, v),
        new_bit(ob, i, 5, offset, width, v),
        new_bit(ob, i, 6, offset, width, v),
        new_bit(ob, i, 7, offset, width, v),
    )
}

/// The bytes after BITFIELD SET writes the low `width` bits of `v` at
/// `offset`, grown with zeros to hold the field.
pub open spec fn write_field(data: Seq<u8>, offset: int, width: nat, v: u64) -> Seq<u8> {
    let p = padded(data, (offset + width - 1) / 8 + 1);
    Seq::new(p.len(), |i: int| rebuilt_byte(p[i], i, offset, width, v))
}

proof fn lemma_byte_of_bits(c0: u8, c1: u8, c2: u8, c3: u8, c4: u8, c5: u8, c6: u8, c7: u8, k: u8)
    requires
        c0 <= 1, c1 <= 1, c2 <= 1, c3 <= 1, c4 <= 1, c5 <= 1, c6 <= 1, c7 <= 1,
        k < 8,
    ensures
        (byte_of_bits(c0, c1, c2, c3, c4, c5, c6, c7) >> k) & 1u8 == if k == 0 { c0 } else if k == 1 { c1 }
            else if k == 2 { c2 } else if k == 3 { c3 } else if k == 4 { c4 } else if k == 5 { c5 }
            else if k == 6 { c6 } else { c7 },
{
    assert(((c0 | (c1 << 1u8) | (c2 << 2u8) | (c3 << 3u8) | (c4 << 4u8) | (c5 << 5u8) | (c6 << 6u8) | (c7 << 7u8)) >> k) & 1u8
        == if k == 0 { c0 } else if k == 1 { c1 } else if k == 2 { c2 } else if k == 3 { c3 }
            else if k == 4 { c4 } else if k == 5 { c5 } else if k == 6 { c6 } else { c7 }) by (bit_vector)
        requires
            c0 <= 1, c1 <= 1, c2 <= 1, c3 <= 1, c4 <= 1, c5 <= 1, c6 <= 1, c7 <= 1,
            k < 8;
}

proof fn lemma_bytes_equal_by_bits(a: u8, b: u8)
    requires
        forall|k: u8| k < 8 ==> #[trigger] ((a >> k) & 1u8) == (b >> k) & 1u8,
    ensures
        a == b,
{
    assert((a >> 0u8) & 1u8 == (b >> 0u8) & 1u8);
    assert((a >> 1u8) & 1u8 == (b >> 1u8) & 1u8);
    assert((a >> 2u8) & 1u8 == (b >> 2u8) & 1u8);
    assert((a >> 3u8) & 1u8 == (b >> 3u8) & 1u8);
    assert((a >> 4u8) & 1u8 == (b >> 4u8) & 1u8);
    assert((a >> 5u8) & 1u8 == (b >> 5u8) & 1u8);
    assert((a >> 6u8) & 1u8 == (b >> 6u8) & 1u8);
    assert((a >> 7u8) & 1u8 == (b >> 7u8) & 1u8);
    assert(a == b) by (bit_vector)
        requires
            (a >> 0u8) & 1u8 == (b >> 0u8) & 1u8,
            (a >> 1u8) & 1u8 == (b >> 1u8) & 1u8,
            (a >> 2u8) & 1u8 == (b >> 2u8) & 1u8,
            (a >> 3u8) & 1u8 == (b >> 3u8) & 1u8,
            (a >> 4u8) & 1u8 == (b >> 4u8) & 1u8,
            (a >> 5u8) & 1u8 == (b >> 5u8) & 1u8,
            (a >> 6u8) & 1u8 == (b >> 6u8) & 1u8,
            (a >> 7u8) & 1u8 == (b >> 7u8) & 1u8;
}

proof fn lemma_u64_bit_01(v: u64, i: nat)
    ensures
        u64_bit(v, i) <= 1,
{
    let x = v >> (i as u64);
    assert(x & 1u64 <= 1) by (bit_vector);
}

/// The bits of `write_field`: the field's bits from `v`, the others kept.
pub proof fn lemma_write_field_bit(data: Seq<u8>, offset: int, width: nat, v: u64, p: int)
    requires
        0 <= offset,
        width >= 1,
    ensures
        field_bit(write_field(data, offset, width, v), p) == if offset <= p < offset + width {
            u64_bit(v, (p - offset) as nat)
        } else {
            field_bit(data, p)
        },
        write_field(data, offset, width, v).len() == padded(data, (offset + width - 1) / 8 + 1).len(),
{
    let n = (offset + width - 1) / 8 + 1;
    let pd = padded(data, n);
    let w = write_field(data, offset, width, v);
    lemma_padded_bits(data, n, p);
    if 0 <= p && p / 8 < w.len() {
        let i = p / 8;
        let ob = pd[i];
        let k = (p % 8) as u8;
        lemma_bit_is_01(ob, 0); lemma_bit_is_01(ob, 1); lemma_bit_is_01(ob, 2); lemma_bit_is_01(ob, 3);
        lemma_bit_is_01(ob, 4); lemma_bit_is_01(ob, 5); lemma_bit_is_01(ob, 6); lemma_bit_is_01(ob, 7);
        lemma_u64_bit_01(v, (8 * i - offset) as nat);
        lemma_u64_bit_01(v, (8 * i + 1 - offset) as nat);
        lemma_u64_bit_01(v, (8 * i + 2 - offset) as nat);
        lemma_u64_bit_01(v, (8 * i + 3 - offset) as nat);
        lemma_u64_bit_01(v, (8 * i + 4 - offset) as nat);
        lemma_u64_bit_01(v, (8 * i + 5 - offset) as nat);
        lemma_u64_bit_01(v, (8 * i + 6 - offset) as nat);
        lemma_u64_bit_01(v, (8 * i + 7 - offset) as nat);
        lemma_byte_of_bits(
            new_bit(ob, i, 0, offset, width, v),
            new_bit(ob, i, 1, offset, width, v),
            new_bit(ob, i, 2, offset, width, v),
            new_bit(ob, i, 3, offset, width, v),
            new_bit(ob, i, 4, offset, width, v),
            new_bit(ob, i, 5, offset, width, v),
            new_bit(ob, i, 6, offset, width, v),
            new_bit(ob, i, 7, offset, width, v),
            k,
        );
        assert(w[i] == rebuilt_byte(ob, i, offset, width, v));
        assert(p == 8 * i + k);
    } else {
        // past the end both read as 0; the field lies inside the padded bytes
        assert(!(offset <= p < offset + width));
    }
}

/// `field_written` describes exactly the bytes of `write_field`.
pub proof fn lemma_field_written_is_write_field(old: Seq<u8>, new: Seq<u8>, offset: int, width: nat, v: u64)
    requires
        0 <= offset,
        width >= 1,
        field_written(old, new, offset, width, v),
    ensures
        new == write_field(old, offset, width, v),
{
    let w = write_field(old, offset, width, v);
    lemma_padded_bits(old, (offset + width - 1) / 8 + 1, 0);
    lemma_write_field_bit(old, offset, width, v, 0);
    assert forall|i: int| 0 <= i < new.len() implies new[i] == w[i] by {
        assert forall|k: u8| k < 8 implies #[trigger] ((new[i] >> k) & 1u8) == (w[i] >> k) & 1u8 by {
            let p = 8 * i + k;
            lemma_write_field_bit(old, offset, width, v, p);
            assert(p / 8 == i && p % 8 == k);
            assert(field_bit(new, p) == (new[i] >> k) & 1u8);
            assert(field_bit(w, p) == (w[i] >> k) & 1u8);
        }
        lemma_bytes_equal_by_bits(new[i], w[i]);
    }
    assert(new =~= w);
}

/// Grow `v` with zero bytes to at least `n` bytes.
fn grow_to(v: &mut Vec<u8>, n: usize)
    ensures
        final(v)@ == padded(old(v)@, n as int),
{
    let ghost start = v@;
    while v.len() < n
        invariant
            start.len() <= v@.len(),
            v@.len() <= if n <= start.len() { start.len() as int } else { n as int },
            v@.subrange(0, start.len() as int) == start,
            forall|i: int| start.len() <= i < v@.len() ==> v@[i] == 0,
        decreases n - v@.len(),
    {
        v.push(0);
    }
    assert(v@ =~= padded(start, n as int));
}

} // verus!

verus! {

// ---------------------------------------------------------------------------
// Operation kinds and their parsing
// ---------------------------------------------------------------------------

impl Default for BitmapValue {
    /// An empty bitmap without time to live.
    fn default() -> (r: Self)
        ensures
            r.data@.len() == 0,
            r.ttl_secs is None,
    {
        BitmapValue::new(None)
    }
}

/// BITOP operations.
#[derive(Debug, Clone, Copy, PartialEq, Eq)]
pub enum BitmapOperation {
    And,
    Or,
    Xor,
    Not,
}

/// Kind of a BITFIELD operation, as reported in its result.
#[derive(Debug, Clone, Copy, PartialEq, Eq)]
pub enum BitfieldOp {
    Get,
    /// Writing a field (SET).
    SetBits,
    IncrBy,
}

/// Result of one BITFIELD operation.
#[derive(Debug, Clone)]
pub struct BitfieldResult {
    pub operation: BitfieldOp,
    pub value: i64,
}

/// One BITFIELD operation.
#[derive(Debug, Clone)]
pub enum BitfieldOperation {
    /// Read the field.
    Get { offset: usize, width: usize, signed: bool },
    /// Write the field (SET).
    SetBits { offset: usize, width: usize, signed: bool, value: i64 },
    /// Add to the field.
    IncrBy { offset: usize, width: usize, signed: bool, increment: i64, overflow: BitfieldOverflow },
}

/// Parse a BITOP operation name, given its uppercase form.
pub fn bitmap_operation_from_upper(s: &str, upper: &str) -> (r: Result<BitmapOperation>)
    ensures
        upper@ == "AND"@ ==> r matches Ok(BitmapOperation::And),
        upper@ == "OR"@ ==> r matches Ok(BitmapOperation::Or),
        upper@ == "XOR"@ ==> r matches Ok(BitmapOperation::Xor),
        upper@ == "NOT"@ ==> r matches Ok(BitmapOperation::Not),
        upper@ != "AND"@ && upper@ != "OR"@ && upper@ != "XOR"@ && upper@ != "NOT"@ ==>
            (r matches Err(SynapError::InvalidRequest(m)) && m@ == "Invalid bitmap operation: "@ + s@),
{
    proof {
        reveal_strlit("AND");
        reveal_strlit("OR");
        reveal_strlit("XOR");
        reveal_strlit("NOT");
        assert("AND"@ != "OR"@ && "AND"@ != "XOR"@ && "AND"@ != "NOT"@ && "OR"@ != "XOR"@
            && "OR"@ != "NOT"@ && "XOR"@ != "NOT"@) by {
            assert("AND"@.len() == 3 && "OR"@.len() == 2 && "XOR"@.len() == 3 && "NOT"@.len() == 3);
            assert("AND"@[0] != "XOR"@[0] && "AND"@[0] != "NOT"@[0] && "XOR"@[0] != "NOT"@[0]);
        }
    }
    if crate::text::same_text(upper, "AND") {
        Ok(BitmapOperation::And)
    } else if crate::text::same_text(upper, "OR") {
        Ok(BitmapOperation::Or)
    } else if crate::text::same_text(upper, "XOR") {
        Ok(BitmapOperation::Xor)
    } else if crate::text::same_text(upper, "NOT") {
        Ok(BitmapOperation::Not)
    } else {
        Err(SynapError::InvalidRequest(crate::text::concat("Invalid bitmap operation: ", s)))
    }
}

/// Parse a BITOP operation name, in any letter case.
pub fn parse_bitmap_operation(s: &str) -> (r: Result<BitmapOperation>)
    ensures
        ({
            let u = crate::text::uppercase_text(s@);
            &&& u == "AND"@ ==> (r matches Ok(BitmapOperation::And))
            &&& u == "OR"@ ==> (r matches Ok(BitmapOperation::Or))
            &&& u == "XOR"@ ==> (r matches Ok(BitmapOperation::Xor))
            &&& u == "NOT"@ ==> (r matches Ok(BitmapOperation::Not))
            &&& u != "AND"@ && u != "OR"@ && u != "XOR"@ && u != "NOT"@ ==>
                (r matches Err(SynapError::InvalidRequest(m)) && m@ == "Invalid bitmap operation: "@ + s@)
        }),
{
    let upper = crate::text::to_uppercase(s);
    bitmap_operation_from_upper(s, upper.as_str())
}

impl std::str::FromStr for BitmapOperation {
    type Err = SynapError;

    fn from_str(s: &str) -> std::result::Result<Self, Self::Err> {
        parse_bitmap_operation(s)
    }
}

/// Parse an overflow behaviour name, given its uppercase form.
pub fn bitfield_overflow_from_upper(s: &str, upper: &str) -> (r: Result<BitfieldOverflow>)
    ensures
        upper@ == "WRAP"@ ==> r matches Ok(BitfieldOverflow::Wrap),
        upper@ == "SAT"@ ==> r matches Ok(BitfieldOverflow::Sat),
        upper@ == "FAIL"@ ==> r matches Ok(BitfieldOverflow::Fail),
        upper@ != "WRAP"@ && upper@ != "SAT"@ && upper@ != "FAIL"@ ==>
            (r matches Err(SynapError::InvalidRequest(m)) && m@ == "Invalid overflow behavior: "@ + s@),
{
    proof {
        reveal_strlit("WRAP");
        reveal_strlit("SAT");
        reveal_strlit("FAIL");
        assert("WRAP"@ != "SAT"@ && "WRAP"@ != "FAIL"@ && "SAT"@ != "FAIL"@) by {
            assert("WRAP"@.len() == 4 && "SAT"@.len() == 3 && "FAIL"@.len() == 4);
            assert("WRAP"@[0] != "FAIL"@[0]);
        }
    }
    if crate::text::same_text(upper, "WRAP") {
        Ok(BitfieldOverflow::Wrap)
    } else if crate::text::same_text(upper, "SAT") {
        Ok(BitfieldOverflow::Sat)
    } else if crate::text::same_text(upper, "FAIL") {
        Ok(BitfieldOverflow::Fail)
    } else {
        Err(SynapError::InvalidRequest(crate::text::concat("Invalid overflow behavior: ", s)))
    }
}

/// Parse an overflow behaviour name, in any letter case.
pub fn parse_bitfield_overflow(s: &str) -> (r: Result<BitfieldOverflow>)
    ensures
        ({
            let u = crate::text::uppercase_text(s@);
            &&& u == "WRAP"@ ==> (r matches Ok(BitfieldOverflow::Wrap))
            &&& u == "SAT"@ ==> (r matches Ok(BitfieldOverflow::Sat))
            &&& u == "FAIL"@ ==> (r matches Ok(BitfieldOverflow::Fail))
            &&& u != "WRAP"@ && u != "SAT"@ && u != "FAIL"@ ==>
                (r matches Err(SynapError::InvalidRequest(m)) && m@ == "Invalid overflow behavior: "@ + s@)
        }),
{
    let upper = crate::text::to_uppercase(s);
    bitfield_overflow_from_upper(s, upper.as_str())
}

impl std::str::FromStr for BitfieldOverflow {
    type Err = SynapError;

    fn from_str(s: &str) -> std::result::Result<Self, Self::Err> {
        parse_bitfield_overflow(s)
    }
}

impl Default for BitfieldOverflow {
    /// Wrapping is the default overflow behaviour.
    fn default() -> (r: Self)
        ensures
            r == BitfieldOverflow::Wrap,
    {
        BitfieldOverflow::Wrap
    }
}

} // verus!

verus! {

// ---------------------------------------------------------------------------
// BITOP on byte vectors
// ---------------------------------------------------------------------------

/// The bytes of each bitmap.
pub open spec fn byte_views(b: Seq<Vec<u8>>) -> Seq<Seq<u8>> {
    b.map_values(|v: Vec<u8>| v@)
}

/// Byte `i` of the AND of the first `n` bitmaps: every bitmap long
/// enough to have byte `i` is ANDed in, starting from all ones.
pub open spec fn and_byte(bms: Seq<Seq<u8>>, n: int, i: int) -> u8
    decreases n,
{
    if n <= 0 {
        0xFFu8
    } else if i < bms[n - 1].len() {
        and_byte(bms, n - 1, i) & bms[n - 1][i]
    } else {
        and_byte(bms, n - 1, i)
    }
}

/// Byte `i` of the OR of the first `n` bitmaps.
pub open spec fn or_byte(bms: Seq<Seq<u8>>, n: int, i: int) -> u8
    decreases n,
{
    if n <= 0 {
        0u8
    } else if i < bms[n - 1].len() {
        or_byte(bms, n - 1, i) | bms[n - 1][i]
    } else {
        or_byte(bms, n - 1, i)
    }
}

/// Byte `i` of the XOR of the first `n` bitmaps.
pub open spec fn xor_byte(bms: Seq<Seq<u8>>, n: int, i: int) -> u8
    decreases n,
{
    if n <= 0 {
        0u8
    } else if i < bms[n - 1].len() {
        xor_byte(bms, n - 1, i) ^ bms[n - 1][i]
    } else {
        xor_byte(bms, n - 1, i)
    }
}

/// The length of the longest of the first `n` bitmaps.
pub open spec fn longest(bms: Seq<Seq<u8>>, n: int) -> nat
    decreases n,
{
    if n <= 0 {
        0
    } else if bms[n - 1].len() > longest(bms, n - 1) {
        bms[n - 1].len()
    } else {
        longest(bms, n - 1)
    }
}

/// The bytes BITOP produces from the source bitmaps `bms`, `len` bytes
/// long where the operation uses a fixed length.
pub open spec fn bitop_bytes(op: BitmapOperation, bms: Seq<Seq<u8>>, len: nat) -> Seq<u8> {
    match op {
        BitmapOperation::And => Seq::new(len, |i: int| and_byte(bms, bms.len() as int, i)),
        BitmapOperation::Or => Seq::new(len, |i: int| or_byte(bms, bms.len() as int, i)),
        BitmapOperation::Xor => if bms.len() == 0 {
            Seq::new(len, |i: int| 0u8)
        } else {
            Seq::new(longest(bms, bms.len() as int), |i: int| xor_byte(bms, bms.len() as int, i))
        },
        BitmapOperation::Not => Seq::new(len, |i: int| if i < bms[0].len() { !bms[0][i] } else { 0u8 }),
    }
}

/// A fresh vector of `n` copies of `b`.
fn filled(n: usize, b: u8) -> (r: Vec<u8>)
    ensures
        r@ == Seq::new(n as nat, |i: int| b),
{
    let mut r: Vec<u8> = Vec::new();
    while r.len() < n
        invariant
            r@.len() <= n,
            forall|i: int| 0 <= i < r@.len() ==> r@[i] == b,
        decreases n - r@.len(),
    {
        r.push(b);
    }
    assert(r@ =~= Seq::new(n as nat, |i: int| b));
    r
}

/// A copy of the bytes of `v`.
fn copy_bytes(v: &Vec<u8>) -> (r: Vec<u8>)
    ensures
        r@ == v@,
{
    let mut r: Vec<u8> = Vec::new();
    let mut i: usize = 0;
    while i < v.len()
        invariant
            i <= v@.len(),
            r@ == v@.subrange(0, i as int),
        decreases v@.len() - i,
    {
        r.push(v[i]);
        i = i + 1;
    }
    assert(r@ =~= v@);
    r
}

/// BITOP AND of the bitmaps into `max_len` bytes.
fn bitop_and(bitmaps: &[Vec<u8>], max_len: usize) -> (r: Vec<u8>)
    ensures
        r@ == bitop_bytes(BitmapOperation::And, byte_views(bitmaps@), max_len as nat),
{
    let ghost bms = byte_views(bitmaps@);
    let mut result = filled(max_len, 0xFF);
    let mut k: usize = 0;
    while k < bitmaps.len()
        invariant
            k <= bitmaps@.len(),
            bms == byte_views(bitmaps@),
            result@.len() == max_len,
            forall|i: int| 0 <= i < max_len ==> result@[i] == and_byte(bms, k as int, i),
        decreases bitmaps@.len() - k,
    {
        let bitmap = &bitmaps[k];
        let mut j: usize = 0;
        while j < bitmap.len()
            invariant
                k < bitmaps@.len(),
                j <= bitmap@.len(),
                *bitmap == bitmaps@[k as int],
                bms == byte_views(bitmaps@),
                result@.len() == max_len,
                forall|i: int| 0 <= i < max_len ==> result@[i] == if i < j && i < bitmap@.len() {
                    and_byte(bms, k as int, i) & bitmap@[i]
                } else {
                    and_byte(bms, k as int, i)
                },
            decreases bitmap@.len() - j,
        {
            if j < result.len() {
                let b = result[j] & bitmap[j];
                result.set(j, b);
            }
            j = j + 1;
        }
        k = k + 1;
    }
    assert(result@ =~= bitop_bytes(BitmapOperation::And, bms, max_len as nat));
    result
}

/// BITOP OR of the bitmaps into `max_len` bytes.
fn bitop_or(bitmaps: &[Vec<u8>], max_len: usize) -> (r: Vec<u8>)
    ensures
        r@ == bitop_bytes(BitmapOperation::Or, byte_views(bitmaps@), max_len as nat),
{
    let ghost bms = byte_views(bitmaps@);
    let mut result = filled(max_len, 0);
    let mut k: usize = 0;
    while k < bitmaps.len()
        invariant
            k <= bitmaps@.len(),
            bms == byte_views(bitmaps@),
            result@.len() == max_len,
            forall|i: int| 0 <= i < max_len ==> result@[i] == or_byte(bms, k as int, i),
        decreases bitmaps@.len() - k,
    {
        let bitmap = &bitmaps[k];
        let mut j: usize = 0;
        while j < bitmap.len()
            invariant
                k < bitmaps@.len(),
                j <= bitmap@.len(),
                *bitmap == bitmaps@[k as int],
                bms == byte_views(bitmaps@),
                result@.len() == max_len,
                forall|i: int| 0 <= i < max_len ==> result@[i] == if i < j && i < bitmap@.len() {
                    or_byte(bms, k as int, i) | bitmap@[i]
                } else {
                    or_byte(bms, k as int, i)
                },
            decreases bitmap@.len() - j,
        {
            if j < result.len() {
                let b = result[j] | bitmap[j];
                result.set(j, b);
            }
            j = j + 1;
        }
        k = k + 1;
    }
    assert(result@ =~= bitop_bytes(BitmapOperation::Or, bms, max_len as nat));
    result
}

/// BITOP XOR of the bitmaps; as long as the longest of them.
fn bitop_xor(bitmaps: &[Vec<u8>], max_len: usize) -> (r: Vec<u8>)
    ensures
        r@ == bitop_bytes(BitmapOperation::Xor, byte_views(bitmaps@), max_len as nat),
{
    let ghost bms = byte_views(bitmaps@);
    if bitmaps.len() == 0 {
        let r = filled(max_len, 0);
        return r;
    }
    let mut result = copy_bytes(&bitmaps[0]);
    proof {
        assert(bms[0] == bitmaps@[0]@);
        assert(longest(bms, 0) == 0);
        assert(longest(bms, 1) == bms[0].len());
        assert forall|i: int| 0 <= i < result@.len() implies result@[i] == xor_byte(bms, 1, i) by {
            assert(xor_byte(bms, 0, i) == 0u8);
            let x = result@[i];
            assert(0u8 ^ x == x) by (bit_vector);
        }
    }
    let mut k: usize = 1;
    while k < bitmaps.len()
        invariant
            1 <= k <= bitmaps@.len(),
            bms == byte_views(bitmaps@),
            result@.len() == longest(bms, k as int),
            forall|i: int| 0 <= i < result@.len() ==> result@[i] == xor_byte(bms, k as int, i),
        decreases bitmaps@.len() - k,
    {
        let bitmap = &bitmaps[k];
        let ghost before = result@;
        let mut j: usize = 0;
        while j < bitmap.len()
            invariant
                1 <= k < bitmaps@.len(),
                j <= bitmap@.len(),
                *bitmap == bitmaps@[k as int],
                bms == byte_views(bitmaps@),
                before.len() == longest(bms, k as int),
                forall|i: int| 0 <= i < before.len() ==> before[i] == xor_byte(bms, k as int, i),
                result@.len() == if j > before.len() { j as int } else { before.len() as int },
                forall|i: int| 0 <= i < result@.len() ==> result@[i] == if i < j && i < bitmap@.len() {
                    (if i < before.len() { before[i] } else { 0u8 }) ^ bitmap@[i]
                } else {
                    before[i]
                },
            decreases bitmap@.len() - j,
        {
            if j < result.len() {
                let b = result[j] ^ bitmap[j];
                result.set(j, b);
            } else {
                proof {
                    let x = bitmap@[j as int];
                    assert(0u8 ^ x == x) by (bit_vector);
                }
                result.push(bitmap[j]);
            }
            j = j + 1;
        }
        proof {
            assert forall|i: int| 0 <= i < result@.len() implies result@[i] == xor_byte(bms, k + 1, i) by {
                if i >= before.len() {
                    // a byte only this bitmap has: every earlier bitmap is shorter
                    lemma_xor_past_longest(bms, k as int, i);
                }
            }
        }
        k = k + 1;
    }
    assert(result@ =~= bitop_bytes(BitmapOperation::Xor, bms, max_len as nat));
    result
}

proof fn lemma_xor_past_longest(bms: Seq<Seq<u8>>, n: int, i: int)
    requires
        i >= longest(bms, n),
    ensures
        xor_byte(bms, n, i) == 0u8,
    decreases n,
{
    if n > 0 {
        lemma_xor_past_longest(bms, n - 1, i);
    }
}

/// BITOP NOT of one bitmap into `max_len` bytes.
fn bitop_not(bitmap: &[u8], max_len: usize) -> (r: Vec<u8>)
    ensures
        r@ == Seq::new(max_len as nat, |i: int| if i < bitmap@.len() { !bitmap@[i] } else { 0u8 }),
{
    let mut result = filled(max_len, 0);
    let mut i: usize = 0;
    while i < bitmap.len()
        invariant
            i <= bitmap@.len(),
            result@.len() == max_len,
            forall|j: int| 0 <= j < max_len ==> result@[j] == if j < i && j < bitmap@.len() { !bitmap@[j] } else { 0u8 },
        decreases bitmap@.len() - i,
    {
        if i < result.len() {
            result.set(i, !bitmap[i]);
        }
        i = i + 1;
    }
    assert(result@ =~= Seq::new(max_len as nat, |i: int| if i < bitmap@.len() { !bitmap@[i] } else { 0u8 }));
    result
}

} // verus!

verus! {

// ---------------------------------------------------------------------------
// BITFIELD sequences
// ---------------------------------------------------------------------------

/// The width an operation names.
pub open spec fn op_width(op: BitfieldOperation) -> usize {
    match op {
        BitfieldOperation::Get { width, .. } => width,
        BitfieldOperation::SetBits { width, .. } => width,
        BitfieldOperation::IncrBy { width, .. } => width,
    }
}

/// The kind reported for an operation.
pub open spec fn op_kind(op: BitfieldOperation) -> BitfieldOp {
    match op {
        BitfieldOperation::Get { .. } => BitfieldOp::Get,
        BitfieldOperation::SetBits { .. } => BitfieldOp::SetBits,
        BitfieldOperation::IncrBy { .. } => BitfieldOp::IncrBy,
    }
}

/// The inputs on which an operation runs without panicking.
pub open spec fn op_pre(data: Seq<u8>, op: BitfieldOperation) -> bool {
    match op {
        BitfieldOperation::Get { offset, width, signed } => 1 <= width <= 64 ==> offset + width - 1 <= usize::MAX
            && !field_get_panics(data, offset as int, width as nat, signed),
        BitfieldOperation::SetBits { offset, width, signed, .. } => 1 <= width <= 64 ==> offset + width - 1 <= usize::MAX
            && !field_get_panics(data, offset as int, width as nat, signed),
        BitfieldOperation::IncrBy { offset, width, signed, increment, overflow } => 1 <= width <= 64 ==> offset + width - 1
            <= usize::MAX && incr_width_ok(width as nat, signed) && (overflow == BitfieldOverflow::Fail ==> i64::MIN
            <= field_get(data, offset as int, width as nat, signed) + increment <= i64::MAX),
    }
}

/// Whether an operation is refused.
pub open spec fn op_fails(data: Seq<u8>, op: BitfieldOperation) -> bool {
    ||| op_width(op) == 0 || op_width(op) > 64
    ||| match op {
        BitfieldOperation::IncrBy { offset, width, signed, increment, overflow } => incrby_value(
            field_get(data, offset as int, width as nat, signed), increment as int, width as nat, signed, overflow,
        ) is None,
        _ => false,
    }
}

/// The message of a refused operation.
pub open spec fn op_failure_text(data: Seq<u8>, op: BitfieldOperation) -> Seq<char> {
    if op_width(op) == 0 || op_width(op) > 64 {
        "Bit width must be between 1 and 64"@
    } else {
        match op {
            BitfieldOperation::IncrBy { offset, width, signed, increment, .. } => {
                let current = field_get(data, offset as int, width as nat, signed);
                "Overflow: value "@ + crate::text::decimal_text(current + increment) + " would exceed range ["@
                    + crate::text::decimal_text(field_min(width as nat, signed)) + ", "@
                    + crate::text::decimal_text(field_max(width as nat, signed)) + "]"@
            },
            _ => Seq::empty(),
        }
    }
}

/// The value an operation that is not refused reports.
pub open spec fn op_value(data: Seq<u8>, op: BitfieldOperation) -> int {
    match op {
        BitfieldOperation::Get { offset, width, signed } => field_get(data, offset as int, width as nat, signed),
        BitfieldOperation::SetBits { offset, width, signed, .. } => field_get(data, offset as int, width as nat, signed),
        BitfieldOperation::IncrBy { offset, width, signed, increment, overflow } => incrby_value(
            field_get(data, offset as int, width as nat, signed), increment as int, width as nat, signed, overflow,
        )->0,
    }
}

/// The bytes after an operation that is not refused.
pub open spec fn op_data(data: Seq<u8>, op: BitfieldOperation) -> Seq<u8> {
    match op {
        BitfieldOperation::Get { .. } => data,
        BitfieldOperation::SetBits { offset, width, value, .. } => write_field(data, offset as int, width as nat, value as u64),
        BitfieldOperation::IncrBy { offset, width, .. } => write_field(
            data, offset as int, width as nat, (op_value(data, op) as i64) as u64),
    }
}

/// The message of the first refused operation of `ops`, if any.
pub open spec fn ops_failure(data: Seq<u8>, ops: Seq<BitfieldOperation>) -> Option<Seq<char>>
    decreases ops.len(),
{
    if ops.len() == 0 {
        None
    } else {
        let prefix = ops.drop_last();
        match ops_failure(data, prefix) {
            Some(t) => Some(t),
            None => {
                let d = ops_data(data, prefix);
                if op_fails(d, ops.last()) { Some(op_failure_text(d, ops.last())) } else { None }
            },
        }
    }
}

/// The bytes after running `ops` up to the first refused one.
pub open spec fn ops_data(data: Seq<u8>, ops: Seq<BitfieldOperation>) -> Seq<u8>
    decreases ops.len(),
{
    if ops.len() == 0 {
        data
    } else {
        let prefix = ops.drop_last();
        let d = ops_data(data, prefix);
        if ops_failure(data, prefix) is Some || op_fails(d, ops.last()) {
            d
        } else {
            op_data(d, ops.last())
        }
    }
}

/// The values reported by `ops`, when none is refused.
pub open spec fn ops_values(data: Seq<u8>, ops: Seq<BitfieldOperation>) -> Seq<int>
    decreases ops.len(),
{
    if ops.len() == 0 {
        Seq::empty()
    } else {
        let prefix = ops.drop_last();
        ops_values(data, prefix).push(op_value(ops_data(data, prefix), ops.last()))
    }
}

/// Whether `ops` run without panicking: each operation reached meets its
/// own condition.
pub open spec fn ops_pre(data: Seq<u8>, ops: Seq<BitfieldOperation>) -> bool
    decreases ops.len(),
{
    if ops.len() == 0 {
        true
    } else {
        let prefix = ops.drop_last();
        ops_pre(data, prefix) && (ops_failure(data, prefix) is None ==> op_pre(ops_data(data, prefix), ops.last()))
    }
}

proof fn lemma_ops_values_len(data: Seq<u8>, ops: Seq<BitfieldOperation>)
    ensures
        ops_values(data, ops).len() == ops.len(),
    decreases ops.len(),
{
    if ops.len() > 0 {
        lemma_ops_values_len(data, ops.drop_last());
    }
}

proof fn lemma_ops_pre_prefix(data: Seq<u8>, ops: Seq<BitfieldOperation>, i: int)
    requires
        ops_pre(data, ops),
        0 <= i <= ops.len(),
    ensures
        ops_pre(data, ops.take(i)),
    decreases ops.len(),
{
    if i < ops.len() {
        assert(ops.drop_last().take(i) =~= ops.take(i));
        lemma_ops_pre_prefix(data, ops.drop_last(), i);
    } else {
        assert(ops.take(i) =~= ops);
    }
}

/// Apply one BITFIELD operation to a bitmap.
fn apply_bitfield_op(bm: &mut BitmapValue, op: &BitfieldOperation) -> (r: Result<i64>)
    requires
        op_pre(old(bm).data@, *op),
    ensures
        op_fails(old(bm).data@, *op) ==> (r matches Err(SynapError::InvalidValue(m))
            && m@ == op_failure_text(old(bm).data@, *op) && final(bm).data@ == old(bm).data@),
        !op_fails(old(bm).data@, *op) ==> (r matches Ok(v) && v == op_value(old(bm).data@, *op)
            && final(bm).data@ == op_data(old(bm).data@, *op)),
        final(bm).ttl_secs == old(bm).ttl_secs,
{
    match op {
        BitfieldOperation::Get { offset, width, signed } => bm.bitfield_get(*offset, *width, *signed),
        BitfieldOperation::SetBits { offset, width, signed, value } => bm.bitfield_set(*offset, *width, *signed, *value),
        BitfieldOperation::IncrBy { offset, width, signed, increment, overflow } => bm.bitfield_incrby(
            *offset, *width, *signed, *increment, *overflow),
    }
}

// ---------------------------------------------------------------------------
// The store
// ---------------------------------------------------------------------------

/// Counters of bitmap operations, with the number of bitmaps and of their
/// bits as `stats` last counted them.
#[derive(Debug, Default, Clone)]
pub struct BitmapStats {
    pub total_bitmaps: usize,
    pub total_bits: usize,
    pub setbit_count: usize,
    pub getbit_count: usize,
    pub bitcount_count: usize,
    pub bitop_count: usize,
    pub bitpos_count: usize,
    pub bitfield_count: usize,
}

/// Named bitmaps. Bitmaps are created by the writes that name them and
/// carry no time to live.
pub struct BitmapStore {
    bitmaps: crate::keyed::Keyed<BitmapValue>,
    stats: BitmapStats,
}

/// The bytes under `k`, or none.
pub open spec fn bytes_under(m: Map<Seq<char>, Seq<u8>>, k: Seq<char>) -> Seq<u8> {
    if m.contains_key(k) { m[k] } else { Seq::empty() }
}

/// The bitmaps named by `keys` that exist, in the order of `keys`.
pub open spec fn present_sources(m: Map<Seq<char>, Seq<u8>>, keys: Seq<String>) -> Seq<Seq<u8>>
    decreases keys.len(),
{
    if keys.len() == 0 {
        Seq::empty()
    } else {
        let rest = present_sources(m, keys.drop_last());
        if m.contains_key(keys.last()@) { rest.push(m[keys.last()@]) } else { rest }
    }
}

/// Total bits of the bitmaps held in `s`.
pub open spec fn bits_sum(s: Seq<(String, BitmapValue)>) -> nat
    decreases s.len(),
{
    if s.len() == 0 { 0 } else { bits_sum(s.drop_last()) + 8 * s.last().1.data@.len() }
}

impl BitmapStore {
    /// Well-formedness: keys are distinct and no bitmap has a time to live.
    pub closed spec fn wf(&self) -> bool {
        &&& self.bitmaps.wf()
        &&& forall|k: Seq<char>| #[trigger] self.bitmaps@.contains_key(k) ==> self.bitmaps@[k].ttl_secs is None
    }

    /// The bytes of each bitmap, by name.
    pub closed spec fn contents(&self) -> Map<Seq<char>, Seq<u8>> {
        self.bitmaps@.map_values(|v: BitmapValue| v.data@)
    }

    /// The operation counters.
    pub closed spec fn counters(&self) -> BitmapStats {
        self.stats
    }

    /// Total bits held.
    pub closed spec fn total_bits(&self) -> nat {
        bits_sum(self.bitmaps.entries())
    }

    /// An empty store.
    pub fn new() -> (r: Self)
        ensures
            r.wf(),
            r.contents() == Map::<Seq<char>, Seq<u8>>::empty(),
            r.counters().total_bitmaps == 0 && r.counters().total_bits == 0,
            r.counters().setbit_count == 0 && r.counters().getbit_count == 0 && r.counters().bitcount_count == 0
                && r.counters().bitop_count == 0 && r.counters().bitpos_count == 0 && r.counters().bitfield_count == 0,
    {
        let r = BitmapStore {
            bitmaps: crate::keyed::Keyed::new(),
            stats: BitmapStats {
                total_bitmaps: 0,
                total_bits: 0,
                setbit_count: 0,
                getbit_count: 0,
                bitcount_count: 0,
                bitop_count: 0,
                bitpos_count: 0,
                bitfield_count: 0,
            },
        };
        assert(r.contents() =~= Map::<Seq<char>, Seq<u8>>::empty());
        r
    }

    /// Take the bitmap under `key` out of the map, or a new empty one.
    fn take_or_new(&mut self, key: &str) -> (r: BitmapValue)
        requires
            old(self).wf(),
        ensures
            final(self).wf(),
            final(self).stats == old(self).stats,
            final(self).bitmaps@ == old(self).bitmaps@.remove(key@),
            r.ttl_secs is None,
            r.data@ == bytes_under(old(self).contents(), key@),
    {
        match self.bitmaps.remove(key) {
            Some(b) => b,
            None => BitmapValue::new(None),
        }
    }

    /// Put `bm` back under `key`.
    fn put_back(&mut self, key: &str, bm: BitmapValue)
        requires
            old(self).wf() || (old(self).bitmaps.wf() && forall|k: Seq<char>| #[trigger] old(self).bitmaps@.contains_key(k)
                ==> old(self).bitmaps@[k].ttl_secs is None),
            bm.ttl_secs is None,
        ensures
            final(self).wf(),
            final(self).stats == old(self).stats,
            final(self).bitmaps@ == old(self).bitmaps@.insert(key@, bm),
            final(self).contents() == old(self).contents().insert(key@, bm.data@),
    {
        self.bitmaps.insert(owned(key), bm);
        proof {
            assert(self.contents() =~= old(self).contents().insert(key@, bm.data@));
        }
    }

    /// SETBIT on the bitmap under `key`, created empty when missing (also
    /// when the value is refused).
    pub fn setbit(&mut self, key: &str, offset: usize, value: u8) -> (r: Result<u8>)
        requires
            old(self).wf(),
            old(self).counters().setbit_count < usize::MAX,
        ensures
            final(self).wf(),
            ({
                let cur = bytes_under(old(self).contents(), key@);
                if value == 0 || value == 1 {
                    &&& r matches Ok(b)
                    &&& b == bit_at(cur, offset as int)
                    &&& final(self).contents() == old(self).contents().insert(key@, with_bit(cur, offset as int, value))
                    &&& final(self).counters() == (BitmapStats { setbit_count: (old(self).counters().setbit_count + 1) as usize, ..old(self).counters() })
                } else {
                    &&& r matches Err(SynapError::InvalidValue(m))
                    &&& m@ == "Bit value must be 0 or 1"@
                    &&& final(self).contents() == old(self).contents().insert(key@, cur)
                    &&& final(self).counters() == old(self).counters()
                }
            }),
    {
        let mut bm = self.take_or_new(key);
        let r = bm.setbit(offset, value);
        self.put_back(key, bm);
        match r {
            Ok(b) => {
                self.stats.setbit_count = self.stats.setbit_count + 1;
                Ok(b)
            },
            Err(e) => Err(e),
        }
    }

    /// GETBIT on the bitmap under `key`; a missing key is an error.
    pub fn getbit(&mut self, key: &str, offset: usize) -> (r: Result<u8>)
        requires
            old(self).wf(),
            old(self).counters().getbit_count < usize::MAX,
        ensures
            final(self).wf(),
            final(self).contents() == old(self).contents(),
            !old(self).contents().contains_key(key@) ==> (r matches Err(SynapError::NotFound)
                && final(self).counters() == old(self).counters()),
            old(self).contents().contains_key(key@) ==> (r matches Ok(b)
                && b == bit_at(old(self).contents()[key@], offset as int)
                && final(self).counters() == (BitmapStats { getbit_count: (old(self).counters().getbit_count + 1) as usize, ..old(self).counters() })),
    {
        let b = match self.bitmaps.get(key) {
            Some(bm) => bm.getbit(offset),
            None => return Err(SynapError::NotFound),
        };
        self.stats.getbit_count = self.stats.getbit_count + 1;
        Ok(b)
    }

    /// BITCOUNT on the bitmap under `key`; a missing key is an error.
    pub fn bitcount(&mut self, key: &str, start: Option<usize>, end: Option<usize>) -> (r: Result<usize>)
        requires
            old(self).wf(),
            old(self).counters().bitcount_count < usize::MAX,
            old(self).contents().contains_key(key@) ==> old(self).contents()[key@].len() * 8 <= usize::MAX,
        ensures
            final(self).wf(),
            final(self).contents() == old(self).contents(),
            !old(self).contents().contains_key(key@) ==> (r matches Err(SynapError::NotFound)
                && final(self).counters() == old(self).counters()),
            old(self).contents().contains_key(key@) ==> (r matches Ok(n)
                && n == bitcount_of(old(self).contents()[key@], start, end)
                && final(self).counters() == (BitmapStats { bitcount_count: (old(self).counters().bitcount_count + 1) as usize, ..old(self).counters() })),
    {
        let n = match self.bitmaps.get(key) {
            Some(bm) => bm.bitcount(start, end),
            None => return Err(SynapError::NotFound),
        };
        self.stats.bitcount_count = self.stats.bitcount_count + 1;
        Ok(n)
    }

    /// BITPOS on the bitmap under `key`. A value other than 0 or 1 is
    /// refused before the key is looked up; a missing key is an error.
    pub fn bitpos(&mut self, key: &str, value: u8, start: Option<usize>, end: Option<usize>) -> (r: Result<Option<usize>>)
        requires
            old(self).wf(),
            old(self).counters().bitpos_count < usize::MAX,
            old(self).contents().contains_key(key@) ==> old(self).contents()[key@].len() * 8 <= usize::MAX,
        ensures
            final(self).wf(),
            final(self).contents() == old(self).contents(),
            value != 0 && value != 1 ==> (r matches Err(SynapError::InvalidValue(m)) && m@ == "Bit value must be 0 or 1"@
                && final(self).counters() == old(self).counters()),
            (value == 0 || value == 1) && !old(self).contents().contains_key(key@) ==> (r matches Err(SynapError::NotFound)
                && final(self).counters() == old(self).counters()),
            (value == 0 || value == 1) && old(self).contents().contains_key(key@) ==> ({
                let data = old(self).contents()[key@];
                let s: int = match start { Some(s) => s as int, None => 0 };
                let e: int = match end { Some(e) => e as int, None => 8 * data.len() - 1 };
                &&& r matches Ok(p)
                &&& match p {
                    Some(p) => s <= p <= e && bit_at(data, p as int) == value
                        && forall|q: int| s <= q < p ==> bit_at(data, q) != value,
                    None => forall|q: int| s <= q <= e ==> bit_at(data, q) != value,
                }
                &&& final(self).counters() == (BitmapStats { bitpos_count: (old(self).counters().bitpos_count + 1) as usize, ..old(self).counters() })
            }),
    {
        if value != 0 && value != 1 {
            return Err(SynapError::InvalidValue(owned("Bit value must be 0 or 1")));
        }
        let p = match self.bitmaps.get(key) {
            Some(bm) => bm.bitpos(value, start, end),
            None => return Err(SynapError::NotFound),
        };
        self.stats.bitpos_count = self.stats.bitpos_count + 1;
        Ok(p)
    }

    /// BITOP: combine the existing bitmaps among `source_keys` with
    /// `operation` and store the bytes under `dest_key`, answering their
    /// number. AND and XOR need two existing sources, NOT exactly one.
    pub fn bitop(&mut self, operation: BitmapOperation, dest_key: &str, source_keys: &[String]) -> (r: Result<usize>)
        requires
            old(self).wf(),
            old(self).counters().bitop_count < usize::MAX,
        ensures
            final(self).wf(),
            ({
                let srcs = present_sources(old(self).contents(), source_keys@);
                let refused = source_keys@.len() == 0 || srcs.len() == 0
                    || (operation == BitmapOperation::And && srcs.len() < 2)
                    || (operation == BitmapOperation::Xor && srcs.len() < 2)
                    || (operation == BitmapOperation::Not && srcs.len() != 1);
                &&& source_keys@.len() == 0 ==> (r matches Err(SynapError::InvalidRequest(m))
                    && m@ == "At least one source key required"@)
                &&& source_keys@.len() > 0 && srcs.len() == 0 ==> (r matches Err(SynapError::NotFound))
                &&& srcs.len() > 0 && operation == BitmapOperation::And && srcs.len() < 2 ==> (r matches
                    Err(SynapError::InvalidRequest(m)) && m@ == "AND operation requires at least 2 source keys"@)
                &&& srcs.len() > 0 && operation == BitmapOperation::Xor && srcs.len() < 2 ==> (r matches
                    Err(SynapError::InvalidRequest(m)) && m@ == "XOR operation requires at least 2 source keys"@)
                &&& srcs.len() > 0 && operation == BitmapOperation::Not && srcs.len() != 1 ==> (r matches
                    Err(SynapError::InvalidRequest(m)) && m@ == "NOT operation requires exactly 1 source key"@)
                &&& refused ==> final(self).contents() == old(self).contents()
                    && final(self).counters() == old(self).counters()
                &&& !refused ==> {
                    let bytes = bitop_bytes(operation, srcs, longest(srcs, srcs.len() as int));
                    &&& r matches Ok(n)
                    &&& n == bytes.len()
                    &&& final(self).contents() == old(self).contents().insert(dest_key@, bytes)
                    &&& final(self).counters() == (BitmapStats { bitop_count: (old(self).counters().bitop_count + 1) as usize, ..old(self).counters() })
                }
            }),
    {
        if source_keys.len() == 0 {
            return Err(SynapError::InvalidRequest(owned("At least one source key required")));
        }
        let mut sources: Vec<Vec<u8>> = Vec::new();
        let mut max_len: usize = 0;
        let mut i: usize = 0;
        while i < source_keys.len()
            invariant
                self.wf(),
                i <= source_keys@.len(),
                byte_views(sources@) == present_sources(self.contents(), source_keys@.take(i as int)),
                max_len == longest(byte_views(sources@), sources@.len() as int),
            decreases source_keys@.len() - i,
        {
            let ghost before = sources@;
            match self.bitmaps.get(source_keys[i].as_str()) {
                Some(bm) => {
                    let len = bm.data.len();
                    if len > max_len {
                        max_len = len;
                    }
                    sources.push(copy_bytes(&bm.data));
                },
                None => {},
            }
            proof {
                assert(source_keys@.take(i + 1).drop_last() =~= source_keys@.take(i as int));
                assert(byte_views(sources@) =~= present_sources(self.contents(), source_keys@.take(i + 1)));
                let n = sources@.len() as int;
                if n > before.len() {
                    assert(byte_views(sources@)[n - 1] == sources@[n - 1]@);
                    assert forall|j: int| 0 <= j < n - 1 implies byte_views(sources@)[j] == byte_views(before)[j] by {}
                    lemma_longest_prefix(byte_views(sources@), byte_views(before), n - 1);
                }
            }
            i = i + 1;
        }
        proof {
            assert(source_keys@.take(source_keys@.len() as int) =~= source_keys@);
        }
        if sources.len() == 0 {
            return Err(SynapError::NotFound);
        }
        let result = match operation {
            BitmapOperation::And => {
                if sources.len() < 2 {
                    return Err(SynapError::InvalidRequest(owned("AND operation requires at least 2 source keys")));
                }
                bitop_and(sources.as_slice(), max_len)
            },
            BitmapOperation::Or => bitop_or(sources.as_slice(), max_len),
            BitmapOperation::Xor => {
                if sources.len() < 2 {
                    return Err(SynapError::InvalidRequest(owned("XOR operation requires at least 2 source keys")));
                }
                bitop_xor(sources.as_slice(), max_len)
            },
            BitmapOperation::Not => {
                if sources.len() != 1 {
                    return Err(SynapError::InvalidRequest(owned("NOT operation requires exactly 1 source key")));
                }
                bitop_not(sources[0].as_slice(), max_len)
            },
        };
        let mut dest = self.take_or_new(dest_key);
        dest.data = result;
        dest.updated_at = crate::clock::unix_time_secs();
        let len = dest.data.len();
        self.put_back(dest_key, dest);
        self.stats.bitop_count = self.stats.bitop_count + 1;
        proof {
            assert(self.contents() =~= old(self).contents().insert(dest_key@,
                bitop_bytes(operation, byte_views(sources@), max_len as nat)));
        }
        Ok(len)
    }

    /// BITFIELD: run `operations` in order on the bitmap under `key`
    /// (created empty when missing) and answer their values. The first
    /// refused operation ends the run with its error; the operations before
    /// it keep their effect.
    pub fn bitfield(&mut self, key: &str, operations: &[BitfieldOperation]) -> (r: Result<Vec<BitfieldResult>>)
        requires
            old(self).wf(),
            old(self).counters().bitfield_count < usize::MAX,
            ops_pre(bytes_under(old(self).contents(), key@), operations@),
        ensures
            final(self).wf(),
            ({
                let cur = bytes_under(old(self).contents(), key@);
                &&& final(self).contents() == old(self).contents().insert(key@, ops_data(cur, operations@))
                &&& match ops_failure(cur, operations@) {
                    Some(t) => r matches Err(SynapError::InvalidValue(m)) && m@ == t
                        && final(self).counters() == old(self).counters(),
                    None => r matches Ok(v) && v@.len() == operations@.len()
                        && (forall|i: int| 0 <= i < v@.len() ==> v@[i].value == ops_values(cur, operations@)[i]
                            && #[trigger] v@[i].operation == op_kind(operations@[i]))
                        && final(self).counters() == (BitmapStats { bitfield_count: (old(self).counters().bitfield_count + 1) as usize, ..old(self).counters() }),
                }
            }),
    {
        let ghost cur = bytes_under(old(self).contents(), key@);
        let mut bm = self.take_or_new(key);
        let mut results: Vec<BitfieldResult> = Vec::new();
        let mut i: usize = 0;
        while i < operations.len()
            invariant
                self.bitmaps.wf(),
                forall|k: Seq<char>| #[trigger] self.bitmaps@.contains_key(k) ==> self.bitmaps@[k].ttl_secs is None,
                self.bitmaps@ == old(self).bitmaps@.remove(key@),
                self.stats == old(self).stats,
                bm.ttl_secs is None,
                cur == bytes_under(old(self).contents(), key@),
                i <= operations@.len(),
                ops_pre(cur, operations@),
                ops_failure(cur, operations@.take(i as int)) is None,
                bm.data@ == ops_data(cur, operations@.take(i as int)),
                results@.len() == i,
                forall|j: int| 0 <= j < i ==> results@[j].value == ops_values(cur, operations@.take(i as int))[j]
                    && #[trigger] results@[j].operation == op_kind(operations@[j]),
            decreases operations@.len() - i,
        {
            let ghost prefix = operations@.take(i as int);
            let ghost next = operations@.take(i + 1);
            proof {
                assert(next.drop_last() =~= prefix);
                assert(next.last() == operations@[i as int]);
                lemma_ops_pre_prefix(cur, operations@, i + 1);
                lemma_ops_values_len(cur, prefix);
                lemma_ops_values_len(cur, next);
            }
            let op = &operations[i];
            match apply_bitfield_op(&mut bm, op) {
                Ok(v) => {
                    let kind = match op {
                        BitfieldOperation::Get { .. } => BitfieldOp::Get,
                        BitfieldOperation::SetBits { .. } => BitfieldOp::SetBits,
                        BitfieldOperation::IncrBy { .. } => BitfieldOp::IncrBy,
                    };
                    results.push(BitfieldResult { operation: kind, value: v });
                    proof {
                        assert forall|j: int| 0 <= j < i + 1 implies results@[j].value == ops_values(cur, next)[j]
                            && #[trigger] results@[j].operation == op_kind(operations@[j]) by {
                            if j < i {
                                assert(ops_values(cur, next)[j] == ops_values(cur, prefix)[j]);
                            }
                        }
                    }
                },
                Err(e) => {
                    self.put_back(key, bm);
                    proof {
                        lemma_ops_failure_extends(cur, operations@, i + 1);
                        assert(operations@.take(operations@.len() as int) =~= operations@);
                    }
                    return Err(e);
                },
            }
            i = i + 1;
        }
        proof {
            assert(operations@.take(operations@.len() as int) =~= operations@);
            lemma_ops_values_len(cur, operations@);
        }
        self.put_back(key, bm);
        self.stats.bitfield_count = self.stats.bitfield_count + 1;
        Ok(results)
    }

    /// Statistics: the counters, with the number of bitmaps and their total
    /// bits counted now.
    pub fn stats(&self) -> (r: BitmapStats)
        requires
            self.wf(),
            self.total_bits() <= usize::MAX,
        ensures
            r.total_bitmaps == self.contents().len(),
            r.total_bits == self.total_bits(),
            r.setbit_count == self.counters().setbit_count,
            r.getbit_count == self.counters().getbit_count,
            r.bitcount_count == self.counters().bitcount_count,
            r.bitop_count == self.counters().bitop_count,
            r.bitpos_count == self.counters().bitpos_count,
            r.bitfield_count == self.counters().bitfield_count,
    {
        let mut total_bitmaps: usize = 0;
        let mut total_bits: usize = 0;
        let n = self.bitmaps.len();
        let mut i: usize = 0;
        while i < n
            invariant
                self.wf(),
                n == self.bitmaps.entries().len(),
                i <= n,
                total_bitmaps == i,
                total_bits == bits_sum(self.bitmaps.entries().take(i as int)),
                bits_sum(self.bitmaps.entries()) <= usize::MAX,
            decreases n - i,
        {
            let (_k, bm) = self.bitmaps.entry_at(i);
            proof {
                let s = self.bitmaps.entries();
                assert(s.take(i + 1).drop_last() =~= s.take(i as int));
                lemma_bits_sum_prefix(s, i + 1);
            }
            total_bitmaps = total_bitmaps + 1;
            total_bits = total_bits + bm.data.len() * 8;
            i = i + 1;
        }
        proof {
            let s = self.bitmaps.entries();
            assert(s.take(n as int) =~= s);
            self.bitmaps.lemma_entries();
            assert(self.contents().dom() =~= self.bitmaps@.dom());
        }
        BitmapStats {
            total_bitmaps,
            total_bits,
            setbit_count: self.stats.setbit_count,
            getbit_count: self.stats.getbit_count,
            bitcount_count: self.stats.bitcount_count,
            bitop_count: self.stats.bitop_count,
            bitpos_count: self.stats.bitpos_count,
            bitfield_count: self.stats.bitfield_count,
        }
    }
}

impl Default for BitmapStore {
    /// An empty store.
    fn default() -> (r: Self)
        ensures
            r.wf(),
            r.contents() == Map::<Seq<char>, Seq<u8>>::empty(),
    {
        BitmapStore::new()
    }
}

proof fn lemma_bits_sum_prefix(s: Seq<(String, BitmapValue)>, i: int)
    requires
        0 <= i <= s.len(),
    ensures
        bits_sum(s.take(i)) <= bits_sum(s),
    decreases s.len(),
{
    if i < s.len() {
        assert(s.drop_last().take(i) =~= s.take(i));
        lemma_bits_sum_prefix(s.drop_last(), i);
    } else {
        assert(s.take(i) =~= s);
    }
}

proof fn lemma_longest_prefix(a: Seq<Seq<u8>>, b: Seq<Seq<u8>>, n: int)
    requires
        0 <= n <= a.len(),
        n <= b.len(),
        forall|j: int| 0 <= j < n ==> a[j] == b[j],
    ensures
        longest(a, n) == longest(b, n),
    decreases n,
{
    if n > 0 {
        lemma_longest_prefix(a, b, n - 1);
    }
}

proof fn lemma_ops_failure_extends(data: Seq<u8>, ops: Seq<BitfieldOperation>, i: int)
    requires
        0 <= i <= ops.len(),
        ops_failure(data, ops.take(i)) is Some,
    ensures
        ops_failure(data, ops) == ops_failure(data, ops.take(i)),
        ops_data(data, ops) == ops_data(data, ops.take(i)),
    decreases ops.len() - i,
{
    if i < ops.len() {
        let t = ops.take(i + 1);
        assert(t.drop_last() =~= ops.take(i));
        if i + 1 < ops.len() {
            lemma_ops_failure_extends(data, ops, i + 1);
        } else {
            assert(t =~= ops);
        }
    } else {
        assert(ops.take(i) =~= ops);
    }
}

} // verus!
