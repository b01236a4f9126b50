//! Kafka-style partitioned topics: each partition is an append-only log of
//! events with offsets, trimmed by a retention policy.

use vstd::prelude::*;
use crate::clock::unix_time_secs;
use crate::ids::new_uuid_v4;
use crate::keyed::Keyed;
use crate::text::{concat, decimal_text, usize_text};

verus! {

/// How long a partition keeps its events.
#[derive(Debug, Clone, Copy, PartialEq, Eq, Structural)]
pub enum RetentionPolicy {
    /// Keep events newer than `retention_secs` seconds.
    Time { retention_secs: u64 },
    /// Keep at most `max_bytes` bytes of events.
    Size { max_bytes: u64 },
    /// Keep at most `max_messages` events.
    Messages { max_messages: u64 },
    /// Apply each limit given, by time, then size, then count.
    Combined { retention_secs: Option<u64>, max_bytes: Option<u64>, max_messages: Option<u64> },
    /// Keep everything.
    Infinite,
}

impl Default for RetentionPolicy {
    fn default() -> (r: Self)
        ensures
            r == (RetentionPolicy::Time { retention_secs: 3600 }),
    {
        RetentionPolicy::Time { retention_secs: 3600 }
    }
}

/// Configuration of a partitioned topic.
#[derive(Debug, Clone, Copy)]
pub struct PartitionConfig {
    /// Number of partitions.
    pub num_partitions: usize,
    /// Replication factor (kept for replication).
    pub replication_factor: usize,
    /// What is kept.
    pub retention: RetentionPolicy,
    /// Segment size for log rotation, in bytes.
    pub segment_bytes: u64,
    /// Largest batch of writes.
    pub max_batch_size: usize,
    /// Whether events are compressed.
    pub compression_enabled: bool,
    /// Seconds between automatic compactions.
    pub flush_interval_secs: u64,
}

impl Default for PartitionConfig {
    fn default() -> (r: Self)
        ensures
            r.num_partitions == 3,
            r.replication_factor == 1,
            r.retention == (RetentionPolicy::Time { retention_secs: 3600 }),
            r.segment_bytes == 100 * 1024 * 1024,
            r.max_batch_size == 1000,
            !r.compression_enabled,
            r.flush_interval_secs == 5,
    {
        PartitionConfig {
            num_partitions: 3,
            replication_factor: 1,
            retention: RetentionPolicy::Time { retention_secs: 3600 },
            segment_bytes: 104857600,
            max_batch_size: 1000,
            compression_enabled: false,
            flush_interval_secs: 5,
        }
    }
}

/// An event of a partition.
#[derive(Debug)]
pub struct PartitionEvent {
    /// Unique identifier.
    pub id: String,
    /// The partition that holds it.
    pub partition_id: usize,
    /// Its offset within that partition.
    pub offset: u64,
    /// Topic name.
    pub topic: String,
    /// Event type.
    pub event_type: String,
    /// Partitioning key.
    pub key: Option<Vec<u8>>,
    /// Payload.
    pub data: Vec<u8>,
    /// Creation time (Unix seconds).
    pub timestamp: u64,
    /// Size counted by retention, in bytes.
    pub size_bytes: u64,
    /// Extra headers, as name and value.
    pub metadata: Vec<(String, String)>,
}

/// The content of an event.
pub struct EventView {
    pub id: Seq<char>,
    pub partition_id: usize,
    pub offset: u64,
    pub topic: Seq<char>,
    pub event_type: Seq<char>,
    pub key: Option<Seq<u8>>,
    pub data: Seq<u8>,
    pub timestamp: u64,
    pub size_bytes: u64,
    pub metadata: Seq<(Seq<char>, Seq<char>)>,
}

/// The view of an optional byte vector.
pub open spec fn opt_bytes(k: Option<Vec<u8>>) -> Option<Seq<u8>> {
    match k {
        Some(v) => Some(v@),
        None => None,
    }
}

/// The length of an optional byte vector, 0 when absent.
pub open spec fn opt_len(k: Option<Vec<u8>>) -> nat {
    match k {
        Some(v) => v@.len(),
        None => 0,
    }
}

/// The number of bytes of the UTF-8 form of `s`.
pub open spec fn utf8_len(s: Seq<char>) -> nat {
    vstd::utf8::encode_utf8(s).len()
}

impl View for PartitionEvent {
    type V = EventView;

    open spec fn view(&self) -> EventView {
        EventView {
            id: self.id@,
            partition_id: self.partition_id,
            offset: self.offset,
            topic: self.topic@,
            event_type: self.event_type@,
            key: opt_bytes(self.key),
            data: self.data@,
            timestamp: self.timestamp,
            size_bytes: self.size_bytes,
            metadata: self.metadata@.map_values(|p: (String, String)| (p.0@, p.1@)),
        }
    }
}

/// A copy of a byte vector.
pub(crate) fn copy_bytes(v: &Vec<u8>) -> (r: Vec<u8>)
    ensures
        r@ == v@,
{
    let mut r: Vec<u8> = Vec::new();
    let mut i: usize = 0;
    while i < v.len()
        invariant
            i <= v@.len(),
            r@ == v@.take(i as int),
        decreases v@.len() - i,
    {
        r.push(v[i]);
        i = i + 1;
        proof {
            assert(r@ =~= v@.take(i as int));
        }
    }
    proof {
        assert(v@.take(v@.len() as int) =~= v@);
    }
    r
}

/// A copy of a list of string pairs.
pub(crate) fn copy_pairs(v: &Vec<(String, String)>) -> (r: Vec<(String, String)>)
    ensures
        r@.map_values(|p: (String, String)| (p.0@, p.1@)) == v@.map_values(|p: (String, String)| (p.0@, p.1@)),
{
    let mut r: Vec<(String, String)> = Vec::new();
    let mut i: usize = 0;
    while i < v.len()
        invariant
            i <= v@.len(),
            r@.len() == i,
            forall|j: int| 0 <= j < i ==> (#[trigger] r@[j]).0@ == v@[j].0@ && r@[j].1@ == v@[j].1@,
        decreases v@.len() - i,
    {
        let a = v[i].0.clone();
        let b = v[i].1.clone();
        r.push((a, b));
        i = i + 1;
    }
    proof {
        assert(r@.map_values(|p: (String, String)| (p.0@, p.1@)) =~= v@.map_values(|p: (String, String)| (p.0@, p.1@)));
    }
    r
}

impl Clone for PartitionEvent {
    fn clone(&self) -> (r: Self)
        ensures
            r@ == self@,
    {
        let key = match &self.key {
            Some(k) => Some(copy_bytes(k)),
            None => None,
        };
        PartitionEvent {
            id: self.id.clone(),
            partition_id: self.partition_id,
            offset: self.offset,
            topic: self.topic.clone(),
            event_type: self.event_type.clone(),
            key,
            data: copy_bytes(&self.data),
            timestamp: self.timestamp,
            size_bytes: self.size_bytes,
            metadata: copy_pairs(&self.metadata),
        }
    }
}

impl PartitionEvent {
    /// The size retention counts for an event: payload, key, topic and type,
    /// the last two in UTF-8 bytes.
    pub open spec fn size_of(topic: Seq<char>, event_type: Seq<char>, key: Option<Vec<u8>>, data: Seq<u8>) -> int {
        (data.len() + opt_len(key) + utf8_len(topic) + utf8_len(event_type)) as int
    }

    /// A new event created at time `timestamp` with identifier `id`; its
    /// partition and offset are set when it is appended.
    pub fn new_with(id: String, topic: String, event_type: String, key: Option<Vec<u8>>, data: Vec<u8>, timestamp: u64) -> (r: Self)
        requires
            Self::size_of(topic@, event_type@, key, data@) <= u64::MAX,
            utf8_len(topic@) <= usize::MAX,
            utf8_len(event_type@) <= usize::MAX,
        ensures
            r.id@ == id@,
            r.partition_id == 0,
            r.offset == 0,
            r.topic@ == topic@,
            r.event_type@ == event_type@,
            opt_bytes(r.key) == opt_bytes(key),
            r.data@ == data@,
            r.timestamp == timestamp,
            r.size_bytes == Self::size_of(topic@, event_type@, key, data@),
            r.metadata@.len() == 0,
    {
        let key_len: usize = match &key {
            Some(k) => k.len(),
            None => 0,
        };
        let topic_len = topic.as_str().len();
        let type_len = event_type.as_str().len();
        let size_bytes = data.len() as u64 + key_len as u64 + topic_len as u64 + type_len as u64;
        PartitionEvent {
            id,
            partition_id: 0,
            offset: 0,
            topic,
            event_type,
            key,
            data,
            timestamp,
            size_bytes,
            metadata: Vec::new(),
        }
    }

    /// A new event with a fresh identifier, stamped with the current time.
    pub fn new(topic: String, event_type: String, key: Option<Vec<u8>>, data: Vec<u8>) -> (r: Self)
        requires
            Self::size_of(topic@, event_type@, key, data@) <= u64::MAX,
            utf8_len(topic@) <= usize::MAX,
            utf8_len(event_type@) <= usize::MAX,
        ensures
            r.id@.len() == 36,
            r.partition_id == 0,
            r.offset == 0,
            r.topic@ == topic@,
            r.event_type@ == event_type@,
            opt_bytes(r.key) == opt_bytes(key),
            r.data@ == data@,
            r.size_bytes == Self::size_of(topic@, event_type@, key, data@),
            r.metadata@.len() == 0,
    {
        let id = new_uuid_v4();
        let now = unix_time_secs();
        Self::new_with(id, topic, event_type, key, data, now)
    }
}

/// The views of a list of events.
pub open spec fn views(s: Seq<PartitionEvent>) -> Seq<EventView> {
    s.map_values(|e: PartitionEvent| e@)
}

/// Views distribute over a push.
pub proof fn lemma_views_push(s: Seq<PartitionEvent>, e: PartitionEvent)
    ensures
        views(s.push(e)) == views(s).push(e@),
{
    assert(views(s.push(e)) =~= views(s).push(e@));
}

/// Total retention size of a list of events.
pub open spec fn bytes_of(s: Seq<PartitionEvent>) -> int
    decreases s.len(),
{
    if s.len() == 0 {
        0
    } else {
        bytes_of(s.drop_last()) + s.last().size_bytes
    }
}

/// The events of `s` with offset at least `from`, in order.
pub open spec fn at_or_after(s: Seq<PartitionEvent>, from: u64) -> Seq<PartitionEvent>
    decreases s.len(),
{
    if s.len() == 0 {
        s
    } else if s.last().offset >= from {
        at_or_after(s.drop_last(), from).push(s.last())
    } else {
        at_or_after(s.drop_last(), from)
    }
}

/// The events of `s` newer than `cutoff`, in order.
pub open spec fn newer_than(s: Seq<PartitionEvent>, cutoff: u64) -> Seq<PartitionEvent>
    decreases s.len(),
{
    if s.len() == 0 {
        s
    } else if s.last().timestamp > cutoff {
        newer_than(s.drop_last(), cutoff).push(s.last())
    } else {
        newer_than(s.drop_last(), cutoff)
    }
}

/// How many of the oldest events of `s` go when events are dropped from
/// the front until the rest fit in `max` bytes.
pub open spec fn size_cut(s: Seq<PartitionEvent>, max: u64) -> nat
    decreases s.len(),
{
    if s.len() > 0 && bytes_of(s) > max {
        1 + size_cut(s.drop_first(), max)
    } else {
        0
    }
}

/// Sizes add up over a split, and are never negative.
pub proof fn lemma_bytes_split(s: Seq<PartitionEvent>, d: int)
    requires
        0 <= d <= s.len(),
    ensures
        bytes_of(s) == bytes_of(s.take(d)) + bytes_of(s.skip(d)),
        bytes_of(s.take(d)) >= 0,
        bytes_of(s.skip(d)) >= 0,
    decreases s.len(),
{
    if d == s.len() {
        assert(s.take(d) =~= s);
        assert(s.skip(d) =~= Seq::<PartitionEvent>::empty());
        lemma_bytes_nonneg(s);
    } else {
        lemma_bytes_split(s.drop_last(), d);
        assert(s.drop_last().take(d) =~= s.take(d));
        assert(s.skip(d).drop_last() =~= s.drop_last().skip(d));
        assert(s.skip(d).last() == s.last());
    }
}

/// A sum of sizes is never negative.
proof fn lemma_bytes_nonneg(s: Seq<PartitionEvent>)
    ensures
        bytes_of(s) >= 0,
    decreases s.len(),
{
    if s.len() > 0 {
        lemma_bytes_nonneg(s.drop_last());
    }
}

/// `size_cut` is the fewest oldest events whose removal leaves the rest
/// within `max` bytes.
pub proof fn lemma_size_cut_least(s: Seq<PartitionEvent>, max: u64)
    ensures
        size_cut(s, max) <= s.len(),
        bytes_of(s.skip(size_cut(s, max) as int)) <= max,
        forall|j: int| 0 <= j < size_cut(s, max) ==> bytes_of(#[trigger] s.skip(j)) > max,
    decreases s.len(),
{
    if s.len() > 0 && bytes_of(s) > max {
        lemma_size_cut_least(s.drop_first(), max);
        let d = size_cut(s, max) as int;
        assert(s.skip(d) =~= s.drop_first().skip(d - 1));
        assert forall|j: int| 0 <= j < d implies bytes_of(#[trigger] s.skip(j)) > max by {
            if j == 0 {
                assert(s.skip(0) =~= s);
            } else {
                assert(s.skip(j) =~= s.drop_first().skip(j - 1));
            }
        }
    } else {
        assert(s.skip(0) =~= s);
    }
}

/// Sizes add up over a push.
pub proof fn lemma_bytes_push(s: Seq<PartitionEvent>, e: PartitionEvent)
    ensures
        bytes_of(s.push(e)) == bytes_of(s) + e.size_bytes,
{
    assert(s.push(e).drop_last() =~= s);
}

/// Sizes add up over the first event.
pub proof fn lemma_bytes_drop_first(s: Seq<PartitionEvent>)
    requires
        s.len() > 0,
    ensures
        bytes_of(s) == s[0].size_bytes + bytes_of(s.drop_first()),
    decreases s.len(),
{
    if s.len() == 1 {
        assert(s.drop_last() =~= Seq::<PartitionEvent>::empty());
        assert(s.drop_first() =~= Seq::<PartitionEvent>::empty());
    } else {
        lemma_bytes_drop_first(s.drop_last());
        assert(s.drop_last().drop_first() =~= s.drop_first().drop_last());
        assert(s.drop_first().last() == s.last());
    }
}

/// A prefix weighs no more than the whole.
pub proof fn lemma_bytes_prefix(s: Seq<PartitionEvent>, n: int)
    requires
        0 <= n <= s.len(),
    ensures
        0 <= bytes_of(s.take(n)) <= bytes_of(s),
    decreases s.len(),
{
    if s.len() > 0 {
        if n == s.len() {
            assert(s.take(n) =~= s);
            lemma_bytes_prefix(s.drop_last(), s.len() - 1);
            assert(s.drop_last().take(s.len() - 1) =~= s.drop_last());
        } else {
            lemma_bytes_prefix(s.drop_last(), n);
            assert(s.drop_last().take(n) =~= s.take(n));
        }
    }
}

/// Filtering by age keeps a property of every event.
pub proof fn lemma_newer_than_keeps(s: Seq<PartitionEvent>, cutoff: u64, id: usize, bound: u64)
    requires
        forall|i: int| 0 <= i < s.len() ==> (#[trigger] s[i]).offset < bound && s[i].partition_id == id,
        forall|i: int, j: int| 0 <= i < j < s.len() ==> (#[trigger] s[i]).offset < (#[trigger] s[j]).offset,
    ensures
        forall|i: int| 0 <= i < newer_than(s, cutoff).len() ==>
            (#[trigger] newer_than(s, cutoff)[i]).offset < bound && newer_than(s, cutoff)[i].partition_id == id,
        forall|i: int, j: int| 0 <= i < j < newer_than(s, cutoff).len() ==>
            (#[trigger] newer_than(s, cutoff)[i]).offset < (#[trigger] newer_than(s, cutoff)[j]).offset,
        forall|i: int| 0 <= i < newer_than(s, cutoff).len() ==>
            exists|k: int| 0 <= k < s.len() && #[trigger] newer_than(s, cutoff)[i] == s[k],
        bytes_of(newer_than(s, cutoff)) <= bytes_of(s),
        newer_than(s, cutoff).len() <= s.len(),
    decreases s.len(),
{
    if s.len() > 0 {
        let d = s.drop_last();
        assert forall|i: int, j: int| 0 <= i < j < d.len() implies (#[trigger] d[i]).offset < (#[trigger] d[j]).offset by {
            assert(d[i] == s[i] && d[j] == s[j]);
        }
        lemma_newer_than_keeps(d, cutoff, id, bound);
        let r = newer_than(d, cutoff);
        let n = newer_than(s, cutoff);
        assert forall|i: int| 0 <= i < r.len() implies exists|k: int| 0 <= k < s.len() && #[trigger] r[i] == s[k] by {
            let k = choose|k: int| 0 <= k < d.len() && r[i] == d[k];
            assert(s[k] == d[k]);
        }
        if s.last().timestamp > cutoff {
            lemma_bytes_push(r, s.last());
            assert forall|i: int| 0 <= i < n.len() implies
                (#[trigger] n[i]).offset < bound && n[i].partition_id == id by {
                if i < r.len() {
                    assert(n[i] == r[i]);
                }
            }
            assert forall|i: int, j: int| 0 <= i < j < n.len() implies (#[trigger] n[i]).offset < (#[trigger] n[j]).offset by {
                assert(n[i] == r[i]);
                if j < r.len() {
                    assert(n[j] == r[j]);
                } else {
                    let k = choose|k: int| 0 <= k < d.len() && r[i] == d[k];
                    assert(s[k] == d[k]);
                    assert(n[j] == s[s.len() - 1]);
                }
            }
            assert forall|i: int| 0 <= i < n.len() implies exists|k: int| 0 <= k < s.len() && #[trigger] n[i] == s[k] by {
                if i < r.len() {
                    assert(n[i] == r[i]);
                    let k = choose|k: int| 0 <= k < s.len() && r[i] == s[k];
                } else {
                    assert(n[i] == s[s.len() - 1]);
                }
            }
        }
    }
}

/// After the size cut the rest fits, and the cut is within the list.
pub proof fn lemma_size_cut_fits(s: Seq<PartitionEvent>, max: u64)
    ensures
        size_cut(s, max) <= s.len(),
        bytes_of(s.skip(size_cut(s, max) as int)) <= max,
    decreases s.len(),
{
    if s.len() > 0 && bytes_of(s) > max {
        lemma_size_cut_fits(s.drop_first(), max);
        assert(s.skip(size_cut(s, max) as int) =~= s.drop_first().skip(size_cut(s.drop_first(), max) as int));
    } else if s.len() == 0 {
        assert(s.skip(0) =~= s);
    } else {
        assert(s.skip(0) =~= s);
    }
}

/// A compaction only removes: it keeps the invariant and never grows the
/// partition or its byte count.
pub proof fn lemma_compacted_shrinks(st: PartitionState, now: u64)
    requires
        st.wf(),
    ensures
        st.compacted(now).wf(),
        st.compacted(now).buffer.len() <= st.buffer.len(),
        st.compacted(now).total_bytes <= st.total_bytes,
{
    let after = match st.config.retention {
        RetentionPolicy::Time { retention_secs } => {
            lemma_by_time_ok(st, if now >= retention_secs { (now - retention_secs) as u64 } else { 0 });
        },
        RetentionPolicy::Size { max_bytes } => {
            lemma_by_size_ok(st, max_bytes);
        },
        RetentionPolicy::Messages { max_messages } => {
            lemma_by_count_ok(st, max_messages);
        },
        RetentionPolicy::Combined { retention_secs, max_bytes, max_messages } => {
            let a = match retention_secs {
                Some(secs) => {
                    lemma_by_time_ok(st, if now >= secs { (now - secs) as u64 } else { 0 });
                    st.by_time(if now >= secs { (now - secs) as u64 } else { 0 })
                },
                None => st,
            };
            let b = match max_bytes {
                Some(m) => {
                    lemma_by_size_ok(a, m);
                    a.by_size(m)
                },
                None => a,
            };
            match max_messages {
                Some(m) => {
                    lemma_by_count_ok(b, m);
                },
                None => {},
            }
        },
        RetentionPolicy::Infinite => {},
    };
}

/// Dropping events from the front weighs no more than the whole.
pub proof fn lemma_bytes_skip(s: Seq<PartitionEvent>, k: int)
    requires
        0 <= k <= s.len(),
    ensures
        0 <= bytes_of(s.skip(k)) <= bytes_of(s),
    decreases k,
{
    if k == 0 {
        assert(s.skip(0) =~= s);
        lemma_bytes_prefix(s, 0);
        assert(s.take(0) =~= Seq::<PartitionEvent>::empty());
    } else {
        lemma_bytes_skip(s.drop_first(), k - 1);
        assert(s.drop_first().skip(k - 1) =~= s.skip(k));
        lemma_bytes_drop_first(s);
    }
}

/// Dropping the oldest `k` events keeps the invariant and shrinks.
pub proof fn lemma_drop_oldest_ok(st: PartitionState, k: nat)
    requires
        st.wf(),
        k <= st.buffer.len(),
    ensures
        st.drop_oldest(k).wf(),
        st.drop_oldest(k).buffer.len() <= st.buffer.len(),
        st.drop_oldest(k).total_bytes <= st.total_bytes,
{
    lemma_bytes_skip(st.buffer, k as int);
    let r = st.drop_oldest(k);
    assert forall|i: int| 0 <= i < r.buffer.len() implies
        (#[trigger] r.buffer[i]).offset < r.next_offset && r.buffer[i].partition_id == r.id by {
        assert(r.buffer[i] == st.buffer[i + k]);
    }
    assert forall|i: int, j: int| 0 <= i < j < r.buffer.len() implies
        (#[trigger] r.buffer[i]).offset < (#[trigger] r.buffer[j]).offset by {
        assert(r.buffer[i] == st.buffer[i + k] && r.buffer[j] == st.buffer[j + k]);
    }
}

/// Removal by age keeps the invariant and shrinks.
pub proof fn lemma_by_time_ok(st: PartitionState, cutoff: u64)
    requires
        st.wf(),
    ensures
        st.by_time(cutoff).wf(),
        st.by_time(cutoff).buffer.len() <= st.buffer.len(),
        st.by_time(cutoff).total_bytes <= st.total_bytes,
{
    lemma_newer_than_keeps(st.buffer, cutoff, st.id, st.next_offset);
    let kept = newer_than(st.buffer, cutoff);
    lemma_bytes_prefix(kept, 0);
    assert(kept.take(0) =~= Seq::<PartitionEvent>::empty());
}

/// Removal by size keeps the invariant and shrinks.
pub proof fn lemma_by_size_ok(st: PartitionState, max_bytes: u64)
    requires
        st.wf(),
    ensures
        st.by_size(max_bytes).wf(),
        st.by_size(max_bytes).buffer.len() <= st.buffer.len(),
        st.by_size(max_bytes).total_bytes <= st.total_bytes,
        st.by_size(max_bytes).total_bytes <= max_bytes,
{
    lemma_size_cut_fits(st.buffer, max_bytes);
    lemma_drop_oldest_ok(st, size_cut(st.buffer, max_bytes));
}

/// Removal by count keeps the invariant and shrinks to at most the limit.
pub proof fn lemma_by_count_ok(st: PartitionState, max_messages: u64)
    requires
        st.wf(),
    ensures
        st.by_count(max_messages).wf(),
        st.by_count(max_messages).total_bytes <= st.total_bytes,
        st.by_count(max_messages).buffer.len() == (if st.buffer.len() > max_messages { max_messages as nat } else { st.buffer.len() }),
{
    let k: nat = if st.buffer.len() > max_messages { (st.buffer.len() - max_messages) as nat } else { 0 };
    lemma_drop_oldest_ok(st, k);
}

/// The state of a partition.
pub struct PartitionState {
    pub id: usize,
    pub topic: Seq<char>,
    pub buffer: Seq<PartitionEvent>,
    pub next_offset: u64,
    pub min_offset: u64,
    pub total_bytes: u64,
    pub config: PartitionConfig,
    pub last_compaction: u64,
}

/// Retention by size drops the fewest oldest events that leave the rest
/// within `max_bytes`, and frees exactly their bytes.
pub proof fn lemma_retention_by_size(p: PartitionState, max_bytes: u64)
    requires
        p.wf(),
    ensures
        ({
            let d = size_cut(p.buffer, max_bytes) as int;
            let after = p.by_size(max_bytes);
            &&& 0 <= d <= p.buffer.len()
            &&& after.buffer == p.buffer.skip(d)
            &&& bytes_of(after.buffer) <= max_bytes
            &&& forall|j: int| 0 <= j < d ==> bytes_of(#[trigger] p.buffer.skip(j)) > max_bytes
            &&& after.total_bytes == p.total_bytes - bytes_of(p.buffer.take(d))
            &&& d > 0 ==> after.min_offset == p.buffer[d - 1].offset + 1
        }),
{
    let d = size_cut(p.buffer, max_bytes) as int;
    lemma_size_cut_least(p.buffer, max_bytes);
    lemma_bytes_split(p.buffer, d);
}

/// Retention by count drops the oldest events beyond `max_messages`, no
/// more, and frees exactly their bytes.
pub proof fn lemma_retention_by_count(p: PartitionState, max_messages: u64)
    requires
        p.wf(),
    ensures
        ({
            let n = p.buffer.len() as int;
            let d = if n > max_messages { n - max_messages } else { 0 };
            let after = p.by_count(max_messages);
            &&& after.buffer == p.buffer.skip(d)
            &&& after.buffer.len() <= max_messages
            &&& forall|j: int| 0 <= j < d ==> (#[trigger] p.buffer.skip(j)).len() > max_messages
            &&& after.total_bytes == p.total_bytes - bytes_of(p.buffer.take(d))
            &&& d > 0 ==> after.min_offset == p.buffer[d - 1].offset + 1
        }),
{
    let n = p.buffer.len() as int;
    let d = if n > max_messages { n - max_messages } else { 0 };
    lemma_bytes_split(p.buffer, d);
}

/// Counters of a partition.
#[derive(Debug, Clone)]
pub struct PartitionStats {
    pub partition_id: usize,
    pub topic: String,
    pub message_count: u64,
    pub total_bytes: u64,
    pub min_offset: u64,
    pub max_offset: u64,
    /// Seconds since the last compaction.
    pub last_compaction: u64,
}

/// What a compaction removed.
#[derive(Debug, Clone, Copy)]
pub struct CompactionResult {
    pub messages_removed: usize,
    pub bytes_freed: u64,
}

/// One partition of a topic: a log of events with increasing offsets.
pub struct Partition {
    id: usize,
    topic: String,
    buffer: Vec<PartitionEvent>,
    next_offset: u64,
    min_offset: u64,
    total_bytes: u64,
    config: PartitionConfig,
    /// Time of the last compaction (Unix seconds).
    last_compaction: u64,
}

impl View for Partition {
    type V = PartitionState;

    closed spec fn view(&self) -> PartitionState {
        PartitionState {
            id: self.id,
            topic: self.topic@,
            buffer: self.buffer@,
            next_offset: self.next_offset,
            min_offset: self.min_offset,
            total_bytes: self.total_bytes,
            config: self.config,
            last_compaction: self.last_compaction,
        }
    }
}

impl PartitionState {
    /// The invariant: every event belongs to this partition and has an
    /// offset below the next one, the offsets increase along the log, and
    /// the byte count is the events' total.
    pub open spec fn wf(self) -> bool {
        &&& forall|i: int| 0 <= i < self.buffer.len() ==>
            (#[trigger] self.buffer[i]).offset < self.next_offset && self.buffer[i].partition_id == self.id
        &&& forall|i: int, j: int| 0 <= i < j < self.buffer.len() ==>
            (#[trigger] self.buffer[i]).offset < (#[trigger] self.buffer[j]).offset
        &&& self.total_bytes == bytes_of(self.buffer)
    }

    /// The state after removing the events at or before `cutoff`.
    pub open spec fn by_time(self, cutoff: u64) -> Self {
        let kept = newer_than(self.buffer, cutoff);
        PartitionState {
            buffer: kept,
            total_bytes: bytes_of(kept) as u64,
            min_offset: if kept.len() != self.buffer.len() && kept.len() > 0 {
                kept[0].offset
            } else {
                self.min_offset
            },
            ..self
        }
    }

    /// The state after dropping the oldest events `k` of them.
    pub open spec fn drop_oldest(self, k: nat) -> Self {
        PartitionState {
            buffer: self.buffer.skip(k as int),
            total_bytes: bytes_of(self.buffer.skip(k as int)) as u64,
            min_offset: if k > 0 { (self.buffer[k - 1].offset + 1) as u64 } else { self.min_offset },
            ..self
        }
    }

    /// The state after dropping the oldest events until the rest fit in
    /// `max_bytes`.
    pub open spec fn by_size(self, max_bytes: u64) -> Self {
        self.drop_oldest(size_cut(self.buffer, max_bytes))
    }

    /// The state after dropping the oldest events beyond `max_messages`.
    pub open spec fn by_count(self, max_messages: u64) -> Self {
        self.drop_oldest(if self.buffer.len() > max_messages { (self.buffer.len() - max_messages) as nat } else { 0 })
    }

    /// The state after appending `e` at time `now`: it gets this partition
    /// and the next offset; a compaction follows when more than the flush
    /// interval has passed since the last one.
    pub open spec fn appended(self, e: PartitionEvent, now: u64) -> Self {
        let placed = PartitionEvent { partition_id: self.id, offset: self.next_offset, ..e };
        let pushed = PartitionState {
            buffer: self.buffer.push(placed),
            next_offset: (self.next_offset + 1) as u64,
            total_bytes: (self.total_bytes + e.size_bytes) as u64,
            ..self
        };
        if (if now >= self.last_compaction { now - self.last_compaction } else { 0 }) > self.config.flush_interval_secs {
            pushed.compacted(now)
        } else {
            pushed
        }
    }

    /// The state after applying the retention policy at time `now`.
    pub open spec fn compacted(self, now: u64) -> Self {
        let after = match self.config.retention {
            RetentionPolicy::Time { retention_secs } =>
                self.by_time(if now >= retention_secs { (now - retention_secs) as u64 } else { 0 }),
            RetentionPolicy::Size { max_bytes } => self.by_size(max_bytes),
            RetentionPolicy::Messages { max_messages } => self.by_count(max_messages),
            RetentionPolicy::Combined { retention_secs, max_bytes, max_messages } => {
                let a = match retention_secs {
                    Some(secs) => self.by_time(if now >= secs { (now - secs) as u64 } else { 0 }),
                    None => self,
                };
                let b = match max_bytes {
                    Some(m) => a.by_size(m),
                    None => a,
                };
                match max_messages {
                    Some(m) => b.by_count(m),
                    None => b,
                }
            },
            RetentionPolicy::Infinite => self,
        };
        PartitionState { last_compaction: now, ..after }
    }
}

/// `s` without the events at or before `cutoff`; answers the bytes removed.
fn retain_newer(buf: &mut Vec<PartitionEvent>, cutoff: u64) -> (removed: u64)
    requires
        bytes_of(old(buf)@) <= u64::MAX,
    ensures
        final(buf)@ == newer_than(old(buf)@, cutoff),
        removed == bytes_of(old(buf)@) - bytes_of(newer_than(old(buf)@, cutoff)),
{
    let ghost orig = buf@;
    let ghost mut n: int = 0;
    let mut i: usize = 0;
    let mut removed: u64 = 0;
    proof {
        assert(orig.take(0) =~= Seq::<PartitionEvent>::empty());
        assert(buf@ =~= newer_than(orig.take(0), cutoff) + orig.skip(0));
    }
    while i < buf.len()
        invariant
            0 <= n <= orig.len(),
            bytes_of(orig) <= u64::MAX,
            i == newer_than(orig.take(n), cutoff).len(),
            buf@ == newer_than(orig.take(n), cutoff) + orig.skip(n),
            removed == bytes_of(orig.take(n)) - bytes_of(newer_than(orig.take(n), cutoff)),
        decreases orig.len() - n,
    {
        proof {
            assert(buf@[i as int] == orig[n]);
            assert(orig.take(n + 1).drop_last() =~= orig.take(n));
            assert(orig.take(n + 1).last() == orig[n]);
            lemma_bytes_prefix(orig, n + 1);
            let k = newer_than(orig.take(n + 1), cutoff);
            lemma_bytes_prefix(k, 0);
            assert(k.take(0) =~= Seq::<PartitionEvent>::empty());
        }
        if buf[i].timestamp > cutoff {
            i = i + 1;
            proof {
                lemma_bytes_push(newer_than(orig.take(n), cutoff), orig[n]);
                assert(buf@ =~= newer_than(orig.take(n + 1), cutoff) + orig.skip(n + 1));
                n = n + 1;
            }
        } else {
            let gone = buf.remove(i);
            removed = removed + gone.size_bytes;
            proof {
                assert(buf@ =~= newer_than(orig.take(n + 1), cutoff) + orig.skip(n + 1));
                n = n + 1;
            }
        }
    }
    proof {
        assert(orig.take(n) =~= orig);
        assert(buf@ =~= newer_than(orig, cutoff));
    }
    removed
}

impl Partition {
    /// The invariant.
    pub open spec fn wf(&self) -> bool {
        self@.wf()
    }

    /// An empty partition, last compacted at `now`.
    pub fn new_at(id: usize, topic: String, config: PartitionConfig, now: u64) -> (r: Self)
        ensures
            r@ == (PartitionState {
                id,
                topic: topic@,
                buffer: Seq::empty(),
                next_offset: 0,
                min_offset: 0,
                total_bytes: 0,
                config,
                last_compaction: now,
            }),
            r@.wf(),
    {
        let r = Partition {
            id,
            topic,
            buffer: Vec::new(),
            next_offset: 0,
            min_offset: 0,
            total_bytes: 0,
            config,
            last_compaction: now,
        };
        proof {
            assert(r@.buffer =~= Seq::<PartitionEvent>::empty());
        }
        r
    }

    /// An empty partition, last compacted now.
    pub fn new(id: usize, topic: String, config: PartitionConfig) -> (r: Self)
        ensures
            r@.id == id,
            r@.topic == topic@,
            r@.buffer.len() == 0,
            r@.next_offset == 0 && r@.min_offset == 0 && r@.total_bytes == 0,
            r@.config == config,
            r@.wf(),
    {
        let now = unix_time_secs();
        Self::new_at(id, topic, config, now)
    }

    /// Remove the events at or before `cutoff`.
    fn compact_by_time(&mut self, cutoff: u64)
        requires
            old(self)@.wf(),
        ensures
            final(self)@ == old(self)@.by_time(cutoff),
            final(self)@.wf(),
    {
        proof {
            let st = self@;
            lemma_newer_than_keeps(st.buffer, cutoff, st.id, st.next_offset);
        }
        let initial_len = self.buffer.len();
        let mut buf: Vec<PartitionEvent> = Vec::new();
        std::mem::swap(&mut buf, &mut self.buffer);
        let removed = retain_newer(&mut buf, cutoff);
        std::mem::swap(&mut buf, &mut self.buffer);
        self.total_bytes = self.total_bytes.saturating_sub(removed);
        if initial_len != self.buffer.len() && self.buffer.len() > 0 {
            self.min_offset = self.buffer[0].offset;
        }
        proof {
            lemma_bytes_prefix(self.buffer@, 0);
            assert(self.buffer@.take(0) =~= Seq::<PartitionEvent>::empty());
        }
    }

    /// Drop the oldest event.
    fn drop_front(&mut self)
        requires
            old(self)@.wf(),
            old(self)@.buffer.len() > 0,
        ensures
            final(self)@ == old(self)@.drop_oldest(1),
            final(self)@.wf(),
    {
        let evt = self.buffer.remove(0);
        proof {
            lemma_bytes_drop_first(old(self)@.buffer);
            assert(old(self)@.buffer[0] == evt);
            assert(self.buffer@ =~= old(self)@.buffer.skip(1));
            lemma_bytes_prefix(self.buffer@, 0);
            assert(self.buffer@.take(0) =~= Seq::<PartitionEvent>::empty());
        }
        self.total_bytes = self.total_bytes.saturating_sub(evt.size_bytes);
        self.min_offset = evt.offset + 1;
    }

    /// Drop the oldest events until the rest fit in `max_bytes`.
    fn compact_by_size(&mut self, max_bytes: u64)
        requires
            old(self)@.wf(),
        ensures
            final(self)@ == old(self)@.by_size(max_bytes),
            final(self)@.wf(),
    {
        let ghost st = self@;
        let ghost mut k: nat = 0;
        proof {
            assert(st.buffer.skip(0) =~= st.buffer);
        }
        while self.total_bytes > max_bytes && self.buffer.len() > 0
            invariant
                st.wf(),
                self@.wf(),
                k <= st.buffer.len(),
                self@ == (if k == 0 { st } else { st.drop_oldest(k) }),
                size_cut(st.buffer, max_bytes) == k + size_cut(self@.buffer, max_bytes),
            decreases self@.buffer.len(),
        {
            let ghost before = self@;
            self.drop_front();
            proof {
                assert(before.buffer.drop_first() =~= before.buffer.skip(1));
                assert(st.buffer.skip(k as int).skip(1) =~= st.buffer.skip(k + 1 as int));
                if k > 0 {
                    assert(before.buffer[0] == st.buffer[k as int]);
                } else {
                    assert(before.buffer == st.buffer);
                }
                k = k + 1;
                assert(self@.buffer =~= st.drop_oldest(k).buffer);
            }
        }
        proof {
            assert(size_cut(self@.buffer, max_bytes) == 0);
        }
    }

    /// Drop the oldest events beyond `max_messages`.
    fn compact_by_count(&mut self, max_messages: u64)
        requires
            old(self)@.wf(),
        ensures
            final(self)@ == old(self)@.by_count(max_messages),
            final(self)@.wf(),
    {
        let ghost st = self@;
        let ghost mut k: nat = 0;
        proof {
            assert(st.buffer.skip(0) =~= st.buffer);
        }
        while self.buffer.len() as u64 > max_messages && self.buffer.len() > 0
            invariant
                st.wf(),
                self@.wf(),
                k <= st.buffer.len(),
                self@ == (if k == 0 { st } else { st.drop_oldest(k) }),
                self@.buffer.len() == st.buffer.len() - k,
                st.buffer.len() > max_messages ==> k <= st.buffer.len() - max_messages,
                st.buffer.len() <= max_messages ==> k == 0,
            decreases self@.buffer.len(),
        {
            let ghost before = self@;
            self.drop_front();
            proof {
                assert(before.buffer.drop_first() =~= before.buffer.skip(1));
                assert(st.buffer.skip(k as int).skip(1) =~= st.buffer.skip(k + 1 as int));
                if k > 0 {
                    assert(before.buffer[0] == st.buffer[k as int]);
                } else {
                    assert(before.buffer == st.buffer);
                }
                k = k + 1;
                assert(self@.buffer =~= st.drop_oldest(k).buffer);
            }
        }
    }

    /// Apply the retention policy at time `now` and note the time.
    pub fn compact_at(&mut self, now: u64) -> (r: CompactionResult)
        requires
            old(self)@.wf(),
        ensures
            final(self)@ == old(self)@.compacted(now),
            final(self)@.wf(),
            r.messages_removed == old(self)@.buffer.len() - final(self)@.buffer.len(),
            r.bytes_freed == old(self)@.total_bytes - final(self)@.total_bytes,
    {
        let initial_count = self.buffer.len();
        let initial_bytes = self.total_bytes;
        let ghost st = self@;
        let retention = self.config.retention;
        match retention {
            RetentionPolicy::Time { retention_secs } => {
                let cutoff = now.saturating_sub(retention_secs);
                self.compact_by_time(cutoff);
            },
            RetentionPolicy::Size { max_bytes } => {
                self.compact_by_size(max_bytes);
            },
            RetentionPolicy::Messages { max_messages } => {
                self.compact_by_count(max_messages);
            },
            RetentionPolicy::Combined { retention_secs, max_bytes, max_messages } => {
                if let Some(secs) = retention_secs {
                    let cutoff = now.saturating_sub(secs);
                    self.compact_by_time(cutoff);
                }
                if let Some(bytes) = max_bytes {
                    self.compact_by_size(bytes);
                }
                if let Some(count) = max_messages {
                    self.compact_by_count(count);
                }
            },
            RetentionPolicy::Infinite => {},
        }
        self.last_compaction = now;
        proof {
            lemma_compacted_shrinks(st, now);
        }
        CompactionResult {
            messages_removed: initial_count - self.buffer.len(),
            bytes_freed: initial_bytes - self.total_bytes,
        }
    }

    /// Apply the retention policy now.
    pub fn compact(&mut self) -> (r: CompactionResult)
        requires
            old(self)@.wf(),
        ensures
            exists|now: u64| final(self)@ == #[trigger] old(self)@.compacted(now),
            final(self)@.wf(),
            r.messages_removed == old(self)@.buffer.len() - final(self)@.buffer.len(),
            r.bytes_freed == old(self)@.total_bytes - final(self)@.total_bytes,
    {
        let now = unix_time_secs();
        self.compact_at(now)
    }

    /// Append `event` at time `now`: it gets this partition and the next
    /// offset, which is answered. When more than the flush interval has
    /// passed since the last compaction, the partition is compacted.
    pub fn append_at(&mut self, event: PartitionEvent, now: u64) -> (r: u64)
        requires
            old(self)@.wf(),
            old(self)@.next_offset < u64::MAX,
            old(self)@.total_bytes + event.size_bytes <= u64::MAX,
        ensures
            r == old(self)@.next_offset,
            final(self)@ == old(self)@.appended(event, now),
            final(self)@.wf(),
    {
        let mut event = event;
        event.partition_id = self.id;
        event.offset = self.next_offset;
        let ghost e = event;
        self.total_bytes = self.total_bytes + event.size_bytes;
        self.buffer.push(event);
        self.next_offset = self.next_offset + 1;
        proof {
            lemma_bytes_push(old(self)@.buffer, e);
        }
        if now.saturating_sub(self.last_compaction) > self.config.flush_interval_secs {
            let _result = self.compact_at(now);
        }
        self.next_offset - 1
    }

    /// Append `event` now (see `append_at`).
    pub fn append(&mut self, event: PartitionEvent) -> (r: u64)
        requires
            old(self)@.wf(),
            old(self)@.next_offset < u64::MAX,
            old(self)@.total_bytes + event.size_bytes <= u64::MAX,
        ensures
            r == old(self)@.next_offset,
            exists|now: u64| final(self)@ == #[trigger] old(self)@.appended(event, now),
            final(self)@.wf(),
    {
        let now = unix_time_secs();
        self.append_at(event, now)
    }

    /// Up to `limit` events with offset at least `from_offset`, oldest first.
    pub fn read(&self, from_offset: u64, limit: usize) -> (r: Vec<PartitionEvent>)
        ensures
            views(r@) == views(at_or_after(self@.buffer, from_offset).take(
                if limit <= at_or_after(self@.buffer, from_offset).len() { limit as int }
                else { at_or_after(self@.buffer, from_offset).len() as int },
            )),
    {
        let ghost b = self@.buffer;
        let mut out: Vec<PartitionEvent> = Vec::new();
        let mut i: usize = 0;
        while i < self.buffer.len()
            invariant
                b == self@.buffer,
                i <= b.len(),
                out@.len() == if limit <= at_or_after(b.take(i as int), from_offset).len() { limit as int }
                    else { at_or_after(b.take(i as int), from_offset).len() as int },
                views(out@) == views(at_or_after(b.take(i as int), from_offset).take(out@.len() as int)),
            decreases b.len() - i,
        {
            let ghost f = at_or_after(b.take(i as int), from_offset);
            proof {
                assert(b.take(i + 1).drop_last() =~= b.take(i as int));
                assert(b.take(i + 1).last() == b[i as int]);
            }
            if self.buffer[i].offset >= from_offset && out.len() < limit {
                let ghost old_out = out@;
                let e = self.buffer[i].clone();
                out.push(e);
                proof {
                    let f2 = at_or_after(b.take(i + 1), from_offset);
                    assert(f2 == f.push(b[i as int]));
                    assert(f.take(old_out.len() as int) =~= f);
                    assert(f2.take(out@.len() as int) =~= f2);
                    lemma_views_push(old_out, e);
                    lemma_views_push(f, b[i as int]);
                    assert(out@ == old_out.push(e));
                }
            } else {
                proof {
                    let f2 = at_or_after(b.take(i + 1), from_offset);
                    if b[i as int].offset >= from_offset {
                        assert(f2 == f.push(b[i as int]));
                        assert(f2.take(out@.len() as int) =~= f.take(out@.len() as int));
                    } else {
                        assert(f2 == f);
                    }
                }
            }
            i = i + 1;
        }
        proof {
            assert(b.take(b.len() as int) =~= b);
        }
        out
    }

    /// Copies of all events, oldest first.
    pub fn get_all_events(&self) -> (r: Vec<PartitionEvent>)
        ensures
            views(r@) == views(self@.buffer),
    {
        let mut out: Vec<PartitionEvent> = Vec::new();
        let mut i: usize = 0;
        while i < self.buffer.len()
            invariant
                i <= self.buffer@.len(),
                views(out@) == views(self.buffer@.take(i as int)),
            decreases self.buffer@.len() - i,
        {
            let ghost old_out = out@;
            let e = self.buffer[i].clone();
            out.push(e);
            proof {
                lemma_views_push(old_out, e);
                lemma_views_push(self.buffer@.take(i as int), self.buffer@[i as int]);
                assert(self.buffer@.take(i as int).push(self.buffer@[i as int]) =~= self.buffer@.take(i + 1));
            }
            i = i + 1;
        }
        proof {
            assert(self.buffer@.take(self.buffer@.len() as int) =~= self.buffer@);
        }
        out
    }

    /// Counters at time `now`; `last_compaction` is the seconds since the
    /// last compaction.
    pub fn stats_at(&self, now: u64) -> (r: PartitionStats)
        ensures
            r.partition_id == self@.id,
            r.topic@ == self@.topic,
            r.message_count == self@.buffer.len(),
            r.total_bytes == self@.total_bytes,
            r.min_offset == self@.min_offset,
            r.max_offset == (if self@.next_offset > 0 { self@.next_offset - 1 } else { 0 }),
            r.last_compaction == (if now >= self@.last_compaction { now - self@.last_compaction } else { 0 }),
    {
        PartitionStats {
            partition_id: self.id,
            topic: self.topic.clone(),
            message_count: self.buffer.len() as u64,
            total_bytes: self.total_bytes,
            min_offset: self.min_offset,
            max_offset: if self.next_offset > 0 { self.next_offset - 1 } else { 0 },
            last_compaction: now.saturating_sub(self.last_compaction),
        }
    }

    /// Counters now (see `stats_at`).
    pub fn stats(&self) -> (r: PartitionStats)
        ensures
            r.partition_id == self@.id,
            r.topic@ == self@.topic,
            r.message_count == self@.buffer.len(),
            r.total_bytes == self@.total_bytes,
            r.min_offset == self@.min_offset,
            r.max_offset == (if self@.next_offset > 0 { self@.next_offset - 1 } else { 0 }),
    {
        let now = unix_time_secs();
        self.stats_at(now)
    }

}

/// `k` steps of the bitwise CRC-32 register update (reflected, with the
/// polynomial 0xEDB88320).
pub open spec fn crc32_shift(c: u32, k: nat) -> u32
    decreases k,
{
    if k == 0 {
        c
    } else {
        let d = crc32_shift(c, (k - 1) as nat);
        if d & 1u32 == 1u32 { (d >> 1u32) ^ 0xEDB8_8320u32 } else { d >> 1u32 }
    }
}

/// The CRC-32 register after `bytes`, starting from all ones.
pub open spec fn crc32_register(bytes: Seq<u8>) -> u32
    decreases bytes.len(),
{
    if bytes.len() == 0 {
        0xFFFF_FFFFu32
    } else {
        crc32_shift(crc32_register(bytes.drop_last()) ^ (bytes.last() as u32), 8)
    }
}

/// The CRC-32 (IEEE) checksum of `bytes`: the final register, inverted.
pub open spec fn crc32_of(bytes: Seq<u8>) -> u32 {
    !crc32_register(bytes)
}

/// `crc32fast::hash`: the CRC-32 (IEEE) checksum of the bytes.
#[verifier::external_body]
fn crc32_hash(data: &[u8]) -> (r: u32)
    ensures
        r == crc32_of(data@),
{
    crc32fast::hash(data)
}

/// What a read of a partition gives: up to `limit` events with offset at
/// least `from`, oldest first.
pub open spec fn read_result(buf: Seq<PartitionEvent>, from: u64, limit: usize) -> Seq<PartitionEvent> {
    let f = at_or_after(buf, from);
    f.take(if limit <= f.len() { limit as int } else { f.len() as int })
}

/// The events at or after `from` keep increasing offsets, each at least
/// `from`, each one of `s`.
proof fn lemma_at_or_after_ascending(s: Seq<PartitionEvent>, from: u64)
    requires
        forall|i: int, j: int| 0 <= i < j < s.len() ==> (#[trigger] s[i]).offset < (#[trigger] s[j]).offset,
    ensures
        forall|i: int, j: int| 0 <= i < j < at_or_after(s, from).len() ==>
            (#[trigger] at_or_after(s, from)[i]).offset < (#[trigger] at_or_after(s, from)[j]).offset,
        forall|i: int| 0 <= i < at_or_after(s, from).len() ==> (#[trigger] at_or_after(s, from)[i]).offset >= from
            && exists|k: int| 0 <= k < s.len() && at_or_after(s, from)[i] == s[k],
    decreases s.len(),
{
    if s.len() > 0 {
        let d = s.drop_last();
        assert forall|i: int, j: int| 0 <= i < j < d.len() implies (#[trigger] d[i]).offset < (#[trigger] d[j]).offset by {
            assert(d[i] == s[i] && d[j] == s[j]);
        }
        lemma_at_or_after_ascending(d, from);
        let r = at_or_after(d, from);
        let n = at_or_after(s, from);
        assert forall|i: int| 0 <= i < r.len() implies (#[trigger] r[i]).offset >= from
            && exists|k: int| 0 <= k < s.len() && r[i] == s[k] by {
            let k = choose|k: int| 0 <= k < d.len() && r[i] == d[k];
            assert(s[k] == d[k]);
        }
        if s.last().offset >= from {
            assert forall|i: int, j: int| 0 <= i < j < n.len() implies (#[trigger] n[i]).offset < (#[trigger] n[j]).offset by {
                assert(n[i] == r[i]);
                if j < r.len() {
                    assert(n[j] == r[j]);
                } else {
                    let k = choose|k: int| 0 <= k < d.len() && r[i] == d[k];
                    assert(s[k] == d[k]);
                    assert(n[j] == s[s.len() - 1]);
                }
            }
            assert forall|i: int| 0 <= i < n.len() implies (#[trigger] n[i]).offset >= from
                && exists|k: int| 0 <= k < s.len() && n[i] == s[k] by {
                if i < r.len() {
                    assert(n[i] == r[i]);
                } else {
                    assert(n[i] == s[s.len() - 1]);
                }
            }
        }
    }
}

/// A read gives events in increasing offset order, none before `from`.
pub proof fn lemma_read_ascending(st: PartitionState, from: u64, limit: usize)
    requires
        st.wf(),
    ensures
        forall|i: int, j: int| 0 <= i < j < read_result(st.buffer, from, limit).len() ==>
            (#[trigger] read_result(st.buffer, from, limit)[i]).offset
                < (#[trigger] read_result(st.buffer, from, limit)[j]).offset,
        forall|i: int| 0 <= i < read_result(st.buffer, from, limit).len() ==>
            (#[trigger] read_result(st.buffer, from, limit)[i]).offset >= from,
{
    lemma_at_or_after_ascending(st.buffer, from);
    let f = at_or_after(st.buffer, from);
    let r = read_result(st.buffer, from, limit);
    assert forall|i: int| 0 <= i < r.len() implies #[trigger] r[i] == f[i] by {}
}

/// `s` with `e` placed after the last event not newer than it.
pub open spec fn place_by_time(s: Seq<EventView>, e: EventView) -> Seq<EventView>
    decreases s.len(),
{
    if s.len() == 0 {
        seq![e]
    } else if s.last().timestamp > e.timestamp {
        place_by_time(s.drop_last(), e).push(s.last())
    } else {
        s.push(e)
    }
}

/// `s` sorted by timestamp, events of equal time in their order in `s`.
pub open spec fn sort_by_time(s: Seq<EventView>) -> Seq<EventView>
    decreases s.len(),
{
    if s.len() == 0 {
        s
    } else {
        place_by_time(sort_by_time(s.drop_last()), s.last())
    }
}

/// Placing `e` at `j`, where every event from `j` on is newer than `e` and
/// the one before `j` is not, is what `place_by_time` does.
proof fn lemma_place_at(s: Seq<EventView>, e: EventView, j: int)
    requires
        0 <= j <= s.len(),
        forall|x: int| j <= x < s.len() ==> (#[trigger] s[x]).timestamp > e.timestamp,
        j > 0 ==> s[j - 1].timestamp <= e.timestamp,
    ensures
        place_by_time(s, e) == s.insert(j, e),
    decreases s.len(),
{
    if s.len() == 0 {
        assert(s.insert(j, e) =~= seq![e]);
    } else if j == s.len() {
        assert(s.insert(j, e) =~= s.push(e));
    } else {
        lemma_place_at(s.drop_last(), e, j);
        assert(s.insert(j, e) =~= s.drop_last().insert(j, e).push(s.last()));
    }
}

/// Sorting keeps the length.
proof fn lemma_sort_len(s: Seq<EventView>)
    ensures
        sort_by_time(s).len() == s.len(),
    decreases s.len(),
{
    if s.len() > 0 {
        lemma_sort_len(s.drop_last());
        lemma_place_len(sort_by_time(s.drop_last()), s.last());
    }
}

/// Placing adds one event.
proof fn lemma_place_len(s: Seq<EventView>, e: EventView)
    ensures
        place_by_time(s, e).len() == s.len() + 1,
    decreases s.len(),
{
    if s.len() > 0 && s.last().timestamp > e.timestamp {
        lemma_place_len(s.drop_last(), e);
    }
}

/// Events with the same key go to the same partition of topics with the
/// same number of partitions.
pub proof fn lemma_same_key_same_partition(a: TopicState, b: TopicState, key: Seq<u8>, i: int, j: int)
    requires
        a.partitions.len() == b.partitions.len(),
        a.selects(Some(key), i),
        b.selects(Some(key), j),
    ensures
        i == j,
{
}

/// Each append takes the next offset: offsets run 0, 1, 2, ... whatever
/// compaction removes.
pub proof fn lemma_appended_next_offset(st: PartitionState, e: PartitionEvent, now: u64)
    requires
        st.next_offset < u64::MAX,
    ensures
        st.appended(e, now).next_offset == st.next_offset + 1,
{
}

/// The state of a partitioned topic.
pub struct TopicState {
    pub name: Seq<char>,
    pub partitions: Seq<PartitionState>,
    pub config: PartitionConfig,
}

/// The events gathered from every partition by reads from `from`, partition
/// by partition.
pub open spec fn gathered(parts: Seq<PartitionState>, from: u64, limit: usize) -> Seq<EventView>
    decreases parts.len(),
{
    if parts.len() == 0 {
        Seq::empty()
    } else {
        gathered(parts.drop_last(), from, limit) + views(read_result(parts.last().buffer, from, limit))
    }
}

/// The index of the first partition holding the fewest events.
pub open spec fn is_least_loaded(parts: Seq<PartitionState>, i: int) -> bool {
    &&& 0 <= i < parts.len()
    &&& forall|j: int| 0 <= j < parts.len() ==> parts[i].buffer.len() <= (#[trigger] parts[j]).buffer.len()
    &&& forall|j: int| 0 <= j < i ==> (#[trigger] parts[j]).buffer.len() > parts[i].buffer.len()
}

impl TopicState {
    /// The invariant: each partition is well formed, numbered by position
    /// and carries the topic's name.
    pub open spec fn wf(self) -> bool {
        forall|i: int| 0 <= i < self.partitions.len() ==> (#[trigger] self.partitions[i]).wf() && self.partitions[i].id == i
            && self.partitions[i].topic == self.name
    }

    /// Whether `after` is this topic with every partition compacted at `now`.
    pub open spec fn all_compacted(self, after: TopicState, now: u64) -> bool {
        &&& after.partitions.len() == self.partitions.len()
        &&& forall|i: int| 0 <= i < self.partitions.len() ==>
            (#[trigger] after.partitions[i]) == self.partitions[i].compacted(now)
    }

    /// The partition chosen for an event with key `key`: by CRC-32 of the
    /// key, else the first of the least loaded (0 when there is none).
    pub open spec fn selects(self, key: Option<Seq<u8>>, i: int) -> bool {
        match key {
            Some(k) => i == crc32_of(k) as int % self.partitions.len() as int,
            None => if self.partitions.len() == 0 { i == 0 } else { is_least_loaded(self.partitions, i) },
        }
    }
}

/// A topic split into partitions.
pub struct PartitionedTopic {
    name: String,
    partitions: Vec<Partition>,
    config: PartitionConfig,
}

impl View for PartitionedTopic {
    type V = TopicState;

    closed spec fn view(&self) -> TopicState {
        TopicState {
            name: self.name@,
            partitions: self.partitions@.map_values(|p: Partition| p@),
            config: self.config,
        }
    }
}

impl PartitionedTopic {
    /// A topic with `config.num_partitions` empty partitions, numbered from
    /// 0, last compacted at `now`.
    pub fn new_at(name: String, config: PartitionConfig, now: u64) -> (r: Self)
        ensures
            r@.wf(),
            r@.name == name@,
            r@.config == config,
            r@.partitions.len() == config.num_partitions,
            forall|i: int| 0 <= i < r@.partitions.len() ==> (#[trigger] r@.partitions[i]) == (PartitionState {
                id: i as usize,
                topic: name@,
                buffer: Seq::empty(),
                next_offset: 0,
                min_offset: 0,
                total_bytes: 0,
                config,
                last_compaction: now,
            }),
    {
        let mut partitions: Vec<Partition> = Vec::new();
        let mut i: usize = 0;
        while i < config.num_partitions
            invariant
                i <= config.num_partitions,
                partitions@.len() == i,
                forall|j: int| 0 <= j < i ==> (#[trigger] partitions@[j])@ == (PartitionState {
                    id: j as usize,
                    topic: name@,
                    buffer: Seq::empty(),
                    next_offset: 0,
                    min_offset: 0,
                    total_bytes: 0,
                    config,
                    last_compaction: now,
                }),
            decreases config.num_partitions - i,
        {
            let p = Partition::new_at(i, name.clone(), config, now);
            partitions.push(p);
            i = i + 1;
        }
        PartitionedTopic { name, partitions, config }
    }

    /// A topic with `config.num_partitions` empty partitions (see `new_at`).
    pub fn new(name: String, config: PartitionConfig) -> (r: Self)
        ensures
            r@.wf(),
            r@.name == name@,
            r@.config == config,
            r@.partitions.len() == config.num_partitions,
            forall|i: int| 0 <= i < r@.partitions.len() ==> {
                let p = #[trigger] r@.partitions[i];
                &&& p.id == i && p.topic == name@ && p.buffer.len() == 0
                &&& p.next_offset == 0 && p.min_offset == 0 && p.total_bytes == 0 && p.config == config
            },
    {
        let now = unix_time_secs();
        Self::new_at(name, config, now)
    }

    /// The partition for an event with key `key`.
    pub fn select_partition(&self, key: &Option<Vec<u8>>) -> (r: usize)
        requires
            key is Some ==> self@.partitions.len() > 0,
        ensures
            self@.selects(opt_bytes(*key), r as int),
    {
        match key {
            Some(k) => {
                let hash = crc32_hash(k.as_slice());
                (hash as usize) % self.partitions.len()
            },
            None => {
                if self.partitions.len() == 0 {
                    return 0;
                }
                let ghost parts = self@.partitions;
                let mut best: usize = 0;
                let mut i: usize = 1;
                while i < self.partitions.len()
                    invariant
                        parts == self@.partitions,
                        parts.len() == self.partitions@.len(),
                        1 <= i <= parts.len(),
                        best < i,
                        forall|j: int| 0 <= j < i ==> parts[best as int].buffer.len() <= (#[trigger] parts[j]).buffer.len(),
                        forall|j: int| 0 <= j < best ==> (#[trigger] parts[j]).buffer.len() > parts[best as int].buffer.len(),
                    decreases parts.len() - i,
                {
                    proof {
                        assert(parts[i as int] == self.partitions@[i as int]@);
                        assert(parts[best as int] == self.partitions@[best as int]@);
                    }
                    if self.partitions[i].buffer.len() < self.partitions[best].buffer.len() {
                        best = i;
                    }
                    i = i + 1;
                }
                best
            },
        }
    }

    /// Number of partitions.
    pub fn partition_count(&self) -> (n: usize)
        ensures
            n == self@.partitions.len(),
    {
        self.partitions.len()
    }

    /// The topic name.
    pub fn name(&self) -> (r: &str)
        ensures
            r@ == self@.name,
    {
        self.name.as_str()
    }

    /// Publish `event` at time `now`: it goes to the partition the key
    /// selects; answers that partition and the offset the event got.
    pub fn publish_at(&mut self, event: PartitionEvent, now: u64) -> (r: (usize, u64))
        requires
            old(self)@.wf(),
            old(self)@.partitions.len() > 0,
            forall|i: int| 0 <= i < old(self)@.partitions.len() ==>
                (#[trigger] old(self)@.partitions[i]).next_offset < u64::MAX
                && old(self)@.partitions[i].total_bytes + event.size_bytes <= u64::MAX,
        ensures
            final(self)@.wf(),
            old(self)@.selects(opt_bytes(event.key), r.0 as int),
            r.0 < old(self)@.partitions.len(),
            r.1 == old(self)@.partitions[r.0 as int].next_offset,
            final(self)@.partitions == old(self)@.partitions.update(
                r.0 as int, old(self)@.partitions[r.0 as int].appended(event, now)),
            final(self)@.name == old(self)@.name,
            final(self)@.config == old(self)@.config,
    {
        let pid = self.select_partition(&event.key);
        proof {
            if event.key is None {
                assert(is_least_loaded(old(self)@.partitions, pid as int));
            }
        }
        let ghost st = self@;
        let mut p = self.partitions.remove(pid);
        proof {
            assert(p@ == st.partitions[pid as int]);
        }
        let offset = p.append_at(event, now);
        self.partitions.insert(pid, p);
        proof {
            assert(self@.partitions =~= st.partitions.update(pid as int, st.partitions[pid as int].appended(event, now)));
        }
        (pid, offset)
    }

    /// Publish `event` now (see `publish_at`).
    pub fn publish(&mut self, event: PartitionEvent) -> (r: (usize, u64))
        requires
            old(self)@.wf(),
            old(self)@.partitions.len() > 0,
            forall|i: int| 0 <= i < old(self)@.partitions.len() ==>
                (#[trigger] old(self)@.partitions[i]).next_offset < u64::MAX
                && old(self)@.partitions[i].total_bytes + event.size_bytes <= u64::MAX,
        ensures
            final(self)@.wf(),
            old(self)@.selects(opt_bytes(event.key), r.0 as int),
            r.0 < old(self)@.partitions.len(),
            r.1 == old(self)@.partitions[r.0 as int].next_offset,
            exists|now: u64| final(self)@.partitions == old(self)@.partitions.update(
                r.0 as int, #[trigger] old(self)@.partitions[r.0 as int].appended(event, now)),
    {
        let now = unix_time_secs();
        self.publish_at(event, now)
    }

    /// Up to `limit` events of partition `partition_id` from `from_offset`;
    /// an unknown partition is an error naming it.
    pub fn consume_partition(&self, partition_id: usize, from_offset: u64, limit: usize) -> (r: Result<Vec<PartitionEvent>, String>)
        ensures
            partition_id < self@.partitions.len() ==> (r matches Ok(v)
                && views(v@) == views(read_result(self@.partitions[partition_id as int].buffer, from_offset, limit))),
            partition_id >= self@.partitions.len() ==> (r matches Err(m)
                && m@ == "Partition "@ + decimal_text(partition_id as int) + " not found"@),
    {
        if partition_id < self.partitions.len() {
            Ok(self.partitions[partition_id].read(from_offset, limit))
        } else {
            let n = usize_text(partition_id);
            let head = concat("Partition ", n.as_str());
            Err(concat(head.as_str(), " not found"))
        }
    }

    /// Reads of `limit` events from `from_offset` on every partition, merged
    /// by timestamp (events of equal time in partition order), cut to `limit`.
    pub fn consume_all(&self, from_offset: u64, limit: usize) -> (r: Vec<PartitionEvent>)
        ensures
            views(r@) == sort_by_time(gathered(self@.partitions, from_offset, limit)).take(
                if limit <= gathered(self@.partitions, from_offset, limit).len() { limit as int }
                else { gathered(self@.partitions, from_offset, limit).len() as int }),
    {
        let ghost parts = self@.partitions;
        let mut all: Vec<PartitionEvent> = Vec::new();
        let mut i: usize = 0;
        while i < self.partitions.len()
            invariant
                parts == self@.partitions,
                parts.len() == self.partitions@.len(),
                i <= parts.len(),
                views(all@) == gathered(parts.take(i as int), from_offset, limit),
            decreases parts.len() - i,
        {
            let mut events = self.partitions[i].read(from_offset, limit);
            proof {
                assert(parts[i as int] == self.partitions@[i as int]@);
                assert(parts.take(i + 1).drop_last() =~= parts.take(i as int));
                assert(views(all@ + events@) =~= views(all@) + views(events@));
            }
            all.append(&mut events);
            i = i + 1;
        }
        proof {
            assert(parts.take(parts.len() as int) =~= parts);
        }
        let ghost g = views(all@);
        let mut out: Vec<PartitionEvent> = Vec::new();
        let ghost mut k: int = 0;
        proof {
            assert(g.take(0) =~= Seq::<EventView>::empty());
            assert(views(all@) =~= g.skip(0));
            assert(views(all@).len() == all@.len());
        }
        while all.len() > 0
            invariant
                0 <= k <= g.len(),
                views(all@) == g.skip(k),
                views(out@) == sort_by_time(g.take(k)),
                out@.len() == k,
                all@.len() == g.len() - k,
            decreases all@.len(),
        {
            let ghost old_all = all@;
            let e = all.remove(0);
            proof {
                assert(views(old_all)[0] == old_all[0]@);
                assert(e@ == g[k]);
                assert forall|x: int| 0 <= x < all@.len() implies #[trigger] views(all@)[x] == views(old_all)[x + 1] by {
                    assert(all@[x] == old_all[x + 1]);
                }
                assert(views(all@) =~= g.skip(k + 1));
            }
            let mut j: usize = out.len();
            while j > 0 && out[j - 1].timestamp > e.timestamp
                invariant
                    j <= out@.len(),
                    forall|x: int| j <= x < out@.len() ==> (#[trigger] out@[x]).timestamp > e.timestamp,
                decreases j,
            {
                j = j - 1;
            }
            let ghost before = out@;
            out.insert(j, e);
            proof {
                let vb = views(before);
                assert forall|x: int| j <= x < vb.len() implies (#[trigger] vb[x]).timestamp > e@.timestamp by {
                    assert(vb[x] == before[x]@);
                }
                if j > 0 {
                    assert(vb[j - 1] == before[j - 1]@);
                }
                lemma_place_at(vb, e@, j as int);
                assert(views(out@) =~= vb.insert(j as int, e@));
                assert(g.take(k + 1).drop_last() =~= g.take(k));
                assert(g.take(k + 1).last() == g[k]);
                k = k + 1;
            }
        }
        proof {
            assert(g.take(k) =~= g);
            lemma_sort_len(g);
        }
        out.truncate(limit);
        proof {
            assert(views(out@) =~= sort_by_time(g).take(
                if limit <= g.len() { limit as int } else { g.len() as int }));
        }
        out
    }

    /// Counters of every partition at time `now`.
    pub fn stats_at(&self, now: u64) -> (r: Vec<PartitionStats>)
        ensures
            r@.len() == self@.partitions.len(),
            forall|i: int| 0 <= i < r@.len() ==> {
                let p = #[trigger] self@.partitions[i];
                &&& r@[i].partition_id == p.id
                &&& r@[i].topic@ == p.topic
                &&& r@[i].message_count == p.buffer.len()
                &&& r@[i].total_bytes == p.total_bytes
                &&& r@[i].min_offset == p.min_offset
                &&& r@[i].max_offset == (if p.next_offset > 0 { p.next_offset - 1 } else { 0 })
                &&& r@[i].last_compaction == (if now >= p.last_compaction { now - p.last_compaction } else { 0 })
            },
    {
        let mut out: Vec<PartitionStats> = Vec::new();
        let mut i: usize = 0;
        while i < self.partitions.len()
            invariant
                i <= self.partitions@.len(),
                out@.len() == i,
                forall|j: int| 0 <= j < i ==> {
                    let p = #[trigger] self@.partitions[j];
                    &&& out@[j].partition_id == p.id
                    &&& out@[j].topic@ == p.topic
                    &&& out@[j].message_count == p.buffer.len()
                    &&& out@[j].total_bytes == p.total_bytes
                    &&& out@[j].min_offset == p.min_offset
                    &&& out@[j].max_offset == (if p.next_offset > 0 { p.next_offset - 1 } else { 0 })
                    &&& out@[j].last_compaction == (if now >= p.last_compaction { now - p.last_compaction } else { 0 })
                },
            decreases self.partitions@.len() - i,
        {
            let st = self.partitions[i].stats_at(now);
            out.push(st);
            proof {
                assert(self@.partitions[i as int] == self.partitions@[i as int]@);
            }
            i = i + 1;
        }
        out
    }

    /// Counters of every partition now.
    pub fn stats(&self) -> (r: Vec<PartitionStats>)
        ensures
            r@.len() == self@.partitions.len(),
            forall|i: int| 0 <= i < r@.len() ==> {
                let p = #[trigger] self@.partitions[i];
                &&& r@[i].partition_id == p.id
                &&& r@[i].topic@ == p.topic
                &&& r@[i].message_count == p.buffer.len()
                &&& r@[i].total_bytes == p.total_bytes
                &&& r@[i].min_offset == p.min_offset
                &&& r@[i].max_offset == (if p.next_offset > 0 { p.next_offset - 1 } else { 0 })
            },
    {
        let now = unix_time_secs();
        self.stats_at(now)
    }

    /// Apply the retention policy to every partition at time `now`;
    /// answers each partition's number with what it removed.
    pub fn compact_all_at(&mut self, now: u64) -> (r: Vec<(usize, CompactionResult)>)
        requires
            old(self)@.wf(),
        ensures
            final(self)@.wf(),
            final(self)@.name == old(self)@.name,
            final(self)@.config == old(self)@.config,
            final(self)@.partitions.len() == old(self)@.partitions.len(),
            r@.len() == old(self)@.partitions.len(),
            forall|i: int| 0 <= i < r@.len() ==> {
                &&& #[trigger] final(self)@.partitions[i] == old(self)@.partitions[i].compacted(now)
                &&& r@[i].0 == i
                &&& r@[i].1.messages_removed == old(self)@.partitions[i].buffer.len() - final(self)@.partitions[i].buffer.len()
                &&& r@[i].1.bytes_freed == old(self)@.partitions[i].total_bytes - final(self)@.partitions[i].total_bytes
            },
    {
        let ghost st = self@;
        let mut out: Vec<(usize, CompactionResult)> = Vec::new();
        let mut i: usize = 0;
        while i < self.partitions.len()
            invariant
                st.wf(),
                self@.name == st.name,
                self@.config == st.config,
                self@.partitions.len() == st.partitions.len(),
                self.partitions@.len() == st.partitions.len(),
                i <= st.partitions.len(),
                out@.len() == i,
                forall|j: int| 0 <= j < st.partitions.len() ==>
                    (#[trigger] self@.partitions[j]).wf() && self@.partitions[j].id == j,
                forall|j: int| i <= j < st.partitions.len() ==> (#[trigger] self@.partitions[j]) == st.partitions[j],
                forall|j: int| 0 <= j < i ==> {
                    &&& #[trigger] self@.partitions[j] == st.partitions[j].compacted(now)
                    &&& out@[j].0 == j
                    &&& out@[j].1.messages_removed == st.partitions[j].buffer.len() - self@.partitions[j].buffer.len()
                    &&& out@[j].1.bytes_freed == st.partitions[j].total_bytes - self@.partitions[j].total_bytes
                },
            decreases st.partitions.len() - i,
        {
            let ghost before = self@;
            let mut p = self.partitions.remove(i);
            proof {
                assert(p@ == before.partitions[i as int]);
            }
            let res = p.compact_at(now);
            self.partitions.insert(i, p);
            proof {
                assert(self@.partitions =~= before.partitions.update(i as int, st.partitions[i as int].compacted(now)));
            }
            out.push((i, res));
            i = i + 1;
        }
        out
    }

    /// Apply the retention policy to every partition now.
    pub fn compact_all(&mut self) -> (r: Vec<(usize, CompactionResult)>)
        requires
            old(self)@.wf(),
        ensures
            final(self)@.wf(),
            final(self)@.partitions.len() == old(self)@.partitions.len(),
            r@.len() == old(self)@.partitions.len(),
            exists|now: u64| #[trigger] old(self)@.all_compacted(final(self)@, now),
            forall|i: int| 0 <= i < r@.len() ==> {
                &&& (#[trigger] r@[i]).0 == i
                &&& r@[i].1.messages_removed == old(self)@.partitions[i].buffer.len() - final(self)@.partitions[i].buffer.len()
                &&& r@[i].1.bytes_freed == old(self)@.partitions[i].total_bytes - final(self)@.partitions[i].total_bytes
            },
    {
        let now = unix_time_secs();
        let r = self.compact_all_at(now);
        proof {
            assert(old(self)@.all_compacted(self@, now));
        }
        r
    }

    /// Copies of every partition's events, with the partition's number.
    pub fn get_all_events(&self) -> (r: Vec<(usize, Vec<PartitionEvent>)>)
        ensures
            r@.len() == self@.partitions.len(),
            forall|i: int| 0 <= i < r@.len() ==> (#[trigger] r@[i]).0 == i
                && views(r@[i].1@) == views(self@.partitions[i].buffer),
    {
        let mut out: Vec<(usize, Vec<PartitionEvent>)> = Vec::new();
        let mut i: usize = 0;
        while i < self.partitions.len()
            invariant
                i <= self.partitions@.len(),
                out@.len() == i,
                forall|j: int| 0 <= j < i ==> (#[trigger] out@[j]).0 == j
                    && views(out@[j].1@) == views(self@.partitions[j].buffer),
            decreases self.partitions@.len() - i,
        {
            let events = self.partitions[i].get_all_events();
            proof {
                assert(self@.partitions[i as int] == self.partitions@[i as int]@);
            }
            out.push((i, events));
            i = i + 1;
        }
        out
    }

}

// ---------------------------------------------------------------------------
// The manager of topics
// ---------------------------------------------------------------------------

/// The error for a missing topic.
pub open spec fn topic_missing_message(topic: Seq<char>) -> Seq<char> {
    "Topic '"@ + topic + "' not found"@
}

fn topic_missing(topic: &str) -> (r: String)
    ensures
        r@ == topic_missing_message(topic@),
{
    let a = concat("Topic '", topic);
    concat(a.as_str(), "' not found")
}

/// Whether `e` is the event that publishing `data` of `event_type` under
/// `key` to `topic` makes, with identifier `id`, at `now`.
pub open spec fn fresh_event(
    e: PartitionEvent,
    id: Seq<char>,
    topic: Seq<char>,
    event_type: Seq<char>,
    key: Option<Seq<u8>>,
    data: Seq<u8>,
    now: u64,
) -> bool {
    &&& e.id@ == id && e.partition_id == 0 && e.offset == 0 && e.topic@ == topic
    &&& e.event_type@ == event_type && opt_bytes(e.key) == key && e.data@ == data
    &&& e.timestamp == now && e.metadata@.len() == 0
}

/// Whether an event for `topic` can be published to topic state `t`:
/// there are partitions, and none is at the end of its offsets or bytes.
pub open spec fn publishable(t: TopicState, size: int) -> bool {
    &&& t.partitions.len() > 0
    &&& forall|i: int| 0 <= i < t.partitions.len() ==>
        (#[trigger] t.partitions[i]).next_offset < u64::MAX && t.partitions[i].total_bytes + size <= u64::MAX
}

/// Partitioned topics by name, and the configuration new topics get unless
/// one is given.
pub struct PartitionManager {
    topics: Keyed<PartitionedTopic>,
    default_config: PartitionConfig,
}

impl PartitionManager {
    /// The topics by name.
    pub closed spec fn topics(&self) -> Map<Seq<char>, PartitionedTopic> {
        self.topics@
    }

    /// The configuration of new topics.
    pub closed spec fn defaults(&self) -> PartitionConfig {
        self.default_config
    }

    /// The invariant: one topic per name, each well formed.
    pub closed spec fn wf(&self) -> bool {
        &&& self.topics.wf()
        &&& forall|k: Seq<char>| #[trigger] self.topics@.contains_key(k) ==> self.topics@[k]@.wf()
    }

    /// No topics.
    pub fn new(default_config: PartitionConfig) -> (r: Self)
        ensures
            r.wf(),
            r.topics() == Map::<Seq<char>, PartitionedTopic>::empty(),
            r.defaults() == default_config,
    {
        PartitionManager { topics: Keyed::new(), default_config }
    }

    /// Create topic `topic_name` at `now`, with `config` or the default
    /// configuration; an existing name is refused.
    pub fn create_topic_at(&mut self, topic_name: &str, config: Option<PartitionConfig>, now: u64) -> (r: Result<(), String>)
        requires
            old(self).wf(),
        ensures
            final(self).wf(),
            final(self).defaults() == old(self).defaults(),
            old(self).topics().contains_key(topic_name@) ==> {
                &&& r matches Err(m) && m@ == "Topic '"@ + topic_name@ + "' already exists"@
                &&& final(self).topics() == old(self).topics()
            },
            !old(self).topics().contains_key(topic_name@) ==> {
                let t = final(self).topics()[topic_name@]@;
                let c = match config {
                    Some(c) => c,
                    None => old(self).defaults(),
                };
                &&& r is Ok
                &&& final(self).topics().contains_key(topic_name@)
                &&& final(self).topics().remove(topic_name@) == old(self).topics()
                &&& t.name == topic_name@ && t.config == c && t.partitions.len() == c.num_partitions
                &&& forall|i: int| 0 <= i < t.partitions.len() ==> (#[trigger] t.partitions[i]).buffer.len() == 0
                    && t.partitions[i].next_offset == 0 && t.partitions[i].total_bytes == 0
                    && t.partitions[i].last_compaction == now
            },
    {
        if self.topics.get(topic_name).is_some() {
            let a = concat("Topic '", topic_name);
            return Err(concat(a.as_str(), "' already exists"));
        }
        let c = match config {
            Some(c) => c,
            None => self.default_config,
        };
        let t = PartitionedTopic::new_at(topic_name.to_string(), c, now);
        self.topics.insert(topic_name.to_string(), t);
        proof {
            assert(self.topics@.remove(topic_name@) =~= old(self).topics@);
        }
        Ok(())
    }

    /// Create a topic now.
    pub fn create_topic(&mut self, topic_name: &str, config: Option<PartitionConfig>) -> (r: Result<(), String>)
        requires
            old(self).wf(),
        ensures
            final(self).wf(),
            r is Ok <==> !old(self).topics().contains_key(topic_name@),
            final(self).topics().contains_key(topic_name@),
            final(self).defaults() == old(self).defaults(),
            old(self).topics().contains_key(topic_name@) ==> {
                &&& r matches Err(m) && m@ == "Topic '"@ + topic_name@ + "' already exists"@
                &&& final(self).topics() == old(self).topics()
            },
            !old(self).topics().contains_key(topic_name@) ==> {
                let t = final(self).topics()[topic_name@]@;
                let c = match config {
                    Some(c) => c,
                    None => old(self).defaults(),
                };
                &&& final(self).topics().remove(topic_name@) == old(self).topics()
                &&& t.name == topic_name@ && t.config == c && t.partitions.len() == c.num_partitions
                &&& forall|i: int| 0 <= i < t.partitions.len() ==> (#[trigger] t.partitions[i]).buffer.len() == 0
                    && t.partitions[i].next_offset == 0 && t.partitions[i].total_bytes == 0
            },
    {
        self.create_topic_at(topic_name, config, unix_time_secs())
    }

    /// Publish `data` of `event_type` under `key` to `topic`, as an event
    /// with identifier `id` made at `now` (see `PartitionedTopic::publish_at`);
    /// answers the partition and the offset.
    pub fn publish_at(
        &mut self,
        topic: &str,
        event_type: &str,
        key: Option<Vec<u8>>,
        data: Vec<u8>,
        id: String,
        now: u64,
    ) -> (r: Result<(usize, u64), String>)
        requires
            old(self).wf(),
            PartitionEvent::size_of(topic@, event_type@, key, data@) <= u64::MAX,
            utf8_len(topic@) <= usize::MAX,
            utf8_len(event_type@) <= usize::MAX,
            old(self).topics().contains_key(topic@) ==> publishable(old(self).topics()[topic@]@,
                PartitionEvent::size_of(topic@, event_type@, key, data@)),
        ensures
            final(self).wf(),
            final(self).defaults() == old(self).defaults(),
            !old(self).topics().contains_key(topic@) ==> {
                &&& r matches Err(m) && m@ == topic_missing_message(topic@)
                &&& final(self).topics() == old(self).topics()
            },
            old(self).topics().contains_key(topic@) ==> {
                let before = old(self).topics()[topic@]@;
                let after = final(self).topics()[topic@]@;
                &&& r matches Ok((p, o))
                &&& before.selects(opt_bytes(key), p as int) && p < before.partitions.len()
                &&& o == before.partitions[p as int].next_offset
                &&& final(self).topics().contains_key(topic@)
                &&& final(self).topics().remove(topic@) == old(self).topics().remove(topic@)
                &&& after.name == before.name && after.config == before.config
                &&& exists|e: PartitionEvent| #[trigger] fresh_event(e, id@, topic@, event_type@, opt_bytes(key), data@, now)
                    && after.partitions == before.partitions.update(p as int, before.partitions[p as int].appended(e, now))
            },
    {
        let ghost kb = opt_bytes(key);
        match self.topics.remove(topic) {
            None => Err(topic_missing(topic)),
            Some(mut t) => {
                let ghost mid = self.topics@;
                let event = PartitionEvent::new_with(id, topic.to_string(), event_type.to_string(), key, data, now);
                let ghost e = event;
                let r = t.publish_at(event, now);
                proof {
                    assert(fresh_event(e, id@, topic@, event_type@, kb, data@, now));
                }
                self.topics.insert(topic.to_string(), t);
                proof {
                    assert(self.topics@.remove(topic@) =~= mid);
                }
                Ok(r)
            },
        }
    }

    /// Publish now, with a fresh identifier.
    pub fn publish(&mut self, topic: &str, event_type: &str, key: Option<Vec<u8>>, data: Vec<u8>) -> (r: Result<(usize, u64), String>)
        requires
            old(self).wf(),
            PartitionEvent::size_of(topic@, event_type@, key, data@) <= u64::MAX,
            utf8_len(topic@) <= usize::MAX,
            utf8_len(event_type@) <= usize::MAX,
            old(self).topics().contains_key(topic@) ==> publishable(old(self).topics()[topic@]@,
                PartitionEvent::size_of(topic@, event_type@, key, data@)),
        ensures
            r is Ok <==> old(self).topics().contains_key(topic@),
            final(self).wf(),
            final(self).defaults() == old(self).defaults(),
            !old(self).topics().contains_key(topic@) ==> {
                &&& r matches Err(m) && m@ == topic_missing_message(topic@)
                &&& final(self).topics() == old(self).topics()
            },
            old(self).topics().contains_key(topic@) ==> {
                let before = old(self).topics()[topic@]@;
                let after = final(self).topics()[topic@]@;
                &&& r matches Ok((p, o))
                &&& before.selects(opt_bytes(key), p as int) && p < before.partitions.len()
                &&& o == before.partitions[p as int].next_offset
                &&& final(self).topics().contains_key(topic@)
                &&& final(self).topics().remove(topic@) == old(self).topics().remove(topic@)
                &&& after.name == before.name && after.config == before.config
                &&& exists|e: PartitionEvent, id: Seq<char>, now: u64| #[trigger] fresh_event(e, id, topic@, event_type@, opt_bytes(key), data@, now)
                    && after.partitions == before.partitions.update(p as int, before.partitions[p as int].appended(e, now))
            },
    {
        let id = new_uuid_v4();
        let now = unix_time_secs();
        self.publish_at(topic, event_type, key, data, id, now)
    }

    /// Up to `limit` events of one partition of `topic` (see
    /// `PartitionedTopic::consume_partition`).
    pub fn consume_partition(&self, topic: &str, partition_id: usize, from_offset: u64, limit: usize) -> (r: Result<Vec<PartitionEvent>, String>)
        requires
            self.wf(),
        ensures
            !self.topics().contains_key(topic@) ==> (r matches Err(m) && m@ == topic_missing_message(topic@)),
            self.topics().contains_key(topic@) ==> {
                let t = self.topics()[topic@]@;
                &&& partition_id < t.partitions.len() ==> (r matches Ok(v)
                    && views(v@) == views(read_result(t.partitions[partition_id as int].buffer, from_offset, limit)))
                &&& partition_id >= t.partitions.len() ==> (r matches Err(m)
                    && m@ == "Partition "@ + decimal_text(partition_id as int) + " not found"@)
            },
    {
        match self.topics.get(topic) {
            None => Err(topic_missing(topic)),
            Some(t) => t.consume_partition(partition_id, from_offset, limit),
        }
    }

    /// Up to `limit` events of all partitions of `topic`, by timestamp (see
    /// `PartitionedTopic::consume_all`).
    pub fn consume_all(&self, topic: &str, from_offset: u64, limit: usize) -> (r: Result<Vec<PartitionEvent>, String>)
        requires
            self.wf(),
        ensures
            !self.topics().contains_key(topic@) ==> (r matches Err(m) && m@ == topic_missing_message(topic@)),
            self.topics().contains_key(topic@) ==> {
                let g = gathered(self.topics()[topic@]@.partitions, from_offset, limit);
                r matches Ok(v) && views(v@) == sort_by_time(g).take(if limit <= g.len() { limit as int } else { g.len() as int })
            },
    {
        match self.topics.get(topic) {
            None => Err(topic_missing(topic)),
            Some(t) => Ok(t.consume_all(from_offset, limit)),
        }
    }

    /// The counters of every partition of `topic` at `now`.
    pub fn topic_stats_at(&self, topic: &str, now: u64) -> (r: Result<Vec<PartitionStats>, String>)
        requires
            self.wf(),
        ensures
            !self.topics().contains_key(topic@) ==> (r matches Err(m) && m@ == topic_missing_message(topic@)),
            self.topics().contains_key(topic@) ==> {
                let t = self.topics()[topic@]@;
                r matches Ok(v) && v@.len() == t.partitions.len() && forall|i: int| 0 <= i < v@.len() ==> {
                    let p = #[trigger] t.partitions[i];
                    &&& v@[i].partition_id == p.id && v@[i].topic@ == p.topic && v@[i].message_count == p.buffer.len()
                    &&& v@[i].total_bytes == p.total_bytes && v@[i].min_offset == p.min_offset
                }
            },
    {
        match self.topics.get(topic) {
            None => Err(topic_missing(topic)),
            Some(t) => Ok(t.stats_at(now)),
        }
    }

    /// The counters of every partition of `topic` now.
    pub fn topic_stats(&self, topic: &str) -> (r: Result<Vec<PartitionStats>, String>)
        requires
            self.wf(),
        ensures
            r is Ok <==> self.topics().contains_key(topic@),
            !self.topics().contains_key(topic@) ==> (r matches Err(m) && m@ == topic_missing_message(topic@)),
            self.topics().contains_key(topic@) ==> {
                let t = self.topics()[topic@]@;
                r matches Ok(v) && v@.len() == t.partitions.len() && forall|i: int| 0 <= i < v@.len() ==> {
                    let p = #[trigger] t.partitions[i];
                    &&& v@[i].partition_id == p.id && v@[i].topic@ == p.topic && v@[i].message_count == p.buffer.len()
                    &&& v@[i].total_bytes == p.total_bytes && v@[i].min_offset == p.min_offset
                }
            },
    {
        self.topic_stats_at(topic, unix_time_secs())
    }

    /// The names of all topics.
    pub fn list_topics(&self) -> (r: Vec<String>)
        requires
            self.wf(),
        ensures
            r@.len() == self.topics().len(),
            forall|i: int| 0 <= i < r@.len() ==> self.topics().contains_key(#[trigger] r@[i]@),
    {
        proof {
            self.topics.lemma_entries();
        }
        let n = self.topics.len();
        let mut out: Vec<String> = Vec::new();
        let mut i: usize = 0;
        while i < n
            invariant
                self.wf(),
                n == self.topics.entries().len(),
                i <= n,
                out@.len() == i,
                forall|j: int| 0 <= j < i ==> (#[trigger] out@[j])@ == self.topics.entries()[j].0@,
            decreases n - i,
        {
            let (k, _t) = self.topics.entry_at(i);
            out.push(k.clone());
            i = i + 1;
        }
        proof {
            self.topics.lemma_entries();
            assert forall|i: int| 0 <= i < out@.len() implies self.topics().contains_key(#[trigger] out@[i]@) by {
                assert(out@[i]@ == self.topics.entries()[i].0@);
            }
        }
        out
    }

    /// Delete `topic`.
    pub fn delete_topic(&mut self, topic: &str) -> (r: Result<(), String>)
        requires
            old(self).wf(),
        ensures
            final(self).wf(),
            final(self).defaults() == old(self).defaults(),
            final(self).topics() == old(self).topics().remove(topic@),
            r is Ok <==> old(self).topics().contains_key(topic@),
            r is Err ==> (r matches Err(m) && m@ == topic_missing_message(topic@)),
    {
        match self.topics.remove(topic) {
            Some(_t) => Ok(()),
            None => Err(topic_missing(topic)),
        }
    }

    /// Apply the retention policy to every topic at `now` (see
    /// `PartitionedTopic::compact_all_at`); answers each topic's results.
    pub fn compact_all_at(&mut self, now: u64) -> (r: Vec<(String, Vec<(usize, CompactionResult)>)>)
        requires
            old(self).wf(),
        ensures
            final(self).wf(),
            final(self).defaults() == old(self).defaults(),
            final(self).topics().dom() == old(self).topics().dom(),
            r@.len() == old(self).topics().len(),
            forall|k: Seq<char>| #[trigger] old(self).topics().contains_key(k) ==> {
                let before = old(self).topics()[k]@;
                let after = final(self).topics()[k]@;
                &&& after.name == before.name && after.config == before.config
                &&& after.partitions.len() == before.partitions.len()
                &&& forall|i: int| 0 <= i < after.partitions.len() ==>
                    #[trigger] after.partitions[i] == before.partitions[i].compacted(now)
            },
            forall|j: int| 0 <= j < r@.len() ==> {
                let k = (#[trigger] r@[j]).0@;
                let before = old(self).topics()[k]@;
                let after = final(self).topics()[k]@;
                &&& old(self).topics().contains_key(k)
                &&& r@[j].1@.len() == before.partitions.len()
                &&& forall|x: int| 0 <= x < r@[j].1@.len() ==> {
                    &&& (#[trigger] r@[j].1@[x]).0 == x
                    &&& r@[j].1@[x].1.messages_removed == before.partitions[x].buffer.len() - after.partitions[x].buffer.len()
                    &&& r@[j].1@[x].1.bytes_freed == before.partitions[x].total_bytes - after.partitions[x].total_bytes
                }
            },
            forall|j1: int, j2: int| 0 <= j1 < r@.len() && 0 <= j2 < r@.len() && j1 != j2
                ==> (#[trigger] r@[j1]).0@ != (#[trigger] r@[j2]).0@,
    {
        proof {
            self.topics.lemma_entries();
        }
        let ghost start = self.topics@;
        let n = self.topics.len();
        let mut out: Vec<(String, Vec<(usize, CompactionResult)>)> = Vec::new();
        let mut i: usize = 0;
        while i < n
            invariant
                old(self).wf(),
                self.topics.wf(),
                n == self.topics.entries().len(),
                n == start.len(),
                i <= n,
                out@.len() == i,
                self.defaults() == old(self).defaults(),
                start == old(self).topics(),
                self.topics@.dom() == start.dom(),
                forall|k: Seq<char>| #[trigger] self.topics@.contains_key(k) ==> self.topics@[k]@.wf(),
                forall|j: int| 0 <= j < n ==> (#[trigger] self.topics.entries()[j]).0@ == old(self).topics.entries()[j].0@,
                forall|j: int| i <= j < n ==> (#[trigger] self.topics.entries()[j]).1 == old(self).topics.entries()[j].1,
                forall|j: int| 0 <= j < i ==> {
                    let before = start[(#[trigger] self.topics.entries()[j]).0@]@;
                    let after = self.topics.entries()[j].1@;
                    &&& after.name == before.name && after.config == before.config
                    &&& after.partitions.len() == before.partitions.len()
                    &&& forall|x: int| 0 <= x < after.partitions.len() ==>
                        #[trigger] after.partitions[x] == before.partitions[x].compacted(now)
                },
                forall|j: int| 0 <= j < i ==> {
                    let before = start[(#[trigger] out@[j]).0@]@;
                    let after = self.topics.entries()[j].1@;
                    &&& out@[j].0@ == self.topics.entries()[j].0@
                    &&& out@[j].1@.len() == before.partitions.len()
                    &&& forall|x: int| 0 <= x < out@[j].1@.len() ==> {
                        &&& (#[trigger] out@[j].1@[x]).0 == x
                        &&& out@[j].1@[x].1.messages_removed == before.partitions[x].buffer.len() - after.partitions[x].buffer.len()
                        &&& out@[j].1@[x].1.bytes_freed == before.partitions[x].total_bytes - after.partitions[x].total_bytes
                    }
                },
            decreases n - i,
        {
            proof {
                self.topics.lemma_entries();
                old(self).topics.lemma_entries();
                let k = self.topics.entries()[i as int].0@;
                assert(self.topics@.contains_key(k));
                assert(old(self).topics@[old(self).topics.entries()[i as int].0@] == old(self).topics.entries()[i as int].1);
            }
            let ghost before_entries = self.topics.entries();
            let blank = PartitionedTopic::new_at(String::new(), self.default_config, now);
            let mut t = self.topics.replace_at(i, blank);
            let results = t.compact_all_at(now);
            let (name, _t) = self.topics.entry_at(i);
            let name = name.clone();
            let _blank = self.topics.replace_at(i, t);
            out.push((name, results));
            proof {
                self.topics.lemma_entries();
                assert forall|k: Seq<char>| #[trigger] self.topics@.contains_key(k) implies self.topics@[k]@.wf() by {
                    let j = choose|j: int| 0 <= j < self.topics.entries().len() && self.topics.entries()[j].0@ == k;
                    if j != i {
                        assert(self.topics.entries()[j] == before_entries[j]);
                    }
                }
            }
            i = i + 1;
        }
        proof {
            self.topics.lemma_entries();
            old(self).topics.lemma_entries();
            assert forall|k: Seq<char>| #[trigger] old(self).topics().contains_key(k) implies {
                let before = old(self).topics()[k]@;
                let after = self.topics()[k]@;
                &&& after.name == before.name && after.config == before.config
                &&& after.partitions.len() == before.partitions.len()
                &&& forall|x: int| 0 <= x < after.partitions.len() ==>
                    #[trigger] after.partitions[x] == before.partitions[x].compacted(now)
            } by {
                let j = choose|j: int| 0 <= j < self.topics.entries().len() && self.topics.entries()[j].0@ == k;
                assert(self.topics@[k] == self.topics.entries()[j].1);
            }
            self.topics.lemma_distinct();
            assert forall|j: int| 0 <= j < out@.len() implies old(self).topics().contains_key((#[trigger] out@[j]).0@)
                && self.topics()[out@[j].0@] == self.topics.entries()[j].1 by {
                assert(self.topics@.contains_key(self.topics.entries()[j].0@));
            }
            assert forall|j1: int, j2: int| 0 <= j1 < out@.len() && 0 <= j2 < out@.len() && j1 != j2
                implies (#[trigger] out@[j1]).0@ != (#[trigger] out@[j2]).0@ by {
                assert(self.topics.entries()[j1].0@ != self.topics.entries()[j2].0@);
            }
        }
        out
    }

    /// Copies of every topic's events, by partition.
    pub fn get_all_events(&self) -> (r: Vec<(String, Vec<(usize, Vec<PartitionEvent>)>)>)
        requires
            self.wf(),
        ensures
            r@.len() == self.topics().len(),
            forall|i: int| 0 <= i < r@.len() ==> self.topics().contains_key(#[trigger] r@[i].0@),
    {
        proof {
            self.topics.lemma_entries();
        }
        let n = self.topics.len();
        let mut out: Vec<(String, Vec<(usize, Vec<PartitionEvent>)>)> = Vec::new();
        let mut i: usize = 0;
        while i < n
            invariant
                self.wf(),
                n == self.topics.entries().len(),
                i <= n,
                out@.len() == i,
                forall|j: int| 0 <= j < i ==> (#[trigger] out@[j]).0@ == self.topics.entries()[j].0@,
            decreases n - i,
        {
            let (k, t) = self.topics.entry_at(i);
            out.push((k.clone(), t.get_all_events()));
            i = i + 1;
        }
        proof {
            self.topics.lemma_entries();
            assert forall|i: int| 0 <= i < out@.len() implies self.topics().contains_key(#[trigger] out@[i].0@) by {
                assert(out@[i].0@ == self.topics.entries()[i].0@);
            }
        }
        out
    }
}


/// Every event kept by `newer_than` is newer than the cutoff.
proof fn lemma_newer_than_newer(s: Seq<PartitionEvent>, cutoff: u64)
    ensures
        forall|i: int| 0 <= i < newer_than(s, cutoff).len() ==> (#[trigger] newer_than(s, cutoff)[i]).timestamp > cutoff,
    decreases s.len(),
{
    if s.len() > 0 {
        lemma_newer_than_newer(s.drop_last(), cutoff);
        let prev = newer_than(s.drop_last(), cutoff);
        if s.last().timestamp > cutoff {
            assert forall|i: int| 0 <= i < newer_than(s, cutoff).len() implies (#[trigger] newer_than(s, cutoff)[i]).timestamp > cutoff by {
                if i < prev.len() {
                    assert(newer_than(s, cutoff)[i] == prev[i]);
                }
            }
        }
    }
}

/// Whether every event of `s` is newer than `now - secs`.
pub open spec fn all_newer(s: Seq<PartitionEvent>, now: u64, secs: u64) -> bool {
    forall|i: int| 0 <= i < s.len() ==> (#[trigger] s[i]).timestamp > now - secs
}

/// Dropping the oldest events keeps every remaining one as new as before.
proof fn lemma_skip_newer(s: Seq<PartitionEvent>, k: int, now: u64, secs: u64)
    requires
        all_newer(s, now, secs),
        0 <= k <= s.len(),
    ensures
        all_newer(s.skip(k), now, secs),
{
    assert forall|i: int| 0 <= i < s.skip(k).len() implies (#[trigger] s.skip(k)[i]).timestamp > now - secs by {
        assert(s.skip(k)[i] == s[i + k]);
    }
}

/// Retention by time: compacting at `now` under a policy that limits age
/// to `secs` (alone, or combined with other limits) leaves only events
/// whose timestamp is later than `now - secs`.
pub proof fn lemma_compaction_drops_old(p: PartitionState, now: u64, secs: u64)
    requires
        p.config.retention == (RetentionPolicy::Time { retention_secs: secs })
            || (p.config.retention matches RetentionPolicy::Combined { retention_secs: Some(s), .. } && s == secs),
    ensures
        all_newer(p.compacted(now).buffer, now, secs),
{
    let cutoff: u64 = if now >= secs { (now - secs) as u64 } else { 0 };
    let a = p.by_time(cutoff);
    lemma_newer_than_newer(p.buffer, cutoff);
    assert(all_newer(a.buffer, now, secs));
    match p.config.retention {
        RetentionPolicy::Combined { retention_secs, max_bytes, max_messages } => {
            let b = match max_bytes {
                Some(m) => a.by_size(m),
                None => a,
            };
            if let Some(m) = max_bytes {
                lemma_size_cut_least(a.buffer, m);
                lemma_skip_newer(a.buffer, size_cut(a.buffer, m) as int, now, secs);
            }
            assert(all_newer(b.buffer, now, secs));
            if let Some(m) = max_messages {
                let d: int = if b.buffer.len() > m { b.buffer.len() - m } else { 0 };
                lemma_skip_newer(b.buffer, d, now, secs);
            }
        },
        _ => {},
    }
}

} // verus!
