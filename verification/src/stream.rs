//! Event streams: rooms that keep the latest events in a bounded buffer
//! under consecutive offsets, let subscribers read from an offset on, and
//! drop events past their retention time.
//!
//! Times are Unix seconds.

use vstd::prelude::*;
use crate::clock::unix_time_secs;
use crate::ids::new_uuid_v4;
use crate::api_key::copy_meta;
use crate::keyed::Keyed;
use crate::partition::copy_bytes;
use crate::text::concat;

verus! {

/// Configuration of event streams.
#[derive(Debug, Clone, Copy)]
pub struct StreamConfig {
    /// Most messages kept per room.
    pub max_buffer_size: usize,
    /// Seconds messages are kept (0 for ever).
    pub retention_secs: u64,
    /// Whether rooms are compacted automatically.
    pub auto_compact: bool,
    /// Seconds between compactions.
    pub compact_interval_secs: u64,
}

impl Default for StreamConfig {
    fn default() -> (r: Self)
        ensures
            r.max_buffer_size == 10000,
            r.retention_secs == 3600,
            r.auto_compact,
            r.compact_interval_secs == 60,
    {
        StreamConfig { max_buffer_size: 10000, retention_secs: 3600, auto_compact: true, compact_interval_secs: 60 }
    }
}

/// An event of a room.
#[derive(Debug)]
pub struct StreamEvent {
    /// Unique identifier.
    pub id: String,
    /// Offset in the room's stream.
    pub offset: u64,
    /// Room name.
    pub room: String,
    /// Event name.
    pub event: String,
    /// Payload.
    pub data: Vec<u8>,
    /// Creation time (Unix seconds).
    pub timestamp: u64,
    /// Extra headers, as name and value.
    pub metadata: Vec<(String, String)>,
}

impl StreamEvent {
    /// An event with identifier `id` made at `now`; its offset is set by
    /// the room.
    pub fn new_with(id: String, room: String, event: String, data: Vec<u8>, now: u64) -> (r: Self)
        ensures
            r.id@ == id@,
            r.offset == 0,
            r.room@ == room@,
            r.event@ == event@,
            r.data@ == data@,
            r.timestamp == now,
            r.metadata@.len() == 0,
    {
        StreamEvent { id, offset: 0, room, event, data, timestamp: now, metadata: Vec::new() }
    }

    /// An event with a fresh identifier, made now.
    pub fn new(room: String, event: String, data: Vec<u8>) -> (r: Self)
        ensures
            r.id@.len() == 36,
            r.offset == 0,
            r.room@ == room@,
            r.event@ == event@,
            r.data@ == data@,
            r.metadata@.len() == 0,
    {
        let id = new_uuid_v4();
        let now = unix_time_secs();
        Self::new_with(id, room, event, data, now)
    }
}

/// Counters of a room.
#[derive(Debug, Clone)]
pub struct RoomStats {
    /// Room name.
    pub name: String,
    /// Messages held.
    pub message_count: usize,
    /// Oldest offset held.
    pub min_offset: u64,
    /// Latest offset.
    pub max_offset: u64,
    /// Active subscribers.
    pub subscriber_count: usize,
    /// Messages published so far.
    pub total_published: u64,
    /// Messages consumed so far.
    pub total_consumed: u64,
}

/// Whether two events hold the same values.
pub open spec fn same_event(a: StreamEvent, b: StreamEvent) -> bool {
    &&& a.id == b.id && a.offset == b.offset && a.room == b.room && a.event == b.event
    &&& a.data@ == b.data@ && a.timestamp == b.timestamp && a.metadata@ == b.metadata@
}

impl StreamEvent {
    /// A copy of this event.
    pub fn duplicate(&self) -> (r: Self)
        ensures
            same_event(r, *self),
    {
        StreamEvent {
            id: self.id.clone(),
            offset: self.offset,
            room: self.room.clone(),
            event: self.event.clone(),
            data: copy_bytes(&self.data),
            timestamp: self.timestamp,
            metadata: copy_meta(&self.metadata),
        }
    }
}

impl RoomStats {
    /// A copy of these counters.
    pub fn duplicate(&self) -> (r: Self)
        ensures
            r == *self,
    {
        RoomStats {
            name: self.name.clone(),
            message_count: self.message_count,
            min_offset: self.min_offset,
            max_offset: self.max_offset,
            subscriber_count: self.subscriber_count,
            total_published: self.total_published,
            total_consumed: self.total_consumed,
        }
    }
}

/// The events of `s` at or after offset `from`, in order.
pub open spec fn at_or_after(s: Seq<StreamEvent>, from: u64) -> Seq<StreamEvent>
    decreases s.len(),
{
    if s.len() == 0 {
        Seq::empty()
    } else {
        let r = at_or_after(s.drop_last(), from);
        if s.last().offset >= from { r.push(s.last()) } else { r }
    }
}

/// The events of `s` made after time `cutoff`, in order.
pub open spec fn newer_than(s: Seq<StreamEvent>, cutoff: u64) -> Seq<StreamEvent>
    decreases s.len(),
{
    if s.len() == 0 {
        Seq::empty()
    } else {
        let r = newer_than(s.drop_last(), cutoff);
        if s.last().timestamp > cutoff { r.push(s.last()) } else { r }
    }
}

/// The first `limit` events of `s`.
pub open spec fn first_events(s: Seq<StreamEvent>, limit: usize) -> Seq<StreamEvent> {
    if limit < s.len() { s.take(limit as int) } else { s }
}

/// Whether offsets rise strictly along `s` and stay below `next`.
pub open spec fn offsets_ordered(s: Seq<StreamEvent>, next: u64) -> bool {
    &&& forall|i: int, j: int| 0 <= i < j < s.len() ==> (#[trigger] s[i]).offset < (#[trigger] s[j]).offset
    &&& forall|i: int| 0 <= i < s.len() ==> (#[trigger] s[i]).offset < next
}

proof fn lemma_filtered_len(s: Seq<StreamEvent>, from: u64, cutoff: u64)
    ensures
        at_or_after(s, from).len() <= s.len(),
        newer_than(s, cutoff).len() <= s.len(),
    decreases s.len(),
{
    if s.len() > 0 {
        lemma_filtered_len(s.drop_last(), from, cutoff);
    }
}

/// A room: its buffer of events, oldest first, the next offset to give,
/// the oldest offset still available, and each subscriber's next offset.
pub struct Room {
    name: String,
    buffer: Vec<StreamEvent>,
    next_offset: u64,
    min_offset: u64,
    subscribers: Keyed<u64>,
    stats: RoomStats,
    config: StreamConfig,
}

impl Room {
    /// The events held, oldest first.
    pub closed spec fn events(&self) -> Seq<StreamEvent> {
        self.buffer@
    }

    /// The next offset to give.
    pub closed spec fn next(&self) -> u64 {
        self.next_offset
    }

    /// The oldest offset still available.
    pub closed spec fn oldest(&self) -> u64 {
        self.min_offset
    }

    /// Each subscriber's next offset.
    pub closed spec fn subscribers(&self) -> Map<Seq<char>, u64> {
        self.subscribers@
    }

    /// The counters.
    pub closed spec fn counters(&self) -> RoomStats {
        self.stats
    }

    /// The configuration.
    pub closed spec fn cfg(&self) -> StreamConfig {
        self.config
    }

    /// The name.
    pub closed spec fn room_name(&self) -> Seq<char> {
        self.name@
    }

    /// The invariant: the buffer within its size, offsets rising and below
    /// the next one, one offset per subscriber.
    pub closed spec fn wf(&self) -> bool {
        &&& self.subscribers.wf()
        &&& self.buffer@.len() <= self.config.max_buffer_size
        &&& offsets_ordered(self.buffer@, self.next_offset)
    }

    /// An empty room.
    pub fn new(name: String, config: StreamConfig) -> (r: Self)
        ensures
            r.wf(),
            r.room_name() == name@,
            r.events().len() == 0,
            r.next() == 0 && r.oldest() == 0,
            r.subscribers() == Map::<Seq<char>, u64>::empty(),
            r.cfg() == config,
            r.counters().name@ == name@,
            r.counters().message_count == 0 && r.counters().min_offset == 0 && r.counters().max_offset == 0,
            r.counters().subscriber_count == 0 && r.counters().total_published == 0,
            r.counters().total_consumed == 0,
    {
        let stats = RoomStats {
            name: name.clone(),
            message_count: 0,
            min_offset: 0,
            max_offset: 0,
            subscriber_count: 0,
            total_published: 0,
            total_consumed: 0,
        };
        Room { name, buffer: Vec::new(), next_offset: 0, min_offset: 0, subscribers: Keyed::new(), stats, config }
    }

    /// Publish `event` under the next offset, which it answers; beyond the
    /// buffer's size the oldest event is dropped.
    pub fn publish(&mut self, event: StreamEvent) -> (r: u64)
        requires
            old(self).wf(),
            old(self).next() < u64::MAX,
        ensures
            final(self).wf(),
            r == old(self).next(),
            final(self).next() == old(self).next() + 1,
            final(self).subscribers() == old(self).subscribers(),
            final(self).cfg() == old(self).cfg(),
            final(self).room_name() == old(self).room_name(),
            ({
                let pushed = old(self).events().push(StreamEvent { offset: old(self).next(), ..event });
                let full = pushed.len() > old(self).cfg().max_buffer_size;
                let kept = if full { pushed.drop_first() } else { pushed };
                let oldest = if full { (pushed[0].offset + 1) as u64 } else { old(self).oldest() };
                &&& final(self).events() == kept
                &&& final(self).oldest() == oldest
                &&& final(self).counters() == (RoomStats {
                    message_count: kept.len() as usize,
                    min_offset: oldest,
                    max_offset: old(self).next(),
                    total_published: old(self).counters().total_published.wrapping_add(1),
                    ..old(self).counters()
                })
            }),
    {
        let mut event = event;
        event.offset = self.next_offset;
        self.next_offset = self.next_offset + 1;
        let ghost before = self.buffer@;
        self.buffer.push(event);
        self.stats.total_published = self.stats.total_published.wrapping_add(1);
        self.stats.message_count = self.buffer.len();
        self.stats.max_offset = self.next_offset - 1;
        if self.buffer.len() > self.config.max_buffer_size {
            let first = self.buffer.remove(0);
            self.min_offset = first.offset + 1;
            proof {
                let t = self.buffer@;
                let p = before.push(StreamEvent { offset: old(self).next_offset, ..event });
                assert(t =~= p.drop_first());
                assert forall|i: int, j: int| 0 <= i < j < t.len() implies (#[trigger] t[i]).offset < (#[trigger] t[j]).offset by {
                    assert(t[i] == p[i + 1] && t[j] == p[j + 1]);
                }
            }
        }
        self.stats.message_count = self.buffer.len();
        self.stats.min_offset = self.min_offset;
        self.next_offset - 1
    }

    /// Read up to `limit` events at or after `from_offset` for subscriber
    /// `subscriber_id`, whose next offset becomes the one after the last
    /// event read (or `from_offset` when none was).
    pub fn consume(&mut self, subscriber_id: &str, from_offset: u64, limit: usize) -> (r: Vec<StreamEvent>)
        requires
            old(self).wf(),
        ensures
            final(self).wf(),
            final(self).events() == old(self).events(),
            final(self).next() == old(self).next(),
            final(self).oldest() == old(self).oldest(),
            final(self).cfg() == old(self).cfg(),
            final(self).room_name() == old(self).room_name(),
            ({
                let want = first_events(at_or_after(old(self).events(), from_offset), limit);
                let last = if want.len() > 0 { (want.last().offset + 1) as u64 } else { from_offset };
                &&& r@.len() == want.len()
                &&& forall|i: int| 0 <= i < want.len() ==> same_event(#[trigger] r@[i], want[i])
                &&& final(self).subscribers() == old(self).subscribers().insert(subscriber_id@, last)
                &&& final(self).counters() == (RoomStats {
                    subscriber_count: final(self).subscribers().len() as usize,
                    total_consumed: old(self).counters().total_consumed.wrapping_add(want.len() as u64),
                    ..old(self).counters()
                })
            }),
    {
        let ghost s = self.buffer@;
        let n = self.buffer.len();
        let mut out: Vec<StreamEvent> = Vec::new();
        let mut i: usize = 0;
        while i < n
            invariant
                n == s.len(),
                s == self.buffer@,
                i <= n,
                offsets_ordered(s, self.next_offset),
                ({
                    let full = at_or_after(s.take(i as int), from_offset);
                    let want = first_events(full, limit);
                    &&& out@.len() == want.len()
                    &&& forall|k: int| 0 <= k < want.len() ==> same_event(#[trigger] out@[k], want[k])
                }),
            decreases n - i,
        {
            let ghost before = at_or_after(s.take(i as int), from_offset);
            proof {
                assert(s.take(i + 1).drop_last() =~= s.take(i as int));
                assert(s.take(i + 1).last() == s[i as int]);
            }
            let e = &self.buffer[i];
            if e.offset >= from_offset && out.len() < limit {
                out.push(e.duplicate());
            }
            i = i + 1;
            proof {
                let full = at_or_after(s.take(i as int), from_offset);
                if s[i - 1].offset >= from_offset {
                    assert(full == before.push(s[i - 1]));
                } else {
                    assert(full == before);
                }
            }
        }
        proof {
            assert(s.take(n as int) =~= s);
            lemma_filtered_len(s, from_offset, 0);
        }
        let last = if out.len() > 0 {
            let o = out[out.len() - 1].offset;
            proof {
                let want = first_events(at_or_after(s, from_offset), limit);
                assert(same_event(out@[out@.len() - 1], want[want.len() - 1]));
                lemma_at_or_after_members(s, from_offset, self.next_offset);
                assert(want[want.len() - 1].offset < self.next_offset);
            }
            o + 1
        } else {
            from_offset
        };
        self.subscribers.insert(subscriber_id.to_string(), last);
        self.stats.subscriber_count = self.subscribers.len();
        self.stats.total_consumed = self.stats.total_consumed.wrapping_add(out.len() as u64);
        out
    }

    /// The counters.
    pub fn stats(&self) -> (r: RoomStats)
        ensures
            r == self.counters(),
    {
        self.stats.duplicate()
    }

    /// Drop, at `now`, the events past the retention time, when the room
    /// compacts automatically. When that drops events and some remain, the
    /// oldest offset and the message count follow the buffer.
    pub fn compact_at(&mut self, now: u64)
        requires
            old(self).wf(),
        ensures
            final(self).wf(),
            final(self).next() == old(self).next(),
            final(self).subscribers() == old(self).subscribers(),
            final(self).cfg() == old(self).cfg(),
            final(self).room_name() == old(self).room_name(),
            !old(self).cfg().auto_compact ==> final(self).events() == old(self).events()
                && final(self).oldest() == old(self).oldest() && final(self).counters() == old(self).counters(),
            old(self).cfg().auto_compact ==> {
                let ret = old(self).cfg().retention_secs;
                let cutoff = if now >= ret { (now - ret) as u64 } else { 0 };
                let kept = newer_than(old(self).events(), cutoff);
                &&& final(self).events() == kept
                &&& if kept.len() < old(self).events().len() && kept.len() > 0 {
                    &&& final(self).oldest() == kept[0].offset
                    &&& final(self).counters() == (RoomStats { message_count: kept.len() as usize, ..old(self).counters() })
                } else {
                    &&& final(self).oldest() == old(self).oldest()
                    &&& final(self).counters() == old(self).counters()
                }
            },
    {
        if !self.config.auto_compact {
            return;
        }
        let cutoff = now.saturating_sub(self.config.retention_secs);
        let ghost s = self.buffer@;
        let initial_len = self.buffer.len();
        let mut i: usize = 0;
        let ghost mut j: int = 0;
        while i < self.buffer.len()
            invariant
                s.len() == initial_len,
                0 <= j <= s.len(),
                self.buffer@ == newer_than(s.take(j), cutoff) + s.skip(j),
                i == newer_than(s.take(j), cutoff).len(),
                self.buffer@.len() <= s.len(),
                s.len() <= self.config.max_buffer_size,
                offsets_ordered(self.buffer@, self.next_offset),
                self.next_offset == old(self).next_offset,
                self.min_offset == old(self).min_offset,
                self.subscribers == old(self).subscribers,
                self.stats == old(self).stats,
                self.config == old(self).config,
                self.name == old(self).name,
            decreases self.buffer@.len() - i,
        {
            proof {
                lemma_filtered_len(s.take(j), 0, cutoff);
                assert(s.take(j + 1).drop_last() =~= s.take(j));
                assert(s.take(j + 1).last() == s[j]);
                assert(self.buffer@[i as int] == s[j]);
            }
            if self.buffer[i].timestamp <= cutoff {
                let ghost b = self.buffer@;
                let _old = self.buffer.remove(i);
                proof {
                    assert(self.buffer@ =~= newer_than(s.take(j + 1), cutoff) + s.skip(j + 1));
                    let t = self.buffer@;
                    assert forall|x: int, y: int| 0 <= x < y < t.len() implies (#[trigger] t[x]).offset < (#[trigger] t[y]).offset by {
                        let x2 = if x < i { x } else { x + 1 };
                        let y2 = if y < i { y } else { y + 1 };
                        assert(t[x] == b[x2] && t[y] == b[y2]);
                    }
                    assert forall|x: int| 0 <= x < t.len() implies (#[trigger] t[x]).offset < self.next_offset by {
                        let x2 = if x < i { x } else { x + 1 };
                        assert(t[x] == b[x2]);
                    }
                }
            } else {
                i = i + 1;
                proof {
                    assert(self.buffer@ =~= newer_than(s.take(j + 1), cutoff) + s.skip(j + 1));
                }
            }
            proof {
                j = j + 1;
            }
        }
        proof {
            lemma_filtered_len(s.take(j), 0, cutoff);
            assert(j == s.len());
            assert(s.take(j) =~= s);
            assert(self.buffer@ =~= newer_than(s, cutoff));
        }
        let removed = initial_len - self.buffer.len();
        if removed > 0 && self.buffer.len() > 0 {
            self.min_offset = self.buffer[0].offset;
            self.stats.message_count = self.buffer.len();
        }
    }

    /// Compact now (see `compact_at`).
    pub fn compact(&mut self)
        requires
            old(self).wf(),
        ensures
            final(self).wf(),
            final(self).next() == old(self).next(),
            final(self).subscribers() == old(self).subscribers(),
            exists|now: u64| #[trigger] room_compacted(*old(self), *final(self), now),
    {
        let now = unix_time_secs();
        self.compact_at(now);
        assert(room_compacted(*old(self), *self, now));
    }
}

/// Whether room `after` is room `before` compacted at `now` (see
/// `Room::compact_at`).
pub open spec fn room_compacted(before: Room, after: Room, now: u64) -> bool {
    &&& after.wf()
    &&& after.next() == before.next()
    &&& after.subscribers() == before.subscribers()
    &&& after.cfg() == before.cfg()
    &&& after.room_name() == before.room_name()
    &&& !before.cfg().auto_compact ==> after.events() == before.events()
        && after.oldest() == before.oldest() && after.counters() == before.counters()
    &&& before.cfg().auto_compact ==> {
        let ret = before.cfg().retention_secs;
        let cutoff = if now >= ret { (now - ret) as u64 } else { 0 };
        let kept = newer_than(before.events(), cutoff);
        &&& after.events() == kept
        &&& if kept.len() < before.events().len() && kept.len() > 0 {
            &&& after.oldest() == kept[0].offset
            &&& after.counters() == (RoomStats { message_count: kept.len() as usize, ..before.counters() })
        } else {
            &&& after.oldest() == before.oldest()
            &&& after.counters() == before.counters()
        }
    }
}

/// Every event of `at_or_after(s, from)` is one of `s`, so its offset is
/// below the room's next offset.
proof fn lemma_at_or_after_members(s: Seq<StreamEvent>, from: u64, next: u64)
    requires
        forall|i: int| 0 <= i < s.len() ==> (#[trigger] s[i]).offset < next,
    ensures
        forall|i: int| 0 <= i < at_or_after(s, from).len() ==> (#[trigger] at_or_after(s, from)[i]).offset < next,
    decreases s.len(),
{
    if s.len() > 0 {
        assert forall|i: int| 0 <= i < s.drop_last().len() implies (#[trigger] s.drop_last()[i]).offset < next by {
            assert(s.drop_last()[i] == s[i]);
        }
        lemma_at_or_after_members(s.drop_last(), from, next);
        assert(s.last() == s[s.len() - 1]);
        let r = at_or_after(s.drop_last(), from);
        let a = at_or_after(s, from);
        if s.last().offset >= from {
            assert(a == r.push(s.last()));
            assert forall|i: int| 0 <= i < a.len() implies (#[trigger] a[i]).offset < next by {
                if i < r.len() {
                    assert(a[i] == r[i]);
                }
            }
        } else {
            assert(a == r);
        }
    }
}

/// The error for a missing room.
pub open spec fn room_missing_message(room: Seq<char>) -> Seq<char> {
    "Room '"@ + room + "' not found"@
}

fn room_missing(room: &str) -> (r: String)
    ensures
        r@ == room_missing_message(room@),
{
    let a = concat("Room '", room);
    concat(a.as_str(), "' not found")
}

/// Rooms by name, all made with one configuration.
pub struct StreamManager {
    rooms: Keyed<Room>,
    config: StreamConfig,
}

impl StreamManager {
    /// The rooms by name.
    pub closed spec fn rooms(&self) -> Map<Seq<char>, Room> {
        self.rooms@
    }

    /// The configuration of new rooms.
    pub closed spec fn cfg(&self) -> StreamConfig {
        self.config
    }

    /// The invariant: one room per name, each well formed.
    pub closed spec fn wf(&self) -> bool {
        &&& self.rooms.wf()
        &&& forall|k: Seq<char>| #[trigger] self.rooms@.contains_key(k) ==> self.rooms@[k].wf()
    }

    /// No rooms.
    pub fn new(config: StreamConfig) -> (r: Self)
        ensures
            r.wf(),
            r.rooms() == Map::<Seq<char>, Room>::empty(),
            r.cfg() == config,
    {
        StreamManager { rooms: Keyed::new(), config }
    }

    /// Create room `room_name`; an existing name is refused.
    pub fn create_room(&mut self, room_name: &str) -> (r: Result<(), String>)
        requires
            old(self).wf(),
        ensures
            final(self).wf(),
            final(self).cfg() == old(self).cfg(),
            old(self).rooms().contains_key(room_name@) ==> {
                &&& r matches Err(m) && m@ == "Room '"@ + room_name@ + "' already exists"@
                &&& final(self).rooms() == old(self).rooms()
            },
            !old(self).rooms().contains_key(room_name@) ==> {
                let room = final(self).rooms()[room_name@];
                &&& r is Ok
                &&& final(self).rooms().contains_key(room_name@)
                &&& final(self).rooms().remove(room_name@) == old(self).rooms()
                &&& room.events().len() == 0 && room.next() == 0 && room.cfg() == old(self).cfg()
                &&& room.room_name() == room_name@
            },
    {
        if self.rooms.get(room_name).is_some() {
            let a = concat("Room '", room_name);
            return Err(concat(a.as_str(), "' already exists"));
        }
        let room = Room::new(room_name.to_string(), self.config);
        self.rooms.insert(room_name.to_string(), room);
        proof {
            assert(self.rooms@.remove(room_name@) =~= old(self).rooms@);
        }
        Ok(())
    }

    /// Publish event `event_type` with `data` to `room`, as an event with
    /// identifier `id` made at `now`; answers its offset.
    pub fn publish_at(&mut self, room: &str, event_type: &str, data: Vec<u8>, id: String, now: u64) -> (r: Result<u64, String>)
        requires
            old(self).wf(),
            old(self).rooms().contains_key(room@) ==> old(self).rooms()[room@].next() < u64::MAX,
        ensures
            final(self).wf(),
            final(self).cfg() == old(self).cfg(),
            !old(self).rooms().contains_key(room@) ==> {
                &&& r matches Err(m) && m@ == room_missing_message(room@)
                &&& final(self).rooms() == old(self).rooms()
            },
            old(self).rooms().contains_key(room@) ==> {
                let before = old(self).rooms()[room@];
                let after = final(self).rooms()[room@];
                &&& r == Ok::<u64, String>(before.next())
                &&& final(self).rooms().contains_key(room@)
                &&& final(self).rooms().remove(room@) == old(self).rooms().remove(room@)
                &&& after.next() == before.next() + 1
                &&& ({
                    let full = before.events().len() + 1 > before.cfg().max_buffer_size;
                    if full && before.cfg().max_buffer_size == 0 {
                        after.events().len() == 0
                    } else {
                        let e = after.events().last();
                        &&& after.events().len() > 0
                        &&& e.id@ == id@ && e.offset == before.next() && e.room@ == room@ && e.event@ == event_type@
                        &&& e.data@ == data@ && e.timestamp == now
                        &&& after.events().drop_last() == if full { before.events().drop_first() } else { before.events() }
                    }
                })
            },
    {
        proof {
            self.rooms.lemma_view();
        }
        match self.rooms.remove(room) {
            None => Err(room_missing(room)),
            Some(mut r) => {
                let ghost mid = self.rooms@;
                let event = StreamEvent::new_with(id, room.to_string(), event_type.to_string(), data, now);
                let offset = r.publish(event);
                proof {
                    let b = old(self).rooms()[room@];
                    let pushed = b.events().push(StreamEvent { offset: b.next(), ..event });
                    if pushed.len() > b.cfg().max_buffer_size {
                        assert(r.events() =~= pushed.drop_first());
                        if b.cfg().max_buffer_size > 0 {
                            assert(b.events().len() > 0);
                            assert(r.events().drop_last() =~= b.events().drop_first());
                        }
                    } else {
                        assert(r.events().drop_last() =~= b.events());
                    }
                }
                self.rooms.insert(room.to_string(), r);
                proof {
                    assert(self.rooms@.remove(room@) =~= mid);
                }
                Ok(offset)
            },
        }
    }

    /// Publish an event now, with a fresh identifier.
    pub fn publish(&mut self, room: &str, event_type: &str, data: Vec<u8>) -> (r: Result<u64, String>)
        requires
            old(self).wf(),
            old(self).rooms().contains_key(room@) ==> old(self).rooms()[room@].next() < u64::MAX,
        ensures
            r is Ok <==> old(self).rooms().contains_key(room@),
            r matches Ok(o) ==> o == old(self).rooms()[room@].next(),
            final(self).wf(),
            final(self).cfg() == old(self).cfg(),
            !old(self).rooms().contains_key(room@) ==> {
                &&& r matches Err(m) && m@ == room_missing_message(room@)
                &&& final(self).rooms() == old(self).rooms()
            },
            old(self).rooms().contains_key(room@) ==> {
                let before = old(self).rooms()[room@];
                let after = final(self).rooms()[room@];
                &&& r == Ok::<u64, String>(before.next())
                &&& final(self).rooms().contains_key(room@)
                &&& final(self).rooms().remove(room@) == old(self).rooms().remove(room@)
                &&& after.next() == before.next() + 1
                &&& ({
                    let full = before.events().len() + 1 > before.cfg().max_buffer_size;
                    if full && before.cfg().max_buffer_size == 0 {
                        after.events().len() == 0
                    } else {
                        let e = after.events().last();
                        &&& after.events().len() > 0
                        &&& e.id@.len() == 36 && e.offset == before.next() && e.room@ == room@ && e.event@ == event_type@
                        &&& e.data@ == data@
                        &&& after.events().drop_last() == if full { before.events().drop_first() } else { before.events() }
                    }
                })
            },
    {
        let id = new_uuid_v4();
        let now = unix_time_secs();
        self.publish_at(room, event_type, data, id, now)
    }

    /// Read events of `room` for a subscriber (see `Room::consume`).
    pub fn consume(&mut self, room: &str, subscriber_id: &str, from_offset: u64, limit: usize) -> (r: Result<Vec<StreamEvent>, String>)
        requires
            old(self).wf(),
        ensures
            final(self).wf(),
            final(self).cfg() == old(self).cfg(),
            !old(self).rooms().contains_key(room@) ==> {
                &&& r matches Err(m) && m@ == room_missing_message(room@)
                &&& final(self).rooms() == old(self).rooms()
            },
            old(self).rooms().contains_key(room@) ==> {
                let before = old(self).rooms()[room@];
                let after = final(self).rooms()[room@];
                let want = first_events(at_or_after(before.events(), from_offset), limit);
                &&& r matches Ok(v) && v@.len() == want.len()
                    && forall|i: int| 0 <= i < want.len() ==> same_event(#[trigger] v@[i], want[i])
                &&& final(self).rooms().contains_key(room@)
                &&& final(self).rooms().remove(room@) == old(self).rooms().remove(room@)
                &&& after.events() == before.events() && after.next() == before.next()
                &&& after.subscribers().contains_key(subscriber_id@)
            },
    {
        match self.rooms.remove(room) {
            None => Err(room_missing(room)),
            Some(mut r) => {
                let ghost mid = self.rooms@;
                let events = r.consume(subscriber_id, from_offset, limit);
                self.rooms.insert(room.to_string(), r);
                proof {
                    assert(self.rooms@.remove(room@) =~= mid);
                }
                Ok(events)
            },
        }
    }

    /// The counters of `room`.
    pub fn room_stats(&self, room: &str) -> (r: Result<RoomStats, String>)
        requires
            self.wf(),
        ensures
            !self.rooms().contains_key(room@) ==> (r matches Err(m) && m@ == room_missing_message(room@)),
            self.rooms().contains_key(room@) ==> r == Ok::<RoomStats, String>(self.rooms()[room@].counters()),
    {
        match self.rooms.get(room) {
            Some(r) => Ok(r.stats()),
            None => Err(room_missing(room)),
        }
    }

    /// The names of all rooms.
    pub fn list_rooms(&self) -> (r: Vec<String>)
        requires
            self.wf(),
        ensures
            r@.len() == self.rooms().len(),
            forall|i: int| 0 <= i < r@.len() ==> self.rooms().contains_key(#[trigger] r@[i]@),
    {
        proof {
            self.rooms.lemma_entries();
        }
        let n = self.rooms.len();
        let mut out: Vec<String> = Vec::new();
        let mut i: usize = 0;
        while i < n
            invariant
                self.wf(),
                n == self.rooms.entries().len(),
                i <= n,
                out@.len() == i,
                forall|j: int| 0 <= j < i ==> (#[trigger] out@[j])@ == self.rooms.entries()[j].0@,
            decreases n - i,
        {
            let (k, _r) = self.rooms.entry_at(i);
            out.push(k.clone());
            i = i + 1;
        }
        proof {
            self.rooms.lemma_entries();
            assert forall|i: int| 0 <= i < out@.len() implies self.rooms().contains_key(#[trigger] out@[i]@) by {
                assert(out@[i]@ == self.rooms.entries()[i].0@);
            }
        }
        out
    }

    /// Delete `room`.
    pub fn delete_room(&mut self, room: &str) -> (r: Result<(), String>)
        requires
            old(self).wf(),
        ensures
            final(self).wf(),
            final(self).cfg() == old(self).cfg(),
            final(self).rooms() == old(self).rooms().remove(room@),
            r is Ok <==> old(self).rooms().contains_key(room@),
            r is Err ==> (r matches Err(m) && m@ == room_missing_message(room@)),
    {
        match self.rooms.remove(room) {
            Some(_r) => Ok(()),
            None => Err(room_missing(room)),
        }
    }

    /// Compact every room at `now` (see `Room::compact_at`): what the
    /// periodic compaction does.
    pub fn compact_all_at(&mut self, now: u64)
        requires
            old(self).wf(),
        ensures
            final(self).wf(),
            final(self).cfg() == old(self).cfg(),
            final(self).rooms().dom() == old(self).rooms().dom(),
            forall|k: Seq<char>| #[trigger] old(self).rooms().contains_key(k) ==>
                room_compacted(old(self).rooms()[k], final(self).rooms()[k], now),
    {
        proof {
            self.rooms.lemma_entries();
        }
        let n = self.rooms.len();
        let mut i: usize = 0;
        while i < n
            invariant
                old(self).wf(),
                self.rooms.wf(),
                n == self.rooms.entries().len(),
                n == old(self).rooms.entries().len(),
                i <= n,
                self.config == old(self).config,
                forall|k: Seq<char>| #[trigger] self.rooms@.contains_key(k) ==> self.rooms@[k].wf(),
                forall|j: int| 0 <= j < n ==> (#[trigger] self.rooms.entries()[j]).0@ == old(self).rooms.entries()[j].0@,
                forall|j: int| i <= j < n ==> (#[trigger] self.rooms.entries()[j]).1 == old(self).rooms.entries()[j].1,
                forall|j: int| 0 <= j < i ==> room_compacted(old(self).rooms.entries()[j].1,
                    #[trigger] self.rooms.entries()[j].1, now),
            decreases n - i,
        {
            proof {
                self.rooms.lemma_entries();
                assert(self.rooms@.contains_key(self.rooms.entries()[i as int].0@));
            }
            let ghost before_entries = self.rooms.entries();
            let blank = Room::new(String::new(), self.config);
            let mut r = self.rooms.replace_at(i, blank);
            r.compact_at(now);
            let _blank = self.rooms.replace_at(i, r);
            proof {
                self.rooms.lemma_entries();
                assert forall|k: Seq<char>| #[trigger] self.rooms@.contains_key(k) implies self.rooms@[k].wf() by {
                    let j = choose|j: int| 0 <= j < self.rooms.entries().len() && self.rooms.entries()[j].0@ == k;
                    if j != i {
                        assert(self.rooms.entries()[j] == before_entries[j]);
                        assert(before_entries[j].1 == self.rooms@[k]);
                    }
                }
            }
            i = i + 1;
        }
        proof {
            self.rooms.lemma_entries();
            old(self).rooms.lemma_entries();
            assert(self.rooms().dom() =~= old(self).rooms().dom()) by {
                assert forall|k: Seq<char>| self.rooms@.contains_key(k) <==> old(self).rooms@.contains_key(k) by {
                    if self.rooms@.contains_key(k) {
                        let j = choose|j: int| 0 <= j < self.rooms.entries().len() && self.rooms.entries()[j].0@ == k;
                        assert(old(self).rooms@.contains_key(old(self).rooms.entries()[j].0@));
                    }
                    if old(self).rooms@.contains_key(k) {
                        let j = choose|j: int| 0 <= j < old(self).rooms.entries().len() && old(self).rooms.entries()[j].0@ == k;
                        assert(self.rooms@.contains_key(self.rooms.entries()[j].0@));
                    }
                }
            }
            assert forall|k: Seq<char>| #[trigger] old(self).rooms().contains_key(k) implies
                room_compacted(old(self).rooms()[k], self.rooms()[k], now) by {
                let j = choose|j: int| 0 <= j < old(self).rooms.entries().len() && old(self).rooms.entries()[j].0@ == k;
                assert(old(self).rooms@[k] == old(self).rooms.entries()[j].1);
                assert(self.rooms@.contains_key(self.rooms.entries()[j].0@));
                assert(self.rooms@[k] == self.rooms.entries()[j].1);
            }
        }
    }
}

} // verus!
