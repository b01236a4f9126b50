//! Queue messages, configuration and counters.

use vstd::prelude::*;
use crate::clock::unix_time_secs;
use crate::error::{Result, SynapError};
use crate::ids::new_uuid_v4;
use crate::keyed::Keyed;
use crate::partition::{copy_bytes, copy_pairs};
use crate::text::owned;

verus! {

/// A message of a queue.
#[derive(Debug)]
pub struct QueueMessage {
    /// Unique identifier.
    pub id: String,
    /// Payload.
    pub payload: Vec<u8>,
    /// Priority, 0 to 9 (9 first).
    pub priority: u8,
    /// Deliveries that were not acknowledged so far.
    pub retry_count: u32,
    /// Retries allowed before the message goes to the dead letters.
    pub max_retries: u32,
    /// Creation time (Unix seconds, 32 bits).
    pub created_at: u32,
    /// Extra headers, as name and value.
    pub headers: Vec<(String, String)>,
}

/// The content of a message.
pub struct MessageView {
    pub id: Seq<char>,
    pub payload: Seq<u8>,
    pub priority: u8,
    pub retry_count: u32,
    pub max_retries: u32,
    pub created_at: u32,
    pub headers: Seq<(Seq<char>, Seq<char>)>,
}

impl View for QueueMessage {
    type V = MessageView;

    open spec fn view(&self) -> MessageView {
        MessageView {
            id: self.id@,
            payload: self.payload@,
            priority: self.priority,
            retry_count: self.retry_count,
            max_retries: self.max_retries,
            created_at: self.created_at,
            headers: self.headers@.map_values(|p: (String, String)| (p.0@, p.1@)),
        }
    }
}

impl Clone for QueueMessage {
    fn clone(&self) -> (r: Self)
        ensures
            r@ == self@,
    {
        QueueMessage {
            id: self.id.clone(),
            payload: copy_bytes(&self.payload),
            priority: self.priority,
            retry_count: self.retry_count,
            max_retries: self.max_retries,
            created_at: self.created_at,
            headers: copy_pairs(&self.headers),
        }
    }
}

/// The current time as 32-bit Unix seconds (truncated, as queues keep it).
fn now32() -> u32 {
    let t = unix_time_secs();
    t as u32
}

impl QueueMessage {
    /// A message with identifier `id` made at `now`; the priority is capped
    /// at 9.
    pub fn new_with(id: String, payload: Vec<u8>, priority: u8, max_retries: u32, now: u32) -> (r: Self)
        ensures
            r.id@ == id@,
            r.payload@ == payload@,
            r.priority == (if priority <= 9 { priority } else { 9 }),
            r.retry_count == 0,
            r.max_retries == max_retries,
            r.created_at == now,
            r.headers@.len() == 0,
    {
        QueueMessage {
            id,
            payload,
            priority: if priority <= 9 { priority } else { 9 },
            retry_count: 0,
            max_retries,
            created_at: now,
            headers: Vec::new(),
        }
    }

    /// A message with a fresh identifier, made now.
    pub fn new(payload: Vec<u8>, priority: u8, max_retries: u32) -> (r: Self)
        ensures
            r.id@.len() == 36,
            r.payload@ == payload@,
            r.priority == (if priority <= 9 { priority } else { 9 }),
            r.retry_count == 0,
            r.max_retries == max_retries,
            r.headers@.len() == 0,
    {
        let id = new_uuid_v4();
        let now = now32();
        Self::new_with(id, payload, priority, max_retries, now)
    }

    /// Whether the message has used up its retries.
    pub open spec fn dead(&self) -> bool {
        self.retry_count > self.max_retries
    }

    /// Whether the message has used up its retries.
    pub fn is_dead(&self) -> (r: bool)
        ensures
            r == self.dead(),
    {
        self.retry_count > self.max_retries
    }

    /// Count one more retry.
    pub fn increment_retry(&mut self)
        requires
            old(self).retry_count < u32::MAX,
        ensures
            *final(self) == (QueueMessage { retry_count: (old(self).retry_count + 1) as u32, ..*old(self) }),
    {
        self.retry_count = self.retry_count + 1;
    }
}

/// Configuration of a queue.
#[derive(Debug, Clone, Copy)]
pub struct QueueConfig {
    /// Most messages waiting.
    pub max_depth: usize,
    /// Seconds a consumer has to acknowledge.
    pub ack_deadline_secs: u64,
    /// Retries of a message published without its own.
    pub default_max_retries: u32,
    /// Priority of a message published without its own.
    pub default_priority: u8,
}

impl Default for QueueConfig {
    fn default() -> (r: Self)
        ensures
            r.max_depth == 100000,
            r.ack_deadline_secs == 30,
            r.default_max_retries == 3,
            r.default_priority == 5,
    {
        QueueConfig { max_depth: 100000, ack_deadline_secs: 30, default_max_retries: 3, default_priority: 5 }
    }
}

/// Counters of a queue.
#[derive(Debug, Clone, Copy)]
pub struct QueueStats {
    pub depth: usize,
    pub consumers: usize,
    pub published: u64,
    pub consumed: u64,
    pub acked: u64,
    pub nacked: u64,
    pub dead_lettered: u64,
}

impl QueueStats {
    /// All counters zero.
    pub open spec fn default_value() -> Self {
        QueueStats { depth: 0, consumers: 0, published: 0, consumed: 0, acked: 0, nacked: 0, dead_lettered: 0 }
    }
}

impl Default for QueueStats {
    fn default() -> (r: Self)
        ensures
            r == QueueStats::default_value(),
    {
        QueueStats { depth: 0, consumers: 0, published: 0, consumed: 0, acked: 0, nacked: 0, dead_lettered: 0 }
    }
}

/// A delivered message waiting for its acknowledgement.
#[derive(Debug)]
pub struct PendingMessage {
    /// The message delivered.
    pub message: QueueMessage,
    /// The consumer it went to.
    pub consumer_id: String,
    /// Time by which it must be acknowledged (Unix seconds, 32 bits).
    pub ack_deadline: u32,
}

/// The content of a pending message.
pub struct PendingView {
    pub message: MessageView,
    pub consumer_id: Seq<char>,
    pub ack_deadline: u32,
}

impl View for PendingMessage {
    type V = PendingView;

    open spec fn view(&self) -> PendingView {
        PendingView { message: self.message@, consumer_id: self.consumer_id@, ack_deadline: self.ack_deadline }
    }
}

/// The views of a list of messages.
pub open spec fn message_views(s: Seq<QueueMessage>) -> Seq<MessageView> {
    s.map_values(|m: QueueMessage| m@)
}

/// Whether `p` is where a message of priority `pr` goes in `s`: after every
/// message of at least its priority, before the first of lower priority.
pub open spec fn priority_slot(s: Seq<MessageView>, pr: u8, p: int) -> bool {
    &&& 0 <= p <= s.len()
    &&& forall|j: int| 0 <= j < p ==> (#[trigger] s[j]).priority >= pr
    &&& p < s.len() ==> s[p].priority < pr
}

/// `a + b` in 32 bits, held at the maximum.
pub open spec fn sat_add_u32(a: u32, b: u32) -> u32 {
    if a + b > u32::MAX { u32::MAX } else { (a + b) as u32 }
}

/// The state of a queue.
pub struct QueueState {
    pub name: Seq<char>,
    /// Waiting messages, in delivery order.
    pub messages: Seq<MessageView>,
    /// Delivered messages by identifier.
    pub pending: Map<Seq<char>, PendingView>,
    /// Messages out of retries.
    pub dead_letter: Seq<MessageView>,
    pub stats: QueueStats,
    pub config: QueueConfig,
}

impl QueueState {
    /// The state after a negative acknowledgement of `id`: the message
    /// counts one more retry; out of retries it goes to the dead letters,
    /// else it goes to the back of the queue when `requeue` asks.
    pub open spec fn nacked(self, id: Seq<char>, requeue: bool) -> Self {
        if !self.pending.contains_key(id) {
            self
        } else {
            let pm = self.pending[id].message;
            let m = MessageView { retry_count: pm.retry_count.wrapping_add(1), ..pm };
            let counted = QueueStats { nacked: self.stats.nacked.wrapping_add(1), ..self.stats };
            if m.retry_count > m.max_retries {
                QueueState {
                    pending: self.pending.remove(id),
                    dead_letter: self.dead_letter.push(m),
                    stats: QueueStats { dead_lettered: counted.dead_lettered.wrapping_add(1), ..counted },
                    ..self
                }
            } else if requeue {
                QueueState {
                    pending: self.pending.remove(id),
                    messages: self.messages.push(m),
                    stats: QueueStats { depth: (self.messages.len() + 1) as usize, ..counted },
                    ..self
                }
            } else {
                QueueState { pending: self.pending.remove(id), stats: counted, ..self }
            }
        }
    }

    /// Whether `after` is this queue with `m` published: a full queue stays
    /// as it is; otherwise `m` goes behind every message of at least its
    /// priority.
    pub open spec fn published_to(self, after: QueueState, m: MessageView) -> bool {
        if self.messages.len() >= self.config.max_depth {
            after == self
        } else {
            &&& exists|p: int| priority_slot(self.messages, m.priority, p) && after.messages == self.messages.insert(p, m)
            &&& after.stats == (QueueStats {
                published: self.stats.published.wrapping_add(1),
                depth: (self.messages.len() + 1) as usize,
                ..self.stats
            })
            &&& after.pending == self.pending
            &&& after.dead_letter == self.dead_letter
            &&& after.name == self.name
            &&& after.config == self.config
        }
    }

    /// The state after negative acknowledgements of `ids`, in order, each
    /// requeueing.
    pub open spec fn requeued_all(self, ids: Seq<Seq<char>>) -> Self
        decreases ids.len(),
    {
        if ids.len() == 0 {
            self
        } else {
            self.requeued_all(ids.drop_last()).nacked(ids.last(), true)
        }
    }
}

/// One queue: waiting messages by priority, delivered ones awaiting
/// acknowledgement, and dead letters.
pub struct Queue {
    name: String,
    messages: Vec<QueueMessage>,
    pending: Keyed<PendingMessage>,
    dead_letter: Vec<QueueMessage>,
    stats: QueueStats,
    config: QueueConfig,
}

impl View for Queue {
    type V = QueueState;

    closed spec fn view(&self) -> QueueState {
        QueueState {
            name: self.name@,
            messages: message_views(self.messages@),
            pending: self.pending@.map_values(|p: PendingMessage| p@),
            dead_letter: message_views(self.dead_letter@),
            stats: self.stats,
            config: self.config,
        }
    }
}

impl Queue {
    /// The invariant of the pending messages.
    pub closed spec fn wf(&self) -> bool {
        &&& self.pending.wf()
        &&& self.messages@.len() <= usize::MAX
    }

    /// The identifiers of the pending messages whose deadline has passed at
    /// `now`, in storage order.
    pub closed spec fn overdue(&self, now: u32) -> Seq<Seq<char>> {
        self.pending.entries().filter(|e: (String, PendingMessage)| now >= e.1.ack_deadline)
            .map_values(|e: (String, PendingMessage)| e.0@)
    }

    /// An empty queue.
    pub fn new(name: String, config: QueueConfig) -> (r: Self)
        ensures
            r.wf(),
            r@.name == name@,
            r@.messages.len() == 0,
            r@.pending == Map::<Seq<char>, PendingView>::empty(),
            r@.dead_letter.len() == 0,
            r@.stats == QueueStats::default_value(),
            r@.config == config,
    {
        let r = Queue {
            name,
            messages: Vec::new(),
            pending: Keyed::new(),
            dead_letter: Vec::new(),
            stats: QueueStats::default(),
            config,
        };
        proof {
            assert(r@.pending =~= Map::<Seq<char>, PendingView>::empty());
        }
        r
    }

    /// Add `message` behind every message of at least its priority; a full
    /// queue refuses it. Answers the message's identifier.
    pub fn publish(&mut self, message: QueueMessage) -> (r: Result<String>)
        requires
            old(self).wf(),
        ensures
            final(self).wf(),
            old(self)@.messages.len() >= old(self)@.config.max_depth ==> (r matches Err(SynapError::QueueFull(n))
                && n@ == old(self)@.name) && final(self)@ == old(self)@,
            old(self)@.messages.len() < old(self)@.config.max_depth ==> (r matches Ok(id) && id@ == message.id@),
            old(self)@.published_to(final(self)@, message@),
    {
        if self.messages.len() >= self.config.max_depth {
            return Err(SynapError::QueueFull(self.name.clone()));
        }
        let id = message.id.clone();
        let mut p: usize = 0;
        while p < self.messages.len() && self.messages[p].priority >= message.priority
            invariant
                p <= self.messages@.len(),
                forall|j: int| 0 <= j < p ==> (#[trigger] self.messages@[j]).priority >= message.priority,
            decreases self.messages@.len() - p,
        {
            p = p + 1;
        }
        let ghost before = self.messages@;
        let ghost mv = message@;
        self.messages.insert(p, message);
        self.stats.published = self.stats.published.wrapping_add(1);
        self.stats.depth = self.messages.len();
        proof {
            let bv = message_views(before);
            assert(message_views(self.messages@) =~= bv.insert(p as int, mv));
            assert(priority_slot(bv, mv.priority, p as int));
        }
        Ok(id)
    }

    /// Deliver the first message to `consumer_id` at time `now`: it stays
    /// pending until acknowledged, by `now` plus the acknowledgement
    /// deadline. Answers a copy of it.
    pub fn consume_at(&mut self, consumer_id: String, now: u32) -> (r: Option<QueueMessage>)
        requires
            old(self).wf(),
        ensures
            final(self).wf(),
            old(self)@.messages.len() == 0 ==> r is None && final(self)@ == old(self)@,
            old(self)@.messages.len() > 0 ==> {
                let m = old(self)@.messages[0];
                &&& r matches Some(x) && x@ == m
                &&& final(self)@.messages == old(self)@.messages.drop_first()
                &&& final(self)@.pending == old(self)@.pending.insert(m.id, PendingView {
                    message: m,
                    consumer_id: consumer_id@,
                    ack_deadline: sat_add_u32(now, old(self)@.config.ack_deadline_secs as u32),
                })
                &&& final(self)@.stats == (QueueStats {
                    consumed: old(self)@.stats.consumed.wrapping_add(1),
                    depth: (old(self)@.messages.len() - 1) as usize,
                    consumers: 1,
                    ..old(self)@.stats
                })
                &&& final(self)@.dead_letter == old(self)@.dead_letter
                &&& final(self)@.name == old(self)@.name
                &&& final(self)@.config == old(self)@.config
            },
    {
        if self.messages.len() == 0 {
            return None;
        }
        let ghost before = self.messages@;
        let ghost pend = self.pending@;
        let m = self.messages.remove(0);
        let out = m.clone();
        let key = m.id.clone();
        let deadline = now.saturating_add(self.config.ack_deadline_secs as u32);
        let ghost pv = PendingView { message: m@, consumer_id: consumer_id@, ack_deadline: deadline };
        let pm = PendingMessage { message: m, consumer_id, ack_deadline: deadline };
        self.pending.insert(key, pm);
        self.stats.consumed = self.stats.consumed.wrapping_add(1);
        self.stats.depth = self.messages.len();
        self.stats.consumers = 1;
        proof {
            assert(message_views(self.messages@) =~= message_views(before).drop_first());
            assert(message_views(before)[0] == before[0]@);
            assert(self@.pending =~= pend.map_values(|p: PendingMessage| p@).insert(before[0]@.id, pv));
        }
        Some(out)
    }

    /// Deliver the first message to `consumer_id` now (see `consume_at`).
    pub fn consume(&mut self, consumer_id: String) -> (r: Option<QueueMessage>)
        requires
            old(self).wf(),
        ensures
            final(self).wf(),
            old(self)@.messages.len() == 0 <==> r is None,
            old(self)@.messages.len() > 0 ==> (r matches Some(x) && x@ == old(self)@.messages[0])
                && final(self)@.messages == old(self)@.messages.drop_first(),
    {
        let now = now32();
        self.consume_at(consumer_id, now)
    }

    /// Acknowledge the pending message `message_id`; an unknown one is an
    /// error naming it.
    pub fn ack(&mut self, message_id: &str) -> (r: Result<()>)
        requires
            old(self).wf(),
        ensures
            final(self).wf(),
            old(self)@.pending.contains_key(message_id@) ==> r is Ok && final(self)@ == (QueueState {
                pending: old(self)@.pending.remove(message_id@),
                stats: QueueStats { acked: old(self)@.stats.acked.wrapping_add(1), ..old(self)@.stats },
                ..old(self)@
            }),
            !old(self)@.pending.contains_key(message_id@) ==> (r matches Err(SynapError::MessageNotFound(m))
                && m@ == message_id@) && final(self)@ == old(self)@,
    {
        let ghost pend = self.pending@;
        match self.pending.remove(message_id) {
            Some(_p) => {
                self.stats.acked = self.stats.acked.wrapping_add(1);
                proof {
                    assert(self@.pending =~= pend.map_values(|p: PendingMessage| p@).remove(message_id@));
                }
                Ok(())
            },
            None => {
                proof {
                    assert(self.pending@ =~= pend);
                    assert(self@.pending =~= old(self)@.pending);
                }
                Err(SynapError::MessageNotFound(owned(message_id)))
            },
        }
    }

    /// Negative acknowledgement of `message_id` (see `QueueState::nacked`);
    /// an unknown one is an error naming it.
    pub fn nack(&mut self, message_id: &str, requeue: bool) -> (r: Result<()>)
        requires
            old(self).wf(),
        ensures
            final(self).wf(),
            final(self)@ == old(self)@.nacked(message_id@, requeue),
            old(self)@.pending.contains_key(message_id@) <==> r is Ok,
            !old(self)@.pending.contains_key(message_id@) ==> (r matches Err(SynapError::MessageNotFound(m))
                && m@ == message_id@),
    {
        let ghost pend = self.pending@;
        let ghost st = self@;
        match self.pending.remove(message_id) {
            Some(p) => {
                let mut message = p.message;
                let ghost pm = message@;
                self.stats.nacked = self.stats.nacked.wrapping_add(1);
                message.retry_count = message.retry_count.wrapping_add(1);
                proof {
                    assert(pend[message_id@].message@ == pm);
                    assert(self@.pending =~= st.pending.remove(message_id@));
                }
                if message.is_dead() {
                    let ghost dl = self.dead_letter@;
                    let ghost mv = message@;
                    self.dead_letter.push(message);
                    self.stats.dead_lettered = self.stats.dead_lettered.wrapping_add(1);
                    proof {
                        assert(message_views(self.dead_letter@) =~= message_views(dl).push(mv));
                    }
                } else if requeue {
                    let ghost ms = self.messages@;
                    let ghost mv = message@;
                    self.messages.push(message);
                    self.stats.depth = self.messages.len();
                    proof {
                        assert(message_views(self.messages@) =~= message_views(ms).push(mv));
                    }
                }
                Ok(())
            },
            None => {
                proof {
                    assert(self.pending@ =~= pend);
                    assert(self@.pending =~= old(self)@.pending);
                }
                Err(SynapError::MessageNotFound(owned(message_id)))
            },
        }
    }

    /// Requeue, at time `now`, every pending message whose deadline has
    /// passed (see `QueueState::requeued_all`).
    pub fn check_expired_pending_at(&mut self, now: u32)
        requires
            old(self).wf(),
        ensures
            final(self).wf(),
            final(self)@ == old(self)@.requeued_all(old(self).overdue(now)),
    {
        let ghost ents = self.pending.entries();
        let mut expired: Vec<String> = Vec::new();
        let mut i: usize = 0;
        let n = self.pending.len();
        while i < n
            invariant
                self.wf(),
                n == ents.len(),
                ents == self.pending.entries(),
                i <= n,
                expired@.map_values(|s: String| s@) == ents.take(i as int)
                    .filter(|e: (String, PendingMessage)| now >= e.1.ack_deadline)
                    .map_values(|e: (String, PendingMessage)| e.0@),
            decreases n - i,
        {
            let (k, p) = self.pending.entry_at(i);
            let ghost old_exp = expired@;
            proof {
                reveal(Seq::filter);
                assert(ents.take(i + 1).drop_last() =~= ents.take(i as int));
                assert(ents.take(i + 1).last() == ents[i as int]);
            }
            if now >= p.ack_deadline {
                expired.push(k.clone());
                proof {
                    assert(expired@.map_values(|s: String| s@) =~= old_exp.map_values(|s: String| s@).push(ents[i as int].0@));
                }
            }
            i = i + 1;
        }
        proof {
            assert(ents.take(n as int) =~= ents);
        }
        let ghost st = self@;
        let ghost ids = expired@.map_values(|s: String| s@);
        let mut j: usize = 0;
        while j < expired.len()
            invariant
                self.wf(),
                ids == expired@.map_values(|s: String| s@),
                j <= expired@.len(),
                self@ == st.requeued_all(ids.take(j as int)),
            decreases expired@.len() - j,
        {
            proof {
                assert(ids.take(j + 1).drop_last() =~= ids.take(j as int));
                assert(ids.take(j + 1).last() == expired@[j as int]@);
            }
            let _r = self.nack(expired[j].as_str(), true);
            j = j + 1;
        }
        proof {
            assert(ids.take(ids.len() as int) =~= ids);
        }
    }

    /// The counters.
    pub fn stats(&self) -> (r: QueueStats)
        ensures
            r == self@.stats,
    {
        self.stats
    }

    /// Drop every waiting message; answers how many there were.
    pub fn purge(&mut self) -> (r: usize)
        requires
            old(self).wf(),
        ensures
            final(self).wf(),
            r == old(self)@.messages.len(),
            final(self)@ == (QueueState {
                messages: Seq::empty(),
                stats: QueueStats { depth: 0, ..old(self)@.stats },
                ..old(self)@
            }),
    {
        let count = self.messages.len();
        self.messages = Vec::new();
        self.stats.depth = 0;
        proof {
            assert(message_views(self.messages@) =~= Seq::<MessageView>::empty());
        }
        count
    }

    /// Copies of the waiting messages, in delivery order.
    pub fn waiting(&self) -> (r: Vec<QueueMessage>)
        ensures
            message_views(r@) == self@.messages,
    {
        let mut out: Vec<QueueMessage> = Vec::new();
        let mut i: usize = 0;
        while i < self.messages.len()
            invariant
                i <= self.messages@.len(),
                message_views(out@) == message_views(self.messages@.take(i as int)),
            decreases self.messages@.len() - i,
        {
            let ghost old_out = out@;
            let m = self.messages[i].clone();
            out.push(m);
            proof {
                assert(message_views(out@) =~= message_views(old_out).push(m@));
                assert(message_views(self.messages@.take(i + 1)) =~= message_views(self.messages@.take(i as int)).push(self.messages@[i as int]@));
            }
            i = i + 1;
        }
        proof {
            assert(self.messages@.take(self.messages@.len() as int) =~= self.messages@);
        }
        out
    }
}

/// Queues by name.
pub struct QueueManager {
    queues: Keyed<Queue>,
    default_config: QueueConfig,
}

impl QueueManager {
    /// The queues by name.
    pub closed spec fn queue_states(&self) -> Map<Seq<char>, QueueState> {
        self.queues@.map_values(|q: Queue| q@)
    }

    /// The configuration of a queue created without its own.
    pub closed spec fn defaults(&self) -> QueueConfig {
        self.default_config
    }

    /// The invariant.
    pub closed spec fn wf(&self) -> bool {
        &&& self.queues.wf()
        &&& forall|k: Seq<char>| #[trigger] self.queues@.contains_key(k) ==> self.queues@[k].wf()
    }

    /// No queues yet.
    pub fn new(config: QueueConfig) -> (r: Self)
        ensures
            r.wf(),
            r.queue_states() == Map::<Seq<char>, QueueState>::empty(),
            r.defaults() == config,
    {
        let r = QueueManager { queues: Keyed::new(), default_config: config };
        proof {
            assert(r.queue_states() =~= Map::<Seq<char>, QueueState>::empty());
        }
        r
    }

    /// Create the queue `name` with `config` (else the default) unless it
    /// exists.
    pub fn create_queue(&mut self, name: &str, config: Option<QueueConfig>) -> (r: Result<()>)
        requires
            old(self).wf(),
        ensures
            final(self).wf(),
            r is Ok,
            final(self).defaults() == old(self).defaults(),
            old(self).queue_states().contains_key(name@) ==> final(self).queue_states() == old(self).queue_states(),
            !old(self).queue_states().contains_key(name@) ==> {
                let q = final(self).queue_states()[name@];
                &&& final(self).queue_states() == old(self).queue_states().insert(name@, q)
                &&& q.name == name@
                &&& q.messages.len() == 0 && q.dead_letter.len() == 0
                &&& q.pending == Map::<Seq<char>, PendingView>::empty()
                &&& q.stats == QueueStats::default_value()
                &&& q.config == (match config { Some(c) => c, None => old(self).defaults() })
            },
    {
        if self.queues.get(name).is_some() {
            return Ok(());
        }
        let c = match config {
            Some(c) => c,
            None => self.default_config,
        };
        let q = Queue::new(owned(name), c);
        let ghost qv = q@;
        let ghost before = self.queues@;
        self.queues.insert(owned(name), q);
        proof {
            assert(self.queue_states() =~= old(self).queue_states().insert(name@, qv));
            assert forall|k: Seq<char>| #[trigger] self.queues@.contains_key(k) implies self.queues@[k].wf() by {
                if k != name@ {
                    assert(before.contains_key(k));
                }
            }
        }
        Ok(())
    }

    /// Publish `message` to the queue `queue_name` (see
    /// `QueueState::published_to`); an unknown queue is an error naming it.
    pub fn publish_message(&mut self, queue_name: &str, message: QueueMessage) -> (r: Result<String>)
        requires
            old(self).wf(),
        ensures
            final(self).wf(),
            final(self).defaults() == old(self).defaults(),
            !old(self).queue_states().contains_key(queue_name@) ==> (r matches Err(SynapError::QueueNotFound(n))
                && n@ == queue_name@) && final(self).queue_states() == old(self).queue_states(),
            old(self).queue_states().contains_key(queue_name@) ==> {
                let q = final(self).queue_states()[queue_name@];
                &&& final(self).queue_states() == old(self).queue_states().insert(queue_name@, q)
                &&& old(self).queue_states()[queue_name@].published_to(q, message@)
                &&& old(self).queue_states()[queue_name@].messages.len() < old(self).queue_states()[queue_name@].config.max_depth
                    ==> (r matches Ok(id) && id@ == message.id@)
                &&& old(self).queue_states()[queue_name@].messages.len() >= old(self).queue_states()[queue_name@].config.max_depth
                    ==> (r matches Err(SynapError::QueueFull(n)) && n@ == old(self).queue_states()[queue_name@].name)
            },
    {
        let ghost before = self.queues@;
        match self.queues.remove(queue_name) {
            Some(mut q) => {
                let r = q.publish(message);
                let ghost qv = q@;
                proof {
                    assert(q.wf());
                }
                self.queues.insert(owned(queue_name), q);
                proof {
                    assert(self.queue_states() =~= old(self).queue_states().insert(queue_name@, qv));
                    assert forall|k: Seq<char>| #[trigger] self.queues@.contains_key(k) implies self.queues@[k].wf() by {
                        if k != queue_name@ {
                            assert(before.contains_key(k));
                        }
                    }
                }
                r
            },
            None => {
                proof {
                    assert(self.queues@ =~= before);
                    assert(self.queue_states() =~= old(self).queue_states());
                }
                Err(SynapError::QueueNotFound(owned(queue_name)))
            },
        }
    }

    /// Publish a new message with `payload` to the queue `queue_name`, with
    /// the queue's default priority and retries where none are given.
    pub fn publish(&mut self, queue_name: &str, payload: Vec<u8>, priority: Option<u8>, max_retries: Option<u32>) -> (r: Result<String>)
        requires
            old(self).wf(),
        ensures
            final(self).wf(),
            !old(self).queue_states().contains_key(queue_name@) ==> (r matches Err(SynapError::QueueNotFound(n))
                && n@ == queue_name@) && final(self).queue_states() == old(self).queue_states(),
            old(self).queue_states().contains_key(queue_name@) ==> {
                let before = old(self).queue_states()[queue_name@];
                let q = final(self).queue_states()[queue_name@];
                let pr = match priority { Some(p) => p, None => before.config.default_priority };
                &&& final(self).queue_states() == old(self).queue_states().insert(queue_name@, q)
                &&& exists|m: MessageView| {
                    &&& m.payload == payload@
                    &&& m.priority == (if pr <= 9 { pr } else { 9 })
                    &&& m.retry_count == 0
                    &&& m.max_retries == (match max_retries { Some(x) => x, None => before.config.default_max_retries })
                    &&& m.headers.len() == 0
                    &&& #[trigger] before.published_to(q, m)
                    &&& before.messages.len() < before.config.max_depth ==> (r matches Ok(id) && id@ == m.id)
                }
            },
    {
        let cfg = match self.queues.get(queue_name) {
            Some(q) => q.config,
            None => {
                return Err(SynapError::QueueNotFound(owned(queue_name)));
            },
        };
        let pr = match priority {
            Some(p) => p,
            None => cfg.default_priority,
        };
        let mr = match max_retries {
            Some(x) => x,
            None => cfg.default_max_retries,
        };
        let message = QueueMessage::new(payload, pr, mr);
        let ghost mv = message@;
        let r = self.publish_message(queue_name, message);
        proof {
            assert(mv.headers.len() == 0);
        }
        r
    }

    /// Deliver the first message of `queue_name` to `consumer_id` at `now`
    /// (see `Queue::consume_at`).
    pub fn consume_at(&mut self, queue_name: &str, consumer_id: &str, now: u32) -> (r: Result<Option<QueueMessage>>)
        requires
            old(self).wf(),
        ensures
            final(self).wf(),
            !old(self).queue_states().contains_key(queue_name@) ==> (r matches Err(SynapError::QueueNotFound(n))
                && n@ == queue_name@) && final(self).queue_states() == old(self).queue_states(),
            old(self).queue_states().contains_key(queue_name@) ==> {
                let before = old(self).queue_states()[queue_name@];
                let q = final(self).queue_states()[queue_name@];
                &&& final(self).queue_states() == old(self).queue_states().insert(queue_name@, q)
                &&& before.messages.len() == 0 ==> (r matches Ok(None)) && q == before
                &&& before.messages.len() > 0 ==> {
                    let m = before.messages[0];
                    &&& r matches Ok(Some(x)) && x@ == m
                    &&& q.messages == before.messages.drop_first()
                    &&& q.pending == before.pending.insert(m.id, PendingView {
                        message: m,
                        consumer_id: consumer_id@,
                        ack_deadline: sat_add_u32(now, before.config.ack_deadline_secs as u32),
                    })
                }
            },
    {
        let ghost before = self.queues@;
        match self.queues.remove(queue_name) {
            Some(mut q) => {
                let r = q.consume_at(owned(consumer_id), now);
                let ghost qv = q@;
                self.queues.insert(owned(queue_name), q);
                proof {
                    assert(self.queue_states() =~= old(self).queue_states().insert(queue_name@, qv));
                    assert forall|k: Seq<char>| #[trigger] self.queues@.contains_key(k) implies self.queues@[k].wf() by {
                        if k != queue_name@ {
                            assert(before.contains_key(k));
                        }
                    }
                }
                Ok(r)
            },
            None => {
                proof {
                    assert(self.queues@ =~= before);
                    assert(self.queue_states() =~= old(self).queue_states());
                }
                Err(SynapError::QueueNotFound(owned(queue_name)))
            },
        }
    }

    /// Deliver the first message of `queue_name` to `consumer_id` now.
    pub fn consume(&mut self, queue_name: &str, consumer_id: &str) -> (r: Result<Option<QueueMessage>>)
        requires
            old(self).wf(),
        ensures
            final(self).wf(),
            !old(self).queue_states().contains_key(queue_name@) ==> (r matches Err(SynapError::QueueNotFound(n))
                && n@ == queue_name@),
            old(self).queue_states().contains_key(queue_name@) ==> {
                let before = old(self).queue_states()[queue_name@];
                &&& before.messages.len() == 0 ==> (r matches Ok(None))
                &&& before.messages.len() > 0 ==> (r matches Ok(Some(x)) && x@ == before.messages[0])
            },
    {
        let now = now32();
        self.consume_at(queue_name, consumer_id, now)
    }

    /// Acknowledge `message_id` in `queue_name` (see `Queue::ack`).
    pub fn ack(&mut self, queue_name: &str, message_id: &str) -> (r: Result<()>)
        requires
            old(self).wf(),
        ensures
            final(self).wf(),
            !old(self).queue_states().contains_key(queue_name@) ==> (r matches Err(SynapError::QueueNotFound(n))
                && n@ == queue_name@) && final(self).queue_states() == old(self).queue_states(),
            old(self).queue_states().contains_key(queue_name@) ==> {
                let before = old(self).queue_states()[queue_name@];
                let q = final(self).queue_states()[queue_name@];
                &&& final(self).queue_states() == old(self).queue_states().insert(queue_name@, q)
                &&& before.pending.contains_key(message_id@) ==> r is Ok && q == (QueueState {
                    pending: before.pending.remove(message_id@),
                    stats: QueueStats { acked: before.stats.acked.wrapping_add(1), ..before.stats },
                    ..before
                })
                &&& !before.pending.contains_key(message_id@) ==> (r matches Err(SynapError::MessageNotFound(m))
                    && m@ == message_id@) && q == before
            },
    {
        let ghost before = self.queues@;
        match self.queues.remove(queue_name) {
            Some(mut q) => {
                let r = q.ack(message_id);
                let ghost qv = q@;
                self.queues.insert(owned(queue_name), q);
                proof {
                    assert(self.queue_states() =~= old(self).queue_states().insert(queue_name@, qv));
                    assert forall|k: Seq<char>| #[trigger] self.queues@.contains_key(k) implies self.queues@[k].wf() by {
                        if k != queue_name@ {
                            assert(before.contains_key(k));
                        }
                    }
                }
                r
            },
            None => {
                proof {
                    assert(self.queues@ =~= before);
                    assert(self.queue_states() =~= old(self).queue_states());
                }
                Err(SynapError::QueueNotFound(owned(queue_name)))
            },
        }
    }

    /// Negative acknowledgement of `message_id` in `queue_name` (see
    /// `QueueState::nacked`).
    pub fn nack(&mut self, queue_name: &str, message_id: &str, requeue: bool) -> (r: Result<()>)
        requires
            old(self).wf(),
        ensures
            final(self).wf(),
            !old(self).queue_states().contains_key(queue_name@) ==> (r matches Err(SynapError::QueueNotFound(n))
                && n@ == queue_name@) && final(self).queue_states() == old(self).queue_states(),
            old(self).queue_states().contains_key(queue_name@) ==> {
                let before = old(self).queue_states()[queue_name@];
                &&& final(self).queue_states() == old(self).queue_states().insert(queue_name@,
                    before.nacked(message_id@, requeue))
                &&& before.pending.contains_key(message_id@) <==> r is Ok
                &&& !before.pending.contains_key(message_id@) ==> (r matches Err(SynapError::MessageNotFound(m))
                    && m@ == message_id@)
            },
    {
        let ghost before = self.queues@;
        match self.queues.remove(queue_name) {
            Some(mut q) => {
                let r = q.nack(message_id, requeue);
                let ghost qv = q@;
                self.queues.insert(owned(queue_name), q);
                proof {
                    assert(self.queue_states() =~= old(self).queue_states().insert(queue_name@, qv));
                    assert forall|k: Seq<char>| #[trigger] self.queues@.contains_key(k) implies self.queues@[k].wf() by {
                        if k != queue_name@ {
                            assert(before.contains_key(k));
                        }
                    }
                }
                r
            },
            None => {
                proof {
                    assert(self.queues@ =~= before);
                    assert(self.queue_states() =~= old(self).queue_states());
                }
                Err(SynapError::QueueNotFound(owned(queue_name)))
            },
        }
    }

    /// The counters of `queue_name`.
    pub fn stats(&self, queue_name: &str) -> (r: Result<QueueStats>)
        requires
            self.wf(),
        ensures
            self.queue_states().contains_key(queue_name@) ==> (r matches Ok(s) && s == self.queue_states()[queue_name@].stats),
            !self.queue_states().contains_key(queue_name@) ==> (r matches Err(SynapError::QueueNotFound(n))
                && n@ == queue_name@),
    {
        match self.queues.get(queue_name) {
            Some(q) => Ok(q.stats()),
            None => Err(SynapError::QueueNotFound(owned(queue_name))),
        }
    }

    /// The names of the queues.
    pub fn list_queues(&self) -> (r: Vec<String>)
        requires
            self.wf(),
        ensures
            r@.len() == self.queue_states().len(),
            forall|i: int| 0 <= i < r@.len() ==> self.queue_states().contains_key((#[trigger] r@[i])@),
    {
        proof {
            self.queues.lemma_entries();
        }
        let n = self.queues.len();
        let mut out: Vec<String> = Vec::new();
        let mut i: usize = 0;
        while i < n
            invariant
                self.wf(),
                n == self.queues.entries().len(),
                i <= n,
                out@.len() == i,
                forall|j: int| 0 <= j < i ==> (#[trigger] out@[j])@ == self.queues.entries()[j].0@,
            decreases n - i,
        {
            let (k, _q) = self.queues.entry_at(i);
            out.push(k.clone());
            i = i + 1;
        }
        proof {
            self.queues.lemma_entries();
            assert(self.queue_states().dom() =~= self.queues@.dom());
            assert forall|i: int| 0 <= i < out@.len() implies self.queue_states().contains_key((#[trigger] out@[i])@) by {
                assert(self.queues@.contains_key(self.queues.entries()[i].0@));
            }
        }
        out
    }

    /// Drop every waiting message of `queue_name`; answers how many.
    pub fn purge(&mut self, queue_name: &str) -> (r: Result<usize>)
        requires
            old(self).wf(),
        ensures
            final(self).wf(),
            !old(self).queue_states().contains_key(queue_name@) ==> (r matches Err(SynapError::QueueNotFound(n))
                && n@ == queue_name@) && final(self).queue_states() == old(self).queue_states(),
            old(self).queue_states().contains_key(queue_name@) ==> {
                let before = old(self).queue_states()[queue_name@];
                &&& r matches Ok(n) && n == before.messages.len()
                &&& final(self).queue_states() == old(self).queue_states().insert(queue_name@, QueueState {
                    messages: Seq::empty(),
                    stats: QueueStats { depth: 0, ..before.stats },
                    ..before
                })
            },
    {
        let ghost before = self.queues@;
        match self.queues.remove(queue_name) {
            Some(mut q) => {
                let n = q.purge();
                let ghost qv = q@;
                self.queues.insert(owned(queue_name), q);
                proof {
                    assert(self.queue_states() =~= old(self).queue_states().insert(queue_name@, qv));
                    assert forall|k: Seq<char>| #[trigger] self.queues@.contains_key(k) implies self.queues@[k].wf() by {
                        if k != queue_name@ {
                            assert(before.contains_key(k));
                        }
                    }
                }
                Ok(n)
            },
            None => {
                proof {
                    assert(self.queues@ =~= before);
                    assert(self.queue_states() =~= old(self).queue_states());
                }
                Err(SynapError::QueueNotFound(owned(queue_name)))
            },
        }
    }

    /// Delete the queue `queue_name`; whether it existed.
    pub fn delete_queue(&mut self, queue_name: &str) -> (r: Result<bool>)
        requires
            old(self).wf(),
        ensures
            final(self).wf(),
            r matches Ok(b) && b == old(self).queue_states().contains_key(queue_name@),
            final(self).queue_states() == old(self).queue_states().remove(queue_name@),
    {
        let ghost before = self.queues@;
        let removed = self.queues.remove(queue_name);
        proof {
            assert(self.queue_states() =~= old(self).queue_states().remove(queue_name@));
            assert forall|k: Seq<char>| #[trigger] self.queues@.contains_key(k) implies self.queues@[k].wf() by {
                assert(before.contains_key(k));
            }
        }
        Ok(removed.is_some())
    }

    /// The queue under `k`.
    pub closed spec fn queue(&self, k: Seq<char>) -> Queue {
        self.queues@[k]
    }

    /// Requeue, in every queue, the pending messages whose deadline passed
    /// at `now` (one tick of the deadline checker): each queue becomes what
    /// `Queue::check_expired_pending_at` makes of it.
    pub fn check_all_expired_at(&mut self, now: u32)
        requires
            old(self).wf(),
        ensures
            final(self).wf(),
            final(self).defaults() == old(self).defaults(),
            final(self).queue_states().dom() == old(self).queue_states().dom(),
            forall|k: Seq<char>| #[trigger] old(self).queue_states().contains_key(k) ==>
                final(self).queue_states()[k] == old(self).queue(k)@.requeued_all(old(self).queue(k).overdue(now)),
    {
        proof {
            self.queues.lemma_entries();
        }
        let n = self.queues.len();
        let mut i: usize = 0;
        while i < n
            invariant
                old(self).wf(),
                self.queues.wf(),
                n == self.queues.entries().len(),
                n == old(self).queues.entries().len(),
                i <= n,
                self.default_config == old(self).default_config,
                forall|k: Seq<char>| #[trigger] self.queues@.contains_key(k) ==> self.queues@[k].wf(),
                forall|j: int| 0 <= j < n ==> (#[trigger] self.queues.entries()[j]).0@ == old(self).queues.entries()[j].0@,
                forall|j: int| i <= j < n ==> (#[trigger] self.queues.entries()[j]).1 == old(self).queues.entries()[j].1,
                forall|j: int| 0 <= j < i ==> (#[trigger] self.queues.entries()[j]).1@
                    == old(self).queues.entries()[j].1@.requeued_all(old(self).queues.entries()[j].1.overdue(now)),
            decreases n - i,
        {
            proof {
                self.queues.lemma_entries();
                assert(self.queues@.contains_key(self.queues.entries()[i as int].0@));
            }
            let ghost before_entries = self.queues.entries();
            let blank = Queue::new(String::new(), self.default_config);
            let mut q = self.queues.replace_at(i, blank);
            q.check_expired_pending_at(now);
            let _blank = self.queues.replace_at(i, q);
            proof {
                self.queues.lemma_entries();
                assert forall|k: Seq<char>| #[trigger] self.queues@.contains_key(k) implies self.queues@[k].wf() by {
                    let j = choose|j: int| 0 <= j < self.queues.entries().len() && self.queues.entries()[j].0@ == k;
                    if j != i {
                        assert(self.queues.entries()[j] == before_entries[j]);
                        assert(before_entries[j].1 == self.queues@[k]);
                    }
                }
            }
            i = i + 1;
        }
        proof {
            self.queues.lemma_entries();
            old(self).queues.lemma_entries();
            assert(self.queue_states().dom() =~= old(self).queue_states().dom()) by {
                assert forall|k: Seq<char>| self.queues@.contains_key(k) <==> old(self).queues@.contains_key(k) by {
                    if self.queues@.contains_key(k) {
                        let j = choose|j: int| 0 <= j < self.queues.entries().len() && self.queues.entries()[j].0@ == k;
                        assert(old(self).queues@.contains_key(old(self).queues.entries()[j].0@));
                    }
                    if old(self).queues@.contains_key(k) {
                        let j = choose|j: int| 0 <= j < old(self).queues.entries().len() && old(self).queues.entries()[j].0@ == k;
                        assert(self.queues@.contains_key(self.queues.entries()[j].0@));
                    }
                }
            }
            assert forall|k: Seq<char>| #[trigger] old(self).queue_states().contains_key(k) implies
                self.queue_states()[k] == old(self).queue(k)@.requeued_all(old(self).queue(k).overdue(now)) by {
                let j = choose|j: int| 0 <= j < old(self).queues.entries().len() && old(self).queues.entries()[j].0@ == k;
                assert(old(self).queues@[k] == old(self).queues.entries()[j].1);
                assert(self.queues@.contains_key(self.queues.entries()[j].0@));
                assert(self.queues@[k] == self.queues.entries()[j].1);
            }
        }
    }
}


/// NACK: the message leaves the pending set and counts one more retry.
/// Out of retries it goes to the dead letters and the waiting messages stay
/// as they were; with retries left it goes to the back of the queue when
/// `requeue` asks, and otherwise it is dropped: the waiting messages and
/// the dead letters stay as they were.
pub proof fn lemma_nack_outcome(q: QueueState, id: Seq<char>, requeue: bool)
    requires
        q.pending.contains_key(id),
    ensures
        ({
            let after = q.nacked(id, requeue);
            let pm = q.pending[id].message;
            let m = MessageView { retry_count: pm.retry_count.wrapping_add(1), ..pm };
            &&& after.pending == q.pending.remove(id)
            &&& !after.pending.contains_key(id)
            &&& m.retry_count > m.max_retries ==> after.messages == q.messages
                && after.dead_letter == q.dead_letter.push(m)
            &&& m.retry_count <= m.max_retries ==> after.dead_letter == q.dead_letter
            &&& m.retry_count <= m.max_retries && requeue ==> after.messages == q.messages.push(m)
            &&& m.retry_count <= m.max_retries && !requeue ==> after.messages == q.messages
        }),
{
}

} // verus!
