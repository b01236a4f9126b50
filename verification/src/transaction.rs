//! MULTI/EXEC transactions: queued commands, watched keys, the sorted
//! set of keys a transaction locks, and the manager that runs them against
//! the key-value store with optimistic locking by key versions.

use vstd::prelude::*;
use crate::clock::unix_time_secs;
use crate::keyed::Keyed;
use crate::text::{chars_of, same_text, owned};
use crate::error::{Result, SynapError};
use crate::kv_model::{KVState, set_state, set_ok, delete_state, present, incr_state, incr_answer};
use crate::kv_store::KVStore;
use crate::partition::copy_bytes;
use crate::types::KVConfig;

verus! {

/// A command queued in a transaction.
#[derive(Debug)]
pub enum TransactionCommand {
    /// Set `key` to `value`, with an optional time to live.
    KVSet { key: String, value: Vec<u8>, ttl: Option<u64> },
    /// Delete `keys`.
    KVDel { keys: Vec<String> },
    /// Add `delta` to the number under `key`.
    KVIncr { key: String, delta: i64 },
}

/// The version of a watched key when it was watched.
#[derive(Debug, Clone, Copy, PartialEq, Eq, Structural)]
pub struct WatchedKeyVersion {
    pub version: u64,
    pub watched_at: u64,
}

/// Lexicographic order of texts by character code, as `String` orders.
pub open spec fn text_lt(a: Seq<char>, b: Seq<char>) -> bool
    decreases a.len(),
{
    if a.len() == 0 {
        b.len() > 0
    } else if b.len() == 0 {
        false
    } else if a[0] < b[0] {
        true
    } else if a[0] > b[0] {
        false
    } else {
        text_lt(a.drop_first(), b.drop_first())
    }
}

/// Of two different texts, one comes first.
pub proof fn lemma_text_lt_total(a: Seq<char>, b: Seq<char>)
    requires
        a != b,
    ensures
        text_lt(a, b) || text_lt(b, a),
    decreases a.len(),
{
    if a.len() > 0 && b.len() > 0 && a[0] == b[0] {
        if a.drop_first() == b.drop_first() {
            assert(a =~= seq![a[0]] + a.drop_first());
            assert(b =~= seq![b[0]] + b.drop_first());
        }
        lemma_text_lt_total(a.drop_first(), b.drop_first());
    } else if a.len() == 0 && b.len() == 0 {
        assert(a =~= b);
    }
}

/// No text comes before itself.
pub proof fn lemma_text_lt_irreflexive(a: Seq<char>)
    ensures
        !text_lt(a, a),
    decreases a.len(),
{
    if a.len() > 0 {
        lemma_text_lt_irreflexive(a.drop_first());
    }
}

/// Text order is transitive.
pub proof fn lemma_text_lt_trans(a: Seq<char>, b: Seq<char>, c: Seq<char>)
    requires
        text_lt(a, b),
        text_lt(b, c),
    ensures
        text_lt(a, c),
    decreases a.len(),
{
    if a.len() > 0 && b.len() > 0 && c.len() > 0 && a[0] == b[0] && b[0] == c[0] {
        lemma_text_lt_trans(a.drop_first(), b.drop_first(), c.drop_first());
    }
}

/// In a strictly sorted list, an earlier text comes before a later one.
proof fn lemma_sorted_lt(v: Seq<String>, l: int, j: int)
    requires
        strictly_sorted(v),
        0 <= l < j < v.len(),
    ensures
        text_lt(v[l]@, v[j]@),
    decreases j - l,
{
    if l + 1 < j {
        lemma_sorted_lt(v, l, j - 1);
        assert(text_lt(v[j - 1]@, v[j]@));
        lemma_text_lt_trans(v[l]@, v[j - 1]@, v[j]@);
    }
}

/// Whether `a` comes before `b`.
fn text_less(a: &str, b: &str) -> (r: bool)
    ensures
        r == text_lt(a@, b@),
{
    let x = chars_of(a);
    let y = chars_of(b);
    let mut i: usize = 0;
    proof {
        assert(a@.skip(0) =~= a@);
        assert(b@.skip(0) =~= b@);
    }
    while i < x.len() && i < y.len()
        invariant
            x@ == a@,
            y@ == b@,
            i <= x@.len(),
            i <= y@.len(),
            forall|j: int| 0 <= j < i ==> x@[j] == y@[j],
            text_lt(a@, b@) == text_lt(a@.skip(i as int), b@.skip(i as int)),
        decreases x@.len() - i,
    {
        let cx = x[i];
        let cy = y[i];
        proof {
            assert(a@.skip(i as int)[0] == x@[i as int]);
            assert(b@.skip(i as int)[0] == y@[i as int]);
        }
        if cx < cy {
            return true;
        }
        if cx > cy {
            return false;
        }
        proof {
            assert(a@.skip(i as int).drop_first() =~= a@.skip(i + 1));
            assert(b@.skip(i as int).drop_first() =~= b@.skip(i + 1));
            assert(x@[i as int] == y@[i as int]);
        }
        i = i + 1;
    }
    i == x.len() && i < y.len()
}

/// The keys a command writes.
pub open spec fn command_keys(c: TransactionCommand) -> Set<Seq<char>> {
    match c {
        TransactionCommand::KVSet { key, .. } => set![key@],
        TransactionCommand::KVDel { keys } => keys@.map_values(|k: String| k@).to_set(),
        TransactionCommand::KVIncr { key, .. } => set![key@],
    }
}

/// The keys the commands of `cs` write.
pub open spec fn commands_keys(cs: Seq<TransactionCommand>) -> Set<Seq<char>>
    decreases cs.len(),
{
    if cs.len() == 0 {
        Set::empty()
    } else {
        commands_keys(cs.drop_last()).union(command_keys(cs.last()))
    }
}

/// Whether `v` runs strictly upward.
pub open spec fn strictly_sorted(v: Seq<String>) -> bool {
    forall|i: int| 0 <= i < v.len() - 1 ==> text_lt((#[trigger] v[i])@, v[i + 1]@)
}

/// The texts of `v`.
pub open spec fn texts(v: Seq<String>) -> Set<Seq<char>> {
    v.map_values(|s: String| s@).to_set()
}

/// Add `key` to the sorted list `v` unless it is there.
fn insert_sorted(v: &mut Vec<String>, key: &String)
    requires
        strictly_sorted(old(v)@),
    ensures
        strictly_sorted(final(v)@),
        texts(final(v)@) == texts(old(v)@).insert(key@),
{
    let mut i: usize = 0;
    while i < v.len()
        invariant
            v@ == old(v)@,
            strictly_sorted(v@),
            i <= v@.len(),
            forall|j: int| 0 <= j < i ==> (#[trigger] v@[j])@ != key@,
        decreases v@.len() - i,
    {
        if same_text(v[i].as_str(), key.as_str()) {
            proof {
                assert(texts(v@) =~= texts(v@).insert(key@)) by {
                    assert(v@.map_values(|s: String| s@)[i as int] == key@);
                }
            }
            return;
        }
        i = i + 1;
    }
    let mut p: usize = 0;
    while p < v.len() && !text_less(key.as_str(), v[p].as_str())
        invariant
            v@ == old(v)@,
            strictly_sorted(v@),
            forall|j: int| 0 <= j < v@.len() ==> (#[trigger] v@[j])@ != key@,
            p <= v@.len(),
            forall|j: int| 0 <= j < p ==> !text_lt(key@, (#[trigger] v@[j])@),
        decreases v@.len() - p,
    {
        p = p + 1;
    }
    let ghost before = v@;
    v.insert(p, key.clone());
    proof {
        let after = v@;
        assert forall|j: int| 0 <= j < after.len() - 1 implies text_lt((#[trigger] after[j])@, after[j + 1]@) by {
            if j < p - 1 {
                assert(after[j] == before[j] && after[j + 1] == before[j + 1]);
            } else if j == p - 1 {
                assert(after[j] == before[j]);
                assert(!text_lt(key@, before[j]@));
                assert(before[j]@ != key@);
                lemma_text_lt_total(key@, before[j]@);
            } else if j == p {
                assert(after[j + 1] == before[p as int]);
            } else {
                assert(after[j] == before[j - 1] && after[j + 1] == before[j]);
            }
        }
        let bt = before.map_values(|s: String| s@);
        let at = after.map_values(|s: String| s@);
        assert(at =~= bt.insert(p as int, key@));
        assert forall|t: Seq<char>| texts(after).contains(t) <==> texts(before).insert(key@).contains(t) by {
            if texts(after).contains(t) {
                let w = choose|w: int| 0 <= w < at.len() && at[w] == t;
                if w < p {
                    assert(bt[w] == t);
                } else if w > p {
                    assert(bt[w - 1] == t);
                }
            }
            if texts(before).contains(t) {
                let w = choose|w: int| 0 <= w < bt.len() && bt[w] == t;
                if w < p {
                    assert(at[w] == t);
                } else {
                    assert(at[w + 1] == t);
                }
            }
            if t == key@ {
                assert(at[p as int] == t);
            }
        }
        assert(texts(after) =~= texts(before).insert(key@));
    }
}

/// A transaction of one client.
#[derive(Debug)]
pub struct Transaction {
    /// The client that owns it.
    pub client_id: String,
    commands: Vec<TransactionCommand>,
    watched_keys: Keyed<WatchedKeyVersion>,
    /// Start time (Unix seconds).
    pub started_at: u64,
}

impl Transaction {
    /// The queued commands, in order.
    pub closed spec fn queued(&self) -> Seq<TransactionCommand> {
        self.commands@
    }

    /// The watched keys with their versions.
    pub closed spec fn watched(&self) -> Map<Seq<char>, WatchedKeyVersion> {
        self.watched_keys@
    }

    /// The owning client.
    pub closed spec fn client(&self) -> Seq<char> {
        self.client_id@
    }

    /// The start time.
    pub closed spec fn start_time(&self) -> u64 {
        self.started_at
    }

    /// The invariant of the watched keys.
    pub closed spec fn wf(&self) -> bool {
        self.watched_keys.wf()
    }

    /// A transaction with nothing queued or watched, started at `now`.
    pub fn new_at(client_id: String, now: u64) -> (r: Self)
        ensures
            r.wf(),
            r.client() == client_id@,
            r.queued().len() == 0,
            r.watched() == Map::<Seq<char>, WatchedKeyVersion>::empty(),
            r.start_time() == now,
    {
        Transaction { client_id, commands: Vec::new(), watched_keys: Keyed::new(), started_at: now }
    }

    /// A transaction with nothing queued or watched, started now.
    pub fn new(client_id: String) -> (r: Self)
        ensures
            r.wf(),
            r.client() == client_id@,
            r.queued().len() == 0,
            r.watched() == Map::<Seq<char>, WatchedKeyVersion>::empty(),
    {
        let now = unix_time_secs();
        Self::new_at(client_id, now)
    }

    /// Queue `cmd`.
    pub fn queue_command(&mut self, cmd: TransactionCommand)
        ensures
            final(self).queued() == old(self).queued().push(cmd),
            final(self).watched() == old(self).watched(),
            final(self).wf() == old(self).wf(),
            final(self).client() == old(self).client(),
            final(self).start_time() == old(self).start_time(),
    {
        self.commands.push(cmd);
    }

    /// Watch each key with its version, a later entry for a key winning.
    pub fn watch_keys(&mut self, keys: Vec<(String, WatchedKeyVersion)>)
        requires
            old(self).wf(),
        ensures
            final(self).wf(),
            final(self).watched() == watched_after(old(self).watched(), keys@),
            final(self).queued() == old(self).queued(),
            final(self).client() == old(self).client(),
            final(self).start_time() == old(self).start_time(),
    {
        let mut keys = keys;
        let ghost all = keys@;
        let mut rest: Vec<(String, WatchedKeyVersion)> = Vec::new();
        // Take the pairs from the back, then insert them front to back.
        while keys.len() > 0
            invariant
                all == keys@ + rest@.reverse(),
            decreases keys@.len(),
        {
            let e = keys.pop().unwrap();
            let ghost r0 = rest@;
            rest.push(e);
            proof {
                assert(keys@ + rest@.reverse() =~= all) by {
                    assert(rest@.reverse() =~= seq![e] + r0.reverse());
                }
            }
        }
        let ghost start = self.watched();
        let ghost mut k: int = 0;
        proof {
            assert(all.take(0) =~= Seq::<(String, WatchedKeyVersion)>::empty());
            assert(rest@.reverse() =~= all);
        }
        while rest.len() > 0
            invariant
                self.wf(),
                0 <= k <= all.len(),
                rest@.reverse() == all.skip(k),
                rest@.len() == all.len() - k,
                self.watched() == watched_after(start, all.take(k)),
                self.queued() == old(self).queued(),
                self.client() == old(self).client(),
                self.start_time() == old(self).start_time(),
            decreases rest@.len(),
        {
            let ghost r0 = rest@;
            let (key, version) = rest.pop().unwrap();
            proof {
                assert(r0.reverse()[0] == r0[r0.len() - 1]);
                assert(all.skip(k)[0] == all[k]);
                assert(all[k] == (key, version));
                assert forall|x: int| 0 <= x < rest@.len() implies #[trigger] rest@.reverse()[x] == all.skip(k + 1)[x] by {
                    assert(rest@.reverse()[x] == rest@[rest@.len() - 1 - x]);
                    assert(rest@[rest@.len() - 1 - x] == r0[r0.len() - 2 - x]);
                    assert(r0.reverse()[x + 1] == r0[r0.len() - 2 - x]);
                    assert(all.skip(k)[x + 1] == all[k + 1 + x]);
                }
                assert(rest@.reverse() =~= all.skip(k + 1));
                assert(all.take(k + 1).drop_last() =~= all.take(k));
            }
            self.watched_keys.insert(key, version);
            proof {
                k = k + 1;
            }
        }
        proof {
            assert(all.take(k) =~= all);
        }
    }

    /// Stop watching every key.
    pub fn unwatch(&mut self)
        ensures
            final(self).wf(),
            final(self).watched() == Map::<Seq<char>, WatchedKeyVersion>::empty(),
            final(self).queued() == old(self).queued(),
            final(self).client() == old(self).client(),
            final(self).start_time() == old(self).start_time(),
    {
        self.watched_keys = Keyed::new();
    }

    /// The watched keys.
    pub fn get_watched_keys(&self) -> (r: &Keyed<WatchedKeyVersion>)
        ensures
            r@ == self.watched(),
    {
        &self.watched_keys
    }

    /// DISCARD: drop the queued commands and the watched keys; the owner
    /// and the start time stay.
    pub fn discard(&mut self)
        ensures
            final(self).wf(),
            final(self).client() == old(self).client(),
            final(self).start_time() == old(self).start_time(),
            final(self).queued().len() == 0,
            final(self).watched() == Map::<Seq<char>, WatchedKeyVersion>::empty(),
    {
        self.commands = Vec::new();
        self.watched_keys = Keyed::new();
    }

    /// Whether nothing is queued.
    pub fn is_empty(&self) -> (r: bool)
        ensures
            r == (self.queued().len() == 0),
    {
        self.commands.len() == 0
    }

    /// The keys the queued commands write, each once, in increasing order.
    pub fn get_keys_to_lock(&self) -> (r: Vec<String>)
        ensures
            strictly_sorted(r@),
            texts(r@) == commands_keys(self.queued()),
    {
        let mut keys: Vec<String> = Vec::new();
        let mut i: usize = 0;
        proof {
            assert(texts(keys@) =~= Set::<Seq<char>>::empty());
            assert(self.commands@.take(0) =~= Seq::<TransactionCommand>::empty());
        }
        while i < self.commands.len()
            invariant
                i <= self.commands@.len(),
                strictly_sorted(keys@),
                texts(keys@) == commands_keys(self.commands@.take(i as int)),
            decreases self.commands@.len() - i,
        {
            let ghost before = texts(keys@);
            proof {
                assert(self.commands@.take(i + 1).drop_last() =~= self.commands@.take(i as int));
                assert(self.commands@.take(i + 1).last() == self.commands@[i as int]);
            }
            match &self.commands[i] {
                TransactionCommand::KVSet { key, .. } => {
                    insert_sorted(&mut keys, key);
                    proof {
                        assert(texts(keys@) =~= before.union(set![key@]));
                    }
                },
                TransactionCommand::KVDel { keys: del_keys } => {
                    let mut j: usize = 0;
                    while j < del_keys.len()
                        invariant
                            j <= del_keys@.len(),
                            strictly_sorted(keys@),
                            texts(keys@) == before.union(del_keys@.take(j as int).map_values(|k: String| k@).to_set()),
                        decreases del_keys@.len() - j,
                    {
                        let ghost b2 = texts(keys@);
                        insert_sorted(&mut keys, &del_keys[j]);
                        proof {
                            let m1 = del_keys@.take(j as int).map_values(|k: String| k@);
                            let m2 = del_keys@.take(j + 1).map_values(|k: String| k@);
                            assert(m2 =~= m1.push(del_keys@[j as int]@));
                            assert(m2.to_set() =~= m1.to_set().insert(del_keys@[j as int]@)) by {
                                assert forall|t: Seq<char>| m2.to_set().contains(t) <==> m1.to_set().insert(del_keys@[j as int]@).contains(t) by {
                                    if m2.to_set().contains(t) {
                                        let w = choose|w: int| 0 <= w < m2.len() && m2[w] == t;
                                        if w < m1.len() {
                                            assert(m1[w] == t);
                                        }
                                    }
                                    if m1.to_set().contains(t) {
                                        let w = choose|w: int| 0 <= w < m1.len() && m1[w] == t;
                                        assert(m2[w] == t);
                                    }
                                    if t == del_keys@[j as int]@ {
                                        assert(m2[j as int] == t);
                                    }
                                }
                            }
                            assert(texts(keys@) =~= before.union(m2.to_set()));
                        }
                        j = j + 1;
                    }
                    proof {
                        assert(del_keys@.take(del_keys@.len() as int) =~= del_keys@);
                    }
                },
                TransactionCommand::KVIncr { key, .. } => {
                    insert_sorted(&mut keys, key);
                    proof {
                        assert(texts(keys@) =~= before.union(set![key@]));
                    }
                },
            }
            i = i + 1;
        }
        proof {
            assert(self.commands@.take(self.commands@.len() as int) =~= self.commands@);
        }
        keys
    }
}

/// The watched keys after watching `keys` in order, a later entry for a
/// key winning.
pub open spec fn watched_after(m: Map<Seq<char>, WatchedKeyVersion>, keys: Seq<(String, WatchedKeyVersion)>) -> Map<Seq<char>, WatchedKeyVersion>
    decreases keys.len(),
{
    if keys.len() == 0 {
        m
    } else {
        watched_after(m, keys.drop_last()).insert(keys.last().0@, keys.last().1)
    }
}


/// Whether two commands say the same thing.
pub open spec fn same_command(a: TransactionCommand, b: TransactionCommand) -> bool {
    match (a, b) {
        (TransactionCommand::KVSet { key: k1, value: v1, ttl: t1 }, TransactionCommand::KVSet { key: k2, value: v2, ttl: t2 }) =>
            k1 == k2 && v1@ == v2@ && t1 == t2,
        (TransactionCommand::KVDel { keys: a }, TransactionCommand::KVDel { keys: b }) => a@ == b@,
        (TransactionCommand::KVIncr { key: k1, delta: d1 }, TransactionCommand::KVIncr { key: k2, delta: d2 }) =>
            k1 == k2 && d1 == d2,
        _ => false,
    }
}

/// Whether two command lists say the same thing, command by command.
pub open spec fn same_commands(a: Seq<TransactionCommand>, b: Seq<TransactionCommand>) -> bool {
    &&& a.len() == b.len()
    &&& forall|i: int| 0 <= i < a.len() ==> #[trigger] same_command(a[i], b[i])
}

impl TransactionCommand {
    /// A copy of the command.
    pub fn duplicate(&self) -> (r: Self)
        ensures
            same_command(r, *self),
    {
        match self {
            TransactionCommand::KVSet { key, value, ttl } =>
                TransactionCommand::KVSet { key: key.clone(), value: copy_bytes(value), ttl: *ttl },
            TransactionCommand::KVDel { keys } => {
                let mut out: Vec<String> = Vec::new();
                let mut i: usize = 0;
                while i < keys.len()
                    invariant
                        i <= keys@.len(),
                        out@ == keys@.take(i as int),
                    decreases keys@.len() - i,
                {
                    out.push(keys[i].clone());
                    proof {
                        assert(out@ =~= keys@.take(i + 1));
                    }
                    i = i + 1;
                }
                proof {
                    assert(out@ =~= keys@);
                }
                TransactionCommand::KVDel { keys: out }
            },
            TransactionCommand::KVIncr { key, delta } => TransactionCommand::KVIncr { key: key.clone(), delta: *delta },
        }
    }
}

impl Transaction {
    /// A copy of the transaction.
    pub fn duplicate(&self) -> (r: Self)
        requires
            self.wf(),
        ensures
            r.wf(),
            r.client() == self.client(),
            r.start_time() == self.start_time(),
            r.watched() == self.watched(),
            same_commands(r.queued(), self.queued()),
    {
        let mut cmds: Vec<TransactionCommand> = Vec::new();
        let mut i: usize = 0;
        while i < self.commands.len()
            invariant
                i <= self.commands@.len(),
                same_commands(cmds@, self.commands@.take(i as int)),
            decreases self.commands@.len() - i,
        {
            let c = self.commands[i].duplicate();
            cmds.push(c);
            proof {
                let t = self.commands@.take(i + 1);
                assert forall|j: int| 0 <= j < cmds@.len() implies #[trigger] same_command(cmds@[j], t[j]) by {
                    if j < i {
                        assert(same_command(cmds@[j], self.commands@.take(i as int)[j]));
                    }
                }
            }
            i = i + 1;
        }
        proof {
            assert(self.commands@.take(self.commands@.len() as int) =~= self.commands@);
        }
        Transaction {
            client_id: self.client_id.clone(),
            commands: cmds,
            watched_keys: self.watched_keys.copied(),
            started_at: self.started_at,
        }
    }
}

/// The version of a key that transactions write: how often, and when last.
#[derive(Debug, Clone, Copy, PartialEq, Eq, Structural)]
pub struct KeyVersion {
    pub version: u64,
    pub modified_at: u64,
}

/// The answer of one executed command.
#[derive(Debug, Clone, Copy, PartialEq, Eq, Structural)]
pub enum CommandResult {
    /// A value was stored.
    Stored,
    /// So many keys were deleted.
    Deleted(usize),
    /// The number after an increment.
    Value(i64),
}

/// How running commands ended: with their answers, or at the first
/// failure (the store ran out of memory, or a value was no integer).
pub enum RunOutcome {
    Done(Seq<CommandResult>),
    MemoryFull,
    NotInteger,
}

/// The version of `k` (0 for a key never written).
pub open spec fn version_of(m: Map<Seq<char>, KeyVersion>, k: Seq<char>) -> u64 {
    if m.contains_key(k) { m[k].version } else { 0 }
}

/// Whether a watched key was written since it was watched.
pub open spec fn watch_changed(w: Map<Seq<char>, WatchedKeyVersion>, m: Map<Seq<char>, KeyVersion>) -> bool {
    exists|k: Seq<char>| #[trigger] w.contains_key(k) && w[k].version != version_of(m, k)
}

/// The version after `v`, wrapping at the top.
pub open spec fn next_version(v: u64) -> u64 {
    if v == u64::MAX { 0 } else { (v + 1) as u64 }
}

/// The versions after the keys `ks` were written at `now`.
pub open spec fn bumped(m: Map<Seq<char>, KeyVersion>, ks: Set<Seq<char>>, now: u64) -> Map<Seq<char>, KeyVersion> {
    Map::new(
        |k: Seq<char>| m.contains_key(k) || ks.contains(k),
        |k: Seq<char>| if ks.contains(k) {
            KeyVersion { version: next_version(version_of(m, k)), modified_at: now }
        } else {
            m[k]
        },
    )
}

/// The entries that watching `keys` at `now` records.
pub open spec fn watch_entries(keys: Seq<String>, m: Map<Seq<char>, KeyVersion>, now: u64) -> Seq<(String, WatchedKeyVersion)> {
    keys.map_values(|k: String| (k, WatchedKeyVersion { version: version_of(m, k@), watched_at: now }))
}

/// Deleting `keys` in order: the store after, and how many were there.
pub open spec fn delete_keys(st: KVState, keys: Seq<String>) -> (KVState, nat)
    decreases keys.len(),
{
    if keys.len() == 0 {
        (st, 0)
    } else {
        let (s1, n) = delete_keys(st, keys.drop_last());
        let k = keys.last()@;
        (delete_state(s1, k), if present(s1.entries, k) { n + 1 } else { n })
    }
}

/// Running one command at `now`: the store after, and its answer.
pub open spec fn step(st: KVState, cfg: KVConfig, c: TransactionCommand, now: u64) -> (KVState, RunOutcome) {
    match c {
        TransactionCommand::KVSet { key, value, ttl } => (
            set_state(st, cfg, key@, value@, ttl, now),
            if set_ok(st, cfg, key@, value@) { RunOutcome::Done(seq![CommandResult::Stored]) } else { RunOutcome::MemoryFull },
        ),
        TransactionCommand::KVDel { keys } => {
            let (s1, n) = delete_keys(st, keys@);
            (s1, RunOutcome::Done(seq![CommandResult::Deleted(n as usize)]))
        },
        TransactionCommand::KVIncr { key, delta } => (
            incr_state(st, key@, delta, now),
            match incr_answer(st, key@, delta, now) {
                Some(v) => RunOutcome::Done(seq![CommandResult::Value(v)]),
                None => RunOutcome::NotInteger,
            },
        ),
    }
}

/// Running `cs` in order at `now`, stopping at the first failure.
pub open spec fn run_commands(st: KVState, cfg: KVConfig, cs: Seq<TransactionCommand>, now: u64) -> (KVState, RunOutcome)
    decreases cs.len(),
{
    if cs.len() == 0 {
        (st, RunOutcome::Done(Seq::empty()))
    } else {
        let (s1, o) = run_commands(st, cfg, cs.drop_last(), now);
        match o {
            RunOutcome::Done(rs) => {
                let (s2, o2) = step(s1, cfg, cs.last(), now);
                match o2 {
                    RunOutcome::Done(x) => (s2, RunOutcome::Done(rs + x)),
                    _ => (s2, o2),
                }
            },
            _ => (s1, o),
        }
    }
}

/// Once running has failed, later commands change nothing.
proof fn lemma_run_stuck(st: KVState, cfg: KVConfig, cs: Seq<TransactionCommand>, k: int, now: u64)
    requires
        0 <= k <= cs.len(),
        !(run_commands(st, cfg, cs.take(k), now).1 is Done),
    ensures
        run_commands(st, cfg, cs, now) == run_commands(st, cfg, cs.take(k), now),
    decreases cs.len(),
{
    if cs.len() == k {
        assert(cs.take(k) =~= cs);
    } else {
        assert(cs.drop_last().take(k) =~= cs.take(k));
        lemma_run_stuck(st, cfg, cs.drop_last(), k, now);
    }
}


/// The error of a client with no transaction in progress.
fn no_transaction() -> (r: SynapError)
    ensures
        r matches SynapError::InvalidRequest(m) && m@ == "No transaction in progress"@,
{
    SynapError::InvalidRequest(owned("No transaction in progress"))
}

/// Run one command on `kv` at `now`.
fn run_command(kv: &mut KVStore, c: &TransactionCommand, now: u64) -> (r: Result<CommandResult>)
    requires
        old(kv).wf(),
    ensures
        final(kv).wf(),
        final(kv).settings() == old(kv).settings(),
        final(kv).state() == step(old(kv).state(), old(kv).settings(), *c, now).0,
        match step(old(kv).state(), old(kv).settings(), *c, now).1 {
            RunOutcome::Done(x) => r matches Ok(v) && x == seq![v],
            RunOutcome::MemoryFull => r matches Err(SynapError::MemoryLimitExceeded),
            RunOutcome::NotInteger => r matches Err(SynapError::InvalidValue(_)),
        },
{
    match c {
        TransactionCommand::KVSet { key, value, ttl } => {
            match kv.set_at(key.clone(), copy_bytes(value), *ttl, now) {
                Ok(()) => Ok(CommandResult::Stored),
                Err(e) => Err(e),
            }
        },
        TransactionCommand::KVDel { keys } => {
            let ghost s0 = kv.state();
            let mut deleted: usize = 0;
            let mut j: usize = 0;
            proof {
                assert(keys@.take(0) =~= Seq::<String>::empty());
            }
            while j < keys.len()
                invariant
                    j <= keys@.len(),
                    deleted <= j,
                    kv.wf(),
                    kv.settings() == old(kv).settings(),
                    s0 == old(kv).state(),
                    delete_keys(s0, keys@.take(j as int)) == (kv.state(), deleted as nat),
                decreases keys@.len() - j,
            {
                proof {
                    assert(keys@.take(j + 1).drop_last() =~= keys@.take(j as int));
                    assert(keys@.take(j + 1).last() == keys@[j as int]);
                }
                let gone = kv.delete(keys[j].as_str());
                match gone {
                    Ok(true) => {
                        deleted = deleted + 1;
                    },
                    _ => {},
                }
                j = j + 1;
            }
            proof {
                assert(keys@.take(keys@.len() as int) =~= keys@);
            }
            Ok(CommandResult::Deleted(deleted))
        },
        TransactionCommand::KVIncr { key, delta } => {
            match kv.incr_at(key.as_str(), *delta, now) {
                Ok(v) => Ok(CommandResult::Value(v)),
                Err(e) => Err(e),
            }
        },
    }
}

/// The transactions of the clients, the versions of the keys that
/// transactions wrote, and the store their commands run on.
pub struct TransactionManager {
    transactions: Keyed<Transaction>,
    key_versions: Keyed<KeyVersion>,
    kv_store: KVStore,
}

impl TransactionManager {
    /// The transaction of each client.
    pub closed spec fn transactions(&self) -> Map<Seq<char>, Transaction> {
        self.transactions@
    }

    /// The version of each key that a transaction wrote.
    pub closed spec fn versions(&self) -> Map<Seq<char>, KeyVersion> {
        self.key_versions@
    }

    /// The store the commands run on.
    pub closed spec fn kv(&self) -> KVStore {
        self.kv_store
    }

    /// The invariant.
    pub closed spec fn wf(&self) -> bool {
        &&& self.transactions.wf()
        &&& self.key_versions.wf()
        &&& self.kv_store.wf()
        &&& forall|k: Seq<char>| #[trigger] self.transactions@.contains_key(k) ==> self.transactions@[k].wf()
    }

    /// No transactions and no versions, over `kv_store`.
    pub fn new(kv_store: KVStore) -> (r: Self)
        requires
            kv_store.wf(),
        ensures
            r.wf(),
            r.transactions() == Map::<Seq<char>, Transaction>::empty(),
            r.versions() == Map::<Seq<char>, KeyVersion>::empty(),
            r.kv() == kv_store,
    {
        TransactionManager { transactions: Keyed::new(), key_versions: Keyed::new(), kv_store }
    }

    /// MULTI at `now`: start a transaction for `client_id`; one already in
    /// progress is an error.
    pub fn multi_at(&mut self, client_id: String, now: u64) -> (r: Result<()>)
        requires
            old(self).wf(),
        ensures
            final(self).wf(),
            final(self).versions() == old(self).versions(),
            final(self).kv() == old(self).kv(),
            old(self).transactions().contains_key(client_id@) ==> {
                &&& r matches Err(SynapError::InvalidRequest(m)) && m@ == "Transaction already in progress"@
                &&& final(self).transactions() == old(self).transactions()
            },
            !old(self).transactions().contains_key(client_id@) ==> {
                let t = final(self).transactions()[client_id@];
                &&& r is Ok
                &&& final(self).transactions() == old(self).transactions().insert(client_id@, t)
                &&& t.client() == client_id@ && t.start_time() == now && t.queued().len() == 0
                &&& t.watched() == Map::<Seq<char>, WatchedKeyVersion>::empty()
            },
    {
        if self.transactions.index_of(client_id.as_str()).is_some() {
            return Err(SynapError::InvalidRequest(owned("Transaction already in progress")));
        }
        let key = client_id.clone();
        let t = Transaction::new_at(client_id, now);
        self.transactions.insert(key, t);
        Ok(())
    }

    /// MULTI now.
    pub fn multi(&mut self, client_id: String) -> (r: Result<()>)
        requires
            old(self).wf(),
        ensures
            final(self).wf(),
            final(self).versions() == old(self).versions(),
            final(self).kv() == old(self).kv(),
            old(self).transactions().contains_key(client_id@) ==> {
                &&& r matches Err(SynapError::InvalidRequest(m)) && m@ == "Transaction already in progress"@
                &&& final(self).transactions() == old(self).transactions()
            },
            !old(self).transactions().contains_key(client_id@) ==> {
                let t = final(self).transactions()[client_id@];
                &&& r is Ok
                &&& final(self).transactions() == old(self).transactions().insert(client_id@, t)
                &&& t.client() == client_id@ && t.queued().len() == 0
                &&& t.watched() == Map::<Seq<char>, WatchedKeyVersion>::empty()
            },
    {
        self.multi_at(client_id, unix_time_secs())
    }

    /// DISCARD: end the transaction of `client_id` without running it.
    pub fn discard(&mut self, client_id: &str) -> (r: Result<()>)
        requires
            old(self).wf(),
        ensures
            final(self).wf(),
            final(self).versions() == old(self).versions(),
            final(self).kv() == old(self).kv(),
            final(self).transactions() == old(self).transactions().remove(client_id@),
            old(self).transactions().contains_key(client_id@) ==> r is Ok,
            !old(self).transactions().contains_key(client_id@) ==>
                (r matches Err(SynapError::InvalidRequest(m)) && m@ == "No transaction in progress"@),
    {
        match self.transactions.remove(client_id) {
            Some(_) => Ok(()),
            None => Err(no_transaction()),
        }
    }

    /// WATCH at `now`: the transaction of `client_id` records the current
    /// version of each key of `keys`.
    pub fn watch_at(&mut self, client_id: &str, keys: Vec<String>, now: u64) -> (r: Result<()>)
        requires
            old(self).wf(),
        ensures
            final(self).wf(),
            final(self).versions() == old(self).versions(),
            final(self).kv() == old(self).kv(),
            !old(self).transactions().contains_key(client_id@) ==> {
                &&& r matches Err(SynapError::InvalidRequest(m)) && m@ == "No transaction in progress"@
                &&& final(self).transactions() == old(self).transactions()
            },
            old(self).transactions().contains_key(client_id@) ==> {
                let before = old(self).transactions()[client_id@];
                let after = final(self).transactions()[client_id@];
                &&& r is Ok
                &&& final(self).transactions() == old(self).transactions().insert(client_id@, after)
                &&& after.watched() == watched_after(before.watched(), watch_entries(keys@, old(self).versions(), now))
                &&& after.queued() == before.queued()
                &&& after.client() == before.client() && after.start_time() == before.start_time()
            },
    {
        let mut entries: Vec<(String, WatchedKeyVersion)> = Vec::new();
        let mut i: usize = 0;
        while i < keys.len()
            invariant
                self == old(self),
                self.wf(),
                i <= keys@.len(),
                entries@ == watch_entries(keys@.take(i as int), self.versions(), now),
            decreases keys@.len() - i,
        {
            let version: u64 = match self.key_versions.get(keys[i].as_str()) {
                Some(v) => v.version,
                None => 0,
            };
            entries.push((keys[i].clone(), WatchedKeyVersion { version, watched_at: now }));
            proof {
                assert(entries@ =~= watch_entries(keys@.take(i + 1), self.versions(), now));
            }
            i = i + 1;
        }
        proof {
            assert(keys@.take(keys@.len() as int) =~= keys@);
        }
        match self.transactions.remove(client_id) {
            None => {
                proof {
                    assert(self.transactions@ =~= old(self).transactions@);
                }
                Err(no_transaction())
            },
            Some(mut t) => {
                t.watch_keys(entries);
                let ghost after = t;
                self.transactions.insert(owned(client_id), t);
                proof {
                    assert(self.transactions@ =~= old(self).transactions@.insert(client_id@, after));
                }
                Ok(())
            },
        }
    }

    /// WATCH now.
    pub fn watch(&mut self, client_id: &str, keys: Vec<String>) -> (r: Result<()>)
        requires
            old(self).wf(),
        ensures
            final(self).wf(),
            final(self).versions() == old(self).versions(),
            final(self).kv() == old(self).kv(),
            !old(self).transactions().contains_key(client_id@) ==> {
                &&& r matches Err(SynapError::InvalidRequest(m)) && m@ == "No transaction in progress"@
                &&& final(self).transactions() == old(self).transactions()
            },
            old(self).transactions().contains_key(client_id@) ==> {
                let before = old(self).transactions()[client_id@];
                let after = final(self).transactions()[client_id@];
                &&& r is Ok
                &&& final(self).transactions() == old(self).transactions().insert(client_id@, after)
                &&& exists|now: u64| after.watched()
                    == #[trigger] watched_after(before.watched(), watch_entries(keys@, old(self).versions(), now))
                &&& after.queued() == before.queued()
                &&& after.client() == before.client() && after.start_time() == before.start_time()
            },
    {
        let now = unix_time_secs();
        self.watch_at(client_id, keys, now)
    }

    /// UNWATCH: the transaction of `client_id` forgets its watched keys.
    pub fn unwatch(&mut self, client_id: &str) -> (r: Result<()>)
        requires
            old(self).wf(),
        ensures
            final(self).wf(),
            final(self).versions() == old(self).versions(),
            final(self).kv() == old(self).kv(),
            !old(self).transactions().contains_key(client_id@) ==> {
                &&& r matches Err(SynapError::InvalidRequest(m)) && m@ == "No transaction in progress"@
                &&& final(self).transactions() == old(self).transactions()
            },
            old(self).transactions().contains_key(client_id@) ==> {
                let before = old(self).transactions()[client_id@];
                let after = final(self).transactions()[client_id@];
                &&& r is Ok
                &&& final(self).transactions() == old(self).transactions().insert(client_id@, after)
                &&& after.watched() == Map::<Seq<char>, WatchedKeyVersion>::empty()
                &&& after.queued() == before.queued()
                &&& after.client() == before.client() && after.start_time() == before.start_time()
            },
    {
        match self.transactions.remove(client_id) {
            None => {
                proof {
                    assert(self.transactions@ =~= old(self).transactions@);
                }
                Err(no_transaction())
            },
            Some(mut t) => {
                t.unwatch();
                let ghost after = t;
                self.transactions.insert(owned(client_id), t);
                proof {
                    assert(self.transactions@ =~= old(self).transactions@.insert(client_id@, after));
                }
                Ok(())
            },
        }
    }

    /// Queue `cmd` in the transaction of `client_id`.
    pub fn queue_command(&mut self, client_id: &str, cmd: TransactionCommand) -> (r: Result<()>)
        requires
            old(self).wf(),
        ensures
            final(self).wf(),
            final(self).versions() == old(self).versions(),
            final(self).kv() == old(self).kv(),
            !old(self).transactions().contains_key(client_id@) ==> {
                &&& r matches Err(SynapError::InvalidRequest(m)) && m@ == "No transaction in progress"@
                &&& final(self).transactions() == old(self).transactions()
            },
            old(self).transactions().contains_key(client_id@) ==> {
                let before = old(self).transactions()[client_id@];
                let after = final(self).transactions()[client_id@];
                &&& r is Ok
                &&& final(self).transactions() == old(self).transactions().insert(client_id@, after)
                &&& after.queued() == before.queued().push(cmd)
                &&& after.watched() == before.watched()
                &&& after.client() == before.client() && after.start_time() == before.start_time()
            },
    {
        match self.transactions.remove(client_id) {
            None => {
                proof {
                    assert(self.transactions@ =~= old(self).transactions@);
                }
                Err(no_transaction())
            },
            Some(mut t) => {
                t.queue_command(cmd);
                let ghost after = t;
                self.transactions.insert(owned(client_id), t);
                proof {
                    assert(self.transactions@ =~= old(self).transactions@.insert(client_id@, after));
                }
                Ok(())
            },
        }
    }

    /// The store the commands run on.
    pub fn kv_store(&self) -> (r: &KVStore)
        ensures
            *r == self.kv(),
    {
        &self.kv_store
    }

    /// A copy of the transaction of `client_id`, if one is in progress.
    pub fn get_transaction(&self, client_id: &str) -> (r: Option<Transaction>)
        requires
            self.wf(),
        ensures
            r is Some <==> self.transactions().contains_key(client_id@),
            r matches Some(t) ==> {
                let orig = self.transactions()[client_id@];
                &&& t.wf()
                &&& t.client() == orig.client() && t.start_time() == orig.start_time()
                &&& t.watched() == orig.watched()
                &&& same_commands(t.queued(), orig.queued())
            },
    {
        match self.transactions.get(client_id) {
            Some(t) => Some(t.duplicate()),
            None => None,
        }
    }
}


/// Writing one more key `k` on top of the keys `ks`.
proof fn lemma_bump_one(m: Map<Seq<char>, KeyVersion>, ks: Set<Seq<char>>, k: Seq<char>, now: u64)
    requires
        !ks.contains(k),
    ensures
        bumped(m, ks, now).insert(k, KeyVersion { version: next_version(version_of(bumped(m, ks, now), k)), modified_at: now })
            == bumped(m, ks.insert(k), now),
{
    assert(version_of(bumped(m, ks, now), k) == version_of(m, k));
    assert(bumped(m, ks, now).insert(k, KeyVersion { version: next_version(version_of(m, k)), modified_at: now })
        =~= bumped(m, ks.insert(k), now));
}

/// The texts of a prefix one longer.
proof fn lemma_texts_take(v: Seq<String>, j: int)
    requires
        0 <= j < v.len(),
    ensures
        texts(v.take(j + 1)) == texts(v.take(j)).insert(v[j]@),
{
    let f = |s: String| s@;
    assert(v.take(j + 1).map_values(f) =~= v.take(j).map_values(f).push(v[j]@));
    let a = v.take(j).map_values(f);
    assert(a.push(v[j]@).to_set() =~= a.to_set().insert(v[j]@)) by {
        assert forall|t: Seq<char>| a.push(v[j]@).to_set().contains(t) <==> a.to_set().insert(v[j]@).contains(t) by {
            if a.push(v[j]@).to_set().contains(t) {
                let w = choose|w: int| 0 <= w < a.len() + 1 && a.push(v[j]@)[w] == t;
                if w < a.len() {
                    assert(a[w] == t);
                }
            }
            if a.to_set().contains(t) {
                let w = choose|w: int| 0 <= w < a.len() && a[w] == t;
                assert(a.push(v[j]@)[w] == t);
            }
            if t == v[j]@ {
                assert(a.push(v[j]@)[a.len() as int] == t);
            }
        }
    }
}

/// A key of a strictly sorted list is not among the keys before it.
proof fn lemma_sorted_fresh(v: Seq<String>, j: int)
    requires
        strictly_sorted(v),
        0 <= j < v.len(),
    ensures
        !texts(v.take(j)).contains(v[j]@),
{
    let a = v.take(j).map_values(|s: String| s@);
    if a.to_set().contains(v[j]@) {
        let w = choose|w: int| 0 <= w < a.len() && a[w] == v[j]@;
        assert(v[w]@ == v[j]@);
        lemma_sorted_lt(v, w, j);
        lemma_text_lt_irreflexive(v[j]@);
    }
}

impl TransactionManager {
    /// What EXEC of `client` at `now` does: `after` is the manager after
    /// it and `r` its answer (see `exec_at`).
    pub open spec fn executed(self, after: Self, client: Seq<char>, now: u64, r: Result<Option<Vec<CommandResult>>>) -> bool {
        &&& after.transactions() == self.transactions().remove(client)
        &&& after.kv().settings() == self.kv().settings()
        &&& !self.transactions().contains_key(client) ==> {
                &&& r matches Err(SynapError::InvalidRequest(m)) && m@ == "No transaction in progress"@
                &&& after.versions() == self.versions()
                &&& after.kv().state() == self.kv().state()
            }
        &&& self.transactions().contains_key(client) ==> {
                let t = self.transactions()[client];
                let run = run_commands(self.kv().state(), self.kv().settings(), t.queued(), now);
                if watch_changed(t.watched(), self.versions()) {
                    &&& r matches Ok(None)
                    &&& after.versions() == self.versions()
                    &&& after.kv().state() == self.kv().state()
                } else if commands_keys(t.queued()) == Set::<Seq<char>>::empty() {
                    &&& r matches Ok(Some(v)) && v@.len() == 0
                    &&& after.versions() == self.versions()
                    &&& after.kv().state() == self.kv().state()
                } else {
                    &&& after.kv().state() == run.0
                    &&& match run.1 {
                        RunOutcome::Done(rs) => r matches Ok(Some(v)) && v@ == rs
                            && after.versions() == bumped(self.versions(), commands_keys(t.queued()), now),
                        RunOutcome::MemoryFull => r matches Err(SynapError::MemoryLimitExceeded)
                            && after.versions() == self.versions(),
                        RunOutcome::NotInteger => r matches Err(SynapError::InvalidValue(_))
                            && after.versions() == self.versions(),
                    }
                }
            }
    }

    /// Whether a key watched by `t` was written since it was watched.
    fn watch_broken(&self, t: &Transaction) -> (r: bool)
        requires
            self.wf(),
            t.wf(),
        ensures
            r == watch_changed(t.watched(), self.versions()),
    {
        let n = t.watched_keys.len();
        let mut i: usize = 0;
        proof {
            t.watched_keys.lemma_entries();
        }
        while i < n
            invariant
                self.wf(),
                t.wf(),
                n == t.watched_keys.entries().len(),
                i <= n,
                forall|j: int| 0 <= j < i ==> (#[trigger] t.watched_keys.entries()[j]).1.version
                    == version_of(self.versions(), t.watched_keys.entries()[j].0@),
            decreases n - i,
        {
            let (k, w) = t.watched_keys.entry_at(i);
            let cur: u64 = match self.key_versions.get(k.as_str()) {
                Some(v) => v.version,
                None => 0,
            };
            if cur != w.version {
                proof {
                    t.watched_keys.lemma_entries();
                    assert(t.watched_keys@.contains_key(k@));
                    assert(t.watched()[k@] == *w);
                }
                return true;
            }
            i = i + 1;
        }
        proof {
            t.watched_keys.lemma_entries();
            assert forall|k: Seq<char>| #[trigger] t.watched().contains_key(k) implies t.watched()[k].version
                == version_of(self.versions(), k) by {
                let j = choose|j: int| 0 <= j < t.watched_keys.entries().len() && t.watched_keys.entries()[j].0@ == k;
                assert(t.watched_keys.entries()[j].1.version == version_of(self.versions(), k));
            }
        }
        false
    }

    /// EXEC at `now`: end the transaction of `client_id` and, unless a
    /// watched key was written since it was watched (then the answer is
    /// `None`), run its commands in order, stopping at the first error.
    /// When all ran, each key they write gets its version bumped and
    /// stamped `now`; the answer holds one result per command. A
    /// transaction that writes no key runs nothing.
    pub fn exec_at(&mut self, client_id: &str, now: u64) -> (r: Result<Option<Vec<CommandResult>>>)
        requires
            old(self).wf(),
        ensures
            final(self).wf(),
            old(self).executed(*final(self), client_id@, now, r),
    {
        let t = match self.transactions.remove(client_id) {
            None => {
                proof {
                    assert(self.transactions@ =~= old(self).transactions@.remove(client_id@));
                }
                return Err(no_transaction());
            },
            Some(t) => t,
        };
        if self.watch_broken(&t) {
            return Ok(None);
        }
        let keys = t.get_keys_to_lock();
        if keys.len() == 0 {
            proof {
                assert(texts(keys@) =~= Set::<Seq<char>>::empty());
            }
            return Ok(Some(Vec::new()));
        }
        proof {
            let f = |s: String| s@;
            assert(keys@.map_values(f)[0] == keys@[0]@);
            assert(texts(keys@).contains(keys@[0]@));
        }
        let ghost s0 = self.kv_store.state();
        let ghost cfg = self.kv_store.settings();
        let ghost q = t.commands@;
        let ghost txs = self.transactions;
        let mut results: Vec<CommandResult> = Vec::new();
        let mut i: usize = 0;
        proof {
            assert(q.take(0) =~= Seq::<TransactionCommand>::empty());
        }
        while i < t.commands.len()
            invariant
                q == t.commands@,
                q == t.queued(),
                i <= q.len(),
                self.kv_store.wf(),
                self.kv_store.settings() == cfg,
                s0 == old(self).kv().state(),
                cfg == old(self).kv().settings(),
                self.transactions == txs,
                txs.wf(),
                txs@ == old(self).transactions@.remove(client_id@),
                forall|k: Seq<char>| #[trigger] txs@.contains_key(k) ==> txs@[k].wf(),
                self.key_versions == old(self).key_versions,
                self.key_versions.wf(),
                old(self).transactions@.contains_key(client_id@),
                t == old(self).transactions@[client_id@],
                !watch_changed(t.watched(), old(self).versions()),
                texts(keys@) == commands_keys(q),
                texts(keys@).contains(keys@[0]@),
                run_commands(s0, cfg, q.take(i as int), now) == (self.kv_store.state(), RunOutcome::Done(results@)),
            decreases q.len() - i,
        {
            proof {
                assert(q.take(i + 1).drop_last() =~= q.take(i as int));
                assert(q.take(i + 1).last() == q[i as int]);
            }
            let ghost rs0 = results@;
            match run_command(&mut self.kv_store, &t.commands[i], now) {
                Ok(v) => {
                    results.push(v);
                    proof {
                        assert(rs0 + seq![v] =~= results@);
                    }
                },
                Err(e) => {
                    proof {
                        lemma_run_stuck(s0, cfg, q, i + 1, now);
                    }
                    return Err(e);
                },
            }
            i = i + 1;
        }
        proof {
            assert(q.take(q.len() as int) =~= q);
        }
        let ghost v0 = self.key_versions@;
        let ghost kv_after = self.kv_store;
        let mut j: usize = 0;
        proof {
            assert(keys@.take(0) =~= Seq::<String>::empty());
            assert(texts(keys@.take(0)) =~= Set::<Seq<char>>::empty());
            assert(bumped(v0, Set::<Seq<char>>::empty(), now) =~= v0);
        }
        while j < keys.len()
            invariant
                j <= keys@.len(),
                strictly_sorted(keys@),
                self.key_versions.wf(),
                self.key_versions@ == bumped(v0, texts(keys@.take(j as int)), now),
                self.transactions == txs,
                txs.wf(),
                txs@ == old(self).transactions@.remove(client_id@),
                forall|k: Seq<char>| #[trigger] txs@.contains_key(k) ==> txs@[k].wf(),
                self.kv_store == kv_after,
                kv_after.wf(),
            decreases keys@.len() - j,
        {
            let cur: u64 = match self.key_versions.get(keys[j].as_str()) {
                Some(v) => v.version,
                None => 0,
            };
            let next: u64 = if cur == u64::MAX { 0 } else { cur + 1 };
            proof {
                lemma_sorted_fresh(keys@, j as int);
                lemma_texts_take(keys@, j as int);
                lemma_bump_one(v0, texts(keys@.take(j as int)), keys@[j as int]@, now);
            }
            self.key_versions.insert(keys[j].clone(), KeyVersion { version: next, modified_at: now });
            j = j + 1;
        }
        proof {
            assert(keys@.take(keys@.len() as int) =~= keys@);
        }
        Ok(Some(results))
    }

    /// EXEC now (see `exec_at`).
    pub fn exec(&mut self, client_id: &str) -> (r: Result<Option<Vec<CommandResult>>>)
        requires
            old(self).wf(),
        ensures
            final(self).wf(),
            exists|now: u64| #[trigger] old(self).executed(*final(self), client_id@, now, r),
    {
        let now = unix_time_secs();
        self.exec_at(client_id, now)
    }
}


/// Watching keys records their current versions: a transaction whose
/// watched keys were current still finds them current after WATCH.
pub proof fn lemma_watch_current(w: Map<Seq<char>, WatchedKeyVersion>, keys: Seq<String>, m: Map<Seq<char>, KeyVersion>, now: u64)
    requires
        !watch_changed(w, m),
    ensures
        !watch_changed(watched_after(w, watch_entries(keys, m, now)), m),
    decreases keys.len(),
{
    if keys.len() > 0 {
        let e = watch_entries(keys, m, now);
        assert(e.drop_last() =~= watch_entries(keys.drop_last(), m, now));
        lemma_watch_current(w, keys.drop_last(), m, now);
        let w1 = watched_after(w, e.drop_last());
        let w2 = watched_after(w, e);
        assert(w2 == w1.insert(e.last().0@, e.last().1));
        assert forall|k: Seq<char>| #[trigger] w2.contains_key(k) implies w2[k].version == version_of(m, k) by {
            if k != e.last().0@ {
                assert(w1.contains_key(k));
                if w1[k].version != version_of(m, k) {
                    assert(watch_changed(w1, m));
                }
            }
        }
    }
}

/// A key written by a successful EXEC gets a new version, so every
/// transaction that watched it at its old version aborts.
pub proof fn lemma_write_breaks_watch(w: Map<Seq<char>, WatchedKeyVersion>, m: Map<Seq<char>, KeyVersion>, ks: Set<Seq<char>>, k: Seq<char>, now: u64)
    requires
        w.contains_key(k),
        w[k].version == version_of(m, k),
        ks.contains(k),
    ensures
        watch_changed(w, bumped(m, ks, now)),
{
    assert(version_of(bumped(m, ks, now), k) == next_version(version_of(m, k)));
    assert(w.contains_key(k) && w[k].version != version_of(bumped(m, ks, now), k));
}

} // verus!
