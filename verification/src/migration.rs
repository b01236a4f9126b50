//! Slot migration between cluster nodes: the table of migrations by slot,
//! the commands handed to the migration worker, and what the worker does
//! with each command.
//!
//! The worker itself is a loop outside the library: it takes the next
//! command (`next_command`) and hands it back with what it needs
//! (`handle_command`).

use vstd::prelude::*;
use crate::cluster::{ClusterError, MigrationState, SlotMigration};
use crate::kv_model::{KVState, mget_state, mget_answer};
use crate::kv_store::{KVStore, keys_view};
use crate::text::owned;

verus! {

/// A command for the migration worker.
#[derive(Debug)]
pub enum MigrationCommand {
    Start { slot: u16, from_node: String, to_node: String },
    Cancel { slot: u16 },
    Complete { slot: u16 },
}

/// The slot a command is about.
pub open spec fn command_slot(c: MigrationCommand) -> u16 {
    match c {
        MigrationCommand::Start { slot, .. } => slot,
        MigrationCommand::Cancel { slot } => slot,
        MigrationCommand::Complete { slot } => slot,
    }
}

/// Whether some migration is for `slot`.
pub open spec fn has_slot(s: Seq<SlotMigration>, slot: u16) -> bool {
    exists|i: int| 0 <= i < s.len() && (#[trigger] s[i]).slot == slot
}

/// The position of the migration for `slot` (meaningful when `has_slot`).
pub open spec fn slot_pos(s: Seq<SlotMigration>, slot: u16) -> int {
    choose|i: int| 0 <= i < s.len() && (#[trigger] s[i]).slot == slot
}

/// Whether no slot has two migrations.
pub open spec fn slots_distinct(s: Seq<SlotMigration>) -> bool {
    forall|i: int, j: int| 0 <= i < s.len() && 0 <= j < s.len() && i != j ==> (#[trigger] s[i]).slot != (#[trigger] s[j]).slot
}

/// How many answers hold a value.
pub open spec fn count_found(a: Seq<Option<Seq<u8>>>) -> nat
    decreases a.len(),
{
    if a.len() == 0 {
        0
    } else {
        count_found(a.drop_last()) + if a.last() is Some { 1nat } else { 0nat }
    }
}

/// The migrations, by slot, and the queue of commands for the worker.
#[derive(Debug)]
pub struct SlotMigrationManager {
    migrations: Vec<SlotMigration>,
    batch_size: usize,
    timeout_secs: u64,
    commands: Vec<MigrationCommand>,
}

impl SlotMigrationManager {
    /// The migrations, in the order they were started.
    pub closed spec fn table(&self) -> Seq<SlotMigration> {
        self.migrations@
    }

    /// The commands waiting for the worker, oldest first.
    pub closed spec fn queue(&self) -> Seq<MigrationCommand> {
        self.commands@
    }

    /// The batch size and the timeout (seconds) the manager was made with.
    pub closed spec fn limits(&self) -> (usize, u64) {
        (self.batch_size, self.timeout_secs)
    }

    /// The invariant: no slot twice.
    pub open spec fn wf(&self) -> bool {
        slots_distinct(self.table())
    }

    /// A manager with no migration.
    pub fn new(batch_size: usize, timeout_secs: u64) -> (r: Self)
        ensures
            r.wf(),
            r.table().len() == 0,
            r.queue().len() == 0,
            r.limits() == (batch_size, timeout_secs),
    {
        SlotMigrationManager { migrations: Vec::new(), batch_size, timeout_secs, commands: Vec::new() }
    }

    fn find(&self, slot: u16) -> (r: Option<usize>)
        requires
            self.wf(),
        ensures
            match r {
                Some(i) => i < self.table().len() && has_slot(self.table(), slot) && i == slot_pos(self.table(), slot)
                    && self.table()[i as int].slot == slot,
                None => !has_slot(self.table(), slot),
            },
    {
        let mut i: usize = 0;
        while i < self.migrations.len()
            invariant
                self.wf(),
                i <= self.migrations@.len(),
                forall|j: int| 0 <= j < i ==> (#[trigger] self.migrations@[j]).slot != slot,
            decreases self.migrations@.len() - i,
        {
            if self.migrations[i].slot == slot {
                proof {
                    let s = self.table();
                    assert(s[i as int].slot == slot);
                    let w = slot_pos(s, slot);
                    assert(s[w].slot == slot);
                }
                return Some(i);
            }
            i = i + 1;
        }
        None
    }

    /// Start migrating `slot` from `from_node` to `to_node` at time `now`:
    /// refused while the slot has a migration.
    pub fn start_migration_at(&mut self, slot: u16, from_node: String, to_node: String, now: u64) -> (r: Result<(), ClusterError>)
        requires
            old(self).wf(),
        ensures
            final(self).wf(),
            final(self).limits() == old(self).limits(),
            has_slot(old(self).table(), slot) ==> (r matches Err(ClusterError::SlotMigrating(s)) && s == slot)
                && final(self).table() == old(self).table() && final(self).queue() == old(self).queue(),
            !has_slot(old(self).table(), slot) ==> r is Ok
                && final(self).table() == old(self).table().push(SlotMigration {
                    slot,
                    from_node,
                    to_node,
                    state: MigrationState::Pending,
                    keys_migrated: 0,
                    total_keys: 0,
                    started_at: now,
                    completed_at: None,
                })
                && final(self).queue() == old(self).queue().push(MigrationCommand::Start { slot, from_node, to_node }),
    {
        if self.find(slot).is_some() {
            return Err(ClusterError::SlotMigrating(slot));
        }
        let ghost s0 = self.table();
        let m = SlotMigration {
            slot,
            from_node: from_node.clone(),
            to_node: to_node.clone(),
            state: MigrationState::Pending,
            keys_migrated: 0,
            total_keys: 0,
            started_at: now,
            completed_at: None,
        };
        self.migrations.push(m);
        self.commands.push(MigrationCommand::Start { slot, from_node, to_node });
        proof {
            let t = self.table();
            assert forall|a: int, b: int| 0 <= a < t.len() && 0 <= b < t.len() && a != b
                implies (#[trigger] t[a]).slot != (#[trigger] t[b]).slot by {
                if a == s0.len() {
                    assert(t[b] == s0[b]);
                } else if b == s0.len() {
                    assert(t[a] == s0[a]);
                } else {
                    assert(t[a] == s0[a] && t[b] == s0[b]);
                }
            }
        }
        Ok(())
    }

    /// Start a migration now.
    pub fn start_migration(&mut self, slot: u16, from_node: String, to_node: String) -> (r: Result<(), ClusterError>)
        requires
            old(self).wf(),
        ensures
            final(self).wf(),
            has_slot(old(self).table(), slot) <==> r is Err,
            final(self).limits() == old(self).limits(),
            has_slot(old(self).table(), slot) ==> (r matches Err(ClusterError::SlotMigrating(s)) && s == slot)
                && final(self).table() == old(self).table() && final(self).queue() == old(self).queue(),
            !has_slot(old(self).table(), slot) ==> r is Ok
                && final(self).table() == old(self).table().push(SlotMigration {
                    slot,
                    from_node,
                    to_node,
                    state: MigrationState::Pending,
                    keys_migrated: 0,
                    total_keys: 0,
                    started_at: final(self).table().last().started_at,
                    completed_at: None,
                })
                && final(self).queue() == old(self).queue().push(MigrationCommand::Start { slot, from_node, to_node }),
    {
        let now = crate::clock::unix_time_secs();
        self.start_migration_at(slot, from_node, to_node, now)
    }

    /// Set the state of the migration at `i`, and its completion time.
    fn set_state(&mut self, i: usize, state: MigrationState, completed_at: Option<u64>)
        requires
            old(self).wf(),
            i < old(self).table().len(),
        ensures
            final(self).wf(),
            final(self).limits() == old(self).limits(),
            final(self).queue() == old(self).queue(),
            final(self).table() == old(self).table().update(i as int,
                SlotMigration { state, completed_at, ..old(self).table()[i as int] }),
    {
        let ghost s0 = self.table();
        let mut m = SlotMigration {
            slot: 0,
            from_node: String::new(),
            to_node: String::new(),
            state: MigrationState::Pending,
            keys_migrated: 0,
            total_keys: 0,
            started_at: 0,
            completed_at: None,
        };
        self.migrations.set_and_swap(i, &mut m);
        m.state = state;
        m.completed_at = completed_at;
        self.migrations.set(i, m);
        proof {
            let t = self.table();
            assert(t =~= s0.update(i as int, SlotMigration { state, completed_at, ..s0[i as int] }));
            assert forall|a: int, b: int| 0 <= a < t.len() && 0 <= b < t.len() && a != b
                implies (#[trigger] t[a]).slot != (#[trigger] t[b]).slot by {
                assert(t[a].slot == s0[a].slot && t[b].slot == s0[b].slot);
            }
        }
    }

    /// Cancel the migration of `slot`: it is marked failed, unless it has
    /// completed.
    pub fn cancel_migration(&mut self, slot: u16) -> (r: Result<(), ClusterError>)
        requires
            old(self).wf(),
        ensures
            final(self).wf(),
            final(self).limits() == old(self).limits(),
            !has_slot(old(self).table(), slot) ==> (r matches Err(ClusterError::SlotNotAssigned(s)) && s == slot)
                && final(self).table() == old(self).table() && final(self).queue() == old(self).queue(),
            has_slot(old(self).table(), slot) ==> {
                let i = slot_pos(old(self).table(), slot);
                let m = old(self).table()[i];
                if m.state == MigrationState::Complete {
                    &&& r matches Err(ClusterError::MigrationError(e))
                    &&& final(self).table() == old(self).table()
                    &&& final(self).queue() == old(self).queue()
                } else {
                    &&& r is Ok
                    &&& final(self).table() == old(self).table().update(i, SlotMigration { state: MigrationState::Failed, ..m })
                    &&& final(self).queue() == old(self).queue().push(MigrationCommand::Cancel { slot })
                }
            },
    {
        match self.find(slot) {
            Some(i) => {
                if self.migrations[i].state == MigrationState::Complete {
                    return Err(ClusterError::MigrationError(owned("Cannot cancel completed migration")));
                }
                let done = self.migrations[i].completed_at;
                self.set_state(i, MigrationState::Failed, done);
                self.commands.push(MigrationCommand::Cancel { slot });
                Ok(())
            },
            None => Err(ClusterError::SlotNotAssigned(slot)),
        }
    }

    /// Complete the migration of `slot` at time `now`.
    pub fn complete_migration_at(&mut self, slot: u16, now: u64) -> (r: Result<(), ClusterError>)
        requires
            old(self).wf(),
        ensures
            final(self).wf(),
            final(self).limits() == old(self).limits(),
            !has_slot(old(self).table(), slot) ==> (r matches Err(ClusterError::SlotNotAssigned(s)) && s == slot)
                && final(self).table() == old(self).table() && final(self).queue() == old(self).queue(),
            has_slot(old(self).table(), slot) ==> {
                let i = slot_pos(old(self).table(), slot);
                &&& r is Ok
                &&& final(self).table() == old(self).table().update(i,
                    SlotMigration { state: MigrationState::Complete, completed_at: Some(now), ..old(self).table()[i] })
                &&& final(self).queue() == old(self).queue().push(MigrationCommand::Complete { slot })
            },
    {
        match self.find(slot) {
            Some(i) => {
                self.set_state(i, MigrationState::Complete, Some(now));
                self.commands.push(MigrationCommand::Complete { slot });
                Ok(())
            },
            None => Err(ClusterError::SlotNotAssigned(slot)),
        }
    }

    /// Complete a migration now.
    pub fn complete_migration(&mut self, slot: u16) -> (r: Result<(), ClusterError>)
        requires
            old(self).wf(),
        ensures
            final(self).wf(),
            has_slot(old(self).table(), slot) <==> r is Ok,
            final(self).limits() == old(self).limits(),
            !has_slot(old(self).table(), slot) ==> (r matches Err(ClusterError::SlotNotAssigned(s)) && s == slot)
                && final(self).table() == old(self).table() && final(self).queue() == old(self).queue(),
            has_slot(old(self).table(), slot) ==> {
                let i = slot_pos(old(self).table(), slot);
                &&& final(self).table()[i].completed_at is Some
                &&& final(self).table() == old(self).table().update(i, SlotMigration {
                    state: MigrationState::Complete,
                    completed_at: final(self).table()[i].completed_at,
                    ..old(self).table()[i]
                })
                &&& final(self).queue() == old(self).queue().push(MigrationCommand::Complete { slot })
            },
    {
        let now = crate::clock::unix_time_secs();
        self.complete_migration_at(slot, now)
    }

    /// The migration of `slot`, if any.
    pub fn get_migration(&self, slot: u16) -> (r: Option<SlotMigration>)
        requires
            self.wf(),
        ensures
            has_slot(self.table(), slot) ==> r == Some(self.table()[slot_pos(self.table(), slot)]),
            !has_slot(self.table(), slot) ==> r is None,
    {
        match self.find(slot) {
            Some(i) => {
                let m = &self.migrations[i];
                Some(SlotMigration {
                    slot: m.slot,
                    from_node: m.from_node.clone(),
                    to_node: m.to_node.clone(),
                    state: m.state,
                    keys_migrated: m.keys_migrated,
                    total_keys: m.total_keys,
                    started_at: m.started_at,
                    completed_at: m.completed_at,
                })
            },
            None => None,
        }
    }

    /// Whether `slot` has a migration in progress.
    pub fn is_migrating(&self, slot: u16) -> (r: bool)
        requires
            self.wf(),
        ensures
            r == (has_slot(self.table(), slot)
                && self.table()[slot_pos(self.table(), slot)].state == MigrationState::InProgress),
    {
        match self.find(slot) {
            Some(i) => self.migrations[i].state == MigrationState::InProgress,
            None => false,
        }
    }

    /// Take the oldest command for the worker.
    pub fn next_command(&mut self) -> (r: Option<MigrationCommand>)
        requires
            old(self).wf(),
        ensures
            final(self).wf(),
            final(self).table() == old(self).table(),
            final(self).limits() == old(self).limits(),
            old(self).queue().len() == 0 ==> r is None && final(self).queue() == old(self).queue(),
            old(self).queue().len() > 0 ==> r == Some(old(self).queue()[0]) && final(self).queue() == old(self).queue().skip(1),
    {
        if self.commands.len() == 0 {
            return None;
        }
        let c = self.commands.remove(0);
        proof {
            assert(self.queue() =~= old(self).queue().skip(1));
        }
        Some(c)
    }

    /// What the worker does with `cmd` at time `now`. START marks the
    /// migration in progress and moves its keys: `slot_keys`, the keys of
    /// the store that belong to the slot, are read from `kv` one by one,
    /// and those found are counted as migrated. CANCEL marks the migration
    /// failed; COMPLETE marks it complete. A command for a slot without a
    /// migration does nothing.
    pub fn handle_command(&mut self, cmd: MigrationCommand, kv: &mut KVStore, slot_keys: &[String], now: u64)
        requires
            old(self).wf(),
            old(kv).wf(),
        ensures
            final(self).wf(),
            final(kv).wf(),
            final(self).queue() == old(self).queue(),
            final(self).limits() == old(self).limits(),
            !has_slot(old(self).table(), command_slot(cmd)) ==> final(self).table() == old(self).table()
                && final(kv).state() == old(kv).state(),
            has_slot(old(self).table(), command_slot(cmd)) ==> {
                let i = slot_pos(old(self).table(), command_slot(cmd));
                let m = old(self).table()[i];
                match cmd {
                    MigrationCommand::Start { .. } => {
                        &&& final(kv).state() == mget_state(old(kv).state(), keys_view(slot_keys@), now)
                        &&& final(self).table() == old(self).table().update(i, SlotMigration {
                            state: MigrationState::InProgress,
                            total_keys: slot_keys@.len() as usize,
                            keys_migrated: count_found(mget_answer(old(kv).state(), keys_view(slot_keys@), now)) as usize,
                            ..m
                        })
                    },
                    MigrationCommand::Cancel { .. } => {
                        &&& final(kv).state() == old(kv).state()
                        &&& final(self).table() == old(self).table().update(i, SlotMigration { state: MigrationState::Failed, ..m })
                    },
                    MigrationCommand::Complete { .. } => {
                        &&& final(kv).state() == old(kv).state()
                        &&& final(self).table() == old(self).table().update(i,
                            SlotMigration { state: MigrationState::Complete, completed_at: Some(now), ..m })
                    },
                }
            },
    {
        let slot = match &cmd {
            MigrationCommand::Start { slot, .. } => *slot,
            MigrationCommand::Cancel { slot } => *slot,
            MigrationCommand::Complete { slot } => *slot,
        };
        let i = match self.find(slot) {
            Some(i) => i,
            None => {
                return;
            },
        };
        match cmd {
            MigrationCommand::Start { .. } => {
                let done = self.migrations[i].completed_at;
                self.set_state(i, MigrationState::InProgress, done);
                let found = match kv.mget_at(slot_keys, now) {
                    Ok(values) => count_values(&values),
                    Err(_) => 0,
                };
                let ghost s1 = self.table();
                let mut m = SlotMigration {
                    slot: 0,
                    from_node: String::new(),
                    to_node: String::new(),
                    state: MigrationState::Pending,
                    keys_migrated: 0,
                    total_keys: 0,
                    started_at: 0,
                    completed_at: None,
                };
                self.migrations.set_and_swap(i, &mut m);
                m.total_keys = slot_keys.len();
                m.keys_migrated = found;
                self.migrations.set(i, m);
                proof {
                    let t = self.table();
                    assert forall|a: int, b: int| 0 <= a < t.len() && 0 <= b < t.len() && a != b
                        implies (#[trigger] t[a]).slot != (#[trigger] t[b]).slot by {
                        assert(t[a].slot == s1[a].slot && t[b].slot == s1[b].slot);
                    }
                }
            },
            MigrationCommand::Cancel { .. } => {
                let done = self.migrations[i].completed_at;
                self.set_state(i, MigrationState::Failed, done);
            },
            MigrationCommand::Complete { .. } => {
                self.set_state(i, MigrationState::Complete, Some(now));
            },
        }
    }
}

/// How many of `values` hold a value.
fn count_values(values: &Vec<Option<Vec<u8>>>) -> (n: usize)
    ensures
        n == count_found(crate::kv_store::answers_view(values@)),
{
    let ghost a = crate::kv_store::answers_view(values@);
    let mut n: usize = 0;
    let mut i: usize = 0;
    proof {
        assert(a.take(0) =~= Seq::<Option<Seq<u8>>>::empty());
    }
    while i < values.len()
        invariant
            a == crate::kv_store::answers_view(values@),
            i <= values@.len(),
            n <= i,
            n == count_found(a.take(i as int)),
        decreases values@.len() - i,
    {
        proof {
            assert(a.take(i + 1).drop_last() =~= a.take(i as int));
            assert(a.take(i + 1).last() == a[i as int]);
        }
        if values[i].is_some() {
            n = n + 1;
        }
        i = i + 1;
    }
    proof {
        assert(a.take(values@.len() as int) =~= a);
    }
    n
}

} // verus!
