//! Failover bookkeeping: which failed masters are being replaced by which
//! replica, when that started and ended, and which nodes have stopped
//! answering pings. The commands it issues are handed to the worker that
//! carries them out.
//!
//! Times are Unix seconds.

use vstd::prelude::*;
use crate::clock::unix_time_secs;
use crate::cluster::{ClusterError, ClusterNode, ClusterState};
use crate::keyed::Keyed;

verus! {

/// A failover under way or done.
#[derive(Debug)]
pub struct FailoverInfo {
    pub failed_node_id: String,
    pub promoting_replica_id: String,
    pub started_at: u64,
    pub completed_at: Option<u64>,
}

/// What the failover worker is asked to do.
#[derive(Debug)]
pub enum FailoverCommand {
    DetectFailure { node_id: String },
    PromoteReplica { failed_node_id: String, replica_id: String },
    CompleteFailover { failed_node_id: String },
}

/// Whether node `n` counts as failed at `now`: its last ping is more than
/// `timeout` seconds old, and it is not offline.
pub open spec fn node_failed(n: ClusterNode, now: u64, timeout: u64) -> bool {
    (if now >= n.last_ping { now - n.last_ping } else { 0 }) > timeout && n.state != ClusterState::Offline
}

/// The identifiers of the failed nodes of `nodes`, in order.
pub open spec fn failed_ids(nodes: Seq<(String, ClusterNode)>, now: u64, timeout: u64) -> Seq<Seq<char>>
    decreases nodes.len(),
{
    if nodes.len() == 0 {
        Seq::empty()
    } else {
        let r = failed_ids(nodes.drop_last(), now, timeout);
        if node_failed(nodes.last().1, now, timeout) { r.push(nodes.last().0@) } else { r }
    }
}

/// The failovers by failed node, and the commands for the worker.
#[derive(Debug)]
pub struct ClusterFailover {
    node_timeout_secs: u64,
    failovers: Keyed<FailoverInfo>,
    commands: Vec<FailoverCommand>,
}

impl ClusterFailover {
    /// The failovers by failed node.
    pub closed spec fn failovers(&self) -> Map<Seq<char>, FailoverInfo> {
        self.failovers@
    }

    /// The commands not yet taken by the worker, oldest first.
    pub closed spec fn pending(&self) -> Seq<FailoverCommand> {
        self.commands@
    }

    /// How long a node may go without a ping.
    pub closed spec fn timeout(&self) -> u64 {
        self.node_timeout_secs
    }

    /// The invariant: one failover per node.
    pub closed spec fn wf(&self) -> bool {
        self.failovers.wf()
    }

    /// No failovers; nodes time out after `node_timeout_secs`.
    pub fn new(node_timeout_secs: u64) -> (r: Self)
        ensures
            r.wf(),
            r.failovers() == Map::<Seq<char>, FailoverInfo>::empty(),
            r.pending().len() == 0,
            r.timeout() == node_timeout_secs,
    {
        ClusterFailover { node_timeout_secs, failovers: Keyed::new(), commands: Vec::new() }
    }

    /// Report that `node_id` seems to have failed.
    pub fn detect_failure(&mut self, node_id: &str) -> (r: Result<(), ClusterError>)
        requires
            old(self).wf(),
        ensures
            final(self).wf(),
            r is Ok,
            final(self).failovers() == old(self).failovers(),
            final(self).timeout() == old(self).timeout(),
            final(self).pending().len() == old(self).pending().len() + 1,
            final(self).pending().drop_last() == old(self).pending(),
            final(self).pending().last() matches FailoverCommand::DetectFailure { node_id: n } && n@ == node_id@,
    {
        self.commands.push(FailoverCommand::DetectFailure { node_id: node_id.to_string() });
        proof {
            assert(self.commands@.drop_last() =~= old(self).commands@);
        }
        Ok(())
    }

    /// Start replacing `failed_node_id` by `replica_id` at `now`.
    pub fn promote_replica_at(&mut self, failed_node_id: &str, replica_id: &str, now: u64) -> (r: Result<(), ClusterError>)
        requires
            old(self).wf(),
        ensures
            final(self).wf(),
            r is Ok,
            final(self).timeout() == old(self).timeout(),
            final(self).failovers().contains_key(failed_node_id@),
            final(self).failovers().remove(failed_node_id@) == old(self).failovers().remove(failed_node_id@),
            ({
                let f = final(self).failovers()[failed_node_id@];
                f.failed_node_id@ == failed_node_id@ && f.promoting_replica_id@ == replica_id@
                    && f.started_at == now && f.completed_at is None
            }),
            final(self).pending().drop_last() == old(self).pending(),
            final(self).pending().len() == old(self).pending().len() + 1,
            final(self).pending().last() matches FailoverCommand::PromoteReplica { failed_node_id: a, replica_id: b }
                && a@ == failed_node_id@ && b@ == replica_id@,
    {
        let info = FailoverInfo {
            failed_node_id: failed_node_id.to_string(),
            promoting_replica_id: replica_id.to_string(),
            started_at: now,
            completed_at: None,
        };
        self.failovers.insert(failed_node_id.to_string(), info);
        proof {
            assert(self.failovers@.remove(failed_node_id@) =~= old(self).failovers@.remove(failed_node_id@));
        }
        self.commands.push(FailoverCommand::PromoteReplica {
            failed_node_id: failed_node_id.to_string(),
            replica_id: replica_id.to_string(),
        });
        proof {
            assert(self.commands@.drop_last() =~= old(self).commands@);
        }
        Ok(())
    }

    /// Start replacing `failed_node_id` by `replica_id` now.
    pub fn promote_replica(&mut self, failed_node_id: &str, replica_id: &str) -> (r: Result<(), ClusterError>)
        requires
            old(self).wf(),
        ensures
            final(self).wf(),
            r is Ok,
            final(self).failovers().contains_key(failed_node_id@),
            final(self).failovers()[failed_node_id@].promoting_replica_id@ == replica_id@,
            final(self).failovers()[failed_node_id@].completed_at is None,
            final(self).failovers()[failed_node_id@].failed_node_id@ == failed_node_id@,
            final(self).timeout() == old(self).timeout(),
            final(self).failovers().remove(failed_node_id@) == old(self).failovers().remove(failed_node_id@),
            final(self).pending().drop_last() == old(self).pending(),
            final(self).pending().len() == old(self).pending().len() + 1,
            final(self).pending().last() matches FailoverCommand::PromoteReplica { failed_node_id: a, replica_id: b }
                && a@ == failed_node_id@ && b@ == replica_id@,
    {
        self.promote_replica_at(failed_node_id, replica_id, unix_time_secs())
    }

    /// Mark the failover of `failed_node_id` done at `now`; there must be one.
    pub fn complete_failover_at(&mut self, failed_node_id: &str, now: u64) -> (r: Result<(), ClusterError>)
        requires
            old(self).wf(),
        ensures
            final(self).wf(),
            final(self).timeout() == old(self).timeout(),
            !old(self).failovers().contains_key(failed_node_id@) ==> {
                &&& r matches Err(ClusterError::NodeNotFound(n)) && n@ == failed_node_id@
                &&& final(self).failovers() == old(self).failovers()
                &&& final(self).pending() == old(self).pending()
            },
            old(self).failovers().contains_key(failed_node_id@) ==> {
                let f = old(self).failovers()[failed_node_id@];
                &&& r is Ok
                &&& final(self).failovers().contains_key(failed_node_id@)
                &&& final(self).failovers().remove(failed_node_id@) == old(self).failovers().remove(failed_node_id@)
                &&& final(self).failovers()[failed_node_id@] == (FailoverInfo { completed_at: Some(now), ..f })
                &&& final(self).pending().drop_last() == old(self).pending()
                &&& final(self).pending().len() == old(self).pending().len() + 1
                &&& final(self).pending().last() matches FailoverCommand::CompleteFailover { failed_node_id: a }
                    && a@ == failed_node_id@
            },
    {
        proof {
            self.failovers.lemma_view();
        }
        match self.failovers.index_of(failed_node_id) {
            None => Err(ClusterError::NodeNotFound(failed_node_id.to_string())),
            Some(i) => {
                let blank = FailoverInfo {
                    failed_node_id: String::new(),
                    promoting_replica_id: String::new(),
                    started_at: 0,
                    completed_at: None,
                };
                let ghost before = self.failovers@;
                let mut f = self.failovers.replace_at(i, blank);
                f.completed_at = Some(now);
                let _blank = self.failovers.replace_at(i, f);
                proof {
                    assert(self.failovers@.remove(failed_node_id@) =~= before.remove(failed_node_id@));
                }
                self.commands.push(FailoverCommand::CompleteFailover { failed_node_id: failed_node_id.to_string() });
                proof {
                    assert(self.commands@.drop_last() =~= old(self).commands@);
                }
                Ok(())
            },
        }
    }

    /// Mark the failover of `failed_node_id` done now.
    pub fn complete_failover(&mut self, failed_node_id: &str) -> (r: Result<(), ClusterError>)
        requires
            old(self).wf(),
        ensures
            final(self).wf(),
            r is Ok <==> old(self).failovers().contains_key(failed_node_id@),
            final(self).timeout() == old(self).timeout(),
            !old(self).failovers().contains_key(failed_node_id@) ==> {
                &&& r matches Err(ClusterError::NodeNotFound(n)) && n@ == failed_node_id@
                &&& final(self).failovers() == old(self).failovers()
                &&& final(self).pending() == old(self).pending()
            },
            old(self).failovers().contains_key(failed_node_id@) ==> {
                let f = old(self).failovers()[failed_node_id@];
                &&& final(self).failovers().contains_key(failed_node_id@)
                &&& final(self).failovers().remove(failed_node_id@) == old(self).failovers().remove(failed_node_id@)
                &&& final(self).failovers()[failed_node_id@] == (FailoverInfo {
                    completed_at: final(self).failovers()[failed_node_id@].completed_at,
                    ..f
                })
                &&& final(self).failovers()[failed_node_id@].completed_at is Some
                &&& final(self).pending().drop_last() == old(self).pending()
                &&& final(self).pending().len() == old(self).pending().len() + 1
                &&& final(self).pending().last() matches FailoverCommand::CompleteFailover { failed_node_id: a }
                    && a@ == failed_node_id@
            },
    {
        self.complete_failover_at(failed_node_id, unix_time_secs())
    }

    /// Whether `node_id` has a failover.
    pub fn is_failing_over(&self, node_id: &str) -> (r: bool)
        requires
            self.wf(),
        ensures
            r == self.failovers().contains_key(node_id@),
    {
        self.failovers.get(node_id).is_some()
    }

    /// The failover recorded for `node_id`: its start and its end.
    pub fn failover_times(&self, node_id: &str) -> (r: Option<(u64, Option<u64>)>)
        requires
            self.wf(),
        ensures
            match r {
                Some((s, c)) => self.failovers().contains_key(node_id@)
                    && s == self.failovers()[node_id@].started_at && c == self.failovers()[node_id@].completed_at,
                None => !self.failovers().contains_key(node_id@),
            },
    {
        match self.failovers.get(node_id) {
            Some(f) => Some((f.started_at, f.completed_at)),
            None => None,
        }
    }

    /// Take the oldest command for the worker.
    pub fn next_command(&mut self) -> (r: Option<FailoverCommand>)
        requires
            old(self).wf(),
        ensures
            final(self).wf(),
            final(self).failovers() == old(self).failovers(),
            final(self).timeout() == old(self).timeout(),
            old(self).pending().len() == 0 ==> r is None && final(self).pending() == old(self).pending(),
            old(self).pending().len() > 0 ==> r == Some(old(self).pending()[0])
                && final(self).pending() == old(self).pending().drop_first(),
    {
        if self.commands.len() == 0 {
            None
        } else {
            let c = self.commands.remove(0);
            proof {
                assert(self.commands@ =~= old(self).commands@.drop_first());
            }
            Some(c)
        }
    }

    /// The nodes of `nodes` that have failed at `now` (see `node_failed`), in order.
    pub fn check_nodes_at(&self, nodes: &Vec<(String, ClusterNode)>, now: u64) -> (r: Vec<String>)
        ensures
            r@.map_values(|s: String| s@) == failed_ids(nodes@, now, self.timeout()),
    {
        let mut out: Vec<String> = Vec::new();
        let mut i: usize = 0;
        while i < nodes.len()
            invariant
                i <= nodes@.len(),
                out@.map_values(|s: String| s@) == failed_ids(nodes@.take(i as int), now, self.timeout()),
            decreases nodes@.len() - i,
        {
            let (id, n) = &nodes[i];
            proof {
                assert(nodes@.take(i + 1).drop_last() =~= nodes@.take(i as int));
            }
            let silent = if now >= n.last_ping { now - n.last_ping } else { 0 };
            let offline = match n.state {
                ClusterState::Offline => true,
                _ => false,
            };
            if silent > self.node_timeout_secs && !offline {
                out.push(id.clone());
            }
            i = i + 1;
            proof {
                assert(out@.map_values(|s: String| s@) =~= failed_ids(nodes@.take(i as int), now, self.timeout()));
            }
        }
        proof {
            assert(nodes@.take(nodes@.len() as int) =~= nodes@);
        }
        out
    }

    /// The nodes of `nodes` that have failed now.
    pub fn check_nodes(&self, nodes: &Vec<(String, ClusterNode)>) -> (r: Vec<String>)
        ensures
            exists|t: u64| r@.map_values(|s: String| s@) == failed_ids(nodes@, t, self.timeout()),
    {
        self.check_nodes_at(nodes, unix_time_secs())
    }
}

} // verus!
