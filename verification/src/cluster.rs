//! Cluster types: hash slots and their ranges, node flags, cluster errors,
//! slot migration records, and the vote and heartbeat rules of a Raft node.

use vstd::prelude::*;
use crate::text::{concat, owned};

verus! {

/// Total number of hash slots.
pub const TOTAL_SLOTS: u16 = 16384;

/// State of a cluster node.
#[derive(Debug, Clone, Copy, PartialEq, Eq)]
pub enum ClusterState {
    Starting,
    Joining,
    Connected,
    Failover,
    Migrating,
    Importing,
    Offline,
}

/// Flags of a node.
#[derive(Debug, Clone, Copy, PartialEq, Eq, Default)]
pub struct NodeFlags {
    pub is_master: bool,
    pub is_replica: bool,
    pub is_myself: bool,
    pub is_fail: bool,
    pub is_handshake: bool,
    pub is_noaddr: bool,
}

/// A range of slots, both ends included.
#[derive(Debug, Clone, Copy, PartialEq, Eq)]
pub struct SlotRange {
    pub start: u16,
    pub end: u16,
}

impl SlotRange {
    /// The range `start..=end`; the range must be ordered and within the
    /// slots.
    pub fn new(start: u16, end: u16) -> (r: Self)
        requires
            start <= end < TOTAL_SLOTS,
        ensures
            r.start == start,
            r.end == end,
    {
        SlotRange { start, end }
    }

    /// Whether `slot` lies in the range.
    pub fn contains(&self, slot: u16) -> (r: bool)
        ensures
            r == (self.start <= slot <= self.end),
    {
        slot >= self.start && slot <= self.end
    }

    /// The number of slots in the range.
    pub fn count(&self) -> (r: u16)
        requires
            self.start <= self.end < TOTAL_SLOTS,
        ensures
            r == self.end - self.start + 1,
    {
        self.end - self.start + 1
    }
}

/// A range holds exactly `count` slots: those `contains` accepts.
pub proof fn lemma_slot_range_count(r: SlotRange)
    requires
        r.start <= r.end,
    ensures
        Set::new(|s: int| r.start <= s <= r.end).len() == r.end - r.start + 1,
        Set::new(|s: int| r.start <= s <= r.end).finite(),
    decreases r.end - r.start,
{
    let s = Set::new(|x: int| r.start <= x <= r.end);
    if r.start == r.end {
        assert(s =~= Set::empty().insert(r.start as int));
    } else {
        let smaller = SlotRange { start: r.start, end: (r.end - 1) as u16 };
        lemma_slot_range_count(smaller);
        assert(s =~= Set::new(|x: int| smaller.start <= x <= smaller.end).insert(r.end as int));
    }
}

/// Which node owns a slot, and its migration state.
#[derive(Debug, Clone)]
pub struct SlotAssignment {
    pub node_id: String,
    pub slot: u16,
    pub migrating_to: Option<String>,
    pub importing_from: Option<String>,
}

/// The address a node listens on.
#[derive(Debug, Clone, Copy, PartialEq, Eq)]
pub struct NodeAddress {
    pub ip: crate::acl::IpAddress,
    pub port: u16,
}

/// A node of the cluster.
#[derive(Debug)]
pub struct ClusterNode {
    /// Unique identifier.
    pub id: String,
    pub address: NodeAddress,
    pub state: ClusterState,
    /// Slot ranges assigned to the node.
    pub slots: Vec<SlotRange>,
    /// Its master, when the node is a replica.
    pub master_id: Option<String>,
    pub replica_ids: Vec<String>,
    /// Time of the last ping (Unix seconds).
    pub last_ping: u64,
    pub flags: NodeFlags,
}

/// Errors of cluster operations.
#[derive(Debug)]
pub enum ClusterError {
    NodeNotFound(String),
    SlotNotAssigned(u16),
    SlotMigrating(u16),
    ClusterNotInitialized,
    NodeExists(String),
    InvalidSlotRange(u16, u16),
    RaftError(String),
    MigrationError(String),
    NetworkError(String),
    ConfigError(String),
}

/// The message of a cluster error.
pub open spec fn cluster_error_message(e: ClusterError) -> Seq<char> {
    match e {
        ClusterError::NodeNotFound(s) => "Node not found: "@ + s@,
        ClusterError::SlotNotAssigned(n) => "Slot not assigned: "@ + crate::text::decimal_text(n as int),
        ClusterError::SlotMigrating(n) => "Slot migration in progress: "@ + crate::text::decimal_text(n as int),
        ClusterError::ClusterNotInitialized => "Cluster not initialized"@,
        ClusterError::NodeExists(s) => "Node already exists: "@ + s@,
        ClusterError::InvalidSlotRange(a, b) => "Invalid slot range: "@ + crate::text::decimal_text(a as int) + "-"@
            + crate::text::decimal_text(b as int),
        ClusterError::RaftError(s) => "Raft consensus error: "@ + s@,
        ClusterError::MigrationError(s) => "Migration error: "@ + s@,
        ClusterError::NetworkError(s) => "Network error: "@ + s@,
        ClusterError::ConfigError(s) => "Configuration error: "@ + s@,
    }
}

impl ClusterError {
    /// The message of this error, as its `Display` shows it.
    pub fn to_string(&self) -> (m: String)
        ensures
            m@ == cluster_error_message(*self),
    {
        match self {
            ClusterError::NodeNotFound(s) => concat("Node not found: ", s.as_str()),
            ClusterError::SlotNotAssigned(n) => concat("Slot not assigned: ", crate::text::u64_text(*n as u64).as_str()),
            ClusterError::SlotMigrating(n) => concat("Slot migration in progress: ", crate::text::u64_text(*n as u64).as_str()),
            ClusterError::ClusterNotInitialized => owned("Cluster not initialized"),
            ClusterError::NodeExists(s) => concat("Node already exists: ", s.as_str()),
            ClusterError::InvalidSlotRange(a, b) => {
                let x = concat("Invalid slot range: ", crate::text::u64_text(*a as u64).as_str());
                let y = concat(x.as_str(), "-");
                concat(y.as_str(), crate::text::u64_text(*b as u64).as_str())
            },
            ClusterError::RaftError(s) => concat("Raft consensus error: ", s.as_str()),
            ClusterError::MigrationError(s) => concat("Migration error: ", s.as_str()),
            ClusterError::NetworkError(s) => concat("Network error: ", s.as_str()),
            ClusterError::ConfigError(s) => concat("Configuration error: ", s.as_str()),
        }
    }
}

/// State of a slot migration.
#[derive(Debug, Clone, Copy, PartialEq, Eq, Structural)]
pub enum MigrationState {
    Pending,
    InProgress,
    Complete,
    Failed,
}

/// A slot migration between two nodes.
#[derive(Debug, Clone)]
pub struct SlotMigration {
    pub slot: u16,
    pub from_node: String,
    pub to_node: String,
    pub state: MigrationState,
    pub keys_migrated: usize,
    pub total_keys: usize,
    pub started_at: u64,
    pub completed_at: Option<u64>,
}

// ---------------------------------------------------------------------------
// Raft
// ---------------------------------------------------------------------------

/// Role of a Raft node.
#[derive(Debug, Clone, Copy, PartialEq, Eq, Structural)]
pub enum RaftState {
    Follower,
    Candidate,
    Leader,
}

/// An entry of the Raft log.
#[derive(Debug, Clone)]
pub struct RaftLogEntry {
    pub term: u64,
    pub index: u64,
    pub command: Vec<u8>,
}

/// The election state of a Raft node: its role, term, vote and the time of
/// the last heartbeat. Timers and messages are driven from outside; every
/// decision is a method here.
pub struct RaftNode {
    node_id: String,
    state: RaftState,
    current_term: u64,
    voted_for: Option<String>,
    log: Vec<RaftLogEntry>,
    commit_index: u64,
    last_applied: u64,
    election_timeout_secs: u64,
    heartbeat_interval_secs: u64,
    last_heartbeat: u64,
}

impl RaftNode {
    /// The role.
    pub closed spec fn role(&self) -> RaftState {
        self.state
    }

    /// The current term.
    pub closed spec fn term(&self) -> u64 {
        self.current_term
    }

    /// The candidate voted for in the current term.
    pub closed spec fn vote(&self) -> Option<Seq<char>> {
        match self.voted_for {
            Some(v) => Some(v@),
            None => None,
        }
    }

    /// The node's own ID.
    pub closed spec fn id(&self) -> Seq<char> {
        self.node_id@
    }

    /// The time of the last heartbeat (Unix seconds).
    pub closed spec fn heartbeat_at(&self) -> u64 {
        self.last_heartbeat
    }

    /// The election timeout in seconds.
    pub closed spec fn timeout(&self) -> u64 {
        self.election_timeout_secs
    }

    /// A follower in term 0 that has voted for nobody, its last heartbeat
    /// at `now`.
    pub fn new(node_id: String, election_timeout_secs: u64, heartbeat_interval_secs: u64, now: u64) -> (r: Self)
        ensures
            r.role() == RaftState::Follower,
            r.term() == 0,
            r.vote() is None,
            r.id() == node_id@,
            r.heartbeat_at() == now,
            r.timeout() == election_timeout_secs,
    {
        RaftNode {
            node_id,
            state: RaftState::Follower,
            current_term: 0,
            voted_for: None,
            log: Vec::new(),
            commit_index: 0,
            last_applied: 0,
            election_timeout_secs,
            heartbeat_interval_secs,
            last_heartbeat: now,
        }
    }

    /// The current role.
    pub fn state(&self) -> (r: RaftState)
        ensures
            r == self.role(),
    {
        self.state
    }

    /// The current term.
    pub fn current_term(&self) -> (r: u64)
        ensures
            r == self.term(),
    {
        self.current_term
    }

    /// When the last heartbeat arrived (Unix seconds).
    pub fn last_heartbeat(&self) -> (r: u64)
        ensures
            r == self.heartbeat_at(),
    {
        self.last_heartbeat
    }

    /// Whether this node leads.
    pub fn is_leader(&self) -> (r: bool)
        ensures
            r == (self.role() == RaftState::Leader),
    {
        self.state == RaftState::Leader
    }

    /// A vote request from `candidate_id` for `term`. An outdated term is
    /// refused; a newer term is adopted with the vote cleared; the vote is
    /// granted when the node has not voted in the term or voted for the
    /// same candidate.
    pub fn request_vote(&mut self, candidate_id: &str, term: u64) -> (granted: bool)
        ensures
            term < old(self).term() ==> !granted && final(self).term() == old(self).term()
                && final(self).vote() == old(self).vote(),
            term >= old(self).term() ==> {
                let prior = if term > old(self).term() { None } else { old(self).vote() };
                &&& final(self).term() == term
                &&& granted == (prior is None || prior == Some(candidate_id@))
                &&& final(self).vote() == if granted { Some(candidate_id@) } else { prior }
            },
            // one vote per term: a vote given in a term is never moved to another candidate
            old(self).vote() matches Some(v) && v != candidate_id@ && term == old(self).term() ==> !granted
                && final(self).vote() == old(self).vote(),
            final(self).term() >= old(self).term(),
            final(self).role() == old(self).role(),
            final(self).id() == old(self).id(),
            final(self).heartbeat_at() == old(self).heartbeat_at(),
            final(self).timeout() == old(self).timeout(),
    {
        if term < self.current_term {
            return false;
        }
        if term > self.current_term {
            self.current_term = term;
            self.voted_for = None;
        }
        let candidate = owned(candidate_id);
        let may_vote = match &self.voted_for {
            None => true,
            Some(v) => *v == candidate,
        };
        if may_vote {
            self.voted_for = Some(candidate);
            true
        } else {
            false
        }
    }

    /// A heartbeat from a leader for `term` received at `now`: a term not
    /// older than the node's is adopted, the node becomes a follower and
    /// notes the time.
    pub fn receive_heartbeat(&mut self, leader_id: &str, term: u64, now: u64)
        ensures
            term >= old(self).term() ==> final(self).term() == term && final(self).role() == RaftState::Follower
                && final(self).heartbeat_at() == now,
            term < old(self).term() ==> final(self).term() == old(self).term()
                && final(self).role() == old(self).role() && final(self).heartbeat_at() == old(self).heartbeat_at(),
            final(self).vote() == old(self).vote(),
            final(self).id() == old(self).id(),
            final(self).timeout() == old(self).timeout(),
    {
        if term >= self.current_term {
            self.current_term = term;
            self.state = RaftState::Follower;
            self.last_heartbeat = now;
        }
    }

    /// The election timer fired at `now`: a follower that heard no
    /// heartbeat for longer than the election timeout starts an election in
    /// the next term, votes for itself and, alone in its cluster, becomes
    /// leader. Answers whether it did.
    pub fn election_tick(&mut self, now: u64) -> (elected: bool)
        requires
            old(self).role() == RaftState::Follower ==> now >= old(self).heartbeat_at(),
            old(self).term() < u64::MAX,
        ensures
            elected == (old(self).role() == RaftState::Follower && now - old(self).heartbeat_at() > old(self).timeout()),
            elected ==> final(self).term() == old(self).term() + 1 && final(self).role() == RaftState::Leader
                && final(self).vote() == Some(old(self).id()),
            !elected ==> final(self).term() == old(self).term() && final(self).role() == old(self).role()
                && final(self).vote() == old(self).vote(),
            final(self).id() == old(self).id(),
            final(self).heartbeat_at() == old(self).heartbeat_at(),
            final(self).timeout() == old(self).timeout(),
    {
        if self.state == RaftState::Follower && now - self.last_heartbeat > self.election_timeout_secs {
            self.current_term = self.current_term + 1;
            self.state = RaftState::Candidate;
            self.voted_for = Some(self.node_id.clone());
            self.state = RaftState::Leader;
            true
        } else {
            false
        }
    }
}

} // verus!
