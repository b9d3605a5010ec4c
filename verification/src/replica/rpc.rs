use vstd::prelude::*;

verus! {

/// A log entry as it travels on the wire.
#[derive(Debug)]
pub struct ProtoEntry {
    pub command: Vec<u8>,
    pub term: u64,
}

/// Asks a peer for its vote in `term`.
#[derive(Debug, Clone, Copy)]
pub struct RequestVoteArgs {
    pub term: u64,
    pub candidate_id: u64,
    pub last_log_index: u64,
    pub last_log_term: u64,
}

/// A peer's answer to a vote request.
#[derive(Debug, Clone, Copy, PartialEq, Eq, Structural)]
pub struct RequestVoteReply {
    pub term: u64,
    pub vote_granted: bool,
}

/// Log replication request of a leader.
#[derive(Debug)]
pub struct AppendEntriesArgs {
    pub term: u64,
    pub leader_id: u64,
    pub prev_log_index: u64,
    pub prev_log_term: u64,
    pub entries: Vec<ProtoEntry>,
    pub leader_commit: u64,
}

/// A follower's answer to a log replication request. When it refuses, it
/// names the term of its conflicting entry and where that term starts.
#[derive(Debug, Clone, Copy, PartialEq, Eq, Structural)]
pub struct AppendEntriesReply {
    pub term: u64,
    pub success: bool,
    pub conflicted_term: u64,
    pub conflicted_term_starts_at: u64,
}

/// Asks a follower that fell behind the leader's snapshot to install it.
#[derive(Debug)]
pub struct InstallSnapshotArgs {
    pub term: u64,
    pub leader_id: u64,
    pub last_included_term: u64,
    pub last_included_index: u64,
    pub data: Vec<Vec<u8>>,
}

/// A follower's answer to a snapshot installation.
#[derive(Debug, Clone, Copy, PartialEq, Eq, Structural)]
pub struct InstallSnapshotReply {
    pub term: u64,
}

/// The state a peer keeps in stable storage besides its snapshot.
#[derive(Debug)]
pub struct PersistedStatus {
    pub current_term: u64,
    /// At most one candidate.
    pub voted_for: Vec<u64>,
    pub logs: Vec<ProtoEntry>,
}

/// The snapshot a peer keeps in stable storage.
#[derive(Debug)]
pub struct Snapshot {
    pub state_machine_state: Vec<Vec<u8>>,
    pub last_index_of_snapshot: u64,
    pub last_term_of_snapshot: u64,
}

} // verus!
