use vstd::prelude::*;

verus! {

/// Asks a peer for its vote in `term`.
#[derive(Clone, Debug, PartialEq, Eq)]
pub struct RequestVoteArgs {
    pub term: u64,
    pub candidate_id: u64,
}

/// A peer's answer to a vote request.
#[derive(Clone, Debug, PartialEq, Eq)]
pub struct RequestVoteReply {
    pub term: u64,
    pub vote_granted: bool,
}

/// Log replication request of a leader.
#[derive(Clone, Debug, PartialEq, Eq)]
pub struct AppendEntriesArgs {
    pub term: u64,
    pub leader_id: u64,
    pub prev_log_term: u64,
    pub entries: Vec<Vec<u8>>,
    pub leader_commit: u64,
}

/// A follower's answer to a log replication request.
#[derive(Clone, Debug, PartialEq, Eq)]
pub struct AppendEntriesReply {
    pub term: u64,
    pub success: bool,
}

/// Heartbeat of a leader.
#[derive(Clone, Debug, PartialEq, Eq)]
pub struct HeartbeatArgs {
    pub term: u64,
    pub leader_id: u64,
}

/// A follower's answer to a heartbeat.
#[derive(Clone, Debug, PartialEq, Eq)]
pub struct HeartbeatReply {
    pub term: u64,
    pub commited_index: u64,
}

/// A local proposal to append data to the leader's log.
#[derive(Clone, Debug, PartialEq, Eq)]
pub struct ProposeArgs {
    pub data: Vec<u8>,
}

/// Every message a Raft peer sends or receives.
#[derive(Clone, Debug, PartialEq, Eq)]
pub enum ProtoMessage {
    RequestVoteArgs(RequestVoteArgs),
    RequestVoteReply(RequestVoteReply),
    AppendEntriesArgs(AppendEntriesArgs),
    AppendEntriesReply(AppendEntriesReply),
    HeartbeatArgs(HeartbeatArgs),
    HeartbeatReply(HeartbeatReply),
    /// A local message that proposes to append data to the leader's log entries.
    ProposeArgs(ProposeArgs),
    /// Local message: the election timer fired.
    MsgHup,
    /// Local message: the heartbeat timer fired.
    MsgBeat,
    Noop,
}

/// A message with its addresses.
#[derive(Clone, Debug, PartialEq, Eq)]
pub struct Message {
    pub from: Option<u64>,
    pub to: Option<u64>,
    pub message: ProtoMessage,
}

impl From<ProtoMessage> for Message {
    /// A local message without addresses.
    fn from(m: ProtoMessage) -> (r: Message) {
        Message { from: None, to: None, message: m }
    }
}

impl vstd::std_specs::convert::FromSpecImpl<ProtoMessage> for Message {
    open spec fn obeys_from_spec() -> bool {
        true
    }

    open spec fn from_spec(m: ProtoMessage) -> Message {
        Message { from: None, to: None, message: m }
    }
}

} // verus!
