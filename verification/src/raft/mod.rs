//! A Raft peer written as a state machine: `tick` advances the logical clock
//! and `step` consumes one message, returning the reply owed to its sender.

pub mod message;
pub mod node;
pub mod random;
pub mod route;
pub mod votes;
pub mod laws;

pub use message::{
    AppendEntriesArgs, AppendEntriesReply, HeartbeatArgs, HeartbeatReply, Message, ProposeArgs,
    ProtoMessage, RequestVoteArgs, RequestVoteReply,
};
pub use node::{Raft, RaftView, State, StateType};
