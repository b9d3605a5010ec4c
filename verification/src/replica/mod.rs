//! A Raft peer whose log can be compacted into a snapshot, with the decisions
//! of its leader, candidate and follower roles written as functions from the
//! peer's state and an incoming event to its next state and the effects owed
//! to the outside (messages to apply, state to persist, replies to send).

pub mod rpc;
pub mod log;
pub mod peer;
pub mod quorum;
pub mod persister;
pub mod timer;
pub mod laws;
