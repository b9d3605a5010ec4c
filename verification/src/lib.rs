//! Verified core of a set of distributed-systems labs: a Raft peer driven as a
//! state machine, a Raft log with snapshots, a replicated key/value state
//! machine, a linearizability checker, the fate of a call on a simulated
//! network, the wire codec of a small message, and
//! the rules of a number-guessing game.

pub mod buffers;
pub mod raft;
pub mod linearizability;
pub mod replica;
pub mod kv;
pub mod codec;
pub mod game;
pub mod labrpc;

