//! A key/value service replicated with Raft: the requests clerks send, the
//! commands the replicas agree on, the state machine that applies them once
//! each, and a clerk's tracking of the current leader.

pub mod service;
pub mod command;
pub mod table;
pub mod store;
pub mod server;
pub mod clerk;
pub mod config;
pub mod appends;
pub mod laws;
