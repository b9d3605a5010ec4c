use vstd::prelude::*;

use super::command::new_id;
use super::service::{GetReply, GetRequest, PutAppendReply, PutAppendRequest};

verus! {

/// What a clerk asks of the service.
#[derive(Debug)]
pub enum Op {
    Put(String, String),
    Append(String, String),
}

impl Op {
    /// The request for this operation, under a fresh id.
    pub fn into_request(self) -> (r: PutAppendRequest)
        ensures
            r.id@.len() == 16,
            r.client@ == Seq::<char>::empty(),
            self matches Op::Put(k, v) ==> r.key == k && r.value == v && r.op == 1,
            self matches Op::Append(k, v) ==> r.key == k && r.value == v && r.op == 2,
    {
        match self {
            Op::Put(key, value) => PutAppendRequest { id: new_id(), key, value, op: 1, client: String::new() },
            Op::Append(key, value) => PutAppendRequest { id: new_id(), key, value, op: 2, client: String::new() },
        }
    }
}

/// Where a clerk sends a request next.
#[derive(Debug, Clone, Copy, PartialEq, Eq, Structural)]
pub enum Target {
    /// The server it knows to be leader.
    Leader(usize),
    /// Every server, to find the leader.
    All,
}

/// A client of the key/value service. It remembers which server answered
/// as leader, sends there first, and looks for a new leader among all the
/// servers when that one no longer is. Sending, waiting and retrying are
/// its driver's.
pub struct Clerk<C> {
    pub name: String,
    pub servers: Vec<C>,
    /// The server believed to be leader.
    pub leader: Option<usize>,
}

impl<C> Clerk<C> {
    /// A clerk named `name` of `servers`, which knows no leader yet.
    pub fn new(name: String, servers: Vec<C>) -> (ck: Clerk<C>)
        ensures
            ck.name == name,
            ck.servers == servers,
            ck.leader is None,
    {
        Clerk { name, servers, leader: None }
    }

    /// Where to send a request: the known leader, else everyone.
    pub fn target(&self) -> (t: Target)
        ensures
            self.leader matches Some(l) ==> t == Target::Leader(l),
            self.leader is None ==> t == Target::All,
    {
        match self.leader {
            Some(l) => Target::Leader(l),
            None => Target::All,
        }
    }

    /// The known leader answered: whether the answer stands. An answer that
    /// it is not leader (or no answer) makes the clerk forget it.
    pub fn on_leader_reply(&mut self, from_leader: bool) -> (accepted: bool)
        ensures
            accepted == from_leader,
            final(self).leader == (if from_leader { old(self).leader } else { None }),
            final(self).name == old(self).name,
            final(self).servers == old(self).servers,
    {
        if !from_leader {
            self.leader = None;
            return false;
        }
        true
    }

    /// Server `server` answered a request sent to everyone: whether the
    /// answer stands. The first that answers as leader is remembered.
    pub fn on_seek_reply(&mut self, server: usize, from_leader: bool) -> (accepted: bool)
        ensures
            accepted == from_leader,
            final(self).leader == (if from_leader { Some(server) } else { old(self).leader }),
            final(self).name == old(self).name,
            final(self).servers == old(self).servers,
    {
        if from_leader {
            self.leader = Some(server);
        }
        from_leader
    }

    /// The request that reads `key`, under a fresh id.
    pub fn get_args(&self, key: String) -> (r: GetRequest)
        ensures
            r.key == key,
            r.id@.len() == 16,
            r.client@ == Seq::<char>::empty(),
    {
        GetRequest { id: new_id(), key, client: String::new() }
    }

    /// The request that sets `key` to `value`, under a fresh id; the driver
    /// sends it until a leader takes it.
    pub fn put(&self, key: String, value: String) -> (r: PutAppendRequest)
        ensures
            r.key == key,
            r.value == value,
            r.op == 1,
            r.id@.len() == 16,
            r.client@ == Seq::<char>::empty(),
    {
        Op::Put(key, value).into_request()
    }

    /// The request that appends `value` to `key`, under a fresh id; the
    /// driver sends it until a leader takes it.
    pub fn append(&self, key: String, value: String) -> (r: PutAppendRequest)
        ensures
            r.key == key,
            r.value == value,
            r.op == 2,
            r.id@.len() == 16,
            r.client@ == Seq::<char>::empty(),
    {
        Op::Append(key, value).into_request()
    }
}

/// Whether a reply to a get stands: it must come from the leader and carry
/// no error. No reply, one that says the server is not leader, and one that
/// reports an error (the command failed to commit or timed out) are retried.
pub fn get_from_leader(reply: &Option<GetReply>) -> (r: bool)
    ensures
        r == (reply matches Some(m) && !m.wrong_leader && m.err@.len() == 0),
{
    match reply {
        Some(m) => !m.wrong_leader && m.err.as_str().is_empty(),
        None => false,
    }
}

/// Whether a reply to a put or append comes from the leader: no reply does
/// not, nor one that says the server is not leader.
pub fn put_append_from_leader(reply: &Option<PutAppendReply>) -> (r: bool)
    ensures
        r == (reply matches Some(m) && !m.wrong_leader),
{
    match reply {
        Some(m) => !m.wrong_leader,
        None => false,
    }
}

} // verus!
