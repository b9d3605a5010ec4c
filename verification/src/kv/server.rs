use vstd::prelude::*;
use vstd::string::StringExecFns;

use super::command::be_value;
use super::service::{GetReply, PutAppendReply, PutAppendRequest};
use super::store::{CommandResponse, KvStateMachine};
use crate::replica::peer::Error;

verus! {

/// Why a request to the key/value service failed.
#[derive(Debug)]
pub enum KvError {
    /// Raft refused the command.
    Raft(Error),
    /// The replica is not the leader.
    NotLeader,
    /// Another command was committed where this one was proposed.
    FailToCommit,
    /// The command was not committed in time.
    Timeout,
}

impl KvError {
    /// The text of the error.
    pub fn message(&self) -> (r: String)
        ensures
            r@ == error_text(*self),
    {
        match self {
            KvError::Raft(_) => "Raft response error.".to_owned(),
            KvError::NotLeader => "Current node isn't leader.".to_owned(),
            KvError::FailToCommit => "The command failed to commit.".to_owned(),
            KvError::Timeout => "The command spend too mach time to commit, maybe leader is died or network partition occurs.".to_owned(),
        }
    }
}

/// The text of error `e`.
pub open spec fn error_text(e: KvError) -> Seq<char> {
    match e {
        KvError::Raft(_) => "Raft response error."@,
        KvError::NotLeader => "Current node isn't leader."@,
        KvError::FailToCommit => "The command failed to commit."@,
        KvError::Timeout => "The command spend too mach time to commit, maybe leader is died or network partition occurs."@,
    }
}

/// Where a replica waits for a command it proposed to Raft: at the index
/// Raft gave it; a replica that is not leader refuses.
pub fn start_outcome(r: Result<(u64, u64), Error>) -> (o: Result<u64, KvError>)
    ensures
        r matches Ok((idx, _)) ==> o matches Ok(i) && i == idx,
        r is Err ==> o matches Err(KvError::NotLeader),
{
    match r {
        Ok((idx, _term)) => Ok(idx),
        Err(Error::NotLeader) => Err(KvError::NotLeader),
    }
}

/// Whether the command applied where a command was proposed is that
/// command: else another leader's command took its place.
pub fn committed(response: CommandResponse, command_id: u128) -> (r: Result<CommandResponse, KvError>)
    ensures
        response.command_id == command_id ==> (r matches Ok(c) && c == response),
        response.command_id != command_id ==> r matches Err(KvError::FailToCommit),
{
    if response.command_id == command_id {
        Ok(response)
    } else {
        Err(KvError::FailToCommit)
    }
}

/// The reply to a get, from the outcome of its command; `None` when the
/// state machine stopped before the outcome was known.
pub fn get_reply(outcome: Option<Result<CommandResponse, KvError>>) -> (r: GetReply)
    ensures
        match outcome {
            Some(Err(KvError::NotLeader)) => r.wrong_leader && r.err@ == "not leader"@ && r.value@ == Seq::<char>::empty(),
            Some(Ok(c)) => !r.wrong_leader && r.err@ == Seq::<char>::empty() && r.value == c.reply,
            Some(Err(e)) => !r.wrong_leader && r.err@ == "ERROR: "@ + error_text(e) && r.value@ == Seq::<char>::empty(),
            None => !r.wrong_leader && r.err@ == "FSM cancels execution."@ && r.value@ == Seq::<char>::empty(),
        },
{
    match outcome {
        Some(Err(KvError::NotLeader)) => GetReply { wrong_leader: true, err: "not leader".to_owned(), value: String::new() },
        Some(Ok(cmd)) => GetReply { wrong_leader: false, err: String::new(), value: cmd.reply },
        Some(Err(e)) => GetReply {
            wrong_leader: false,
            err: "ERROR: ".to_owned().concat(e.message().as_str()),
            value: String::new(),
        },
        None => GetReply { wrong_leader: false, err: "FSM cancels execution.".to_owned(), value: String::new() },
    }
}

/// The reply to a put or append, from the outcome of its command; `None`
/// when the state machine stopped before the outcome was known.
pub fn put_append_reply(outcome: Option<Result<CommandResponse, KvError>>) -> (r: PutAppendReply)
    ensures
        match outcome {
            Some(Err(KvError::NotLeader)) => r.wrong_leader && r.err@ == "not leader"@,
            Some(Ok(_)) => !r.wrong_leader && r.err@ == Seq::<char>::empty(),
            Some(Err(e)) => !r.wrong_leader && r.err@ == error_text(e),
            None => !r.wrong_leader && r.err@ == "FSM cancels execution."@,
        },
{
    match outcome {
        Some(Err(KvError::NotLeader)) => PutAppendReply { wrong_leader: true, err: "not leader".to_owned() },
        Some(Ok(_resp)) => PutAppendReply { wrong_leader: false, err: String::new() },
        Some(Err(e)) => PutAppendReply { wrong_leader: false, err: e.message() },
        None => PutAppendReply { wrong_leader: false, err: "FSM cancels execution.".to_owned() },
    }
}

/// The reply owed at once to a put or append the state machine already
/// applied (a retry of it): success, without proposing it again. `None`
/// when it has yet to be proposed. Its id must be 16 bytes.
pub fn already_done(fsm: &KvStateMachine, arg: &PutAppendRequest) -> (r: Option<PutAppendReply>)
    requires
        fsm.wf(),
        arg.id@.len() == 16,
    ensures
        r is Some <==> (fsm.history().contains_key(arg.client@) && fsm.history()[arg.client@] == be_value(arg.id@)),
        r matches Some(reply) ==> !reply.wrong_leader && reply.err@ == Seq::<char>::empty(),
{
    let cmd_id = arg.get_id();
    if fsm.has_done(arg.client.as_str(), cmd_id) {
        Some(PutAppendReply { wrong_leader: false, err: String::new() })
    } else {
        None
    }
}

} // verus!
