use vstd::prelude::*;

use super::message::{AppendEntriesArgs, HeartbeatArgs, Message, ProtoMessage, RequestVoteArgs};

verus! {

/// Where a peer's worker sends an outgoing message: the request goes to the
/// peer numbered `.0`.
#[derive(Debug)]
pub enum Route {
    AppendEntries(usize, AppendEntriesArgs),
    Heartbeat(usize, HeartbeatArgs),
    RequestVote(usize, RequestVoteArgs),
    /// Not a request: nothing is sent.
    Drop,
}

/// Whether `m` is a request, which must name the peer it goes to.
pub open spec fn is_request(m: ProtoMessage) -> bool {
    m is AppendEntriesArgs || m is HeartbeatArgs || m is RequestVoteArgs
}

/// The route of an outgoing message: a request goes to the peer it names,
/// any other message is dropped.
pub fn route(m: Message) -> (r: Route)
    requires
        is_request(m.message) ==> (m.to matches Some(t) && t <= usize::MAX),
    ensures
        match m.message {
            ProtoMessage::AppendEntriesArgs(a) => r matches Route::AppendEntries(t, b) && t == m.to->0 && b == a,
            ProtoMessage::HeartbeatArgs(a) => r matches Route::Heartbeat(t, b) && t == m.to->0 && b == a,
            ProtoMessage::RequestVoteArgs(a) => r matches Route::RequestVote(t, b) && t == m.to->0 && b == a,
            _ => r is Drop,
        },
{
    match m.message {
        ProtoMessage::AppendEntriesArgs(args) => Route::AppendEntries(target(m.to), args),
        ProtoMessage::HeartbeatArgs(args) => Route::Heartbeat(target(m.to), args),
        ProtoMessage::RequestVoteArgs(args) => Route::RequestVote(target(m.to), args),
        _ => Route::Drop,
    }
}

/// The peer a request names.
fn target(to: Option<u64>) -> (t: usize)
    requires
        to matches Some(t) && t <= usize::MAX,
    ensures
        t == to->0,
{
    match to {
        Some(t) => t as usize,
        None => vstd::pervasive::unreached(),
    }
}

/// The reply to a request that went from `from` to `to`, addressed back:
/// it comes from `to` and goes to `from`.
pub fn reply_message(from: Option<u64>, to: Option<u64>, reply: ProtoMessage) -> (m: Message)
    ensures
        m.from == to,
        m.to == from,
        m.message == reply,
{
    Message { from: to, to: from, message: reply }
}

} // verus!
