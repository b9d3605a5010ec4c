use vstd::prelude::*;

use super::message::{Message, ProtoMessage, RequestVoteArgs, RequestVoteReply};
use super::node::{
    became_candidate, broadcast, can_step, declined_count, granted_count, grants_vote, handled_vote_request,
    requested_votes, started_election, stepped, ticked, vote_request, RaftView, StateType,
};

verus! {

/// A peer never goes back to an older term, whatever message it consumes.
pub proof fn law_step_never_lowers_term(old: RaftView, new: RaftView, msg: Message, r: Option<ProtoMessage>)
    requires
        can_step(old, msg),
        stepped(old, new, msg, r),
    ensures
        new.term >= old.term,
{
    if msg.message is MsgHup && old.state_type != StateType::Leader {
        let mid = choose|mid: RaftView| became_candidate(old, mid) && requested_votes(mid, new);
        assert(mid.term == old.term + 1);
    }
}

/// A peer never goes back to an older term as its clock ticks.
pub proof fn law_tick_never_lowers_term(old: RaftView, new: RaftView)
    requires
        old.term < u64::MAX,
        ticked(old, new),
    ensures
        new.term >= old.term,
{
    if old.state_type != StateType::Leader && old.election_elapsed + 1 >= old.randomized_election_timeout {
        let counted = RaftView { election_elapsed: (old.election_elapsed + 1) as usize, ..old };
        let mid = choose|mid: RaftView| became_candidate(counted, mid) && requested_votes(mid, new);
        assert(mid.term == old.term + 1);
    }
}

/// Once a peer granted its vote to `first` in a term, it grants no vote to
/// another peer in that term: `mid` is the peer after granting `first`'s
/// request `m1`.
pub proof fn law_one_vote_per_term(
    old: RaftView,
    mid: RaftView,
    first: u64,
    m1: RequestVoteArgs,
    reply: ProtoMessage,
    second: u64,
    m2: RequestVoteArgs,
)
    requires
        handled_vote_request(old, mid, first, m1, reply),
        reply matches ProtoMessage::RequestVoteReply(rv) && rv.vote_granted,
        m2.term == mid.term,
        grants_vote(mid, second, m2),
    ensures
        second == first,
{
}

/// An election makes the peer a candidate of the next term that votes for
/// itself and asks every other peer for its vote.
pub proof fn law_election_votes_for_self(old: RaftView, new: RaftView)
    requires
        old.peer_count >= 2,
        old.term < u64::MAX,
        started_election(old, new),
    ensures
        new.state_type == StateType::Candidate,
        new.term == old.term + 1,
        new.voted_for == Some(old.me as u64),
        new.votes == Map::<u64, bool>::empty().insert(old.me as u64, true),
        new.msgs == old.msgs + broadcast(old.me, old.peer_count as nat, vote_request(new)),
{
    let mid = choose|mid: RaftView| became_candidate(old, mid) && requested_votes(mid, new);
    assert(vote_request(mid) == vote_request(new));
}

/// A peer that is not leader becomes leader on a message only when a
/// majority of the peers granted it their vote in its term, or when it is
/// alone.
pub proof fn law_leader_only_by_majority(old: RaftView, new: RaftView, msg: Message, r: Option<ProtoMessage>)
    requires
        can_step(old, msg),
        stepped(old, new, msg, r),
        old.state_type != StateType::Leader,
        new.state_type == StateType::Leader,
    ensures
        old.peer_count < 2 || granted_count(new.votes) > old.peer_count / 2,
{
    if msg.message is MsgHup {
        let mid = choose|mid: RaftView| became_candidate(old, mid) && requested_votes(mid, new);
        assert(mid.peer_count == old.peer_count);
    }
}

/// A candidate that counts a vote reply of its own term records it and stays
/// in its term; it turns follower only when more than half of all peers
/// refused it, turns leader only when more than half granted it, and stays
/// a candidate while neither is the case.
pub proof fn law_candidate_counts_vote_reply(old: RaftView, new: RaftView, msg: Message, r: Option<ProtoMessage>)
    requires
        can_step(old, msg),
        stepped(old, new, msg, r),
        old.state_type == StateType::Candidate,
        msg.message matches ProtoMessage::RequestVoteReply(reply) && reply.term == old.term,
    ensures
        new.term == old.term,
        new.votes == old.votes.insert(msg.from->0, msg.message->RequestVoteReply_0.vote_granted),
        new.state_type == StateType::Follower ==> declined_count(new.votes) > old.peer_count / 2,
        new.state_type == StateType::Leader ==> granted_count(new.votes) > old.peer_count / 2,
        granted_count(new.votes) <= old.peer_count / 2 && declined_count(new.votes) <= old.peer_count / 2
            ==> new.state_type == StateType::Candidate,
{
}

/// A follower that hears a heartbeat whose term is not older than its own
/// restarts its election clock and stays a follower, in the heartbeat's
/// term: a living leader keeps it from starting an election.
pub proof fn law_heartbeat_restarts_election_clock(old: RaftView, new: RaftView, msg: Message, r: Option<ProtoMessage>)
    requires
        can_step(old, msg),
        stepped(old, new, msg, r),
        old.state_type == StateType::Follower,
        msg.message matches ProtoMessage::HeartbeatArgs(args) && args.term >= old.term,
    ensures
        new.election_elapsed == 0,
        new.state_type == StateType::Follower,
        new.term == msg.message->HeartbeatArgs_0.term,
{
}

/// A vote reply of a newer term turns a candidate into a follower of that
/// term with a fresh election clock, and one of an older term changes
/// nothing.
pub proof fn law_vote_reply_of_other_term(old: RaftView, new: RaftView, msg: Message, r: Option<ProtoMessage>)
    requires
        can_step(old, msg),
        stepped(old, new, msg, r),
        old.state_type == StateType::Candidate,
        msg.message matches ProtoMessage::RequestVoteReply(reply) && reply.term != old.term,
    ensures
        msg.message->RequestVoteReply_0.term > old.term ==> new.state_type == StateType::Follower
            && new.term == msg.message->RequestVoteReply_0.term && new.election_elapsed == 0,
        msg.message->RequestVoteReply_0.term < old.term ==> new == old,
        r is None,
{
}

} // verus!
