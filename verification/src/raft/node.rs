use std::collections::HashMap;
use vstd::prelude::*;
use vstd::std_specs::iter::IteratorSpec;

use super::message::{
    AppendEntriesArgs, AppendEntriesReply, HeartbeatArgs, HeartbeatReply, Message, ProtoMessage,
    RequestVoteArgs, RequestVoteReply,
};
use super::random::random_in_range;

verus! {

broadcast use vstd::std_specs::hash::group_hash_axioms;

/// The role a Raft peer plays.
#[derive(Clone, Copy, Debug, PartialEq, Eq, Structural)]
pub enum StateType {
    Follower,
    Candidate,
    Leader,
}

impl Default for StateType {
    fn default() -> (r: StateType)
        ensures
            r == StateType::Follower,
    {
        StateType::Follower
    }
}

/// State of a raft peer.
#[derive(Clone, Debug)]
pub struct State {
    pub term: u64,
    pub is_leader: bool,
    pub state_type: StateType,
    pub leader_id: Option<u64>,
    pub voted_for: Option<u64>,
    pub votes: HashMap<u64, bool>,
}

impl Default for State {
    fn default() -> (r: State)
        ensures
            r.term == 0,
            !r.is_leader,
            r.state_type == StateType::Follower,
            r.leader_id is None,
            r.voted_for is None,
            r.votes@ == Map::<u64, bool>::empty(),
    {
        State {
            term: 0,
            is_leader: false,
            state_type: StateType::Follower,
            leader_id: None,
            voted_for: None,
            votes: HashMap::new(),
        }
    }
}

impl State {
    /// The current term of this peer.
    pub fn term(&self) -> (r: u64)
        ensures
            r == self.term,
    {
        self.term
    }

    /// Whether this peer believes it is the leader.
    pub fn is_leader(&self) -> (r: bool)
        ensures
            r == (self.state_type == StateType::Leader),
    {
        self.state_type == StateType::Leader
    }

    /// The current state type of this peer
    pub fn state_type(&self) -> (r: StateType)
        ensures
            r == self.state_type,
    {
        self.state_type
    }
}

/// The abstract value of a Raft peer: its fields, with the votes as a map.
pub struct RaftView {
    pub me: usize,
    pub peer_count: usize,
    pub term: u64,
    pub is_leader: bool,
    pub state_type: StateType,
    pub leader_id: Option<u64>,
    pub voted_for: Option<u64>,
    pub votes: Map<u64, bool>,
    pub msgs: Seq<Message>,
    pub heartbeat_timeout: usize,
    pub election_timeout: usize,
    pub heartbeat_elapsed: usize,
    pub election_elapsed: usize,
    pub randomized_election_timeout: usize,
}

/// A single Raft peer.
pub struct Raft {
    /// this peer's index among the peers
    pub me: usize,
    /// number of peers, this one included
    pub peer_count: usize,
    pub state: State,
    /// messages to send, oldest first
    pub msgs: Vec<Message>,
    /// heartbeat interval, in ticks
    pub heartbeat_timeout: usize,
    /// baseline of election interval, in ticks
    pub election_timeout: usize,
    /// number of ticks since it reached last heartbeat timeout; only a leader keeps it.
    pub heartbeat_elapsed: usize,
    /// ticks since the last election timeout or, for a follower, since the last
    /// valid message from the current leader.
    pub election_elapsed: usize,
    /// randomized election timeout
    pub randomized_election_timeout: usize,
}

impl View for Raft {
    type V = RaftView;

    open spec fn view(&self) -> RaftView {
        RaftView {
            me: self.me,
            peer_count: self.peer_count,
            term: self.state.term,
            is_leader: self.state.is_leader,
            state_type: self.state.state_type,
            leader_id: self.state.leader_id,
            voted_for: self.state.voted_for,
            votes: self.state.votes@,
            msgs: self.msgs@,
            heartbeat_timeout: self.heartbeat_timeout,
            election_timeout: self.election_timeout,
            heartbeat_elapsed: self.heartbeat_elapsed,
            election_elapsed: self.election_elapsed,
            randomized_election_timeout: self.randomized_election_timeout,
        }
    }
}

/// Number of peers that granted their vote.
pub open spec fn granted_count(votes: Map<u64, bool>) -> nat {
    votes.dom().filter(|k: u64| votes[k]).len()
}

/// Number of peers that refused their vote.
pub open spec fn declined_count(votes: Map<u64, bool>) -> nat {
    votes.dom().filter(|k: u64| !votes[k]).len()
}

/// The message `m` addressed from `from` to `to`.
pub open spec fn addressed(from: usize, to: int, m: ProtoMessage) -> Message {
    Message { from: Some(from as u64), to: Some(to as u64), message: m }
}

/// `m` sent to every peer below `n` but `me`, in increasing order of peers.
pub open spec fn broadcast(me: usize, n: nat, m: ProtoMessage) -> Seq<Message>
    decreases n,
{
    if n == 0 {
        Seq::empty()
    } else {
        let rest = broadcast(me, (n - 1) as nat, m);
        if n - 1 == me {
            rest
        } else {
            rest.push(addressed(me, n - 1, m))
        }
    }
}

/// The vote request a candidate of term `term` sends.
pub open spec fn vote_request(v: RaftView) -> ProtoMessage {
    ProtoMessage::RequestVoteArgs(RequestVoteArgs { term: v.term, candidate_id: v.me as u64 })
}

/// The heartbeat a leader of term `term` sends.
pub open spec fn heartbeat(v: RaftView) -> ProtoMessage {
    ProtoMessage::HeartbeatArgs(HeartbeatArgs { term: v.term, leader_id: v.me as u64 })
}

/// The reply that refuses a vote.
pub open spec fn refused_vote(term: u64) -> ProtoMessage {
    ProtoMessage::RequestVoteReply(RequestVoteReply { term, vote_granted: false })
}

/// A freshly drawn election timeout lies in `[election_timeout, 2 * election_timeout)`.
pub open spec fn fresh_timeout(v: RaftView) -> bool {
    v.election_timeout <= v.randomized_election_timeout < 2 * v.election_timeout
}

/// `new` is `old` turned follower of `leader` in `term`.
pub open spec fn became_follower(old: RaftView, new: RaftView, term: u64, leader: Option<u64>) -> bool {
    &&& fresh_timeout(new)
    &&& new == RaftView {
        state_type: StateType::Follower,
        term,
        leader_id: leader,
        election_elapsed: 0,
        randomized_election_timeout: new.randomized_election_timeout,
        ..old
    }
}

/// `new` is `old` turned candidate of the next term, voting for itself.
pub open spec fn became_candidate(old: RaftView, new: RaftView) -> bool {
    &&& fresh_timeout(new)
    &&& new == RaftView {
        state_type: StateType::Candidate,
        term: (old.term + 1) as u64,
        leader_id: None,
        voted_for: Some(old.me as u64),
        votes: Map::empty().insert(old.me as u64, true),
        election_elapsed: 0,
        randomized_election_timeout: new.randomized_election_timeout,
        ..old
    }
}

/// `old` turned leader.
pub open spec fn as_leader(old: RaftView) -> RaftView {
    RaftView {
        election_elapsed: 0,
        heartbeat_elapsed: 0,
        leader_id: Some(old.me as u64),
        state_type: StateType::Leader,
        ..old
    }
}

/// `new` is `old` after it asked every other peer for its vote: alone, it
/// becomes leader at once.
pub open spec fn requested_votes(old: RaftView, new: RaftView) -> bool {
    if old.peer_count < 2 {
        new == as_leader(old)
    } else {
        new == RaftView { msgs: old.msgs + broadcast(old.me, old.peer_count as nat, vote_request(old)), ..old }
    }
}

/// `new` is `old` after it started an election.
pub open spec fn started_election(old: RaftView, new: RaftView) -> bool {
    exists|mid: RaftView| became_candidate(old, mid) && requested_votes(mid, new)
}

/// Whether a peer in state `old` grants its vote to `from` asking in term `m.term`.
pub open spec fn grants_vote(old: RaftView, from: u64, m: RequestVoteArgs) -> bool {
    let newer = m.term > old.term;
    let leader_id = if newer { None } else { old.leader_id };
    let voted_for = if newer { None } else { old.voted_for };
    leader_id is None && (voted_for is None || voted_for == Some(from))
}

/// `new` and the reply `r` are `old` after it handled the vote request `m` of `from`.
pub open spec fn handled_vote_request(
    old: RaftView,
    new: RaftView,
    from: u64,
    m: RequestVoteArgs,
    r: ProtoMessage,
) -> bool {
    let newer = m.term > old.term;
    let mid = if newer {
        RaftView {
            term: m.term,
            voted_for: None,
            leader_id: None,
            state_type: StateType::Follower,
            ..old
        }
    } else {
        old
    };
    if grants_vote(old, from, m) {
        &&& new == RaftView { election_elapsed: 0, voted_for: Some(from), ..mid }
        &&& r == ProtoMessage::RequestVoteReply(RequestVoteReply { term: mid.term, vote_granted: true })
    } else {
        new == mid && r == refused_vote(mid.term)
    }
}

/// `new` is `old` after it counted the vote reply `m` of `from`.
pub open spec fn handled_vote_reply(old: RaftView, new: RaftView, from: u64, m: RequestVoteReply) -> bool {
    if m.term == old.term {
        let votes = old.votes.insert(from, m.vote_granted);
        let counted = RaftView { votes, ..old };
        if votes.len() > old.peer_count / 2 && granted_count(votes) > old.peer_count / 2 {
            new == as_leader(counted)
        } else if votes.len() > old.peer_count / 2 && declined_count(votes) > old.peer_count / 2 {
            became_follower(counted, new, m.term, None)
        } else {
            new == counted
        }
    } else if m.term > old.term {
        became_follower(old, new, m.term, None)
    } else {
        new == old
    }
}

/// `new` is `old` after a heartbeat of `args` from a leader whose term is not older.
pub open spec fn heard_heartbeat(old: RaftView, new: RaftView, args: HeartbeatArgs) -> bool {
    let reset = RaftView { election_elapsed: 0, ..old };
    if args.term > old.term {
        became_follower(reset, new, args.term, Some(args.leader_id))
    } else {
        new == reset
    }
}

/// The reply to a heartbeat by a peer in state `v`.
pub open spec fn heartbeat_reply(v: RaftView) -> ProtoMessage {
    ProtoMessage::HeartbeatReply(HeartbeatReply { term: v.term, commited_index: 0 })
}

/// `new` is `old` after it sent a heartbeat to every other peer.
pub open spec fn beat(old: RaftView, new: RaftView) -> bool {
    new == RaftView { msgs: old.msgs + broadcast(old.me, old.peer_count as nat, heartbeat(old)), ..old }
}

/// `new` and the reply `r` are `old` after the vote request `args`: one of an
/// older term is refused outright.
pub open spec fn answered_vote_request(old: RaftView, new: RaftView, args: RequestVoteArgs, r: Option<ProtoMessage>) -> bool {
    if args.term >= old.term {
        exists|reply: ProtoMessage| r == Some(reply) && handled_vote_request(old, new, args.candidate_id, args, reply)
    } else {
        new == old && r == Some(refused_vote(old.term))
    }
}

/// `new` and the reply `r` are `old` after it consumed `msg`.
pub open spec fn stepped(old: RaftView, new: RaftView, msg: Message, r: Option<ProtoMessage>) -> bool {
    match old.state_type {
        StateType::Follower => match msg.message {
            ProtoMessage::RequestVoteArgs(args) => answered_vote_request(old, new, args, r),
            ProtoMessage::RequestVoteReply(reply) => r is None && if reply.term > old.term {
                became_follower(old, new, reply.term, None)
            } else {
                new == old
            },
            ProtoMessage::MsgHup => r is None && started_election(old, new),
            ProtoMessage::HeartbeatArgs(args) => if args.term >= old.term {
                heard_heartbeat(old, new, args) && r == Some(heartbeat_reply(new))
            } else {
                new == old && r == Some(heartbeat_reply(old))
            },
            _ => new == old && r is None,
        },
        StateType::Candidate => match msg.message {
            ProtoMessage::RequestVoteArgs(args) => answered_vote_request(old, new, args, r),
            ProtoMessage::HeartbeatArgs(args) => if args.term >= old.term {
                became_follower(old, new, args.term, Some(args.leader_id)) && r == Some(heartbeat_reply(new))
            } else {
                new == old && r == Some(heartbeat_reply(old))
            },
            ProtoMessage::RequestVoteReply(reply) => r is None && if reply.term >= old.term {
                handled_vote_reply(old, new, msg.from->0, reply)
            } else {
                new == old
            },
            ProtoMessage::MsgHup => r is None && started_election(old, new),
            ProtoMessage::AppendEntriesArgs(args) => if args.term >= old.term {
                &&& became_follower(old, new, args.term, Some(args.leader_id))
                &&& r == Some(ProtoMessage::AppendEntriesReply(AppendEntriesReply { term: args.term, success: true }))
            } else {
                new == old && r == Some(ProtoMessage::AppendEntriesReply(AppendEntriesReply { term: old.term, success: false }))
            },
            _ => new == old && r is None,
        },
        StateType::Leader => match msg.message {
            ProtoMessage::RequestVoteArgs(args) => answered_vote_request(old, new, args, r),
            ProtoMessage::MsgBeat => r is None && beat(old, new),
            ProtoMessage::HeartbeatArgs(args) => if args.term > old.term {
                heard_heartbeat(old, new, args) && r == Some(heartbeat_reply(new))
            } else {
                new == old && r is None
            },
            ProtoMessage::HeartbeatReply(reply) => r is None && if reply.term > old.term {
                became_follower(old, new, reply.term, None)
            } else {
                new == old
            },
            ProtoMessage::RequestVoteReply(reply) => r is None && if reply.term > old.term {
                became_follower(old, new, reply.term, None)
            } else {
                new == old
            },
            _ => new == old && r is None,
        },
    }
}

/// What `step` needs of a message and a peer: an election needs a next term,
/// and a candidate counts only a vote reply that names its sender.
pub open spec fn can_step(v: RaftView, msg: Message) -> bool {
    &&& (msg.message is MsgHup && v.state_type != StateType::Leader) ==> v.term < u64::MAX
    &&& (v.state_type == StateType::Candidate && msg.message is RequestVoteReply && msg.message->RequestVoteReply_0.term >= v.term) ==> msg.from is Some
}

/// `new` is `old` after one tick of its logical clock.
pub open spec fn ticked(old: RaftView, new: RaftView) -> bool {
    if old.state_type == StateType::Leader {
        let hb = old.heartbeat_elapsed + 1;
        if hb >= old.heartbeat_timeout {
            new == RaftView {
                msgs: old.msgs + broadcast(old.me, old.peer_count as nat, heartbeat(old)),
                heartbeat_elapsed: 0,
                ..old
            }
        } else {
            new == RaftView { heartbeat_elapsed: hb as usize, ..old }
        }
    } else {
        let e = old.election_elapsed + 1;
        let counted = RaftView { election_elapsed: e as usize, ..old };
        if e >= old.randomized_election_timeout {
            started_election(counted, new)
        } else {
            new == counted
        }
    }
}

impl Raft {
    /// The invariant that keeps the counters of a peer from overflowing.
    pub open spec fn wf(&self) -> bool {
        &&& 0 < self.election_timeout <= usize::MAX / 2
        &&& self.heartbeat_elapsed < usize::MAX
    }

    /// Creates a peer `me` among `peer_count` peers, a follower of no one in
    /// term 0.
    pub fn new(me: usize, peer_count: usize) -> (rf: Raft)
        ensures
            rf.wf(),
            rf@.me == me,
            rf@.peer_count == peer_count,
            rf@.term == 0,
            rf@.state_type == StateType::Follower,
            !rf@.is_leader,
            rf@.leader_id is None,
            rf@.voted_for is None,
            rf@.votes == Map::<u64, bool>::empty(),
            rf@.msgs == Seq::<Message>::empty(),
            rf@.election_timeout == 15,
            rf@.heartbeat_timeout == 5,
            rf@.election_elapsed == 0,
            rf@.heartbeat_elapsed == 0,
            fresh_timeout(rf@),
    {
        let election_timeout: usize = 15;
        let heartbeat_timeout: usize = 5;
        let randomized_election_timeout = random_in_range(election_timeout, 2 * election_timeout);
        Raft {
            me,
            peer_count,
            state: State::default(),
            msgs: Vec::new(),
            heartbeat_timeout,
            election_timeout,
            heartbeat_elapsed: 0,
            election_elapsed: 0,
            randomized_election_timeout,
        }
    }

    /// Sets the election counter to `election_timeout` and the heartbeat
    /// interval to `heartbeat_timeout`, where they are given.
    pub fn update_config(&mut self, election_timeout: Option<usize>, heartbeat_timeout: Option<usize>)
        ensures
            final(self)@ == (RaftView {
                election_elapsed: match election_timeout {
                    Some(t) => t,
                    None => old(self)@.election_elapsed,
                },
                heartbeat_timeout: match heartbeat_timeout {
                    Some(t) => t,
                    None => old(self)@.heartbeat_timeout,
                },
                ..old(self)@
            }),
    {
        if let Some(election_timeout) = election_timeout {
            self.election_elapsed = election_timeout;
        }
        if let Some(heartbeat_timeout) = heartbeat_timeout {
            self.heartbeat_timeout = heartbeat_timeout;
        }
    }

    /// Queues `message` for peer `to`.
    pub fn append_message(&mut self, to: usize, message: ProtoMessage)
        ensures
            final(self)@ == (RaftView { msgs: old(self)@.msgs.push(addressed(old(self).me, to as int, message)), ..old(self)@ }),
    {
        let from = self.me as u64;
        let to = to as u64;
        self.msgs.push(Message { from: Some(from), to: Some(to), message });
    }

    /// Becomes the leader of the current term.
    pub fn become_leader(&mut self)
        ensures
            final(self)@ == as_leader(old(self)@),
    {
        self.election_elapsed = 0;
        self.heartbeat_elapsed = 0;
        self.state.leader_id = Some(self.me as u64);
        self.state.state_type = StateType::Leader;
    }

    /// Becomes a candidate of the next term, voting for itself.
    pub fn become_candidate(&mut self)
        requires
            old(self).wf(),
            old(self).state.term < u64::MAX,
        ensures
            final(self).wf(),
            became_candidate(old(self)@, final(self)@),
    {
        self.randomized_election_timeout = random_in_range(self.election_timeout, 2 * self.election_timeout);
        self.state.state_type = StateType::Candidate;
        self.state.term = self.state.term + 1;
        self.state.leader_id = None;
        self.state.voted_for = Some(self.me as u64);
        self.state.votes.clear();
        self.state.votes.insert(self.me as u64, true);
        self.election_elapsed = 0;
        assert(self.state.votes@ == Map::<u64, bool>::empty().insert(old(self).me as u64, true));
    }

    /// Becomes a follower of `leader` in `term`.
    pub fn become_follower(&mut self, term: u64, leader: Option<u64>)
        requires
            old(self).wf(),
        ensures
            final(self).wf(),
            became_follower(old(self)@, final(self)@, term, leader),
    {
        self.randomized_election_timeout = random_in_range(self.election_timeout, 2 * self.election_timeout);
        self.state.state_type = StateType::Follower;
        self.state.term = term;
        self.state.leader_id = leader;
        self.election_elapsed = 0;
    }

    /// Sends a heartbeat to peer `to`.
    pub fn send_heartbeat(&mut self, to: usize)
        ensures
            final(self)@ == (RaftView { msgs: old(self)@.msgs.push(addressed(old(self).me, to as int, heartbeat(old(self)@))), ..old(self)@ }),
    {
        let term = self.state.term;
        let leader_id = self.me as u64;
        self.append_message(to, ProtoMessage::HeartbeatArgs(HeartbeatArgs { term, leader_id }));
    }

    /// Sends a heartbeat to every other peer.
    pub fn bcastbeat(&mut self)
        ensures
            beat(old(self)@, final(self)@),
    {
        let n = self.peer_count;
        let mut i: usize = 0;
        while i < n
            invariant
                i <= n,
                n == old(self).peer_count,
                self@ == (RaftView { msgs: old(self)@.msgs + broadcast(old(self).me, i as nat, heartbeat(old(self)@)), ..old(self)@ }),
            decreases n - i,
        {
            if i != self.me {
                self.send_heartbeat(i);
            }
            i = i + 1;
        }
    }

    /// Queues the vote request `args` for `server`.
    pub fn send_request_vote(&mut self, server: usize, args: RequestVoteArgs)
        ensures
            final(self)@ == (RaftView { msgs: old(self)@.msgs.push(addressed(old(self).me, server as int, ProtoMessage::RequestVoteArgs(args))), ..old(self)@ }),
    {
        self.append_message(server, ProtoMessage::RequestVoteArgs(args));
    }

    /// Asks every other peer for its vote; a peer alone becomes leader at once.
    pub fn request_vote(&mut self)
        ensures
            requested_votes(old(self)@, final(self)@),
    {
        if self.peer_count < 2 {
            self.become_leader();
        } else {
            let n = self.peer_count;
            let mut i: usize = 0;
            while i < n
                invariant
                    i <= n,
                    n == old(self).peer_count,
                    self@ == (RaftView { msgs: old(self)@.msgs + broadcast(old(self).me, i as nat, vote_request(old(self)@)), ..old(self)@ }),
                decreases n - i,
            {
                if i != self.me {
                    let term = self.state.term;
                    let candidate_id = self.me as u64;
                    self.send_request_vote(i, RequestVoteArgs { term, candidate_id });
                }
                i = i + 1;
            }
        }
    }

    /// Counts the granted and refused votes recorded so far.
    fn count_votes(&self) -> (r: (usize, usize))
        ensures
            r.0 == granted_count(self.state.votes@),
            r.1 == declined_count(self.state.votes@),
    {
        let mut agreed: usize = 0;
        let mut declined: usize = 0;
        let ghost m = self.state.votes@;
        let size = self.state.votes.len();
        let iter = self.state.votes.iter();
        let ghost all = iter.remaining().unref();
        proof {
            vstd::std_specs::hash::axiom_hashmap_view_finite_dom(self.state.votes);
            vstd::std_specs::hash::axiom_spec_hash_map_iter(&self.state.votes);
            assert(all.no_duplicates()) by {
                assert forall|i: int, j: int| 0 <= i < all.len() && 0 <= j < all.len() && i != j implies all[i] != all[j] by {
                    assert(iter.remaining()[i] != iter.remaining()[j]);
                }
            }
        }
        for kv in it: iter
            invariant
                m == self.state.votes@,
                it.seq().unref() == all,
                agreed == super::votes::count_votes(all.take(it.index()), true),
                declined == super::votes::count_votes(all.take(it.index()), false),
                agreed + declined == it.index(),
                all.len() == m.dom().len(),
                m.dom().len() == size,
                m.dom().finite(),
        {
            let ghost before = all.take(it.index());
            let ghost after = all.take(it.index() + 1);
            proof {
                assert(after.drop_last() =~= before);
            }
            if *kv.1 {
                agreed = agreed + 1;
            } else {
                declined = declined + 1;
            }
        }
        proof {
            assert(all.take(all.len() as int) =~= all);
            super::votes::lemma_count_votes(all, m);
        }
        (agreed, declined)
    }

    /// Counts the vote reply `m` of `from`: a majority of grants makes this
    /// peer leader, a majority of refusals a follower; a reply from a newer
    /// term makes it a follower of that term.
    pub fn handle_request_vote_reply(&mut self, from: u64, m: RequestVoteReply)
        requires
            old(self).wf(),
        ensures
            final(self).wf(),
            handled_vote_reply(old(self)@, final(self)@, from, m),
    {
        if m.term == self.state.term {
            self.state.votes.insert(from, m.vote_granted);
            if self.state.votes.len() > self.peer_count / 2 {
                let (agreed, declined) = self.count_votes();
                if agreed > self.peer_count / 2 {
                    self.become_leader();
                } else if declined > self.peer_count / 2 {
                    self.become_follower(m.term, None);
                }
            }
        } else if m.term > self.state.term {
            self.become_follower(m.term, None);
        }
    }

    /// Answers the vote request `m` of `from`: a request of a newer term first
    /// makes this peer a follower of that term; the vote goes to `from` unless
    /// this peer follows a leader or voted for another candidate in the term.
    pub fn handle_request_vote(&mut self, from: u64, m: RequestVoteArgs) -> (r: ProtoMessage)
        ensures
            handled_vote_request(old(self)@, final(self)@, from, m, r),
    {
        if m.term > self.state.term {
            self.state.term = m.term;
            self.state.voted_for = None;
            self.state.leader_id = None;
            self.state.state_type = StateType::Follower;
        }
        if self.state.leader_id.is_some() || (self.state.voted_for.is_some() && self.state.voted_for.unwrap() != from) {
            return ProtoMessage::RequestVoteReply(RequestVoteReply { term: self.state.term, vote_granted: false });
        }
        self.election_elapsed = 0;
        self.state.voted_for = Some(from);
        ProtoMessage::RequestVoteReply(RequestVoteReply { term: self.state.term, vote_granted: true })
    }

    /// Takes note of a heartbeat from a leader whose term is not older.
    pub fn update_state_from_heartbeat(&mut self, from: u64, args: &HeartbeatArgs)
        requires
            old(self).wf(),
        ensures
            final(self).wf(),
            heard_heartbeat(old(self)@, final(self)@, *args),
    {
        self.election_elapsed = 0;
        if args.term > self.state.term {
            self.become_follower(args.term, Some(args.leader_id));
        }
    }

    /// The reply to a heartbeat.
    pub fn handle_heartbeat(&mut self, from: u64, m: HeartbeatArgs) -> (r: ProtoMessage)
        ensures
            final(self)@ == old(self)@,
            r == heartbeat_reply(old(self)@),
    {
        ProtoMessage::HeartbeatReply(HeartbeatReply { term: self.state.term, commited_index: 0 })
    }

    /// Takes note of a heartbeat reply of the current term.
    pub fn handle_heartbeat_reply(&mut self, m: HeartbeatReply)
        ensures
            final(self)@ == old(self)@,
    {
    }

    /// The reply to a log replication request.
    pub fn handle_append_entries(&mut self, args: AppendEntriesArgs) -> (r: ProtoMessage)
        ensures
            final(self)@ == old(self)@,
            r == ProtoMessage::AppendEntriesReply(AppendEntriesReply { term: old(self).state.term, success: true }),
    {
        ProtoMessage::AppendEntriesReply(AppendEntriesReply { term: self.state.term, success: true })
    }

    /// Starts an election: becomes a candidate of the next term and asks the
    /// other peers for their votes.
    fn start_election(&mut self)
        requires
            old(self).wf(),
            old(self).state.term < u64::MAX,
        ensures
            final(self).wf(),
            started_election(old(self)@, final(self)@),
    {
        self.become_candidate();
        let ghost mid = self@;
        self.request_vote();
        assert(became_candidate(old(self)@, mid) && requested_votes(mid, self@));
    }

    /// The reply to the vote request `args`: one of an older term is refused.
    fn answer_vote_request(&mut self, args: RequestVoteArgs) -> (r: Option<ProtoMessage>)
        ensures
            answered_vote_request(old(self)@, final(self)@, args, r),
    {
        if args.term >= self.state.term {
            let reply = self.handle_request_vote(args.candidate_id, args);
            Some(reply)
        } else {
            Some(ProtoMessage::RequestVoteReply(RequestVoteReply { term: self.state.term, vote_granted: false }))
        }
    }

    /// Consumes `msg` and returns the reply owed to its sender, if any.
    pub fn step(&mut self, msg: Message) -> (r: Option<ProtoMessage>)
        requires
            old(self).wf(),
            can_step(old(self)@, msg),
        ensures
            final(self).wf(),
            stepped(old(self)@, final(self)@, msg, r),
    {
        let from = msg.from;
        match self.state.state_type {
            StateType::Follower => match msg.message {
                ProtoMessage::RequestVoteArgs(args) => self.answer_vote_request(args),
                ProtoMessage::RequestVoteReply(reply) => {
                    if reply.term > self.state.term {
                        self.become_follower(reply.term, None);
                    }
                    None
                },
                ProtoMessage::MsgHup => {
                    self.start_election();
                    None
                },
                ProtoMessage::HeartbeatArgs(args) => {
                    if args.term >= self.state.term {
                        self.update_state_from_heartbeat(args.leader_id, &args);
                    }
                    Some(self.handle_heartbeat(args.leader_id, args))
                },
                _ => None,
            },
            StateType::Candidate => match msg.message {
                ProtoMessage::RequestVoteArgs(args) => self.answer_vote_request(args),
                ProtoMessage::HeartbeatArgs(args) => {
                    if args.term >= self.state.term {
                        self.become_follower(args.term, Some(args.leader_id));
                    }
                    Some(self.handle_heartbeat(args.leader_id, args))
                },
                ProtoMessage::RequestVoteReply(reply) => {
                    if reply.term >= self.state.term {
                        self.handle_request_vote_reply(from.unwrap(), reply);
                    }
                    None
                },
                ProtoMessage::MsgHup => {
                    self.start_election();
                    None
                },
                ProtoMessage::AppendEntriesArgs(args) => {
                    if args.term >= self.state.term {
                        self.become_follower(args.term, Some(args.leader_id));
                        Some(self.handle_append_entries(args))
                    } else {
                        Some(ProtoMessage::AppendEntriesReply(AppendEntriesReply { term: self.state.term, success: false }))
                    }
                },
                _ => None,
            },
            StateType::Leader => match msg.message {
                ProtoMessage::RequestVoteArgs(args) => self.answer_vote_request(args),
                ProtoMessage::MsgBeat => {
                    self.bcastbeat();
                    None
                },
                ProtoMessage::HeartbeatArgs(args) => {
                    if args.term > self.state.term {
                        self.update_state_from_heartbeat(args.leader_id, &args);
                        Some(self.handle_heartbeat(args.leader_id, args))
                    } else {
                        None
                    }
                },
                ProtoMessage::HeartbeatReply(reply) => {
                    if reply.term == self.state.term {
                        self.handle_heartbeat_reply(reply);
                    } else if reply.term > self.state.term {
                        self.become_follower(reply.term, None);
                    }
                    None
                },
                ProtoMessage::RequestVoteReply(reply) => {
                    if reply.term > self.state.term {
                        self.become_follower(reply.term, None);
                    }
                    None
                },
                _ => None,
            },
        }
    }

    /// Advances the logical clock by one tick: a leader sends heartbeats when
    /// its heartbeat interval is up, others start an election when their
    /// election timeout is up.
    pub fn tick(&mut self)
        requires
            old(self).wf(),
            old(self).state.term < u64::MAX,
            old(self).election_elapsed < usize::MAX,
        ensures
            final(self).wf(),
            final(self).election_elapsed < usize::MAX,
            ticked(old(self)@, final(self)@),
    {
        match self.state.state_type {
            StateType::Leader => {
                self.heartbeat_elapsed = self.heartbeat_elapsed + 1;
                if self.heartbeat_elapsed >= self.heartbeat_timeout {
                    self.bcastbeat();
                    self.heartbeat_elapsed = 0;
                }
            },
            _ => {
                self.election_elapsed = self.election_elapsed + 1;
                if self.election_elapsed >= self.randomized_election_timeout {
                    let r = self.step(Message { message: ProtoMessage::MsgHup, from: None, to: None });
                }
            },
        }
    }
}

} // verus!
