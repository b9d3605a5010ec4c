use vstd::prelude::*;

use super::log::{entry_views, proto_views, LogEntry, RaftLogWithSnapShot, SnapshotFile};
use crate::buffers::{byte_views, clone_byte_strings};
use super::quorum::{median_desc, mid};
use super::rpc::{
    AppendEntriesArgs, AppendEntriesReply, InstallSnapshotArgs, InstallSnapshotReply, PersistedStatus,
    ProtoEntry, RequestVoteArgs, RequestVoteReply, Snapshot,
};

verus! {

/// The role a peer plays in its current term.
#[derive(Clone, Copy, PartialEq, Eq, Debug, Structural)]
pub enum RaftRole {
    Leader,
    Candidate,
    Follower,
}

/// A message to the replicated service: a committed command, or, with
/// `command_valid` unset, one command of an installed snapshot.
#[derive(Debug)]
pub struct ApplyMsg {
    pub command_valid: bool,
    pub command: Vec<u8>,
    pub command_index: u64,
}

impl View for ApplyMsg {
    type V = (bool, Seq<u8>, u64);

    open spec fn view(&self) -> (bool, Seq<u8>, u64) {
        (self.command_valid, self.command@, self.command_index)
    }
}

/// State of a raft peer.
#[derive(Default, Clone, Copy, Debug)]
pub struct State {
    pub term: u64,
    pub is_leader: bool,
}

impl State {
    /// The current term of this peer.
    pub fn term(&self) -> (r: u64)
        ensures
            r == self.term,
    {
        self.term
    }

    /// Whether this peer believes it is the leader.
    pub fn is_leader(&self) -> (r: bool)
        ensures
            r == self.is_leader,
    {
        self.is_leader
    }
}

/// What a leader knows of each follower: the next entry to send it, and the
/// last entry known to be replicated on it.
#[derive(Debug)]
pub struct LeaderState {
    pub next_index: Vec<u64>,
    pub match_index: Vec<u64>,
}

/// What a step asks of the world around the peer.
#[derive(Debug)]
pub struct Effects {
    /// The persistent state changed: write it to stable storage.
    pub persist: bool,
    /// Messages to hand to the service, in order.
    pub apply: Vec<ApplyMsg>,
    /// Heard from a valid leader, or granted a vote: restart the election
    /// timer.
    pub reset_timer: bool,
    /// The peer stepped down: it is a follower now and needs a fresh
    /// election timer.
    pub to_follower: bool,
    /// A leader took a new entry: wake its replication.
    pub replicate: bool,
}

impl Effects {
    /// No effect.
    pub fn none() -> (r: Effects)
        ensures
            !r.persist,
            r.apply@.len() == 0,
            !r.reset_timer,
            !r.to_follower,
            !r.replicate,
    {
        Effects { persist: false, apply: Vec::new(), reset_timer: false, to_follower: false, replicate: false }
    }

    /// The effect of a change of the persistent state alone: write it to
    /// stable storage.
    pub fn persist_only() -> (r: Effects)
        ensures
            r.persist,
            r.apply@.len() == 0,
            !r.reset_timer,
            !r.to_follower,
            !r.replicate,
    {
        Effects { persist: true, apply: Vec::new(), reset_timer: false, to_follower: false, replicate: false }
    }
}

/// The views of a sequence of messages.
pub open spec fn apply_views(s: Seq<ApplyMsg>) -> Seq<(bool, Seq<u8>, u64)> {
    s.map_values(|m: ApplyMsg| m@)
}

/// The messages applying entries `from..=to` of `log`.
pub open spec fn applied(log: RaftLogWithSnapShot, from: int, to: int) -> Seq<(bool, Seq<u8>, u64)> {
    Seq::new(
        (to - from + 1) as nat,
        |k: int| (true, log.commands@[log.pos(from + k)].data@, (from + k) as u64),
    )
}

/// The messages replaying the commands of a snapshot.
pub open spec fn replayed(commands: Seq<Vec<u8>>) -> Seq<(bool, Seq<u8>, u64)> {
    commands.map_values(|c: Vec<u8>| (false, c@, 0u64))
}

/// A single Raft peer.
pub struct Raft {
    /// This peer's index among its peers.
    pub me: usize,
    /// The number of peers, this one included.
    pub peer_count: usize,
    pub current_role: RaftRole,
    pub term: u64,
    pub voted_for: Option<usize>,
    pub log: RaftLogWithSnapShot,
    pub commit_index: u64,
    pub last_applied: u64,
    pub leader_state: Option<LeaderState>,
    /// The size of the persisted state when it was last written.
    pub log_size: usize,
}

impl Raft {
    /// The invariant of a peer: its log fits in memory, what the snapshot
    /// covers was applied, what was applied was committed, what was
    /// committed is in the log, and a leader tracks every peer.
    pub open spec fn wf(&self) -> bool {
        &&& self.wf_shape()
        &&& self.log.last_included_index <= self.last_applied
        &&& self.last_applied <= self.commit_index
        &&& self.commit_index <= self.log.log_len()
    }

    /// The invariant of a peer but for where its applied index stands.
    pub open spec fn wf_shape(&self) -> bool {
        &&& self.log.wf()
        &&& self.me < self.peer_count
        &&& self.current_role == RaftRole::Leader ==> self.leader_state is Some
        &&& self.leader_state matches Some(ls) ==> {
            &&& ls.next_index@.len() == self.peer_count
            &&& ls.match_index@.len() == self.peer_count
            &&& forall|i: int| 0 <= i < ls.next_index@.len() ==> #[trigger] ls.next_index@[i] >= 1
        }
    }

    /// The match indices a leader keeps.
    pub open spec fn matches(&self) -> Seq<u64> {
        self.leader_state->0.match_index@
    }

    /// The next indices a leader keeps.
    pub open spec fn nexts(&self) -> Seq<u64> {
        self.leader_state->0.next_index@
    }

    /// The highest index replicated on a majority, by the leader's match
    /// indices: the leader holds every entry, so it is the middle of the
    /// other peers' match indices.
    pub open spec fn commit_quorum(&self) -> u64 {
        quorum_of(self.matches(), self.me as int)
    }

    /// The index of the last entry.
    pub open spec fn last_index(&self) -> int {
        self.log.log_len()
    }

    /// The term of the last entry.
    pub open spec fn last_term(&self) -> u64 {
        self.log.term_of(self.log.log_len())
    }

    /// A fresh peer `me` among `peer_count`: a follower in term 0 with an
    /// empty log that voted for nobody.
    pub fn new(me: usize, peer_count: usize) -> (rf: Raft)
        requires
            me < peer_count,
        ensures
            rf.wf(),
            rf.me == me,
            rf.peer_count == peer_count,
            rf.current_role == RaftRole::Follower,
            rf.term == 0,
            rf.voted_for is None,
            rf.log.last_included_index == 0,
            rf.log.last_included_term == 0,
            rf.log.commands@.len() == 0,
            rf.log.state_machine_state.commands@.len() == 0,
            rf.commit_index == 0,
            rf.last_applied == 0,
            rf.leader_state is None,
            rf.log_size == 0,
    {
        Raft {
            me,
            peer_count,
            current_role: RaftRole::Follower,
            term: 0,
            voted_for: None,
            log: RaftLogWithSnapShot::default(),
            commit_index: 0,
            last_applied: 0,
            leader_state: None,
            log_size: 0,
        }
    }

    /// Whether this peer is the leader.
    pub fn is_leader(&self) -> (r: bool)
        ensures
            r == (self.current_role == RaftRole::Leader),
    {
        self.current_role == RaftRole::Leader
    }

    /// The index of the last entry, which is the length of the log.
    pub fn last_log_index(&self) -> (r: u64)
        requires
            self.wf(),
        ensures
            r == self.last_index(),
    {
        self.log.len() as u64
    }

    /// The term of the last entry; `0` for an empty log.
    pub fn last_log_term(&self) -> (r: u64)
        requires
            self.wf(),
        ensures
            r == self.last_term(),
    {
        self.log.last_term()
    }

    /// A new entry holding `data` in the current term.
    pub fn make_log(&self, data: Vec<u8>) -> (r: LogEntry)
        ensures
            r.data == data,
            r.term == self.term,
    {
        LogEntry::new(data, self.term)
    }

    /// The vote request this peer sends as a candidate.
    pub fn make_request_vote_args(&self) -> (r: RequestVoteArgs)
        requires
            self.wf(),
        ensures
            r.term == self.term,
            r.candidate_id == self.me,
            r.last_log_index == self.last_index(),
            r.last_log_term == self.last_term(),
    {
        RequestVoteArgs {
            term: self.term,
            candidate_id: self.me as u64,
            last_log_index: self.last_log_index(),
            last_log_term: self.last_log_term(),
        }
    }

    /// Moves to `new_term`, which must be greater than the current term, so
    /// that the term only grows; the new term forgets the vote. The
    /// persistent state changed, and the effects ask to write it.
    pub fn update_term(&mut self, new_term: u64) -> (e: Effects)
        requires
            old(self).term < new_term,
        ensures
            e.persist && e.apply@.len() == 0 && !e.reset_timer && !e.to_follower && !e.replicate,
            final(self).term == new_term,
            final(self).voted_for is None,
            final(self).current_role == old(self).current_role,
            final(self).log == old(self).log,
            final(self).commit_index == old(self).commit_index,
            final(self).last_applied == old(self).last_applied,
            final(self).leader_state == old(self).leader_state,
            final(self).me == old(self).me,
            final(self).peer_count == old(self).peer_count,
            final(self).log_size == old(self).log_size,
    {
        self.voted_for = None;
        self.term = new_term;
        Effects::persist_only()
    }

    /// Records a vote for `candidate`; a peer votes at most once per term.
    /// The persistent state changed, and the effects ask to write it.
    pub fn vote_for(&mut self, candidate: usize) -> (e: Effects)
        requires
            old(self).voted_for matches Some(v) ==> v == candidate,
        ensures
            e.persist && e.apply@.len() == 0 && !e.reset_timer && !e.to_follower && !e.replicate,
            final(self).voted_for == Some(candidate),
            final(self).term == old(self).term,
            final(self).current_role == old(self).current_role,
            final(self).log == old(self).log,
            final(self).commit_index == old(self).commit_index,
            final(self).last_applied == old(self).last_applied,
            final(self).leader_state == old(self).leader_state,
            final(self).me == old(self).me,
            final(self).peer_count == old(self).peer_count,
            final(self).log_size == old(self).log_size,
    {
        self.voted_for = Some(candidate);
        Effects::persist_only()
    }

    /// Whether to grant the vote `args` asks for: the request is not from
    /// an older term, this peer has not voted for another candidate, and the
    /// candidate's log is at least as up to date as this peer's.
    pub fn check_grant(&self, args: &RequestVoteArgs) -> (r: bool)
        requires
            self.wf(),
        ensures
            r == grants(*self, *args),
    {
        if args.term < self.term {
            return false;
        }
        let self_can_vote = match self.voted_for {
            None => true,
            Some(v) => v as u64 == args.candidate_id,
        };
        let last_term = self.last_log_term();
        let self_should_vote = (args.last_log_term > last_term) || (args.last_log_term == last_term
            && args.last_log_index >= self.last_log_index());
        self_can_vote && self_should_vote
    }

    /// Learns of `new_term` from a message. A term not older than this
    /// peer's is adopted; a leader that learns of a newer term, or a
    /// candidate that learns of any current term, steps down. Returns the
    /// effects: whether the persistent state changed and whether the peer
    /// stepped down.
    pub fn check_term(&mut self, new_term: u64) -> (e: Effects)
        requires
            old(self).wf(),
        ensures
            final(self).wf(),
            final(self).term == (if new_term >= old(self).term { new_term } else { old(self).term }),
            final(self).voted_for == (if new_term > old(self).term { None } else { old(self).voted_for }),
            e.to_follower == steps_down(*old(self), new_term),
            final(self).current_role == (if e.to_follower { RaftRole::Follower } else { old(self).current_role }),
            e.persist == (new_term > old(self).term),
            e.apply@.len() == 0,
            !e.reset_timer,
            final(self).log == old(self).log,
            final(self).commit_index == old(self).commit_index,
            final(self).last_applied == old(self).last_applied,
            final(self).leader_state == old(self).leader_state,
            final(self).me == old(self).me,
            final(self).peer_count == old(self).peer_count,
            final(self).log_size == old(self).log_size,
    {
        let mut e = Effects::none();
        if new_term >= self.term {
            let old_term = self.term;
            let leader_to_follower = self.is_leader() && new_term > old_term;
            let candidate_to_follower = self.current_role == RaftRole::Candidate;
            if new_term > old_term {
                e = self.update_term(new_term);
            }
            if leader_to_follower || candidate_to_follower {
                self.current_role = RaftRole::Follower;
                e.to_follower = true;
            }
        }
        e
    }
}

impl Raft {
    /// Where the run of entries of `term` that ends at entry `from` starts:
    /// the entries from the result to `from` all have `term` and follow the
    /// snapshot, and the entry before the result does not, or the snapshot
    /// covers it.
    pub fn get_term_starts_at(&self, term: u64, from: usize) -> (r: usize)
        requires
            self.wf(),
            from < usize::MAX,
        ensures
            1 <= r <= from + 1,
            forall|k: int| r <= k <= from ==> !self.log.covers(k) && self.log.term_of(k) == term,
            self.log.covers(r - 1) || self.log.term_of(r - 1) != term,
    {
        let mut n = from;
        while self.log.term_at(n) == term && !self.log.is_in_snapshot(n)
            invariant
                self.wf(),
                n <= from < usize::MAX,
                forall|k: int| n < k <= from ==> !self.log.covers(k) && self.log.term_of(k) == term,
            decreases n,
        {
            n -= 1;
        }
        n + 1
    }

    /// Compares the entries that a leader sends to be placed from entry
    /// `base` on with this peer's log, and cuts the log at the first entry
    /// whose term differs. Returns how many leading entries agree. The cut
    /// cannot fall inside the snapshot; the peer stays well formed when the
    /// log still reaches the commit index, as it does when the cut falls
    /// after it, which a leader that never contradicts a committed entry
    /// ensures.
    pub fn check_and_trunc_log(&mut self, base: usize, entries: &[LogEntry]) -> (r: usize)
        requires
            old(self).wf(),
            base + entries@.len() <= usize::MAX,
            forall|k: int| #[trigger] diverges_at(old(self).log, base as int, terms_of(entries@), k) ==> !old(self).log.covers(base + k),
        ensures
            final(self).wf_shape(),
            final(self).wf() <==> final(self).commit_index <= final(self).log.log_len(),
            r < entries@.len() && base + r > old(self).commit_index ==> final(self).wf(),
            r == entries@.len() ==> final(self).wf(),
            r <= entries@.len(),
            agrees(old(self).log, base as int, terms_of(entries@), r as int),
            r < entries@.len() ==> diverges_at(old(self).log, base as int, terms_of(entries@), r as int),
            final(self).log.commands@ == (if r < entries@.len() && old(self).log.holds(base + r) {
                old(self).log.commands@.take(old(self).log.pos(base + r))
            } else {
                old(self).log.commands@
            }),
            final(self).log.last_included_index == old(self).log.last_included_index,
            final(self).log.last_included_term == old(self).log.last_included_term,
            final(self).log.state_machine_state == old(self).log.state_machine_state,
            final(self).term == old(self).term,
            final(self).voted_for == old(self).voted_for,
            final(self).current_role == old(self).current_role,
            final(self).commit_index == old(self).commit_index,
            final(self).last_applied == old(self).last_applied,
            final(self).leader_state == old(self).leader_state,
            final(self).me == old(self).me,
            final(self).peer_count == old(self).peer_count,
            final(self).log_size == old(self).log_size,
    {
        let ghost terms = terms_of(entries@);
        let mut offset: usize = 0;
        while offset < entries.len()
            invariant
                *self == *old(self),
                self.wf(),
                base + entries@.len() <= usize::MAX,
                terms == terms_of(entries@),
                offset <= entries@.len(),
                agrees(self.log, base as int, terms, offset as int),
                forall|k: int| #[trigger] diverges_at(self.log, base as int, terms, k) ==> !self.log.covers(base + k),
            decreases entries@.len() - offset,
        {
            if self.log.term_at(base + offset) != entries[offset].term {
                assert(diverges_at(self.log, base as int, terms, offset as int));
                self.log.truncate(base + offset);
                return offset;
            }
            offset += 1;
        }
        entries.len()
    }

    /// The message applying entry `index`.
    pub fn make_apply_message(&self, index: u64) -> (r: ApplyMsg)
        requires
            self.wf(),
            self.log.last_included_index < index <= self.log.log_len(),
        ensures
            r@ == (true, self.log.commands@[self.log.pos(index as int)].data@, index),
    {
        match self.log.get(index as usize) {
            Some(entry) => {
                let command = entry.data.clone();
                assert(command@ =~= entry.data@);
                ApplyMsg { command_valid: true, command, command_index: index }
            },
            None => vstd::pervasive::unreached(),
        }
    }

    /// Applies the committed entries not applied yet: returns their
    /// messages, in order, and marks them applied.
    pub fn apply_logs(&mut self) -> (msgs: Vec<ApplyMsg>)
        requires
            old(self).wf(),
        ensures
            final(self).wf(),
            apply_views(msgs@) == applied(old(self).log, old(self).last_applied + 1, old(self).commit_index as int),
            final(self).last_applied == old(self).commit_index,
            final(self).term == old(self).term,
            final(self).voted_for == old(self).voted_for,
            final(self).current_role == old(self).current_role,
            final(self).log == old(self).log,
            final(self).commit_index == old(self).commit_index,
            final(self).leader_state == old(self).leader_state,
            final(self).me == old(self).me,
            final(self).peer_count == old(self).peer_count,
            final(self).log_size == old(self).log_size,
    {
        let mut msgs: Vec<ApplyMsg> = Vec::new();
        let mut i = self.last_applied;
        while i < self.commit_index
            invariant
                *self == *old(self),
                self.wf(),
                self.last_applied <= i <= self.commit_index,
                apply_views(msgs@) == applied(self.log, self.last_applied + 1, i as int),
            decreases self.commit_index - i,
        {
            i += 1;
            let m = self.make_apply_message(i);
            let ghost before = msgs@;
            msgs.push(m);
            assert(apply_views(msgs@) =~= apply_views(before).push(m@));
            assert(applied(self.log, self.last_applied + 1, i as int) =~= applied(self.log, self.last_applied + 1, i - 1).push(m@));
        }
        self.last_applied = self.commit_index;
        msgs
    }

    /// Replays the commands of the snapshot to the service and marks its
    /// entries applied.
    pub fn apply_snapshot(&mut self) -> (msgs: Vec<ApplyMsg>)
        requires
            old(self).wf_shape(),
            old(self).log.last_included_index <= old(self).commit_index <= old(self).log.log_len(),
        ensures
            final(self).wf(),
            apply_views(msgs@) == replayed(old(self).log.state_machine_state.commands@),
            final(self).last_applied == old(self).log.last_included_index,
            final(self).term == old(self).term,
            final(self).voted_for == old(self).voted_for,
            final(self).current_role == old(self).current_role,
            final(self).log == old(self).log,
            final(self).commit_index == old(self).commit_index,
            final(self).leader_state == old(self).leader_state,
            final(self).me == old(self).me,
            final(self).peer_count == old(self).peer_count,
            final(self).log_size == old(self).log_size,
    {
        let mut msgs: Vec<ApplyMsg> = Vec::new();
        let ghost commands = self.log.state_machine_state.commands@;
        let mut k: usize = 0;
        while k < self.log.state_machine_state.commands.len()
            invariant
                *self == *old(self),
                commands == self.log.state_machine_state.commands@,
                k <= commands.len(),
                apply_views(msgs@) == replayed(commands.take(k as int)),
            decreases commands.len() - k,
        {
            let command = self.log.state_machine_state.commands[k].clone();
            assert(command@ =~= commands[k as int]@);
            let m = ApplyMsg { command_valid: false, command, command_index: 0 };
            let ghost before = msgs@;
            msgs.push(m);
            assert(apply_views(msgs@) =~= apply_views(before).push(m@));
            assert(commands.take(k + 1) =~= commands.take(k as int).push(commands[k as int]));
            assert(replayed(commands.take(k + 1)) =~= replayed(commands.take(k as int)).push(m@));
            k += 1;
        }
        assert(commands.take(k as int) =~= commands);
        self.last_applied = self.log.last_included_index;
        msgs
    }
}

/// Why a proposal was refused.
#[derive(Debug, Clone, Copy, PartialEq, Eq, Structural)]
pub enum Error {
    /// Only the leader takes proposals.
    NotLeader,
}

/// A request a leader sends to one follower.
#[derive(Debug)]
pub enum PeerRequest {
    AppendEntries(AppendEntriesArgs),
    InstallSnapshot(InstallSnapshotArgs),
}

/// The middle of the match indices of every peer but `me`.
pub open spec fn quorum_of(matches: Seq<u64>, me: int) -> u64 {
    median_desc(matches.remove(me))
}

/// Where a leader moves its commit index to when its match indices reach
/// `q`: to `q` if that is past the commit index and the entry there is of
/// the current term (a leader never commits an entry of an older term by
/// counting replicas); else nowhere.
pub open spec fn commit_target(log: RaftLogWithSnapShot, term: u64, commit_index: u64, q: u64) -> u64 {
    if q > commit_index && log.term_of(q as int) == term {
        q
    } else {
        commit_index
    }
}

/// The commit step of a leader from `old` to `new` with effects `e`, when
/// its match indices reach `q`: the commit index moves to the target, and
/// the newly committed entries are persisted and applied.
pub open spec fn committed_to(old: Raft, new: Raft, e: Effects, q: u64) -> bool {
    let target = commit_target(old.log, old.term, old.commit_index, q);
    &&& new.commit_index == target
    &&& e.persist == (target != old.commit_index)
    &&& if target != old.commit_index {
        &&& new.last_applied == target
        &&& apply_views(e.apply@) == applied(old.log, old.last_applied + 1, target as int)
    } else {
        &&& new.last_applied == old.last_applied
        &&& e.apply@.len() == 0
    }
    &&& !e.reset_timer
    &&& !e.to_follower
    &&& new.term == old.term
    &&& new.voted_for == old.voted_for
    &&& new.current_role == old.current_role
    &&& new.log == old.log
    &&& new.me == old.me
    &&& new.peer_count == old.peer_count
    &&& new.log_size == old.log_size
}

impl Raft {
    /// `r` is the snapshot installation this leader sends.
    pub open spec fn is_install_args(&self, r: InstallSnapshotArgs) -> bool {
        &&& r.term == self.term
        &&& r.leader_id == self.me
        &&& r.last_included_term == self.log.last_included_term
        &&& r.last_included_index == self.log.last_included_index
        &&& byte_views(r.data@) == byte_views(self.log.state_machine_state.commands@)
    }

    /// `r` is the replication request this leader sends to `server`.
    pub open spec fn is_append_args(&self, server: int, r: AppendEntriesArgs) -> bool {
        let next = self.nexts()[server] as int;
        &&& r.term == self.term
        &&& r.leader_id == self.me
        &&& r.prev_log_index == next - 1
        &&& r.prev_log_term == self.log.term_of(next - 1)
        &&& proto_views(r.entries@) == self.log.entries().subrange(self.log.pos(next), self.log.commands@.len() as int)
        &&& r.leader_commit == self.commit_index
    }

    /// `r` is the request this leader sends to `server`: the snapshot if
    /// the entry it needs next is in the snapshot, else the entries from it
    /// on.
    pub open spec fn is_request_for(&self, server: int, r: PeerRequest) -> bool {
        if self.log.covers(self.nexts()[server] as int) {
            r matches PeerRequest::InstallSnapshot(a) && self.is_install_args(a)
        } else {
            r matches PeerRequest::AppendEntries(a) && self.is_append_args(server, a)
        }
    }

    /// The highest index replicated on a majority of the peers.
    pub fn next_commit_index(&self) -> (r: u64)
        requires
            self.wf(),
            self.current_role == RaftRole::Leader,
            self.peer_count >= 2,
        ensures
            r == self.commit_quorum(),
    {
        match &self.leader_state {
            Some(ls) => {
                let mut valid_state = ls.match_index.clone();
                assert(valid_state@ =~= ls.match_index@);
                valid_state.remove(self.me);
                mid(&mut valid_state)
            },
            None => vstd::pervasive::unreached(),
        }
    }

    /// A leader commits what a majority has replicated, as far as the entry
    /// there is of its own term, and applies what it committed.
    pub fn leader_commit_logs(&mut self) -> (e: Effects)
        requires
            old(self).wf(),
            old(self).current_role == RaftRole::Leader,
            old(self).peer_count >= 2,
            old(self).commit_quorum() <= old(self).log.log_len(),
        ensures
            final(self).wf(),
            committed_to(*old(self), *final(self), e, old(self).commit_quorum()),
            final(self).leader_state == old(self).leader_state,
    {
        let next = self.next_commit_index();
        if next > self.commit_index && self.log.term_at(next as usize) == self.term {
            self.commit_index = next;
            let apply = self.apply_logs();
            Effects { persist: true, apply, reset_timer: false, to_follower: false, replicate: false }
        } else {
            Effects::none()
        }
    }

    /// Proposes `command`, encoded, for the log. A leader appends it in its
    /// term, returns where it will stand if it is ever committed and the
    /// term, and asks to wake its replication; any other peer refuses.
    pub fn start(&mut self, command: Vec<u8>) -> (r: (Result<(u64, u64), Error>, Effects))
        requires
            old(self).wf(),
            old(self).log.log_len() + 2 < usize::MAX,
        ensures
            final(self).wf(),
            old(self).current_role == RaftRole::Leader ==> {
                &&& r.0 == Ok::<(u64, u64), Error>(((old(self).log.log_len() + 1) as u64, old(self).term))
                &&& final(self).log.commands@ == old(self).log.commands@.push(LogEntry { data: command, term: old(self).term })
            },
            old(self).current_role != RaftRole::Leader ==> r.0 == Err::<(u64, u64), Error>(Error::NotLeader) && final(self).log == old(self).log,
            r.1.replicate == (old(self).current_role == RaftRole::Leader),
            !r.1.persist && r.1.apply@.len() == 0 && !r.1.reset_timer && !r.1.to_follower,
            final(self).log.last_included_index == old(self).log.last_included_index,
            final(self).log.last_included_term == old(self).log.last_included_term,
            final(self).log.state_machine_state == old(self).log.state_machine_state,
            final(self).term == old(self).term,
            final(self).voted_for == old(self).voted_for,
            final(self).current_role == old(self).current_role,
            final(self).commit_index == old(self).commit_index,
            final(self).last_applied == old(self).last_applied,
            final(self).leader_state == old(self).leader_state,
            final(self).me == old(self).me,
            final(self).peer_count == old(self).peer_count,
            final(self).log_size == old(self).log_size,
    {
        if !self.is_leader() {
            return (Err(Error::NotLeader), Effects::none());
        }
        let entry = self.make_log(command);
        self.log.push(entry);
        let index = self.last_log_index();
        let mut e = Effects::none();
        e.replicate = true;
        (Ok((index, self.term)), e)
    }

    /// The leader state of a new leader: it will next send every follower
    /// the entry after its last one, and knows of no entry replicated.
    pub fn new_leader_state(&self) -> (ls: LeaderState)
        requires
            self.wf(),
        ensures
            ls.next_index@ == Seq::new(self.peer_count as nat, |i: int| (self.last_index() + 1) as u64),
            ls.match_index@ == Seq::new(self.peer_count as nat, |i: int| 0u64),
    {
        let next = self.last_log_index() + 1;
        let mut next_index: Vec<u64> = Vec::new();
        let mut match_index: Vec<u64> = Vec::new();
        let mut i: usize = 0;
        while i < self.peer_count
            invariant
                i <= self.peer_count,
                next == self.last_index() + 1,
                next_index@ == Seq::new(i as nat, |k: int| next),
                match_index@ == Seq::new(i as nat, |k: int| 0u64),
            decreases self.peer_count - i,
        {
            next_index.push(next);
            match_index.push(0);
            i += 1;
            assert(next_index@ =~= Seq::new(i as nat, |k: int| next));
            assert(match_index@ =~= Seq::new(i as nat, |k: int| 0u64));
        }
        LeaderState { next_index, match_index }
    }

    /// A candidate that won its election takes the lead: it becomes leader
    /// with a fresh leader state.
    pub fn become_leader(&mut self)
        requires
            old(self).wf(),
        ensures
            final(self).wf(),
            final(self).current_role == RaftRole::Leader,
            final(self).nexts() == Seq::new(old(self).peer_count as nat, |i: int| (old(self).last_index() + 1) as u64),
            final(self).matches() == Seq::new(old(self).peer_count as nat, |i: int| 0u64),
            final(self).term == old(self).term,
            final(self).voted_for == old(self).voted_for,
            final(self).log == old(self).log,
            final(self).commit_index == old(self).commit_index,
            final(self).last_applied == old(self).last_applied,
            final(self).me == old(self).me,
            final(self).peer_count == old(self).peer_count,
            final(self).log_size == old(self).log_size,
    {
        let ls = self.new_leader_state();
        self.leader_state = Some(ls);
        self.current_role = RaftRole::Leader;
    }

    /// A peer that is no longer leader drops its leader state.
    pub fn clear_leader_state(&mut self)
        requires
            old(self).wf(),
            old(self).current_role != RaftRole::Leader,
        ensures
            final(self).wf(),
            final(self).leader_state is None,
            final(self).current_role == old(self).current_role,
            final(self).term == old(self).term,
            final(self).voted_for == old(self).voted_for,
            final(self).log == old(self).log,
            final(self).commit_index == old(self).commit_index,
            final(self).last_applied == old(self).last_applied,
            final(self).me == old(self).me,
            final(self).peer_count == old(self).peer_count,
            final(self).log_size == old(self).log_size,
    {
        self.leader_state = None;
    }

    /// Whether follower `server` is so far behind that the entry to send it
    /// next is in the snapshot, so that it needs the snapshot.
    pub fn need_install_snapshot(&self, server: usize) -> (r: bool)
        requires
            self.wf(),
            self.current_role == RaftRole::Leader,
            server < self.peer_count,
            self.nexts()[server as int] <= usize::MAX,
        ensures
            r == self.log.covers(self.nexts()[server as int] as int),
    {
        match &self.leader_state {
            Some(ls) => self.log.is_in_snapshot(ls.next_index[server] as usize),
            None => vstd::pervasive::unreached(),
        }
    }

    /// The snapshot installation a leader sends to a follower far behind.
    pub fn make_install_snapshot_args(&self) -> (r: InstallSnapshotArgs)
        requires
            self.wf(),
        ensures
            self.is_install_args(r),
    {
        InstallSnapshotArgs {
            term: self.term,
            leader_id: self.me as u64,
            last_included_term: self.log.last_included_term,
            last_included_index: self.log.last_included_index,
            data: clone_byte_strings(&self.log.state_machine_state.commands),
        }
    }

    /// The replication request a leader sends to follower `server`: the
    /// entries from the next one it needs on, with the entry before them.
    pub fn make_append_entries_for(&self, server: usize) -> (r: AppendEntriesArgs)
        requires
            self.wf(),
            self.leader_state is Some,
            server < self.peer_count,
            !self.log.covers(self.nexts()[server as int] as int),
            self.nexts()[server as int] <= self.last_index() + 1,
        ensures
            self.is_append_args(server as int, r),
    {
        match &self.leader_state {
            Some(ls) => {
                let next_index = ls.next_index[server] as usize;
                let after = self.log.after(next_index);
                let mut entries: Vec<ProtoEntry> = Vec::new();
                let mut k: usize = 0;
                while k < after.len()
                    invariant
                        k <= after@.len(),
                        proto_views(entries@) == entry_views(after@.take(k as int)),
                    decreases after@.len() - k,
                {
                    let e = after[k].clone();
                    let ghost before = entries@;
                    entries.push(ProtoEntry::from(e));
                    assert(proto_views(entries@) =~= proto_views(before).push(after@[k as int]@));
                    assert(after@.take(k + 1) =~= after@.take(k as int).push(after@[k as int]));
                    assert(entry_views(after@.take(k + 1)) =~= entry_views(after@.take(k as int)).push(after@[k as int]@));
                    k += 1;
                }
                assert(after@.take(k as int) =~= after@);
                assert(entry_views(after@) =~= self.log.entries().subrange(self.log.pos(next_index as int), self.log.commands@.len() as int));
                AppendEntriesArgs {
                    term: self.term,
                    leader_id: self.me as u64,
                    prev_log_index: (next_index - 1) as u64,
                    prev_log_term: self.log.term_at(next_index - 1),
                    entries,
                    leader_commit: self.commit_index,
                }
            },
            None => vstd::pervasive::unreached(),
        }
    }
}

/// The last entry a successful reply to `request` shows replicated.
pub open spec fn matched_by(request: AppendEntriesArgs) -> int {
    request.prev_log_index + request.entries@.len()
}

/// Where a leader resumes replication after a refusal `response`: at the
/// start of the conflicting term if its own entry there has that term, else
/// one before; never before entry 1.
pub open spec fn retreat(log: RaftLogWithSnapShot, response: AppendEntriesReply) -> u64 {
    let n = response.conflicted_term_starts_at;
    let back = if log.term_of(n as int) == response.conflicted_term { n as int } else { n - 1 };
    if back < 1 { 1 } else { back as u64 }
}

/// The match index of follower `f` after a successful reply to `request`:
/// replies may arrive out of order, so it never goes back.
pub open spec fn new_match(matches: Seq<u64>, f: int, request: AppendEntriesArgs) -> u64 {
    if matched_by(request) > matches[f] { matched_by(request) as u64 } else { matches[f] }
}

/// What the leader `rf` may do with the reply `response` of follower `f` to
/// `request` without failing.
pub open spec fn reply_acceptable(rf: Raft, request: AppendEntriesArgs, response: AppendEntriesReply, f: int) -> bool {
    rf.term == request.term ==> {
        &&& rf.leader_state is Some
        &&& response.success ==> {
            &&& rf.current_role == RaftRole::Leader
            &&& rf.peer_count >= 2
            &&& matched_by(request) < u64::MAX
            &&& rf.matches()[f] < u64::MAX
            &&& quorum_of(rf.matches().update(f, new_match(rf.matches(), f, request)), rf.me as int) <= rf.log.log_len()
        }
        &&& !response.success ==> {
            &&& response.conflicted_term_starts_at != 0xcafe_babe
            &&& response.conflicted_term_starts_at <= usize::MAX
            &&& rf.log.term_of(response.conflicted_term_starts_at as int) != response.conflicted_term
                ==> response.conflicted_term_starts_at >= 1
        }
    }
}

/// The step of the leader `old` to `new` with effects `e` on the reply
/// `response` of follower `f` to `request`. A reply to a request of another
/// term is ignored. A success moves the follower's match index up to what
/// the request carried and its next index past it, then commits what a
/// majority holds; a refusal moves its next index back.
pub open spec fn recorded_reply(old: Raft, new: Raft, e: Effects, request: AppendEntriesArgs, response: AppendEntriesReply, f: int) -> bool {
    if old.term != request.term {
        &&& new == old
        &&& !e.persist && e.apply@.len() == 0 && !e.reset_timer && !e.to_follower
    } else if response.success {
        let m = new_match(old.matches(), f, request);
        let matches = old.matches().update(f, m);
        &&& new.matches() == matches
        &&& new.nexts() == old.nexts().update(f, (m + 1) as u64)
        &&& committed_to(old, new, e, quorum_of(matches, old.me as int))
    } else {
        &&& new.matches() == old.matches()
        &&& new.nexts() == old.nexts().update(f, retreat(old.log, response))
        &&& new.leader_state is Some
        &&& !e.persist && e.apply@.len() == 0 && !e.reset_timer && !e.to_follower
        &&& new.term == old.term
        &&& new.voted_for == old.voted_for
        &&& new.current_role == old.current_role
        &&& new.log == old.log
        &&& new.commit_index == old.commit_index
        &&& new.last_applied == old.last_applied
        &&& new.me == old.me
        &&& new.peer_count == old.peer_count
        &&& new.log_size == old.log_size
    }
}

impl Raft {
    /// Records follower `follower`'s reply to a replication request; see
    /// `recorded_reply`.
    pub fn modify_state_by_append_entries(
        &mut self,
        request: &AppendEntriesArgs,
        response: &AppendEntriesReply,
        follower: usize,
    ) -> (e: Effects)
        requires
            old(self).wf(),
            follower < old(self).peer_count,
            reply_acceptable(*old(self), *request, *response, follower as int),
        ensures
            final(self).wf(),
            recorded_reply(*old(self), *final(self), e, *request, *response, follower as int),
    {
        if self.term != request.term {
            return Effects::none();
        }
        if response.success {
            let matching = request.prev_log_index + request.entries.len() as u64;
            match &mut self.leader_state {
                Some(ls) => {
                    let old_match = ls.match_index[follower];
                    let new_match_index = if matching > old_match { matching } else { old_match };
                    ls.match_index.set(follower, new_match_index);
                    ls.next_index.set(follower, new_match_index + 1);
                },
                None => {},
            }
            proof {
                assert(self.matches() =~= old(self).matches().update(follower as int, new_match(old(self).matches(), follower as int, *request)));
            }
            self.leader_commit_logs()
        } else {
            let next_index = response.conflicted_term_starts_at as usize;
            let can_match = self.log.term_at(next_index) == response.conflicted_term;
            let real_next = if can_match { next_index } else { next_index - 1 } as u64;
            let next = if real_next > 1 { real_next } else { 1 };
            match &mut self.leader_state {
                Some(ls) => {
                    ls.next_index.set(follower, next);
                },
                None => {},
            }
            Effects::none()
        }
    }

    /// The leader's handling of a follower's reply to a replication
    /// request: a peer that is no longer leader ignores it; a reply from a
    /// newer term makes the leader step down; any other is recorded.
    pub fn handle_append_entries(
        &mut self,
        request: &AppendEntriesArgs,
        response: &AppendEntriesReply,
        follower: usize,
    ) -> (e: Effects)
        requires
            old(self).wf(),
            old(self).current_role == RaftRole::Leader && old(self).term >= response.term ==> {
                &&& follower < old(self).peer_count
                &&& reply_acceptable(*old(self), *request, *response, follower as int)
            },
        ensures
            final(self).wf(),
            old(self).current_role != RaftRole::Leader ==> *final(self) == *old(self) && !e.persist
                && e.apply@.len() == 0 && !e.reset_timer && !e.to_follower,
            old(self).current_role == RaftRole::Leader && old(self).term < response.term ==> {
                &&& final(self).term == response.term
                &&& final(self).voted_for is None
                &&& final(self).current_role == RaftRole::Follower
                &&& e.to_follower && e.persist && e.apply@.len() == 0 && !e.reset_timer
                &&& final(self).log == old(self).log
                &&& final(self).commit_index == old(self).commit_index
                &&& final(self).last_applied == old(self).last_applied
                &&& final(self).leader_state == old(self).leader_state
            },
            old(self).current_role == RaftRole::Leader && old(self).term >= response.term
                ==> recorded_reply(*old(self), *final(self), e, *request, *response, follower as int),
    {
        if !self.is_leader() {
            return Effects::none();
        }
        if self.term < response.term {
            return self.check_term(response.term);
        }
        self.modify_state_by_append_entries(request, response, follower)
    }

    /// The leader's handling of a follower's reply to a snapshot
    /// installation: a peer that is no longer leader ignores it; a reply
    /// from a newer term makes the leader step down; otherwise the follower
    /// will next get the entry after the snapshot, and the leader commits
    /// what a majority holds.
    pub fn handle_install_snapshot(
        &mut self,
        request: &InstallSnapshotArgs,
        response: &InstallSnapshotReply,
        follower: usize,
    ) -> (e: Effects)
        requires
            old(self).wf(),
            old(self).current_role == RaftRole::Leader && old(self).term >= response.term ==> {
                &&& follower < old(self).peer_count
                &&& old(self).peer_count >= 2
                &&& old(self).commit_quorum() <= old(self).log.log_len()
            },
        ensures
            final(self).wf(),
            old(self).current_role != RaftRole::Leader ==> *final(self) == *old(self) && !e.persist
                && e.apply@.len() == 0 && !e.reset_timer && !e.to_follower,
            old(self).current_role == RaftRole::Leader && old(self).term < response.term ==> {
                &&& final(self).term == response.term
                &&& final(self).voted_for is None
                &&& final(self).current_role == RaftRole::Follower
                &&& e.to_follower && e.persist && e.apply@.len() == 0 && !e.reset_timer
                &&& final(self).log == old(self).log
                &&& final(self).commit_index == old(self).commit_index
                &&& final(self).last_applied == old(self).last_applied
                &&& final(self).leader_state == old(self).leader_state
            },
            old(self).current_role == RaftRole::Leader && old(self).term >= response.term ==> {
                &&& final(self).matches() == old(self).matches()
                &&& final(self).nexts() == old(self).nexts().update(follower as int, (old(self).log.last_included_index + 1) as u64)
                &&& committed_to(*old(self), *final(self), e, old(self).commit_quorum())
            },
    {
        if !self.is_leader() {
            return Effects::none();
        }
        if self.term < response.term {
            return self.check_term(response.term);
        }
        let next_idx = self.log.last_included_index + 1;
        match &mut self.leader_state {
            Some(ls) => {
                ls.next_index.set(follower, next_idx);
            },
            None => {},
        }
        self.leader_commit_logs()
    }

    /// One round of a leader: the request it sends to every other peer,
    /// with the peer's index.
    pub fn make_requests(&self) -> (r: Vec<(usize, PeerRequest)>)
        requires
            self.wf(),
            self.current_role == RaftRole::Leader,
            forall|i: int| 0 <= i < self.peer_count && i != self.me ==> {
                &&& #[trigger] self.nexts()[i] <= usize::MAX
                &&& !self.log.covers(self.nexts()[i] as int) ==> self.nexts()[i] <= self.last_index() + 1
            },
        ensures
            r@.len() == self.peer_count - 1,
            forall|k: int| 0 <= k < r@.len() ==> {
                let i = if k < self.me { k } else { k + 1 };
                &&& (#[trigger] r@[k]).0 == i
                &&& self.is_request_for(i, r@[k].1)
            },
    {
        let mut r: Vec<(usize, PeerRequest)> = Vec::new();
        let mut i: usize = 0;
        while i < self.peer_count
            invariant
                self.wf(),
                self.current_role == RaftRole::Leader,
                forall|j: int| 0 <= j < self.peer_count && j != self.me ==> {
                    &&& #[trigger] self.nexts()[j] <= usize::MAX
                    &&& !self.log.covers(self.nexts()[j] as int) ==> self.nexts()[j] <= self.last_index() + 1
                },
                i <= self.peer_count,
                r@.len() == (if i <= self.me { i as int } else { i - 1 }),
                forall|k: int| 0 <= k < r@.len() ==> {
                    let j = if k < self.me { k } else { k + 1 };
                    &&& (#[trigger] r@[k]).0 == j
                    &&& self.is_request_for(j, r@[k].1)
                },
            decreases self.peer_count - i,
        {
            if i != self.me {
                assert(self.nexts()[i as int] <= usize::MAX);
                let request = if self.need_install_snapshot(i) {
                    PeerRequest::InstallSnapshot(self.make_install_snapshot_args())
                } else {
                    PeerRequest::AppendEntries(self.make_append_entries_for(i))
                };
                r.push((i, request));
            }
            i += 1;
        }
        r
    }
}

/// Why a follower refused a replication request.
#[derive(Debug, Clone, Copy, PartialEq, Eq, Structural)]
pub enum FailedAppendEntries {
    /// Its entry before the new ones differs from the leader's: it names
    /// the term of its own entry there and where that term starts in its
    /// log, for the leader to skip the whole term at once.
    ConflictedEntry { conflicted_term: u64, conflicted_term_starts_at: u64 },
    /// The request is from a leader of an older term.
    InvalidLeader,
}

/// The terms of a sequence of wire entries.
pub open spec fn proto_terms(s: Seq<ProtoEntry>) -> Seq<u64> {
    s.map_values(|e: ProtoEntry| e.term)
}

/// `r` is where the run of entries of `term` that ends at entry `from`
/// starts in `log`.
pub open spec fn is_run_start(log: RaftLogWithSnapShot, term: u64, from: int, r: int) -> bool {
    &&& 1 <= r <= from + 1
    &&& forall|k: int| r <= k <= from ==> !log.covers(k) && log.term_of(k) == term
    &&& log.covers(r - 1) || log.term_of(r - 1) != term
}

/// How a follower with log `log` answers a request whose entry before the
/// new ones, entry `prev`, has another term in its log.
pub open spec fn conflict_answer(log: RaftLogWithSnapShot, prev: int, r: FailedAppendEntries) -> bool {
    if log.covers(prev) {
        r == FailedAppendEntries::ConflictedEntry { conflicted_term: 0, conflicted_term_starts_at: 2 }
    } else if !log.holds(prev) {
        r == FailedAppendEntries::ConflictedEntry { conflicted_term: 0, conflicted_term_starts_at: (log.log_len() + 1) as u64 }
    } else {
        r matches FailedAppendEntries::ConflictedEntry { conflicted_term, conflicted_term_starts_at }
            && conflicted_term == log.term_of(prev)
            && is_run_start(log, conflicted_term, prev, conflicted_term_starts_at as int)
    }
}

/// The entries of `log` that stay when `terms`, placed from entry `base`
/// on, agree with it on their first `nb` and then diverge: those before the
/// divergence.
pub open spec fn kept(log: RaftLogWithSnapShot, base: int, terms: Seq<u64>, nb: int) -> Seq<LogEntry> {
    if nb < terms.len() && log.holds(base + nb) {
        log.commands@.take(log.pos(base + nb))
    } else {
        log.commands@
    }
}

/// A follower whose log was `old` took the entries `entries` of a leader,
/// to stand from entry `base` on, and its log is `new`: the first `nb`
/// agree with its log, the log is cut where they diverge, and the rest is
/// appended. `changed` tells whether any entry was appended.
pub open spec fn took_entries(old: RaftLogWithSnapShot, new: RaftLogWithSnapShot, base: int, entries: Seq<ProtoEntry>, changed: bool) -> bool {
    exists|nb: int| {
        &&& 0 <= nb <= entries.len()
        &&& agrees(old, base, proto_terms(entries), nb)
        &&& (nb == entries.len() || diverges_at(old, base, proto_terms(entries), nb))
        &&& new.entries() == entry_views(kept(old, base, proto_terms(entries), nb)) + proto_views(entries).skip(nb)
        &&& changed == (nb < entries.len())
    }
}

/// What a follower may be asked to replicate without failing: the new
/// entries fit in memory, and the first of them that contradicts the log
/// lies after the snapshot, where the log can be cut.
pub open spec fn entries_acceptable(rf: Raft, args: AppendEntriesArgs) -> bool {
    &&& args.prev_log_index + args.entries@.len() < usize::MAX
    &&& rf.log.log_len() + args.entries@.len() + 1 < usize::MAX
    &&& args.term >= rf.term && rf.log.term_of(args.prev_log_index as int) == args.prev_log_term ==>
        forall|k: int| #[trigger] diverges_at(rf.log, args.prev_log_index + 1, proto_terms(args.entries@), k)
            ==> !rf.log.covers(args.prev_log_index + 1 + k)
}

/// The log of `rf`, once it takes the entries `args` carries, still reaches
/// its commit index: either the entries cut nothing of the log, or they
/// reach the commit index themselves. A leader that never contradicts a
/// committed entry sends nothing else.
pub open spec fn reaches_commit(rf: Raft, args: AppendEntriesArgs) -> bool {
    args.term >= rf.term && rf.log.term_of(args.prev_log_index as int) == args.prev_log_term ==>
        forall|k: int| #[trigger] diverges_at(rf.log, args.prev_log_index + 1, proto_terms(args.entries@), k)
            && rf.log.holds(args.prev_log_index + 1 + k) ==> args.prev_log_index + args.entries@.len() >= rf.commit_index
}

/// The state of `new` agrees with `old` after `check_term(term)`.
pub open spec fn checked_term(old: Raft, new: Raft, term: u64) -> bool {
    &&& new.term == (if term >= old.term { term } else { old.term })
    &&& new.current_role == (if steps_down(old, term) { RaftRole::Follower } else { old.current_role })
    &&& new.leader_state == old.leader_state
    &&& new.me == old.me
    &&& new.peer_count == old.peer_count
    &&& new.log_size == old.log_size
}

/// Whether a peer in state `rf` grants the vote `args` asks for once it
/// has adopted the term of the request.
pub open spec fn vote_granted(rf: Raft, args: RequestVoteArgs) -> bool {
    &&& args.term >= rf.term
    &&& args.term > rf.term || (rf.voted_for matches Some(v) ==> v == args.candidate_id)
    &&& (args.last_log_term > rf.last_term() || (args.last_log_term == rf.last_term()
        && args.last_log_index >= rf.last_index()))
}

impl Raft {
    /// A follower's judgement of a replication request (Figure 2 of the
    /// Raft paper). It first adopts a newer term. It refuses a request of an
    /// older term, and a request whose entry before the new ones does not
    /// match its log; otherwise it cuts its log where it contradicts the new
    /// entries, appends those it lacks, and commits as far as the leader
    /// did, within its log, counting what it applied back to that point if
    /// the new commit index lies below it. A request that cuts committed
    /// entries without raising the commit index can leave the commit index
    /// past the end of the log: then the peer is no longer well formed,
    /// which a leader that never contradicts a committed entry never causes.
    pub fn do_append_entries_judge(&mut self, args: AppendEntriesArgs) -> (r: (Result<(), FailedAppendEntries>, Effects))
        requires
            old(self).wf(),
            entries_acceptable(*old(self), args),
        ensures
            final(self).wf_shape(),
            final(self).log.last_included_index <= final(self).last_applied,
            final(self).last_applied <= final(self).commit_index,
            reaches_commit(*old(self), args) || args.leader_commit > old(self).commit_index ==> final(self).wf(),
            judged_as(*old(self), *final(self), args, r.0, r.1),
    {
        let mut e = self.check_term(args.term);
        if args.term < self.term {
            return (Err(FailedAppendEntries::InvalidLeader), e);
        }
        e.reset_timer = true;
        let prev_log_index = args.prev_log_index as usize;
        if self.log.term_at(prev_log_index) != args.prev_log_term {
            if self.log.is_in_snapshot(prev_log_index) {
                return (Err(FailedAppendEntries::ConflictedEntry { conflicted_term: 0, conflicted_term_starts_at: 2 }), e);
            }
            let conflicted_term = match self.log.get(prev_log_index) {
                Some(entry) => entry.term,
                None => {
                    let next = self.last_log_index() + 1;
                    return (Err(FailedAppendEntries::ConflictedEntry { conflicted_term: 0, conflicted_term_starts_at: next }), e);
                },
            };
            let starts_at = self.get_term_starts_at(conflicted_term, prev_log_index) as u64;
            return (Err(FailedAppendEntries::ConflictedEntry { conflicted_term, conflicted_term_starts_at: starts_at }), e);
        }
        let base = prev_log_index + 1;
        let ghost old_log = self.log;
        let entries = into_log_entries(args.entries);
        let new_log_base = self.check_and_trunc_log(base, entries.as_slice());
        let ghost reaches = reaches_commit(*old(self), args);
        proof {
            if reaches && new_log_base < entries@.len() {
                assert(diverges_at(old(self).log, base as int, proto_terms(args.entries@), new_log_base as int));
            }
            if reaches {
                assert(self.commit_index <= self.log.log_len() + (entries@.len() - new_log_base));
            }
        }
        let mut k = new_log_base;
        let ghost kept_log = self.log;
        let ghost pre = *self;
        while k < entries.len()
            invariant
                self.wf_shape(),
                self.log.last_included_index <= self.last_applied,
                self.last_applied <= self.commit_index,
                reaches ==> self.commit_index <= self.log.log_len() + (entries@.len() - k),
                new_log_base <= k <= entries@.len(),
                self.log.log_len() + (entries@.len() - k) + 1 < usize::MAX,
                self.log.entries() == kept_log.entries() + entry_views(entries@.subrange(new_log_base as int, k as int)),
                self.log.last_included_index == kept_log.last_included_index,
                self.log.last_included_term == kept_log.last_included_term,
                self.log.state_machine_state == kept_log.state_machine_state,
                self.commit_index == pre.commit_index,
                self.last_applied == pre.last_applied,
                self.term == pre.term,
                self.voted_for == pre.voted_for,
                self.current_role == pre.current_role,
                self.leader_state == pre.leader_state,
                self.me == pre.me,
                self.peer_count == pre.peer_count,
                self.log_size == pre.log_size,
            decreases entries@.len() - k,
        {
            let entry = entries[k].clone();
            let ghost before = self.log.commands@;
            self.log.push(entry);
            proof {
                assert(self.log.entries() =~= entry_views(before).push(entries@[k as int]@));
                assert(entry_views(entries@.subrange(new_log_base as int, k + 1)) =~= entry_views(entries@.subrange(new_log_base as int, k as int)).push(entries@[k as int]@));
                assert(entries@.subrange(new_log_base as int, k + 1) =~= entries@.subrange(new_log_base as int, k as int).push(entries@[k as int]));
                assert(self.log.entries() =~= kept_log.entries() + entry_views(entries@.subrange(new_log_base as int, k + 1)));
            }
            k += 1;
        }
        proof {
            let terms = proto_terms(args.entries@);
            let nb = new_log_base as int;
            assert(entry_views(entries@.subrange(nb, entries@.len() as int)) =~= proto_views(args.entries@).skip(nb));
            assert(kept_log.commands@ == kept(old_log, base as int, terms, nb));
            assert(took_entries(old_log, self.log, base as int, args.entries@, nb < entries@.len()));
        }
        let log_changed = new_log_base < entries.len();
        if args.leader_commit > self.commit_index {
            let last = self.log.len() as u64;
            self.commit_index = if args.leader_commit < last { args.leader_commit } else { last };
            if self.last_applied < self.commit_index {
                e.apply = self.apply_logs();
            } else {
                self.last_applied = self.commit_index;
                assert(apply_views(e.apply@) =~= Seq::empty());
            }
        }
        if log_changed {
            e.persist = true;
        }
        proof {
            let o = *old(self);
            assert(checked_term(o, *self, args.term));
            assert(e.to_follower == steps_down(o, args.term));
            assert(self.log.last_included_index == o.log.last_included_index);
            assert(took_entries(o.log, self.log, args.prev_log_index + 1, args.entries@, log_changed));
            assert(e.persist == (args.term > o.term || log_changed));
            if args.leader_commit > o.commit_index {
                let c = if args.leader_commit < self.log.log_len() { args.leader_commit as int } else { self.log.log_len() };
                assert(self.commit_index == c);
                assert(self.last_applied == c);
            }
        }
        (Ok(()), e)
    }
}

/// The reply a follower sends for its judgement `judged` of a replication
/// request, in term `term`.
pub open spec fn append_reply(term: u64, judged: Result<(), FailedAppendEntries>) -> AppendEntriesReply {
    match judged {
        Ok(()) => AppendEntriesReply { term, success: true, conflicted_term: 0, conflicted_term_starts_at: 0 },
        Err(FailedAppendEntries::InvalidLeader) => AppendEntriesReply {
            term,
            success: false,
            conflicted_term: 0xcafe_babe,
            conflicted_term_starts_at: 0xcafe_babe,
        },
        Err(FailedAppendEntries::ConflictedEntry { conflicted_term, conflicted_term_starts_at }) => AppendEntriesReply {
            term,
            success: false,
            conflicted_term,
            conflicted_term_starts_at,
        },
    }
}

impl Raft {
    /// A follower's handling of a replication request: its judgement, as a
    /// reply in its term after the judgement. A refusal for an older term
    /// carries a marker in place of the conflict, which a leader never
    /// reads.
    pub fn do_append_entries(&mut self, args: AppendEntriesArgs) -> (r: (AppendEntriesReply, Effects))
        requires
            old(self).wf(),
            entries_acceptable(*old(self), args),
        ensures
            final(self).wf_shape(),
            final(self).log.last_included_index <= final(self).last_applied,
            final(self).last_applied <= final(self).commit_index,
            reaches_commit(*old(self), args) || args.leader_commit > old(self).commit_index ==> final(self).wf(),
            exists|judged: Result<(), FailedAppendEntries>| {
                &&& r.0 == #[trigger] append_reply(final(self).term, judged)
                &&& judged_as(*old(self), *final(self), args, judged, r.1)
            },
    {
        let ghost pre = *self;
        let ghost a = args;
        let (judged, e) = self.do_append_entries_judge(args);
        let reply = match judged {
            Ok(()) => AppendEntriesReply { term: self.term, success: true, conflicted_term: 0, conflicted_term_starts_at: 0 },
            Err(FailedAppendEntries::InvalidLeader) => AppendEntriesReply {
                term: self.term,
                success: false,
                conflicted_term: 0xcafe_babe,
                conflicted_term_starts_at: 0xcafe_babe,
            },
            Err(FailedAppendEntries::ConflictedEntry { conflicted_term, conflicted_term_starts_at }) => AppendEntriesReply {
                term: self.term,
                success: false,
                conflicted_term,
                conflicted_term_starts_at,
            },
        };
        assert(reply == append_reply(self.term, judged));
        (reply, e)
    }

    /// A follower's handling of a vote request: it adopts a newer term,
    /// then grants the vote if `vote_granted` allows it, recording the vote
    /// and restarting its election timer. The reply carries its term.
    pub fn do_request_vote(&mut self, args: RequestVoteArgs) -> (r: (RequestVoteReply, Effects))
        requires
            old(self).wf(),
        ensures
            final(self).wf(),
            checked_term(*old(self), *final(self), args.term),
            r.0.term == final(self).term,
            r.0.vote_granted == vote_granted(*old(self), args),
            final(self).voted_for == (if r.0.vote_granted {
                Some(args.candidate_id as usize)
            } else if args.term > old(self).term {
                None
            } else {
                old(self).voted_for
            }),
            r.1.to_follower == steps_down(*old(self), args.term),
            r.1.persist == (args.term > old(self).term || r.0.vote_granted),
            r.1.reset_timer == r.0.vote_granted,
            r.1.apply@.len() == 0,
            final(self).log == old(self).log,
            final(self).commit_index == old(self).commit_index,
            final(self).last_applied == old(self).last_applied,
    {
        let mut e = self.check_term(args.term);
        let granted = self.check_grant(&args);
        if granted {
            e.reset_timer = true;
            let voted = self.vote_for(args.candidate_id as usize);
            e.persist = voted.persist;
        }
        (RequestVoteReply { term: self.term, vote_granted: granted }, e)
    }

    /// A follower's handling of a snapshot installation: it adopts a newer
    /// term and refuses an older one. A valid leader restarts its election
    /// timer; unless its log already reaches past the snapshot, the
    /// follower replaces its log by the snapshot, commits it and replays it
    /// to the service. The reply carries its term as it was after adopting
    /// the request's.
    pub fn do_install_snapshot(&mut self, args: InstallSnapshotArgs) -> (r: (InstallSnapshotReply, Effects))
        requires
            old(self).wf(),
            args.last_included_index < usize::MAX,
        ensures
            final(self).wf(),
            checked_term(*old(self), *final(self), args.term),
            final(self).voted_for == (if args.term > old(self).term { None } else { old(self).voted_for }),
            r.0.term == final(self).term,
            r.1.to_follower == steps_down(*old(self), args.term),
            r.1.reset_timer == (args.term >= old(self).term),
            args.term >= old(self).term && old(self).log.log_len() <= args.last_included_index ==> {
                &&& final(self).log.last_included_index == args.last_included_index
                &&& final(self).log.last_included_term == args.last_included_term
                &&& byte_views(final(self).log.state_machine_state.commands@) == byte_views(args.data@)
                &&& final(self).log.commands@.len() == 0
                &&& final(self).commit_index == args.last_included_index
                &&& final(self).last_applied == args.last_included_index
                &&& r.1.persist
                &&& apply_views(r.1.apply@) == replayed(args.data@)
            },
            !(args.term >= old(self).term && old(self).log.log_len() <= args.last_included_index) ==> {
                &&& final(self).log == old(self).log
                &&& final(self).commit_index == old(self).commit_index
                &&& final(self).last_applied == old(self).last_applied
                &&& r.1.persist == (args.term > old(self).term)
                &&& r.1.apply@.len() == 0
            },
    {
        let mut e = self.check_term(args.term);
        let term = self.term;
        if args.term < term {
            return (InstallSnapshotReply { term }, e);
        }
        e.reset_timer = true;
        if self.log.len() > args.last_included_index as usize {
            return (InstallSnapshotReply { term }, e);
        }
        self.log = RaftLogWithSnapShot::from_install(args);
        self.commit_index = self.log.last_included_index;
        e.persist = true;
        e.apply = self.apply_snapshot();
        (InstallSnapshotReply { term: self.term }, e)
    }

    /// Compacts the log: the service's state `state` replaces every entry up
    /// to `last_index`, which was applied. Returns whether the log changed
    /// (and must be persisted); an index the snapshot already covers leaves
    /// it alone.
    pub fn take_snapshot(&mut self, state: SnapshotFile, last_index: usize) -> (changed: bool)
        requires
            old(self).wf(),
            !old(self).log.covers(last_index as int) ==> last_index <= old(self).last_applied,
        ensures
            final(self).wf(),
            changed == !old(self).log.covers(last_index as int),
            !changed ==> final(self).log == old(self).log,
            changed ==> old(self).log.compacted(last_index as int, state, final(self).log),
            final(self).term == old(self).term,
            final(self).voted_for == old(self).voted_for,
            final(self).current_role == old(self).current_role,
            final(self).commit_index == old(self).commit_index,
            final(self).last_applied == old(self).last_applied,
            final(self).leader_state == old(self).leader_state,
            final(self).me == old(self).me,
            final(self).peer_count == old(self).peer_count,
            final(self).log_size == old(self).log_size,
    {
        if self.log.is_in_snapshot(last_index) {
            return false;
        }
        let last_included_term = self.log.term_at(last_index);
        let remained_log_starts = self.log.offset_index(last_index) + 1;
        let new_commands = if remained_log_starts < self.log.commands.len() {
            self.log.commands.split_off(remained_log_starts)
        } else {
            Vec::new()
        };
        proof {
            assert(new_commands@ =~= old(self).log.commands@.skip(old(self).log.pos(last_index as int) + 1));
        }
        self.log = RaftLogWithSnapShot {
            last_included_index: last_index as u64,
            last_included_term,
            state_machine_state: state,
            commands: new_commands,
        };
        true
    }

    /// The messages applying entries `start..=end`, which are committed and
    /// follow the snapshot.
    pub fn log_between(&self, start: usize, end: usize) -> (r: Vec<ApplyMsg>)
        requires
            self.wf(),
            end <= self.commit_index,
            start <= end ==> !self.log.covers(start as int),
        ensures
            apply_views(r@) == (if start <= end { applied(self.log, start as int, end as int) } else { Seq::empty() }),
    {
        let mut r: Vec<ApplyMsg> = Vec::new();
        if start > end {
            assert(apply_views(r@) =~= Seq::empty());
            return r;
        }
        let mut i = start;
        while i <= end
            invariant
                self.wf(),
                start <= i <= end + 1,
                end <= self.commit_index,
                !self.log.covers(start as int),
                apply_views(r@) == applied(self.log, start as int, i - 1),
            decreases end + 1 - i,
        {
            let m = self.make_apply_message(i as u64);
            let ghost before = r@;
            r.push(m);
            assert(apply_views(r@) =~= apply_views(before).push(m@));
            assert(applied(self.log, start as int, i as int) =~= applied(self.log, start as int, i - 1).push(m@));
            i += 1;
        }
        r
    }

    /// Like `log_between`, but empty where that would fail: when the
    /// snapshot covers `start` or `end` is not committed.
    pub fn try_get_log_between(&self, start: usize, end: usize) -> (r: Vec<ApplyMsg>)
        requires
            self.wf(),
        ensures
            self.log.covers(start as int) || end > self.commit_index ==> r@.len() == 0,
            !(self.log.covers(start as int) || end > self.commit_index) ==> apply_views(r@) == (if start <= end {
                applied(self.log, start as int, end as int)
            } else {
                Seq::empty()
            }),
    {
        if self.log.is_in_snapshot(start) || end as u64 > self.commit_index {
            return Vec::new();
        }
        self.log_between(start, end)
    }

    /// The current term of this peer.
    pub fn term(&self) -> (r: u64)
        ensures
            r == self.term,
    {
        self.term
    }

    /// The current state of this peer.
    pub fn get_state(&self) -> (r: State)
        ensures
            r.term == self.term,
            r.is_leader == (self.current_role == RaftRole::Leader),
    {
        State { term: self.term, is_leader: self.is_leader() }
    }

    /// The index of the last committed entry.
    pub fn commit_index(&self) -> (r: u64)
        ensures
            r == self.commit_index,
    {
        self.commit_index
    }

    /// The size of the persisted state when it was last written.
    pub fn log_size(&self) -> (r: usize)
        ensures
            r == self.log_size,
    {
        self.log_size
    }

    /// Stops the peer from acting as leader; its timers and workers are
    /// stopped by its driver.
    pub fn kill(&mut self)
        requires
            old(self).wf(),
        ensures
            final(self).wf(),
            final(self).current_role == RaftRole::Follower,
            final(self).term == old(self).term,
            final(self).voted_for == old(self).voted_for,
            final(self).log == old(self).log,
            final(self).commit_index == old(self).commit_index,
            final(self).last_applied == old(self).last_applied,
            final(self).leader_state == old(self).leader_state,
    {
        self.current_role = RaftRole::Follower;
    }
}

/// The step `old` to `new` with effects `e` of a follower that judged a
/// replication request `args` as `judged`.
pub open spec fn judged_as(old: Raft, new: Raft, args: AppendEntriesArgs, judged: Result<(), FailedAppendEntries>, e: Effects) -> bool {
    &&& checked_term(old, new, args.term)
    &&& e.to_follower == steps_down(old, args.term)
    &&& args.term < old.term ==> {
        &&& judged == Err::<(), FailedAppendEntries>(FailedAppendEntries::InvalidLeader)
        &&& !e.persist && e.apply@.len() == 0 && !e.reset_timer
        &&& new.voted_for == old.voted_for
        &&& new.log == old.log
        &&& new.commit_index == old.commit_index
        &&& new.last_applied == old.last_applied
    }
    &&& args.term >= old.term ==> {
        &&& e.reset_timer
        &&& new.voted_for == (if args.term > old.term { None } else { old.voted_for })
    }
    &&& args.term >= old.term && old.log.term_of(args.prev_log_index as int) != args.prev_log_term ==> {
        &&& judged matches Err(f) && conflict_answer(old.log, args.prev_log_index as int, f)
        &&& e.persist == (args.term > old.term) && e.apply@.len() == 0
        &&& new.log == old.log
        &&& new.commit_index == old.commit_index
        &&& new.last_applied == old.last_applied
    }
    &&& args.term >= old.term && old.log.term_of(args.prev_log_index as int) == args.prev_log_term ==> {
        &&& judged == Ok::<(), FailedAppendEntries>(())
        &&& new.log.last_included_index == old.log.last_included_index
        &&& new.log.last_included_term == old.log.last_included_term
        &&& new.log.state_machine_state == old.log.state_machine_state
        &&& exists|changed: bool| {
            &&& #[trigger] took_entries(old.log, new.log, args.prev_log_index + 1, args.entries@, changed)
            &&& e.persist == (args.term > old.term || changed)
        }
        &&& if args.leader_commit > old.commit_index {
            let c = if args.leader_commit < new.log.log_len() { args.leader_commit as int } else { new.log.log_len() };
            &&& new.commit_index == c
            &&& new.last_applied == c
            &&& apply_views(e.apply@) == (if c > old.last_applied {
                applied(new.log, old.last_applied + 1, c)
            } else {
                Seq::empty()
            })
        } else {
            &&& new.commit_index == old.commit_index
            &&& new.last_applied == old.last_applied
            &&& e.apply@.len() == 0
        }
    }
}

/// How an election goes on after a reply.
#[derive(Debug, Clone, Copy, PartialEq, Eq, Structural)]
pub enum TallyStep {
    /// Not enough votes yet.
    Pending,
    /// A majority voted for the candidate.
    Won,
    /// A peer is in a newer term: the election is lost.
    Outdated(u64),
}

/// The votes a candidate counted in the election it started in
/// `term_at_start`, its own included.
#[derive(Debug, Clone, Copy)]
pub struct ElectionTally {
    pub term_at_start: u64,
    pub peer_count: usize,
    pub vote_count: usize,
}

impl ElectionTally {
    /// The tally of a candidate that voted for itself.
    pub fn new(term_at_start: u64, peer_count: usize) -> (t: ElectionTally)
        ensures
            t.term_at_start == term_at_start,
            t.peer_count == peer_count,
            t.vote_count == 1,
    {
        ElectionTally { term_at_start, peer_count, vote_count: 1 }
    }

    /// Whether a majority voted for the candidate.
    pub fn has_won(&self) -> (r: bool)
        ensures
            r == (self.vote_count > self.peer_count / 2),
    {
        self.vote_count > self.peer_count / 2
    }

    /// Counts a reply to the candidate's vote request.
    pub fn on_reply(&mut self, reply: RequestVoteReply) -> (step: TallyStep)
        requires
            old(self).vote_count <= old(self).peer_count / 2,
        ensures
            final(self).term_at_start == old(self).term_at_start,
            final(self).peer_count == old(self).peer_count,
            reply.term > old(self).term_at_start ==> step == TallyStep::Outdated(reply.term)
                && final(self).vote_count == old(self).vote_count,
            reply.term <= old(self).term_at_start ==> {
                &&& final(self).vote_count == old(self).vote_count + (if reply.vote_granted { 1int } else { 0 })
                &&& step == (if final(self).vote_count > final(self).peer_count / 2 { TallyStep::Won } else { TallyStep::Pending })
            },
    {
        if reply.term > self.term_at_start {
            return TallyStep::Outdated(reply.term);
        }
        if reply.vote_granted {
            self.vote_count += 1;
        }
        if self.has_won() {
            TallyStep::Won
        } else {
            TallyStep::Pending
        }
    }
}

impl Raft {
    /// Starts an election: the peer becomes a candidate in the next term and
    /// votes for itself. Returns the vote request to send every other peer,
    /// and the effects: the persistent state changed.
    pub fn begin_election(&mut self) -> (r: (RequestVoteArgs, Effects))
        requires
            old(self).wf(),
            old(self).term < u64::MAX,
        ensures
            r.1.persist && r.1.apply@.len() == 0 && !r.1.reset_timer && !r.1.to_follower && !r.1.replicate,
            final(self).wf(),
            final(self).current_role == RaftRole::Candidate,
            final(self).term == old(self).term + 1,
            final(self).voted_for == Some(old(self).me),
            r.0.term == final(self).term,
            r.0.candidate_id == old(self).me,
            r.0.last_log_index == old(self).last_index(),
            r.0.last_log_term == old(self).last_term(),
            final(self).log == old(self).log,
            final(self).commit_index == old(self).commit_index,
            final(self).last_applied == old(self).last_applied,
            final(self).leader_state == old(self).leader_state,
            final(self).me == old(self).me,
            final(self).peer_count == old(self).peer_count,
    {
        self.current_role = RaftRole::Candidate;
        let old_term = self.term;
        let e = self.update_term(old_term + 1);
        let me = self.me;
        self.vote_for(me);
        (self.make_request_vote_args(), e)
    }

    /// Ends an election: a candidate that won it, and is still a candidate
    /// in the term it started, becomes leader. Returns whether it did.
    pub fn try_become_leader(&mut self, tally: &ElectionTally) -> (became: bool)
        requires
            old(self).wf(),
        ensures
            final(self).wf(),
            became == (tally.vote_count > tally.peer_count / 2 && old(self).term == tally.term_at_start
                && old(self).current_role == RaftRole::Candidate),
            became ==> {
                &&& final(self).current_role == RaftRole::Leader
                &&& final(self).nexts() == Seq::new(old(self).peer_count as nat, |i: int| (old(self).last_index() + 1) as u64)
                &&& final(self).matches() == Seq::new(old(self).peer_count as nat, |i: int| 0u64)
            },
            !became ==> *final(self) == *old(self),
            final(self).term == old(self).term,
            final(self).voted_for == old(self).voted_for,
            final(self).log == old(self).log,
            final(self).commit_index == old(self).commit_index,
            final(self).last_applied == old(self).last_applied,
    {
        if tally.has_won() && self.term == tally.term_at_start && self.current_role == RaftRole::Candidate {
            self.become_leader();
            true
        } else {
            false
        }
    }

    /// Restores the state persisted before a crash: term, vote, log and
    /// snapshot. The snapshot counts as committed and applied; returns the
    /// messages that replay it to the service.
    pub fn restore(&mut self, state: PersistedStatus, ss: Snapshot) -> (msgs: Vec<ApplyMsg>)
        requires
            old(self).wf(),
            old(self).leader_state is None,
            old(self).current_role != RaftRole::Leader,
            ss.last_index_of_snapshot + state.logs@.len() < usize::MAX,
            state.voted_for@.len() > 0 ==> state.voted_for@[0] <= usize::MAX,
        ensures
            final(self).wf(),
            final(self).term == state.current_term,
            final(self).voted_for == (if state.voted_for@.len() > 0 { Some(state.voted_for@[0] as usize) } else { None }),
            final(self).log.last_included_index == ss.last_index_of_snapshot,
            final(self).log.last_included_term == ss.last_term_of_snapshot,
            final(self).log.state_machine_state.commands@ == ss.state_machine_state@,
            final(self).log.entries() == proto_views(state.logs@),
            final(self).commit_index == ss.last_index_of_snapshot,
            final(self).last_applied == ss.last_index_of_snapshot,
            apply_views(msgs@) == replayed(ss.state_machine_state@),
            final(self).current_role == old(self).current_role,
            final(self).leader_state is None,
            final(self).me == old(self).me,
            final(self).peer_count == old(self).peer_count,
            restored_from(state, ss, *final(self)),
    {
        self.term = state.current_term;
        self.voted_for = if state.voted_for.len() > 0 { Some(state.voted_for[0] as usize) } else { None };
        self.log = RaftLogWithSnapShot {
            last_included_index: ss.last_index_of_snapshot,
            last_included_term: ss.last_term_of_snapshot,
            state_machine_state: SnapshotFile { commands: ss.state_machine_state },
            commands: into_log_entries(state.logs),
        };
        self.commit_index = self.log.last_included_index;
        self.apply_snapshot()
    }
}

/// `st` is what peer `raft` keeps in stable storage besides its snapshot:
/// its term, its vote, and the entries after the snapshot.
pub open spec fn status_of(raft: Raft, st: PersistedStatus) -> bool {
    &&& st.current_term == raft.term
    &&& st.voted_for@ == (match raft.voted_for {
        Some(v) => seq![v as u64],
        None => Seq::empty(),
    })
    &&& proto_views(st.logs@) == raft.log.entries()
}

/// `ss` is the snapshot that peer `raft` keeps in stable storage.
pub open spec fn snapshot_of(raft: Raft, ss: Snapshot) -> bool {
    &&& byte_views(ss.state_machine_state@) == byte_views(raft.log.state_machine_state.commands@)
    &&& ss.last_index_of_snapshot == raft.log.last_included_index
    &&& ss.last_term_of_snapshot == raft.log.last_included_term
}

/// Peer `rf` holds the state that `st` and `ss` record: the term, the vote,
/// the snapshot and the entries after it.
pub open spec fn restored_from(st: PersistedStatus, ss: Snapshot, rf: Raft) -> bool {
    &&& rf.term == st.current_term
    &&& rf.voted_for == (if st.voted_for@.len() > 0 { Some(st.voted_for@[0] as usize) } else { None })
    &&& rf.log.last_included_index == ss.last_index_of_snapshot
    &&& rf.log.last_included_term == ss.last_term_of_snapshot
    &&& rf.log.state_machine_state.commands@ == ss.state_machine_state@
    &&& rf.log.entries() == proto_views(st.logs@)
}

impl PersistedStatus {
    /// What peer `raft` keeps in stable storage besides its snapshot: its
    /// term, its vote, and the entries after the snapshot.
    pub fn by_raft(raft: &Raft) -> (r: PersistedStatus)
        ensures
            r.current_term == raft.term,
            r.voted_for@ == (match raft.voted_for {
                Some(v) => seq![v as u64],
                None => Seq::empty(),
            }),
            proto_views(r.logs@) == raft.log.entries(),
            status_of(*raft, r),
    {
        let mut voted_for: Vec<u64> = Vec::new();
        match raft.voted_for {
            Some(v) => voted_for.push(v as u64),
            None => {},
        }
        let mut logs: Vec<ProtoEntry> = Vec::new();
        let mut k: usize = 0;
        while k < raft.log.commands.len()
            invariant
                k <= raft.log.commands@.len(),
                proto_views(logs@) == entry_views(raft.log.commands@.take(k as int)),
            decreases raft.log.commands@.len() - k,
        {
            let e = raft.log.commands[k].clone();
            let ghost before = logs@;
            logs.push(ProtoEntry::from(e));
            assert(proto_views(logs@) =~= proto_views(before).push(raft.log.commands@[k as int]@));
            assert(raft.log.commands@.take(k + 1) =~= raft.log.commands@.take(k as int).push(raft.log.commands@[k as int]));
            assert(entry_views(raft.log.commands@.take(k + 1)) =~= entry_views(raft.log.commands@.take(k as int)).push(raft.log.commands@[k as int]@));
            k += 1;
        }
        assert(raft.log.commands@.take(k as int) =~= raft.log.commands@);
        PersistedStatus { current_term: raft.term, voted_for, logs }
    }
}

impl Snapshot {
    /// The snapshot peer `raft` keeps in stable storage.
    pub fn by_raft(raft: &Raft) -> (r: Snapshot)
        ensures
            byte_views(r.state_machine_state@) == byte_views(raft.log.state_machine_state.commands@),
            r.last_index_of_snapshot == raft.log.last_included_index,
            r.last_term_of_snapshot == raft.log.last_included_term,
            snapshot_of(*raft, r),
    {
        Snapshot {
            state_machine_state: clone_byte_strings(&raft.log.state_machine_state.commands),
            last_index_of_snapshot: raft.log.last_included_index,
            last_term_of_snapshot: raft.log.last_included_term,
        }
    }
}

/// The log entries that the wire entries `entries` carry.
pub fn into_log_entries(entries: Vec<ProtoEntry>) -> (r: Vec<LogEntry>)
    ensures
        r@.len() == entries@.len(),
        entry_views(r@) == proto_views(entries@),
        terms_of(r@) == proto_terms(entries@),
{
    let mut r: Vec<LogEntry> = Vec::new();
    let mut rest = entries;
    let ghost all = rest@;
    let total = rest.len();
    let mut k: usize = 0;
    while rest.len() > 0
        invariant
            all.len() == total,
            k + rest@.len() == all.len(),
            rest@ == all.skip(k as int),
            r@.len() == k,
            entry_views(r@) == proto_views(all.take(k as int)),
            terms_of(r@) == proto_terms(all.take(k as int)),
        decreases rest@.len(),
    {
        let e = rest.remove(0);
        let ghost before = r@;
        r.push(LogEntry::from(e));
        assert(all.take(k + 1) =~= all.take(k as int).push(e));
        assert(entry_views(r@) =~= entry_views(before).push((e.term, e.command@)));
        assert(proto_views(all.take(k + 1)) =~= proto_views(all.take(k as int)).push((e.term, e.command@)));
        assert(terms_of(r@) =~= terms_of(before).push(e.term));
        assert(proto_terms(all.take(k + 1)) =~= proto_terms(all.take(k as int)).push(e.term));
        k += 1;
        assert(rest@ =~= all.skip(k as int));
    }
    assert(all.take(k as int) =~= all);
    r
}


/// The terms of a sequence of entries.
pub open spec fn terms_of(s: Seq<LogEntry>) -> Seq<u64> {
    s.map_values(|e: LogEntry| e.term)
}

/// Whether `log` agrees with `terms`, placed from entry `base` on, on the
/// first `r` of them.
pub open spec fn agrees(log: RaftLogWithSnapShot, base: int, terms: Seq<u64>, r: int) -> bool {
    forall|j: int| 0 <= j < r ==> log.term_of(base + j) == #[trigger] terms[j]
}

/// Whether `log` and `terms`, placed from entry `base` on, first differ at
/// the `r`-th of them.
pub open spec fn diverges_at(log: RaftLogWithSnapShot, base: int, terms: Seq<u64>, r: int) -> bool {
    &&& 0 <= r < terms.len()
    &&& agrees(log, base, terms, r)
    &&& log.term_of(base + r) != terms[r]
}

/// Whether a peer in state `rf` grants the vote `args` asks for.
pub open spec fn grants(rf: Raft, args: RequestVoteArgs) -> bool {
    &&& args.term >= rf.term
    &&& rf.voted_for matches Some(v) ==> v == args.candidate_id
    &&& (args.last_log_term > rf.last_term() || (args.last_log_term == rf.last_term()
        && args.last_log_index >= rf.last_index()))
}

/// Whether a peer in state `rf` steps down on learning of `new_term`.
pub open spec fn steps_down(rf: Raft, new_term: u64) -> bool {
    new_term >= rf.term && ((rf.current_role == RaftRole::Leader && new_term > rf.term)
        || rf.current_role == RaftRole::Candidate)
}

} // verus!
